use preflop_solver::batch::{attribution_street_capacities, chance_round, split_attribution_capacities};
use preflop_solver::cards::{all_combos, Combo};
use preflop_solver::flop::public_flop_proposals;
use preflop_solver::kernel::{classes, ExactCheckdown, COMPATIBLE_FLOPS, SHOWDOWN_UNITS};

const FLOP_CHANCE_CORRECTION: f64 = 22_100.0 / 17_296.0;

#[test]
fn public_flop_proposal_has_exact_compatible_private_pair_correction() {
    let private = [51, 50, 47, 46];
    let (proposed, compatible) = public_flop_proposals(&private);
    assert_eq!((proposed, compatible), (22_100, 17_296));
    assert!((compatible as f64 / proposed as f64 * FLOP_CHANCE_CORRECTION - 1.0).abs() < 1e-15);
}

#[test]
fn independent_board_stream_preserves_each_traverser_and_reference() {
    for r in 1..=32 {
        assert_eq!(chance_round(r, 0, 1).unwrap(), r);
    }
    for actor in 0..2 {
        let draws: Vec<_> = (1..=16u64)
            .filter(|r| (r - 1) % 2 == actor)
            .flat_map(|r| (0..2).map(move |b| chance_round(r, b, 2).unwrap()))
            .collect();
        assert_eq!(draws, (1..=32u64).filter(|r| (r - 1) % 2 == actor).collect::<Vec<_>>());
    }
    assert!(chance_round(0, 0, 2).is_err());
    assert!(chance_round(1, 2, 2).is_err());
}

fn all_tie_kernel() -> ExactCheckdown {
    let (classes, _, multiplicities, pairs) = classes();
    ExactCheckdown {
        schema: "exact-preflop-checkdown-class-kernel-v1".into(),
        classes,
        class_multiplicities: multiplicities,
        compatible_pairs: pairs.clone(),
        weighted_flop_pairs: pairs.iter().map(|v| v * 17296).collect(),
        weighted_win_units: pairs.iter().map(|v| v * 17296 * 990).collect(),
        canonical_flops: 1755,
        raw_flops: 22100,
        complete: true,
    }
}

#[test]
fn exact_checkdown_counts_enforce_complete_chance_and_class_invariant_ranges() {
    // Synthetic all-tie game tests accounting independently of poker equity.
    let mut kernel = all_tie_kernel();
    kernel.validate().unwrap();
    kernel.weighted_flop_pairs[0] += 1;
    assert!(kernel.validate().is_err());
    kernel.weighted_flop_pairs[0] -= 1;
    kernel.complete = false;
    assert!(kernel.validate().is_err());
}

#[test]
fn kernel_rejects_a_win_split_that_is_not_zero_sum() {
    let mut kernel = all_tie_kernel();
    kernel.weighted_win_units[1] += 1;
    assert_eq!(
        kernel.validate().unwrap_err(),
        "exact kernel card-removal/orbit/zero-sum count mismatch"
    );
    kernel.weighted_win_units[1] -= 1;
    // Moving one unit across a symmetric pair of cells keeps the sum.
    let a = 0;
    let b = 1;
    let ab = a * 169 + b;
    let ba = b * 169 + a;
    if kernel.weighted_win_units[ab] > 0 {
        kernel.weighted_win_units[ab] -= 1;
        kernel.weighted_win_units[ba] += 1;
        kernel.validate().unwrap();
    }
}

#[test]
fn kernel_header_mismatches_are_refused() {
    let mut kernel = all_tie_kernel();
    kernel.raw_flops = 22_099;
    assert_eq!(
        kernel.validate().unwrap_err(),
        "incomplete or incompatible exact preflop checkdown kernel"
    );
    let mut kernel = all_tie_kernel();
    kernel.canonical_flops = 1754;
    assert!(kernel.validate().is_err());
    let mut kernel = all_tie_kernel();
    kernel.schema = "exact-preflop-checkdown-class-kernel-v2".into();
    assert!(kernel.validate().is_err());
    let mut kernel = all_tie_kernel();
    kernel.classes.swap(0, 1);
    assert!(kernel.validate().is_err());
    let mut kernel = all_tie_kernel();
    kernel.class_multiplicities[0] += 1;
    assert!(kernel.validate().is_err());
    let mut kernel = all_tie_kernel();
    kernel.compatible_pairs.pop();
    assert!(kernel.validate().is_err());
}

#[test]
fn class_tables_count_combos_and_disjoint_pairs() {
    let (labels, index, multiplicities, pairs) = classes();
    assert_eq!(labels.len(), 169);
    assert_eq!(index.len(), 1326);
    assert_eq!(multiplicities.iter().sum::<u64>(), 1326);
    let aa = labels.iter().position(|l| l == "AA").unwrap();
    let aks = labels.iter().position(|l| l == "AKs").unwrap();
    let ako = labels.iter().position(|l| l == "AKo").unwrap();
    assert_eq!(multiplicities[aa], 6);
    assert_eq!(multiplicities[aks], 4);
    assert_eq!(multiplicities[ako], 12);
    // Two aces leave one ace pair for the opponent.
    assert_eq!(pairs[aa * 169 + aa], 6);
    // Every combo leaves C(50, 2) opponent combos.
    assert_eq!(pairs.iter().sum::<u64>(), 1326 * 1225);
    assert_eq!(index[Combo::new(51, 50).key()], aa);
    assert_eq!(COMPATIBLE_FLOPS, 17_296);
    assert_eq!(SHOWDOWN_UNITS, 1_980);
    assert_eq!(all_combos().len(), 1326);
}

#[test]
fn attribution_capacities_split_the_budget_over_streets_and_workers() {
    assert_eq!(attribution_street_capacities(3), [1, 1, 1]);
    assert_eq!(attribution_street_capacities(100), [25, 30, 45]);
    let total = attribution_street_capacities(10);
    assert_eq!(total, [2, 3, 5]);
    let shares: Vec<[usize; 3]> = (0..3).map(|w| split_attribution_capacities(total, w, 3)).collect();
    assert_eq!(shares, vec![[1, 1, 2], [1, 1, 2], [0, 1, 1]]);
    for s in 0..3 {
        assert_eq!(shares.iter().map(|share| share[s]).sum::<usize>(), total[s]);
    }
}
