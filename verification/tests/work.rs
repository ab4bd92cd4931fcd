use preflop_solver::plan::{merge_causal_response_plan, CausalResponseInformationSet, CausalResponsePlan};
use preflop_solver::order::{compare_bytes, compare_text, compare_texts};
use preflop_solver::provenance::{
    merged_cache_origin, balanced_source_deal_indices, complete_source_deal_cycles, is_hex_digest, merge_source_deal_indices,
};
use std::path::PathBuf;

use preflop_solver::cards::all_combos;
use preflop_solver::requests::{
    CausalPolicyAttributionConfig, ContinuationCacheConfig, RangeSelfPlaySampleConfig, SampleGenerationConfig,
};
use preflop_solver::checkpoint::{checkpoint_receipt_name, checkpoint_state_name, padded_decimal, validate_progress};
use preflop_solver::workplan::{
    causal_attribution_work, causal_scenario_seed, causal_scenarios_per_deal, certificate_work, chunk_ranges,
    div_ceil, validate_causal_attribution, validate_causal_certificate_request, validate_certificate_request,
    validate_opponent_hidden_request,
};

#[test]
fn source_deal_cycles_require_every_unique_position() {
    let cycle_size = 2 * all_combos().len();
    let complete = (0..cycle_size).collect::<Vec<_>>();
    assert_eq!(complete_source_deal_cycles(&complete), 1);
    assert!(balanced_source_deal_indices(&complete));

    let mut split_across_cycles = (0..cycle_size / 2).collect::<Vec<_>>();
    split_across_cycles.extend(cycle_size..cycle_size + cycle_size / 2);
    assert_eq!(complete_source_deal_cycles(&split_across_cycles), 0);
    assert!(!balanced_source_deal_indices(&split_across_cycles));
}

#[test]
fn hex_digests_are_sixty_four_hex_characters() {
    assert!(is_hex_digest("b94d27b9934d3e08a52e52d7da7dabfac484efe37a5380ee9088f7ace2efcde9"));
    assert!(is_hex_digest("B94D27b9934d3e08a52e52d7da7dabfac484efe37a5380ee9088f7ace2efcde9"));
    assert!(!is_hex_digest("g94d27b9934d3e08a52e52d7da7dabfac484efe37a5380ee9088f7ace2efcde9"));
    assert!(!is_hex_digest("b94d27"));
}

#[test]
fn scenario_counts_are_cubes_times_samples() {
    assert_eq!(causal_scenarios_per_deal(2, 3), Some(24));
    assert_eq!(causal_scenarios_per_deal(0, 3), Some(0));
    assert_eq!(causal_scenarios_per_deal(u32::MAX, 1), None);
    // The cube alone already overflows, whatever the sample count.
    assert_eq!(causal_scenarios_per_deal(3_000_000, 0), None);
    assert_eq!(causal_scenarios_per_deal(2_000_000, 0), Some(0));
    assert_eq!(causal_scenarios_per_deal(1 << 16, 1 << 16), None);
    assert_eq!(causal_scenarios_per_deal(1 << 16, (1 << 16) - 1), Some((1u64 << 48) * ((1 << 16) - 1)));
}

#[test]
fn causal_attribution_requests_are_checked_in_order() {
    assert_eq!(validate_causal_attribution(4, 2, 2, 3, 10), Ok(24));
    assert_eq!(
        validate_causal_attribution(0, 0, 0, 0, 0).unwrap_err(),
        "causal attribution requires at least one deal"
    );
    assert_eq!(
        validate_causal_attribution(1, 0, 0, 0, 0).unwrap_err(),
        "causal attribution thread count must be positive"
    );
    assert_eq!(
        validate_causal_attribution(1, 1, 0, 3, 0).unwrap_err(),
        "causal attribution requires public and hidden-hand samples"
    );
    assert_eq!(
        validate_causal_attribution(1, 1, 2, 3, 2).unwrap_err(),
        "causal attribution requires at least three retained records"
    );
    assert_eq!(
        validate_causal_attribution(1, 1, 3_000_000, 1, 3).unwrap_err(),
        "causal attribution scenario count overflows"
    );
    assert_eq!(
        validate_causal_attribution(1, 1, 101, 1, 3).unwrap_err(),
        "causal attribution exceeds one million scenarios per deal"
    );
    assert_eq!(validate_causal_attribution(1, 1, 100, 1, 3), Ok(1_000_000));
}

#[test]
fn attribution_work_is_bounded_by_threads_deals_and_records() {
    let work = causal_attribution_work(10, 8, 10).unwrap();
    assert_eq!(work.capacities, [2, 3, 5]);
    assert_eq!(work.workers, 2);
    assert_eq!(work.chunk_size, 5);
    let work = causal_attribution_work(3, 8, 100).unwrap();
    assert_eq!(work.workers, 3);
    assert_eq!(work.chunk_size, 1);
    let work = causal_attribution_work(7, 2, 100).unwrap();
    assert_eq!(work.workers, 2);
    assert_eq!(work.chunk_size, 4);
}

#[test]
fn chunks_cover_every_deal_once() {
    assert_eq!(chunk_ranges(7, 3), vec![(0, 3), (3, 6), (6, 7)]);
    assert_eq!(chunk_ranges(6, 3), vec![(0, 3), (3, 6)]);
    assert_eq!(chunk_ranges(0, 3), vec![]);
    assert_eq!(div_ceil(7, 2), 4);
    assert_eq!(div_ceil(8, 2), 4);
    assert_eq!(div_ceil(0, 5), 0);
    assert_eq!(certificate_work(10, 4), (4, 3));
    assert_eq!(certificate_work(3, 8), (3, 1));
}

#[test]
fn scenario_seeds_mix_deal_and_responder() {
    let expected = 5u64
        ^ 9u64.wrapping_mul(0x9e37_79b9_7f4a_7c15)
        ^ 2u64.wrapping_mul(0xbf58_476d_1ce4_e5b9);
    assert_eq!(causal_scenario_seed(5, 9, 1), expected);
    assert_ne!(causal_scenario_seed(5, 9, 0), expected);
}

#[test]
fn certificate_requests_are_checked_in_order() {
    assert!(validate_certificate_request(2, true, 1).is_ok());
    assert_eq!(
        validate_certificate_request(1, true, 1).unwrap_err(),
        "exploitability certification requires at least two deals"
    );
    assert_eq!(
        validate_certificate_request(2, false, 0).unwrap_err(),
        "certificate confidence must be strictly between zero and one"
    );
    assert_eq!(validate_certificate_request(2, true, 0).unwrap_err(), "certificate thread count must be positive");
    assert_eq!(
        validate_opponent_hidden_request(2, 0, false, 0).unwrap_err(),
        "opponent-hidden certification requires opponent samples"
    );
    assert!(validate_opponent_hidden_request(2, 3, true, 1).is_ok());
    assert_eq!(validate_causal_certificate_request(2, 2, 3, true, 1), Ok(24));
    assert_eq!(
        validate_causal_certificate_request(2, 0, 3, true, 1).unwrap_err(),
        "causal certification requires public chance branches"
    );
    assert_eq!(
        validate_causal_certificate_request(2, 2, 0, true, 1).unwrap_err(),
        "causal certification requires hidden-hand samples"
    );
    assert_eq!(
        validate_causal_certificate_request(2, 101, 1, true, 1).unwrap_err(),
        "causal certificate exceeds one million scenarios per deal"
    );
}

fn info(history: &[&str], board: &[u8]) -> CausalResponseInformationSet {
    CausalResponseInformationSet {
        public_history: history.iter().map(|s| s.to_string()).collect(),
        observed_board: board.to_vec(),
    }
}

#[test]
fn response_plans_merge_until_the_first_conflict() {
    let mut target = CausalResponsePlan::new();
    assert_eq!(target.insert(info(&["call"], &[1, 2, 3]), 0), None);
    assert_eq!(target.insert(info(&["call"], &[1, 2, 3]), 1), Some(0));
    let mut source = CausalResponsePlan::new();
    source.insert(info(&["call"], &[1, 2, 3]), 1);
    source.insert(info(&["call", "bet"], &[1, 2, 3]), 2);
    assert!(merge_causal_response_plan(&mut target, source).is_ok());
    assert_eq!(target.len(), 2);
    assert_eq!(target.get(&info(&["call", "bet"], &[1, 2, 3])), Some(2));
    let mut conflicting = CausalResponsePlan::new();
    conflicting.insert(info(&["fold"], &[]), 4);
    conflicting.insert(info(&["call", "bet"], &[1, 2, 3]), 0);
    conflicting.insert(info(&["raise"], &[]), 5);
    assert_eq!(conflicting.len(), 3);
    assert_eq!(
        merge_causal_response_plan(&mut target, conflicting).unwrap_err(),
        "causal response plan selected conflicting actions"
    );
    // Information sets merge in their order, so the conflict at
    // ["call", "bet"] stops the merge before ["fold"] and ["raise"].
    assert_eq!(target.len(), 2);
    assert_eq!(target.get(&info(&["call", "bet"], &[1, 2, 3])), Some(0));
    assert_eq!(target.get(&info(&["fold"], &[])), None);
    assert_eq!(target.get(&info(&["raise"], &[])), None);
}

#[test]
fn response_plans_that_agree_merge_to_their_union() {
    let mut target = CausalResponsePlan::new();
    target.insert(info(&["check"], &[4, 5, 6]), 1);
    target.insert(info(&["bet"], &[4, 5, 6]), 0);
    let mut source = CausalResponsePlan::new();
    source.insert(info(&["bet"], &[4, 5, 6]), 0);
    source.insert(info(&["bet"], &[4, 5, 7]), 2);
    assert!(merge_causal_response_plan(&mut target, source).is_ok());
    assert_eq!(target.len(), 3);
    assert_eq!(target.get(&info(&["check"], &[4, 5, 6])), Some(1));
    assert_eq!(target.get(&info(&["bet"], &[4, 5, 6])), Some(0));
    assert_eq!(target.get(&info(&["bet"], &[4, 5, 7])), Some(2));
    assert_eq!(target.get(&info(&["bet"], &[4, 5])), None);
}

#[test]
fn checkpoint_names_pad_the_round_to_four_digits() {
    assert_eq!(checkpoint_state_name(4), "round0004.mpk.gz");
    assert_eq!(checkpoint_receipt_name(4), "round0004.json");
    assert_eq!(checkpoint_state_name(12345), "round12345.mpk.gz");
    assert_eq!(checkpoint_receipt_name(0), "round0000.json");
    assert_eq!(padded_decimal(7, 0), "7");
    assert_eq!(padded_decimal(1020, 6), "001020");
    assert_eq!(padded_decimal(u64::MAX, 4), u64::MAX.to_string());
}

#[test]
fn checkpoint_progress_must_be_a_contiguous_prefix() {
    assert!(validate_progress(&[Some(1), Some(2), Some(3), Some(4)], 4).is_ok());
    assert!(validate_progress(&[], 0).is_err());
    assert!(validate_progress(&[Some(1), Some(2)], 3).is_err());
    assert!(validate_progress(&[Some(1), Some(3)], 2).is_err());
    assert_eq!(
        validate_progress(&[Some(1), None], 2).unwrap_err(),
        "checkpoint progress is not a complete contiguous prefix"
    );
}

#[test]
fn provenance_chunks_merge_in_source_order_and_reject_overlap() {
    let first = [0usize, 1, 2, 3];
    let second = [4usize, 5, 6, 7];
    let order = merge_source_deal_indices(&second, &first).unwrap();
    assert_eq!(order.iter().map(|(index, _)| *index).collect::<Vec<_>>(), (0..8).collect::<Vec<_>>());
    assert_eq!(order.iter().map(|(_, position)| *position).collect::<Vec<_>>(), vec![4, 5, 6, 7, 0, 1, 2, 3]);
    assert_eq!(
        merge_source_deal_indices(&first, &[3, 4, 5, 6]).unwrap_err(),
        "continuation cache chunks overlap source deal indices"
    );
    let interleaved = merge_source_deal_indices(&[9, 2], &[5]).unwrap();
    assert_eq!(interleaved, vec![(2, 1), (5, 2), (9, 0)]);
}

#[test]
fn every_round_has_its_own_checkpoint_names() {
    let names: std::collections::BTreeSet<String> = (0..20_000).map(checkpoint_state_name).collect();
    assert_eq!(names.len(), 20_000);
    let receipts: std::collections::BTreeSet<String> = (0..20_000).map(checkpoint_receipt_name).collect();
    assert_eq!(receipts.len(), 20_000);
}

fn sampling(traversals: u64, max_records: usize, rollouts: u32, trajectories: bool, evaluate: bool) -> SampleGenerationConfig<()> {
    SampleGenerationConfig {
        game: (),
        traversals,
        start_iteration: 0,
        seed: 1,
        max_records,
        output: PathBuf::from("samples.jsonl.gz"),
        network_path: None,
        trajectory_sampling: trajectories,
        evaluate_trajectory_values: evaluate,
        value_rollouts_per_action: rollouts,
        enumerate_turn_river_chance: false,
    }
}

#[test]
fn sample_generation_settings_are_checked_in_order() {
    assert!(sampling(1, 1, 1, false, false).check_sampling().is_ok());
    assert!(sampling(1, 1, 2, true, true).check_sampling().is_ok());
    assert_eq!(sampling(0, 0, 0, false, true).check_sampling().unwrap_err(), "neural traversals must be positive");
    assert_eq!(sampling(1, 0, 0, false, true).check_sampling().unwrap_err(), "neural record limit must be positive");
    assert_eq!(sampling(1, 1, 0, false, true).check_sampling().unwrap_err(), "value rollouts per action must be positive");
    assert_eq!(
        sampling(1, 1, 1, false, true).check_sampling().unwrap_err(),
        "trajectory action-value evaluation requires trajectory sampling"
    );
    assert_eq!(
        sampling(1, 1, 1, true, true).check_sampling().unwrap_err(),
        "trajectory action-value evaluation requires at least two rollouts"
    );
}

#[test]
fn self_play_attribution_and_cache_requests_are_checked() {
    let self_play = |traversals: u64, max_records: usize, rollouts: u32| RangeSelfPlaySampleConfig {
        game: (),
        traversals,
        start_iteration: 0,
        seed: 0,
        max_records,
        network_path: PathBuf::from("network.json"),
        range_policy_path: PathBuf::from("range.json"),
        value_rollouts_per_action: rollouts,
        enumerate_turn_river_chance: true,
        output: PathBuf::from("out.jsonl.gz"),
    };
    assert!(self_play(2, 3, 2).check_request().is_ok());
    assert_eq!(self_play(1, 3, 2).check_request().unwrap_err(), "range self-play requires two traversals and three records");
    assert_eq!(
        self_play(2, 3, 1).check_request().unwrap_err(),
        "range self-play action values require at least two rollouts"
    );
    let attribution = CausalPolicyAttributionConfig {
        game: (),
        deals: 4,
        seed: 0,
        threads: 2,
        network_path: PathBuf::from("network.json"),
        range_policy_path: None,
        public_branches_per_street: 2,
        opponent_samples_per_runout: 3,
        max_records: 10,
        output: PathBuf::from("out.jsonl.gz"),
    };
    assert_eq!(attribution.check_request(), Ok(24));
    let cache = |deals: usize, rollouts: u32, policies: usize| ContinuationCacheConfig {
        game: (),
        deals,
        seed: 0,
        rollouts_per_leaf: rollouts,
        network_paths: (0..policies).map(|i| PathBuf::from(format!("policy{i}.json"))).collect(),
    };
    assert!(cache(2, 4, 2).check_request().is_ok());
    assert_eq!(cache(1, 4, 2).check_request().unwrap_err(), "continuation cache requires at least two deals and rollouts");
    assert_eq!(
        cache(2, 5, 2).check_request().unwrap_err(),
        "continuation cache requires an equal positive rollout count per frozen policy"
    );
    assert!(cache(2, 2, 0).check_request().is_err());
    assert!(cache(2, 2, 3).check_request().is_err());
}

#[test]
fn comparisons_follow_the_lexicographic_orders() {
    assert_eq!(compare_text("call", "call"), 0);
    assert_eq!(compare_text("call", "check"), -1);
    assert_eq!(compare_text("check", "call"), 1);
    assert_eq!(compare_text("bet", "bet10"), -1);
    assert_eq!(compare_text("", "a"), -1);
    assert_eq!(compare_bytes(&vec![1, 2, 3], &vec![1, 2]), 1);
    assert_eq!(compare_bytes(&vec![1, 2], &vec![1, 3]), -1);
    assert_eq!(compare_bytes(&vec![], &vec![]), 0);
    let a = vec!["call".to_string(), "bet".to_string()];
    let b = vec!["call".to_string()];
    let c = vec!["fold".to_string()];
    assert_eq!(compare_texts(&a, &b), 1);
    assert_eq!(compare_texts(&a, &c), -1);
    assert_eq!(compare_texts(&c, &c), 0);
}

#[test]
fn merged_caches_keep_or_mix_their_seeds() {
    let second = 0x8000_0000_0000_0001u64;
    let (seed, label) = merged_cache_origin(false, 5, second);
    assert_eq!(seed, 5 ^ second.rotate_left(1));
    assert_eq!(seed, 6);
    assert_eq!(label, "concatenated_independent_balanced_exact_combo_cycles");
    let (seed, label) = merged_cache_origin(true, 5, second);
    assert_eq!(seed, 5);
    assert_eq!(label, "concatenated_provenance_checked_continuation_chunks");
}
