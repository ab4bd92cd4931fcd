use preflop_solver::cards::{all_combos, class_label_string, rank_character, Combo};
use preflop_solver::classes::Classes;
use preflop_solver::flop::{canonical_flop_orbits, canonical_flop_suits, public_flop_proposals, SUIT_PERMUTATIONS};

#[test]
fn canonical_flop_orbits_cover_every_raw_flop_once() {
    let orbits = canonical_flop_orbits();
    assert_eq!(orbits.len(), 1_755);
    assert_eq!(orbits.iter().map(|orbit| orbit.orbit_size).sum::<usize>(), 22_100);
    assert!(orbits.iter().all(|orbit| orbit.board == canonical_flop_suits(orbit.board)));
}

#[test]
fn canonical_flop_is_the_least_suit_renaming() {
    // 2c 2d 2h: any three deuces rename to the three lowest suits.
    assert_eq!(canonical_flop_suits([0, 1, 2]), [0, 1, 2]);
    assert_eq!(canonical_flop_suits([1, 2, 3]), [0, 1, 2]);
    // As Ks Qs (suit 3) renames to suit 0.
    assert_eq!(canonical_flop_suits([51, 47, 43]), [40, 44, 48]);
    // A rainbow flop keeps its ranks.
    let c = canonical_flop_suits([4, 9, 14]);
    assert_eq!(c.map(|card| card / 4), [1, 2, 3]);
    assert_eq!(canonical_flop_suits(c), c);
    // Orbit sizes: monotone flops have four renamings, rainbow flops 24.
    let orbits = canonical_flop_orbits();
    let monotone = orbits.iter().find(|o| o.board == [40, 44, 48]).unwrap();
    assert_eq!(monotone.orbit_size, 4);
    let trips = orbits.iter().find(|o| o.board == [0, 1, 2]).unwrap();
    assert_eq!(trips.orbit_size, 4);
    let rainbow = orbits.iter().find(|o| o.board == c).unwrap();
    assert_eq!(rainbow.orbit_size, 24);
}

#[test]
fn orbits_are_strictly_ordered_and_sizes_sum_per_suit_pattern() {
    let orbits = canonical_flop_orbits();
    for pair in orbits.windows(2) {
        assert!(pair[0].board < pair[1].board);
    }
    assert!(orbits.iter().all(|o| o.orbit_size > 0 && 24 % o.orbit_size == 0));
}

#[test]
fn flop_proposals_without_private_cards_cover_every_flop() {
    assert_eq!(public_flop_proposals(&[]), (22_100, 22_100));
    assert_eq!(public_flop_proposals(&[0]), (22_100, 20_825));
    assert_eq!(public_flop_proposals(&[0, 0]), (22_100, 20_825));
}

#[test]
fn combos_are_keyed_in_order_and_labelled_by_class() {
    let combos = all_combos();
    assert_eq!(combos.len(), 1326);
    for (i, c) in combos.iter().enumerate() {
        assert_eq!(c.key(), i);
        assert!(c.low < c.high && c.high < 52);
    }
    assert_eq!(Combo::new(51, 50).label(), "AA");
    assert_eq!(Combo::new(48, 44).label(), "AKs");
    assert_eq!(Combo::new(45, 48).label(), "AKo");
    assert_eq!(Combo::new(0, 5).label(), "32o");
    assert!(Combo::new(0, 1).overlaps(Combo::new(1, 2)));
    assert!(!Combo::new(0, 1).overlaps(Combo::new(2, 3)));
    assert_eq!(Combo::new(3, 7).cards(), [7, 3]);
    assert_eq!(rank_character(8), 'T');
    assert_eq!(class_label_string(12, 11, false), "AKo");
    assert_eq!(class_label_string(0, 0, true), "22");
}

#[test]
fn classes_list_every_label_once_with_its_combos() {
    let classes = Classes::new();
    assert_eq!(classes.labels.len(), 169);
    assert_eq!(classes.index.len(), 1326);
    assert_eq!(classes.counts.iter().sum::<usize>(), 1326);
    for pair in classes.labels.windows(2) {
        assert!(pair[0] < pair[1]);
    }
    for (key, combo) in all_combos().iter().enumerate() {
        assert_eq!(classes.labels[classes.index[key]], combo.label());
    }
    let pairs = classes.labels.iter().zip(&classes.counts).filter(|(l, _)| l.len() == 2).count();
    assert_eq!(pairs, 13);
    for (label, count) in classes.labels.iter().zip(&classes.counts) {
        let expected = if label.len() == 2 { 6 } else if label.ends_with('s') { 4 } else { 12 };
        assert_eq!(*count, expected, "{label}");
    }
}

#[test]
fn preflop_average_sweeps_one_key_per_class_in_order() {
    let keys = preflop_solver::classes::preflop_class_keys();
    assert_eq!(keys.len(), 169);
    let mut expected: Vec<String> = all_combos().iter().map(|c| format!("preflop:{}", c.label())).collect();
    expected.sort();
    expected.dedup();
    assert_eq!(keys, expected);
}

#[test]
fn renaming_suits_keeps_the_canonical_flop() {
    let mut seen = std::collections::BTreeSet::new();
    for perm in SUIT_PERMUTATIONS {
        assert!(seen.insert(perm));
        let mut sorted = perm;
        sorted.sort();
        assert_eq!(sorted, [0, 1, 2, 3]);
    }
    assert_eq!(seen.len(), 24);
    let board = [5u8, 22, 43];
    let canonical = canonical_flop_suits(board);
    for perm in SUIT_PERMUTATIONS {
        let mut renamed = board.map(|card| (card / 4) * 4 + perm[(card % 4) as usize]);
        renamed.sort();
        assert_eq!(canonical_flop_suits(renamed), canonical);
    }
}
