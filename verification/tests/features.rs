use preflop_solver::cards::Combo;
use preflop_solver::configs::{
    validate_flop_resolver, validate_river_resolver, validate_turn_resolver, PreflopSolverVariant, RiverResolverConfig, TurnResolverConfig,
};
use preflop_solver::deals::Deal;
use preflop_solver::game::{street_index, trajectory_kind_index, Street, TrajectoryActionKind};
use preflop_solver::info::{exact_combo_count, hand_class, information_key, neural_policy_information_key};
use preflop_solver::texture::{
    canonical_card, canonical_suit_map, matches_rank, rank_mask_has_straight, straight_window_density,
};

#[test]
fn rank_helpers_find_ranks_and_straights() {
    // Kc Qc Jc: ranks 11, 10, 9.
    assert!(matches_rank(&[44, 40, 36], 10));
    assert!(!matches_rank(&[44, 40, 36], 12));
    assert!(!matches_rank(&[], 0));
    let broadway = (1 << 12) | (1 << 11) | (1 << 10) | (1 << 9) | (1 << 8);
    assert!(rank_mask_has_straight(broadway));
    let wheel = (1 << 12) | 0b1111;
    assert!(rank_mask_has_straight(wheel));
    assert!(!rank_mask_has_straight(0b1_0111));
    assert_eq!(straight_window_density(0b1_0111), 4);
    assert_eq!(straight_window_density(wheel), 5);
    assert_eq!(straight_window_density(0), 0);
    assert_eq!(straight_window_density((1 << 12) | 0b11), 3);
    assert_eq!(straight_window_density((1 << 11) | (1 << 10) | (1 << 9)), 3);
}

#[test]
fn canonical_suits_order_by_private_then_board_then_suit() {
    // Private As Ah (suits 3 and 2), board on clubs (suit 0).
    let map = canonical_suit_map([51, 50], &[0, 4, 8]);
    assert_eq!(map, [2, 3, 0, 1]);
    let mut sorted = map;
    sorted.sort();
    assert_eq!(sorted, [0, 1, 2, 3]);
    assert_eq!(canonical_card(51, &map), 49);
    assert_eq!(canonical_card(0, &map), 2);
    // Only clubs hold a card: every other suit keeps its order.
    assert_eq!(canonical_suit_map([0, 0], &[]), [0, 1, 2, 3]);
}

#[test]
fn suit_permutations_keep_canonical_cards() {
    let holes = [48u8, 45];
    let board = [0u8, 5, 10, 15, 20];
    let permute = |card: u8| (card / 4) * 4 + ((card % 4 + 1) % 4);
    let map = canonical_suit_map(holes, &board);
    let permuted_holes = holes.map(permute);
    let permuted_board = board.map(permute);
    let permuted_map = canonical_suit_map(permuted_holes, &permuted_board);
    let original: Vec<usize> = holes.iter().chain(&board).map(|c| canonical_card(*c, &map)).collect();
    let renamed: Vec<usize> =
        permuted_holes.iter().chain(&permuted_board).map(|c| canonical_card(*c, &permuted_map)).collect();
    assert_eq!(original, renamed);
}

#[test]
fn feature_slots_follow_street_and_action_order() {
    assert_eq!(street_index(Street::Preflop), 0);
    assert_eq!(street_index(Street::River), 3);
    assert_eq!(trajectory_kind_index(TrajectoryActionKind::Fold), 0);
    assert_eq!(trajectory_kind_index(TrajectoryActionKind::AllIn), 5);
    assert_eq!(Street::Turn.board_len(), 4);
}

#[test]
fn preflop_information_key_hides_opponent_cards_and_future_board() {
    let history = vec!["limp".to_string(), "raise_to_5.000bb".to_string()];
    let a = Deal::from_cards([[51, 47], [0, 1]], [2, 3, 4, 5, 6]);
    let b = Deal::from_cards([[50, 46], [10, 20]], [30, 31, 32, 33, 34]);
    assert_eq!(hand_class(&a, 0), "AKs");
    assert_eq!(information_key(0, &a, &history), "p0|AKs|limp/raise_to_5.000bb");
    assert_eq!(information_key(0, &a, &history), information_key(0, &b, &history));
    assert_eq!(neural_policy_information_key(1, &a, &[]), "p1|22|");
    assert_ne!(information_key(1, &a, &history), information_key(1, &b, &history));
    assert_eq!(Combo::new(0, 1).label(), "22");
}

#[test]
fn exact_combo_counts_follow_the_label_shape() {
    assert_eq!(exact_combo_count("AA"), 6);
    assert_eq!(exact_combo_count("T9s"), 4);
    assert_eq!(exact_combo_count("T9o"), 12);
}

#[test]
fn resolver_configurations_need_a_range_policy_and_a_schedule() {
    assert_eq!(PreflopSolverVariant::default(), PreflopSolverVariant::Dcfr);
    let river = RiverResolverConfig { iterations: 10, averaging_delay: 2 };
    assert!(validate_river_resolver(true, river).is_ok());
    assert_eq!(
        validate_river_resolver(false, river).unwrap_err(),
        "river resolving requires a range-conditioned policy"
    );
    assert_eq!(
        validate_river_resolver(true, RiverResolverConfig { iterations: 1, averaging_delay: 0 }).unwrap_err(),
        "river resolver configuration is invalid"
    );
    assert!(validate_river_resolver(true, RiverResolverConfig { iterations: 4, averaging_delay: 4 }).is_err());
    let turn = TurnResolverConfig { iterations: 2, averaging_delay: 1, river_refinement_iterations: 0, regret_matching_plus: true };
    assert!(validate_turn_resolver(true, turn).is_ok());
    assert_eq!(
        validate_turn_resolver(false, turn).unwrap_err(),
        "turn resolving requires a range-conditioned policy"
    );
    assert_eq!(
        validate_turn_resolver(true, TurnResolverConfig { averaging_delay: 2, ..turn }).unwrap_err(),
        "turn resolver configuration is invalid"
    );
}

#[test]
fn flop_resolvers_need_a_range_policy_and_a_sound_schedule() {
    assert!(validate_flop_resolver(true, 64, 16, 2, true).is_ok());
    assert_eq!(
        validate_flop_resolver(false, 1, 16, 0, false).unwrap_err(),
        "flop resolving requires a range-conditioned policy"
    );
    let invalid = "flop resolver configuration is invalid";
    assert_eq!(validate_flop_resolver(true, 1, 0, 2, true).unwrap_err(), invalid);
    assert_eq!(validate_flop_resolver(true, 64, 64, 2, true).unwrap_err(), invalid);
    assert_eq!(validate_flop_resolver(true, 64, 16, 0, true).unwrap_err(), invalid);
    assert_eq!(validate_flop_resolver(true, 64, 16, 2, false).unwrap_err(), invalid);
}
