use std::collections::BTreeSet;

use preflop_solver::cards::{all_combos, Combo};
use preflop_solver::deals::{
    deal_for_policy_combo, deal_for_policy_combo_on_board, exact_river_deals, observed_public_board,
    sample_opponent_hidden_scenarios, sample_without_replacement, stratified_deal, Deal,
};
use preflop_solver::game::Street;
use preflop_solver::scenarios::sample_causal_scenarios;

#[test]
fn exact_turn_river_chance_enumerates_every_unblocked_card() {
    let deal = Deal::from_cards([[0, 1], [2, 3]], [4, 5, 6, 7, 51]);
    let rivers = exact_river_deals(&deal);
    assert_eq!(rivers.len(), 44);
    let cards = rivers.iter().map(|candidate| candidate.board[4]).collect::<BTreeSet<_>>();
    assert_eq!(cards.len(), 44);
    assert!(cards.iter().all(|card| ![0, 1, 2, 3, 4, 5, 6, 7].contains(card)));
    assert!(cards.contains(&51));
}

#[test]
fn river_deals_keep_hands_and_turn_board_in_ascending_order() {
    let deal = Deal::from_cards([[10, 20], [30, 40]], [1, 2, 3, 4, 5]);
    let rivers = exact_river_deals(&deal);
    assert_eq!(rivers.len(), 44);
    assert_eq!(rivers[0].board, [1, 2, 3, 4, 0]);
    assert_eq!(rivers[1].board[4], 5);
    for pair in rivers.windows(2) {
        assert!(pair[0].board[4] < pair[1].board[4]);
    }
    assert!(rivers.iter().all(|r| r.holes == deal.holes && r.board[..4] == deal.board[..4]));
}

#[test]
fn observed_board_sorts_only_the_flop() {
    let deal = Deal::from_cards([[0, 1], [2, 3]], [30, 10, 20, 9, 8]);
    assert_eq!(observed_public_board(&deal, Street::Preflop), Vec::<u8>::new());
    assert_eq!(observed_public_board(&deal, Street::Flop), vec![10, 20, 30]);
    assert_eq!(observed_public_board(&deal, Street::Turn), vec![10, 20, 30, 9]);
    assert_eq!(observed_public_board(&deal, Street::River), vec![10, 20, 30, 9, 8]);
}

#[test]
fn policy_deal_fills_the_lowest_free_cards() {
    let combo = Combo::new(0, 1);
    let deal = deal_for_policy_combo(combo, 0);
    assert_eq!(deal.holes, [[1, 0], [2, 3]]);
    assert_eq!(deal.board, [4, 5, 6, 7, 8]);
    let deal = deal_for_policy_combo(combo, 1);
    assert_eq!(deal.holes, [[2, 3], [1, 0]]);

    let on_board = deal_for_policy_combo_on_board(Combo::new(51, 50), 0, &[2, 0, 7]).unwrap();
    assert_eq!(on_board.holes, [[51, 50], [1, 3]]);
    assert_eq!(on_board.board, [2, 0, 7, 4, 5]);
    let full = deal_for_policy_combo_on_board(Combo::new(51, 50), 1, &[2, 0, 7, 9, 11]).unwrap();
    assert_eq!(full.holes, [[1, 3], [51, 50]]);
    assert_eq!(full.board, [2, 0, 7, 9, 11]);
}

#[test]
fn policy_deal_refuses_conflicting_or_long_boards() {
    let combo = Combo::new(51, 50);
    assert_eq!(
        deal_for_policy_combo_on_board(combo, 0, &[1, 2, 3, 4, 5, 6]).unwrap_err(),
        "source policy board contains more than five cards"
    );
    assert_eq!(
        deal_for_policy_combo_on_board(combo, 0, &[1, 51, 3]).unwrap_err(),
        "source policy private cards conflict with the public board"
    );
    assert_eq!(
        deal_for_policy_combo_on_board(combo, 0, &[1, 3, 1]).unwrap_err(),
        "source policy private cards conflict with the public board"
    );
}

#[test]
fn drawing_without_replacement_is_a_partial_shuffle() {
    let available = [10, 11, 12, 13, 14];
    let (drawn, rest) = sample_without_replacement(&available, 2, &[3, 0]);
    // Step 0 swaps positions 0 and 3; step 1 swaps position 1 with itself.
    assert_eq!(drawn, vec![13, 11]);
    assert_eq!(rest, vec![12, 10, 14]);
    let (drawn, rest) = sample_without_replacement(&available, 5, &[9, 9, 9, 9, 9]);
    let mut all = drawn.clone();
    all.extend(rest);
    all.sort();
    assert_eq!(all, available.to_vec());
    let (none, everything) = sample_without_replacement(&available, 0, &[]);
    assert!(none.is_empty());
    assert_eq!(everything, available.to_vec());
}

#[test]
fn hidden_scenarios_keep_responder_and_board_and_draw_free_pairs() {
    let template = Deal::from_cards([[48, 49], [0, 1]], [2, 3, 4, 5, 6]);
    let draws: Vec<usize> = (0..20).map(|i| i * 7 + 3).collect();
    let deals = sample_opponent_hidden_scenarios(&template, 0, 10, &draws);
    assert_eq!(deals.len(), 10);
    for deal in &deals {
        assert_eq!(deal.holes[0], [48, 49]);
        assert_eq!(deal.board, template.board);
        let cards = deal.holes.iter().flatten().chain(&deal.board).collect::<BTreeSet<_>>();
        assert_eq!(cards.len(), 9);
    }
    // The free cards are 0, 1, 7, 8, ..., 47, 50, 51. The first draw picks
    // position 3; the second, 10, moves past the first pick to position 11.
    assert_eq!(deals[0].holes[1], [8, 16]);
}

#[test]
fn complete_stratified_cycle_covers_every_exact_combo_for_both_seats() {
    let combos = all_combos();
    let count = combos.len();
    let deals = (0..2 * count)
        .map(|index| stratified_deal(index, &combos, index * 31 + 7, &[index, 3 * index, 5, 11 * index, 2]))
        .collect::<Vec<_>>();
    for player in 0..2 {
        let observed = deals
            .iter()
            .map(|deal| Combo::new(deal.holes[player][0], deal.holes[player][1]).key())
            .collect::<BTreeSet<_>>();
        assert_eq!(observed.len(), count);
    }
    for deal in &deals {
        let cards = deal.holes.iter().flatten().chain(&deal.board).collect::<BTreeSet<_>>();
        assert_eq!(cards.len(), 9);
    }
    assert_eq!(preflop_solver::info::exact_combo_count("AA"), 6);
    assert_eq!(preflop_solver::info::exact_combo_count("AKs"), 4);
    assert_eq!(preflop_solver::info::exact_combo_count("AKo"), 12);
}

#[test]
fn causal_scenarios_preserve_cards_and_nested_public_information() {
    let responder_holes = [48, 49];
    // Two flops, two turns per flop, two rivers per turn, three hidden hands
    // per runout: 2 * (3 + 2 * (1 + 2 * (1 + 2 * 3))) draws in all.
    let draws: Vec<usize> = (0..66).map(|i| (i * 2_654_435_761usize) % 1_000_003).collect();
    let scenarios = sample_causal_scenarios(responder_holes, 0, 2, 3, &draws);
    assert_eq!(scenarios.len(), 24);
    for deal in &scenarios {
        assert_eq!(deal.holes[0], responder_holes);
        let cards = deal.holes.into_iter().flatten().chain(deal.board).collect::<BTreeSet<_>>();
        assert_eq!(cards.len(), 9);
    }
    let flop_groups = scenarios.iter().map(|deal| observed_public_board(deal, Street::Flop)).collect::<BTreeSet<_>>();
    let turn_groups = scenarios.iter().map(|deal| observed_public_board(deal, Street::Turn)).collect::<BTreeSet<_>>();
    let river_groups = scenarios.iter().map(|deal| observed_public_board(deal, Street::River)).collect::<BTreeSet<_>>();
    assert!(flop_groups.len() <= 2);
    assert!(turn_groups.len() <= 4);
    assert!(river_groups.len() <= 8);
    assert!(flop_groups.len() <= turn_groups.len());
    assert!(turn_groups.len() <= river_groups.len());
    // Consecutive blocks of twelve share a flop, of six a turn, of three a river.
    for block in scenarios.chunks(12) {
        assert!(block.iter().all(|d| d.board[..3] == block[0].board[..3]));
    }
    for block in scenarios.chunks(3) {
        assert!(block.iter().all(|d| d.board == block[0].board));
    }
}

#[test]
fn stratified_cycle_position_fixes_seat_and_combo() {
    let combos = vec![Combo::new(51, 50), Combo::new(3, 0), Combo::new(20, 7)];
    let count = combos.len();
    for player in 0..2 {
        for c in 0..count {
            let index = player * count + c;
            let deal = stratified_deal(index, &combos, index, &[1, 2, 3, 4, 5]);
            assert_eq!(deal.holes[player], combos[c].cards());
            let other = deal.holes[1 - player];
            assert!(combos.iter().any(|combo| combo.cards() == other));
        }
    }
}
