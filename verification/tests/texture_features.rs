use preflop_solver::game::Street;
use preflop_solver::texture_features::texture_feature_counts;

fn expected(ones: &[usize], counts: &[(usize, u8)]) -> Vec<u8> {
    let mut v = vec![0u8; 64];
    for i in ones {
        v[*i] = 1;
    }
    for (i, c) in counts {
        v[*i] = *c;
    }
    v
}

#[test]
fn an_overpair_on_a_dry_flop() {
    let features = texture_feature_counts([48, 49], &[44, 21, 2], Street::Flop, 1);
    assert_eq!(features, expected(&[0, 2, 10, 14, 19, 26, 29, 30, 31, 42, 46, 53, 56, 61], &[(62, 3)]));
}

#[test]
fn an_open_ended_flush_draw_on_the_turn() {
    let features = texture_feature_counts([36, 33], &[28, 24, 4, 49], Street::Turn, 0);
    assert_eq!(
        features,
        expected(&[0, 1, 10, 16, 20, 26, 27, 41, 48, 51, 55, 58, 61, 63], &[(62, 4)])
    );
    let river = texture_feature_counts([36, 33], &[28, 24, 4, 49, 0], Street::River, 0);
    assert_eq!(river[51], 0);
    assert_eq!(river[53], 1);
    assert_eq!(river[55], 0);
}

#[test]
fn preflop_texture_marks_only_pocket_pairs() {
    assert_eq!(texture_feature_counts([0, 1], &[], Street::Preflop, 0), expected(&[30], &[]));
    assert_eq!(texture_feature_counts([0, 4], &[], Street::Preflop, 0), vec![0u8; 64]);
}

#[test]
fn postflop_texture_features_capture_made_hand_draw_and_board() {
    // Ac Kd on Kc Qc Jc (the flop of [44, 40, 36, 0, 4]): one pair, four
    // clubs, and one rank that completes a straight. The board is monotone
    // and connected.
    let texture = texture_feature_counts([48, 45], &[44, 40, 36], Street::Flop, 1);
    assert_eq!(texture.len(), 64);
    assert_eq!(texture[0], 1);
    assert_eq!(texture[2], 1); // one pair
    assert_eq!(texture[16], 1); // three board cards share a suit
    assert_eq!(texture[21], 1); // three ranks in a straight window
    assert_eq!(texture[28], 1); // one overcard
    assert_eq!(texture[32], 1); // hole card pairs top board rank
    assert_eq!(texture[36], 1); // exactly one hole rank matches
    assert_eq!(texture[48], 1); // four visible cards share a suit
    assert_eq!(texture[51], 1); // flush draw
    assert_eq!(texture[54], 1); // one straight-completing rank
    assert_eq!(texture[58], 1); // monotone board
    assert_eq!(texture[59], 1); // connected board
}

#[test]
fn renaming_suits_leaves_the_texture_unchanged() {
    let perm = [2u8, 0, 3, 1];
    let rename = |card: u8| (card / 4) * 4 + perm[(card % 4) as usize];
    let private = [36u8, 33];
    let board = [28u8, 24, 4, 49];
    let renamed_board: Vec<u8> = board.iter().map(|c| rename(*c)).collect();
    assert_eq!(
        texture_feature_counts([rename(private[0]), rename(private[1])], &renamed_board, Street::Turn, 0),
        texture_feature_counts(private, &board, Street::Turn, 0)
    );
}
