use preflop_solver::flop::canonical_flop_orbits;
use preflop_solver::orbit_plan::{deal_orbits_to_workers, select_flop_orbits, validate_range_cache_request, worker_plan};
use sha2::{Digest, Sha256};

fn key(seed: u64, board: [u8; 3]) -> Vec<u8> {
    let mut digest = Sha256::new();
    digest.update(b"hu-canonical-flop-orbit-order-v1");
    digest.update(seed.to_le_bytes());
    digest.update(board);
    digest.finalize().to_vec()
}

#[test]
fn range_cache_requests_are_checked() {
    assert!(validate_range_cache_request(10, 0, 64, 2, 4, 100, 10, true).is_ok());
    assert!(validate_range_cache_request(1755, 0, 1, 1, 1, 2, 1, true).is_ok());
    let invalid = "range continuation cache configuration is invalid";
    assert_eq!(validate_range_cache_request(0, 0, 64, 2, 4, 100, 10, true).unwrap_err(), invalid);
    assert_eq!(validate_range_cache_request(1, 1755, 64, 2, 4, 100, 10, true).unwrap_err(), invalid);
    assert_eq!(validate_range_cache_request(6, 1750, 64, 2, 4, 100, 10, true).unwrap_err(), invalid);
    assert_eq!(validate_range_cache_request(10, 0, 0, 2, 4, 100, 10, true).unwrap_err(), invalid);
    assert_eq!(validate_range_cache_request(10, 0, 64, 5, 4, 100, 10, true).unwrap_err(), invalid);
    assert_eq!(validate_range_cache_request(10, 0, 64, 2, 4, 100, 100, true).unwrap_err(), invalid);
    assert_eq!(validate_range_cache_request(10, 0, 64, 2, 4, 100, 10, false).unwrap_err(), invalid);
}

#[test]
fn seeded_shards_take_a_window_of_the_keyed_order() {
    let orbits = canonical_flop_orbits();
    let mut ranked: Vec<(Vec<u8>, usize)> = orbits.iter().enumerate().map(|(i, o)| (key(27, o.board), i)).collect();
    ranked.sort();
    let mut expected: Vec<[u8; 3]> = ranked[5..9].iter().map(|(_, i)| orbits[*i].board).collect();
    expected.sort();
    let shard = select_flop_orbits(&orbits, 27, 5, 4);
    assert_eq!(shard.iter().map(|o| o.board).collect::<Vec<_>>(), expected);
    assert_eq!(select_flop_orbits(&orbits, 27, 0, 1755).len(), 1755);
    let first = select_flop_orbits(&orbits, 27, 0, 1000);
    let second = select_flop_orbits(&orbits, 27, 1000, 755);
    assert_eq!(first.len() + second.len(), 1755);
    assert!(first.iter().all(|o| !second.contains(o)));
    assert_eq!(select_flop_orbits(&orbits, 27, 1750, 100).len(), 5);
}

#[test]
fn boards_are_dealt_round_robin() {
    assert_eq!(deal_orbits_to_workers(10, 3), vec![vec![0, 3, 6, 9], vec![1, 4, 7], vec![2, 5, 8]]);
    assert_eq!(deal_orbits_to_workers(2, 4), vec![vec![0], vec![1], vec![], vec![]]);
    assert_eq!(worker_plan(4, 2, 9), (2, 4));
    assert_eq!(worker_plan(4, 10, 2), (4, 1));
}

#[test]
fn a_shard_holds_as_many_orbits_as_its_span_covers() {
    let orbits = canonical_flop_orbits();
    assert_eq!(select_flop_orbits(&orbits, 3, 0, 7).len(), 7);
    assert_eq!(select_flop_orbits(&orbits, 3, 1754, 7).len(), 1);
    assert_eq!(select_flop_orbits(&orbits, 3, 1755, 7).len(), 0);
    assert_eq!(select_flop_orbits(&orbits, 3, 2000, 0).len(), 0);
}
