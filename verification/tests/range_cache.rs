use preflop_solver::range_cache::{
    merge_range_continuation_caches, sort_shard_boards, RangeContinuationBoardShape, RangeContinuationCacheShape,
};

const DIGEST: &str = "0123456789abcdef0123456789abcdef0123456789abcdef0123456789abcdef";
const MESSAGE: &str = "range continuation cache is incomplete or incompatible";

fn board(cards: [u8; 3], orbit_size: usize, keys: &[u64]) -> RangeContinuationBoardShape {
    RangeContinuationBoardShape {
        board: cards,
        orbit_size,
        continuations: keys.iter().map(|key| (*key, [1326, 1326])).collect(),
    }
}

fn shape() -> RangeContinuationCacheShape {
    RangeContinuationCacheShape {
        schema: "hu-preflop-range-continuation-cache-v2".to_string(),
        seed: 17,
        complete_canonical_flop_enumeration: false,
        covered_raw_flops: 16,
        board_workers: 2,
        policy_model_version: "range-policy-v3".to_string(),
        policy_sha256: DIGEST.to_string(),
        value_network_sha256: DIGEST.to_uppercase(),
        evaluation_value_network_sha256: None,
        range_policy_sha256: Some(DIGEST.to_string()),
        resolver_iterations: 8,
        resolver_averaging_delay: 2,
        resolver_threads: 1,
        regret_matching_plus: true,
        history_keys: vec![3, 9],
        reach_keys: vec![3, 9],
        boards: vec![board([0, 4, 8], 4, &[3, 9]), board([0, 1, 4], 12, &[3, 9])],
        reach_values_valid: true,
        continuation_values_valid: true,
        parameters_valid: true,
    }
}

#[test]
fn a_well_formed_range_cache_shape_is_accepted() {
    assert!(shape().validate(Ok(())).is_ok());
}

#[test]
fn range_cache_boards_must_be_distinct_canonical_flops() {
    let mut duplicate = shape();
    duplicate.boards[1] = board([0, 4, 8], 12, &[3, 9]);
    assert_eq!(duplicate.validate(Ok(())).unwrap_err(), MESSAGE);
    let mut relabelled = shape();
    relabelled.boards[0] = board([1, 5, 9], 4, &[3, 9]);
    assert_eq!(relabelled.validate(Ok(())).unwrap_err(), MESSAGE);
    let mut odd_orbit = shape();
    odd_orbit.boards[0].orbit_size = 6;
    odd_orbit.covered_raw_flops = 18;
    assert_eq!(odd_orbit.validate(Ok(())).unwrap_err(), MESSAGE);
}

#[test]
fn range_cache_coverage_must_add_up() {
    let mut short = shape();
    short.covered_raw_flops = 15;
    assert_eq!(short.validate(Ok(())).unwrap_err(), MESSAGE);
    let mut complete = shape();
    complete.complete_canonical_flop_enumeration = true;
    assert_eq!(complete.validate(Ok(())).unwrap_err(), MESSAGE);
}

#[test]
fn range_cache_histories_must_match_everywhere() {
    let mut missing = shape();
    missing.boards[1] = board([0, 1, 4], 12, &[3]);
    assert_eq!(missing.validate(Ok(())).unwrap_err(), MESSAGE);
    let mut reach = shape();
    reach.reach_keys = vec![3, 10];
    assert_eq!(reach.validate(Ok(())).unwrap_err(), MESSAGE);
    let mut short_values = shape();
    short_values.boards[0].continuations[1].1 = [1326, 1325];
    assert_eq!(short_values.validate(Ok(())).unwrap_err(), MESSAGE);
    let mut no_history = shape();
    no_history.history_keys.clear();
    no_history.reach_keys.clear();
    for b in no_history.boards.iter_mut() {
        b.continuations.clear();
    }
    assert_eq!(no_history.validate(Ok(())).unwrap_err(), MESSAGE);
}

#[test]
fn range_cache_values_and_game_are_checked_last() {
    let mut reach = shape();
    reach.reach_values_valid = false;
    assert_eq!(reach.validate(Err("invalid game".to_string())).unwrap_err(), MESSAGE);
    let mut values = shape();
    values.continuation_values_valid = false;
    assert_eq!(values.validate(Ok(())).unwrap_err(), MESSAGE);
    let mut parameters = shape();
    parameters.parameters_valid = false;
    assert_eq!(parameters.validate(Ok(())).unwrap_err(), MESSAGE);
    assert_eq!(shape().validate(Err("invalid game".to_string())).unwrap_err(), "invalid game");
}

#[test]
fn range_cache_provenance_must_be_consistent() {
    let mut blank = shape();
    blank.policy_model_version = " \t ".to_string();
    assert_eq!(blank.validate(Ok(())).unwrap_err(), MESSAGE);
    let mut other_policy = shape();
    other_policy.range_policy_sha256 = Some(DIGEST.to_uppercase());
    assert_eq!(other_policy.validate(Ok(())).unwrap_err(), MESSAGE);
    let mut no_policy = shape();
    no_policy.range_policy_sha256 = None;
    assert_eq!(no_policy.validate(Ok(())).unwrap_err(), MESSAGE);
    let mut bad_evaluation = shape();
    bad_evaluation.evaluation_value_network_sha256 = Some("abc".to_string());
    assert_eq!(bad_evaluation.validate(Ok(())).unwrap_err(), MESSAGE);
    let mut schedule = shape();
    schedule.resolver_averaging_delay = 8;
    assert_eq!(schedule.validate(Ok(())).unwrap_err(), MESSAGE);
    let mut workers = shape();
    workers.board_workers = 0;
    assert_eq!(workers.validate(Ok(())).unwrap_err(), MESSAGE);
    let mut schema = shape();
    schema.schema = "hu-preflop-range-continuation-cache-v1".to_string();
    assert_eq!(schema.validate(Ok(())).unwrap_err(), MESSAGE);
}

#[test]
fn range_continuation_cache_rejects_incomplete_exact_combo_rows() {
    let history = 7u64;
    let orbits = preflop_solver::flop::canonical_flop_orbits();
    let boards: Vec<RangeContinuationBoardShape> = orbits
        .iter()
        .take(2)
        .map(|orbit| RangeContinuationBoardShape {
            board: orbit.board,
            orbit_size: orbit.orbit_size,
            continuations: vec![(history, [1326, 1326])],
        })
        .collect();
    let covered = boards.iter().map(|board| board.orbit_size).sum();
    let mut cache = RangeContinuationCacheShape {
        schema: "hu-preflop-range-continuation-cache-v2".to_string(),
        seed: 17,
        complete_canonical_flop_enumeration: false,
        covered_raw_flops: covered,
        board_workers: 1,
        policy_model_version: "test-policy".to_string(),
        policy_sha256: "a".repeat(64),
        value_network_sha256: "b".repeat(64),
        evaluation_value_network_sha256: None,
        range_policy_sha256: Some("a".repeat(64)),
        resolver_iterations: 2,
        resolver_averaging_delay: 0,
        resolver_threads: 1,
        regret_matching_plus: true,
        history_keys: vec![history],
        reach_keys: vec![history],
        boards,
        reach_values_valid: true,
        continuation_values_valid: true,
        parameters_valid: true,
    };
    assert!(cache.validate(Ok(())).is_ok());

    // Shards of one board each merge into both boards; a shard merged with
    // itself overlaps.
    let shard = |i: usize| RangeContinuationBoardShape {
        board: orbits[i].board,
        orbit_size: orbits[i].orbit_size,
        continuations: vec![(history, [1326, 1326])],
    };
    let merged = sort_shard_boards(vec![shard(1), shard(0)]).unwrap();
    assert_eq!(merged.len(), 2);
    assert_eq!(merged[0].board, orbits[0].board);
    assert!(sort_shard_boards(vec![shard(0), shard(0)]).is_err());

    cache.boards[0].continuations[0].1[1] -= 1;
    assert!(cache.validate(Ok(())).is_err());
}

#[test]
fn shard_boards_are_gathered_in_flop_order() {
    let b = |cards: [u8; 3]| RangeContinuationBoardShape { board: cards, orbit_size: 4, continuations: vec![] };
    let sorted = sort_shard_boards(vec![b([4, 8, 12]), b([0, 4, 8]), b([0, 1, 4]), b([0, 4, 9])]).unwrap();
    assert_eq!(
        sorted.iter().map(|x| x.board).collect::<Vec<_>>(),
        vec![[0, 1, 4], [0, 4, 8], [0, 4, 9], [4, 8, 12]]
    );
    assert_eq!(
        sort_shard_boards(vec![b([0, 4, 8]), b([4, 8, 12]), b([0, 4, 8])]).err().unwrap(),
        "range continuation cache shards overlap canonical boards"
    );
    assert!(sort_shard_boards(vec![]).unwrap().is_empty());
}

fn shard(boards: Vec<RangeContinuationBoardShape>) -> RangeContinuationCacheShape {
    let mut cache = shape();
    cache.covered_raw_flops = boards.iter().map(|board| board.orbit_size).sum();
    cache.boards = boards;
    cache
}

fn two_shards() -> Vec<RangeContinuationCacheShape> {
    vec![shard(vec![board([0, 4, 8], 4, &[3, 9])]), shard(vec![board([0, 1, 4], 12, &[3, 9])])]
}

#[test]
fn merged_range_shards_hold_every_board_in_flop_order() {
    let merged = merge_range_continuation_caches(two_shards(), vec![Ok(()), Ok(())], vec![true, true]).unwrap();
    assert_eq!(merged.boards.iter().map(|board| board.board).collect::<Vec<_>>(), vec![[0, 1, 4], [0, 4, 8]]);
    assert_eq!(merged.covered_raw_flops, 16);
    assert!(!merged.complete_canonical_flop_enumeration);
    assert_eq!(merged.seed, 17);
    assert_eq!(merged.history_keys, vec![3, 9]);
    assert!(merged.validate(Ok(())).is_ok());
}

#[test]
fn a_range_merge_needs_a_shard() {
    let error = merge_error(merge_range_continuation_caches(Vec::new(), Vec::new(), Vec::new()));
    assert_eq!(error, "range continuation merge requires at least one cache");
}

#[test]
fn range_shards_must_share_provenance() {
    let incompatible = "range continuation cache shards have incompatible provenance";
    let mut shards = two_shards();
    shards[1].seed = 18;
    assert_eq!(merge_error(merge_range_continuation_caches(shards, vec![Ok(()), Ok(())], vec![true, true])), incompatible);
    let mut shards = two_shards();
    shards[1].history_keys = vec![3, 10];
    shards[1].reach_keys = vec![3, 10];
    shards[1].boards[0] = board([0, 1, 4], 12, &[3, 10]);
    assert_eq!(merge_error(merge_range_continuation_caches(shards, vec![Ok(()), Ok(())], vec![true, true])), incompatible);
    let floats_differ = merge_range_continuation_caches(two_shards(), vec![Ok(()), Ok(())], vec![true, false]);
    assert_eq!(merge_error(floats_differ), incompatible);
}

#[test]
fn each_range_shard_is_checked_before_the_merge() {
    let mut shards = two_shards();
    shards[1].covered_raw_flops = 11;
    assert_eq!(merge_error(merge_range_continuation_caches(shards, vec![Ok(()), Ok(())], vec![true, true])), MESSAGE);
    let games = vec![Ok(()), Err("game stack is not positive".to_string())];
    assert_eq!(merge_error(merge_range_continuation_caches(two_shards(), games, vec![true, true])), "game stack is not positive");
}

#[test]
fn range_shards_may_not_cover_the_same_flop() {
    let shards = vec![shard(vec![board([0, 4, 8], 4, &[3, 9])]), shard(vec![board([0, 4, 8], 4, &[3, 9])])];
    let error = merge_error(merge_range_continuation_caches(shards, vec![Ok(()), Ok(())], vec![true, true]));
    assert_eq!(error, "range continuation cache shards overlap canonical boards");
}

fn merge_error(result: Result<RangeContinuationCacheShape, String>) -> String {
    match result {
        Ok(_) => panic!("the merge was accepted"),
        Err(error) => error,
    }
}
