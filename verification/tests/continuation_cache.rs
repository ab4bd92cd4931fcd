use preflop_solver::continuation_cache::{
    merge_continuation_caches, CachedDealShape, ContinuationCacheShape, ContinuationMerge, ResolverProvenanceShape,
};

const A: &str = "aaaaaaaaaaaaaaaaaaaaaaaaaaaaaaaaaaaaaaaaaaaaaaaaaaaaaaaaaaaaaaaa";
const B: &str = "bbbbbbbbbbbbbbbbbbbbbbbbbbbbbbbbbbbbbbbbbbbbbbbbbbbbbbbbbbbbbbbb";
const C: &str = "cccccccccccccccccccccccccccccccccccccccccccccccccccccccccccccccc";

fn deal(keys: &[u64]) -> CachedDealShape {
    CachedDealShape { history_keys: keys.to_vec(), exact_combo: None, exact_combo_values_valid: true }
}

fn cache() -> ContinuationCacheShape {
    ContinuationCacheShape {
        schema: "hu-preflop-continuation-cache-v2".to_string(),
        rollouts_per_leaf: 4,
        stack_matches_depth: true,
        complete_exact_combo_cycles: 0,
        balanced_exact_combo_marginals: false,
        network_sha256: A.to_string(),
        network_sha256s: vec![A.to_string()],
        policy_mixture: String::new(),
        resolver_provenance: None,
        source_cache_sha256: None,
        source_deal_indices: None,
        history_keys: vec![5, 7],
        deals: vec![deal(&[5, 7]), deal(&[7, 5])],
        estimates_valid: true,
        validation_complete: true,
        validation_probability_values_finite: true,
        validation_utilities_within_stack: true,
        validation_leaf_values: 4,
        validation_statistics_valid: true,
    }
}

fn resolver() -> ResolverProvenanceShape {
    ResolverProvenanceShape {
        iterations: 16,
        averaging_delay: 4,
        dcfr_valid: true,
        value_uncertainty_valid: true,
        threads: 2,
        value_network_sha256: A.to_string(),
        evaluation_value_network_sha256: Some(B.to_string()),
        range_policy_sha256: Some(C.to_string()),
    }
}

fn derived() -> ContinuationCacheShape {
    let mut c = cache();
    c.network_sha256s = vec![A.to_string(), B.to_string()];
    c.policy_mixture = "value-then-evaluation".to_string();
    c.resolver_provenance = Some(resolver());
    c.source_cache_sha256 = Some(C.to_string());
    c.source_deal_indices = Some(vec![9, 3]);
    c
}

#[test]
fn a_consistent_continuation_cache_is_accepted() {
    assert!(cache().validate(Ok(())).is_ok());
    let mut legacy = cache();
    legacy.schema = "hu-preflop-continuation-cache-v1".to_string();
    assert!(legacy.validate(Ok(())).is_ok());
    assert!(derived().validate(Ok(())).is_ok());
}

#[test]
fn continuation_cache_checks_come_in_order() {
    let mut c = cache();
    c.deals.truncate(1);
    c.rollouts_per_leaf = 1;
    assert_eq!(c.validate(Ok(())).unwrap_err(), "preflop continuation cache is incompatible");
    let mut c = cache();
    c.rollouts_per_leaf = 1;
    c.estimates_valid = false;
    assert_eq!(c.validate(Ok(())).unwrap_err(), "preflop continuation cache metadata is invalid");
    let mut c = cache();
    c.stack_matches_depth = false;
    assert_eq!(c.validate(Ok(())).unwrap_err(), "preflop continuation cache metadata is invalid");
    let mut c = cache();
    c.history_keys.clear();
    assert_eq!(c.validate(Err("invalid game".to_string())).unwrap_err(), "invalid game");
    assert_eq!(c.validate(Ok(())).unwrap_err(), "preflop continuation cache is incomplete");
    let mut c = cache();
    c.estimates_valid = false;
    c.validation_complete = false;
    assert_eq!(c.validate(Ok(())).unwrap_err(), "preflop continuation cache contains invalid values");
    let mut c = cache();
    c.validation_leaf_values = 5;
    assert_eq!(c.validate(Ok(())).unwrap_err(), "preflop continuation cache validation summary is invalid");
}

#[test]
fn continuation_cache_deals_hold_every_history() {
    let incomplete = "preflop continuation cache is incomplete";
    let mut c = cache();
    c.deals[1] = deal(&[7]);
    assert_eq!(c.validate(Ok(())).unwrap_err(), incomplete);
    let mut c = cache();
    c.deals[1] = deal(&[7, 8]);
    assert_eq!(c.validate(Ok(())).unwrap_err(), incomplete);
    let mut c = cache();
    c.deals[0].exact_combo = Some(vec![(5, [1326, 1326]), (7, [1326, 1326])]);
    assert!(c.validate(Ok(())).is_ok());
    c.deals[0].exact_combo_values_valid = false;
    assert_eq!(c.validate(Ok(())).unwrap_err(), incomplete);
    let mut c = cache();
    c.deals[0].exact_combo = Some(vec![(5, [1326, 1326]), (7, [1326, 13])]);
    assert_eq!(c.validate(Ok(())).unwrap_err(), incomplete);
}

#[test]
fn continuation_cache_provenance_must_agree() {
    let incomplete = "preflop continuation cache is incomplete";
    let mut c = derived();
    c.source_deal_indices = Some(vec![3, 3]);
    assert_eq!(c.validate(Ok(())).unwrap_err(), incomplete);
    let mut c = derived();
    c.source_cache_sha256 = None;
    assert_eq!(c.validate(Ok(())).unwrap_err(), incomplete);
    let mut c = derived();
    c.network_sha256s = vec![A.to_string()];
    assert_eq!(c.validate(Ok(())).unwrap_err(), incomplete);
    let mut c = derived();
    c.policy_mixture.clear();
    assert_eq!(c.validate(Ok(())).unwrap_err(), incomplete);
    let mut c = derived();
    c.resolver_provenance.as_mut().unwrap().averaging_delay = 16;
    assert_eq!(c.validate(Ok(())).unwrap_err(), incomplete);
    let mut c = derived();
    c.resolver_provenance.as_mut().unwrap().value_network_sha256 = B.to_string();
    assert_eq!(c.validate(Ok(())).unwrap_err(), incomplete);
    let mut c = derived();
    c.complete_exact_combo_cycles = 1;
    assert_eq!(c.validate(Ok(())).unwrap_err(), incomplete);
    let mut c = cache();
    c.balanced_exact_combo_marginals = true;
    assert_eq!(c.validate(Ok(())).unwrap_err(), incomplete);
    let mut c = cache();
    c.network_sha256 = "not a digest".to_string();
    assert_eq!(c.validate(Ok(())).unwrap_err(), incomplete);
}

fn eight_deal_cache() -> ContinuationCacheShape {
    let histories = vec![11, 17, 23];
    let mut c = cache();
    c.history_keys = histories.clone();
    c.deals = (0..8).map(|_| deal(&histories)).collect();
    c.validation_leaf_values = 8 * histories.len();
    c
}

#[test]
fn exact_combo_continuation_vectors_are_complete_and_bounded() {
    let mut cache = eight_deal_cache();
    let exact = cache.history_keys.iter().map(|history| (*history, [1326, 1326])).collect();
    cache.deals[0].exact_combo = Some(exact);
    assert!(cache.validate(Ok(())).is_ok());

    cache.deals[0].exact_combo.as_mut().unwrap()[0].1[0] -= 1;
    assert!(cache.validate(Ok(())).is_err());
}

fn resolved_cache() -> ContinuationCacheShape {
    let mut cache = cache();
    cache.network_sha256 = "0".repeat(64);
    cache.network_sha256s = vec!["0".repeat(64)];
    cache.deals = (0..4).map(|_| deal(&[5, 7])).collect();
    cache.validation_leaf_values = 8;
    cache.source_cache_sha256 = Some("1".repeat(64));
    cache.source_deal_indices = Some(vec![0, 1, 2, 3]);
    cache.network_sha256s.push("2".repeat(64));
    cache.policy_mixture = "resolved".to_string();
    cache.resolver_provenance = Some(ResolverProvenanceShape {
        iterations: 400,
        averaging_delay: 100,
        dcfr_valid: true,
        value_uncertainty_valid: true,
        threads: 10,
        value_network_sha256: "0".repeat(64),
        evaluation_value_network_sha256: Some("2".repeat(64)),
        range_policy_sha256: Some("3".repeat(64)),
    });
    cache
}

#[test]
fn resolver_provenance_pins_dcfr_and_independent_networks() {
    assert!(resolved_cache().validate(Ok(())).is_ok());

    // A discount exponent that is not a number.
    let mut malformed = resolved_cache();
    malformed.resolver_provenance.as_mut().unwrap().dcfr_valid = false;
    assert!(malformed.validate(Ok(())).is_err());

    // A negative value uncertainty.
    let mut invalid_uncertainty = resolved_cache();
    invalid_uncertainty.resolver_provenance.as_mut().unwrap().value_uncertainty_valid = false;
    assert!(invalid_uncertainty.validate(Ok(())).is_err());
}

fn merge_error(result: Result<ContinuationMerge, String>) -> String {
    match result {
        Ok(_) => panic!("the merge was accepted"),
        Err(error) => error,
    }
}

#[test]
fn independent_continuation_caches_concatenate_their_deals() {
    let merged = merge_continuation_caches(&cache(), &cache(), 5, 9, true).unwrap();
    assert_eq!(merged.deal_order, vec![0, 1, 2, 3]);
    assert!(merged.source_deal_indices.is_none());
    assert_eq!(merged.seed, 5 ^ 18);
    assert_eq!(merged.chance_sampling, "concatenated_independent_balanced_exact_combo_cycles");
    assert_eq!(merged.complete_exact_combo_cycles, 0);
    assert!(!merged.balanced_exact_combo_marginals);
}

#[test]
fn provenance_chunks_merge_in_source_index_order() {
    let mut second = derived();
    second.source_deal_indices = Some(vec![4, 12]);
    let merged = merge_continuation_caches(&derived(), &second, 5, 5, true).unwrap();
    assert_eq!(merged.source_deal_indices, Some(vec![3, 4, 9, 12]));
    assert_eq!(merged.deal_order, vec![1, 2, 0, 3]);
    assert_eq!(merged.seed, 5);
    assert_eq!(merged.chance_sampling, "concatenated_provenance_checked_continuation_chunks");
    assert!(!merged.balanced_exact_combo_marginals);

    // Indices beyond the deals a chunk holds pair with nothing.
    let mut long = derived();
    long.source_deal_indices = Some(vec![9, 3, 20]);
    let merged = merge_continuation_caches(&long, &second, 5, 5, true).unwrap();
    assert_eq!(merged.source_deal_indices, Some(vec![3, 4, 9, 12]));
}

#[test]
fn overlapping_provenance_chunks_are_refused() {
    let mut second = derived();
    second.source_deal_indices = Some(vec![3, 8]);
    let error = merge_error(merge_continuation_caches(&derived(), &second, 5, 5, true));
    assert_eq!(error, "continuation cache chunks overlap source deal indices");
}

#[test]
fn incompatible_continuation_caches_are_refused() {
    let incompatible = "only compatible continuation caches with the same frozen policy mixture can be merged";
    let mut other = cache();
    other.rollouts_per_leaf = 5;
    assert_eq!(merge_error(merge_continuation_caches(&cache(), &other, 5, 5, true)), incompatible);
    assert_eq!(merge_error(merge_continuation_caches(&cache(), &cache(), 5, 5, false)), incompatible);
    assert_eq!(merge_error(merge_continuation_caches(&derived(), &derived(), 5, 6, true)), incompatible);
    let mut unindexed = derived();
    unindexed.source_deal_indices = None;
    let error = merge_error(merge_continuation_caches(&derived(), &unindexed, 5, 5, true));
    assert_eq!(error, "continuation cache provenance is incompatible");
}
