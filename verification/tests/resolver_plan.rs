use preflop_solver::resolver_plan::{resolver_policy_mixture, resolver_worker_plan, source_deal_range, validate_resolver_request};

#[test]
fn resolver_requests_stay_within_the_source_cache() {
    assert!(validate_resolver_request(4, 0, 4, 400, 100, true, 10).is_ok());
    assert!(validate_resolver_request(2, 6, 8, 2, 1, true, 1).is_ok());
    let invalid = "resolver continuation configuration is invalid";
    assert_eq!(validate_resolver_request(1, 0, 4, 400, 100, true, 10).unwrap_err(), invalid);
    assert_eq!(validate_resolver_request(2, 7, 8, 400, 100, true, 10).unwrap_err(), invalid);
    assert_eq!(validate_resolver_request(2, usize::MAX, 8, 400, 100, true, 10).unwrap_err(), invalid);
    assert_eq!(validate_resolver_request(4, 0, 4, 1, 0, true, 10).unwrap_err(), invalid);
    assert_eq!(validate_resolver_request(4, 0, 4, 400, 400, true, 10).unwrap_err(), invalid);
    assert_eq!(validate_resolver_request(4, 0, 4, 400, 100, false, 10).unwrap_err(), invalid);
    assert_eq!(validate_resolver_request(4, 0, 4, 400, 100, true, 0).unwrap_err(), invalid);
}

#[test]
fn resolver_work_is_shared_by_deal() {
    assert_eq!(source_deal_range(3, 4), vec![3, 4, 5, 6]);
    assert_eq!(source_deal_range(0, 0), Vec::<usize>::new());
    assert_eq!(resolver_worker_plan(10, 4), (4, 2));
    assert_eq!(resolver_worker_plan(3, 40), (3, 1));
    assert_eq!(resolver_worker_plan(0, 4), (1, 1));
    assert_eq!(resolver_worker_plan(9, 0), (1, 9));
}

#[test]
fn resolver_mixture_labels_record_the_valuation() {
    assert_eq!(
        resolver_policy_mixture(true, 400, true, Some("abc")),
        "turn_cfv_network_cross_scored_plus_400_iteration_exact_all_in_flop_dcfr_plus_ranges_from_tabular_preflop_policy_abc"
    );
    assert_eq!(
        resolver_policy_mixture(false, 2, false, None),
        "turn_cfv_network_self_scored_plus_2_iteration_exact_all_in_flop_dcfr_ranges_from_uniform_range_control"
    );
}
