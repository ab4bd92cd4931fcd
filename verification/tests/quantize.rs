use preflop_solver::quantize::distribute_missing_units;

#[test]
fn missing_units_go_to_the_first_entries_of_the_order() {
    // 1/3 each: 21845 units each, nothing missing.
    assert_eq!(distribute_missing_units(&vec![21845, 21845, 21845], &vec![0, 1, 2]), vec![21845, 21845, 21845]);
    // Two units missing go to entries 2 and 0.
    assert_eq!(distribute_missing_units(&vec![10000, 20000, 35533], &vec![2, 0, 1]), vec![10001, 20000, 35534]);
    let q = distribute_missing_units(&vec![10000, 20000, 35533], &vec![1, 2, 0]);
    assert_eq!(q.iter().map(|v| u64::from(*v)).sum::<u64>(), 65535);
    assert_eq!(q, vec![10000, 20001, 35534]);
}

#[test]
fn a_short_order_limits_the_missing_units() {
    assert_eq!(distribute_missing_units(&vec![0, 0], &vec![1, 0]), vec![1, 1]);
    assert_eq!(distribute_missing_units(&vec![], &vec![]), Vec::<u16>::new());
    assert_eq!(distribute_missing_units(&vec![65535], &vec![0]), vec![65535]);
}
