use preflop_solver::policy_artifact::{PolicyArtifactShape, PolicyEntryShape};

fn entry(key: &str, actor: usize, actions: usize) -> PolicyEntryShape {
    PolicyEntryShape {
        key: key.to_string(),
        actor,
        action_count: actions,
        probability_count: actions,
        values_valid: true,
    }
}

fn artifact() -> PolicyArtifactShape {
    PolicyArtifactShape {
        schema: "hu-tabular-preflop-dcfr-v1".to_string(),
        iterations: 100,
        parameters_valid: true,
        continuation_cache_sha256: "0123456789ABCDEF".repeat(4),
        strategies: vec![entry("p0|AA|", 0, 3), entry("p1|AA|raise", 1, 2)],
    }
}

#[test]
fn a_consistent_policy_artifact_is_accepted() {
    assert!(artifact().validate(Ok(())).is_ok());
}

#[test]
fn policy_artifact_checks_come_in_order() {
    let mut a = artifact();
    a.iterations = 0;
    assert_eq!(a.validate(Err("bad game".to_string())).unwrap_err(), "tabular preflop policy artifact is incompatible");
    let mut a = artifact();
    a.strategies.clear();
    assert_eq!(a.validate(Ok(())).unwrap_err(), "tabular preflop policy artifact is incompatible");
    let mut a = artifact();
    a.parameters_valid = false;
    assert_eq!(a.validate(Err("bad game".to_string())).unwrap_err(), "bad game");
    assert_eq!(a.validate(Ok(())).unwrap_err(), "tabular preflop policy metadata is invalid");
    let mut a = artifact();
    a.continuation_cache_sha256 = "0123".to_string();
    assert_eq!(a.validate(Ok(())).unwrap_err(), "tabular preflop policy metadata is invalid");
}

#[test]
fn policy_rows_are_unique_and_well_formed() {
    let invalid = "tabular preflop policy has invalid probabilities";
    let mut a = artifact();
    a.strategies.push(entry("p0|AA|", 1, 2));
    assert_eq!(a.validate(Ok(())).unwrap_err(), invalid);
    let mut a = artifact();
    a.strategies[1].actor = 2;
    assert_eq!(a.validate(Ok(())).unwrap_err(), invalid);
    let mut a = artifact();
    a.strategies[0] = entry("p0|AA|", 0, 0);
    assert_eq!(a.validate(Ok(())).unwrap_err(), invalid);
    let mut a = artifact();
    a.strategies[0].probability_count = 2;
    assert_eq!(a.validate(Ok(())).unwrap_err(), invalid);
    let mut a = artifact();
    a.strategies[1].values_valid = false;
    assert_eq!(a.validate(Ok(())).unwrap_err(), invalid);
}
