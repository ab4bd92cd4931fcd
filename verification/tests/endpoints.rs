use preflop_solver::endpoints::{
    check_endpoint_envelope, check_endpoint_save, check_endpoint_size, endpoint_body_sha256, endpoint_file_name,
    ENDPOINT_SIZE_LIMIT,
};
use sha2::{Digest, Sha256};

#[test]
fn endpoint_files_are_named_by_the_history_digest() {
    let history = vec!["call".to_string()];
    assert_eq!(
        endpoint_file_name(&history),
        "4f2a91df1674ac67599f9835f2d43b0ca94e1e769f6a666ce448ae07ac1d94f7.json"
    );
    let quoted = vec!["raise_to_4.000bb".to_string(), "say \"hi\"\n".to_string()];
    let expected = format!("{:x}.json", Sha256::digest(serde_json::to_vec(&quoted).unwrap()));
    assert_eq!(endpoint_file_name(&quoted), expected);
    assert_ne!(endpoint_file_name(&quoted), endpoint_file_name(&history));
}

#[test]
fn endpoint_envelopes_must_record_the_body_digest() {
    let body = "{\"a\":1}";
    let digest = endpoint_body_sha256(body);
    assert_eq!(digest, "015abd7f5cc57a2dd94b7590f04ad8084273905ee33ec5cebeae62276a97f862");
    let schema = "frozen-response-endpoint-v1";
    assert!(check_endpoint_envelope(Some(body), Some(schema), Some(&digest)).is_ok());
    assert_eq!(check_endpoint_envelope(None, Some(schema), Some(&digest)).unwrap_err(), "missing endpoint body");
    let mismatch = "endpoint checkpoint checksum mismatch";
    assert_eq!(check_endpoint_envelope(Some("corrupted"), Some(schema), Some(&digest)).unwrap_err(), mismatch);
    assert_eq!(check_endpoint_envelope(Some(body), Some("frozen-response-endpoint-v2"), Some(&digest)).unwrap_err(), mismatch);
    assert_eq!(check_endpoint_envelope(Some(body), None, Some(&digest)).unwrap_err(), mismatch);
    assert_eq!(check_endpoint_envelope(Some(body), Some(schema), None).unwrap_err(), mismatch);
}

#[test]
fn endpoints_are_immutable_and_bounded() {
    assert!(check_endpoint_save(false).is_ok());
    assert_eq!(check_endpoint_save(true).unwrap_err(), "refuse to overwrite completed endpoint");
    assert!(check_endpoint_size(ENDPOINT_SIZE_LIMIT).is_ok());
    assert_eq!(check_endpoint_size(ENDPOINT_SIZE_LIMIT + 1).unwrap_err(), "oversized endpoint checkpoint");
}

#[test]
fn endpoint_names_hash_the_compact_escaped_json_of_the_history() {
    let history = vec!["a\"b\\".to_string(), "\n\t\u{1}\u{7f}".to_string(), "é".to_string()];
    let expected: &[u8] = b"[\"a\\\"b\\\\\",\"\\n\\t\\u0001\x7f\",\"\xc3\xa9\"]";
    assert_eq!(serde_json::to_vec(&history).unwrap(), expected);
    let digest = sha2::Sha256::digest(expected);
    let hex: String = digest.iter().map(|byte| format!("{byte:02x}")).collect();
    assert_eq!(endpoint_file_name(&history), format!("{hex}.json"));
    let empty: Vec<String> = Vec::new();
    let digest = sha2::Sha256::digest(b"[]");
    let hex: String = digest.iter().map(|byte| format!("{byte:02x}")).collect();
    assert_eq!(endpoint_file_name(&empty), format!("{hex}.json"));
}
