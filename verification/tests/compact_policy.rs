use preflop_solver::compact_policy::{encode_compact_policy, CompactPolicyEntry};

fn entry(key: &str, labels: &[&str], quantized: &[u16]) -> CompactPolicyEntry {
    CompactPolicyEntry {
        key: key.to_string(),
        action_labels: labels.iter().map(|l| l.to_string()).collect(),
        quantized: quantized.to_vec(),
    }
}

#[test]
fn compact_policies_are_framed_little_endian() {
    let depth = 20.0f64.to_le_bytes();
    let entries = vec![entry("p0|AA|", &["fold", "call"], &[0, 65535]), entry("p1|72o|r", &["fold"], &[65534])];
    let encoded = encode_compact_policy(depth, &"test-v28".to_string(), &entries).unwrap();
    let mut expected = Vec::new();
    expected.extend_from_slice(b"HUPFTAB1");
    expected.extend_from_slice(&1u16.to_le_bytes());
    expected.extend_from_slice(&depth);
    expected.extend_from_slice(&8u16.to_le_bytes());
    expected.extend_from_slice(b"test-v28");
    expected.extend_from_slice(&2u32.to_le_bytes());
    for e in &entries {
        expected.extend_from_slice(&(e.key.len() as u16).to_le_bytes());
        expected.extend_from_slice(e.key.as_bytes());
        expected.push(e.action_labels.len() as u8);
        for label in &e.action_labels {
            expected.push(label.len() as u8);
            expected.extend_from_slice(label.as_bytes());
        }
        for q in &e.quantized {
            expected.extend_from_slice(&q.to_le_bytes());
        }
    }
    assert_eq!(&encoded.bytes[..8], b"HUPFTAB1");
    assert_eq!(encoded.bytes, expected);
    assert_eq!(encoded.probabilities, 3);
    assert!(!encoded.sums_valid);
    let valid = encode_compact_policy(depth, &"v".to_string(), &vec![entry("p0|AA|", &["fold", "call"], &[0, 65535])]).unwrap();
    assert!(valid.sums_valid);
    assert_eq!(valid.probabilities, 2);
}

#[test]
fn oversized_compact_policies_are_refused() {
    let depth = 20.0f64.to_le_bytes();
    let long_version = "v".repeat(65536);
    assert_eq!(
        encode_compact_policy(depth, &long_version, &vec![]).err().unwrap(),
        "compact preflop policy metadata is too large"
    );
    let long_label = "x".repeat(256);
    assert_eq!(
        encode_compact_policy(depth, &"v".to_string(), &vec![entry("k", &[&long_label], &[65535])]).err().unwrap(),
        "compact preflop policy entry is too large"
    );
    let labels: Vec<String> = (0..256).map(|i| i.to_string()).collect();
    let many = CompactPolicyEntry { key: "k".to_string(), action_labels: labels, quantized: vec![0; 256] };
    assert_eq!(
        encode_compact_policy(depth, &"v".to_string(), &vec![many]).err().unwrap(),
        "compact preflop policy entry is too large"
    );
    let long_key = "k".repeat(65536);
    assert_eq!(
        encode_compact_policy(depth, &"v".to_string(), &vec![entry(&long_key, &["fold"], &[65535])]).err().unwrap(),
        "compact preflop policy entry is too large"
    );
}
