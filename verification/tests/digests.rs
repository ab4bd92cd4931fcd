use std::io::Write;

use flate2::write::GzEncoder;
use flate2::Compression;
use sha2::{Digest, Sha256};

use preflop_solver::attribution::BoundedCausalAttributionCollector;
use preflop_solver::deals::Deal;
use preflop_solver::digest::{cache_file_bytes, decode_kernel_artifact, hex_lower, sha256_hex, u64_from_le_at, u64_from_le_prefix};
use preflop_solver::game::Street;
use preflop_solver::keys::{continuation_seed, range_policy_cache_key, range_policy_public_cache_key, value_rollout_seed};

#[test]
fn sha256_hex_matches_the_known_digest() {
    assert_eq!(
        sha256_hex(b"hello world"),
        "b94d27b9934d3e08a52e52d7da7dabfac484efe37a5380ee9088f7ace2efcde9"
    );
    assert_eq!(sha256_hex(b""), "e3b0c44298fc1c149afbf4c8996fb92427ae41e4649b934ca495991b7852b855");
    assert_eq!(hex_lower(&[0, 15, 16, 255]), "000f10ff");
}

fn gzip(bytes: &[u8]) -> Vec<u8> {
    let mut encoder = GzEncoder::new(Vec::new(), Compression::default());
    encoder.write_all(bytes).unwrap();
    encoder.finish().unwrap()
}

#[test]
fn kernel_artifact_is_pinned_by_hash_and_decoded() {
    let document = br#"{"schema":"exact-preflop-checkdown-class-kernel-v1"}"#;
    let compressed = gzip(document);
    let digest = format!("{:x}", Sha256::digest(&compressed));
    assert_eq!(decode_kernel_artifact(&compressed, &digest).unwrap(), document.to_vec());
    assert_eq!(
        decode_kernel_artifact(&compressed, "00").unwrap_err(),
        "exact preflop kernel size/hash mismatch"
    );
    let garbage = b"not gzip at all".to_vec();
    let garbage_digest = format!("{:x}", Sha256::digest(&garbage));
    assert!(decode_kernel_artifact(&garbage, &garbage_digest).is_err());
}

#[test]
fn oversized_decoded_kernel_is_refused() {
    let document = vec![b' '; 4 * 1024 * 1024 + 1];
    let compressed = gzip(&document);
    let digest = format!("{:x}", Sha256::digest(&compressed));
    assert_eq!(
        decode_kernel_artifact(&compressed, &digest).unwrap_err(),
        "oversized decoded preflop kernel"
    );
}

#[test]
fn little_endian_words_are_read_in_place() {
    let bytes = [1u8, 0, 0, 0, 0, 0, 0, 0, 0x10, 0x32, 0x54, 0x76, 0x98, 0xba, 0xdc, 0xfe];
    assert_eq!(u64_from_le_prefix(&bytes), 1);
    assert_eq!(u64_from_le_at(&bytes, 8), 0xfedc_ba98_7654_3210);
}

#[test]
fn continuation_seed_is_the_digest_prefix_of_its_frame() {
    let mut digest = Sha256::new();
    digest.update(b"hu-v26-preflop-continuation-v1");
    digest.update(7u64.to_le_bytes());
    digest.update(11u64.to_le_bytes());
    digest.update(13u64.to_le_bytes());
    digest.update(17u32.to_le_bytes());
    let bytes = digest.finalize();
    let expected = u64::from_le_bytes(bytes[..8].try_into().unwrap());
    assert_eq!(continuation_seed(7, 11, 13, 17), expected);
    assert_ne!(continuation_seed(7, 11, 13, 18), expected);
}

#[test]
fn range_policy_keys_hash_the_public_state() {
    let history = vec!["raise_to_4.000bb".to_string(), "call".to_string()];
    let board = [10u8, 20, 30];
    let mut digest = Sha256::new();
    digest.update(b"hu-range-policy-public-state-v1");
    digest.update([1u8, 0u8]);
    for card in board {
        digest.update([card]);
    }
    for label in &history {
        digest.update((label.len() as u64).to_le_bytes());
        digest.update(label.as_bytes());
    }
    let expected: [u8; 32] = digest.finalize().into();
    assert_eq!(range_policy_public_cache_key(Street::Flop, 0, &board, &history), expected);
    let deal = Deal::from_cards([[0, 1], [2, 3]], [10, 20, 30, 40, 50]);
    assert_eq!(range_policy_cache_key(Street::Flop, 0, &deal, &history), expected);
    assert_ne!(range_policy_cache_key(Street::Turn, 0, &deal, &history), expected);
    assert_ne!(range_policy_public_cache_key(Street::Flop, 1, &board, &history), expected);
}

fn reservoir_key(seed: u64, deal_index: u64, responder: u8, street: u8, candidate: u64, record: &[u8]) -> (u64, u64) {
    let mut digest = Sha256::new();
    digest.update(b"hu-causal-policy-attribution-reservoir-v1");
    digest.update(seed.to_le_bytes());
    digest.update(deal_index.to_le_bytes());
    digest.update([responder, street]);
    digest.update(candidate.to_le_bytes());
    digest.update(record);
    let bytes = digest.finalize();
    (
        u64::from_le_bytes(bytes[..8].try_into().unwrap()),
        u64::from_le_bytes(bytes[8..16].try_into().unwrap()),
    )
}

#[test]
fn reservoir_keeps_the_records_with_the_smallest_keys() {
    let mut collector = BoundedCausalAttributionCollector::new([2, 0, 1], 99);
    let records: Vec<Vec<u8>> = (0..6u8).map(|i| vec![b'r', i]).collect();
    for (candidate, record) in records.iter().enumerate() {
        collector.consider(Street::Flop, 5, 1, candidate as u64, record.clone());
    }
    collector.consider(Street::Turn, 5, 1, 0, b"turn".to_vec());
    collector.consider(Street::River, 6, 0, 0, b"river".to_vec());
    let (output, seen, retained) = collector.into_records();
    assert_eq!(seen, [6, 1, 1]);
    assert_eq!(retained, [2, 0, 1]);
    let mut keyed: Vec<((u64, u64, u64, u8, u64), Vec<u8>)> = records
        .iter()
        .enumerate()
        .map(|(c, r)| {
            let (a, b) = reservoir_key(99, 5, 1, 0, c as u64, r);
            ((a, b, 5, 1, c as u64), r.clone())
        })
        .collect();
    keyed.sort();
    let mut expected: Vec<Vec<u8>> = keyed.into_iter().take(2).map(|(_, r)| r).collect();
    expected.push(b"river".to_vec());
    assert_eq!(output, expected);
}

#[test]
fn policy_mixture_digest_hashes_the_file_digests_in_order() {
    let files = vec![
        "b94d27b9934d3e08a52e52d7da7dabfac484efe37a5380ee9088f7ace2efcde9".to_string(),
        "e3b0c44298fc1c149afbf4c8996fb92427ae41e4649b934ca495991b7852b855".to_string(),
    ];
    let mut digest = Sha256::new();
    digest.update(b"hu-frozen-policy-mixture-v1");
    for file in &files {
        digest.update(file.as_bytes());
    }
    let expected = format!("{:x}", digest.finalize());
    assert_eq!(preflop_solver::keys::combined_file_sha256(&files), expected);
    let reversed: Vec<String> = files.iter().rev().cloned().collect();
    assert_ne!(preflop_solver::keys::combined_file_sha256(&reversed), expected);
}

#[test]
fn keyed_reservoir_evicts_the_largest_key_once_full() {
    let mut collector = BoundedCausalAttributionCollector::new([2, 2, 0], 0);
    for (word, record) in [(5u64, b"five"), (3, b"thre"), (9, b"nine"), (1, b"one!")] {
        collector.consider_keyed(Street::Flop, (word, 0, 0, 0, 0), record.to_vec());
    }
    // While there is room, an equal key replaces the record stored under it.
    collector.consider_keyed(Street::Turn, (4, 4, 4, 4, 4), b"old".to_vec());
    collector.consider_keyed(Street::Turn, (4, 4, 4, 4, 4), b"new".to_vec());
    collector.consider_keyed(Street::River, (0, 0, 0, 0, 0), b"none".to_vec());
    let (output, seen, retained) = collector.into_records();
    assert_eq!(seen, [4, 2, 1]);
    assert_eq!(retained, [2, 1, 0]);
    assert_eq!(output, vec![b"one!".to_vec(), b"thre".to_vec(), b"new".to_vec()]);

    // A full reservoir takes no key equal to or above its largest.
    let mut full = BoundedCausalAttributionCollector::new([1, 0, 0], 0);
    full.consider_keyed(Street::Flop, (4, 4, 4, 4, 4), b"old".to_vec());
    full.consider_keyed(Street::Flop, (4, 4, 4, 4, 4), b"new".to_vec());
    full.consider_keyed(Street::Flop, (4, 4, 4, 4, 5), b"big".to_vec());
    assert_eq!(full.into_records().0, vec![b"old".to_vec()]);
}

#[test]
fn record_keys_hash_the_framed_record() {
    let collector = BoundedCausalAttributionCollector::new([1, 1, 1], 42);
    let record = b"{\"weight\":1.0}".to_vec();
    let key = collector.record_key(Street::River, 3, 1, 8, &record);
    let (a, b) = reservoir_key(42, 3, 1, 2, 8, &record);
    assert_eq!(key, (a, b, 3, 1, 8));
}

#[test]
fn value_rollout_seed_hashes_deal_and_rounded_features() {
    let deal = Deal::from_cards([[0, 5], [10, 15]], [20, 25, 30, 35, 40]);
    let features = [1_000_000i32, -250_000, 0];
    let mut digest = Sha256::new();
    digest.update(b"hu-action-value-rollout-v1");
    digest.update(27001u64.to_le_bytes());
    digest.update(3u64.to_le_bytes());
    digest.update(2u32.to_le_bytes());
    for card in [0u8, 5, 10, 15, 20, 25, 30, 35, 40] {
        digest.update([card]);
    }
    for feature in features {
        digest.update(feature.to_le_bytes());
    }
    let bytes = digest.finalize();
    let expected = u64::from_le_bytes(bytes[..8].try_into().unwrap());
    assert_eq!(value_rollout_seed(27001, 3, 2, &deal, &features), expected);
    assert_ne!(value_rollout_seed(27001, 3, 2, &deal, &features[..2]), expected);
    assert_ne!(value_rollout_seed(27001, 3, 3, &deal, &features), expected);
}

#[test]
fn cache_files_are_read_plain_or_gzip_decoded() {
    let document = br#"{"schema":"hu-preflop-continuation-cache-v2"}"#;
    assert_eq!(cache_file_bytes(false, document).unwrap(), document.to_vec());
    assert_eq!(cache_file_bytes(true, &gzip(document)).unwrap(), document.to_vec());
    assert!(cache_file_bytes(true, document).is_err());
    assert_eq!(cache_file_bytes(false, b"").unwrap(), Vec::<u8>::new());
}
