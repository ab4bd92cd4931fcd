use preflop_solver::checkpoint::{
    check_checkpoint_save, check_receipt_bytes, check_receipt_fields, check_restored_state, check_state_bytes,
    CHECKPOINT_SIZE_LIMIT,
};

const EMPTY_SHA256: &str = "e3b0c44298fc1c149afbf4c8996fb92427ae41e4649b934ca495991b7852b855";
const HELLO_SHA256: &str = "b94d27b9934d3e08a52e52d7da7dabfac484efe37a5380ee9088f7ace2efcde9";

fn rounds(n: u64) -> Vec<Option<u64>> {
    (1..=n).map(Some).collect()
}

#[test]
fn a_checkpoint_generation_is_written_once() {
    assert!(check_checkpoint_save(&rounds(4), 4, false, false).is_ok());
    assert_eq!(
        check_checkpoint_save(&rounds(4), 4, true, false).unwrap_err(),
        "refuse to overwrite checkpoint generation"
    );
    assert_eq!(
        check_checkpoint_save(&rounds(4), 4, false, true).unwrap_err(),
        "refuse to overwrite checkpoint generation"
    );
    assert_eq!(
        check_checkpoint_save(&rounds(3), 4, true, true).unwrap_err(),
        "checkpoint progress is not a complete contiguous prefix"
    );
}

#[test]
fn receipts_are_checked_by_size_then_digest() {
    assert!(check_receipt_bytes(11, b"hello world", HELLO_SHA256).is_ok());
    assert!(check_receipt_bytes(0, b"", EMPTY_SHA256).is_ok());
    assert_eq!(
        check_receipt_bytes(CHECKPOINT_SIZE_LIMIT + 1, b"", EMPTY_SHA256).unwrap_err(),
        "oversized compact checkpoint receipt"
    );
    assert!(check_receipt_bytes(CHECKPOINT_SIZE_LIMIT, b"", EMPTY_SHA256).is_ok());
    assert_eq!(check_receipt_bytes(11, b"hello world", "wrong").unwrap_err(), "checkpoint receipt hash mismatch");
    assert_eq!(
        check_receipt_bytes(11, b"hello world", &HELLO_SHA256.to_uppercase()).unwrap_err(),
        "checkpoint receipt hash mismatch"
    );
}

#[test]
fn receipts_must_continue_the_same_generation() {
    let schema = "compact-preflop-checkpoint-v1";
    assert!(check_receipt_fields(schema, true, "round0004.mpk.gz", 4, &rounds(4)).is_ok());
    let differs = "checkpoint continuation identity or generation differs";
    assert_eq!(check_receipt_fields("compact-preflop-checkpoint-v2", true, "round0004.mpk.gz", 4, &rounds(4)).unwrap_err(), differs);
    assert_eq!(check_receipt_fields(schema, false, "round0004.mpk.gz", 4, &rounds(4)).unwrap_err(), differs);
    assert_eq!(check_receipt_fields(schema, true, "round0005.mpk.gz", 4, &rounds(4)).unwrap_err(), differs);
    assert_eq!(check_receipt_fields(schema, true, "round4.mpk.gz", 4, &rounds(4)).unwrap_err(), differs);
    assert_eq!(
        check_receipt_fields(schema, true, "round0004.mpk.gz", 4, &[Some(1), Some(2), Some(4), Some(4)]).unwrap_err(),
        "checkpoint progress is not a complete contiguous prefix"
    );
}

#[test]
fn states_are_checked_against_their_receipt() {
    assert!(check_state_bytes(11, b"hello world", HELLO_SHA256).is_ok());
    assert_eq!(check_state_bytes(11, b"hello world", EMPTY_SHA256).unwrap_err(), "checkpoint state size/hash mismatch");
    assert_eq!(
        check_state_bytes(CHECKPOINT_SIZE_LIMIT + 1, b"hello world", HELLO_SHA256).unwrap_err(),
        "checkpoint state size/hash mismatch"
    );
    assert!(check_restored_state(4, 4, 16900).is_ok());
    assert_eq!(check_restored_state(5, 4, 16900).unwrap_err(), "checkpoint state/progress mismatch");
    assert_eq!(check_restored_state(4, 4, 16899).unwrap_err(), "checkpoint state/progress mismatch");
}
