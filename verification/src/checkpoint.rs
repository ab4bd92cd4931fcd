//! Names and progress rules of compact training checkpoints.
use vstd::prelude::*;
use vstd::string::StringExecFns;
use crate::cards::push_char;
use crate::text::{push_text, str_eq};
use crate::digest::{hex_lower_chars, sha256_digest, sha256_hex};

verus! {

/// The decimal digit of `d`.
pub open spec fn digit_char(d: int) -> char {
    ((d + 48) as u8) as char
}

/// The decimal representation of `n`, without leading zeros.
pub open spec fn decimal(n: nat) -> Seq<char>
    decreases n,
{
    if n < 10 {
        seq![digit_char(n as int)]
    } else {
        decimal(n / 10).push(digit_char((n % 10) as int))
    }
}

/// `s` padded on the left with zeros to at least `width` characters.
pub open spec fn zero_padded(s: Seq<char>, width: nat) -> Seq<char> {
    if s.len() < width {
        Seq::new((width - s.len()) as nat, |i: int| '0') + s
    } else {
        s
    }
}

/// The state file of the checkpoint after `round` iterations.
pub open spec fn state_name(round: u64) -> Seq<char> {
    "round"@ + zero_padded(decimal(round as nat), 4) + ".mpk.gz"@
}

/// The receipt file of the checkpoint after `round` iterations.
pub open spec fn receipt_name(round: u64) -> Seq<char> {
    "round"@ + zero_padded(decimal(round as nat), 4) + ".json"@
}

fn digit(d: u64) -> (c: char)
    requires
        d < 10,
    ensures
        c == digit_char(d as int),
{
    ((d + 48) as u8) as char
}

proof fn lemma_decimal_last(rest: nat)
    requires
        rest >= 10,
    ensures
        decimal(rest) == decimal(rest / 10).push(digit_char((rest % 10) as int)),
{
}

/// `n` in decimal, zero-padded to at least `width` digits, as `{:0width$}` prints it.
pub fn padded_decimal(n: u64, width: usize) -> (s: String)
    ensures
        s@ == zero_padded(decimal(n as nat), width as nat),
{
    // Peel digits off the low end, most significant kept first.
    let mut digits: Vec<char> = Vec::new();
    let mut rest: u64 = n;
    while rest >= 10
        invariant
            decimal(n as nat) == decimal(rest as nat) + digits@,
        decreases rest,
    {
        let c = digit(rest % 10);
        proof {
            lemma_decimal_last(rest as nat);
            assert(decimal(n as nat) =~= decimal((rest / 10) as nat) + (seq![c] + digits@));
        }
        digits.insert(0, c);
        rest = rest / 10;
    }
    let c = digit(rest);
    proof {
        assert(decimal(n as nat) =~= seq![c] + digits@);
    }
    digits.insert(0, c);
    let mut s = String::new();
    let mut padding: usize = if digits.len() < width { width - digits.len() } else { 0 };
    let ghost pad = padding;
    while padding > 0
        invariant
            padding <= pad,
            s@ == Seq::new((pad - padding) as nat, |i: int| '0'),
        decreases padding,
    {
        push_char(&mut s, '0');
        proof {
            assert(s@ =~= Seq::new((pad - padding + 1) as nat, |i: int| '0'));
        }
        padding -= 1;
    }
    let ghost zeros = s@;
    let mut k: usize = 0;
    while k < digits.len()
        invariant
            k <= digits@.len(),
            s@ == zeros + digits@.take(k as int),
        decreases digits.len() - k,
    {
        push_char(&mut s, digits[k]);
        proof {
            assert(digits@.take(k as int + 1) =~= digits@.take(k as int).push(digits@[k as int]));
        }
        k += 1;
    }
    proof {
        assert(digits@.take(digits@.len() as int) =~= digits@);
        assert(s@ =~= zero_padded(decimal(n as nat), width as nat));
    }
    s
}

/// The state file name of the checkpoint after `round` iterations.
pub fn checkpoint_state_name(round: u64) -> (name: String)
    ensures
        name@ == state_name(round),
{
    let mut name = String::from_str("round");
    let number = padded_decimal(round, 4);
    push_text(&mut name, number.as_str());
    push_text(&mut name, ".mpk.gz");
    name
}

/// The receipt file name of the checkpoint after `round` iterations.
pub fn checkpoint_receipt_name(round: u64) -> (name: String)
    ensures
        name@ == receipt_name(round),
{
    let mut name = String::from_str("round");
    let number = padded_decimal(round, 4);
    push_text(&mut name, number.as_str());
    push_text(&mut name, ".json");
    name
}

/// Whether recorded progress is a complete contiguous prefix of rounds: one
/// row per completed round, the `i`-th recording round `i + 1`.
pub open spec fn progress_complete(rounds: Seq<Option<u64>>, round: u64) -> bool {
    &&& round > 0
    &&& rounds.len() == round
    &&& forall|i: int| 0 <= i < rounds.len() ==> #[trigger] rounds[i] == Some((i + 1) as u64)
}

/// Check recorded progress against the completed rounds; each row is given
/// by the round number it records, if it records one.
pub fn validate_progress(rounds: &[Option<u64>], round: u64) -> (r: Result<(), String>)
    ensures
        r is Ok <==> progress_complete(rounds@, round),
        r matches Err(e) ==> e@ == "checkpoint progress is not a complete contiguous prefix"@,
{
    if round == 0 || rounds.len() as u64 != round {
        return Err(String::from_str("checkpoint progress is not a complete contiguous prefix"));
    }
    let mut i: usize = 0;
    while i < rounds.len()
        invariant
            i <= rounds@.len(),
            rounds@.len() == round,
            forall|j: int| 0 <= j < i ==> #[trigger] rounds@[j] == Some((j + 1) as u64),
        decreases rounds.len() - i,
    {
        match rounds[i] {
            Some(v) => {
                if v != i as u64 + 1 {
                    return Err(String::from_str("checkpoint progress is not a complete contiguous prefix"));
                }
            },
            None => {
                return Err(String::from_str("checkpoint progress is not a complete contiguous prefix"));
            },
        }
        i += 1;
    }
    Ok(())
}

/// Receipts and states larger than 32 MiB are refused unread.
pub const CHECKPOINT_SIZE_LIMIT: u64 = 33554432;

/// The schema of a checkpoint receipt.
pub open spec fn receipt_schema() -> Seq<char> {
    "compact-preflop-checkpoint-v1"@
}

/// Whether a checkpoint generation may be written after `round` completed
/// iterations: its progress is complete and neither of its files exists
/// yet.
pub fn check_checkpoint_save(
    progress: &[Option<u64>],
    round: u64,
    state_exists: bool,
    receipt_exists: bool,
) -> (r: Result<(), String>)
    ensures
        r is Ok <==> progress_complete(progress@, round) && !state_exists && !receipt_exists,
        !progress_complete(progress@, round) ==> (r matches Err(e)
            && e@ == "checkpoint progress is not a complete contiguous prefix"@),
        progress_complete(progress@, round) && (state_exists || receipt_exists) ==> (r matches Err(e)
            && e@ == "refuse to overwrite checkpoint generation"@),
{
    validate_progress(progress, round)?;
    if state_exists || receipt_exists {
        return Err(String::from_str("refuse to overwrite checkpoint generation"));
    }
    Ok(())
}

/// Check a receipt file: its size on disk, then the lower-case SHA-256
/// digest of its bytes (read only when the size is within the limit).
pub fn check_receipt_bytes(size: u64, bytes: &[u8], expected_sha256: &str) -> (r: Result<(), String>)
    ensures
        r is Ok <==> size <= CHECKPOINT_SIZE_LIMIT && hex_lower_chars(sha256_digest(bytes@)) == expected_sha256@,
        size > CHECKPOINT_SIZE_LIMIT ==> (r matches Err(e) && e@ == "oversized compact checkpoint receipt"@),
        size <= CHECKPOINT_SIZE_LIMIT && hex_lower_chars(sha256_digest(bytes@)) != expected_sha256@ ==> (r matches Err(e)
            && e@ == "checkpoint receipt hash mismatch"@),
{
    if size > CHECKPOINT_SIZE_LIMIT {
        return Err(String::from_str("oversized compact checkpoint receipt"));
    }
    let digest = sha256_hex(bytes);
    if !str_eq(digest.as_str(), expected_sha256) {
        return Err(String::from_str("checkpoint receipt hash mismatch"));
    }
    Ok(())
}

/// Whether a parsed receipt continues this run: its schema, that it was
/// written for the same identity, that it names the state file of its own
/// round, and that its progress is complete.
pub open spec fn receipt_fields_valid(
    schema: Seq<char>,
    identity_matches: bool,
    checkpoint: Seq<char>,
    completed_iterations: u64,
    progress: Seq<Option<u64>>,
) -> bool {
    &&& schema == receipt_schema()
    &&& identity_matches
    &&& checkpoint == state_name(completed_iterations)
    &&& progress_complete(progress, completed_iterations)
}

/// Check the fields of a parsed receipt.
pub fn check_receipt_fields(
    schema: &str,
    identity_matches: bool,
    checkpoint: &str,
    completed_iterations: u64,
    progress: &[Option<u64>],
) -> (r: Result<(), String>)
    ensures
        r is Ok <==> receipt_fields_valid(schema@, identity_matches, checkpoint@, completed_iterations, progress@),
        !(schema@ == receipt_schema() && identity_matches && checkpoint@ == state_name(completed_iterations)) ==> (r matches Err(
            e,
        ) && e@ == "checkpoint continuation identity or generation differs"@),
        schema@ == receipt_schema() && identity_matches && checkpoint@ == state_name(completed_iterations)
            && !progress_complete(progress@, completed_iterations) ==> (r matches Err(e)
            && e@ == "checkpoint progress is not a complete contiguous prefix"@),
{
    let expected = checkpoint_state_name(completed_iterations);
    if !str_eq(schema, "compact-preflop-checkpoint-v1") || !identity_matches || !str_eq(checkpoint, expected.as_str()) {
        return Err(String::from_str("checkpoint continuation identity or generation differs"));
    }
    validate_progress(progress, completed_iterations)
}

/// Check a state file named by a receipt: its size on disk and the digest
/// of its bytes (read only when the size is within the limit) against the
/// digest the receipt recorded.
pub fn check_state_bytes(size: u64, bytes: &[u8], recorded_sha256: &str) -> (r: Result<(), String>)
    ensures
        r is Ok <==> size <= CHECKPOINT_SIZE_LIMIT && hex_lower_chars(sha256_digest(bytes@)) == recorded_sha256@,
        r matches Err(e) ==> e@ == "checkpoint state size/hash mismatch"@,
{
    if size > CHECKPOINT_SIZE_LIMIT {
        return Err(String::from_str("checkpoint state size/hash mismatch"));
    }
    let digest = sha256_hex(bytes);
    if !str_eq(digest.as_str(), recorded_sha256) {
        return Err(String::from_str("checkpoint state size/hash mismatch"));
    }
    Ok(())
}

/// The number of solver nodes a compact training state holds.
pub const COMPACT_NODE_COUNT: usize = 16900;

/// Check a restored training state against its receipt: the same number of
/// completed iterations, and every compact solver node.
pub fn check_restored_state(state_iterations: u64, receipt_iterations: u64, nodes: usize) -> (r: Result<(), String>)
    ensures
        r is Ok <==> state_iterations == receipt_iterations && nodes == COMPACT_NODE_COUNT,
        r matches Err(e) ==> e@ == "checkpoint state/progress mismatch"@,
{
    if state_iterations != receipt_iterations || nodes != COMPACT_NODE_COUNT {
        return Err(String::from_str("checkpoint state/progress mismatch"));
    }
    Ok(())
}

/// A receipt written for a generation that could be saved is accepted on
/// restore by the same run: the schema, the identity, the state file of its
/// round and its complete progress all check out.
pub proof fn law_saved_receipt_is_restorable(progress: Seq<Option<u64>>, round: u64)
    requires
        progress_complete(progress, round),
    ensures
        receipt_fields_valid(receipt_schema(), true, state_name(round), round, progress),
{
}

/// The number that a string of decimal digits spells.
pub open spec fn digits_value(s: Seq<char>) -> int
    decreases s.len(),
{
    if s.len() == 0 {
        0
    } else {
        digits_value(s.drop_last()) * 10 + (s.last() as int - 48)
    }
}

proof fn lemma_digit_char_value(d: int)
    requires
        0 <= d < 10,
    ensures
        digit_char(d) as int == d + 48,
{
    let b = (d + 48) as u8;
    assert(b as int == d + 48);
    assert((b as char) as int == b as int);
}

proof fn lemma_decimal_value(n: nat)
    ensures
        digits_value(decimal(n)) == n,
    decreases n,
{
    if n >= 10 {
        lemma_decimal_value(n / 10);
        assert(decimal(n).drop_last() =~= decimal(n / 10));
        assert(decimal(n).last() == digit_char((n % 10) as int));
        lemma_digit_char_value((n % 10) as int);
        let s = decimal(n);
        assert(s.len() > 0);
        assert(digits_value(s) == digits_value(s.drop_last()) * 10 + (s.last() as int - 48));
        assert(digits_value(s.drop_last()) == n / 10);
        assert(s.last() as int - 48 == n % 10);
        assert(n == (n / 10) * 10 + n % 10) by (nonlinear_arith);
    } else {
        assert(decimal(n).drop_last() =~= Seq::<char>::empty());
        assert(decimal(n).last() == digit_char(n as int));
        lemma_digit_char_value(n as int);
        let s = decimal(n);
        assert(digits_value(s) == digits_value(s.drop_last()) * 10 + (s.last() as int - 48));
        assert(digits_value(s.drop_last()) == 0);
    }
}

proof fn lemma_zeros_value(k: nat, s: Seq<char>)
    ensures
        digits_value(Seq::new(k, |i: int| '0') + s) == digits_value(s),
    decreases s.len(), k,
{
    if s.len() > 0 {
        lemma_zeros_value(k, s.drop_last());
        assert((Seq::new(k, |i: int| '0') + s).drop_last() =~= Seq::new(k, |i: int| '0') + s.drop_last());
    } else if k > 0 {
        lemma_zeros_value((k - 1) as nat, s);
        assert(Seq::new(k, |i: int| '0') + s =~= (Seq::new((k - 1) as nat, |i: int| '0') + s).push('0'));
        assert(Seq::new((k - 1) as nat, |i: int| '0') + s =~= Seq::new((k - 1) as nat, |i: int| '0'));
        assert((Seq::new(k, |i: int| '0') + s).drop_last() =~= Seq::new((k - 1) as nat, |i: int| '0') + s);
        assert(('0' as int) == 48);
    } else {
        assert(Seq::new(k, |i: int| '0') + s =~= Seq::<char>::empty());
    }
}

/// Zero padding keeps the number a decimal string spells.
proof fn lemma_padded_value(n: nat, width: nat)
    ensures
        digits_value(zero_padded(decimal(n), width)) == n,
{
    lemma_decimal_value(n);
    if decimal(n).len() < width {
        lemma_zeros_value((width - decimal(n).len()) as nat, decimal(n));
    }
}

/// Every round has checkpoint files of its own: two rounds share a state
/// file name, or a receipt file name, only if they are the same round.
pub proof fn law_checkpoint_names_are_distinct(a: u64, b: u64)
    ensures
        state_name(a) == state_name(b) ==> a == b,
        receipt_name(a) == receipt_name(b) ==> a == b,
{
    reveal_strlit("round");
    reveal_strlit(".mpk.gz");
    reveal_strlit(".json");
    let pa = zero_padded(decimal(a as nat), 4);
    let pb = zero_padded(decimal(b as nat), 4);
    lemma_padded_value(a as nat, 4);
    lemma_padded_value(b as nat, 4);
    if state_name(a) == state_name(b) {
        let x = state_name(a);
        assert(x.len() == 5 + pa.len() + 7);
        assert(state_name(b).len() == 5 + pb.len() + 7);
        assert(pa =~= x.subrange(5, 5 + pa.len() as int));
        assert(pb =~= state_name(b).subrange(5, 5 + pb.len() as int));
    }
    if receipt_name(a) == receipt_name(b) {
        let x = receipt_name(a);
        assert(x.len() == 5 + pa.len() + 5);
        assert(receipt_name(b).len() == 5 + pb.len() + 5);
        assert(pa =~= x.subrange(5, 5 + pa.len() as int));
        assert(pb =~= receipt_name(b).subrange(5, 5 + pb.len() as int));
    }
}

} // verus!
