//! SHA-256 digests, their hexadecimal form, gzip decoding of artifacts, and
//! the byte framings of the solver's deterministic keys and seeds.
use vstd::prelude::*;
use crate::cards::push_char;
use crate::game::{Street, street_number, board_cards};
use crate::text::str_eq;
use vstd::string::StringExecFns;
use vstd::string::StringSliceAdditionalSpecFns;
use std::io::Read;
use sha2::Digest;

verus! {

/// The SHA-256 digest of a byte string.
pub uninterp spec fn sha256_digest(data: Seq<u8>) -> Seq<u8>;

/// The first `limit` bytes that gzip decoding of `data` yields, or `None`
/// when the data is not a valid gzip member before that point.
pub uninterp spec fn gzip_decoded_prefix(data: Seq<u8>, limit: nat) -> Option<Seq<u8>>;

/// What gzip decoding of `data` to its end yields, or `None` when the data
/// is not a valid gzip member.
pub uninterp spec fn gzip_decoded(data: Seq<u8>) -> Option<Seq<u8>>;

/// `sha2::Sha256::digest`: the 32-byte SHA-256 digest of `data`.
#[verifier::external_body]
pub(crate) fn sha256(data: &[u8]) -> (d: Vec<u8>)
    ensures
        d@ == sha256_digest(data@),
        d@.len() == 32,
{
    sha2::Sha256::digest(data).to_vec()
}

/// `flate2::read::GzDecoder` over `data`, read to its end through
/// `Read::take(limit)`: the decoded bytes, at most `limit` of them, or the
/// decoder's error message. The text of that message is not stated.
#[verifier::external_body]
fn gunzip_at_most(data: &[u8], limit: u64) -> (r: Result<Vec<u8>, String>)
    ensures
        match r {
            Ok(d) => gzip_decoded_prefix(data@, limit as nat) == Some(d@) && d@.len() <= limit,
            Err(_) => gzip_decoded_prefix(data@, limit as nat) is None,
        },
{
    let mut decoded = Vec::new();
    match flate2::read::GzDecoder::new(data).take(limit).read_to_end(&mut decoded) {
        Ok(_) => Ok(decoded),
        Err(e) => Err(e.to_string()),
    }
}

/// `flate2::read::GzDecoder` over `data`, read to its end with
/// `Read::read_to_end`: the decoded bytes, or the decoder's error message.
/// The text of that message is not stated.
#[verifier::external_body]
pub(crate) fn gunzip(data: &[u8]) -> (r: Result<Vec<u8>, String>)
    ensures
        match r {
            Ok(d) => gzip_decoded(data@) == Some(d@),
            Err(_) => gzip_decoded(data@) is None,
        },
{
    let mut decoded = Vec::new();
    match flate2::read::GzDecoder::new(data).read_to_end(&mut decoded) {
        Ok(_) => Ok(decoded),
        Err(e) => Err(e.to_string()),
    }
}

/// The JSON text of a cache file: the gzip-decoded bytes of a compressed
/// file (`is_gzip`, a file named `.gz`), else its bytes as they are; a
/// compressed file that does not decode gives the decoder's error.
pub fn cache_file_bytes(is_gzip: bool, bytes: &[u8]) -> (r: Result<Vec<u8>, String>)
    ensures
        is_gzip ==> (match r {
            Ok(d) => gzip_decoded(bytes@) == Some(d@),
            Err(_) => gzip_decoded(bytes@) is None,
        }),
        !is_gzip ==> (r matches Ok(d) && d@ == bytes@),
{
    if is_gzip {
        gunzip(bytes)
    } else {
        let mut copy: Vec<u8> = Vec::new();
        let mut i: usize = 0;
        while i < bytes.len()
            invariant
                i <= bytes@.len(),
                copy@ == bytes@.take(i as int),
            decreases bytes.len() - i,
        {
            copy.push(bytes[i]);
            proof {
                assert(bytes@.take(i as int + 1) =~= bytes@.take(i as int).push(bytes@[i as int]));
            }
            i += 1;
        }
        proof {
            assert(bytes@.take(i as int) =~= bytes@);
        }
        Ok(copy)
    }
}

/// The lower-case hexadecimal digit of `v < 16`.
pub open spec fn hex_digit(v: int) -> char {
    if v < 10 {
        ((v + 48) as u8) as char
    } else {
        ((v + 87) as u8) as char
    }
}

/// Lower-case hexadecimal, two digits per byte, high nibble first.
pub open spec fn hex_lower_chars(bytes: Seq<u8>) -> Seq<char>
    decreases bytes.len(),
{
    if bytes.len() == 0 {
        Seq::empty()
    } else {
        hex_lower_chars(bytes.drop_last()).push(hex_digit(bytes.last() as int / 16)).push(
            hex_digit(bytes.last() as int % 16),
        )
    }
}

fn hex_character(v: u8) -> (c: char)
    requires
        v < 16,
    ensures
        c == hex_digit(v as int),
{
    if v < 10 {
        (v + 48) as char
    } else {
        (v + 87) as char
    }
}

/// The lower-case hexadecimal form of `bytes`, as `format!("{:x}")` prints a digest.
pub fn hex_lower(bytes: &[u8]) -> (s: String)
    ensures
        s@ == hex_lower_chars(bytes@),
{
    let mut s = String::new();
    let mut i: usize = 0;
    while i < bytes.len()
        invariant
            i <= bytes@.len(),
            s@ == hex_lower_chars(bytes@.take(i as int)),
        decreases bytes.len() - i,
    {
        let b = bytes[i];
        push_char(&mut s, hex_character(b / 16));
        push_char(&mut s, hex_character(b % 16));
        proof {
            assert(bytes@.take(i as int + 1).drop_last() =~= bytes@.take(i as int));
        }
        i += 1;
    }
    proof {
        assert(bytes@.take(bytes@.len() as int) =~= bytes@);
    }
    s
}

/// The lower-case hexadecimal SHA-256 digest of `data`.
pub fn sha256_hex(data: &[u8]) -> (s: String)
    ensures
        s@ == hex_lower_chars(sha256_digest(data@)),
{
    let d = sha256(data);
    hex_lower(d.as_slice())
}

/// Largest accepted exact-kernel artifact, compressed or decoded.
pub const MAX_KERNEL_BYTES: u64 = 4194304;

/// The decoded kernel document of a compressed kernel artifact, after its
/// size and pinned hash are checked.
pub open spec fn kernel_artifact_accepted(bytes: Seq<u8>, expected_sha256: Seq<char>) -> bool {
    &&& bytes.len() <= MAX_KERNEL_BYTES
    &&& hex_lower_chars(sha256_digest(bytes)) == expected_sha256
    &&& gzip_decoded_prefix(bytes, MAX_KERNEL_BYTES as nat + 1) matches Some(d) && d.len() <= MAX_KERNEL_BYTES
}

/// Check a compressed kernel artifact's size and pinned digest, then decode
/// it with a bound on the decoded size.
pub fn decode_kernel_artifact(bytes: &[u8], expected_sha256: &str) -> (r: Result<Vec<u8>, String>)
    ensures
        r is Ok <==> kernel_artifact_accepted(bytes@, expected_sha256@),
        r matches Ok(d) ==> gzip_decoded_prefix(bytes@, MAX_KERNEL_BYTES as nat + 1) == Some(d@),
        bytes@.len() > MAX_KERNEL_BYTES || hex_lower_chars(sha256_digest(bytes@)) != expected_sha256@ ==> (r matches Err(e)
            && e@ == "exact preflop kernel size/hash mismatch"@),
        bytes@.len() <= MAX_KERNEL_BYTES && hex_lower_chars(sha256_digest(bytes@)) == expected_sha256@ && (gzip_decoded_prefix(
            bytes@,
            MAX_KERNEL_BYTES as nat + 1,
        ) matches Some(d) && d.len() > MAX_KERNEL_BYTES) ==> (r matches Err(e) && e@ == "oversized decoded preflop kernel"@),
{
    if bytes.len() as u64 > MAX_KERNEL_BYTES {
        return Err(String::from_str("exact preflop kernel size/hash mismatch"));
    }
    let digest = sha256_hex(bytes);
    if !str_eq(digest.as_str(), expected_sha256) {
        return Err(String::from_str("exact preflop kernel size/hash mismatch"));
    }
    let decoded = gunzip_at_most(bytes, MAX_KERNEL_BYTES + 1)?;
    if decoded.len() as u64 > MAX_KERNEL_BYTES {
        return Err(String::from_str("oversized decoded preflop kernel"));
    }
    Ok(decoded)
}

/// Little-endian bytes of the low `n` bytes of `x`.
pub open spec fn le_bytes(x: int, n: nat) -> Seq<u8>
    decreases n,
{
    if n == 0 {
        Seq::empty()
    } else {
        seq![(x % 256) as u8] + le_bytes(x / 256, (n - 1) as nat)
    }
}

/// The integer whose little-endian bytes are `bytes`.
pub open spec fn from_le(bytes: Seq<u8>) -> int
    decreases bytes.len(),
{
    if bytes.len() == 0 {
        0
    } else {
        bytes[0] + 256 * from_le(bytes.drop_first())
    }
}

pub(crate) fn push_le(out: &mut Vec<u8>, x: u64, n: usize)
    requires
        n <= 8,
    ensures
        final(out)@ == old(out)@ + le_bytes(x as int, n as nat),
{
    let mut v = x;
    let mut i: usize = 0;
    while i < n
        invariant
            i <= n,
            out@ + le_bytes(v as int, (n - i) as nat) == old(out)@ + le_bytes(x as int, n as nat),
        decreases n - i,
    {
        let ghost before = out@;
        out.push((v % 256) as u8);
        proof {
            assert(le_bytes(v as int, (n - i) as nat) == seq![(v % 256) as u8] + le_bytes(v as int / 256, (n - i - 1) as nat));
            assert(out@ + le_bytes(v as int / 256, (n - i - 1) as nat) =~= before + le_bytes(v as int, (n - i) as nat));
        }
        v = v / 256;
        i += 1;
    }
}

proof fn lemma_from_le_bound(bytes: Seq<u8>, bound: int)
    requires
        bound == pow256(bytes.len()),
    ensures
        0 <= from_le(bytes) < bound,
    decreases bytes.len(),
{
    if bytes.len() > 0 {
        lemma_from_le_bound(bytes.drop_first(), pow256((bytes.len() - 1) as nat));
        let r = from_le(bytes.drop_first());
        let p = pow256((bytes.len() - 1) as nat);
        assert(bytes[0] + 256 * r < 256 * p) by (nonlinear_arith)
            requires 0 <= r < p, 0 <= bytes[0] < 256;
    }
}

/// `256^n`.
pub open spec fn pow256(n: nat) -> int
    decreases n,
{
    if n == 0 {
        1
    } else {
        256 * pow256((n - 1) as nat)
    }
}

/// The `u64` whose little-endian bytes are the first eight of `bytes`.
pub fn u64_from_le_prefix(bytes: &[u8]) -> (v: u64)
    requires
        bytes@.len() >= 8,
    ensures
        v as int == from_le(bytes@.take(8)),
{
    let mut acc: u64 = 0;
    let mut i: usize = 8;
    proof {
        assert(bytes@.take(8).subrange(8, 8) =~= Seq::<u8>::empty());
    }
    while i > 0
        invariant
            i <= 8,
            bytes@.len() >= 8,
            acc as int == from_le(bytes@.take(8).subrange(i as int, 8)),
        decreases i,
    {
        let ghost tail = bytes@.take(8).subrange(i as int, 8);
        proof {
            lemma_from_le_bound(tail, pow256((8 - i) as nat));
            assert(pow256(7) == 72057594037927936) by {
                reveal_with_fuel(pow256, 8);
            }
            lemma_pow256_monotone((8 - i) as nat, 7);
        }
        i -= 1;
        let ghost next = bytes@.take(8).subrange(i as int, 8);
        proof {
            assert(next.drop_first() =~= tail);
        }
        acc = acc * 256 + bytes[i] as u64;
    }
    proof {
        assert(bytes@.take(8).subrange(0, 8) =~= bytes@.take(8));
    }
    acc
}

proof fn lemma_pow256_monotone(a: nat, b: nat)
    requires
        a <= b,
    ensures
        pow256(a) <= pow256(b),
    decreases b,
{
    if a < b {
        lemma_pow256_monotone(a, (b - 1) as nat);
        lemma_pow256_positive((b - 1) as nat);
    }
}

proof fn lemma_pow256_positive(n: nat)
    ensures
        pow256(n) >= 1,
    decreases n,
{
    if n > 0 {
        lemma_pow256_positive((n - 1) as nat);
    }
}

/// The `u64` whose little-endian bytes are the eight of `bytes` from `at`.
pub fn u64_from_le_at(bytes: &[u8], at: usize) -> (v: u64)
    requires
        at + 8 <= bytes@.len(),
    ensures
        v as int == from_le(bytes@.subrange(at as int, at as int + 8)),
{
    let mut word: Vec<u8> = Vec::new();
    let n = bytes.len();
    let mut i: usize = 0;
    while i < 8
        invariant
            i <= 8,
            n == bytes@.len(),
            at + 8 <= bytes@.len(),
            word@ == bytes@.subrange(at as int, at as int + i),
        decreases 8 - i,
    {
        word.push(bytes[at + i]);
        proof {
            assert(bytes@.subrange(at as int, at as int + i + 1) =~= bytes@.subrange(at as int, at as int + i).push(bytes@[at + i]));
        }
        i += 1;
    }
    proof {
        assert(word@.take(8) =~= word@);
    }
    u64_from_le_prefix(word.as_slice())
}

} // verus!
