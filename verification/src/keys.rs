//! Deterministic keys and seeds: each is the SHA-256 digest of a framed,
//! domain-separated byte string.
use vstd::prelude::*;
use crate::deals::{Deal, deal_cards};
use crate::digest::{sha256, sha256_digest, sha256_hex, hex_lower_chars, le_bytes, from_le, push_le, u64_from_le_prefix};
use crate::game::{Street, street_number, board_cards, street_index};
use vstd::string::StringSliceAdditionalSpecFns;

verus! {

/// Domain separator of public range-policy cache keys.
pub const RANGE_POLICY_DOMAIN: [u8; 31] = [
    104, 117, 45, 114, 97, 110, 103, 101, 45, 112, 111, 108, 105, 99, 121, 45, 112, 117, 98, 108, 105,
    99, 45, 115, 116, 97, 116, 101, 45, 118, 49,
];

/// Domain separator of preflop continuation seeds.
pub const CONTINUATION_DOMAIN: [u8; 30] = [
    104, 117, 45, 118, 50, 54, 45, 112, 114, 101, 102, 108, 111, 112, 45, 99, 111, 110, 116, 105, 110,
    117, 97, 116, 105, 111, 110, 45, 118, 49,
];

/// The UTF-8 bytes of each public history label.
pub open spec fn history_bytes(history: Seq<String>) -> Seq<Seq<u8>> {
    history.map_values(|h: String| vstd::utf8::encode_utf8(h@))
}

/// Each label framed by its byte length (eight bytes, little-endian) and then
/// its bytes, in order.
pub open spec fn labels_frame(labels: Seq<Seq<u8>>) -> Seq<u8>
    decreases labels.len(),
{
    if labels.len() == 0 {
        Seq::empty()
    } else {
        labels_frame(labels.drop_last()) + le_bytes(labels.last().len() as int, 8) + labels.last()
    }
}

/// The bytes hashed into a public range-policy cache key.
pub open spec fn range_policy_frame(street: Street, actor: usize, board: Seq<u8>, history: Seq<Seq<u8>>) -> Seq<u8> {
    RANGE_POLICY_DOMAIN@ + seq![street_number(street) as u8, actor as u8] + board + labels_frame(history)
}

pub(crate) fn append_bytes(out: &mut Vec<u8>, bytes: &[u8])
    ensures
        final(out)@ == old(out)@ + bytes@,
{
    let mut i: usize = 0;
    while i < bytes.len()
        invariant
            i <= bytes@.len(),
            out@ == old(out)@ + bytes@.take(i as int),
        decreases bytes.len() - i,
    {
        out.push(bytes[i]);
        proof {
            assert(bytes@.take(i as int + 1) =~= bytes@.take(i as int).push(bytes@[i as int]));
        }
        i += 1;
    }
    proof {
        assert(bytes@.take(bytes@.len() as int) =~= bytes@);
    }
}

fn digest_array(d: &Vec<u8>) -> (key: [u8; 32])
    requires
        d@.len() == 32,
    ensures
        key@ == d@,
{
    let mut key = [0u8; 32];
    let mut i: usize = 0;
    while i < 32
        invariant
            i <= 32,
            d@.len() == 32,
            forall|k: int| 0 <= k < i ==> key@[k] == d@[k],
        decreases 32 - i,
    {
        key[i] = d[i];
        i += 1;
    }
    proof {
        assert(key@ =~= d@);
    }
    key
}

/// The cache key of a public range-policy state: the SHA-256 digest of the
/// street, the actor, the public board and the public action labels.
pub fn range_policy_public_cache_key(street: Street, actor: usize, board: &[u8], public_history: &[String]) -> (key: [u8; 32])
    ensures
        key@ == sha256_digest(range_policy_frame(street, actor, board@, history_bytes(public_history@))),
{
    let mut frame: Vec<u8> = Vec::new();
    append_bytes(&mut frame, RANGE_POLICY_DOMAIN.as_slice());
    frame.push(street_index(street) as u8);
    frame.push(#[verifier::truncate] (actor as u8));
    append_bytes(&mut frame, board);
    let ghost labels = history_bytes(public_history@);
    let mut i: usize = 0;
    while i < public_history.len()
        invariant
            i <= public_history@.len(),
            labels == history_bytes(public_history@),
            frame@ == RANGE_POLICY_DOMAIN@ + seq![street_number(street) as u8, actor as u8] + board@
                + labels_frame(labels.take(i as int)),
        decreases public_history.len() - i,
    {
        let label: &str = public_history[i].as_str();
        let bytes = label.as_bytes();
        let ghost before = frame@;
        let len = bytes.len() as u64;
        push_le(&mut frame, len, 8);
        let ghost mid = frame@;
        assert(mid == before + le_bytes(bytes@.len() as int, 8));
        append_bytes(&mut frame, bytes);
        proof {
            assert(label@ == public_history@[i as int]@);
            assert(bytes@ == labels[i as int]);
            assert(labels.take(i as int + 1).drop_last() =~= labels.take(i as int));
            assert(labels.take(i as int + 1).last() == bytes@);
            assert(frame@ =~= before + (le_bytes(bytes@.len() as int, 8) + bytes@));
            assert(labels_frame(labels.take(i as int + 1)) =~= labels_frame(labels.take(i as int)) + (le_bytes(bytes@.len() as int, 8) + bytes@));
        }
        i += 1;
    }
    proof {
        assert(labels.take(public_history@.len() as int) =~= labels);
    }
    let d = sha256(frame.as_slice());
    digest_array(&d)
}

/// The cache key of the public state that `street`, `actor` and the labels
/// describe on `deal`: only the board cards dealt by `street` are public.
pub fn range_policy_cache_key(street: Street, actor: usize, deal: &Deal, public_history: &[String]) -> (key: [u8; 32])
    ensures
        key@ == sha256_digest(
            range_policy_frame(street, actor, deal.board@.take(board_cards(street)), history_bytes(public_history@)),
        ),
{
    let n = street.board_len();
    let mut board: Vec<u8> = Vec::new();
    let mut i: usize = 0;
    while i < n
        invariant
            i <= n <= 5,
            n == board_cards(street),
            board@ == deal.board@.take(i as int),
        decreases n - i,
    {
        board.push(deal.board[i]);
        proof {
            assert(deal.board@.take(i as int + 1) =~= deal.board@.take(i as int).push(deal.board@[i as int]));
        }
        i += 1;
    }
    range_policy_public_cache_key(street, actor, board.as_slice(), public_history)
}

/// The bytes hashed into a preflop continuation seed.
pub open spec fn continuation_frame(seed: u64, deal: usize, history: u64, rollout: u32) -> Seq<u8> {
    CONTINUATION_DOMAIN@ + le_bytes(seed as int, 8) + le_bytes(deal as int, 8) + le_bytes(history as int, 8)
        + le_bytes(rollout as int, 4)
}

/// The seed of one continuation rollout: the first eight bytes,
/// little-endian, of the SHA-256 digest of the base seed, deal index,
/// public-history key and rollout index.
pub fn continuation_seed(seed: u64, deal: usize, history: u64, rollout: u32) -> (s: u64)
    ensures
        s == from_le(sha256_digest(continuation_frame(seed, deal, history, rollout)).take(8)),
{
    let mut frame: Vec<u8> = Vec::new();
    append_bytes(&mut frame, CONTINUATION_DOMAIN.as_slice());
    push_le(&mut frame, seed, 8);
    push_le(&mut frame, deal as u64, 8);
    push_le(&mut frame, history, 8);
    push_le(&mut frame, rollout as u64, 4);
    let d = sha256(frame.as_slice());
    u64_from_le_prefix(d.as_slice())
}

/// Domain separator of action-value rollout seeds.
pub const ROLLOUT_DOMAIN: [u8; 26] = [
    104, 117, 45, 97, 99, 116, 105, 111, 110, 45, 118, 97, 108, 117, 101, 45, 114, 111, 108, 108, 111, 117, 116, 45,
    118, 49,
];

/// Each feature in micro-units as the four little-endian bytes of its two's
/// complement, in order.
pub open spec fn micro_units_frame(units: Seq<i32>) -> Seq<u8>
    decreases units.len(),
{
    if units.len() == 0 {
        Seq::empty()
    } else {
        micro_units_frame(units.drop_last()) + le_bytes((units.last() as u32) as int, 4)
    }
}

/// The bytes hashed into an action-value rollout seed.
pub open spec fn rollout_frame(seed: u64, iteration: u64, sample_index: u32, deal: Deal, units: Seq<i32>) -> Seq<u8> {
    ROLLOUT_DOMAIN@ + le_bytes(seed as int, 8) + le_bytes(iteration as int, 8) + le_bytes(sample_index as int, 4)
        + deal_cards(deal) + micro_units_frame(units)
}

/// The seed of one action-value rollout: the first eight bytes,
/// little-endian, of the SHA-256 digest of the base seed, iteration, sample
/// index, the nine cards of the deal, and the state-action features rounded
/// to micro-units.
pub fn value_rollout_seed(seed: u64, iteration: u64, sample_index: u32, deal: &Deal, feature_micro_units: &[i32]) -> (s: u64)
    ensures
        s == from_le(sha256_digest(rollout_frame(seed, iteration, sample_index, *deal, feature_micro_units@)).take(8)),
{
    let mut frame: Vec<u8> = Vec::new();
    append_bytes(&mut frame, ROLLOUT_DOMAIN.as_slice());
    push_le(&mut frame, seed, 8);
    push_le(&mut frame, iteration, 8);
    push_le(&mut frame, sample_index as u64, 4);
    let cards: [u8; 9] = [
        deal.holes[0][0], deal.holes[0][1], deal.holes[1][0], deal.holes[1][1],
        deal.board[0], deal.board[1], deal.board[2], deal.board[3], deal.board[4],
    ];
    append_bytes(&mut frame, cards.as_slice());
    proof {
        assert(cards@ =~= deal_cards(*deal));
    }
    let ghost head = frame@;
    let mut i: usize = 0;
    while i < feature_micro_units.len()
        invariant
            i <= feature_micro_units@.len(),
            frame@ == head + micro_units_frame(feature_micro_units@.take(i as int)),
        decreases feature_micro_units.len() - i,
    {
        let unit = feature_micro_units[i];
        push_le(&mut frame, (unit as u32) as u64, 4);
        proof {
            assert(feature_micro_units@.take(i as int + 1).drop_last() =~= feature_micro_units@.take(i as int));
        }
        i += 1;
    }
    proof {
        assert(feature_micro_units@.take(i as int) =~= feature_micro_units@);
    }
    let d = sha256(frame.as_slice());
    u64_from_le_prefix(d.as_slice())
}

/// Domain separator of a frozen-policy mixture digest.
pub const MIXTURE_DOMAIN: [u8; 27] = [
    104, 117, 45, 102, 114, 111, 122, 101, 110, 45, 112, 111, 108, 105, 99, 121, 45, 109, 105, 120, 116, 117, 114,
    101, 45, 118, 49,
];

/// The parts, one after another.
pub open spec fn concatenated(parts: Seq<Seq<u8>>) -> Seq<u8>
    decreases parts.len(),
{
    if parts.len() == 0 {
        Seq::empty()
    } else {
        concatenated(parts.drop_last()) + parts.last()
    }
}

/// The digest of a mixture of frozen policies: the hexadecimal SHA-256 of
/// the domain separator followed by the hexadecimal digest of each file, in
/// order.
pub fn combined_file_sha256(file_digests: &[String]) -> (s: String)
    ensures
        s@ == hex_lower_chars(sha256_digest(MIXTURE_DOMAIN@ + concatenated(history_bytes(file_digests@)))),
{
    let mut frame: Vec<u8> = Vec::new();
    append_bytes(&mut frame, MIXTURE_DOMAIN.as_slice());
    let ghost parts = history_bytes(file_digests@);
    let mut i: usize = 0;
    while i < file_digests.len()
        invariant
            i <= file_digests@.len(),
            parts == history_bytes(file_digests@),
            frame@ == MIXTURE_DOMAIN@ + concatenated(parts.take(i as int)),
        decreases file_digests.len() - i,
    {
        let digest: &str = file_digests[i].as_str();
        let bytes = digest.as_bytes();
        append_bytes(&mut frame, bytes);
        proof {
            assert(digest@ == file_digests@[i as int]@);
            assert(bytes@ == parts[i as int]);
            assert(parts.take(i as int + 1).drop_last() =~= parts.take(i as int));
            assert(frame@ =~= MIXTURE_DOMAIN@ + concatenated(parts.take(i as int + 1)));
        }
        i += 1;
    }
    proof {
        assert(parts.take(file_digests@.len() as int) =~= parts);
    }
    sha256_hex(frame.as_slice())
}

} // verus!
