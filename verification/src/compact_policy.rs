//! The compact binary form of a tabular preflop policy: a magic tag, the
//! format version, the stack depth, the model version, and for each
//! information set its key, its action labels and its sixteen-bit
//! quantized probabilities, all lengths and numbers little-endian.
use vstd::prelude::*;
use vstd::utf8::encode_utf8;
use crate::digest::{le_bytes, push_le};
use crate::keys::append_bytes;
use crate::quantize::{total, QUANTIZED_SCALE};

verus! {

/// The magic tag that opens a compact policy file.
pub const COMPACT_MAGIC: [u8; 8] = [72, 85, 80, 70, 84, 65, 66, 49];

/// The version of the compact format.
pub const COMPACT_FORMAT_VERSION: u16 = 1;

/// One information set of a compact policy.
pub struct CompactPolicyEntry {
    pub key: String,
    pub action_labels: Vec<String>,
    pub quantized: Vec<u16>,
}

/// An encoded policy, with the number of probabilities it holds and
/// whether every information set's probabilities fill the full scale.
pub struct CompactPolicyEncoding {
    pub bytes: Vec<u8>,
    pub probabilities: u64,
    pub sums_valid: bool,
}

/// The UTF-8 bytes of a string.
pub open spec fn utf8(s: String) -> Seq<u8> {
    encode_utf8(s@)
}

/// Each label as its byte length (one byte) and its bytes.
pub open spec fn labels_bytes(labels: Seq<String>) -> Seq<u8>
    decreases labels.len(),
{
    if labels.len() == 0 {
        Seq::empty()
    } else {
        labels_bytes(labels.drop_last()) + seq![utf8(labels.last()).len() as u8] + utf8(labels.last())
    }
}

/// Each probability as two little-endian bytes.
pub open spec fn units_bytes(units: Seq<u16>) -> Seq<u8>
    decreases units.len(),
{
    if units.len() == 0 {
        Seq::empty()
    } else {
        units_bytes(units.drop_last()) + le_bytes(units.last() as int, 2)
    }
}

/// The bytes of one information set.
pub open spec fn entry_bytes(e: CompactPolicyEntry) -> Seq<u8> {
    le_bytes(utf8(e.key).len() as int, 2) + utf8(e.key) + seq![e.action_labels@.len() as u8] + labels_bytes(
        e.action_labels@,
    ) + units_bytes(e.quantized@)
}

/// The bytes of the first `n` information sets.
pub open spec fn entries_bytes(entries: Seq<CompactPolicyEntry>, n: int) -> Seq<u8>
    decreases n,
{
    if n <= 0 {
        Seq::empty()
    } else {
        entries_bytes(entries, n - 1) + entry_bytes(entries[n - 1])
    }
}

/// The bytes of a compact policy.
pub open spec fn compact_bytes(depth_le: [u8; 8], model_version: String, entries: Seq<CompactPolicyEntry>) -> Seq<u8> {
    COMPACT_MAGIC@ + le_bytes(COMPACT_FORMAT_VERSION as int, 2) + depth_le@ + le_bytes(utf8(model_version).len() as int, 2)
        + utf8(model_version) + le_bytes(entries.len() as int, 4) + entries_bytes(entries, entries.len() as int)
}

/// An information set fits the format: a key of at most 65535 bytes, at
/// most 255 labels, each of at most 255 bytes.
pub open spec fn entry_fits(e: CompactPolicyEntry) -> bool {
    &&& utf8(e.key).len() <= 65535
    &&& e.action_labels@.len() <= 255
    &&& forall|i: int| 0 <= i < e.action_labels@.len() ==> utf8(#[trigger] e.action_labels@[i]).len() <= 255
}

/// How many probabilities the first `n` information sets hold.
pub open spec fn probability_count(entries: Seq<CompactPolicyEntry>, n: int) -> int
    decreases n,
{
    if n <= 0 {
        0
    } else {
        probability_count(entries, n - 1) + entries[n - 1].quantized@.len()
    }
}

fn append_labels(out: &mut Vec<u8>, labels: &Vec<String>)
    requires
        forall|i: int| 0 <= i < labels@.len() ==> utf8(#[trigger] labels@[i]).len() <= 255,
    ensures
        final(out)@ == old(out)@ + labels_bytes(labels@),
{
    let ghost start = out@;
    let mut i: usize = 0;
    while i < labels.len()
        invariant
            i <= labels@.len(),
            forall|j: int| 0 <= j < labels@.len() ==> utf8(#[trigger] labels@[j]).len() <= 255,
            out@ == start + labels_bytes(labels@.take(i as int)),
        decreases labels.len() - i,
    {
        let bytes = labels[i].as_str().as_bytes();
        proof {
            assert(bytes@ == utf8(labels@[i as int]));
            assert(labels@.take(i as int + 1).drop_last() =~= labels@.take(i as int));
        }
        out.push(bytes.len() as u8);
        append_bytes(out, bytes);
        proof {
            assert(out@ =~= start + labels_bytes(labels@.take(i as int + 1)));
        }
        i += 1;
    }
    proof {
        assert(labels@.take(i as int) =~= labels@);
    }
}

fn append_units(out: &mut Vec<u8>, units: &Vec<u16>)
    ensures
        final(out)@ == old(out)@ + units_bytes(units@),
{
    let ghost start = out@;
    let mut i: usize = 0;
    while i < units.len()
        invariant
            i <= units@.len(),
            out@ == start + units_bytes(units@.take(i as int)),
        decreases units.len() - i,
    {
        proof {
            assert(units@.take(i as int + 1).drop_last() =~= units@.take(i as int));
        }
        push_le(out, units[i] as u64, 2);
        proof {
            assert(out@ =~= start + units_bytes(units@.take(i as int + 1)));
        }
        i += 1;
    }
    proof {
        assert(units@.take(i as int) =~= units@);
    }
}

fn units_total(units: &Vec<u16>) -> (t: u64)
    requires
        units@.len() <= 255,
    ensures
        t == total(units@),
{
    let mut t: u64 = 0;
    let mut i: usize = 0;
    while i < units.len()
        invariant
            i <= units@.len() <= 255,
            t == total(units@.take(i as int)),
            t <= 65535 * i,
        decreases units.len() - i,
    {
        proof {
            assert(units@.take(i as int + 1).drop_last() =~= units@.take(i as int));
        }
        t = t + units[i] as u64;
        i += 1;
    }
    proof {
        assert(units@.take(i as int) =~= units@);
    }
    t
}

fn labels_fit(labels: &Vec<String>) -> (b: bool)
    ensures
        b == forall|i: int| 0 <= i < labels@.len() ==> utf8(#[trigger] labels@[i]).len() <= 255,
{
    let mut i: usize = 0;
    while i < labels.len()
        invariant
            i <= labels@.len(),
            forall|j: int| 0 <= j < i ==> utf8(#[trigger] labels@[j]).len() <= 255,
        decreases labels.len() - i,
    {
        let bytes = labels[i].as_str().as_bytes();
        proof {
            assert(bytes@ == utf8(labels@[i as int]));
        }
        if bytes.len() > 255 {
            return false;
        }
        i += 1;
    }
    true
}

/// Encode a policy with stack depth `depth_le` (the little-endian bytes of
/// the depth), `model_version`, and `entries` in order: refused when the
/// model version or the number of information sets does not fit its field,
/// or when an information set does not fit the format. Each entry's
/// `quantized` holds one sixteen-bit probability per action label.
pub fn encode_compact_policy(depth_le: [u8; 8], model_version: &String, entries: &Vec<CompactPolicyEntry>) -> (r: Result<
    CompactPolicyEncoding,
    String,
>)
    requires
        forall|i: int| 0 <= i < entries@.len() ==> (#[trigger] entries@[i]).quantized@.len() == entries@[i].action_labels@.len(),
    ensures
        (utf8(*model_version).len() > 65535 || entries@.len() > u32::MAX) ==> (r matches Err(e)
            && e@ == "compact preflop policy metadata is too large"@),
        (utf8(*model_version).len() <= 65535 && entries@.len() <= u32::MAX && exists|i: int|
            0 <= i < entries@.len() && !entry_fits(#[trigger] entries@[i])) ==> (r matches Err(e)
            && e@ == "compact preflop policy entry is too large"@),
        r is Ok <==> (utf8(*model_version).len() <= 65535 && entries@.len() <= u32::MAX && forall|i: int|
            0 <= i < entries@.len() ==> entry_fits(#[trigger] entries@[i])),
        r matches Ok(enc) ==> {
            &&& enc.bytes@ == compact_bytes(depth_le, *model_version, entries@)
            &&& enc.probabilities == probability_count(entries@, entries@.len() as int)
            &&& enc.sums_valid == forall|i: int|
                0 <= i < entries@.len() ==> total((#[trigger] entries@[i]).quantized@) == QUANTIZED_SCALE
        },
{
    let version = model_version.as_str().as_bytes();
    proof {
        assert(version@ == utf8(*model_version));
    }
    if version.len() > 65535 || entries.len() > 4294967295 {
        return Err(String::from_str("compact preflop policy metadata is too large"));
    }
    let mut out: Vec<u8> = Vec::new();
    append_bytes(&mut out, COMPACT_MAGIC.as_slice());
    push_le(&mut out, COMPACT_FORMAT_VERSION as u64, 2);
    append_bytes(&mut out, depth_le.as_slice());
    push_le(&mut out, version.len() as u64, 2);
    append_bytes(&mut out, version);
    push_le(&mut out, entries.len() as u64, 4);
    let ghost head = out@;
    proof {
        assert(head =~= COMPACT_MAGIC@ + le_bytes(COMPACT_FORMAT_VERSION as int, 2) + depth_le@ + le_bytes(
            utf8(*model_version).len() as int,
            2,
        ) + utf8(*model_version) + le_bytes(entries@.len() as int, 4));
    }
    let mut probabilities: u64 = 0;
    let mut sums_valid = true;
    let mut k: usize = 0;
    while k < entries.len()
        invariant
            k <= entries@.len(),
            utf8(*model_version).len() <= 65535,
            entries@.len() <= u32::MAX,
            forall|i: int| 0 <= i < entries@.len() ==> (#[trigger] entries@[i]).quantized@.len() == entries@[i].action_labels@.len(),
            forall|i: int| 0 <= i < k ==> entry_fits(#[trigger] entries@[i]),
            out@ == head + entries_bytes(entries@, k as int),
            probabilities == probability_count(entries@, k as int),
            probabilities <= 255 * k,
            sums_valid == forall|i: int| 0 <= i < k ==> total((#[trigger] entries@[i]).quantized@) == QUANTIZED_SCALE,
        decreases entries.len() - k,
    {
        let entry = &entries[k];
        let key = entry.key.as_str().as_bytes();
        proof {
            assert(key@ == utf8(entry.key));
        }
        if key.len() > 65535 || entry.action_labels.len() > 255 || !labels_fit(&entry.action_labels) {
            proof {
                assert(!entry_fits(entries@[k as int]));
            }
            return Err(String::from_str("compact preflop policy entry is too large"));
        }
        push_le(&mut out, key.len() as u64, 2);
        append_bytes(&mut out, key);
        out.push(entry.action_labels.len() as u8);
        append_labels(&mut out, &entry.action_labels);
        append_units(&mut out, &entry.quantized);
        proof {
            assert(out@ =~= head + entries_bytes(entries@, k as int + 1));
        }
        probabilities = probabilities + entry.quantized.len() as u64;
        let entry_total = units_total(&entry.quantized);
        sums_valid = sums_valid && entry_total == QUANTIZED_SCALE;
        proof {
            assert(sums_valid == forall|i: int| 0 <= i < k + 1 ==> total((#[trigger] entries@[i]).quantized@) == QUANTIZED_SCALE);
        }
        k += 1;
    }
    Ok(CompactPolicyEncoding { bytes: out, probabilities, sums_valid })
}

} // verus!
