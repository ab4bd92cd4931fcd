//! Provenance checks for exact-combo continuation caches: hexadecimal
//! digests, and which blocks of source deal indices form complete cycles.
use vstd::prelude::*;
use std::collections::HashSet;
use vstd::string::StringSliceAdditionalSpecFns;

verus! {

broadcast use vstd::std_specs::hash::group_hash_axioms;

/// A complete cycle visits every exact combo once for each seat.
pub const CYCLE_SIZE: usize = 2652;

/// An ASCII hexadecimal digit of either case.
pub open spec fn is_hex_byte(b: u8) -> bool {
    (48 <= b <= 57) || (65 <= b <= 70) || (97 <= b <= 102)
}

/// A SHA-256 digest in hexadecimal: exactly 64 hexadecimal digits.
pub open spec fn is_hex_digest_bytes(bytes: Seq<u8>) -> bool {
    bytes.len() == 64 && forall|i: int| 0 <= i < 64 ==> is_hex_byte(#[trigger] bytes[i])
}

/// Whether `digest` is 64 hexadecimal digits (either case).
pub fn is_hex_digest(digest: &str) -> (b: bool)
    ensures
        b == is_hex_digest_bytes(digest.spec_bytes()),
{
    let bytes = digest.as_bytes();
    if bytes.len() != 64 {
        return false;
    }
    let mut i: usize = 0;
    while i < 64
        invariant
            bytes@ == digest.spec_bytes(),
            bytes@.len() == 64,
            i <= 64,
            forall|j: int| 0 <= j < i ==> is_hex_byte(#[trigger] bytes@[j]),
        decreases 64 - i,
    {
        let b = bytes[i];
        if !((48 <= b && b <= 57) || (65 <= b && b <= 70) || (97 <= b && b <= 102)) {
            return false;
        }
        i += 1;
    }
    true
}

/// Whether some source index equals `value`.
pub open spec fn has_index(indices: Seq<usize>, value: int) -> bool {
    exists|j: int| 0 <= j < indices.len() && indices[j] as int == value
}

/// Cycle `c` is complete when every one of its positions is a source index.
pub open spec fn cycle_is_complete(indices: Seq<usize>, c: int) -> bool {
    forall|p: int| 0 <= p < CYCLE_SIZE ==> #[trigger] has_index(indices, c * CYCLE_SIZE + p)
}

/// The cycles that the source indices cover completely.
pub open spec fn complete_cycles(indices: Seq<usize>) -> Set<usize> {
    Set::new(|c: usize| cycle_is_complete(indices, c as int))
}

/// Cycles that contain at least one of the first `k` source indices.
pub open spec fn touched_cycles(indices: Seq<usize>, k: int) -> Set<usize> {
    Set::new(|c: usize| exists|j: int| 0 <= j < k && #[trigger] indices[j] / CYCLE_SIZE == c)
}

fn cycle_complete(members: &HashSet<usize>, c: usize, Ghost(indices): Ghost<Seq<usize>>) -> (b: bool)
    requires
        forall|v: usize| members@.contains(v) <==> has_index(indices, v as int),
    ensures
        b == cycle_is_complete(indices, c as int),
{
    let mut p: usize = 0;
    while p < CYCLE_SIZE
        invariant
            p <= CYCLE_SIZE,
            forall|v: usize| members@.contains(v) <==> has_index(indices, v as int),
            forall|q: int| 0 <= q < p ==> #[trigger] has_index(indices, c * CYCLE_SIZE + q),
        decreases CYCLE_SIZE - p,
    {
        let start = c.checked_mul(CYCLE_SIZE);
        let position = match start {
            Some(s) => s.checked_add(p),
            None => None,
        };
        match position {
            Some(v) => {
                if !members.contains(&v) {
                    proof {
                        assert(!has_index(indices, c * CYCLE_SIZE + p));
                    }
                    return false;
                }
            },
            None => {
                // Positions beyond the largest index cannot occur.
                proof {
                    assert(c * CYCLE_SIZE + p > usize::MAX);
                    assert(!has_index(indices, c * CYCLE_SIZE + p));
                }
                return false;
            },
        }
        p += 1;
    }
    true
}

proof fn lemma_cycle_of_position(c: int, p: int)
    requires
        c >= 0,
        0 <= p < CYCLE_SIZE,
    ensures
        (c * CYCLE_SIZE + p) / (CYCLE_SIZE as int) == c,
{
    assert((c * CYCLE_SIZE + p) / (CYCLE_SIZE as int) == c) by (nonlinear_arith)
        requires c >= 0, 0 <= p < CYCLE_SIZE;
}

/// The number of cycles that the source deal indices cover completely.
pub fn complete_source_deal_cycles(indices: &[usize]) -> (count: usize)
    ensures
        complete_cycles(indices@).finite(),
        count == complete_cycles(indices@).len(),
{
    let ghost idx = indices@;
    let mut members: HashSet<usize> = HashSet::new();
    let mut k: usize = 0;
    while k < indices.len()
        invariant
            k <= indices.len(),
            idx == indices@,
            forall|v: usize| members@.contains(v) <==> exists|j: int| 0 <= j < k && idx[j] == v,
        decreases indices.len() - k,
    {
        members.insert(indices[k]);
        k += 1;
    }
    assert forall|v: usize| members@.contains(v) <==> has_index(idx, v as int) by {
        if has_index(idx, v as int) {
            let j = choose|j: int| 0 <= j < idx.len() && idx[j] as int == v as int;
            assert(idx[j] == v);
        }
    }
    let mut checked: HashSet<usize> = HashSet::new();
    let mut count: usize = 0;
    let mut k: usize = 0;
    proof {
        assert(touched_cycles(idx, 0) =~= Set::empty());
        assert(Set::<usize>::empty().filter(|c: usize| cycle_is_complete(idx, c as int)) =~= Set::empty());
    }
    while k < indices.len()
        invariant
            k <= indices.len(),
            idx == indices@,
            forall|v: usize| members@.contains(v) <==> has_index(idx, v as int),
            checked@ == touched_cycles(idx, k as int),
            checked@.finite(),
            checked@.len() <= k,
            count == checked@.filter(|c: usize| cycle_is_complete(idx, c as int)).len(),
        decreases indices.len() - k,
    {
        let c = indices[k] / CYCLE_SIZE;
        let ghost before = checked@;
        let ghost pred = |c: usize| cycle_is_complete(idx, c as int);
        proof {
            before.lemma_len_filter(pred);
        }
        if !checked.contains(&c) {
            checked.insert(c);
            let complete = cycle_complete(&members, c, Ghost(idx));
            proof {
                if complete {
                    assert(before.insert(c).filter(pred) =~= before.filter(pred).insert(c));
                } else {
                    assert(before.insert(c).filter(pred) =~= before.filter(pred));
                }
            }
            if complete {
                count += 1;
            }
        }
        proof {
            assert(touched_cycles(idx, k as int + 1) =~= touched_cycles(idx, k as int).insert(c));
        }
        k += 1;
    }
    proof {
        let pred = |c: usize| cycle_is_complete(idx, c as int);
        assert forall|c: usize| complete_cycles(idx).contains(c) implies checked@.contains(c) by {
            assert(has_index(idx, c * CYCLE_SIZE + 0));
            let j = choose|j: int| 0 <= j < idx.len() && idx[j] as int == c * CYCLE_SIZE + 0;
            lemma_cycle_of_position(c as int, 0);
            assert(idx[j] / CYCLE_SIZE == c);
        }
        assert(checked@.filter(pred) =~= complete_cycles(idx));
        checked@.lemma_len_filter(pred);
    }
    count
}

/// Whether the source indices are exactly a union of complete cycles.
pub fn balanced_source_deal_indices(indices: &[usize]) -> (b: bool)
    ensures
        b == (complete_cycles(indices@).len() * CYCLE_SIZE == indices@.len()),
{
    let cycles = complete_source_deal_cycles(indices);
    let ghost n = complete_cycles(indices@).len();
    assert(n == cycles as nat);
    match cycles.checked_mul(CYCLE_SIZE) {
        Some(total) => {
            assert(total == n * CYCLE_SIZE);
            total == indices.len()
        },
        None => {
            let len = indices.len();
            assert(n * CYCLE_SIZE > len);
            false
        },
    }
}

/// Whether no source index occurs twice.
pub fn indices_are_distinct(indices: &[usize]) -> (b: bool)
    ensures
        b == (forall|i: int, j: int| 0 <= i < j < indices@.len() ==> indices@[i] != indices@[j]),
{
    let mut seen: HashSet<usize> = HashSet::new();
    let mut k: usize = 0;
    while k < indices.len()
        invariant
            k <= indices.len(),
            forall|v: usize| seen@.contains(v) <==> exists|j: int| 0 <= j < k && indices@[j] == v,
            forall|i: int, j: int| 0 <= i < j < k ==> indices@[i] != indices@[j],
        decreases indices.len() - k,
    {
        let v = indices[k];
        if seen.contains(&v) {
            return false;
        }
        seen.insert(v);
        k += 1;
    }
    true
}

/// Source provenance of a derived cache: either absent altogether, or a
/// source digest together with one distinct source index per cached deal.
pub fn source_provenance_is_valid(
    source_cache_sha256: Option<&str>,
    source_deal_indices: Option<&[usize]>,
    deal_count: usize,
) -> (b: bool)
    ensures
        b == match (source_cache_sha256, source_deal_indices) {
            (None, None) => true,
            (Some(digest), Some(indices)) => {
                &&& is_hex_digest_bytes(digest.spec_bytes())
                &&& indices@.len() == deal_count
                &&& forall|i: int, j: int| 0 <= i < j < indices@.len() ==> indices@[i] != indices@[j]
            },
            _ => false,
        },
{
    match (source_cache_sha256, source_deal_indices) {
        (None, None) => true,
        (Some(digest), Some(indices)) => {
            is_hex_digest(digest) && indices.len() == deal_count && indices_are_distinct(indices)
        },
        _ => false,
    }
}

/// The number of complete exact-combo cycles a cache must report: counted
/// from its source indices when it has them, else from its deal count.
pub fn expected_complete_cycles(source_deal_indices: Option<&[usize]>, deal_count: usize) -> (n: usize)
    ensures
        n == match source_deal_indices {
            Some(indices) => complete_cycles(indices@).len(),
            None => deal_count as nat / (CYCLE_SIZE as nat),
        },
{
    match source_deal_indices {
        Some(indices) => complete_source_deal_cycles(indices),
        None => deal_count / CYCLE_SIZE,
    }
}

/// Whether a cache must report balanced exact-combo marginals.
pub fn expected_balanced_marginals(source_deal_indices: Option<&[usize]>, deal_count: usize) -> (b: bool)
    ensures
        b == match source_deal_indices {
            Some(indices) => complete_cycles(indices@).len() * CYCLE_SIZE == indices@.len(),
            None => deal_count % CYCLE_SIZE == 0,
        },
{
    match source_deal_indices {
        Some(indices) => balanced_source_deal_indices(indices),
        None => deal_count % CYCLE_SIZE == 0,
    }
}

/// Whether two entries of `indices` are equal.
pub open spec fn has_repeated_index(indices: Seq<usize>) -> bool {
    exists|i: int, j: int| 0 <= i < j < indices.len() && indices[i] == indices[j]
}

/// Some entry of `order` comes from position `p`.
pub open spec fn position_placed(order: Seq<(usize, usize)>, p: int) -> bool {
    exists|k: int| 0 <= k < order.len() && order[k].1 == p
}

/// The merged order of two provenance-checked chunks: their source deal
/// indices, ascending, each with its position in the first chunk followed
/// by the second.
pub open spec fn is_source_order(combined: Seq<usize>, order: Seq<(usize, usize)>) -> bool {
    &&& order.len() == combined.len()
    &&& forall|k: int| 0 <= k < order.len() ==> {
        &&& (#[trigger] order[k]).1 < combined.len()
        &&& combined[order[k].1 as int] == order[k].0
    }
    &&& forall|a: int, b: int| 0 <= a < b < order.len() ==> (#[trigger] order[a]).0 < (#[trigger] order[b]).0
    &&& forall|p: int| 0 <= p < combined.len() ==> #[trigger] position_placed(order, p)
}

/// Merge the source deal indices of two continuation chunks into source
/// order: the positions of the concatenated deals sorted by their source
/// index; refused when the chunks share a source index.
pub fn merge_source_deal_indices(first: &[usize], second: &[usize]) -> (r: Result<Vec<(usize, usize)>, String>)
    requires
        first@.len() + second@.len() <= usize::MAX,
    ensures
        r is Err <==> has_repeated_index(first@ + second@),
        r matches Err(e) ==> e@ == "continuation cache chunks overlap source deal indices"@,
        r matches Ok(order) ==> is_source_order(first@ + second@, order@),
{
    let ghost combined = first@ + second@;
    let n = first.len() + second.len();
    let mut order: Vec<(usize, usize)> = Vec::new();
    let mut p: usize = 0;
    while p < n
        invariant
            p <= n,
            n == combined.len(),
            combined == first@ + second@,
            order@.len() == p,
            forall|k: int| 0 <= k < order@.len() ==> (#[trigger] order@[k]).1 < p && combined[order@[k].1 as int] == order@[k].0,
            forall|a: int, b: int| 0 <= a < b < order@.len() ==> (#[trigger] order@[a]).0 < (#[trigger] order@[b]).0,
            forall|q: int| 0 <= q < p ==> #[trigger] position_placed(order@, q),
            !has_repeated_index(combined.take(p as int)),
        decreases n - p,
    {
        let key = if p < first.len() { first[p] } else { second[p - first.len()] };
        assert(key == combined[p as int]);
        // Find where the key belongs, refusing an equal key.
        let mut at: usize = 0;
        while at < order.len() && order[at].0 < key
            invariant
                at <= order@.len(),
                forall|k: int| 0 <= k < at ==> (#[trigger] order@[k]).0 < key,
            decreases order.len() - at,
        {
            at += 1;
        }
        if at < order.len() && order[at].0 == key {
            proof {
                let q = order@[at as int].1 as int;
                assert(combined[q] == combined[p as int]);
                assert(combined.take(p as int + 1)[q] == combined.take(p as int + 1)[p as int]);
                lemma_repeat_extends(combined, q, p as int);
            }
            return Err(String::from_str("continuation cache chunks overlap source deal indices"));
        }
        let ghost before = order@;
        order.insert(at, (key, p));
        proof {
            assert forall|k: int| 0 <= k < order@.len() implies (#[trigger] order@[k]).1 < p + 1 && combined[order@[k].1 as int] == order@[k].0 by {
                if k < at {
                    assert(order@[k] == before[k]);
                } else if k > at {
                    assert(order@[k] == before[k - 1]);
                }
            }
            assert forall|a: int, b: int| 0 <= a < b < order@.len() implies (#[trigger] order@[a]).0 < (#[trigger] order@[b]).0 by {
                if a < at && b == at {
                } else if a == at && b > at {
                    assert(order@[b] == before[b - 1]);
                    if b - 1 > at {
                        assert(before[at as int].0 < before[b - 1].0);
                    }
                    assert(!(before[at as int].0 < key) || at as int == before.len());
                } else if a < at && b > at {
                    assert(order@[a] == before[a]);
                    assert(order@[b] == before[b - 1]);
                } else if b < at {
                    assert(order@[a] == before[a]);
                    assert(order@[b] == before[b]);
                } else {
                    assert(order@[a] == before[a - 1]);
                    assert(order@[b] == before[b - 1]);
                }
            }
            assert forall|q: int| 0 <= q < p + 1 implies #[trigger] position_placed(order@, q) by {
                if q == p {
                    assert(order@[at as int].1 == q);
                } else {
                    assert(position_placed(before, q));
                    let k = choose|k: int| 0 <= k < before.len() && (#[trigger] before[k]).1 == q;
                    if k < at {
                        assert(order@[k].1 == q);
                    } else {
                        assert(order@[k + 1].1 == q);
                    }
                }
            }
            assert(!has_repeated_index(combined.take(p as int + 1))) by {
                if has_repeated_index(combined.take(p as int + 1)) {
                    let (i, j) = choose|i: int, j: int| 0 <= i < j < p + 1 && #[trigger] combined.take(p as int + 1)[i] == #[trigger] combined.take(p as int + 1)[j];
                    if j < p {
                        assert(combined.take(p as int)[i] == combined.take(p as int)[j]);
                    } else {
                        // The key equals an earlier index, which is somewhere in the order.
                        assert(position_placed(before, i));
                        let k = choose|k: int| 0 <= k < before.len() && (#[trigger] before[k]).1 == i;
                        assert(before[k].0 == key);
                        if k < at {
                            assert(before[k].0 < key);
                        } else if k > at {
                            assert(before[at as int].0 < before[k].0);
                        }
                    }
                }
            }
        }
        p += 1;
    }
    proof {
        assert(combined.take(n as int) =~= combined);
    }
    Ok(order)
}

proof fn lemma_repeat_extends(s: Seq<usize>, q: int, p: int)
    requires
        0 <= q < p < s.len(),
        s[q] == s[p],
    ensures
        has_repeated_index(s),
{
}

/// The source indices of a merged order.
pub open spec fn order_indices(order: Seq<(usize, usize)>) -> Seq<usize> {
    order.map_values(|e: (usize, usize)| e.0)
}

proof fn lemma_order_holds_exactly(combined: Seq<usize>, order: Seq<(usize, usize)>, x: usize)
    requires
        is_source_order(combined, order),
    ensures
        order_indices(order).contains(x) <==> combined.contains(x),
{
    if order_indices(order).contains(x) {
        let k = choose|k: int| 0 <= k < order_indices(order).len() && order_indices(order)[k] == x;
        assert(order[k].0 == x);
        assert(combined[order[k].1 as int] == x);
    }
    if combined.contains(x) {
        let p = choose|p: int| 0 <= p < combined.len() && combined[p] == x;
        assert(position_placed(order, p));
        let k = choose|k: int| 0 <= k < order.len() && order[k].1 == p;
        assert(order_indices(order)[k] == x);
    }
}

proof fn lemma_sorted_unique(a: Seq<usize>, b: Seq<usize>)
    requires
        forall|i: int, j: int| 0 <= i < j < a.len() ==> a[i] < a[j],
        forall|i: int, j: int| 0 <= i < j < b.len() ==> b[i] < b[j],
        forall|x: usize| a.contains(x) <==> b.contains(x),
    ensures
        a == b,
    decreases a.len() + b.len(),
{
    if a.len() == 0 {
        if b.len() > 0 {
            assert(b.contains(b[0]));
        }
        assert(a =~= b);
    } else if b.len() == 0 {
        assert(a.contains(a[0]));
    } else {
        // Both start with the least element of their common contents.
        assert(a.contains(a[0]) && b.contains(b[0]));
        let i = choose|i: int| 0 <= i < b.len() && b[i] == a[0];
        let j = choose|j: int| 0 <= j < a.len() && a[j] == b[0];
        if i > 0 {
            assert(b[0] < b[i]);
            if j > 0 {
                assert(a[0] < a[j]);
            }
        }
        assert(a[0] == b[0]);
        let a1 = a.drop_first();
        let b1 = b.drop_first();
        assert forall|x: usize| a1.contains(x) <==> b1.contains(x) by {
            if a1.contains(x) {
                let k = choose|k: int| 0 <= k < a1.len() && a1[k] == x;
                assert(a[k + 1] == x && a[0] < a[k + 1]);
                assert(b.contains(x));
                let m = choose|m: int| 0 <= m < b.len() && b[m] == x;
                assert(m != 0);
                assert(b1[m - 1] == x);
            }
            if b1.contains(x) {
                let k = choose|k: int| 0 <= k < b1.len() && b1[k] == x;
                assert(b[k + 1] == x && b[0] < b[k + 1]);
                assert(a.contains(x));
                let m = choose|m: int| 0 <= m < a.len() && a[m] == x;
                assert(m != 0);
                assert(a1[m - 1] == x);
            }
        }
        lemma_sorted_unique(a1, b1);
        assert(a =~= seq![a[0]] + a1);
        assert(b =~= seq![b[0]] + b1);
    }
}

/// The seed of two merged continuation caches: the first cache's seed when
/// their deals were merged by source index, else the first seed mixed with
/// the second rotated left by one bit.
pub open spec fn merged_seed(provenance_merged: bool, first_seed: u64, second_seed: u64) -> u64 {
    if provenance_merged {
        first_seed
    } else {
        first_seed ^ ((second_seed << 1u64) | (second_seed >> 63u64))
    }
}

/// The seed and chance-sampling label of two merged continuation caches.
pub fn merged_cache_origin(provenance_merged: bool, first_seed: u64, second_seed: u64) -> (origin: (u64, String))
    ensures
        origin.0 == merged_seed(provenance_merged, first_seed, second_seed),
        origin.1@ == (if provenance_merged {
            "concatenated_provenance_checked_continuation_chunks"@
        } else {
            "concatenated_independent_balanced_exact_combo_cycles"@
        }),
{
    if provenance_merged {
        (first_seed, String::from_str("concatenated_provenance_checked_continuation_chunks"))
    } else {
        (
            first_seed ^ ((second_seed << 1u64) | (second_seed >> 63u64)),
            String::from_str("concatenated_independent_balanced_exact_combo_cycles"),
        )
    }
}

/// Merging two provenance chunks gives the same source indices in either
/// order: the merged indices are those of both chunks, ascending.
pub proof fn law_merged_indices_ignore_chunk_order(
    first: Seq<usize>,
    second: Seq<usize>,
    one: Seq<(usize, usize)>,
    other: Seq<(usize, usize)>,
)
    requires
        is_source_order(first + second, one),
        is_source_order(second + first, other),
    ensures
        order_indices(one) == order_indices(other),
{
    assert forall|x: usize| order_indices(one).contains(x) <==> order_indices(other).contains(x) by {
        lemma_order_holds_exactly(first + second, one, x);
        lemma_order_holds_exactly(second + first, other, x);
        if (first + second).contains(x) {
            let p = choose|p: int| 0 <= p < (first + second).len() && (first + second)[p] == x;
            if p < first.len() {
                assert((second + first)[second.len() + p] == x);
            } else {
                assert((second + first)[p - first.len()] == x);
            }
        }
        if (second + first).contains(x) {
            let p = choose|p: int| 0 <= p < (second + first).len() && (second + first)[p] == x;
            if p < second.len() {
                assert((first + second)[first.len() + p] == x);
            } else {
                assert((first + second)[p - second.len()] == x);
            }
        }
    }
    lemma_sorted_unique(order_indices(one), order_indices(other));
}

} // verus!
