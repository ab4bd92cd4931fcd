//! Largest-remainder rounding of a probability vector to sixteen-bit units:
//! every entry keeps its rounded-down units, and the units still missing
//! from the full scale go one each to the entries that come first in a given
//! order (largest remainder first).
use vstd::prelude::*;

verus! {

/// The full scale of quantized probabilities.
pub const QUANTIZED_SCALE: u64 = 65535;

/// The sum of the entries.
pub open spec fn total(s: Seq<u16>) -> int
    decreases s.len(),
{
    if s.len() == 0 {
        0
    } else {
        total(s.drop_last()) + s.last()
    }
}

/// `order` lists every index below `n` once.
pub open spec fn is_order(order: Seq<usize>, n: int) -> bool {
    &&& order.len() == n
    &&& forall|j: int| 0 <= j < order.len() ==> #[trigger] order[j] < n
    &&& forall|j: int, k: int| 0 <= j < k < order.len() ==> order[j] != order[k]
}

/// Whether index `i` is among the first `m` entries of `order`.
pub open spec fn among_first(order: Seq<usize>, m: int, i: int) -> bool {
    exists|j: int| 0 <= j < m && j < order.len() && order[j] == i
}

/// How many units the full scale still lacks after the rounded-down units.
pub open spec fn missing_units(floors: Seq<u16>) -> int {
    QUANTIZED_SCALE - total(floors)
}

proof fn lemma_total_update(s: Seq<u16>, i: int, v: u16)
    requires
        0 <= i < s.len(),
    ensures
        total(s.update(i, v)) == total(s) - s[i] + v,
    decreases s.len(),
{
    if i == s.len() - 1 {
        assert(s.update(i, v).drop_last() =~= s.drop_last());
    } else {
        assert(s.update(i, v).drop_last() =~= s.drop_last().update(i, v));
        lemma_total_update(s.drop_last(), i, v);
    }
}

proof fn lemma_entry_within_total(s: Seq<u16>, i: int)
    requires
        0 <= i < s.len(),
    ensures
        s[i] <= total(s),
        total(s) >= 0,
    decreases s.len(),
{
    lemma_total_nonnegative(s.drop_last());
    if i < s.len() - 1 {
        lemma_entry_within_total(s.drop_last(), i);
    }
}

proof fn lemma_total_nonnegative(s: Seq<u16>)
    ensures
        total(s) >= 0,
    decreases s.len(),
{
    if s.len() > 0 {
        lemma_total_nonnegative(s.drop_last());
    }
}

/// Add one unit to each of the first `missing_units(floors)` entries of
/// `order` (all of them if it is shorter).
pub fn distribute_missing_units(floors: &Vec<u16>, order: &Vec<usize>) -> (quantized: Vec<u16>)
    requires
        total(floors@) <= QUANTIZED_SCALE,
        is_order(order@, floors@.len() as int),
    ensures
        quantized@.len() == floors@.len(),
        forall|i: int|
            0 <= i < floors@.len() ==> #[trigger] quantized@[i] == floors@[i] + if among_first(
                order@,
                missing_units(floors@),
                i,
            ) {
                1int
            } else {
                0int
            },
        total(quantized@) == total(floors@) + if missing_units(floors@) < floors@.len() {
            missing_units(floors@)
        } else {
            floors@.len() as int
        },
        missing_units(floors@) <= floors@.len() ==> total(quantized@) == QUANTIZED_SCALE,
{
    let mut assigned: u64 = 0;
    let mut i: usize = 0;
    while i < floors.len()
        invariant
            i <= floors@.len(),
            assigned == total(floors@.take(i as int)),
            total(floors@) <= QUANTIZED_SCALE,
            assigned <= QUANTIZED_SCALE,
        decreases floors.len() - i,
    {
        proof {
            assert(floors@.take(i as int + 1).drop_last() =~= floors@.take(i as int));
            assert(floors@ =~= floors@.take(i as int + 1) + floors@.skip(i as int + 1));
            lemma_total_prefix(floors@, i as int + 1);
        }
        assigned = assigned + floors[i] as u64;
        i += 1;
    }
    proof {
        assert(floors@.take(i as int) =~= floors@);
    }
    let remaining = QUANTIZED_SCALE - assigned;
    let mut out = floors.clone();
    let mut k: usize = 0;
    while (k as u64) < remaining && k < order.len()
        invariant
            k <= order@.len(),
            k <= remaining,
            remaining == missing_units(floors@),
            total(floors@) <= QUANTIZED_SCALE,
            is_order(order@, floors@.len() as int),
            out@.len() == floors@.len(),
            total(out@) == total(floors@) + k,
            forall|x: int|
                0 <= x < floors@.len() ==> #[trigger] out@[x] == floors@[x] + if among_first(order@, k as int, x) {
                    1int
                } else {
                    0int
                },
        decreases order.len() - k,
    {
        let index = order[k];
        proof {
            assert(!among_first(order@, k as int, index as int));
            lemma_entry_within_total(out@, index as int);
        }
        let v = out[index] + 1;
        proof {
            lemma_total_update(out@, index as int, v);
        }
        out.set(index, v);
        proof {
            assert forall|x: int| 0 <= x < floors@.len() implies #[trigger] out@[x] == floors@[x] + if among_first(
                order@,
                k as int + 1,
                x,
            ) {
                1int
            } else {
                0int
            } by {
                if x == index {
                    assert(order@[k as int] == x);
                } else if among_first(order@, k as int + 1, x) {
                    let j = choose|j: int| 0 <= j < k as int + 1 && j < order@.len() && order@[j] == x;
                    assert(j < k);
                }
            }
        }
        k += 1;
    }
    proof {
        assert forall|x: int| 0 <= x < floors@.len() implies among_first(order@, k as int, x) == among_first(
            order@,
            missing_units(floors@),
            x,
        ) by {
            if among_first(order@, missing_units(floors@), x) {
                let j = choose|j: int| 0 <= j < missing_units(floors@) && j < order@.len() && order@[j] == x;
                assert(j < k);
            }
        }
    }
    out
}

proof fn lemma_total_prefix(s: Seq<u16>, n: int)
    requires
        0 <= n <= s.len(),
    ensures
        total(s.take(n)) <= total(s),
    decreases s.len() - n,
{
    if n < s.len() {
        lemma_total_prefix(s, n + 1);
        assert(s.take(n + 1).drop_last() =~= s.take(n));
    } else {
        assert(s.take(n) =~= s);
    }
}

} // verus!
