//! Bounded, deterministic reservoirs of causal policy-attribution records:
//! per postflop street, the records with the smallest hash keys are kept.
use vstd::prelude::*;
use crate::digest::{sha256, sha256_digest, le_bytes, from_le, push_le, u64_from_le_at};
use crate::game::{Street, street_number};

verus! {

/// The ordering key of a record: two digest words, then the deal, the
/// responder and the candidate that produced it.
pub type ReservoirKey = (u64, u64, u64, u8, u64);

/// A retained record as the contracts see it.
pub type ReservoirEntry = (ReservoirKey, Seq<u8>);

/// Lexicographic order of reservoir keys.
pub open spec fn key_lt(a: ReservoirKey, b: ReservoirKey) -> bool {
    ||| a.0 < b.0
    ||| a.0 == b.0 && a.1 < b.1
    ||| a.0 == b.0 && a.1 == b.1 && a.2 < b.2
    ||| a.0 == b.0 && a.1 == b.1 && a.2 == b.2 && a.3 < b.3
    ||| a.0 == b.0 && a.1 == b.1 && a.2 == b.2 && a.3 == b.3 && a.4 < b.4
}

fn key_less(a: &ReservoirKey, b: &ReservoirKey) -> (r: bool)
    ensures
        r == key_lt(*a, *b),
{
    a.0 < b.0 || (a.0 == b.0 && (a.1 < b.1 || (a.1 == b.1 && (a.2 < b.2 || (a.2 == b.2 && (a.3 < b.3 || (a.3
        == b.3 && a.4 < b.4)))))))
}

fn key_equal(a: &ReservoirKey, b: &ReservoirKey) -> (r: bool)
    ensures
        r == (*a == *b),
{
    a.0 == b.0 && a.1 == b.1 && a.2 == b.2 && a.3 == b.3 && a.4 == b.4
}

/// The retained entries of an executable reservoir.
pub open spec fn entries_view(v: Seq<(ReservoirKey, Vec<u8>)>) -> Seq<ReservoirEntry> {
    v.map_values(|e: (ReservoirKey, Vec<u8>)| (e.0, e.1@))
}

/// Whether some retained entry has key `k`.
pub open spec fn holds(s: Seq<ReservoirEntry>, k: ReservoirKey) -> bool {
    exists|j: int| 0 <= j < s.len() && s[j].0 == k
}

/// Keys strictly ascending.
pub open spec fn keys_sorted(s: Seq<ReservoirEntry>) -> bool {
    forall|i: int, j: int| 0 <= i < j < s.len() ==> key_lt(#[trigger] s[i].0, #[trigger] s[j].0)
}

/// How many of the first `n` entries have a key below `key`.
pub open spec fn count_below(s: Seq<ReservoirEntry>, key: ReservoirKey, n: int) -> int
    decreases n,
{
    if n <= 0 {
        0
    } else {
        count_below(s, key, n - 1) + if key_lt(s[n - 1].0, key) { 1int } else { 0int }
    }
}

/// A sorted map from keys to records, updated at `key` (as a `BTreeMap`
/// insert does): the record replaces the one stored under an equal key, or
/// is inserted in key order.
pub open spec fn sorted_insert(s: Seq<ReservoirEntry>, key: ReservoirKey, record: Seq<u8>) -> Seq<ReservoirEntry> {
    let i = count_below(s, key, s.len() as int);
    if i < s.len() && s[i].0 == key {
        s.update(i, (key, record))
    } else {
        s.insert(i, (key, record))
    }
}

/// One step of a reservoir with room for `capacity` records: while there is
/// room every record is taken; once full, a record whose key is below the
/// largest retained key evicts that largest record.
pub open spec fn reservoir_step(s: Seq<ReservoirEntry>, capacity: int, key: ReservoirKey, record: Seq<u8>) -> Seq<ReservoirEntry> {
    if capacity == 0 {
        s
    } else if s.len() < capacity {
        sorted_insert(s, key, record)
    } else if key_lt(key, s.last().0) {
        sorted_insert(s.drop_last(), key, record)
    } else {
        s
    }
}

proof fn lemma_count_below_split(s: Seq<ReservoirEntry>, key: ReservoirKey, i: int, n: int)
    requires
        0 <= i <= n <= s.len(),
        forall|j: int| 0 <= j < i ==> key_lt(#[trigger] s[j].0, key),
        forall|j: int| i <= j < s.len() ==> !key_lt(#[trigger] s[j].0, key),
    ensures
        count_below(s, key, n) == i,
    decreases n,
{
    if n > i {
        lemma_count_below_split(s, key, i, n - 1);
    } else if n > 0 {
        lemma_count_below_prefix(s, key, n);
    }
}

proof fn lemma_count_below_prefix(s: Seq<ReservoirEntry>, key: ReservoirKey, n: int)
    requires
        0 <= n <= s.len(),
        forall|j: int| 0 <= j < n ==> key_lt(#[trigger] s[j].0, key),
    ensures
        count_below(s, key, n) == n,
    decreases n,
{
    if n > 0 {
        lemma_count_below_prefix(s, key, n - 1);
    }
}

/// Store `record` under `key` in a reservoir kept in ascending key order.
fn reservoir_insert(entries: &mut Vec<(ReservoirKey, Vec<u8>)>, key: ReservoirKey, record: Vec<u8>)
    requires
        keys_sorted(entries_view(old(entries)@)),
    ensures
        entries_view(final(entries)@) == sorted_insert(entries_view(old(entries)@), key, record@),
        keys_sorted(entries_view(final(entries)@)),
{
    let ghost s = entries_view(entries@);
    let mut i: usize = 0;
    while i < entries.len() && key_less(&entries[i].0, &key)
        invariant
            i <= entries@.len(),
            s == entries_view(entries@),
            keys_sorted(s),
            forall|j: int| 0 <= j < i ==> key_lt(#[trigger] s[j].0, key),
        decreases entries.len() - i,
    {
        i += 1;
    }
    proof {
        if i < s.len() {
            assert(!key_lt(s[i as int].0, key));
            assert forall|j: int| i <= j < s.len() implies !key_lt(#[trigger] s[j].0, key) by {
                if j > i {
                    assert(key_lt(s[i as int].0, s[j].0));
                }
            }
        }
        lemma_count_below_split(s, key, i as int, s.len() as int);
    }
    if i < entries.len() && key_equal(&entries[i].0, &key) {
        entries.set(i, (key, record));
        proof {
            assert(entries_view(entries@) =~= s.update(i as int, (key, record@)));
        }
    } else {
        entries.insert(i, (key, record));
        proof {
            let t = entries_view(entries@);
            assert(t =~= s.insert(i as int, (key, record@)));
            assert forall|a: int, b: int| 0 <= a < b < t.len() implies key_lt(#[trigger] t[a].0, #[trigger] t[b].0) by {
                if b == i {
                } else if a == i {
                    assert(!key_lt(s[b - 1].0, key));
                    assert(s[b - 1].0 != key || b - 1 != i);
                    if b - 1 > i {
                        assert(key_lt(s[i as int].0, s[b - 1].0));
                    }
                } else if a < i && b > i {
                    assert(key_lt(s[a].0, key));
                    assert(!key_lt(s[b - 1].0, key));
                } else if a > i {
                    assert(key_lt(s[a - 1].0, s[b - 1].0));
                }
            }
        }
    }
}

/// The smallest-keys property of a reservoir of `capacity` records that has
/// been offered every key of `offered`: it holds only offered keys, as many
/// as there is room for, and every offered key it does not hold is larger
/// than every key it holds.
pub open spec fn keeps_smallest(s: Seq<ReservoirEntry>, capacity: int, offered: Set<ReservoirKey>) -> bool {
    &&& offered.finite()
    &&& s.len() == if offered.len() < capacity { offered.len() as int } else { capacity }
    &&& forall|i: int| 0 <= i < s.len() ==> offered.contains(#[trigger] s[i].0)
    &&& forall|k: ReservoirKey, i: int|
        #![trigger offered.contains(k), s[i]]
        offered.contains(k) && 0 <= i < s.len() && !holds(s, k)
            ==> key_lt(s[i].0, k)
}

proof fn lemma_sorted_insert_contents(s: Seq<ReservoirEntry>, key: ReservoirKey, record: Seq<u8>)
    requires
        keys_sorted(s),
    ensures
        ({
            let t = sorted_insert(s, key, record);
            &&& forall|k: ReservoirKey| #[trigger] holds(t, k) <==> (k == key || holds(s, k))
            &&& t.len() == if holds(s, key) { s.len() as int } else { s.len() as int + 1 }
        }),
{
    let n = s.len() as int;
    let i = count_below(s, key, n);
    let t = sorted_insert(s, key, record);
    lemma_count_below_range(s, key, n);
    lemma_count_below_sorted(s, key);
    if i < n && s[i].0 == key {
        assert forall|k: ReservoirKey| #[trigger] holds(t, k) <==> (k == key || holds(s, k)) by {
            if exists|j: int| 0 <= j < s.len() && s[j].0 == k {
                let j = choose|j: int| 0 <= j < s.len() && s[j].0 == k;
                assert(t[j].0 == k);
            }
            if k == key {
                assert(t[i].0 == k);
            }
            if exists|j: int| 0 <= j < t.len() && t[j].0 == k {
                let j = choose|j: int| 0 <= j < t.len() && t[j].0 == k;
                assert(s[j].0 == k);
            }
        }
    } else {
        assert(!holds(s, key)) by {
            if exists|j: int| 0 <= j < s.len() && s[j].0 == key {
                let j = choose|j: int| 0 <= j < s.len() && s[j].0 == key;
                if j < i {
                    assert(key_lt(s[j].0, key));
                } else if j > i {
                    assert(key_lt(s[i].0, s[j].0));
                    assert(!key_lt(s[i].0, key));
                }
            }
        }
        assert forall|k: ReservoirKey| #[trigger] holds(t, k) <==> (k == key || holds(s, k)) by {
            if exists|j: int| 0 <= j < s.len() && s[j].0 == k {
                let j = choose|j: int| 0 <= j < s.len() && s[j].0 == k;
                if j < i {
                    assert(t[j].0 == k);
                } else {
                    assert(t[j + 1].0 == k);
                }
            }
            if k == key {
                assert(t[i].0 == k);
            }
            if exists|j: int| 0 <= j < t.len() && t[j].0 == k {
                let j = choose|j: int| 0 <= j < t.len() && t[j].0 == k;
                if j < i {
                    assert(s[j].0 == k);
                } else if j > i {
                    assert(s[j - 1].0 == k);
                }
            }
        }
    }
}

proof fn lemma_count_below_range(s: Seq<ReservoirEntry>, key: ReservoirKey, n: int)
    requires
        0 <= n <= s.len(),
    ensures
        0 <= count_below(s, key, n) <= n,
    decreases n,
{
    if n > 0 {
        lemma_count_below_range(s, key, n - 1);
    }
}

/// In a sorted reservoir the entries below `key` come first.
proof fn lemma_count_below_sorted(s: Seq<ReservoirEntry>, key: ReservoirKey)
    requires
        keys_sorted(s),
    ensures
        forall|j: int| 0 <= j < count_below(s, key, s.len() as int) ==> key_lt(#[trigger] s[j].0, key),
        forall|j: int| count_below(s, key, s.len() as int) <= j < s.len() ==> !key_lt(#[trigger] s[j].0, key),
{
    lemma_count_below_sorted_prefix(s, key, s.len() as int);
}

proof fn lemma_count_below_sorted_prefix(s: Seq<ReservoirEntry>, key: ReservoirKey, n: int)
    requires
        keys_sorted(s),
        0 <= n <= s.len(),
    ensures
        forall|j: int| 0 <= j < count_below(s, key, n) ==> key_lt(#[trigger] s[j].0, key),
        forall|j: int| count_below(s, key, n) <= j < n ==> !key_lt(#[trigger] s[j].0, key),
    decreases n,
{
    if n > 0 {
        lemma_count_below_sorted_prefix(s, key, n - 1);
        lemma_count_below_range(s, key, n - 1);
        let c = count_below(s, key, n - 1);
        if key_lt(s[n - 1].0, key) {
            assert forall|j: int| 0 <= j < n - 1 implies key_lt(#[trigger] s[j].0, key) by {
                assert(key_lt(s[j].0, s[n - 1].0));
            }
            if c < n - 1 {
                assert(!key_lt(s[c].0, key));
                assert(key_lt(s[c].0, key));
            }
        }
    }
}

/// A reservoir keeps the smallest keys it was offered: offering a key that
/// it has not been offered before preserves the smallest-keys property.
pub proof fn law_reservoir_keeps_smallest(
    s: Seq<ReservoirEntry>,
    capacity: int,
    offered: Set<ReservoirKey>,
    key: ReservoirKey,
    record: Seq<u8>,
)
    requires
        capacity >= 0,
        keys_sorted(s),
        keeps_smallest(s, capacity, offered),
        !offered.contains(key),
    ensures
        keeps_smallest(reservoir_step(s, capacity, key, record), capacity, offered.insert(key)),
{
    let t = reservoir_step(s, capacity, key, record);
    let o2 = offered.insert(key);
    assert(!holds(s, key)) by {
        if holds(s, key) {
            lemma_holds_in_offered(s, offered, key);
        }
    }
    if capacity == 0 {
        assert(s.len() == 0);
    } else if s.len() < capacity {
        lemma_sorted_insert_contents(s, key, record);
        assert forall|i: int| 0 <= i < t.len() implies o2.contains(#[trigger] t[i].0) by {
            lemma_holds_at(t, i);
            if t[i].0 != key {
                lemma_holds_in_offered(s, offered, t[i].0);
            }
        }
        // Not full: every offered key is held, so nothing offered is missing.
        assert forall|k: ReservoirKey, i: int|
            #![trigger o2.contains(k), t[i]]
            o2.contains(k) && 0 <= i < t.len() && !holds(t, k) implies key_lt(t[i].0, k) by {
            if k != key {
                lemma_held_keys_are_all_offered(s, offered, k);
            }
        }
    } else {
        let last = s.last().0;
        assert(s.len() == capacity);
        if key_lt(key, last) {
            let r = s.drop_last();
            assert(keys_sorted(r));
            lemma_sorted_insert_contents(r, key, record);
            assert(!holds(r, key)) by {
                if holds(r, key) {
                    lemma_drop_last_holds(s, key);
                }
            }
            assert forall|i: int| 0 <= i < t.len() implies o2.contains(#[trigger] t[i].0) by {
                lemma_holds_at(t, i);
                if t[i].0 != key {
                    lemma_drop_last_holds(s, t[i].0);
                    lemma_holds_in_offered(s, offered, t[i].0);
                }
            }
            assert forall|k: ReservoirKey, i: int|
                #![trigger o2.contains(k), t[i]]
                o2.contains(k) && 0 <= i < t.len() && !holds(t, k) implies key_lt(t[i].0, k) by {
                lemma_holds_at(t, i);
                // Everything held lies at or below the evicted largest key,
                // and every key evicted earlier lies above it.
                let x = t[i].0;
                if x != key {
                    assert(holds(r, x));
                    let j = choose|j: int| 0 <= j < r.len() && r[j].0 == x;
                    assert(s[j].0 == x);
                    assert(key_lt(s[j].0, s[s.len() - 1].0));
                }
                if k != last {
                    assert(!holds(r, k));
                    assert(!holds(s, k)) by {
                        if holds(s, k) {
                            lemma_drop_last_holds(s, k);
                        }
                    }
                    assert(offered.contains(k));
                    assert(key_lt(s[s.len() - 1].0, k));
                }
            }
        } else {
            assert forall|k: ReservoirKey, i: int|
                #![trigger o2.contains(k), t[i]]
                o2.contains(k) && 0 <= i < t.len() && !holds(t, k) implies key_lt(t[i].0, k) by {
                if k == key {
                    if i < s.len() - 1 {
                        assert(key_lt(s[i].0, s[s.len() - 1].0));
                    }
                }
            }
        }
    }
}

proof fn lemma_holds_at(s: Seq<ReservoirEntry>, i: int)
    requires
        0 <= i < s.len(),
    ensures
        holds(s, s[i].0),
{
    assert(s[i].0 == s[i].0);
}

proof fn lemma_holds_in_offered(s: Seq<ReservoirEntry>, offered: Set<ReservoirKey>, k: ReservoirKey)
    requires
        forall|i: int| 0 <= i < s.len() ==> offered.contains(#[trigger] s[i].0),
        holds(s, k),
    ensures
        offered.contains(k),
{
    let j = choose|j: int| 0 <= j < s.len() && s[j].0 == k;
    assert(offered.contains(s[j].0));
}

proof fn lemma_drop_last_holds(s: Seq<ReservoirEntry>, k: ReservoirKey)
    requires
        s.len() > 0,
    ensures
        holds(s.drop_last(), k) ==> holds(s, k),
        holds(s, k) && k != s.last().0 ==> holds(s.drop_last(), k),
{
    if holds(s.drop_last(), k) {
        let j = choose|j: int| 0 <= j < s.drop_last().len() && s.drop_last()[j].0 == k;
        lemma_holds_at(s, j);
    }
    if holds(s, k) && k != s.last().0 {
        let j = choose|j: int| 0 <= j < s.len() && s[j].0 == k;
        lemma_holds_at(s.drop_last(), j);
    }
}

proof fn lemma_held_keys_are_all_offered(s: Seq<ReservoirEntry>, offered: Set<ReservoirKey>, k: ReservoirKey)
    requires
        keys_sorted(s),
        offered.finite(),
        s.len() == offered.len(),
        forall|i: int| 0 <= i < s.len() ==> offered.contains(#[trigger] s[i].0),
        offered.contains(k),
    ensures
        holds(s, k),
{
    // The held keys are distinct members of `offered`, as many as it has.
    let held = Set::new(|x: ReservoirKey| holds(s, x));
    lemma_held_set_len(s, s.len() as int);
    assert(held =~= Set::new(|x: ReservoirKey| exists|j: int| 0 <= j < s.len() && s[j].0 == x));
    assert forall|x: ReservoirKey| held.contains(x) implies offered.contains(x) by {
        lemma_holds_in_offered(s, offered, x);
    }
    if !held.contains(k) {
        assert(held.insert(k).subset_of(offered));
        vstd::set_lib::lemma_len_subset(held.insert(k), offered);
    }
}

proof fn lemma_held_set_len(s: Seq<ReservoirEntry>, n: int)
    requires
        keys_sorted(s),
        0 <= n <= s.len(),
    ensures
        Set::new(|x: ReservoirKey| exists|j: int| 0 <= j < n && s[j].0 == x).finite(),
        Set::new(|x: ReservoirKey| exists|j: int| 0 <= j < n && s[j].0 == x).len() == n,
    decreases n,
{
    let cur = Set::new(|x: ReservoirKey| exists|j: int| 0 <= j < n && s[j].0 == x);
    if n == 0 {
        assert(cur =~= Set::empty());
    } else {
        lemma_held_set_len(s, n - 1);
        let prev = Set::new(|x: ReservoirKey| exists|j: int| 0 <= j < n - 1 && s[j].0 == x);
        assert(cur =~= prev.insert(s[n - 1].0));
        assert(!prev.contains(s[n - 1].0)) by {
            if prev.contains(s[n - 1].0) {
                let j = choose|j: int| 0 <= j < n - 1 && #[trigger] s[j].0 == s[n - 1].0;
                assert(key_lt(s[j].0, s[n - 1].0));
            }
        }
    }
}

/// Domain separator of reservoir keys.
pub const RESERVOIR_DOMAIN: [u8; 41] = [
    104, 117, 45, 99, 97, 117, 115, 97, 108, 45, 112, 111, 108, 105, 99, 121, 45, 97, 116, 116, 114,
    105, 98, 117, 116, 105, 111, 110, 45, 114, 101, 115, 101, 114, 118, 111, 105, 114, 45, 118, 49,
];

/// The bytes hashed into the key of a record.
pub open spec fn reservoir_frame(
    seed: u64,
    deal_index: u64,
    responder: usize,
    street: int,
    candidate_index: u64,
    record: Seq<u8>,
) -> Seq<u8> {
    RESERVOIR_DOMAIN@ + le_bytes(seed as int, 8) + le_bytes(deal_index as int, 8) + seq![responder as u8, street as u8]
        + le_bytes(candidate_index as int, 8) + record
}

/// The key of a record: the first two little-endian words of the digest of
/// its frame, then the deal, the responder and the candidate.
pub open spec fn reservoir_key(
    seed: u64,
    deal_index: u64,
    responder: usize,
    street: int,
    candidate_index: u64,
    record: Seq<u8>,
) -> ReservoirKey {
    let d = sha256_digest(reservoir_frame(seed, deal_index, responder, street, candidate_index, record));
    (from_le(d.take(8)) as u64, from_le(d.subrange(8, 16)) as u64, deal_index, responder as u8, candidate_index)
}

/// Offer one record to a reservoir with room for `capacity` records.
fn offer(entries: &mut Vec<(ReservoirKey, Vec<u8>)>, capacity: usize, key: ReservoirKey, record: Vec<u8>)
    requires
        keys_sorted(entries_view(old(entries)@)),
        old(entries)@.len() <= capacity,
        capacity > 0,
    ensures
        entries_view(final(entries)@) == reservoir_step(entries_view(old(entries)@), capacity as int, key, record@),
        keys_sorted(entries_view(final(entries)@)),
        final(entries)@.len() <= capacity,
{
    let ghost s = entries_view(entries@);
    if entries.len() < capacity {
        proof {
            lemma_sorted_insert_contents(s, key, record@);
        }
        reservoir_insert(entries, key, record);
        return;
    }
    let largest = entries[entries.len() - 1].0;
    if key_less(&key, &largest) {
        entries.pop();
        proof {
            assert(entries_view(entries@) =~= s.drop_last());
            lemma_sorted_insert_contents(s.drop_last(), key, record@);
        }
        reservoir_insert(entries, key, record);
    }
}

/// Per postflop street, a reservoir of the causal attribution records with
/// the smallest keys, and how many records each street was offered.
pub struct BoundedCausalAttributionCollector {
    capacities: [usize; 3],
    seed: u64,
    seen_by_street: [usize; 3],
    flop: Vec<(ReservoirKey, Vec<u8>)>,
    turn: Vec<(ReservoirKey, Vec<u8>)>,
    river: Vec<(ReservoirKey, Vec<u8>)>,
    offered: Ghost<Seq<Set<ReservoirKey>>>,
}

impl BoundedCausalAttributionCollector {
    /// Room for records on the flop, turn and river.
    pub closed spec fn capacity(&self, street: int) -> int {
        self.capacities[street] as int
    }

    /// The seed mixed into every key.
    pub closed spec fn key_seed(&self) -> u64 {
        self.seed
    }

    /// How many records the street has been offered.
    pub closed spec fn seen(&self, street: int) -> int {
        self.seen_by_street[street] as int
    }

    /// The records the street retains, in ascending key order.
    pub closed spec fn retained(&self, street: int) -> Seq<ReservoirEntry> {
        if street == 0 {
            entries_view(self.flop@)
        } else if street == 1 {
            entries_view(self.turn@)
        } else {
            entries_view(self.river@)
        }
    }

    /// The keys the street has been offered.
    pub closed spec fn offered(&self, street: int) -> Set<ReservoirKey> {
        self.offered@[street]
    }

    /// Every street's records are in ascending key order and fit its room.
    pub closed spec fn wf(&self) -> bool {
        &&& self.offered@.len() == 3
        &&& keys_sorted(entries_view(self.flop@)) && self.flop@.len() <= self.capacities[0]
        &&& keys_sorted(entries_view(self.turn@)) && self.turn@.len() <= self.capacities[1]
        &&& keys_sorted(entries_view(self.river@)) && self.river@.len() <= self.capacities[2]
    }

    /// An empty collector with the given room per postflop street.
    pub fn new(capacities: [usize; 3], seed: u64) -> (c: Self)
        ensures
            c.wf(),
            c.key_seed() == seed,
            forall|street: int|
                0 <= street < 3 ==> {
                    &&& #[trigger] c.capacity(street) == capacities[street]
                    &&& c.seen(street) == 0
                    &&& c.retained(street) == Seq::<ReservoirEntry>::empty()
                    &&& c.offered(street) == Set::<ReservoirKey>::empty()
                    &&& keeps_smallest(c.retained(street), c.capacity(street), c.offered(street))
                },
    {
        let ghost none_offered: Seq<Set<ReservoirKey>> = seq![Set::empty(), Set::empty(), Set::empty()];
        let c = BoundedCausalAttributionCollector {
            capacities,
            seed,
            seen_by_street: [0; 3],
            flop: Vec::new(),
            turn: Vec::new(),
            river: Vec::new(),
            offered: Ghost(none_offered),
        };
        proof {
            assert forall|street: int| 0 <= street < 3 implies #[trigger] c.retained(street) == Seq::<ReservoirEntry>::empty() by {
                assert(entries_view(c.flop@) =~= Seq::<ReservoirEntry>::empty());
                assert(entries_view(c.turn@) =~= Seq::<ReservoirEntry>::empty());
                assert(entries_view(c.river@) =~= Seq::<ReservoirEntry>::empty());
            }
        }
        c
    }

    /// The reservoir of a postflop street: flop, turn, river.
    pub fn street_index(street: Street) -> (i: usize)
        requires
            street != Street::Preflop,
        ensures
            i == street_number(street) - 1,
    {
        match street {
            Street::Flop => 0,
            Street::Turn => 1,
            Street::River => 2,
            Street::Preflop => 0,
        }
    }

    /// The key of a record of `street`: the digest words of its frame, then
    /// the deal, the responder and the candidate.
    pub fn record_key(&self, street: Street, deal_index: u64, responder: usize, candidate_index: u64, record: &Vec<u8>) -> (key: ReservoirKey)
        requires
            street != Street::Preflop,
        ensures
            key == reservoir_key(self.key_seed(), deal_index, responder, street_number(street) - 1, candidate_index, record@),
    {
        let si = Self::street_index(street);
        let mut frame: Vec<u8> = Vec::new();
        let mut i: usize = 0;
        while i < 41
            invariant
                i <= 41,
                frame@ == RESERVOIR_DOMAIN@.take(i as int),
            decreases 41 - i,
        {
            frame.push(RESERVOIR_DOMAIN[i]);
            proof {
                assert(RESERVOIR_DOMAIN@.take(i as int + 1) =~= RESERVOIR_DOMAIN@.take(i as int).push(RESERVOIR_DOMAIN@[i as int]));
            }
            i += 1;
        }
        proof {
            assert(RESERVOIR_DOMAIN@.take(41) =~= RESERVOIR_DOMAIN@);
        }
        push_le(&mut frame, self.seed, 8);
        push_le(&mut frame, deal_index, 8);
        frame.push(#[verifier::truncate] (responder as u8));
        frame.push(si as u8);
        push_le(&mut frame, candidate_index, 8);
        let ghost head = frame@;
        let mut k: usize = 0;
        while k < record.len()
            invariant
                k <= record@.len(),
                frame@ == head + record@.take(k as int),
            decreases record.len() - k,
        {
            frame.push(record[k]);
            proof {
                assert(record@.take(k as int + 1) =~= record@.take(k as int).push(record@[k as int]));
            }
            k += 1;
        }
        proof {
            assert(record@.take(record@.len() as int) =~= record@);
            assert(frame@ =~= reservoir_frame(self.seed, deal_index, responder, si as int, candidate_index, record@));
        }
        let d = sha256(frame.as_slice());
        let first = u64_from_le_at(d.as_slice(), 0);
        let second = u64_from_le_at(d.as_slice(), 8);
        proof {
            assert(d@.subrange(0, 8) =~= d@.take(8));
        }
        (first, second, deal_index, #[verifier::truncate] (responder as u8), candidate_index)
    }

    /// Offer a record of `street` under `key`: it is counted, and kept while
    /// its key is among the smallest that fit the street's room.
    pub fn consider_keyed(&mut self, street: Street, key: ReservoirKey, record: Vec<u8>)
        requires
            old(self).wf(),
            street != Street::Preflop,
            old(self).seen(street_number(street) - 1) < usize::MAX,
        ensures
            final(self).wf(),
            final(self).key_seed() == old(self).key_seed(),
            ({
                let si = street_number(street) - 1;
                &&& final(self).seen(si) == old(self).seen(si) + 1
                &&& final(self).retained(si) == reservoir_step(old(self).retained(si), old(self).capacity(si), key, record@)
                &&& final(self).offered(si) == old(self).offered(si).insert(key)
                &&& keeps_smallest(old(self).retained(si), old(self).capacity(si), old(self).offered(si))
                    && !old(self).offered(si).contains(key) ==> keeps_smallest(
                    final(self).retained(si),
                    final(self).capacity(si),
                    final(self).offered(si),
                )
                &&& forall|other: int|
                    0 <= other < 3 && other != si ==> {
                        &&& #[trigger] final(self).seen(other) == old(self).seen(other)
                        &&& final(self).retained(other) == old(self).retained(other)
                        &&& final(self).offered(other) == old(self).offered(other)
                    }
            }),
            forall|street: int| 0 <= street < 3 ==> #[trigger] final(self).capacity(street) == old(self).capacity(street),
    {
        let si = Self::street_index(street);
        let ghost before = self.retained(si as int);
        proof {
            assert(keys_sorted(self.retained(si as int)));
            if keeps_smallest(before, self.capacity(si as int), self.offered(si as int)) && !self.offered(si as int).contains(key) {
                law_reservoir_keeps_smallest(before, self.capacity(si as int), self.offered(si as int), key, record@);
            }
        }
        self.seen_by_street[si] = self.seen_by_street[si] + 1;
        self.offered = Ghost(self.offered@.update(si as int, self.offered@[si as int].insert(key)));
        let capacity = self.capacities[si];
        if capacity > 0 {
            if si == 0 {
                offer(&mut self.flop, capacity, key, record);
            } else if si == 1 {
                offer(&mut self.turn, capacity, key, record);
            } else {
                offer(&mut self.river, capacity, key, record);
            }
        }
    }

    /// Offer a record of `street` under its hash key; see [`Self::consider_keyed`].
    pub fn consider(&mut self, street: Street, deal_index: u64, responder: usize, candidate_index: u64, record: Vec<u8>)
        requires
            old(self).wf(),
            street != Street::Preflop,
            old(self).seen(street_number(street) - 1) < usize::MAX,
        ensures
            final(self).wf(),
            final(self).key_seed() == old(self).key_seed(),
            ({
                let si = street_number(street) - 1;
                let key = reservoir_key(old(self).key_seed(), deal_index, responder, si, candidate_index, record@);
                &&& final(self).seen(si) == old(self).seen(si) + 1
                &&& final(self).retained(si) == reservoir_step(old(self).retained(si), old(self).capacity(si), key, record@)
                &&& final(self).offered(si) == old(self).offered(si).insert(key)
                &&& keeps_smallest(old(self).retained(si), old(self).capacity(si), old(self).offered(si))
                    && !old(self).offered(si).contains(key) ==> keeps_smallest(
                    final(self).retained(si),
                    final(self).capacity(si),
                    final(self).offered(si),
                )
                &&& forall|other: int|
                    0 <= other < 3 && other != si ==> {
                        &&& #[trigger] final(self).seen(other) == old(self).seen(other)
                        &&& final(self).retained(other) == old(self).retained(other)
                        &&& final(self).offered(other) == old(self).offered(other)
                    }
            }),
            forall|street: int| 0 <= street < 3 ==> #[trigger] final(self).capacity(street) == old(self).capacity(street),
    {
        let key = self.record_key(street, deal_index, responder, candidate_index, &record);
        self.consider_keyed(street, key, record);
    }

    /// The retained records, flop first, then turn, then river, each in
    /// ascending key order; with how many records each street was offered
    /// and how many it retains.
    pub fn into_records(self) -> (r: (Vec<Vec<u8>>, [usize; 3], [usize; 3]))
        requires
            self.wf(),
        ensures
            r.0@.map_values(|v: Vec<u8>| v@) == records_of(self.retained(0)) + records_of(self.retained(1))
                + records_of(self.retained(2)),
            forall|street: int|
                0 <= street < 3 ==> #[trigger] r.1[street] == self.seen(street) && r.2[street] == self.retained(street).len(),
    {
        let retained = [self.flop.len(), self.turn.len(), self.river.len()];
        let seen = self.seen_by_street;
        let mut output: Vec<Vec<u8>> = Vec::new();
        append_records(&mut output, self.flop);
        append_records(&mut output, self.turn);
        append_records(&mut output, self.river);
        proof {
            assert(output@.map_values(|v: Vec<u8>| v@) =~= records_of(self.retained(0)) + records_of(self.retained(1))
                + records_of(self.retained(2)));
        }
        (output, seen, retained)
    }
}

/// The records of retained entries, in order.
pub open spec fn records_of(s: Seq<ReservoirEntry>) -> Seq<Seq<u8>> {
    s.map_values(|e: ReservoirEntry| e.1)
}

fn append_records(output: &mut Vec<Vec<u8>>, entries: Vec<(ReservoirKey, Vec<u8>)>)
    ensures
        final(output)@.map_values(|v: Vec<u8>| v@) == old(output)@.map_values(|v: Vec<u8>| v@) + records_of(entries_view(entries@)),
{
    let ghost start = output@.map_values(|v: Vec<u8>| v@);
    let ghost all = records_of(entries_view(entries@));
    let mut rest = entries;
    let ghost original = rest@;
    let n = rest.len();
    let mut taken: usize = 0;
    while rest.len() > 0
        invariant
            taken + rest@.len() == n,
            n == original.len(),
            rest@ == original.skip(taken as int),
            output@.map_values(|v: Vec<u8>| v@) == start + all.take(taken as int),
            all == records_of(entries_view(original)),
        decreases rest.len(),
    {
        let ghost out_before = output@;
        let (_, record) = rest.remove(0);
        output.push(record);
        proof {
            assert(record@ == all[taken as int]);
            assert(rest@ =~= original.skip(taken as int + 1));
            assert(output@ == out_before.push(record));
            assert(output@.map_values(|v: Vec<u8>| v@) =~= out_before.map_values(|v: Vec<u8>| v@).push(record@));
            assert(all.take(taken as int + 1) =~= all.take(taken as int).push(all[taken as int]));
            assert(output@.map_values(|v: Vec<u8>| v@) =~= start + all.take(taken as int + 1));
        }
        taken += 1;
    }
    proof {
        assert(all.take(all.len() as int) =~= all);
    }
}

} // verus!
