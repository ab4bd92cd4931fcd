//! Deterministic response plans: one chosen action per responder
//! information set, kept in information-set order and merged from
//! independently solved parts.
use vstd::prelude::*;
use crate::order::{
    bytes_before, compare_bytes, compare_texts, lemma_bytes_order, lemma_texts_order, texts_before,
};
use crate::text::texts;

verus! {

/// What a responder observes: the public action labels and the public board.
#[derive(Clone, Debug)]
pub struct CausalResponseInformationSet {
    pub public_history: Vec<String>,
    pub observed_board: Vec<u8>,
}

/// The observation as plain values.
pub type InformationView = (Seq<Seq<char>>, Seq<u8>);

/// The information set as plain values.
pub open spec fn information_view(i: CausalResponseInformationSet) -> InformationView {
    (texts(i.public_history@), i.observed_board@)
}

/// The order of information sets: by public history, then by board (the
/// order `derive(Ord)` gives the struct).
pub open spec fn information_before(a: InformationView, b: InformationView) -> bool {
    texts_before(a.0, b.0) || (a.0 == b.0 && bytes_before(a.1, b.1))
}

/// `information_before` is a strict total order.
pub proof fn lemma_information_order(a: InformationView, b: InformationView, c: InformationView)
    ensures
        !information_before(a, a),
        information_before(a, b) && information_before(b, c) ==> information_before(a, c),
        a != b ==> information_before(a, b) || information_before(b, a),
{
    lemma_texts_order(a.0, b.0, c.0);
    lemma_texts_order(b.0, a.0, c.0);
    lemma_bytes_order(a.1, b.1, c.1);
    lemma_bytes_order(b.1, a.1, c.1);
    lemma_texts_order(a.0, c.0, b.0);
}

/// A plan's entries as (information set, action) pairs.
pub open spec fn plan_view(entries: Seq<(CausalResponseInformationSet, usize)>) -> Seq<(InformationView, usize)> {
    entries.map_values(|e: (CausalResponseInformationSet, usize)| (information_view(e.0), e.1))
}

/// Entries strictly increasing in information-set order.
pub open spec fn plan_sorted(s: Seq<(InformationView, usize)>) -> bool {
    forall|i: int, j: int| 0 <= i < j < s.len() ==> #[trigger] information_before(s[i].0, s[j].0)
}

/// The action chosen at each information set that has one.
pub open spec fn plan_map(s: Seq<(InformationView, usize)>) -> Map<InformationView, usize> {
    Map::new(
        |k: InformationView| exists|i: int| 0 <= i < s.len() && s[i].0 == k,
        |k: InformationView| s[plan_index(s, k)].1,
    )
}

/// A position of information set `k` in the entries, if it has one.
pub open spec fn plan_index(s: Seq<(InformationView, usize)>, k: InformationView) -> int {
    choose|i: int| 0 <= i < s.len() && s[i].0 == k
}

proof fn lemma_plan_lookup(s: Seq<(InformationView, usize)>, i: int)
    requires
        plan_sorted(s),
        0 <= i < s.len(),
    ensures
        plan_map(s).dom().contains(s[i].0),
        plan_map(s)[s[i].0] == s[i].1,
{
    let k = s[i].0;
    assert(0 <= i < s.len() && s[i].0 == k);
    assert(plan_map(s).dom().contains(k));
    let j = plan_index(s, k);
    assert(plan_map(s)[k] == s[j].1);
    if j != i {
        lemma_information_order(k, k, k);
        if i < j {
            assert(information_before(s[i].0, s[j].0));
        } else {
            assert(information_before(s[j].0, s[i].0));
        }
    }
}

/// Merging the first `n` entries of `source` into `target`, one insert at a
/// time, stopping at the first information set where the two plans chose
/// different actions: the merged choices, and whether no conflict was met.
pub open spec fn merged(
    target: Map<InformationView, usize>,
    source: Seq<(InformationView, usize)>,
    n: int,
) -> (Map<InformationView, usize>, bool)
    decreases n,
{
    if n <= 0 {
        (target, true)
    } else {
        let (m, ok) = merged(target, source, n - 1);
        if !ok {
            (m, false)
        } else {
            let e = source[n - 1];
            let next = m.insert(e.0, e.1);
            if m.dom().contains(e.0) {
                (next, m[e.0] == e.1)
            } else {
                (next, true)
            }
        }
    }
}

/// Whether `a` comes before `b` in information-set order.
fn precedes(a: &CausalResponseInformationSet, b: &CausalResponseInformationSet) -> (r: bool)
    ensures
        r == information_before(information_view(*a), information_view(*b)),
{
    let c = compare_texts(&a.public_history, &b.public_history);
    proof {
        lemma_texts_order(texts(a.public_history@), texts(b.public_history@), texts(a.public_history@));
    }
    if c == -1 {
        true
    } else if c == 1 {
        false
    } else {
        compare_bytes(&a.observed_board, &b.observed_board) == -1
    }
}

/// One chosen action per information set, in information-set order.
pub struct CausalResponsePlan {
    entries: Vec<(CausalResponseInformationSet, usize)>,
}

impl CausalResponsePlan {
    /// The entries are strictly ordered by information set.
    pub closed spec fn wf(&self) -> bool {
        plan_sorted(plan_view(self.entries@))
    }

    /// The chosen actions.
    pub closed spec fn choices(&self) -> Map<InformationView, usize> {
        plan_map(plan_view(self.entries@))
    }

    /// The chosen actions in information-set order.
    pub closed spec fn ordered(&self) -> Seq<(InformationView, usize)> {
        plan_view(self.entries@)
    }

    /// The plan that has chosen nothing yet.
    pub fn new() -> (p: Self)
        ensures
            p.wf(),
            p.choices() == Map::<InformationView, usize>::empty(),
            p.ordered().len() == 0,
    {
        let p = CausalResponsePlan { entries: Vec::new() };
        proof {
            assert(plan_map(plan_view(p.entries@)) =~= Map::<InformationView, usize>::empty());
        }
        p
    }

    /// The number of information sets with a chosen action.
    pub fn len(&self) -> (n: usize)
        requires
            self.wf(),
        ensures
            n == self.choices().dom().len(),
            n == self.ordered().len(),
    {
        proof {
            self.lemma_domain_size();
        }
        self.entries.len()
    }

    proof fn lemma_domain_size(&self)
        requires
            self.wf(),
        ensures
            self.choices().dom().finite(),
            self.choices().dom().len() == self.entries@.len(),
        decreases self.entries@.len(),
    {
        let s = plan_view(self.entries@);
        let f = |i: int| s[i].0;
        let idx = Set::new(|i: int| 0 <= i < s.len());
        assert(idx =~= vstd::set_lib::set_int_range(0, s.len() as int));
        vstd::set_lib::lemma_int_range(0, s.len() as int);
        assert forall|i: int, j: int| idx.contains(i) && idx.contains(j) && f(i) == f(j) implies i == j by {
            if i != j {
                lemma_information_order(s[i].0, s[i].0, s[i].0);
                if i < j {
                    assert(information_before(s[i].0, s[j].0));
                } else {
                    assert(information_before(s[j].0, s[i].0));
                }
            }
        }
        assert(vstd::relations::injective_on(f, idx));
        assert(idx.map(f) =~= self.choices().dom()) by {
            assert forall|k: InformationView| self.choices().dom().contains(k) implies idx.map(f).contains(k) by {
                let i = choose|i: int| 0 <= i < s.len() && s[i].0 == k;
                assert(idx.contains(i) && f(i) == k);
            }
        }
        vstd::set_lib::lemma_map_size(idx, self.choices().dom(), f);
    }

    /// The action chosen at `information_set`, if any.
    pub fn get(&self, information_set: &CausalResponseInformationSet) -> (r: Option<usize>)
        requires
            self.wf(),
        ensures
            r == (if self.choices().dom().contains(information_view(*information_set)) {
                Some(self.choices()[information_view(*information_set)])
            } else {
                None
            }),
    {
        let (i, found) = self.locate(information_set);
        if found {
            proof {
                lemma_plan_lookup(plan_view(self.entries@), i as int);
            }
            Some(self.entries[i].1)
        } else {
            None
        }
    }

    /// The first position whose information set does not come before `k`,
    /// and whether the set there is `k`.
    fn locate(&self, k: &CausalResponseInformationSet) -> (r: (usize, bool))
        requires
            self.wf(),
        ensures
            r.0 <= self.entries@.len(),
            forall|j: int| 0 <= j < r.0 ==> information_before(plan_view(self.entries@)[j].0, information_view(*k)),
            forall|j: int| r.0 <= j < self.entries@.len() ==> #[trigger] plan_view(self.entries@)[j].0 == information_view(*k)
                || information_before(information_view(*k), plan_view(self.entries@)[j].0),
            r.1 == (r.0 < self.entries@.len() && plan_view(self.entries@)[r.0 as int].0 == information_view(*k)),
            r.1 ==> plan_map(plan_view(self.entries@)).dom().contains(information_view(*k)),
            !r.1 ==> !plan_map(plan_view(self.entries@)).dom().contains(information_view(*k)),
    {
        let ghost s = plan_view(self.entries@);
        let ghost kv = information_view(*k);
        let n = self.entries.len();
        let mut i: usize = 0;
        while i < n && precedes(&self.entries[i].0, k)
            invariant
                n == self.entries@.len(),
                s == plan_view(self.entries@),
                kv == information_view(*k),
                i <= n,
                forall|j: int| 0 <= j < i ==> information_before(s[j].0, kv),
            decreases n - i,
        {
            proof {
                assert(s[i as int].0 == information_view(self.entries@[i as int].0));
            }
            i += 1;
        }
        proof {
            assert forall|j: int| i <= j < n implies #[trigger] s[j].0 == kv || information_before(kv, s[j].0) by {
                assert(s[i as int].0 == information_view(self.entries@[i as int].0));
                lemma_information_order(s[i as int].0, kv, s[j].0);
                lemma_information_order(kv, s[i as int].0, s[j].0);
                if j > i {
                    assert(information_before(s[i as int].0, s[j].0));
                    lemma_information_order(s[i as int].0, s[j].0, kv);
                }
            }
        }
        let found = i < n && {
            let c = compare_texts(&self.entries[i].0.public_history, &k.public_history);
            c == 0 && compare_bytes(&self.entries[i].0.observed_board, &k.observed_board) == 0
        };
        proof {
            if i < n {
                assert(s[i as int].0 == information_view(self.entries@[i as int].0));
            }
            if found {
                lemma_plan_lookup(s, i as int);
            } else {
                assert forall|j: int| 0 <= j < s.len() implies s[j].0 != kv by {
                    lemma_information_order(kv, kv, kv);
                }
            }
        }
        (i, found)
    }

    /// Choose `action` at `information_set`, replacing an earlier choice
    /// there; the earlier choice, if any, is returned.
    pub fn insert(&mut self, information_set: CausalResponseInformationSet, action: usize) -> (previous: Option<usize>)
        requires
            old(self).wf(),
        ensures
            final(self).wf(),
            final(self).choices() == old(self).choices().insert(information_view(information_set), action),
            previous == (if old(self).choices().dom().contains(information_view(information_set)) {
                Some(old(self).choices()[information_view(information_set)])
            } else {
                None
            }),
    {
        let ghost s = plan_view(self.entries@);
        let ghost k = information_view(information_set);
        let (i, found) = self.locate(&information_set);
        if found {
            let previous = self.entries[i].1;
            proof {
                lemma_plan_lookup(s, i as int);
            }
            self.entries.set(i, (information_set, action));
            proof {
                assert(plan_view(self.entries@) =~= s.update(i as int, (k, action)));
                lemma_replaced(s, i as int, k, action);
                self.lemma_choices_after(s, plan_view(self.entries@), k, action);
            }
            Some(previous)
        } else {
            self.entries.insert(i, (information_set, action));
            proof {
                assert(plan_view(self.entries@) =~= s.insert(i as int, (k, action)));
                lemma_inserted(s, i as int, k, action);
                self.lemma_choices_after(s, plan_view(self.entries@), k, action);
            }
            None
        }
    }

    proof fn lemma_choices_after(
        &self,
        s: Seq<(InformationView, usize)>,
        t: Seq<(InformationView, usize)>,
        k: InformationView,
        action: usize,
    )
        requires
            plan_sorted(s),
            plan_sorted(t),
            t == plan_view(self.entries@),
            exists|i: int| 0 <= i < t.len() && t[i] == (k, action),
            forall|j: int| 0 <= j < s.len() && s[j].0 != k ==> exists|i: int| 0 <= i < t.len() && t[i] == s[j],
            forall|i: int| 0 <= i < t.len() && t[i].0 != k ==> exists|j: int| 0 <= j < s.len() && s[j] == t[i],
        ensures
            self.choices() == plan_map(s).insert(k, action),
    {
        let m = plan_map(s).insert(k, action);
        assert forall|q: InformationView| #[trigger] plan_map(t).dom().contains(q) == m.dom().contains(q) by {
            if plan_map(t).dom().contains(q) && q != k {
                let i = choose|i: int| 0 <= i < t.len() && t[i].0 == q;
                let j = choose|j: int| 0 <= j < s.len() && s[j] == t[i];
                assert(s[j].0 == q);
            }
            if plan_map(s).dom().contains(q) && q != k {
                let j = choose|j: int| 0 <= j < s.len() && s[j].0 == q;
                let i = choose|i: int| 0 <= i < t.len() && t[i] == s[j];
                assert(t[i].0 == q);
            }
            if q == k {
                let i = choose|i: int| 0 <= i < t.len() && t[i] == (k, action);
                assert(t[i].0 == q);
            }
        }
        assert forall|q: InformationView| #[trigger] plan_map(t).dom().contains(q) implies plan_map(t)[q] == m[q] by {
            if q == k {
                let i = choose|i: int| 0 <= i < t.len() && t[i] == (k, action);
                lemma_plan_lookup(t, i);
            } else {
                let i = choose|i: int| 0 <= i < t.len() && t[i].0 == q;
                let j = choose|j: int| 0 <= j < s.len() && s[j] == t[i];
                lemma_plan_lookup(t, i);
                lemma_plan_lookup(s, j);
            }
        }
        assert(plan_map(t) =~= m);
    }
}

proof fn lemma_replaced(s: Seq<(InformationView, usize)>, i: int, k: InformationView, action: usize)
    requires
        plan_sorted(s),
        0 <= i < s.len(),
        s[i].0 == k,
    ensures
        ({
            let t = s.update(i, (k, action));
            &&& plan_sorted(t)
            &&& t[i] == (k, action)
            &&& forall|j: int| 0 <= j < s.len() && s[j].0 != k ==> exists|x: int| 0 <= x < t.len() && t[x] == s[j]
            &&& forall|x: int| 0 <= x < t.len() && t[x].0 != k ==> exists|j: int| 0 <= j < s.len() && s[j] == t[x]
        }),
{
    let t = s.update(i, (k, action));
    assert forall|a: int, b: int| 0 <= a < b < t.len() implies #[trigger] information_before(t[a].0, t[b].0) by {
        assert(information_before(s[a].0, s[b].0));
    }
    assert forall|j: int| 0 <= j < s.len() && s[j].0 != k implies exists|x: int| 0 <= x < t.len() && t[x] == s[j] by {
        assert(t[j] == s[j]);
    }
    assert forall|x: int| 0 <= x < t.len() && t[x].0 != k implies exists|j: int| 0 <= j < s.len() && s[j] == t[x] by {
        assert(t[x] == s[x]);
    }
}

proof fn lemma_inserted(s: Seq<(InformationView, usize)>, i: int, k: InformationView, action: usize)
    requires
        plan_sorted(s),
        0 <= i <= s.len(),
        forall|j: int| 0 <= j < i ==> information_before(s[j].0, k),
        forall|j: int| i <= j < s.len() ==> #[trigger] s[j].0 == k || information_before(k, s[j].0),
        i < s.len() ==> s[i].0 != k,
    ensures
        ({
            let t = s.insert(i, (k, action));
            &&& plan_sorted(t)
            &&& t[i] == (k, action)
            &&& forall|j: int| 0 <= j < s.len() && s[j].0 != k ==> exists|x: int| 0 <= x < t.len() && t[x] == s[j]
            &&& forall|x: int| 0 <= x < t.len() && t[x].0 != k ==> exists|j: int| 0 <= j < s.len() && s[j] == t[x]
        }),
{
    let t = s.insert(i, (k, action));
    assert forall|j: int| i <= j < s.len() implies information_before(k, #[trigger] s[j].0) by {
        if j > i {
            assert(information_before(s[i].0, s[j].0));
            assert(s[i].0 == k || information_before(k, s[i].0));
            lemma_information_order(k, s[i].0, s[j].0);
        } else {
            assert(s[i].0 == k || information_before(k, s[i].0));
        }
    }
    assert forall|a: int, b: int| 0 <= a < b < t.len() implies #[trigger] information_before(t[a].0, t[b].0) by {
        if b < i {
            assert(information_before(s[a].0, s[b].0));
        } else if b == i {
            assert(t[a] == s[a]);
        } else if a < i {
            assert(t[a] == s[a] && t[b] == s[b - 1]);
            assert(information_before(k, s[b - 1].0));
            lemma_information_order(s[a].0, k, s[b - 1].0);
        } else if a == i {
            assert(t[b] == s[b - 1]);
            assert(information_before(k, s[b - 1].0));
        } else {
            assert(t[a] == s[a - 1] && t[b] == s[b - 1]);
            assert(information_before(s[a - 1].0, s[b - 1].0));
        }
    }
    assert forall|j: int| 0 <= j < s.len() && s[j].0 != k implies exists|x: int| 0 <= x < t.len() && t[x] == s[j] by {
        if j < i {
            assert(t[j] == s[j]);
        } else {
            assert(t[j + 1] == s[j]);
        }
    }
    assert forall|x: int| 0 <= x < t.len() && t[x].0 != k implies exists|j: int| 0 <= j < s.len() && s[j] == t[x] by {
        if x < i {
            assert(t[x] == s[x]);
        } else if x > i {
            assert(t[x] == s[x - 1]);
        }
    }
}

proof fn lemma_merged_stops(
    target: Map<InformationView, usize>,
    source: Seq<(InformationView, usize)>,
    k: int,
    n: int,
)
    requires
        0 <= k <= n,
        !merged(target, source, k).1,
    ensures
        merged(target, source, n) == merged(target, source, k),
    decreases n - k,
{
    if n > k {
        lemma_merged_stops(target, source, k, n - 1);
    }
}

/// Merge the choices of `source` into `target`, in information-set order,
/// and fail at the first information set where the two plans chose
/// different actions; the choices merged before that point, and the
/// conflicting one, stay in `target`.
pub fn merge_causal_response_plan(target: &mut CausalResponsePlan, source: CausalResponsePlan) -> (r: Result<(), String>)
    requires
        old(target).wf(),
        source.wf(),
    ensures
        final(target).wf(),
        final(target).choices() == merged(old(target).choices(), source.ordered(), source.ordered().len() as int).0,
        r is Ok <==> merged(old(target).choices(), source.ordered(), source.ordered().len() as int).1,
{
    let ghost t0 = target.choices();
    let ghost src = source.ordered();
    let ghost total = source.entries@.len();
    let mut rest = source.entries;
    let ghost original = rest@;
    let mut taken: usize = 0;
    let n = rest.len();
    while rest.len() > 0
        invariant
            taken + rest@.len() == n,
            n == original.len(),
            total == n,
            src == plan_view(original),
            src == source.ordered(),
            t0 == old(target).choices(),
            rest@ == original.skip(taken as int),
            target.wf(),
            merged(t0, src, taken as int) == (target.choices(), true),
        decreases rest.len(),
    {
        let (information_set, action) = rest.remove(0);
        proof {
            assert(rest@ =~= original.skip(taken as int + 1));
            assert(original.skip(taken as int)[0] == original[taken as int]);
            assert(src[taken as int] == (information_view(information_set), action));
        }
        let ghost before = target.choices();
        let ghost e = src[taken as int];
        let previous = target.insert(information_set, action);
        taken += 1;
        match previous {
            Some(p) => {
                if p != action {
                    proof {
                        assert(!merged(t0, src, taken as int).1);
                        assert(merged(t0, src, taken as int).0 == target.choices());
                        lemma_merged_stops(t0, src, taken as int, total as int);
                        assert(merged(t0, src, total as int) == (target.choices(), false));
                        assert(src.len() == total);
                    }
                    return Err(String::from_str("causal response plan selected conflicting actions"));
                }
            },
            None => {},
        }
    }
    Ok(())
}

proof fn lemma_prefix_choices(s: Seq<(InformationView, usize)>, n: int)
    requires
        plan_sorted(s),
        0 < n <= s.len(),
    ensures
        plan_map(s.take(n)) == plan_map(s.take(n - 1)).insert(s[n - 1].0, s[n - 1].1),
        !plan_map(s.take(n - 1)).dom().contains(s[n - 1].0),
{
    let a = s.take(n - 1);
    let b = s.take(n);
    assert(plan_sorted(a));
    assert(plan_sorted(b));
    let m = plan_map(a).insert(s[n - 1].0, s[n - 1].1);
    assert forall|q: InformationView| #[trigger] plan_map(b).dom().contains(q) == m.dom().contains(q) by {
        if plan_map(a).dom().contains(q) {
            let i = choose|i: int| 0 <= i < a.len() && a[i].0 == q;
            assert(b[i].0 == q);
        }
        if q == s[n - 1].0 {
            assert(b[n - 1].0 == q);
        }
        if plan_map(b).dom().contains(q) && q != s[n - 1].0 {
            let i = choose|i: int| 0 <= i < b.len() && b[i].0 == q;
            assert(a[i].0 == q);
        }
    }
    assert forall|q: InformationView| #[trigger] plan_map(b).dom().contains(q) implies plan_map(b)[q] == m[q] by {
        if q == s[n - 1].0 {
            lemma_plan_lookup(b, n - 1);
        } else {
            let i = choose|i: int| 0 <= i < b.len() && b[i].0 == q;
            lemma_plan_lookup(b, i);
            assert(a[i] == b[i]);
            lemma_plan_lookup(a, i);
        }
    }
    assert(plan_map(b) =~= m);
    if plan_map(a).dom().contains(s[n - 1].0) {
        let i = choose|i: int| 0 <= i < a.len() && a[i].0 == s[n - 1].0;
        assert(information_before(s[i].0, s[n - 1].0));
        lemma_information_order(s[i].0, s[i].0, s[i].0);
    }
}

proof fn lemma_merged_prefix(target: Map<InformationView, usize>, source: Seq<(InformationView, usize)>, n: int)
    requires
        plan_sorted(source),
        0 <= n <= source.len(),
    ensures
        merged(target, source, n).1 <==> (forall|j: int| 0 <= j < n && #[trigger] target.dom().contains(source[j].0)
            ==> target[source[j].0] == source[j].1),
        merged(target, source, n).1 ==> merged(target, source, n).0 == target.union_prefer_right(plan_map(source.take(n))),
    decreases n,
{
    if n == 0 {
        assert(plan_map(source.take(0)) =~= Map::<InformationView, usize>::empty());
        assert(target.union_prefer_right(plan_map(source.take(0))) =~= target);
    } else {
        lemma_merged_prefix(target, source, n - 1);
        let e = source[n - 1];
        if merged(target, source, n - 1).1 {
            lemma_prefix_choices(source, n);
            let before = plan_map(source.take(n - 1));
            let m = target.union_prefer_right(before);
            assert(m.dom().contains(e.0) == target.dom().contains(e.0));
            if target.dom().contains(e.0) {
                assert(m[e.0] == target[e.0]);
            }
            assert(m.insert(e.0, e.1) =~= target.union_prefer_right(before.insert(e.0, e.1)));
        } else {
            let j = choose|j: int| !(0 <= j < n - 1 && #[trigger] target.dom().contains(source[j].0)
                ==> target[source[j].0] == source[j].1);
            assert(target.dom().contains(source[j].0));
        }
    }
}

/// A merge succeeds exactly when the two plans chose the same action at
/// every information set that both of them decided, and then the merged
/// plan holds the choices of both.
pub proof fn law_merge_succeeds_iff_plans_agree(target: CausalResponsePlan, source: CausalResponsePlan)
    requires
        target.wf(),
        source.wf(),
    ensures
        merged(target.choices(), source.ordered(), source.ordered().len() as int).1 <==> (forall|k: InformationView|
            #[trigger] target.choices().dom().contains(k) && source.choices().dom().contains(k)
                ==> target.choices()[k] == source.choices()[k]),
        merged(target.choices(), source.ordered(), source.ordered().len() as int).1
            ==> merged(target.choices(), source.ordered(), source.ordered().len() as int).0
            == target.choices().union_prefer_right(source.choices()),
{
    let s = source.ordered();
    let t = target.choices();
    lemma_merged_prefix(t, s, s.len() as int);
    assert(s.take(s.len() as int) =~= s);
    assert forall|k: InformationView| #[trigger] t.dom().contains(k) && source.choices().dom().contains(k) && merged(t, s, s.len() as int).1
        implies t[k] == source.choices()[k] by {
        let j = choose|j: int| 0 <= j < s.len() && s[j].0 == k;
        lemma_plan_lookup(s, j);
    }
    if !merged(t, s, s.len() as int).1 {
        let j = choose|j: int| !(0 <= j < s.len() && #[trigger] t.dom().contains(s[j].0) ==> t[s[j].0] == s[j].1);
        lemma_plan_lookup(s, j);
        assert(source.choices().dom().contains(s[j].0));
    }
}

} // verus!
