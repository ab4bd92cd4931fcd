//! The exact preflop checkdown kernel: integer showdown counts for every
//! ordered pair of preflop classes, summed over all 1,755 canonical flop
//! orbits, and the checks that make such a kernel usable.
use vstd::prelude::*;
use crate::cards::{Combo, COMBO_COUNT, all_combos, combo_index, combo_label, law_combo_index_is_bijective, lemma_combo_index_bounds};
use crate::classes::{Classes, CLASS_COUNT, classes_wf, char_seq_lt, is_class_label, label_key, lemma_label_order};
use crate::flop::{Triple, lex_lt};
use crate::cards::{class_label, rank_char, rank_of, suit_of};
use crate::text::str_eq;
use vstd::string::StringExecFns;

verus! {

/// The combo whose key is `i`.
pub open spec fn combo_with_key(i: int) -> Combo {
    choose|c: Combo| c.wf() && combo_index(c.high as int, c.low as int) == i
}

/// The class label of the combo with key `i`.
pub open spec fn key_label(i: int) -> Seq<char> {
    combo_label(combo_with_key(i))
}

/// Whether the combos with keys `i` and `j` share a card.
pub open spec fn keys_overlap(i: int, j: int) -> bool {
    let x = combo_with_key(i);
    let y = combo_with_key(j);
    x.high == y.high || x.high == y.low || x.low == y.high || x.low == y.low
}

/// Number of combos with key below `n` whose class label is `label`.
pub open spec fn label_count(label: Seq<char>, n: int) -> nat
    decreases n,
{
    if n <= 0 {
        0
    } else {
        label_count(label, n - 1) + if key_label(n - 1) == label { 1nat } else { 0nat }
    }
}

/// Number of keys `j < n` such that combos `i` (labelled `a`) and `j`
/// (labelled `b`) are card-disjoint.
pub open spec fn disjoint_row(a: Seq<char>, b: Seq<char>, i: int, n: int) -> nat
    decreases n,
{
    if n <= 0 {
        0
    } else {
        disjoint_row(a, b, i, n - 1) + if key_label(i) == a && key_label(n - 1) == b && !keys_overlap(i, n - 1) {
            1nat
        } else {
            0nat
        }
    }
}

/// Number of ordered card-disjoint combo pairs, the first with key below `n`,
/// whose class labels are `a` and `b`.
pub open spec fn disjoint_pairs(a: Seq<char>, b: Seq<char>, n: int) -> nat
    decreases n,
{
    if n <= 0 {
        0
    } else {
        disjoint_pairs(a, b, n - 1) + disjoint_row(a, b, n - 1, COMBO_COUNT as int)
    }
}

/// Cell of the class pair `(a, b)` in a row-major `169 x 169` table.
pub open spec fn cell(a: int, b: int) -> int {
    a * 169 + b
}

/// The characters of each label.
pub open spec fn labels_of(v: Seq<String>) -> Seq<Seq<char>> {
    v.map_values(|s: String| s@)
}

/// The class tables of the kernel: labels, the class of each combo, the
/// number of combos in each class and of disjoint combos in each class pair.
pub struct ClassTables {
    pub labels: Vec<String>,
    pub index: Vec<usize>,
    pub multiplicities: Vec<u64>,
    pub compatible_pairs: Vec<u64>,
}

proof fn lemma_all_combos_by_key(combos: Seq<Combo>, i: int)
    requires
        combos.len() == COMBO_COUNT,
        forall|k: int|
            0 <= k < COMBO_COUNT ==> (#[trigger] combos[k]).wf() && combo_index(
                combos[k].high as int,
                combos[k].low as int,
            ) == k,
        0 <= i < COMBO_COUNT,
    ensures
        combos[i] == combo_with_key(i),
{
    let c = combo_with_key(i);
    assert(combos[i].wf() && combo_index(combos[i].high as int, combos[i].low as int) == i);
    law_combo_index_is_bijective(c.high as int, c.low as int, combos[i].high as int, combos[i].low as int);
}

proof fn lemma_char_seq_lt_irreflexive(a: Seq<char>)
    ensures
        !char_seq_lt(a, a),
    decreases a.len(),
{
    if a.len() > 0 {
        lemma_char_seq_lt_irreflexive(a.drop_first());
    }
}

/// With distinct labels, a combo is in class `k` exactly when its label is `labels[k]`.
proof fn lemma_index_matches_label(labels: Seq<String>, index: Seq<usize>, i: int, k: int)
    requires
        classes_wf(labels, index),
        0 <= i < COMBO_COUNT,
        0 <= k < CLASS_COUNT,
    ensures
        (index[i] == k) <==> (key_label(i) == labels[k]@),
{
    let c = combo_with_key(i);
    let combos = all_combos_spec_witness(i);
    assert(c.wf() && combo_index(c.high as int, c.low as int) == i);
    let m = index[i] as int;
    assert(labels[m]@ == combo_label(c));
    if m != k && labels[m]@ == labels[k]@ {
        if m < k {
            assert(char_seq_lt(labels[m]@, labels[k]@));
        } else {
            assert(char_seq_lt(labels[k]@, labels[m]@));
        }
        lemma_char_seq_lt_irreflexive(labels[k]@);
    }
}

/// Every key below 1326 names a combo.
proof fn all_combos_spec_witness(i: int) -> (c: Combo)
    requires
        0 <= i < COMBO_COUNT,
    ensures
        c.wf() && combo_index(c.high as int, c.low as int) == i,
        combo_with_key(i).wf() && combo_index(combo_with_key(i).high as int, combo_with_key(i).low as int) == i,
{
    let (h, l) = key_to_cards(i);
    let c = Combo { high: h as u8, low: l as u8 };
    assert(c.high as int == h && c.low as int == l);
    assert(c.wf() && combo_index(c.high as int, c.low as int) == i);
    c
}

/// The cards of the combo with key `i`.
proof fn key_to_cards(i: int) -> (r: (int, int))
    requires
        0 <= i < COMBO_COUNT,
    ensures
        0 <= r.1 < r.0 < 52,
        combo_index(r.0, r.1) == i,
{
    lemma_combo_index_bounds(1, 0);
    key_to_cards_from(1, i)
}

proof fn key_to_cards_from(h: int, i: int) -> (r: (int, int))
    requires
        1 <= h < 52,
        combo_index(h, 0) <= i < COMBO_COUNT,
    ensures
        0 <= r.1 < r.0 < 52,
        combo_index(r.0, r.1) == i,
    decreases 52 - h,
{
    lemma_combo_index_bounds(h, 0);
    if h + 1 < 52 && combo_index(h + 1, 0) <= i {
        key_to_cards_from(h + 1, i)
    } else {
        if h + 1 >= 52 {
            assert(combo_index(52, 0) == 1326);
        }
        let l = i - combo_index(h, 0);
        lemma_combo_index_bounds(h, l);
        (h, l)
    }
}


/// The tables agree with the exact combos: labels, classes, multiplicities and disjoint pairs.
pub open spec fn class_tables_wf(t: ClassTables) -> bool {
    &&& classes_wf(t.labels@, t.index@)
    &&& t.multiplicities.len() == CLASS_COUNT
    &&& forall|k: int|
        0 <= k < CLASS_COUNT ==> t.multiplicities[k] == label_count(#[trigger] t.labels[k]@, COMBO_COUNT as int)
    &&& t.compatible_pairs.len() == CLASS_COUNT * CLASS_COUNT
    &&& forall|a: int, b: int|
        0 <= a < CLASS_COUNT && 0 <= b < CLASS_COUNT ==> #[trigger] t.compatible_pairs[cell(a, b)]
            == disjoint_pairs(t.labels[a]@, t.labels[b]@, COMBO_COUNT as int)
}

/// The class labels, class of each combo, class multiplicities and counts
/// of card-disjoint ordered combo pairs for every pair of classes.
pub fn class_tables() -> (t: ClassTables)
    ensures
        class_tables_wf(t),
{
    let classes = Classes::new();
    let labels = classes.labels;
    let index = classes.index;
    let combos = all_combos();
    let ghost lv = labels@;
    let ghost iv = index@;
    let mut multiplicities: Vec<u64> = vec![0; CLASS_COUNT];
    let mut c: usize = 0;
    while c < COMBO_COUNT
        invariant
            c <= COMBO_COUNT,
            lv == labels@,
            iv == index@,
            classes_wf(lv, iv),
            multiplicities.len() == CLASS_COUNT,
            forall|k: int|
                0 <= k < CLASS_COUNT ==> #[trigger] multiplicities[k] == label_count(lv[k]@, c as int)
                    && multiplicities[k] <= c,
        decreases COMBO_COUNT - c,
    {
        let k = index[c];
        proof {
            let w = all_combos_spec_witness(c as int);
            assert(combo_index(w.high as int, w.low as int) == c);
            assert(k < CLASS_COUNT);
            assert forall|m: int| 0 <= m < CLASS_COUNT implies (index[c as int] == m) <==> (key_label(c as int) == lv[m]@) by {
                lemma_index_matches_label(lv, iv, c as int, m);
            }
        }
        multiplicities.set(k, multiplicities[k] + 1);
        c += 1;
    }
    let mut pairs: Vec<u64> = vec![0; CLASS_COUNT * CLASS_COUNT];
    let mut i: usize = 0;
    while i < COMBO_COUNT
        invariant
            i <= COMBO_COUNT,
            lv == labels@,
            iv == index@,
            classes_wf(lv, iv),
            combos.len() == COMBO_COUNT,
            forall|x: int|
                0 <= x < COMBO_COUNT ==> (#[trigger] combos[x]).wf() && combo_index(
                    combos[x].high as int,
                    combos[x].low as int,
                ) == x,
            pairs.len() == CLASS_COUNT * CLASS_COUNT,
            forall|a: int, b: int|
                0 <= a < CLASS_COUNT && 0 <= b < CLASS_COUNT ==> #[trigger] pairs[cell(a, b)] == disjoint_pairs(lv[a]@, lv[b]@, i as int)
                    && pairs[cell(a, b)] <= i * COMBO_COUNT,
        decreases COMBO_COUNT - i,
    {
        let mut j: usize = 0;
        while j < COMBO_COUNT
            invariant
                i < COMBO_COUNT,
                j <= COMBO_COUNT,
                lv == labels@,
                iv == index@,
                classes_wf(lv, iv),
                combos.len() == COMBO_COUNT,
                forall|x: int|
                    0 <= x < COMBO_COUNT ==> (#[trigger] combos[x]).wf() && combo_index(
                        combos[x].high as int,
                        combos[x].low as int,
                    ) == x,
                pairs.len() == CLASS_COUNT * CLASS_COUNT,
                forall|a: int, b: int|
                    0 <= a < CLASS_COUNT && 0 <= b < CLASS_COUNT ==> #[trigger] pairs[cell(a, b)] == disjoint_pairs(lv[a]@, lv[b]@, i as int)
                        + disjoint_row(lv[a]@, lv[b]@, i as int, j as int)
                        && pairs[cell(a, b)] <= i * COMBO_COUNT + j,
            decreases COMBO_COUNT - j,
        {
            let a0 = index[i];
            let b0 = index[j];
            let disjoint = !combos[i].overlaps(combos[j]);
            proof {
                lemma_all_combos_by_key(combos@, i as int);
                lemma_all_combos_by_key(combos@, j as int);
                assert(disjoint == !keys_overlap(i as int, j as int));
                assert(combo_index(combos[i as int].high as int, combos[i as int].low as int) == i);
                assert(combo_index(combos[j as int].high as int, combos[j as int].low as int) == j);
                assert(a0 < CLASS_COUNT && b0 < CLASS_COUNT);
                assert forall|m: int| 0 <= m < CLASS_COUNT implies ((index[i as int] == m) <==> (key_label(i as int) == lv[m]@))
                    && ((index[j as int] == m) <==> (key_label(j as int) == lv[m]@)) by {
                    lemma_index_matches_label(lv, iv, i as int, m);
                    lemma_index_matches_label(lv, iv, j as int, m);
                }
            }
            let target = a0 * CLASS_COUNT + b0;
            assert(target == cell(a0 as int, b0 as int));
            if disjoint {
                pairs.set(target, pairs[target] + 1);
            }
            proof {
                assert forall|a: int, b: int|
                    0 <= a < CLASS_COUNT && 0 <= b < CLASS_COUNT implies #[trigger] pairs[cell(a, b)] == disjoint_pairs(lv[a]@, lv[b]@, i as int)
                        + disjoint_row(lv[a]@, lv[b]@, i as int, j + 1)
                        && pairs[cell(a, b)] <= i * COMBO_COUNT + j + 1 by {
                    if cell(a, b) == target {
                        assert(a == a0 && b == b0);
                    } else {
                        assert(!(a == a0 && b == b0));
                    }
                }
            }
            j += 1;
        }
        i += 1;
    }
    proof {
        crate::cards::lemma_combo_index_bounds(1, 0);
    }
    ClassTables { labels, index, multiplicities, compatible_pairs: pairs }
}


/// The labels of every preflop class, each once, in string order.
pub open spec fn is_canonical_class_list(v: Seq<Seq<char>>) -> bool {
    &&& v.len() == CLASS_COUNT
    &&& forall|i: int, j: int| 0 <= i < j < v.len() ==> char_seq_lt(v[i], v[j])
    &&& forall|k: int| 0 <= k < v.len() ==> is_class_label(#[trigger] v[k])
    &&& forall|c: Combo| c.wf() ==> label_present(v, #[trigger] combo_label(c))
}

/// Whether `label` is in the list.
pub open spec fn label_present(v: Seq<Seq<char>>, label: Seq<char>) -> bool {
    exists|k: int| 0 <= k < v.len() && v[k] == label
}

proof fn lemma_class_label_shape(x: Seq<char>)
    requires
        is_class_label(x),
    ensures
        2 <= x.len() <= 3,
        forall|i: int| 0 <= i < x.len() ==> (x[i] as int) > 0,
        x.len() == 3 ==> (x[2] as int) > 0,
        x.len() == 2 <==> label_key(x).2 == 0,
{
    let c = choose|c: Combo| c.wf() && combo_label(c) == x;
    let h = rank_of(c.high as int);
    let l = rank_of(c.low as int);
    assert(0 <= h < 13 && 0 <= l < 13);
}

proof fn lemma_class_label_key_injective(x: Seq<char>, y: Seq<char>)
    requires
        is_class_label(x),
        is_class_label(y),
        label_key(x) == label_key(y),
    ensures
        x == y,
{
    lemma_class_label_shape(x);
    lemma_class_label_shape(y);
    assert(x.len() == y.len());
    assert(x =~= y);
}

proof fn lemma_sorted_triples_unique(a: Seq<Triple>, b: Seq<Triple>)
    requires
        forall|i: int, j: int| 0 <= i < j < a.len() ==> lex_lt(a[i], a[j]),
        forall|i: int, j: int| 0 <= i < j < b.len() ==> lex_lt(b[i], b[j]),
        forall|t: Triple| a.contains(t) <==> b.contains(t),
    ensures
        a == b,
    decreases a.len(),
{
    if a.len() == 0 {
        if b.len() > 0 {
            assert(b.contains(b[0]));
        }
        assert(a =~= b);
    } else {
        assert(a.contains(a[0]));
        assert(b.len() > 0);
        assert(b.contains(b[0]));
        let j = choose|j: int| 0 <= j < b.len() && b[j] == a[0];
        let i = choose|i: int| 0 <= i < a.len() && a[i] == b[0];
        if a[0] != b[0] {
            assert(i > 0 && j > 0);
            assert(lex_lt(a[0], a[i]));
            assert(lex_lt(b[0], b[j]));
        }
        let a1 = a.drop_first();
        let b1 = b.drop_first();
        assert forall|t: Triple| a1.contains(t) <==> b1.contains(t) by {
            if a1.contains(t) {
                let x = choose|x: int| 0 <= x < a1.len() && a1[x] == t;
                assert(lex_lt(a[0], a[x + 1]));
                assert(b.contains(t));
                let y = choose|y: int| 0 <= y < b.len() && b[y] == t;
                assert(y != 0);
                assert(b1[y - 1] == t);
            }
            if b1.contains(t) {
                let x = choose|x: int| 0 <= x < b1.len() && b1[x] == t;
                assert(lex_lt(b[0], b[x + 1]));
                assert(a.contains(t));
                let y = choose|y: int| 0 <= y < a.len() && a[y] == t;
                assert(y != 0);
                assert(a1[y - 1] == t);
            }
        }
        lemma_sorted_triples_unique(a1, b1);
        assert(a[0] == b[0]);
        assert(a.len() == b.len());
        assert forall|x: int| 0 <= x < a.len() implies a[x] == b[x] by {
            if x > 0 {
                assert(a[x] == a1[x - 1]);
                assert(b[x] == b1[x - 1]);
            }
        }
        assert(a =~= b);
    }
}

/// There is only one canonical class list.
pub proof fn law_canonical_class_list_unique(v: Seq<Seq<char>>, w: Seq<Seq<char>>)
    requires
        is_canonical_class_list(v),
        is_canonical_class_list(w),
    ensures
        v == w,
{
    let kv = v.map_values(|x: Seq<char>| label_key(x));
    let kw = w.map_values(|x: Seq<char>| label_key(x));
    assert forall|i: int, j: int| 0 <= i < j < kv.len() implies lex_lt(kv[i], kv[j]) by {
        lemma_class_label_shape(v[i]);
        lemma_class_label_shape(v[j]);
        lemma_label_order(v[i], v[j]);
    }
    assert forall|i: int, j: int| 0 <= i < j < kw.len() implies lex_lt(kw[i], kw[j]) by {
        lemma_class_label_shape(w[i]);
        lemma_class_label_shape(w[j]);
        lemma_label_order(w[i], w[j]);
    }
    assert forall|t: Triple| kv.contains(t) implies kw.contains(t) by {
        let i = choose|i: int| 0 <= i < kv.len() && kv[i] == t;
        let c = choose|c: Combo| c.wf() && combo_label(c) == v[i];
        let j = choose|j: int| 0 <= j < w.len() && w[j] == combo_label(c);
        assert(kw[j] == t);
    }
    assert forall|t: Triple| kw.contains(t) implies kv.contains(t) by {
        let i = choose|i: int| 0 <= i < kw.len() && kw[i] == t;
        let c = choose|c: Combo| c.wf() && combo_label(c) == w[i];
        let j = choose|j: int| 0 <= j < v.len() && v[j] == combo_label(c);
        assert(kv[j] == t);
    }
    lemma_sorted_triples_unique(kv, kw);
    assert forall|i: int| 0 <= i < v.len() implies v[i] == w[i] by {
        assert(kv[i] == kw[i]);
        lemma_class_label_key_injective(v[i], w[i]);
    }
    assert(v =~= w);
}

proof fn lemma_tables_list_is_canonical(t: ClassTables)
    requires
        class_tables_wf(t),
    ensures
        is_canonical_class_list(labels_of(t.labels@)),
{
    let v = labels_of(t.labels@);
    assert forall|i: int| 0 <= i < v.len() implies v[i] == t.labels[i]@ by {}
    assert forall|c: Combo| c.wf() implies label_present(v, #[trigger] combo_label(c)) by {
        lemma_combo_index_bounds(c.high as int, c.low as int);
        let k = t.index[combo_index(c.high as int, c.low as int)] as int;
        assert(v[k] == combo_label(c));
    }
    assert forall|i: int, j: int| 0 <= i < j < v.len() implies char_seq_lt(v[i], v[j]) by {
        assert(v[i] == t.labels[i]@ && v[j] == t.labels[j]@);
    }
    assert forall|k: int| 0 <= k < v.len() implies is_class_label(#[trigger] v[k]) by {
        assert(v[k] == t.labels[k]@);
    }

}

/// The class tables as a tuple: labels, class of each combo, class
/// multiplicities and card-disjoint pair counts.
pub fn classes() -> (r: (Vec<String>, Vec<usize>, Vec<u64>, Vec<u64>))
    ensures
        class_tables_wf((ClassTables { labels: r.0, index: r.1, multiplicities: r.2, compatible_pairs: r.3 })),
{
    let t = class_tables();
    (t.labels, t.index, t.multiplicities, t.compatible_pairs)
}

/// The exact preflop checkdown kernel as read from its artifact.
pub struct ExactCheckdown {
    pub schema: String,
    pub classes: Vec<String>,
    pub class_multiplicities: Vec<u64>,
    pub compatible_pairs: Vec<u64>,
    pub weighted_flop_pairs: Vec<u64>,
    pub weighted_win_units: Vec<u64>,
    pub canonical_flops: usize,
    pub raw_flops: usize,
    pub complete: bool,
}

/// Flops compatible with a card-disjoint pair of private combos: `C(48, 3)`.
pub const COMPATIBLE_FLOPS: u64 = 17296;

/// Win units per showdown: a win is 1980, a split is 990.
pub const SHOWDOWN_UNITS: u64 = 1980;

/// The schema of a complete class kernel.
pub open spec fn kernel_schema() -> Seq<char> {
    "exact-preflop-checkdown-class-kernel-v1"@
}

/// The showdown counts of the class pair `(a, b)` cover every compatible flop,
/// and its win units and those of `(b, a)` add up to every showdown unit.
pub open spec fn kernel_cell_valid(k: ExactCheckdown, a: int, b: int) -> bool {
    let x = cell(a, b);
    let pair_flops = k.compatible_pairs[x] * COMPATIBLE_FLOPS;
    &&& k.weighted_flop_pairs[x] == pair_flops
    &&& k.weighted_win_units[x] <= pair_flops * SHOWDOWN_UNITS
    &&& k.weighted_win_units[x] + k.weighted_win_units[cell(b, a)] == pair_flops * SHOWDOWN_UNITS
}

/// The kernel's class accounting matches the exact combos and card removal.
pub open spec fn kernel_header_valid(k: ExactCheckdown) -> bool {
    &&& k.schema@ == kernel_schema()
    &&& k.complete
    &&& k.canonical_flops == 1755
    &&& k.raw_flops == 22100
    &&& is_canonical_class_list(labels_of(k.classes@))
    &&& k.class_multiplicities.len() == CLASS_COUNT
    &&& forall|c: int|
        0 <= c < CLASS_COUNT ==> #[trigger] k.class_multiplicities[c] == label_count(k.classes[c]@, COMBO_COUNT as int)
    &&& k.compatible_pairs.len() == CLASS_COUNT * CLASS_COUNT
    &&& forall|a: int, b: int|
        0 <= a < CLASS_COUNT && 0 <= b < CLASS_COUNT ==> #[trigger] k.compatible_pairs[cell(a, b)]
            == disjoint_pairs(k.classes[a]@, k.classes[b]@, COMBO_COUNT as int)
    &&& k.weighted_flop_pairs.len() == CLASS_COUNT * CLASS_COUNT
    &&& k.weighted_win_units.len() == CLASS_COUNT * CLASS_COUNT
}

/// A complete kernel: valid header and every class-pair cell valid.
pub open spec fn kernel_valid(k: ExactCheckdown) -> bool {
    &&& kernel_header_valid(k)
    &&& forall|a: int, b: int| 0 <= a < CLASS_COUNT && 0 <= b < CLASS_COUNT ==> #[trigger] kernel_cell_valid(k, a, b)
}

fn u64_vec_eq(a: &Vec<u64>, b: &Vec<u64>) -> (r: bool)
    ensures
        r == (a@ == b@),
{
    if a.len() != b.len() {
        return false;
    }
    let mut i: usize = 0;
    while i < a.len()
        invariant
            a.len() == b.len(),
            i <= a.len(),
            forall|j: int| 0 <= j < i ==> a[j] == b[j],
        decreases a.len() - i,
    {
        if a[i] != b[i] {
            return false;
        }
        i += 1;
    }
    assert(a@ =~= b@);
    true
}

fn string_vec_eq(a: &Vec<String>, b: &Vec<String>) -> (r: bool)
    ensures
        r == (labels_of(a@) == labels_of(b@)),
{
    if a.len() != b.len() {
        assert(labels_of(a@).len() != labels_of(b@).len());
        return false;
    }
    let mut i: usize = 0;
    while i < a.len()
        invariant
            a.len() == b.len(),
            i <= a.len(),
            forall|j: int| 0 <= j < i ==> a[j]@ == b[j]@,
        decreases a.len() - i,
    {
        if !str_eq(a[i].as_str(), b[i].as_str()) {
            assert(labels_of(a@)[i as int] != labels_of(b@)[i as int]);
            return false;
        }
        i += 1;
    }
    assert(labels_of(a@) =~= labels_of(b@));
    true
}

impl ExactCheckdown {
    /// Checks that this kernel is complete and agrees with the exact class
    /// accounting: schema, every canonical flop, every class in order, class
    /// multiplicities, card-disjoint pair counts, and zero-sum win units.
    pub fn validate(&self) -> (r: Result<(), String>)
        ensures
            r is Ok <==> kernel_valid(*self),
            !kernel_header_valid(*self) ==> (r matches Err(e) && e@ == "incomplete or incompatible exact preflop checkdown kernel"@),
            kernel_header_valid(*self) && !kernel_valid(*self) ==> (r matches Err(e) && e@
                == "exact kernel card-removal/orbit/zero-sum count mismatch"@),
    {
        let tables = class_tables();
        proof {
            lemma_tables_list_is_canonical(tables);
        }
        let schema_ok = str_eq(self.schema.as_str(), "exact-preflop-checkdown-class-kernel-v1");
        let classes_ok = string_vec_eq(&self.classes, &tables.labels);
        proof {
            if is_canonical_class_list(labels_of(self.classes@)) {
                law_canonical_class_list_unique(labels_of(self.classes@), labels_of(tables.labels@));
            }
        }
        let multiplicities_ok = u64_vec_eq(&self.class_multiplicities, &tables.multiplicities);
        let pairs_ok = u64_vec_eq(&self.compatible_pairs, &tables.compatible_pairs);
        if !schema_ok || !self.complete || self.canonical_flops != 1755 || self.raw_flops != 22100
            || !classes_ok || !multiplicities_ok || !pairs_ok
            || self.weighted_flop_pairs.len() != CLASS_COUNT * CLASS_COUNT
            || self.weighted_win_units.len() != CLASS_COUNT * CLASS_COUNT {
            proof {
                if kernel_header_valid(*self) {
                    law_canonical_class_list_unique(labels_of(self.classes@), labels_of(tables.labels@));
                    assert forall|c: int| 0 <= c < CLASS_COUNT implies self.class_multiplicities[c] == tables.multiplicities[c] by {
                        assert(self.classes[c]@ == labels_of(self.classes@)[c]);
                        assert(tables.labels[c]@ == labels_of(tables.labels@)[c]);
                    }
                    assert(self.class_multiplicities@ =~= tables.multiplicities@);
                    assert forall|x: int| 0 <= x < CLASS_COUNT * CLASS_COUNT implies self.compatible_pairs[x] == tables.compatible_pairs[x] by {
                        let a = x / 169;
                        let b = x % 169;
                        assert(x == cell(a, b));
                        assert(self.classes[a]@ == labels_of(self.classes@)[a]);
                        assert(tables.labels[a]@ == labels_of(tables.labels@)[a]);
                        assert(self.classes[b]@ == labels_of(self.classes@)[b]);
                        assert(tables.labels[b]@ == labels_of(tables.labels@)[b]);
                    }
                    assert(self.compatible_pairs@ =~= tables.compatible_pairs@);
                    reveal_strlit("exact-preflop-checkdown-class-kernel-v1");
                }
            }
            return Err(String::from_str("incomplete or incompatible exact preflop checkdown kernel"));
        }
        proof {
            reveal_strlit("exact-preflop-checkdown-class-kernel-v1");
            assert forall|c: int| 0 <= c < CLASS_COUNT implies #[trigger] self.class_multiplicities[c] == label_count(self.classes[c]@, COMBO_COUNT as int) by {
                assert(self.classes[c]@ == labels_of(self.classes@)[c]);
                assert(tables.labels[c]@ == labels_of(tables.labels@)[c]);
            }
            assert forall|a: int, b: int| 0 <= a < CLASS_COUNT && 0 <= b < CLASS_COUNT implies #[trigger] self.compatible_pairs[cell(a, b)]
                == disjoint_pairs(self.classes[a]@, self.classes[b]@, COMBO_COUNT as int) by {
                assert(self.classes[a]@ == labels_of(self.classes@)[a]);
                assert(tables.labels[a]@ == labels_of(tables.labels@)[a]);
                assert(self.classes[b]@ == labels_of(self.classes@)[b]);
                assert(tables.labels[b]@ == labels_of(tables.labels@)[b]);
            }
            assert(kernel_header_valid(*self));
        }
        let mut a: usize = 0;
        while a < CLASS_COUNT
            invariant
                a <= CLASS_COUNT,
                kernel_header_valid(*self),
                self.compatible_pairs@ == tables.compatible_pairs@,
                forall|x: int, y: int| 0 <= x < a && 0 <= y < CLASS_COUNT ==> #[trigger] kernel_cell_valid(*self, x, y),
            decreases CLASS_COUNT - a,
        {
            let mut b: usize = 0;
            while b < CLASS_COUNT
                invariant
                    a < CLASS_COUNT,
                    b <= CLASS_COUNT,
                    kernel_header_valid(*self),
                    self.compatible_pairs@ == tables.compatible_pairs@,
                    forall|x: int, y: int| 0 <= x < a && 0 <= y < CLASS_COUNT ==> #[trigger] kernel_cell_valid(*self, x, y),
                    forall|y: int| 0 <= y < b ==> #[trigger] kernel_cell_valid(*self, a as int, y),
                decreases CLASS_COUNT - b,
            {
                let k = a * CLASS_COUNT + b;
                let mirror = b * CLASS_COUNT + a;
                assert(k == cell(a as int, b as int) && mirror == cell(b as int, a as int));
                let pairs = self.compatible_pairs[k];
                proof {
                    // A class pair holds at most all ordered combo pairs.
                    lemma_disjoint_pairs_bound(self.classes[a as int]@, self.classes[b as int]@, COMBO_COUNT as int);
                }
                let pair_flops = pairs * COMPATIBLE_FLOPS;
                let units = pair_flops * SHOWDOWN_UNITS;
                let win = self.weighted_win_units[k];
                let total = win.checked_add(self.weighted_win_units[mirror]);
                let total_ok = match total {
                    Some(t) => t == units,
                    None => false,
                };
                if self.weighted_flop_pairs[k] != pair_flops || win > units || !total_ok {
                    proof {
                        assert(!kernel_cell_valid(*self, a as int, b as int));
                    }
                    return Err(String::from_str("exact kernel card-removal/orbit/zero-sum count mismatch"));
                }
                b += 1;
            }
            a += 1;
        }
        Ok(())
    }
}

proof fn lemma_disjoint_row_bound(x: Seq<char>, y: Seq<char>, i: int, n: int)
    requires
        n >= 0,
    ensures
        disjoint_row(x, y, i, n) <= n,
    decreases n,
{
    if n > 0 {
        lemma_disjoint_row_bound(x, y, i, n - 1);
    }
}

proof fn lemma_disjoint_pairs_bound(x: Seq<char>, y: Seq<char>, n: int)
    requires
        n >= 0,
    ensures
        disjoint_pairs(x, y, n) <= n * COMBO_COUNT,
    decreases n,
{
    if n > 0 {
        lemma_disjoint_pairs_bound(x, y, n - 1);
        lemma_disjoint_row_bound(x, y, n - 1, COMBO_COUNT as int);
    }
}

} // verus!
