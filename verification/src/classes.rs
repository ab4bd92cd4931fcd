//! The 169 preflop hand classes: their labels in string order, the class
//! of every exact combo, and how many combos each class holds.
use vstd::prelude::*;
use crate::cards::{Combo, all_combos, law_combo_index_is_bijective, COMBO_COUNT, class_label, class_label_string, combo_index, combo_label, rank_char};
use crate::flop::{Triple, lex_lt};
use crate::text::push_text;
use vstd::string::StringExecFns;

verus! {

/// Number of preflop hand classes: 13 pairs, 78 suited and 78 offsuit.
pub const CLASS_COUNT: usize = 169;

/// Ranks in the order of their label characters (`2`-`9`, `A`, `J`, `K`, `Q`, `T`).
pub const RANKS_BY_CHARACTER: [u8; 13] = [0, 1, 2, 3, 4, 5, 6, 7, 12, 9, 11, 10, 8];

/// Strict lexicographic order of character sequences (string order).
pub open spec fn char_seq_lt(a: Seq<char>, b: Seq<char>) -> bool
    decreases a.len(),
{
    if b.len() == 0 {
        false
    } else if a.len() == 0 {
        true
    } else if (a[0] as int) < (b[0] as int) {
        true
    } else if a[0] == b[0] {
        char_seq_lt(a.drop_first(), b.drop_first())
    } else {
        false
    }
}

/// Position of a rank in `RANKS_BY_CHARACTER`.
pub open spec fn character_position(rank: int) -> int {
    if rank == 12 {
        8
    } else if rank == 9 {
        9
    } else if rank == 11 {
        10
    } else if rank == 10 {
        11
    } else if rank == 8 {
        12
    } else {
        rank
    }
}

/// The characters of a two- or three-character class label as numbers (a missing third as zero).
pub open spec fn label_key(s: Seq<char>) -> Triple {
    (s[0] as int, s[1] as int, if s.len() > 2 { s[2] as int } else { 0 })
}

/// The slot of the class with ranks `(high, low)` and suitedness in a table indexed by both ranks.
pub open spec fn class_slot(high: int, low: int, suited: bool) -> int {
    (high * 13 + low) * 2 + if suited { 1int } else { 0int }
}

/// Labels pushed for rank `a` while scanning the first `j` character positions.
pub open spec fn row_count(a: int, j: int) -> int
    decreases j,
{
    if j <= 0 {
        0
    } else {
        let b = RANKS_BY_CHARACTER[j - 1] as int;
        row_count(a, j - 1) + if b < a { 2int } else if b == a { 1int } else { 0int }
    }
}

/// Labels pushed after scanning the first `i` rows.
pub open spec fn table_count(i: int) -> int
    decreases i,
{
    if i <= 0 {
        0
    } else {
        table_count(i - 1) + row_count(RANKS_BY_CHARACTER[i - 1] as int, 13)
    }
}

proof fn lemma_table_count()
    ensures
        table_count(13) == 169,
{
    reveal_with_fuel(row_count, 14);
    reveal_with_fuel(table_count, 14);
    assert(row_count(0, 13) == 1);
    assert(row_count(1, 13) == 3);
    assert(row_count(2, 13) == 5);
    assert(row_count(3, 13) == 7);
    assert(row_count(4, 13) == 9);
    assert(row_count(5, 13) == 11);
    assert(row_count(6, 13) == 13);
    assert(row_count(7, 13) == 15);
    assert(row_count(8, 13) == 17);
    assert(row_count(9, 13) == 19);
    assert(row_count(10, 13) == 21);
    assert(row_count(11, 13) == 23);
    assert(row_count(12, 13) == 25);
}

/// For labels (two or three characters, all nonzero) string order is the
/// lexicographic order of their character codes.
pub proof fn lemma_label_order(a: Seq<char>, b: Seq<char>)
    requires
        2 <= a.len() <= 3,
        2 <= b.len() <= 3,
        forall|i: int| 0 <= i < a.len() ==> (a[i] as int) > 0,
        forall|i: int| 0 <= i < b.len() ==> (b[i] as int) > 0,
    ensures
        char_seq_lt(a, b) <==> lex_lt(label_key(a), label_key(b)),
{
    reveal_with_fuel(char_seq_lt, 4);
    let a1 = a.drop_first();
    let b1 = b.drop_first();
    let a2 = a1.drop_first();
    let b2 = b1.drop_first();
    assert(a1[0] == a[1] && b1[0] == b[1]);
    if a2.len() > 0 {
        assert(a2[0] == a[2]);
    }
    if b2.len() > 0 {
        assert(b2[0] == b[2]);
    }
}

proof fn lemma_rank_codes()
    ensures
        forall|r: int| 0 <= r < 13 ==> (#[trigger] rank_char(r) as int) > 0,
        forall|p: int, q: int|
            0 <= p < q < 13 ==> (rank_char(RANKS_BY_CHARACTER[p] as int) as int) < (rank_char(
                RANKS_BY_CHARACTER[q] as int,
            ) as int),
        forall|r: int| 0 <= r < 13 ==> 0 <= #[trigger] character_position(r) < 13 && RANKS_BY_CHARACTER[character_position(r)] == r,
        forall|p: int| 0 <= p < 13 ==> #[trigger] RANKS_BY_CHARACTER[p] < 13 && character_position(RANKS_BY_CHARACTER[p] as int) == p,
        ('o' as int) < ('s' as int),
        ('o' as int) > 0,
{
}

/// The hand classes and the class of every exact combo.
pub struct Classes {
    /// Distinct class labels in string order.
    pub labels: Vec<String>,
    /// `index[key]` is the position in `labels` of the combo with that key.
    pub index: Vec<usize>,
    /// `counts[k]` is the number of combos in class `k`.
    pub counts: Vec<usize>,
}

/// Number of entries of `s` equal to `k`.
pub open spec fn count_equal(s: Seq<usize>, k: int) -> nat
    decreases s.len(),
{
    if s.len() == 0 {
        0
    } else {
        count_equal(s.drop_last(), k) + if s.last() as int == k { 1nat } else { 0nat }
    }
}

/// Whether some combo has this label.
pub open spec fn is_class_label(s: Seq<char>) -> bool {
    exists|c: Combo| c.wf() && combo_label(c) == s
}

/// Sorted distinct class labels, and the class of every combo by its key.
pub open spec fn classes_wf(labels: Seq<String>, index: Seq<usize>) -> bool {
    &&& labels.len() == CLASS_COUNT
    &&& forall|i: int, j: int| 0 <= i < j < labels.len() ==> char_seq_lt(labels[i]@, labels[j]@)
    &&& forall|k: int| 0 <= k < labels.len() ==> is_class_label(#[trigger] labels[k]@)
    &&& index.len() == COMBO_COUNT
    &&& forall|c: Combo|
        #![trigger combo_index(c.high as int, c.low as int)]
        c.wf() ==> {
            let k = index[combo_index(c.high as int, c.low as int)] as int;
            0 <= k < CLASS_COUNT && labels[k]@ == combo_label(c)
        }
}

/// Sorted distinct labels of all classes, plus a class slot for each
/// `(high rank, low rank, suited)` giving the label's position.
fn sorted_class_labels() -> (r: (Vec<String>, Vec<usize>))
    ensures
        r.0.len() == CLASS_COUNT,
        forall|i: int, j: int| 0 <= i < j < r.0.len() ==> char_seq_lt(r.0[i]@, r.0[j]@),
        forall|k: int| 0 <= k < r.0.len() ==> is_class_label(#[trigger] r.0[k]@),
        r.1.len() == 338,
        forall|h: int, l: int, s: bool|
            0 <= l <= h < 13 ==> {
                let k = #[trigger] r.1[class_slot(h, l, s)] as int;
                0 <= k < CLASS_COUNT && r.0[k]@ == class_label(h, l, s)
            },
{
    proof {
        lemma_rank_codes();
        lemma_table_count();
    }
    let order = RANKS_BY_CHARACTER;
    let mut labels: Vec<String> = Vec::new();
    let mut slots: Vec<usize> = vec![0; 338];
    let ghost mut keys: Seq<Triple> = Seq::empty();
    let mut i: usize = 0;
    while i < 13
        invariant
            i <= 13,
            order == RANKS_BY_CHARACTER,
            slots.len() == 338,
            labels.len() == keys.len(),
            labels.len() == table_count(i as int),
            forall|k: int| 0 <= k < labels.len() ==> keys[k] == label_key(#[trigger] labels[k]@),
            forall|k: int|
                0 <= k < labels.len() ==> is_class_label(#[trigger] labels[k]@) && 2 <= labels[k]@.len() <= 3
                    && forall|x: int| 0 <= x < labels[k]@.len() ==> (labels[k]@[x] as int) > 0,
            forall|a: int, b: int| 0 <= a < b < keys.len() ==> lex_lt(keys[a], keys[b]),
            i < 13 ==> forall|k: int| 0 <= k < keys.len() ==> keys[k].0 < (rank_char(order[i as int] as int) as int),
            forall|h: int, l: int, s: bool|
                0 <= l <= h < 13 && character_position(h) < i ==> {
                    let k = #[trigger] slots[class_slot(h, l, s)] as int;
                    0 <= k < labels.len() && labels[k]@ == class_label(h, l, s)
                },
        decreases 13 - i,
    {
        let a = order[i];
        let mut j: usize = 0;
        while j < 13
            invariant
                i < 13,
                j <= 13,
                a == order[i as int],
                order == RANKS_BY_CHARACTER,
                slots.len() == 338,
                labels.len() == keys.len(),
                labels.len() == table_count(i as int) + row_count(a as int, j as int),
                forall|k: int| 0 <= k < labels.len() ==> keys[k] == label_key(#[trigger] labels[k]@),
                forall|k: int|
                    0 <= k < labels.len() ==> is_class_label(#[trigger] labels[k]@) && 2 <= labels[k]@.len() <= 3
                        && forall|x: int| 0 <= x < labels[k]@.len() ==> (labels[k]@[x] as int) > 0,
                forall|x: int, y: int| 0 <= x < y < keys.len() ==> lex_lt(keys[x], keys[y]),
                forall|k: int|
                    0 <= k < keys.len() ==> keys[k].0 < (rank_char(a as int) as int) || (keys[k].0 == (rank_char(a as int) as int)
                        && (j < 13 ==> keys[k].1 < (rank_char(order[j as int] as int) as int))),
                forall|h: int, l: int, s: bool|
                    0 <= l <= h < 13 && (character_position(h) < i || (character_position(h) == i && character_position(l) < j)) ==> {
                        let k = #[trigger] slots[class_slot(h, l, s)] as int;
                        0 <= k < labels.len() && labels[k]@ == class_label(h, l, s)
                    },
            decreases 13 - j,
        {
            let b = order[j];
            let ghost old_len = labels.len();
            let ghost ca = rank_char(a as int) as int;
            let ghost cb = rank_char(b as int) as int;
            if b == a {
                let label = class_label_string(a, a, false);
                proof {
                    // A pair of the same rank in two suits.
                    let witness = Combo { high: (a * 4 + 1) as u8, low: (a * 4) as u8 };
                    assert(combo_label(witness) == class_label(a as int, a as int, false));
                    keys = keys.push(label_key(label@));
                }
                let position = labels.len();
                labels.push(label);
                slots.set(((a as usize) * 13 + a as usize) * 2, position);
                slots.set(((a as usize) * 13 + a as usize) * 2 + 1, position);
            } else if b < a {
                let offsuit = class_label_string(a, b, false);
                let suited = class_label_string(a, b, true);
                proof {
                    let o = Combo { high: (a * 4 + 1) as u8, low: (b * 4) as u8 };
                    assert(combo_label(o) == class_label(a as int, b as int, false));
                    let s = Combo { high: (a * 4) as u8, low: (b * 4) as u8 };
                    assert(combo_label(s) == class_label(a as int, b as int, true));
                    keys = keys.push(label_key(offsuit@)).push(label_key(suited@));
                }
                let position = labels.len();
                labels.push(offsuit);
                labels.push(suited);
                let suited_position = labels.len() - 1;
                slots.set(((a as usize) * 13 + b as usize) * 2, position);
                slots.set(((a as usize) * 13 + b as usize) * 2 + 1, suited_position);
            }
            proof {
                assert forall|h: int, l: int, s: bool|
                    0 <= l <= h < 13 && (character_position(h) < i || (character_position(h) == i
                        && character_position(l) < j + 1)) implies {
                        let k = #[trigger] slots[class_slot(h, l, s)] as int;
                        0 <= k < labels.len() && labels[k]@ == class_label(h, l, s)
                    } by {
                    if character_position(h) == i && character_position(l) == j {
                        assert(h == a && l == b);
                    } else {
                        assert(class_slot(h, l, s) != class_slot(a as int, b as int, false));
                        assert(class_slot(h, l, s) != class_slot(a as int, b as int, true));
                    }
                }
                if j + 1 < 13 {
                    assert((rank_char(order[j as int] as int) as int) < (rank_char(order[j + 1] as int) as int));
                }
            }
            j += 1;
        }
        proof {
            if i + 1 < 13 {
                assert((rank_char(order[i as int] as int) as int) < (rank_char(order[i + 1] as int) as int));
            }
        }
        i += 1;
    }
    proof {
        assert forall|x: int, y: int| 0 <= x < y < labels.len() implies char_seq_lt(labels[x]@, labels[y]@) by {
            lemma_label_order(labels[x]@, labels[y]@);
        }
    }
    (labels, slots)
}


proof fn lemma_count_equal_bound(s: Seq<usize>, k: int)
    ensures
        count_equal(s, k) <= s.len(),
    decreases s.len(),
{
    if s.len() > 0 {
        lemma_count_equal_bound(s.drop_last(), k);
    }
}

/// The class index of every combo, in key order.
fn combo_class_indices(slots: &Vec<usize>, Ghost(labels): Ghost<Seq<String>>) -> (index: Vec<usize>)
    requires
        slots.len() == 338,
        labels.len() == CLASS_COUNT,
        forall|h: int, l: int, s: bool|
            0 <= l <= h < 13 ==> {
                let k = #[trigger] slots[class_slot(h, l, s)] as int;
                0 <= k < CLASS_COUNT && labels[k]@ == class_label(h, l, s)
            },
    ensures
        index.len() == COMBO_COUNT,
        forall|i: int| 0 <= i < COMBO_COUNT ==> (#[trigger] index[i]) < CLASS_COUNT,
        forall|c: Combo|
            #![trigger combo_index(c.high as int, c.low as int)]
            c.wf() ==> {
                let k = index[combo_index(c.high as int, c.low as int)] as int;
                0 <= k < CLASS_COUNT && labels[k]@ == combo_label(c)
            },
{
    let combos = all_combos();
    let mut index: Vec<usize> = Vec::with_capacity(COMBO_COUNT);
    let mut c: usize = 0;
    while c < COMBO_COUNT
        invariant
            c <= COMBO_COUNT,
            index.len() == c,
            combos.len() == COMBO_COUNT,
            forall|i: int|
                0 <= i < COMBO_COUNT ==> (#[trigger] combos[i]).wf() && combo_index(
                    combos[i].high as int,
                    combos[i].low as int,
                ) == i,
            slots.len() == 338,
            forall|h: int, l: int, s: bool|
                0 <= l <= h < 13 ==> {
                    let k = #[trigger] slots[class_slot(h, l, s)] as int;
                    0 <= k < CLASS_COUNT && labels[k]@ == class_label(h, l, s)
                },
            forall|i: int|
                0 <= i < c ==> {
                    let k = #[trigger] index[i] as int;
                    0 <= k < CLASS_COUNT && labels[k]@ == combo_label(combos[i])
                },
        decreases COMBO_COUNT - c,
    {
        let combo = combos[c];
        let high = combo.high / 4;
        let low = combo.low / 4;
        let suited = combo.high % 4 == combo.low % 4;
        let slot = (high as usize * 13 + low as usize) * 2 + if suited { 1 } else { 0 };
        proof {
            assert(slot == class_slot(high as int, low as int, suited));
        }
        index.push(slots[slot]);
        c += 1;
    }
    proof {
        assert forall|x: Combo|
            #![trigger combo_index(x.high as int, x.low as int)]
            x.wf() implies {
                let k = index[combo_index(x.high as int, x.low as int)] as int;
                0 <= k < CLASS_COUNT && labels[k]@ == combo_label(x)
            } by {
            let i = combo_index(x.high as int, x.low as int);
            crate::cards::lemma_combo_index_bounds(x.high as int, x.low as int);
            let y = combos[i];
            law_combo_index_is_bijective(x.high as int, x.low as int, y.high as int, y.low as int);
            assert(y == x);
        }
    }
    index
}

impl Classes {
    /// Every class label in string order, the class of each combo, and the
    /// number of combos in each class.
    pub fn new() -> (classes: Classes)
        ensures
            classes_wf(classes.labels@, classes.index@),
            classes.counts.len() == CLASS_COUNT,
            forall|k: int| 0 <= k < CLASS_COUNT ==> classes.counts[k] == count_equal(classes.index@, k),
    {
        let (labels, slots) = sorted_class_labels();
        let index = combo_class_indices(&slots, Ghost(labels@));
        let mut counts: Vec<usize> = vec![0; CLASS_COUNT];
        let mut c: usize = 0;
        while c < COMBO_COUNT
            invariant
                c <= COMBO_COUNT,
                index.len() == COMBO_COUNT,
                forall|i: int| 0 <= i < COMBO_COUNT ==> (#[trigger] index[i]) < CLASS_COUNT,
                counts.len() == CLASS_COUNT,
                forall|k: int| 0 <= k < CLASS_COUNT ==> #[trigger] counts[k] == count_equal(index@.take(c as int), k),
            decreases COMBO_COUNT - c,
        {
            let k = index[c];
            proof {
                assert(index@.take(c as int + 1).drop_last() =~= index@.take(c as int));
                lemma_count_equal_bound(index@.take(c as int), k as int);
            }
            counts.set(k, counts[k] + 1);
            c += 1;
        }
        proof {
            assert(index@.take(COMBO_COUNT as int) =~= index@);
        }
        Classes { labels, index, counts }
    }
}

/// The preflop average sweeps one information set per hand class: the
/// keys `preflop:<class>` of every class label, in string order.
pub fn preflop_class_keys() -> (keys: Vec<String>)
    ensures
        keys.len() == CLASS_COUNT,
        forall|i: int, j: int| 0 <= i < j < keys.len() ==> char_seq_lt(keys[i]@.skip(8), keys[j]@.skip(8)),
        forall|k: int|
            0 <= k < keys.len() ==> (#[trigger] keys[k])@.take(8) == "preflop:"@ && is_class_label(keys[k]@.skip(8)),
        forall|c: Combo| c.wf() ==> exists|k: int| 0 <= k < keys.len() && (#[trigger] keys[k])@.skip(8) == combo_label(c),
{
    let classes = Classes::new();
    proof {
        reveal_strlit("preflop:");
    }
    let mut keys: Vec<String> = Vec::new();
    let mut k: usize = 0;
    while k < classes.labels.len()
        invariant
            k <= classes.labels@.len(),
            classes_wf(classes.labels@, classes.index@),
            keys.len() == k,
            forall|i: int| 0 <= i < k ==> (#[trigger] keys[i])@ == "preflop:"@ + classes.labels@[i]@,
        decreases classes.labels.len() - k,
    {
        let mut key = String::from_str("preflop:");
        push_text(&mut key, classes.labels[k].as_str());
        keys.push(key);
        k += 1;
    }
    proof {
        assert forall|i: int| 0 <= i < keys.len() implies (#[trigger] keys[i])@.skip(8) == classes.labels@[i]@ && keys[i]@.take(8) == "preflop:"@ by {
            assert(keys[i]@.skip(8) =~= classes.labels@[i]@);
            assert(keys[i]@.take(8) =~= "preflop:"@);
        }
        assert forall|c: Combo| c.wf() implies exists|k: int| 0 <= k < keys.len() && (#[trigger] keys[k])@.skip(8) == combo_label(c) by {
            let k = classes.index@[combo_index(c.high as int, c.low as int)] as int;
            assert(keys[k]@.skip(8) == classes.labels@[k]@);
        }
    }
    keys
}

} // verus!
