//! The orders of strings, byte strings and lists of strings that Rust's
//! derived orderings use: lexicographic, a proper prefix first.
use vstd::prelude::*;
use vstd::string::StrSliceExecFns;
use crate::text::texts;

verus! {

/// Lexicographic order of code-point sequences (the order of `str`).
pub open spec fn text_before(a: Seq<char>, b: Seq<char>) -> bool
    decreases a.len(),
{
    if b.len() == 0 {
        false
    } else if a.len() == 0 {
        true
    } else if (a[0] as int) < (b[0] as int) {
        true
    } else if a[0] == b[0] {
        text_before(a.drop_first(), b.drop_first())
    } else {
        false
    }
}

/// Lexicographic order of byte sequences (the order of `[u8]`).
pub open spec fn bytes_before(a: Seq<u8>, b: Seq<u8>) -> bool
    decreases a.len(),
{
    if b.len() == 0 {
        false
    } else if a.len() == 0 {
        true
    } else if a[0] < b[0] {
        true
    } else if a[0] == b[0] {
        bytes_before(a.drop_first(), b.drop_first())
    } else {
        false
    }
}

/// Lexicographic order of lists of strings (the order of `[String]`).
pub open spec fn texts_before(a: Seq<Seq<char>>, b: Seq<Seq<char>>) -> bool
    decreases a.len(),
{
    if b.len() == 0 {
        false
    } else if a.len() == 0 {
        true
    } else if text_before(a[0], b[0]) {
        true
    } else if a[0] == b[0] {
        texts_before(a.drop_first(), b.drop_first())
    } else {
        false
    }
}

/// `text_before` is a strict total order.
pub proof fn lemma_text_order(a: Seq<char>, b: Seq<char>, c: Seq<char>)
    ensures
        !text_before(a, a),
        text_before(a, b) && text_before(b, c) ==> text_before(a, c),
        a != b ==> text_before(a, b) || text_before(b, a),
    decreases a.len(),
{
    if a.len() > 0 {
        if b.len() > 0 && c.len() > 0 {
            lemma_text_order(a.drop_first(), b.drop_first(), c.drop_first());
        } else if b.len() > 0 {
            lemma_text_order(a.drop_first(), b.drop_first(), b.drop_first());
        } else {
            lemma_text_order(a.drop_first(), a.drop_first(), a.drop_first());
        }
        if b.len() > 0 && a[0] == b[0] && a != b {
            assert(a =~= seq![a[0]] + a.drop_first());
            assert(b =~= seq![b[0]] + b.drop_first());
        }
    } else if b.len() == 0 {
        assert(a =~= b);
    }
}

/// `bytes_before` is a strict total order.
pub proof fn lemma_bytes_order(a: Seq<u8>, b: Seq<u8>, c: Seq<u8>)
    ensures
        !bytes_before(a, a),
        bytes_before(a, b) && bytes_before(b, c) ==> bytes_before(a, c),
        a != b ==> bytes_before(a, b) || bytes_before(b, a),
    decreases a.len(),
{
    if a.len() > 0 {
        if b.len() > 0 && c.len() > 0 {
            lemma_bytes_order(a.drop_first(), b.drop_first(), c.drop_first());
        } else if b.len() > 0 {
            lemma_bytes_order(a.drop_first(), b.drop_first(), b.drop_first());
        } else {
            lemma_bytes_order(a.drop_first(), a.drop_first(), a.drop_first());
        }
        if b.len() > 0 && a[0] == b[0] && a != b {
            assert(a =~= seq![a[0]] + a.drop_first());
            assert(b =~= seq![b[0]] + b.drop_first());
        }
    } else if b.len() == 0 {
        assert(a =~= b);
    }
}

/// `texts_before` is a strict total order.
pub proof fn lemma_texts_order(a: Seq<Seq<char>>, b: Seq<Seq<char>>, c: Seq<Seq<char>>)
    ensures
        !texts_before(a, a),
        texts_before(a, b) && texts_before(b, c) ==> texts_before(a, c),
        a != b ==> texts_before(a, b) || texts_before(b, a),
    decreases a.len(),
{
    if a.len() > 0 {
        lemma_text_order(a[0], a[0], a[0]);
        if b.len() > 0 && c.len() > 0 {
            lemma_texts_order(a.drop_first(), b.drop_first(), c.drop_first());
            lemma_text_order(a[0], b[0], c[0]);
        } else if b.len() > 0 {
            lemma_texts_order(a.drop_first(), b.drop_first(), b.drop_first());
            lemma_text_order(a[0], b[0], b[0]);
        } else {
            lemma_texts_order(a.drop_first(), a.drop_first(), a.drop_first());
        }
        if b.len() > 0 && a[0] == b[0] && a != b {
            assert(a =~= seq![a[0]] + a.drop_first());
            assert(b =~= seq![b[0]] + b.drop_first());
        }
    } else if b.len() == 0 {
        assert(a =~= b);
    }
}

proof fn lemma_text_skip(a: Seq<char>, b: Seq<char>, i: int)
    requires
        0 <= i <= a.len(),
        i <= b.len(),
        a.take(i) == b.take(i),
    ensures
        text_before(a, b) == text_before(a.skip(i), b.skip(i)),
    decreases i,
{
    if i > 0 {
        assert(a.take(i)[0] == a[0] && b.take(i)[0] == b[0]);
        assert(a.drop_first().take(i - 1) =~= a.take(i).drop_first());
        assert(b.drop_first().take(i - 1) =~= b.take(i).drop_first());
        lemma_text_skip(a.drop_first(), b.drop_first(), i - 1);
        assert(a.drop_first().skip(i - 1) =~= a.skip(i));
        assert(b.drop_first().skip(i - 1) =~= b.skip(i));
    } else {
        assert(a.skip(0) =~= a);
        assert(b.skip(0) =~= b);
    }
}

proof fn lemma_bytes_skip(a: Seq<u8>, b: Seq<u8>, i: int)
    requires
        0 <= i <= a.len(),
        i <= b.len(),
        a.take(i) == b.take(i),
    ensures
        bytes_before(a, b) == bytes_before(a.skip(i), b.skip(i)),
    decreases i,
{
    if i > 0 {
        assert(a.take(i)[0] == a[0] && b.take(i)[0] == b[0]);
        assert(a.drop_first().take(i - 1) =~= a.take(i).drop_first());
        assert(b.drop_first().take(i - 1) =~= b.take(i).drop_first());
        lemma_bytes_skip(a.drop_first(), b.drop_first(), i - 1);
        assert(a.drop_first().skip(i - 1) =~= a.skip(i));
        assert(b.drop_first().skip(i - 1) =~= b.skip(i));
    } else {
        assert(a.skip(0) =~= a);
        assert(b.skip(0) =~= b);
    }
}

proof fn lemma_texts_skip(a: Seq<Seq<char>>, b: Seq<Seq<char>>, i: int)
    requires
        0 <= i <= a.len(),
        i <= b.len(),
        a.take(i) == b.take(i),
    ensures
        texts_before(a, b) == texts_before(a.skip(i), b.skip(i)),
    decreases i,
{
    if i > 0 {
        assert(a.take(i)[0] == a[0] && b.take(i)[0] == b[0]);
        lemma_text_order(a[0], a[0], a[0]);
        assert(a.drop_first().take(i - 1) =~= a.take(i).drop_first());
        assert(b.drop_first().take(i - 1) =~= b.take(i).drop_first());
        lemma_texts_skip(a.drop_first(), b.drop_first(), i - 1);
        assert(a.drop_first().skip(i - 1) =~= a.skip(i));
        assert(b.drop_first().skip(i - 1) =~= b.skip(i));
    } else {
        assert(a.skip(0) =~= a);
        assert(b.skip(0) =~= b);
    }
}

/// A three-way comparison: -1, 0 or 1 as `a` comes before, equals or
/// comes after `b`.
pub open spec fn three_way(r: i8, before: bool, equal: bool, after: bool) -> bool {
    &&& (r == -1) == before
    &&& (r == 0) == equal
    &&& (r == 1) == after
}

/// Compare two strings in `str` order.
pub fn compare_text(a: &str, b: &str) -> (r: i8)
    ensures
        three_way(r, text_before(a@, b@), a@ == b@, text_before(b@, a@)),
{
    proof {
        lemma_text_order(a@, b@, a@);
        lemma_text_order(b@, a@, b@);
    }
    let na = a.unicode_len();
    let nb = b.unicode_len();
    let mut i: usize = 0;
    while i < na && i < nb
        invariant
            na == a@.len(),
            nb == b@.len(),
            i <= na && i <= nb,
            a@.take(i as int) == b@.take(i as int),
        decreases na - i,
    {
        let ca = a.get_char(i);
        let cb = b.get_char(i);
        proof {
            lemma_text_skip(a@, b@, i as int);
            lemma_text_skip(b@, a@, i as int);
            assert(a@.skip(i as int)[0] == ca && b@.skip(i as int)[0] == cb);
        }
        if (ca as u32) < (cb as u32) {
            return -1;
        }
        if (cb as u32) < (ca as u32) {
            return 1;
        }
        proof {
            assert(a@.take(i as int + 1) =~= a@.take(i as int).push(ca));
            assert(b@.take(i as int + 1) =~= b@.take(i as int).push(cb));
        }
        i += 1;
    }
    proof {
        lemma_text_skip(a@, b@, i as int);
        lemma_text_skip(b@, a@, i as int);
    }
    if na == nb {
        proof {
            assert(a@ =~= a@.take(i as int));
            assert(b@ =~= b@.take(i as int));
        }
        0
    } else if na < nb {
        -1
    } else {
        1
    }
}

/// Compare two byte strings in `[u8]` order.
pub fn compare_bytes(a: &Vec<u8>, b: &Vec<u8>) -> (r: i8)
    ensures
        three_way(r, bytes_before(a@, b@), a@ == b@, bytes_before(b@, a@)),
{
    proof {
        lemma_bytes_order(a@, b@, a@);
        lemma_bytes_order(b@, a@, b@);
    }
    let na = a.len();
    let nb = b.len();
    let mut i: usize = 0;
    while i < na && i < nb
        invariant
            na == a@.len(),
            nb == b@.len(),
            i <= na && i <= nb,
            a@.take(i as int) == b@.take(i as int),
        decreases na - i,
    {
        proof {
            lemma_bytes_skip(a@, b@, i as int);
            lemma_bytes_skip(b@, a@, i as int);
            assert(a@.skip(i as int)[0] == a@[i as int] && b@.skip(i as int)[0] == b@[i as int]);
        }
        if a[i] < b[i] {
            return -1;
        }
        if b[i] < a[i] {
            return 1;
        }
        proof {
            assert(a@.take(i as int + 1) =~= a@.take(i as int).push(a@[i as int]));
            assert(b@.take(i as int + 1) =~= b@.take(i as int).push(b@[i as int]));
        }
        i += 1;
    }
    proof {
        lemma_bytes_skip(a@, b@, i as int);
        lemma_bytes_skip(b@, a@, i as int);
    }
    if na == nb {
        proof {
            assert(a@ =~= a@.take(i as int));
            assert(b@ =~= b@.take(i as int));
        }
        0
    } else if na < nb {
        -1
    } else {
        1
    }
}

/// Compare two lists of strings in `[String]` order.
pub fn compare_texts(a: &Vec<String>, b: &Vec<String>) -> (r: i8)
    ensures
        three_way(r, texts_before(texts(a@), texts(b@)), texts(a@) == texts(b@), texts_before(texts(b@), texts(a@))),
{
    let ghost ta = texts(a@);
    let ghost tb = texts(b@);
    proof {
        lemma_texts_order(ta, tb, ta);
        lemma_texts_order(tb, ta, tb);
    }
    let na = a.len();
    let nb = b.len();
    let mut i: usize = 0;
    while i < na && i < nb
        invariant
            na == a@.len(),
            nb == b@.len(),
            ta == texts(a@),
            tb == texts(b@),
            i <= na && i <= nb,
            ta.take(i as int) == tb.take(i as int),
        decreases na - i,
    {
        let sa: &str = a[i].as_str();
        let sb: &str = b[i].as_str();
        let c = compare_text(sa, sb);
        proof {
            assert(sa@ == a@[i as int]@ && sb@ == b@[i as int]@);
            assert(ta[i as int] == sa@ && tb[i as int] == sb@);
            lemma_text_order(sa@, sb@, sa@);
            lemma_texts_skip(ta, tb, i as int);
            lemma_texts_skip(tb, ta, i as int);
            assert(ta.skip(i as int)[0] == a@[i as int]@ && tb.skip(i as int)[0] == b@[i as int]@);
        }
        if c == -1 {
            return -1;
        }
        if c == 1 {
            return 1;
        }
        proof {
            assert(ta.take(i as int + 1) =~= ta.take(i as int).push(a@[i as int]@));
            assert(tb.take(i as int + 1) =~= tb.take(i as int).push(b@[i as int]@));
        }
        i += 1;
    }
    proof {
        lemma_texts_skip(ta, tb, i as int);
        lemma_texts_skip(tb, ta, i as int);
    }
    if na == nb {
        proof {
            assert(ta =~= ta.take(i as int));
            assert(tb =~= tb.take(i as int));
        }
        0
    } else if na < nb {
        -1
    } else {
        1
    }
}

} // verus!
