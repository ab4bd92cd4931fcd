//! Character-level string helpers.
use vstd::prelude::*;
use vstd::string::StrSliceExecFns;
use crate::cards::push_char;

verus! {

/// Whether two strings hold the same characters.
pub fn str_eq(a: &str, b: &str) -> (r: bool)
    ensures
        r == (a@ == b@),
{
    let n = a.unicode_len();
    if n != b.unicode_len() {
        return false;
    }
    let mut i: usize = 0;
    while i < n
        invariant
            n == a@.len(),
            n == b@.len(),
            i <= n,
            forall|j: int| 0 <= j < i ==> a@[j] == b@[j],
        decreases n - i,
    {
        if a.get_char(i) != b.get_char(i) {
            return false;
        }
        i += 1;
    }
    assert(a@ =~= b@);
    true
}

/// Appends the characters of `t` to `s`.
pub fn push_text(s: &mut String, t: &str)
    ensures
        final(s)@ == old(s)@ + t@,
{
    let n = t.unicode_len();
    let mut i: usize = 0;
    while i < n
        invariant
            n == t@.len(),
            i <= n,
            s@ == old(s)@ + t@.take(i as int),
        decreases n - i,
    {
        push_char(s, t.get_char(i));
        proof {
            assert(t@.take(i as int + 1) =~= t@.take(i as int).push(t@[i as int]));
        }
        i += 1;
    }
    proof {
        assert(t@.take(n as int) =~= t@);
    }
}

/// The parts joined by `separator`.
pub open spec fn joined(parts: Seq<Seq<char>>, separator: char) -> Seq<char>
    decreases parts.len(),
{
    if parts.len() == 0 {
        Seq::empty()
    } else if parts.len() == 1 {
        parts[0]
    } else {
        joined(parts.drop_last(), separator).push(separator) + parts.last()
    }
}

/// The characters of each string.
pub open spec fn texts(parts: Seq<String>) -> Seq<Seq<char>> {
    parts.map_values(|p: String| p@)
}

/// The strings joined by `separator`, as `[String]::join` does.
pub fn join_texts(parts: &[String], separator: char) -> (s: String)
    ensures
        s@ == joined(texts(parts@), separator),
{
    let mut s = String::new();
    let mut i: usize = 0;
    while i < parts.len()
        invariant
            i <= parts@.len(),
            s@ == joined(texts(parts@).take(i as int), separator),
        decreases parts.len() - i,
    {
        if i > 0 {
            push_char(&mut s, separator);
        }
        push_text(&mut s, parts[i].as_str());
        proof {
            let t = texts(parts@);
            assert(t.take(i as int + 1).drop_last() =~= t.take(i as int));
            if i == 0 {
                assert(s@ =~= t.take(1)[0]);
            }
        }
        i += 1;
    }
    proof {
        assert(texts(parts@).take(parts@.len() as int) =~= texts(parts@));
    }
    s
}

} // verus!
