//! Splitting text into fields and recognising prefixes.

use vstd::prelude::*;
use vstd::string::StrSliceExecFns;

verus! {

/// The pieces of `s` between occurrences of `sep`; there is always at least one.
pub open spec fn split_on(s: Seq<char>, sep: char) -> Seq<Seq<char>>
    decreases s.len(),
{
    if s.len() == 0 {
        seq![Seq::<char>::empty()]
    } else {
        let r = split_on(s.drop_last(), sep);
        if s.last() == sep {
            r.push(Seq::<char>::empty())
        } else {
            r.update(r.len() - 1, r.last().push(s.last()))
        }
    }
}

pub proof fn lemma_split_on_nonempty(s: Seq<char>, sep: char)
    ensures
        split_on(s, sep).len() >= 1,
    decreases s.len(),
{
    if s.len() > 0 {
        lemma_split_on_nonempty(s.drop_last(), sep);
    }
}

/// What each string of `v` holds.
pub open spec fn views(v: Seq<String>) -> Seq<Seq<char>> {
    v.map_values(|p: String| p@)
}

/// Relies on std's String::push: appends one character.
#[verifier::external_body]
pub(crate) fn push_char(s: &mut String, c: char)
    ensures
        final(s)@ == old(s)@.push(c),
{
    s.push(c)
}

/// The pieces of `s` between the occurrences of `sep`.
pub fn split_fields(s: &str, sep: char) -> (r: Vec<String>)
    ensures
        views(r@) == split_on(s@, sep),
{
    let mut done: Vec<String> = Vec::new();
    let mut cur = String::new();
    let ghost mut seen: Seq<char> = Seq::empty();
    for c in it: s.chars()
        invariant
            it.seq() == s@,
            seen == s@.subrange(0, it.index() as int),
            views(done@).push(cur@) == split_on(seen, sep),
    {
        proof {
            lemma_split_on_nonempty(seen, sep);
        }
        let ghost before = seen;
        proof {
            seen = seen.push(c);
            assert(seen.drop_last() =~= before);
        }
        if c == sep {
            done.push(cur);
            cur = String::new();
            assert(views(done@).push(cur@) =~= split_on(seen, sep));
        } else {
            push_char(&mut cur, c);
            assert(views(done@).push(cur@) =~= split_on(seen, sep));
        }
    }
    done.push(cur);
    assert(seen =~= s@);
    done
}


/// The position of the first `sep` in `s`, or the length of `s` where there is none.
pub open spec fn find(s: Seq<char>, sep: char) -> int {
    if s.contains(sep) {
        choose|i: int| 0 <= i < s.len() && s[i] == sep && forall|j: int| 0 <= j < i ==> s[j] != sep
    } else {
        s.len() as int
    }
}

/// What comes before the first `sep` (all of `s` where there is none).
pub open spec fn before(s: Seq<char>, sep: char) -> Seq<char> {
    s.subrange(0, find(s, sep))
}

/// What comes after the first `sep` (empty where there is none).
pub open spec fn after(s: Seq<char>, sep: char) -> Seq<char> {
    if s.contains(sep) {
        s.subrange(find(s, sep) + 1, s.len() as int)
    } else {
        Seq::empty()
    }
}

/// Whether `s` starts with `p`.
pub open spec fn starts_with(s: Seq<char>, p: Seq<char>) -> bool {
    p.len() <= s.len() && s.subrange(0, p.len() as int) == p
}

/// Splits `s` at its first `sep`: what comes before it, and what comes after it if
/// there is one.
pub fn split_once(s: &str, sep: char) -> (r: (&str, Option<&str>))
    ensures
        r.0@ == before(s@, sep),
        match r.1 {
            Some(rest) => s@.contains(sep) && rest@ == after(s@, sep),
            None => !s@.contains(sep),
        },
{
    let total = s.unicode_len();
    let mut pos: Option<usize> = None;
    let mut n: usize = 0;
    for c in it: s.chars()
        invariant
            it.seq() == s@,
            total == s@.len(),
            n == it.index(),
            match pos {
                Some(i) => i < n && s@[i as int] == sep && forall|j: int| 0 <= j < i ==> s@[j] != sep,
                None => forall|j: int| 0 <= j < n ==> s@[j] != sep,
            },
    {
        if pos.is_none() && c == sep {
            pos = Some(n);
        }
        n = n + 1;
    }
    match pos {
        Some(i) => {
            proof {
                let k = find(s@, sep);
                assert(s@.contains(sep));
                assert(k == i) by {
                    if k < i {
                        assert(s@[k] == sep);
                    } else if k > i {
                        assert(s@[i as int] == sep);
                    }
                }
            }
            (s.substring_char(0, i), Some(s.substring_char(i + 1, n)))
        },
        None => {
            assert(s@.subrange(0, s@.len() as int) =~= s@);
            (s, None)
        },
    }
}

/// Whether `s` starts with `p`.
pub fn has_prefix(s: &str, p: &str) -> (r: bool)
    ensures
        r == starts_with(s@, p@),
{
    let pl = p.unicode_len();
    let sl = s.unicode_len();
    if pl > sl {
        return false;
    }
    let mut i: usize = 0;
    while i < pl
        invariant
            pl == p@.len(),
            sl == s@.len(),
            pl <= sl,
            i <= pl,
            forall|j: int| 0 <= j < i ==> s@[j] == p@[j],
        decreases pl - i,
    {
        if s.get_char(i) != p.get_char(i) {
            assert(s@.subrange(0, pl as int)[i as int] != p@[i as int]);
            return false;
        }
        i = i + 1;
    }
    assert(s@.subrange(0, pl as int) =~= p@);
    true
}

} // verus!
