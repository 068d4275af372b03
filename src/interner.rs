//! A bidirectional string interner with dense 16-bit identifiers.

use vstd::hash_map::StringHashMap;
use vstd::prelude::*;

verus! {

/// The number of distinct strings that one table can hold (the 16-bit identifier space).
pub const MAX_ENTRIES: usize = 65536;

/// The table after interning `s`: unchanged if `s` is already there, else `s` appended.
pub open spec fn interned(t: Seq<Seq<char>>, s: Seq<char>) -> Seq<Seq<char>> {
    if t.contains(s) {
        t
    } else {
        t.push(s)
    }
}

/// The identifier that interning `s` into `t` hands out: its position in the new table.
pub open spec fn intern_id(t: Seq<Seq<char>>, s: Seq<char>) -> int {
    interned(t, s).index_of(s)
}

/// Whether interning `s` into `t` stays within the identifier space.
pub open spec fn has_room(t: Seq<Seq<char>>, s: Seq<char>) -> bool {
    t.contains(s) || t.len() < MAX_ENTRIES
}

/// What `resolve` answers for identifier `id`.
pub open spec fn resolved(t: Seq<Seq<char>>, id: int) -> Option<Seq<char>> {
    if 0 <= id < t.len() {
        Some(t[id])
    } else {
        None
    }
}

/// A well-formed table: no string twice, and within the identifier space.
pub open spec fn valid_table(t: Seq<Seq<char>>) -> bool {
    t.no_duplicates() && t.len() <= MAX_ENTRIES
}

/// Maps strings to dense identifiers, assigned in order of first sight from 0, and back.
pub struct PrimaryKeyMap {
    map: StringHashMap<u16>,
    reverse_map: Vec<String>,
}

impl View for PrimaryKeyMap {
    /// The interned strings, each at the position of its identifier.
    type V = Seq<Seq<char>>;

    closed spec fn view(&self) -> Seq<Seq<char>> {
        self.reverse_map@.map_values(|s: String| s@)
    }
}

impl PrimaryKeyMap {
    /// The lookup map and the list agree: each string maps to its position in the list.
    pub closed spec fn wf(&self) -> bool {
        &&& valid_table(self@)
        &&& forall|k: Seq<char>| #[trigger]
            self.map@.contains_key(k) ==> 0 <= self.map@[k] < self@.len() && self@[self.map@[k] as int]
                == k
        &&& forall|i: int|
            0 <= i < self@.len() ==> #[trigger] self.map@.contains_key(self@[i])
                && self.map@[self@[i]] == i
    }

    /// A well-formed table holds each string at most once.
    pub proof fn lemma_valid(&self)
        requires
            self.wf(),
        ensures
            valid_table(self@),
    {
    }

    /// An empty table.
    pub fn new() -> (r: PrimaryKeyMap)
        ensures
            r.wf(),
            r@ == Seq::<Seq<char>>::empty(),
    {
        let r = PrimaryKeyMap { map: StringHashMap::new(), reverse_map: Vec::new() };
        assert(r@ =~= Seq::<Seq<char>>::empty());
        r
    }

    /// The number of strings interned so far.
    pub fn len(&self) -> (r: usize)
        requires
            self.wf(),
        ensures
            r == self@.len(),
    {
        self.reverse_map.len()
    }

    /// Whether `key` has been interned already.
    pub fn contains(&self, key: &str) -> (r: bool)
        requires
            self.wf(),
        ensures
            r == self@.contains(key@),
    {
        let r = self.map.contains_key(key);
        proof {
            if self@.contains(key@) {
                let i = choose|i: int| 0 <= i < self@.len() && self@[i] == key@;
                assert(self.map@.contains_key(self@[i]));
            }
        }
        r
    }

    /// The identifier of `key`, interning it first if it is new.
    pub fn key_for_value(&mut self, key: &str) -> (r: u16)
        requires
            old(self).wf(),
            has_room(old(self)@, key@),
        ensures
            final(self).wf(),
            final(self)@ == interned(old(self)@, key@),
            r == intern_id(old(self)@, key@),
            final(self)@[r as int] == key@,
    {
        match self.map.get(key) {
            Some(value) => {
                let v = *value;
                proof {
                    assert(self@.contains(key@));
                    lemma_index_of_unique(self@, key@, v as int);
                }
                v
            },
            None => {
                proof {
                    if self@.contains(key@) {
                        let i = choose|i: int| 0 <= i < self@.len() && self@[i] == key@;
                        assert(self.map@.contains_key(self@[i]));
                    }
                }
                let new_value = self.reverse_map.len() as u16;
                let ghost t0 = self@;
                self.map.insert(key.to_owned(), new_value);
                self.reverse_map.push(key.to_owned());
                proof {
                    assert(self@ =~= t0.push(key@));
                    lemma_index_of_unique(self@, key@, new_value as int);
                    assert forall|k: Seq<char>| #[trigger]
                        self.map@.contains_key(k) implies 0 <= self.map@[k] < self@.len()
                        && self@[self.map@[k] as int] == k by {
                        if k != key@ {
                            assert(self@[self.map@[k] as int] == t0[self.map@[k] as int]);
                        }
                    }
                    assert forall|i: int| 0 <= i < self@.len() implies #[trigger] self.map@.contains_key(self@[i])
                        && self.map@[self@[i]] == i by {
                        if i < t0.len() {
                            assert(self@[i] == t0[i]);
                            assert(t0[i] != key@);
                        }
                    }
                }
                new_value
            },
        }
    }

    /// The string with identifier `key`, if there is one.
    pub fn value_for_key(&self, key: u16) -> (r: Option<&String>)
        requires
            self.wf(),
        ensures
            match r {
                Some(s) => resolved(self@, key as int) == Some(s@),
                None => resolved(self@, key as int) is None,
            },
    {
        if (key as usize) < self.reverse_map.len() {
            Some(&self.reverse_map[key as usize])
        } else {
            None
        }
    }
}

/// In a table without duplicates, the position of an element is the one it occupies.
pub proof fn lemma_index_of_unique(t: Seq<Seq<char>>, s: Seq<char>, i: int)
    requires
        t.no_duplicates(),
        0 <= i < t.len(),
        t[i] == s,
    ensures
        t.index_of(s) == i,
{
    assert(t.contains(s));
}

/// Interning keeps what was there, keeps the table valid, and places the string.
pub proof fn lemma_interned(t: Seq<Seq<char>>, s: Seq<char>)
    requires
        valid_table(t),
        has_room(t, s),
    ensures
        valid_table(interned(t, s)),
        interned(t, s).len() >= t.len(),
        forall|i: int| 0 <= i < t.len() ==> #[trigger] interned(t, s)[i] == t[i],
        interned(t, s).contains(s),
        0 <= intern_id(t, s) < interned(t, s).len(),
        interned(t, s)[intern_id(t, s)] == s,
{
    if !t.contains(s) {
        assert(interned(t, s)[t.len() as int] == s);
    }
}

/// Interning round trip: resolving the identifier that interning hands out gives the
/// string back; two different strings get different identifiers; and interning a string
/// again hands out the same identifier and leaves the table as it was.
pub proof fn lemma_intern_round_trip(t: Seq<Seq<char>>, s1: Seq<char>, s2: Seq<char>)
    requires
        valid_table(t),
        has_room(t, s1),
        has_room(interned(t, s1), s2),
    ensures
        resolved(interned(t, s1), intern_id(t, s1)) == Some(s1),
        s1 != s2 ==> intern_id(t, s1) != intern_id(interned(t, s1), s2),
        interned(interned(t, s1), s1) == interned(t, s1),
        intern_id(interned(t, s1), s1) == intern_id(t, s1),
{
    let t1 = interned(t, s1);
    lemma_interned(t, s1);
    lemma_interned(t1, s2);
    let i1 = intern_id(t, s1);
    assert(interned(t1, s2)[i1] == s1);
}

} // verus!
