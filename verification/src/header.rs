//! The header mapping of one record.
//!
//! A record's header block is a list of `Name: Value` lines; names are
//! case-insensitive, and a later occurrence of a name overrides an earlier
//! one. [`HeaderMap`] stores the fields keyed by [`CaseString`] and denotes
//! a mathematical `Map` from folded names to values.

use vstd::prelude::*;

use crate::ascii::fold_seq;
use crate::case_string::CaseString;

verus! {

/// The mathematical mapping denoted by a list of header entries: entries
/// are inserted in list order, so a later entry with the same key
/// overrides an earlier one.
pub open spec fn entries_map(s: Seq<(CaseString, Vec<u8>)>) -> Map<Seq<u8>, Seq<u8>>
    decreases s.len(),
{
    if s.len() == 0 {
        Map::empty()
    } else {
        entries_map(s.drop_last()).insert(s.last().0@, s.last().1@)
    }
}

/// A mapping from case-folded header names to header values.
///
/// Keys are [`CaseString`]s, so a lookup never compares raw mixed-case
/// text; the view of a `HeaderMap` is the `Map` from folded names to
/// values.
#[derive(Debug)]
pub struct HeaderMap {
    entries: Vec<(CaseString, Vec<u8>)>,
}

impl View for HeaderMap {
    type V = Map<Seq<u8>, Seq<u8>>;

    closed spec fn view(&self) -> Map<Seq<u8>, Seq<u8>> {
        entries_map(self.entries@)
    }
}

/// The entry a raw, possibly mixed-case name denotes in a mapping keyed
/// by case-folded names.
pub open spec fn lookup(h: Map<Seq<u8>, Seq<u8>>, name: Seq<u8>) -> Option<Seq<u8>> {
    if h.dom().contains(fold_seq(name)) {
        Some(h[fold_seq(name)])
    } else {
        None
    }
}

/// Case-insensitive headers: two names that fold to the same key — in
/// particular, any two ASCII-case permutations of one name — denote the
/// same entry of every header mapping.
pub proof fn lemma_lookup_case_insensitive(h: Map<Seq<u8>, Seq<u8>>, a: Seq<u8>, b: Seq<u8>)
    requires
        fold_seq(a) == fold_seq(b),
    ensures
        lookup(h, a) == lookup(h, b),
{
}

/// No two entries of `s` share a key.
pub open spec fn distinct_keys(s: Seq<(CaseString, Vec<u8>)>) -> bool {
    forall|i: int, j: int|
        0 <= i < j < s.len() ==> (#[trigger] s[i]).0@ != (#[trigger] s[j]).0@
}

/// An entry's key is in the denoted map, and when keys are distinct the
/// entry's value is the mapped value.
proof fn lemma_entries_map_found(s: Seq<(CaseString, Vec<u8>)>, i: int)
    requires
        distinct_keys(s),
        0 <= i < s.len(),
    ensures
        entries_map(s).dom().contains(s[i].0@),
        entries_map(s)[s[i].0@] == s[i].1@,
    decreases s.len(),
{
    if i == s.len() - 1 {
    } else {
        assert(s.last().0@ != s[i].0@);
        assert(distinct_keys(s.drop_last())) by {
            assert(forall|k: int| 0 <= k < s.len() - 1 ==> s.drop_last()[k] == #[trigger] s[k]);
        }
        assert(s.drop_last()[i] == s[i]);
        lemma_entries_map_found(s.drop_last(), i);
    }
}

/// A key held by no entry is not in the denoted map.
proof fn lemma_entries_map_absent(s: Seq<(CaseString, Vec<u8>)>, k: Seq<u8>)
    requires
        forall|i: int| 0 <= i < s.len() ==> (#[trigger] s[i]).0@ != k,
    ensures
        !entries_map(s).dom().contains(k),
    decreases s.len(),
{
    if s.len() > 0 {
        assert(forall|i: int| 0 <= i < s.len() - 1 ==> s.drop_last()[i] == #[trigger] s[i]);
        lemma_entries_map_absent(s.drop_last(), k);
    }
}

/// Replacing the entry that holds key `k` by a new entry with the same key
/// denotes a plain map insertion.
proof fn lemma_entries_map_update(
    s: Seq<(CaseString, Vec<u8>)>,
    i: int,
    p: (CaseString, Vec<u8>),
)
    requires
        distinct_keys(s),
        0 <= i < s.len(),
        s[i].0@ == p.0@,
    ensures
        entries_map(s.update(i, p)) == entries_map(s).insert(p.0@, p.1@),
    decreases s.len(),
{
    let t = s.update(i, p);
    if i == s.len() - 1 {
        assert(t.drop_last() =~= s.drop_last());
        assert(t.last() == p);
        assert(entries_map(t) == entries_map(s.drop_last()).insert(p.0@, p.1@));
        assert(entries_map(s.drop_last()).insert(s.last().0@, s.last().1@).insert(p.0@, p.1@)
            =~= entries_map(s.drop_last()).insert(p.0@, p.1@));
    } else {
        assert(distinct_keys(s.drop_last())) by {
            assert(forall|k: int| 0 <= k < s.len() - 1 ==> s.drop_last()[k] == #[trigger] s[k]);
        }
        assert(s.drop_last()[i] == s[i]);
        lemma_entries_map_update(s.drop_last(), i, p);
        assert(t.drop_last() =~= s.drop_last().update(i, p));
        assert(t.last() == s.last());
        assert(s.last().0@ != p.0@);
        assert(entries_map(t) == entries_map(s.drop_last()).insert(p.0@, p.1@).insert(
            s.last().0@,
            s.last().1@,
        ));
        assert(entries_map(s.drop_last()).insert(p.0@, p.1@).insert(s.last().0@, s.last().1@)
            =~= entries_map(s.drop_last()).insert(s.last().0@, s.last().1@).insert(p.0@, p.1@));
    }
}

impl HeaderMap {
    /// Entries hold pairwise distinct keys, so a scan finds the one entry
    /// for a key.
    #[verifier::type_invariant]
    closed spec fn wf(self) -> bool {
        distinct_keys(self.entries@)
    }

    /// An empty mapping.
    pub fn new() -> (r: HeaderMap)
        ensures
            r@ == Map::<Seq<u8>, Seq<u8>>::empty(),
    {
        HeaderMap { entries: Vec::new() }
    }

    /// Look up the value stored under `key`.
    pub fn get(&self, key: &CaseString) -> (r: Option<&Vec<u8>>)
        ensures
            match r {
                Some(v) => self@.dom().contains(key@) && v@ == self@[key@],
                None => !self@.dom().contains(key@),
            },
    {
        proof {
            use_type_invariant(&*self);
        }
        let n = self.entries.len();
        let mut i: usize = 0;
        while i < n
            invariant
                distinct_keys(self.entries@),
                n == self.entries@.len(),
                i <= n,
                forall|j: int| 0 <= j < i ==> (#[trigger] self.entries@[j]).0@ != key@,
            decreases n - i,
        {
            let e = &self.entries[i];
            if e.0 == *key {
                proof {
                    lemma_entries_map_found(self.entries@, i as int);
                }
                return Some(&e.1);
            }
            i = i + 1;
        }
        proof {
            lemma_entries_map_absent(self.entries@, key@);
        }
        None
    }

    /// Store `value` under `key`; a value already stored under the same
    /// folded name is replaced.
    pub fn insert(&mut self, key: CaseString, value: Vec<u8>)
        ensures
            final(self)@ == old(self)@.insert(key@, value@),
    {
        proof {
            use_type_invariant(&*self);
        }
        let mut entries: Vec<(CaseString, Vec<u8>)> = Vec::new();
        core::mem::swap(&mut entries, &mut self.entries);
        let n = entries.len();
        let mut i: usize = 0;
        while i < n
            invariant
                distinct_keys(entries@),
                entries@ == old(self).entries@,
                n == entries@.len(),
                i <= n,
                forall|j: int| 0 <= j < i ==> (#[trigger] entries@[j]).0@ != key@,
            decreases n - i,
        {
            let found = entries[i].0 == key;
            if found {
                proof {
                    lemma_entries_map_update(entries@, i as int, (key, value));
                    assert(distinct_keys(entries@.update(i as int, (key, value)))) by {
                        assert(forall|j: int|
                            0 <= j < entries@.len() && j != i ==> entries@.update(
                                i as int,
                                (key, value),
                            )[j] == #[trigger] entries@[j]);
                    }
                }
                entries.set(i, (key, value));
                self.entries = entries;
                return;
            }
            i = i + 1;
        }
        proof {
            let ghost s = entries@;
            assert(s.push((key, value)).drop_last() =~= s);
            assert(distinct_keys(s.push((key, value)))) by {
                assert(forall|j: int| 0 <= j < s.len() ==> s.push((key, value))[j] == #[trigger] s[j]);
            }
        }
        entries.push((key, value));
        self.entries = entries;
    }
}

} // verus!
