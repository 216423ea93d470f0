//! A small string-keyed count table.
//!
//! `CountTable` backs both the counter store (current hit counts per key) and
//! a pocket's pending-decrement table. Its mathematical view is a
//! `Map<Seq<char>, u64>`; every operation states exactly how it transforms
//! that map.

use vstd::prelude::*;

verus! {

/// The map described by an association list, later entries winning.
/// With distinct keys (see [`distinct_keys`]) each entry is the map's value.
pub open spec fn assoc_map(s: Seq<(String, u64)>) -> Map<Seq<char>, u64>
    decreases s.len(),
{
    if s.len() == 0 {
        Map::empty()
    } else {
        assoc_map(s.drop_last()).insert(s.last().0@, s.last().1)
    }
}

/// No two entries share a key.
pub open spec fn distinct_keys(s: Seq<(String, u64)>) -> bool {
    forall|i: int, j: int| 0 <= i < j < s.len() ==> s[i].0@ != s[j].0@
}

/// `a - b`, clamped at zero. A decay never drives a counter negative.
pub open spec fn sat_sub(a: u64, b: u64) -> u64 {
    if a >= b {
        (a - b) as u64
    } else {
        0u64
    }
}

/// The value a key holds after one more hit: one more than before (clamped
/// at `u64::MAX`), or 1 if the key was absent.
pub open spec fn bumped(m: Map<Seq<char>, u64>, k: Seq<char>) -> u64 {
    if m.dom().contains(k) {
        if m[k] == u64::MAX {
            u64::MAX
        } else {
            (m[k] + 1) as u64
        }
    } else {
        1u64
    }
}

/// A key is in the association map exactly when some entry holds it.
pub proof fn lemma_assoc_map_contains(s: Seq<(String, u64)>, k: Seq<char>)
    ensures
        assoc_map(s).dom().contains(k) <==> exists|i: int| 0 <= i < s.len() && s[i].0@ == k,
    decreases s.len(),
{
    if s.len() > 0 {
        lemma_assoc_map_contains(s.drop_last(), k);
        if s.last().0@ == k {
            assert(s[s.len() - 1].0@ == k);
        } else if exists|i: int| 0 <= i < s.len() && s[i].0@ == k {
            let i = choose|i: int| 0 <= i < s.len() && s[i].0@ == k;
            assert(s.drop_last()[i] == s[i]);
        }
    }
}

/// With distinct keys, each entry gives its key's value in the map.
pub proof fn lemma_assoc_map_index(s: Seq<(String, u64)>, i: int)
    requires
        distinct_keys(s),
        0 <= i < s.len(),
    ensures
        assoc_map(s).dom().contains(s[i].0@),
        assoc_map(s)[s[i].0@] == s[i].1,
    decreases s.len(),
{
    if i < s.len() - 1 {
        assert(distinct_keys(s.drop_last()));
        assert(s.drop_last()[i] == s[i]);
        lemma_assoc_map_index(s.drop_last(), i);
        assert(s[i].0@ != s.last().0@);
    }
}

/// Updating entry `i`'s count updates its key in the map.
proof fn lemma_assoc_map_update(s: Seq<(String, u64)>, i: int, v: u64)
    requires
        distinct_keys(s),
        0 <= i < s.len(),
        s.update(i, (s[i].0, v))[i].0 == s[i].0,
    ensures
        assoc_map(s.update(i, (s[i].0, v))) == assoc_map(s).insert(s[i].0@, v),
    decreases s.len(),
{
    let t = s.update(i, (s[i].0, v));
    if i == s.len() - 1 {
        assert(t.drop_last() =~= s.drop_last());
        assert(assoc_map(t) =~= assoc_map(s).insert(s[i].0@, v));
    } else {
        assert(t.drop_last() =~= s.drop_last().update(i, (s[i].0, v)));
        assert(distinct_keys(s.drop_last()));
        assert(s.drop_last()[i] == s[i]);
        lemma_assoc_map_update(s.drop_last(), i, v);
        assert(s[i].0@ != s.last().0@);
        assert(assoc_map(t) =~= assoc_map(s).insert(s[i].0@, v));
    }
}

/// Removing entry `i` removes its key from the map.
proof fn lemma_assoc_map_remove(s: Seq<(String, u64)>, i: int)
    requires
        distinct_keys(s),
        0 <= i < s.len(),
    ensures
        assoc_map(s.remove(i)) == assoc_map(s).remove(s[i].0@),
    decreases s.len(),
{
    if i == s.len() - 1 {
        assert(s.remove(i) =~= s.drop_last());
        lemma_assoc_map_contains(s.drop_last(), s[i].0@);
        assert(forall|j: int|
            0 <= j < s.drop_last().len() ==> #[trigger] s.drop_last()[j].0@ != s[i].0@);
        assert(!assoc_map(s.drop_last()).dom().contains(s[i].0@));
        assert(assoc_map(s.remove(i)) =~= assoc_map(s).remove(s[i].0@));
    } else {
        assert(s.remove(i).drop_last() =~= s.drop_last().remove(i));
        assert(distinct_keys(s.drop_last()));
        assert(s.drop_last()[i] == s[i]);
        lemma_assoc_map_remove(s.drop_last(), i);
        assert(s[i].0@ != s.last().0@);
        assert(s.remove(i).last() == s.last());
        assert(assoc_map(s.remove(i)) =~= assoc_map(s).remove(s[i].0@));
    }
}

/// A string-keyed table of `u64` counts with distinct keys.
pub struct CountTable {
    pub entries: Vec<(String, u64)>,
}

impl View for CountTable {
    type V = Map<Seq<char>, u64>;

    open spec fn view(&self) -> Map<Seq<char>, u64> {
        assoc_map(self.entries@)
    }
}

impl CountTable {
    pub open spec fn wf(&self) -> bool {
        distinct_keys(self.entries@)
    }

    pub fn new() -> (r: Self)
        ensures
            r.wf(),
            r@ == Map::<Seq<char>, u64>::empty(),
            r.entries@.len() == 0,
    {
        CountTable { entries: Vec::new() }
    }

    /// The index of `name`'s entry, if one exists.
    fn find(&self, name: &str) -> (r: Option<usize>)
        ensures
            match r {
                Some(i) => i < self.entries@.len() && self.entries@[i as int].0@ == name@,
                None => forall|j: int|
                    0 <= j < self.entries@.len() ==> #[trigger] self.entries@[j].0@ != name@,
            },
    {
        let owned: String = name.to_owned();
        let n = self.entries.len();
        let mut i: usize = 0;
        while i < n
            invariant
                n == self.entries@.len(),
                i <= n,
                owned@ == name@,
                forall|j: int| 0 <= j < i ==> #[trigger] self.entries@[j].0@ != name@,
            decreases n - i,
        {
            if self.entries[i].0 == owned {
                return Some(i);
            }
            i = i + 1;
        }
        None
    }

    /// The current count for `name`, if the key is present.
    pub fn get(&self, name: &str) -> (r: Option<u64>)
        requires
            self.wf(),
        ensures
            match r {
                Some(v) => self@.dom().contains(name@) && self@[name@] == v,
                None => !self@.dom().contains(name@),
            },
    {
        proof {
            lemma_assoc_map_contains(self.entries@, name@);
        }
        match self.find(name) {
            Some(i) => {
                proof {
                    lemma_assoc_map_index(self.entries@, i as int);
                }
                Some(self.entries[i].1)
            },
            None => None,
        }
    }

    /// Record one hit: create the key at 1, or raise its count by one
    /// (clamped at `u64::MAX`).
    pub fn increment(&mut self, name: &str)
        requires
            old(self).wf(),
        ensures
            final(self).wf(),
            final(self)@ == old(self)@.insert(name@, bumped(old(self)@, name@)),
    {
        proof {
            lemma_assoc_map_contains(self.entries@, name@);
        }
        match self.find(name) {
            Some(i) => {
                proof {
                    lemma_assoc_map_index(self.entries@, i as int);
                }
                let old_v = self.entries[i].1;
                let new_v = if old_v == u64::MAX {
                    u64::MAX
                } else {
                    old_v + 1
                };
                let ghost s = self.entries@;
                self.entries[i].1 = new_v;
                proof {
                    assert(self.entries@ =~= s.update(i as int, (s[i as int].0, new_v)));
                    lemma_assoc_map_update(s, i as int, new_v);
                    assert forall|p: int, q: int|
                        0 <= p < q < self.entries@.len() implies self.entries@[p].0@
                        != self.entries@[q].0@ by {
                        assert(self.entries@[p].0 == s[p].0);
                        assert(self.entries@[q].0 == s[q].0);
                    }
                }
            },
            None => {
                let ghost s = self.entries@;
                self.entries.push((name.to_owned(), 1));
                proof {
                    assert(self.entries@.drop_last() =~= s);
                    assert(self@ == assoc_map(s).insert(name@, 1u64));
                    assert(distinct_keys(self.entries@));
                }
            },
        }
    }

    /// Apply a decay of `n` to `name`: clamp at zero if the count is smaller;
    /// do nothing at all if the key is absent (the decrement is dropped).
    pub fn decrement(&mut self, name: &str, n: u64)
        requires
            old(self).wf(),
        ensures
            final(self).wf(),
            final(self)@ == if old(self)@.dom().contains(name@) {
                old(self)@.insert(name@, sat_sub(old(self)@[name@], n))
            } else {
                old(self)@
            },
    {
        proof {
            lemma_assoc_map_contains(self.entries@, name@);
        }
        match self.find(name) {
            Some(i) => {
                proof {
                    lemma_assoc_map_index(self.entries@, i as int);
                }
                let old_v = self.entries[i].1;
                let new_v = if old_v >= n {
                    old_v - n
                } else {
                    0
                };
                let ghost s = self.entries@;
                self.entries[i].1 = new_v;
                proof {
                    assert(self.entries@ =~= s.update(i as int, (s[i as int].0, new_v)));
                    lemma_assoc_map_update(s, i as int, new_v);
                    assert forall|p: int, q: int|
                        0 <= p < q < self.entries@.len() implies self.entries@[p].0@
                        != self.entries@[q].0@ by {
                        assert(self.entries@[p].0 == s[p].0);
                        assert(self.entries@[q].0 == s[q].0);
                    }
                }
            },
            None => {},
        }
    }

    /// Drop `name`'s entry, if present.
    pub fn remove(&mut self, name: &str)
        requires
            old(self).wf(),
        ensures
            final(self).wf(),
            final(self)@ == old(self)@.remove(name@),
    {
        proof {
            lemma_assoc_map_contains(self.entries@, name@);
        }
        match self.find(name) {
            Some(i) => {
                let ghost s = self.entries@;
                self.entries.remove(i);
                proof {
                    lemma_assoc_map_remove(s, i as int);
                    assert(distinct_keys(self.entries@)) by {
                        assert(forall|p: int, q: int|
                            0 <= p < q < self.entries@.len() ==> #[trigger] self.entries@[p]
                                == s[if p < i as int {
                                p
                            } else {
                                p + 1
                            }] && #[trigger] self.entries@[q] == s[if q < i as int {
                                q
                            } else {
                                q + 1
                            }]);
                    }
                }
            },
            None => {
                proof {
                    assert(self@ =~= old(self)@.remove(name@));
                }
            },
        }
    }

    pub fn len(&self) -> (r: usize)
        ensures
            r == self.entries@.len(),
    {
        self.entries.len()
    }

    /// The key of entry `i`.
    pub fn key_at(&self, i: usize) -> (r: &String)
        requires
            i < self.entries@.len(),
        ensures
            r@ == self.entries@[i as int].0@,
    {
        &self.entries[i].0
    }

    /// The count of entry `i`.
    pub fn count_at(&self, i: usize) -> (r: u64)
        requires
            i < self.entries@.len(),
        ensures
            r == self.entries@[i as int].1,
    {
        self.entries[i].1
    }
}

} // verus!
