//! Time-bucketed decay aggregation.
//!
//! A [`Pocket`] gathers, for one target expiry instant, every counter that
//! must decay at that instant and by how much. The [`PocketRegistry`] keeps
//! at most one live pocket per instant: the first hit mapping to an instant
//! creates its pocket (and owes the embedder one timer); every later hit for
//! the same instant reuses it. This bounds the number of pending timers by
//! the number of distinct expiry instants, not by the number of hits.

use vstd::prelude::*;

use crate::table::bumped;
use crate::table::CountTable;

verus! {

/// A pocket: the pending decrements for one target instant.
pub struct Pocket {
    pub pocket_instant: u64,
    pub decrement: CountTable,
}

impl Pocket {
    pub open spec fn wf(&self) -> bool {
        self.decrement.wf()
    }

    /// A fresh pocket for `pocket_instant`, with no pending decrements yet.
    pub fn new(pocket_instant: u64) -> (r: Self)
        ensures
            r.wf(),
            r.pocket_instant == pocket_instant,
            r.decrement@ == Map::<Seq<char>, u64>::empty(),
            r.decrement.entries@.len() == 0,
    {
        Pocket { pocket_instant, decrement: CountTable::new() }
    }

    /// Register one more pending decrement of size 1 for `captcha`.
    pub fn increment(&mut self, captcha: &str)
        requires
            old(self).wf(),
        ensures
            final(self).wf(),
            final(self).pocket_instant == old(self).pocket_instant,
            final(self).decrement@ == old(self).decrement@.insert(
                captcha@,
                bumped(old(self).decrement@, captcha@),
            ),
    {
        self.decrement.increment(captcha);
    }
}

/// The map described by a pocket sequence: target instant to pending
/// decrements, later pockets winning. With distinct instants (see
/// [`distinct_instants`]) each pocket is its instant's value.
pub open spec fn registry_map(s: Seq<Pocket>) -> Map<u64, Map<Seq<char>, u64>>
    decreases s.len(),
{
    if s.len() == 0 {
        Map::empty()
    } else {
        registry_map(s.drop_last()).insert(s.last().pocket_instant, s.last().decrement@)
    }
}

/// No two pockets share a target instant.
pub open spec fn distinct_instants(s: Seq<Pocket>) -> bool {
    forall|i: int, j: int|
        0 <= i < j < s.len() ==> s[i].pocket_instant != s[j].pocket_instant
}

/// The registry after one decay of size 1 for key `k` is registered under
/// `instant`: the pocket's pending decrement for `k` grows by one; a missing
/// pocket starts empty.
pub open spec fn registered(
    p: Map<u64, Map<Seq<char>, u64>>,
    instant: u64,
    k: Seq<char>,
) -> Map<u64, Map<Seq<char>, u64>> {
    let m = if p.dom().contains(instant) {
        p[instant]
    } else {
        Map::empty()
    };
    p.insert(instant, m.insert(k, bumped(m, k)))
}

/// An instant is in the registry map exactly when some pocket holds it.
pub proof fn lemma_registry_contains(s: Seq<Pocket>, t: u64)
    ensures
        registry_map(s).dom().contains(t) <==> exists|i: int|
            0 <= i < s.len() && s[i].pocket_instant == t,
    decreases s.len(),
{
    if s.len() > 0 {
        lemma_registry_contains(s.drop_last(), t);
        if s.last().pocket_instant == t {
            assert(s[s.len() - 1].pocket_instant == t);
        } else if exists|i: int| 0 <= i < s.len() && s[i].pocket_instant == t {
            let i = choose|i: int| 0 <= i < s.len() && s[i].pocket_instant == t;
            assert(s.drop_last()[i] == s[i]);
        }
    }
}

/// With distinct instants, each pocket gives its instant's value in the map.
pub proof fn lemma_registry_index(s: Seq<Pocket>, i: int)
    requires
        distinct_instants(s),
        0 <= i < s.len(),
    ensures
        registry_map(s).dom().contains(s[i].pocket_instant),
        registry_map(s)[s[i].pocket_instant] == s[i].decrement@,
    decreases s.len(),
{
    if i < s.len() - 1 {
        assert(distinct_instants(s.drop_last()));
        assert(s.drop_last()[i] == s[i]);
        lemma_registry_index(s.drop_last(), i);
        assert(s[i].pocket_instant != s.last().pocket_instant);
    }
}

/// Removing pocket `i` removes its instant from the map.
proof fn lemma_registry_remove(s: Seq<Pocket>, i: int)
    requires
        distinct_instants(s),
        0 <= i < s.len(),
    ensures
        registry_map(s.remove(i)) == registry_map(s).remove(s[i].pocket_instant),
    decreases s.len(),
{
    if i == s.len() - 1 {
        assert(s.remove(i) =~= s.drop_last());
        lemma_registry_contains(s.drop_last(), s[i].pocket_instant);
        assert(forall|j: int|
            0 <= j < s.drop_last().len() ==> #[trigger] s.drop_last()[j].pocket_instant
                != s[i].pocket_instant);
        assert(!registry_map(s.drop_last()).dom().contains(s[i].pocket_instant));
        assert(registry_map(s.remove(i)) =~= registry_map(s).remove(s[i].pocket_instant));
    } else {
        assert(s.remove(i).drop_last() =~= s.drop_last().remove(i));
        assert(distinct_instants(s.drop_last()));
        assert(s.drop_last()[i] == s[i]);
        lemma_registry_remove(s.drop_last(), i);
        assert(s[i].pocket_instant != s.last().pocket_instant);
        assert(s.remove(i).last() == s.last());
        assert(registry_map(s.remove(i)) =~= registry_map(s).remove(s[i].pocket_instant));
    }
}

/// At most one live pocket per distinct target instant, found by instant.
pub struct PocketRegistry {
    pub pockets: Vec<Pocket>,
}

impl View for PocketRegistry {
    type V = Map<u64, Map<Seq<char>, u64>>;

    open spec fn view(&self) -> Map<u64, Map<Seq<char>, u64>> {
        registry_map(self.pockets@)
    }
}

impl PocketRegistry {
    pub open spec fn wf(&self) -> bool {
        &&& distinct_instants(self.pockets@)
        &&& forall|i: int| 0 <= i < self.pockets@.len() ==> (#[trigger] self.pockets@[i]).wf()
    }

    pub fn new() -> (r: Self)
        ensures
            r.wf(),
            r@ == Map::<u64, Map<Seq<char>, u64>>::empty(),
            r.pockets@.len() == 0,
    {
        PocketRegistry { pockets: Vec::new() }
    }

    /// The number of live pockets.
    pub fn len(&self) -> (r: usize)
        requires
            self.wf(),
        ensures
            r == self@.dom().len(),
    {
        proof {
            lemma_registry_len(self.pockets@);
        }
        self.pockets.len()
    }

    /// The index of `instant`'s pocket, if one exists.
    fn find(&self, instant: u64) -> (r: Option<usize>)
        ensures
            match r {
                Some(i) => i < self.pockets@.len() && self.pockets@[i as int].pocket_instant
                    == instant,
                None => forall|j: int|
                    0 <= j < self.pockets@.len() ==> #[trigger] self.pockets@[j].pocket_instant
                        != instant,
            },
    {
        let n = self.pockets.len();
        let mut i: usize = 0;
        while i < n
            invariant
                n == self.pockets@.len(),
                i <= n,
                forall|j: int| 0 <= j < i ==> #[trigger] self.pockets@[j].pocket_instant != instant,
            decreases n - i,
        {
            if self.pockets[i].pocket_instant == instant {
                return Some(i);
            }
            i = i + 1;
        }
        None
    }

    /// Register one pending decrement of size 1 for `captcha` under
    /// `instant`, creating the pocket on first use. Returns whether a pocket
    /// was created — exactly then does the embedder owe a timer.
    pub fn register_decrement(&mut self, instant: u64, captcha: &str) -> (created: bool)
        requires
            old(self).wf(),
        ensures
            final(self).wf(),
            created == !old(self)@.dom().contains(instant),
            final(self)@ == registered(old(self)@, instant, captcha@),
    {
        proof {
            lemma_registry_contains(self.pockets@, instant);
        }
        match self.find(instant) {
            Some(i) => {
                proof {
                    lemma_registry_index(self.pockets@, i as int);
                }
                let ghost s = self.pockets@;
                let mut pocket = self.pockets.remove(i);
                pocket.increment(captcha);
                self.pockets.push(pocket);
                proof {
                    lemma_registry_remove(s, i as int);
                    assert(self.pockets@.drop_last() =~= s.remove(i as int));
                    assert(self@ == registry_map(s.remove(i as int)).insert(
                        instant,
                        pocket.decrement@,
                    ));
                    assert(self@ =~= registered(registry_map(s), instant, captcha@));
                    assert forall|p: int, q: int|
                        0 <= p < q < self.pockets@.len() implies self.pockets@[p].pocket_instant
                        != self.pockets@[q].pocket_instant by {
                        lemma_remove_keeps_others(s, i as int, p);
                        if q < self.pockets@.len() - 1 {
                            lemma_remove_keeps_others(s, i as int, q);
                        } else {
                            assert(self.pockets@[q] == pocket);
                        }
                    }
                    assert(forall|j: int|
                        0 <= j < self.pockets@.len() ==> (#[trigger] self.pockets@[j]).wf());
                }
                false
            },
            None => {
                let mut pocket = Pocket::new(instant);
                pocket.increment(captcha);
                let ghost s = self.pockets@;
                self.pockets.push(pocket);
                proof {
                    assert(self.pockets@.drop_last() =~= s);
                    assert(self@ == registry_map(s).insert(instant, pocket.decrement@));
                    assert(self@ =~= registered(registry_map(s), instant, captcha@));
                }
                true
            },
        }
    }

    /// Remove and return `instant`'s pocket, if one is live.
    pub fn take(&mut self, instant: u64) -> (r: Option<Pocket>)
        requires
            old(self).wf(),
        ensures
            final(self).wf(),
            match r {
                Some(p) => {
                    &&& old(self)@.dom().contains(instant)
                    &&& p.wf()
                    &&& p.pocket_instant == instant
                    &&& p.decrement@ == old(self)@[instant]
                    &&& final(self)@ == old(self)@.remove(instant)
                },
                None => {
                    &&& !old(self)@.dom().contains(instant)
                    &&& final(self)@ == old(self)@
                },
            },
    {
        proof {
            lemma_registry_contains(self.pockets@, instant);
        }
        match self.find(instant) {
            Some(i) => {
                proof {
                    lemma_registry_index(self.pockets@, i as int);
                    lemma_registry_remove(self.pockets@, i as int);
                }
                let ghost s = self.pockets@;
                let pocket = self.pockets.remove(i);
                proof {
                    assert forall|p: int, q: int|
                        0 <= p < q < self.pockets@.len() implies self.pockets@[p].pocket_instant
                        != self.pockets@[q].pocket_instant by {
                        lemma_remove_keeps_others(s, i as int, p);
                        lemma_remove_keeps_others(s, i as int, q);
                    }
                    assert(forall|j: int|
                        0 <= j < self.pockets@.len() ==> (#[trigger] self.pockets@[j]).wf());
                }
                Some(pocket)
            },
            None => None,
        }
    }
}

/// Entry `p` of `s.remove(i)` is an entry of `s` other than `i`.
proof fn lemma_remove_keeps_others(s: Seq<Pocket>, i: int, p: int)
    requires
        0 <= i < s.len(),
        0 <= p < s.len() - 1,
    ensures
        s.remove(i)[p] == s[if p < i {
            p
        } else {
            p + 1
        }],
{
}

/// With distinct instants, the registry map has one entry per pocket.
proof fn lemma_registry_len(s: Seq<Pocket>)
    requires
        distinct_instants(s),
    ensures
        registry_map(s).dom().finite(),
        registry_map(s).dom().len() == s.len(),
    decreases s.len(),
{
    broadcast use vstd::set::axiom_set_insert_len;

    if s.len() > 0 {
        assert(distinct_instants(s.drop_last()));
        lemma_registry_len(s.drop_last());
        lemma_registry_contains(s.drop_last(), s.last().pocket_instant);
        assert(forall|j: int|
            0 <= j < s.drop_last().len() ==> #[trigger] s.drop_last()[j].pocket_instant
                != s.last().pocket_instant);
        assert(!registry_map(s.drop_last()).dom().contains(s.last().pocket_instant));
        assert(registry_map(s).dom() =~= registry_map(s.drop_last()).dom().insert(
            s.last().pocket_instant,
        ));
    }
}

} // verus!
