//! The decay engine.
//!
//! [`Engine`] owns the records this system lives on: the counters, the live
//! pockets (shared-instant decay batching) and the bucket records (the
//! simpler per-key decay variant). Its callbacks are meant to be driven by a
//! single-threaded host: one command or timer at a time, which `&mut self`
//! enforces here. The engine never blocks and never schedules work itself:
//! where a timer is owed, a request describing it is returned to the
//! embedder, carrying an immutable copy of its target instant.

use vstd::prelude::*;
use vstd::string::StringExecFns;

use crate::errors::CacheError;
use crate::keys::captcha_key_seq;
use crate::keys::get_captcha_key;
use crate::pocket::registered;
use crate::pocket::PocketRegistry;
use crate::table::assoc_map;
use crate::table::bumped;
use crate::table::distinct_keys;
use crate::table::lemma_assoc_map_contains;
use crate::table::sat_sub;
use crate::table::CountTable;
use crate::GRACE_OFFSET;
use crate::target_instant;

verus! {

/// If a bucket decays its key at instant `t`, the bucket record itself is
/// cleaned up by the host at `t + BUCKET_EXPIRY_OFFSET` if nothing removed
/// it earlier.
pub const BUCKET_EXPIRY_OFFSET: u64 = 30;

/// The counters after a pocket's pending decrements `p` are drained against
/// the counters `c`: every counter named in `p` decays by its pending count
/// (clamped at zero); a pending decrement whose counter is gone is dropped;
/// no counter appears or disappears.
pub open spec fn drained(c: Map<Seq<char>, u64>, p: Map<Seq<char>, u64>) -> Map<Seq<char>, u64> {
    Map::new(
        |k: Seq<char>| c.dom().contains(k),
        |k: Seq<char>|
            if p.dom().contains(k) {
                sat_sub(c[k], p[k])
            } else {
                c[k]
            },
    )
}

/// The message a lookup of the counter `name` fails with when it is absent.
pub open spec fn not_found_msg(name: Seq<char>) -> Seq<char> {
    "key "@ + captcha_key_seq(name) + " not found"@
}

/// A single-shot timer the embedder owes the engine: after `fire_after`
/// seconds it must call [`Engine::fire`] with `pocket_instant`. The pocket's
/// backing record may defensively expire at `record_expiry` seconds from
/// now, so a missed delivery cannot leave it alive forever.
pub struct TimerRequest {
    pub fire_after: u64,
    pub pocket_instant: u64,
    pub record_expiry: u64,
}

/// A single-shot per-key timer the embedder owes for a bucket: after
/// `fire_after` seconds it must call [`Engine::fire_bucket`] with the key;
/// the bucket record may expire at `record_expiry` seconds from now.
pub struct BucketTimerRequest {
    pub fire_after: u64,
    pub record_expiry: u64,
}

/// The decaying-counter engine: counters, pockets and bucket records.
pub struct Engine {
    pub counters: CountTable,
    pub pockets: PocketRegistry,
    pub buckets: CountTable,
}

impl Engine {
    pub open spec fn wf(&self) -> bool {
        &&& self.counters.wf()
        &&& self.pockets.wf()
        &&& self.buckets.wf()
    }

    pub fn new() -> (r: Self)
        ensures
            r.wf(),
            r.counters@ == Map::<Seq<char>, u64>::empty(),
            r.pockets@ == Map::<u64, Map<Seq<char>, u64>>::empty(),
            r.buckets@ == Map::<Seq<char>, u64>::empty(),
    {
        Engine { counters: CountTable::new(), pockets: PocketRegistry::new(), buckets: CountTable::new() }
    }

    /// Record one hit on `captcha` at time `now`, decaying after `duration`
    /// seconds: the counter is raised at once, and one pending decrement of
    /// size 1 is registered in the pocket for `now + duration`. Exactly when
    /// that pocket did not yet exist, a timer request is returned — a second
    /// hit mapping to the same instant schedules nothing.
    pub fn record_hit(&mut self, now: u64, duration: u64, captcha: &str) -> (r: Option<
        TimerRequest,
    >)
        requires
            old(self).wf(),
            now + duration <= u64::MAX,
            duration + GRACE_OFFSET <= u64::MAX,
        ensures
            final(self).wf(),
            final(self).counters@ == old(self).counters@.insert(
                captcha@,
                bumped(old(self).counters@, captcha@),
            ),
            final(self).pockets@ == registered(
                old(self).pockets@,
                (now + duration) as u64,
                captcha@,
            ),
            final(self).buckets@ == old(self).buckets@,
            r is Some <==> !old(self).pockets@.dom().contains((now + duration) as u64),
            r matches Some(t) ==> t.fire_after == duration && t.pocket_instant == now + duration
                && t.record_expiry == duration + GRACE_OFFSET,
    {
        self.counters.increment(captcha);
        let instant = target_instant(now, duration);
        let created = self.pockets.register_decrement(instant, captcha);
        if created {
            Some(
                TimerRequest {
                    fire_after: duration,
                    pocket_instant: instant,
                    record_expiry: duration + GRACE_OFFSET,
                },
            )
        } else {
            None
        }
    }

    /// The timer-fired routine for `instant`: drain its pocket's pending
    /// decrements against the counters, best effort, and remove the pocket.
    /// A pending decrement whose counter is gone is dropped; firing for an
    /// instant whose pocket was already removed is a no-op.
    pub fn fire(&mut self, instant: u64)
        requires
            old(self).wf(),
        ensures
            final(self).wf(),
            final(self).pockets@ == old(self).pockets@.remove(instant),
            final(self).counters@ == if old(self).pockets@.dom().contains(instant) {
                drained(old(self).counters@, old(self).pockets@[instant])
            } else {
                old(self).counters@
            },
            final(self).buckets@ == old(self).buckets@,
    {
        let ghost c0 = self.counters@;
        match self.pockets.take(instant) {
            Some(pocket) => {
                let ghost e = pocket.decrement.entries@;
                proof {
                    assert(e.take(0) =~= Seq::<(String, u64)>::empty());
                    assert(drained(c0, assoc_map(e.take(0))) =~= c0);
                }
                let n = pocket.decrement.len();
                let mut i: usize = 0;
                while i < n
                    invariant
                        n == e.len(),
                        i <= n,
                        e == pocket.decrement.entries@,
                        pocket.wf(),
                        self.counters.wf(),
                        self.pockets.wf(),
                        self.buckets.wf(),
                        self.pockets@ == old(self).pockets@.remove(instant),
                        self.buckets@ == old(self).buckets@,
                        self.counters@ == drained(c0, assoc_map(e.take(i as int))),
                    decreases n - i,
                {
                    let name = pocket.decrement.key_at(i);
                    let count = pocket.decrement.count_at(i);
                    proof {
                        assert(distinct_keys(e.take(i as int)));
                        lemma_assoc_map_contains(e.take(i as int), e[i as int].0@);
                        assert(forall|j: int|
                            0 <= j < i ==> #[trigger] e.take(i as int)[j].0@ != e[i as int].0@);
                        lemma_drained_step(c0, assoc_map(e.take(i as int)), e[i as int].0@, e[i as int].1);
                    }
                    self.counters.decrement(name.as_str(), count);
                    proof {
                        assert(e.take(i + 1).drop_last() =~= e.take(i as int));
                        assert(e.take(i + 1).last() == e[i as int]);
                        assert(assoc_map(e.take(i + 1)) == assoc_map(e.take(i as int)).insert(
                            e[i as int].0@,
                            e[i as int].1,
                        ));
                    }
                    i = i + 1;
                }
                proof {
                    assert(e.take(n as int) =~= e);
                }
            },
            None => {
                proof {
                    assert(old(self).pockets@.remove(instant) =~= old(self).pockets@);
                }
            },
        }
    }

    /// The current value of `captcha`'s counter, or a not-found failure.
    pub fn get(&self, captcha: &str) -> (r: Result<u64, CacheError>)
        requires
            self.wf(),
        ensures
            match r {
                Ok(v) => self.counters@.dom().contains(captcha@) && v == self.counters@[captcha@],
                Err(e) => !self.counters@.dom().contains(captcha@) && e.msg@ == not_found_msg(
                    captcha@,
                ),
            },
    {
        match self.counters.get(captcha) {
            Some(v) => Ok(v),
            None => {
                let key = get_captcha_key(captcha);
                let mut msg: String = "key ".to_owned();
                msg.append(key.as_str());
                msg.append(" not found");
                Err(CacheError::new(msg))
            },
        }
    }

    /// The host evicted or expired `captcha`'s counter: drop our record of
    /// it. Pending decrements that still name it will simply be dropped when
    /// their pocket fires.
    pub fn remove_counter(&mut self, captcha: &str)
        requires
            old(self).wf(),
        ensures
            final(self).wf(),
            final(self).counters@ == old(self).counters@.remove(captcha@),
            final(self).pockets@ == old(self).pockets@,
            final(self).buckets@ == old(self).buckets@,
    {
        self.counters.remove(captcha);
    }

    /// The number of live pockets (and so of pending pocket timers owed).
    pub fn pocket_count(&self) -> (r: usize)
        requires
            self.wf(),
        ensures
            r == self.pockets@.dom().len(),
    {
        self.pockets.len()
    }

    /// Record one hit on `key` under the per-key bucket strategy: the
    /// counter is raised at once; the key's bucket accumulates one pending
    /// decrement. Exactly when the key had no live bucket, a per-key timer
    /// request is returned.
    pub fn bucket_increment(&mut self, duration: u64, key: &str) -> (r: Option<BucketTimerRequest>)
        requires
            old(self).wf(),
            duration + BUCKET_EXPIRY_OFFSET <= u64::MAX,
        ensures
            final(self).wf(),
            final(self).counters@ == old(self).counters@.insert(
                key@,
                bumped(old(self).counters@, key@),
            ),
            final(self).buckets@ == old(self).buckets@.insert(key@, bumped(old(self).buckets@, key@)),
            final(self).pockets@ == old(self).pockets@,
            r is Some <==> !old(self).buckets@.dom().contains(key@),
            r matches Some(t) ==> t.fire_after == duration && t.record_expiry == duration
                + BUCKET_EXPIRY_OFFSET,
    {
        self.counters.increment(key);
        let created = match self.buckets.get(key) {
            Some(_) => false,
            None => true,
        };
        self.buckets.increment(key);
        if created {
            Some(
                BucketTimerRequest {
                    fire_after: duration,
                    record_expiry: duration + BUCKET_EXPIRY_OFFSET,
                },
            )
        } else {
            None
        }
    }

    /// The per-key timer-fired routine for `key`: decay the counter by the
    /// bucket's accumulated count (clamped at zero, dropped if the counter
    /// is gone) and remove the bucket record. Firing for a key whose bucket
    /// was already removed is a no-op.
    pub fn fire_bucket(&mut self, key: &str)
        requires
            old(self).wf(),
        ensures
            final(self).wf(),
            final(self).buckets@ == old(self).buckets@.remove(key@),
            final(self).counters@ == if old(self).buckets@.dom().contains(key@)
                && old(self).counters@.dom().contains(key@) {
                old(self).counters@.insert(
                    key@,
                    sat_sub(old(self).counters@[key@], old(self).buckets@[key@]),
                )
            } else {
                old(self).counters@
            },
            final(self).pockets@ == old(self).pockets@,
    {
        match self.buckets.get(key) {
            Some(count) => {
                self.counters.decrement(key, count);
                self.buckets.remove(key);
            },
            None => {
                proof {
                    assert(old(self).buckets@.remove(key@) =~= old(self).buckets@);
                }
            },
        }
    }

    /// The host expired or evicted `key`'s bucket record: release our record
    /// of it, without touching the counter and without depending on a future
    /// timer firing. Safe to call however often: once the record is gone,
    /// every later call is a no-op.
    pub fn on_delete(&mut self, key: &str)
        requires
            old(self).wf(),
        ensures
            final(self).wf(),
            final(self).buckets@ == old(self).buckets@.remove(key@),
            final(self).counters@ == old(self).counters@,
            final(self).pockets@ == old(self).pockets@,
    {
        self.buckets.remove(key);
    }
}

/// Draining one more pending decrement `(k, v)` on top of the already
/// drained prefix `m` is exactly one counter decay (dropped if `k`'s
/// counter is gone).
proof fn lemma_drained_step(c0: Map<Seq<char>, u64>, m: Map<Seq<char>, u64>, k: Seq<char>, v: u64)
    requires
        !m.dom().contains(k),
    ensures
        drained(c0, m.insert(k, v)) == if c0.dom().contains(k) {
            drained(c0, m).insert(k, sat_sub(drained(c0, m)[k], v))
        } else {
            drained(c0, m)
        },
{
    if c0.dom().contains(k) {
        assert(drained(c0, m)[k] == c0[k]);
        assert(drained(c0, m.insert(k, v)) =~= drained(c0, m).insert(
            k,
            sat_sub(drained(c0, m)[k], v),
        ));
    } else {
        assert(drained(c0, m.insert(k, v)) =~= drained(c0, m));
    }
}

} // verus!
