//! Engine-level laws.
//!
//! [`Engine::record_hit`](crate::engine::Engine::record_hit) and
//! [`Engine::fire`](crate::engine::Engine::fire) state each single step
//! exactly; the proofs here chain those steps: what any number of hits
//! accumulates to, and that the scheduled decay gives it all back.

use vstd::prelude::*;

use crate::engine::drained;
use crate::pocket::registered;
use crate::table::bumped;
use crate::table::sat_sub;

verus! {

/// The counters (or one pocket's pending decrements) after `n` hits on key
/// `k`: each hit is one application of [`Engine::record_hit`]'s counter
/// transition.
pub open spec fn hit_n(m: Map<Seq<char>, u64>, k: Seq<char>, n: nat) -> Map<Seq<char>, u64>
    decreases n,
{
    if n == 0 {
        m
    } else {
        let m1 = hit_n(m, k, (n - 1) as nat);
        m1.insert(k, bumped(m1, k))
    }
}

/// The pocket registry after `n` hits on key `k` all mapping to `instant`:
/// each hit is one application of [`Engine::record_hit`]'s registry
/// transition.
pub open spec fn reg_n(
    p: Map<u64, Map<Seq<char>, u64>>,
    instant: u64,
    k: Seq<char>,
    n: nat,
) -> Map<u64, Map<Seq<char>, u64>>
    decreases n,
{
    if n == 0 {
        p
    } else {
        registered(reg_n(p, instant, k, (n - 1) as nat), instant, k)
    }
}

/// `n` hits on `k` raise exactly `k`, by exactly `n` (from 0 if absent).
pub proof fn lemma_hit_n_accumulates(m: Map<Seq<char>, u64>, k: Seq<char>, n: nat)
    requires
        1 <= n <= u64::MAX,
        m.dom().contains(k) ==> m[k] + n <= u64::MAX,
    ensures
        hit_n(m, k, n) == m.insert(
            k,
            (if m.dom().contains(k) {
                m[k] + n
            } else {
                n as int
            }) as u64,
        ),
    decreases n,
{
    if n == 1 {
        assert(hit_n(m, k, 0) == m);
        assert(hit_n(m, k, 1) == m.insert(k, bumped(m, k)));
    } else {
        lemma_hit_n_accumulates(m, k, (n - 1) as nat);
        let base: int = if m.dom().contains(k) {
            m[k] as int
        } else {
            0
        };
        let m1 = hit_n(m, k, (n - 1) as nat);
        assert(m1[k] == (base + n - 1) as u64);
        assert(bumped(m1, k) == (base + n) as u64);
        assert(hit_n(m, k, n) =~= m.insert(k, (base + n) as u64));
    }
}

/// `n` hits all mapping to a fresh `instant` leave every other pocket alone
/// and fill that instant's pocket with `n` pending decrements of `k` — and
/// the pocket is live from the first hit on, so (by `record_hit`'s contract)
/// only the first hit schedules a timer.
pub proof fn lemma_reg_n_accumulates(
    p: Map<u64, Map<Seq<char>, u64>>,
    instant: u64,
    k: Seq<char>,
    n: nat,
)
    requires
        !p.dom().contains(instant),
        1 <= n <= u64::MAX,
    ensures
        reg_n(p, instant, k, n) == p.insert(instant, hit_n(Map::empty(), k, n)),
        reg_n(p, instant, k, n).dom().contains(instant),
    decreases n,
{
    if n == 1 {
        assert(reg_n(p, instant, k, 0) == p);
        assert(reg_n(p, instant, k, 1) == registered(p, instant, k));
        assert(hit_n(Map::<Seq<char>, u64>::empty(), k, 0) == Map::<Seq<char>, u64>::empty());
        assert(hit_n(Map::<Seq<char>, u64>::empty(), k, 1) == Map::<Seq<char>, u64>::empty().insert(
            k,
            bumped(Map::empty(), k),
        ));
    } else {
        lemma_reg_n_accumulates(p, instant, k, (n - 1) as nat);
        lemma_hit_n_accumulates(Map::empty(), k, (n - 1) as nat);
        lemma_hit_n_accumulates(Map::empty(), k, n);
        let p1 = reg_n(p, instant, k, (n - 1) as nat);
        let h1 = hit_n(Map::<Seq<char>, u64>::empty(), k, (n - 1) as nat);
        assert(p1[instant] == h1);
        assert(reg_n(p, instant, k, n) == p1.insert(instant, h1.insert(k, bumped(h1, k))));
        assert(h1.insert(k, bumped(h1, k)) == hit_n(Map::<Seq<char>, u64>::empty(), k, n));
        assert(p1.insert(instant, hit_n(Map::<Seq<char>, u64>::empty(), k, n)) =~= p.insert(
            instant,
            hit_n(Map::<Seq<char>, u64>::empty(), k, n),
        ));
    }
}

/// Net decay equals net increments. For any `n >= 1` hits on key `k`
/// recorded within one rounding window (all mapping to the fresh instant
/// `instant`), once the instant's pocket fires, `k`'s counter is back at its
/// pre-sequence value (at 0 if it did not exist), no other counter has
/// moved, and the registry is back to where it started — regardless of how
/// the hits interleaved with hits on other instants, which touch neither
/// this pocket nor (per `record_hit`'s contract) more than their own keys.
pub proof fn lemma_net_decay(
    c0: Map<Seq<char>, u64>,
    p0: Map<u64, Map<Seq<char>, u64>>,
    instant: u64,
    k: Seq<char>,
    n: nat,
)
    requires
        !p0.dom().contains(instant),
        1 <= n <= u64::MAX,
        c0.dom().contains(k) ==> c0[k] + n <= u64::MAX,
    ensures
        drained(hit_n(c0, k, n), reg_n(p0, instant, k, n)[instant]) == c0.insert(
            k,
            if c0.dom().contains(k) {
                c0[k]
            } else {
                0u64
            },
        ),
        c0.dom().contains(k) ==> drained(hit_n(c0, k, n), reg_n(p0, instant, k, n)[instant]) == c0,
        reg_n(p0, instant, k, n).remove(instant) == p0,
{
    lemma_hit_n_accumulates(c0, k, n);
    lemma_hit_n_accumulates(Map::empty(), k, n);
    lemma_reg_n_accumulates(p0, instant, k, n);
    let pocket = reg_n(p0, instant, k, n)[instant];
    assert(pocket == hit_n(Map::<Seq<char>, u64>::empty(), k, n));
    assert(pocket[k] == n as u64);
    let pre: u64 = if c0.dom().contains(k) {
        c0[k]
    } else {
        0u64
    };
    assert(sat_sub(hit_n(c0, k, n)[k], n as u64) == pre);
    assert(drained(hit_n(c0, k, n), pocket) =~= c0.insert(k, pre));
    if c0.dom().contains(k) {
        assert(c0.insert(k, pre) =~= c0);
    }
    assert(reg_n(p0, instant, k, n).remove(instant) =~= p0);
}

/// A counter deleted externally before its decay only drops its own pending
/// decrement: removing the counter and then draining the pocket leaves
/// every other counter exactly as draining alone would have.
pub proof fn lemma_fire_after_external_delete(
    c: Map<Seq<char>, u64>,
    p: Map<Seq<char>, u64>,
    k: Seq<char>,
)
    ensures
        drained(c.remove(k), p) == drained(c, p).remove(k),
{
    assert(drained(c.remove(k), p) =~= drained(c, p).remove(k));
}

/// Firing for an instant whose pocket was already removed is a no-op on the
/// registry (and, by `fire`'s contract, on the counters).
pub proof fn lemma_fire_absent_is_noop(p: Map<u64, Map<Seq<char>, u64>>, instant: u64)
    requires
        !p.dom().contains(instant),
    ensures
        p.remove(instant) == p,
{
    assert(p.remove(instant) =~= p);
}

/// Bucket cleanup is idempotent: once a bucket record is released, a second
/// delivery of the same eviction notification changes nothing.
pub proof fn lemma_on_delete_idempotent(b: Map<Seq<char>, u64>, k: Seq<char>)
    ensures
        b.remove(k).remove(k) == b.remove(k),
{
    assert(b.remove(k).remove(k) =~= b.remove(k));
}

/// Hits on different keys commute: within one rounding window the
/// interleaving order of `COUNT` calls does not matter to the counters.
pub proof fn lemma_hits_commute(m: Map<Seq<char>, u64>, k1: Seq<char>, k2: Seq<char>)
    requires
        k1 != k2,
    ensures
        hit_n(hit_n(m, k1, 1), k2, 1) == hit_n(hit_n(m, k2, 1), k1, 1),
{
    assert(hit_n(m, k1, 0) == m);
    assert(hit_n(m, k2, 0) == m);
    assert(hit_n(hit_n(m, k1, 1), k2, 0) == hit_n(m, k1, 1));
    assert(hit_n(hit_n(m, k2, 1), k1, 0) == hit_n(m, k2, 1));
    assert(hit_n(hit_n(m, k1, 1), k2, 1) =~= hit_n(hit_n(m, k2, 1), k1, 1));
}

} // verus!
