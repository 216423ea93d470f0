//! Key naming and node identity.
//!
//! Counters and pockets are persisted in the host key space under
//! deterministic names: a fixed prefix plus the counter's name or the
//! pocket's target instant. For cluster deployments, a node's prefixes embed
//! its random identity inside a hash tag (`{...}`) so that one node's keys
//! are colocated on one shard and different nodes' keys never collide.

use vstd::prelude::*;
use vstd::string::StringExecFns;

verus! {

/// The engine's name, used as the namespace of every derived key.
pub const PKG_NAME: &'static str = "lbucket";

/// The character of one decimal digit.
pub open spec fn dec_digit(d: nat) -> char {
    if d == 0 {
        '0'
    } else if d == 1 {
        '1'
    } else if d == 2 {
        '2'
    } else if d == 3 {
        '3'
    } else if d == 4 {
        '4'
    } else if d == 5 {
        '5'
    } else if d == 6 {
        '6'
    } else if d == 7 {
        '7'
    } else if d == 8 {
        '8'
    } else {
        '9'
    }
}

/// The decimal digits of `n`, most significant first, no leading zeros
/// (a single `'0'` for zero).
pub open spec fn dec_str(n: nat) -> Seq<char>
    decreases n,
{
    if n < 10 {
        seq![dec_digit(n)]
    } else {
        dec_str(n / 10).push(dec_digit(n % 10))
    }
}

/// Relies on `u64`'s `ToString` (through `Display`): the result is the
/// number's decimal digit representation, without sign or leading zeros.
#[verifier::external_body]
fn u64_to_dec(n: u64) -> (r: String)
    ensures
        r@ == dec_str(n as nat),
{
    n.to_string()
}

/// The stored name of the counter called `name`.
pub open spec fn captcha_key_seq(name: Seq<char>) -> Seq<char> {
    "mcaptcha_cache:captcha:"@ + name
}

/// The stored name of the pocket due at `instant`.
pub open spec fn pocket_name_seq(instant: u64) -> Seq<char> {
    "mcaptcha_cache:pocket:"@ + dec_str(instant as nat)
}

/// The key under which the counter called `name` is stored.
pub fn get_captcha_key(name: &str) -> (r: String)
    ensures
        r@ == captcha_key_seq(name@),
{
    let mut key: String = "mcaptcha_cache:captcha:".to_owned();
    key.append(name);
    key
}

/// The key under which the pocket due at `instant` is stored.
pub fn get_pocket_name(pocket_instant: u64) -> (r: String)
    ensures
        r@ == pocket_name_seq(pocket_instant),
{
    let digits = u64_to_dec(pocket_instant);
    let mut key: String = "mcaptcha_cache:pocket:".to_owned();
    key.append(digits.as_str());
    key
}

/// Relies on `rand::random` (`thread_rng().gen()`): a pseudo-random
/// integer. Nothing can be promised of the result; two calls may differ.
#[verifier::external_body]
fn random_u64() -> u64 {
    rand::random::<u64>()
}

/// The node-level prefix of every counter key: the namespace, then the node
/// identity inside a cluster hash tag.
pub open spec fn counter_prefix_seq(id: u64) -> Seq<char> {
    "lbucket:captcha:{"@ + dec_str(id as nat) + "}:"@
}

/// The node-level prefix of every bucket key.
pub open spec fn bucket_prefix_seq(id: u64) -> Seq<char> {
    "lbucket:bucket:{"@ + dec_str(id as nat) + "}:"@
}

/// A process-wide identity: one random integer drawn once at startup and
/// immutable afterwards, used only to derive this node's key prefixes.
pub struct NodeIdentity {
    pub id: u64,
}

impl NodeIdentity {
    /// An identity injected by the embedder (startup configuration).
    pub fn new(id: u64) -> (r: Self)
        ensures
            r.id == id,
    {
        NodeIdentity { id }
    }

    /// A fresh pseudo-random identity for this process.
    pub fn generate() -> Self {
        NodeIdentity { id: random_u64() }
    }

    /// The prefix of this node's counter keys.
    pub fn counter_prefix(&self) -> (r: String)
        ensures
            r@ == counter_prefix_seq(self.id),
    {
        let digits = u64_to_dec(self.id);
        let mut key: String = "lbucket:captcha:{".to_owned();
        key.append(digits.as_str());
        key.append("}:");
        key
    }

    /// The prefix of this node's bucket keys.
    pub fn bucket_prefix(&self) -> (r: String)
        ensures
            r@ == bucket_prefix_seq(self.id),
    {
        let digits = u64_to_dec(self.id);
        let mut key: String = "lbucket:bucket:{".to_owned();
        key.append(digits.as_str());
        key.append("}:");
        key
    }
}

/// Distinct digits are distinct characters.
proof fn lemma_dec_digit_injective(x: nat, y: nat)
    requires
        x < 10,
        y < 10,
        dec_digit(x) == dec_digit(y),
    ensures
        x == y,
{
}

proof fn lemma_dec_str_len(n: nat)
    ensures
        dec_str(n).len() >= 1,
        n >= 10 ==> dec_str(n).len() >= 2,
    decreases n,
{
    if n >= 10 {
        lemma_dec_str_len(n / 10);
    }
}

/// Distinct numbers have distinct decimal representations.
pub proof fn lemma_dec_str_injective(a: nat, b: nat)
    requires
        dec_str(a) == dec_str(b),
    ensures
        a == b,
    decreases a + b,
{
    lemma_dec_str_len(a);
    lemma_dec_str_len(b);
    if a < 10 && b < 10 {
        assert(dec_str(a)[0] == dec_digit(a));
        assert(dec_str(b)[0] == dec_digit(b));
        lemma_dec_digit_injective(a, b);
    } else if a >= 10 && b >= 10 {
        assert(dec_str(a).last() == dec_digit(a % 10));
        assert(dec_str(b).last() == dec_digit(b % 10));
        lemma_dec_digit_injective(a % 10, b % 10);
        assert(dec_str(a).drop_last() =~= dec_str(a / 10));
        assert(dec_str(b).drop_last() =~= dec_str(b / 10));
        lemma_dec_str_injective(a / 10, b / 10);
        vstd::arithmetic::div_mod::lemma_fundamental_div_mod(a as int, 10);
        vstd::arithmetic::div_mod::lemma_fundamental_div_mod(b as int, 10);
    }
}

/// The middle of two equal affixed sequences is equal.
proof fn lemma_affix_cancel(p: Seq<char>, x: Seq<char>, y: Seq<char>, s: Seq<char>)
    requires
        p + x + s == p + y + s,
    ensures
        x == y,
{
    assert((p + x + s).len() == p.len() + x.len() + s.len());
    assert((p + y + s).len() == p.len() + y.len() + s.len());
    assert(x.len() == y.len());
    assert forall|i: int| 0 <= i < x.len() implies x[i] == y[i] by {
        assert((p + x + s)[p.len() + i] == x[i]);
        assert((p + y + s)[p.len() + i] == y[i]);
    }
    assert(x =~= y);
}

/// Different node identities derive different prefixes, so two nodes' keys
/// never collide, whatever names follow the prefix.
pub proof fn lemma_node_prefixes_distinct(id1: u64, id2: u64)
    requires
        id1 != id2,
    ensures
        counter_prefix_seq(id1) != counter_prefix_seq(id2),
        bucket_prefix_seq(id1) != bucket_prefix_seq(id2),
{
    if counter_prefix_seq(id1) == counter_prefix_seq(id2) {
        lemma_affix_cancel(
            "lbucket:captcha:{"@,
            dec_str(id1 as nat),
            dec_str(id2 as nat),
            "}:"@,
        );
        lemma_dec_str_injective(id1 as nat, id2 as nat);
    }
    if bucket_prefix_seq(id1) == bucket_prefix_seq(id2) {
        lemma_affix_cancel(
            "lbucket:bucket:{"@,
            dec_str(id1 as nat),
            dec_str(id2 as nat),
            "}:"@,
        );
        lemma_dec_str_injective(id1 as nat, id2 as nat);
    }
}

} // verus!
