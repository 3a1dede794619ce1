//! TESLA hash chains — the cheap authentication path.
//!
//! A sender commits to the end of a one-way hash chain, MACs each interval's
//! traffic with a key only it knows, and reveals that key once the interval
//! has closed. Generation hashes *down* from a secret seed; use walks *up*:
//!
//! ```text
//! seed ──H──> K[n] ──H──> K[n-1] ──H──> … ──H──> K[1] ──H──> K[0]
//! ```
//!
//! `K[0]` is the commitment published in the cert. Disclosing `K[i]` lets
//! anyone recompute every `K[j]` for `j < i` by hashing forward, which is
//! why a lost disclosure is recovered from any later one.
//!
//! Verification here is purely cryptographic. The *timing* half of TESLA —
//! rejecting a message that arrived after its key could have been public —
//! is [`crate::time::security_condition`], and skipping it makes the MAC
//! meaningless.

use vstd::prelude::*;
use crate::hash::{sha256, sha256_spec, hmac_sha256, hmac_sha256_spec, hmac_sha256_verify_truncated};
use crate::Error;

verus! {

/// Length of a chain key, in bytes.
pub const KEY_LEN: usize = 32;

/// Length of a truncated MAC on the wire, in bytes.
pub const MAC_LEN: usize = 16;

/// A single link in a hash chain.
pub type ChainKey = [u8; 32];

/// A truncated HMAC tag as carried on the wire.
pub type Mac = [u8; 16];

/// `H` applied `n` times to `k`.
pub open spec fn hash_iter(k: Seq<u8>, n: nat) -> Seq<u8>
    decreases n,
{
    if n == 0 {
        k
    } else {
        sha256_spec(hash_iter(k, (n - 1) as nat))
    }
}

/// Hashing `a` times and then `b` times is hashing `a + b` times.
pub proof fn lemma_hash_iter_add(k: Seq<u8>, a: nat, b: nat)
    ensures
        hash_iter(hash_iter(k, a), b) == hash_iter(k, a + b),
    decreases b,
{
    if b > 0 {
        lemma_hash_iter_add(k, a, (b - 1) as nat);
    }
}

/// `K[i]` of the chain generated from `seed` with `n` usable intervals.
pub open spec fn chain_key_spec(seed: Seq<u8>, n: nat, i: nat) -> Seq<u8> {
    hash_iter(sha256_spec(seed), (n - i) as nat)
}

/// The domain separator for MAC keys: the ASCII bytes of `signet/v1/mackey`.
pub open spec fn mac_key_domain() -> Seq<u8> {
    seq![115u8, 105, 103, 110, 101, 116, 47, 118, 49, 47, 109, 97, 99, 107, 101, 121]
}

/// The MAC key derived from chain key `k`: SHA-256 over the domain
/// separator followed by `k`.
pub open spec fn mac_key_spec(k: Seq<u8>) -> Seq<u8> {
    sha256_spec(mac_key_domain() + k)
}

/// The on-wire tag of `msg` under `mac_key`: HMAC-SHA256 truncated to 16 bytes.
pub open spec fn mac_spec(mac_key: Seq<u8>, msg: Seq<u8>) -> Seq<u8> {
    hmac_sha256_spec(mac_key, msg).take(MAC_LEN as int)
}

/// A generated one-way key chain, held by a sender.
///
/// Keys are stored rather than recomputed: a 4096-interval chain is 128 KiB.
pub struct Chain {
    /// `keys[0]` is the public commitment; `keys[i]` authenticates interval `i`.
    keys: Vec<ChainKey>,
}

impl View for Chain {
    type V = Seq<Seq<u8>>;

    /// The keys, `K[0]` first.
    closed spec fn view(&self) -> Seq<Seq<u8>> {
        Seq::new(self.keys@.len(), |i: int| self.keys@[i]@)
    }
}

/// Whether `keys` is a hash chain: each key is the hash of the next one.
pub open spec fn is_hash_chain(keys: Seq<Seq<u8>>) -> bool {
    &&& 1 <= keys.len() <= u32::MAX + 1
    &&& forall|i: int| 0 <= i < keys.len() - 1 ==> #[trigger] keys[i] == sha256_spec(keys[i + 1])
}

/// In a hash chain, hashing `K[j]` forward `j - i` times gives `K[i]`.
pub proof fn lemma_chain_walk(keys: Seq<Seq<u8>>, i: int, j: int)
    requires
        is_hash_chain(keys),
        0 <= i <= j < keys.len(),
    ensures
        hash_iter(keys[j], (j - i) as nat) == keys[i],
    decreases j - i,
{
    if i < j {
        lemma_chain_walk(keys, i + 1, j);
        assert(keys[i] == sha256_spec(keys[i + 1]));
        assert(hash_iter(keys[j], (j - i) as nat) == sha256_spec(hash_iter(keys[j], (j - i - 1) as nat)));
    }
}

impl Chain {
    /// Keys form a hash chain and every interval index fits a `u32`.
    #[verifier::type_invariant]
    spec fn inv(&self) -> bool {
        is_hash_chain(self@)
    }

    /// Generate a chain of `intervals` usable keys from a secret seed.
    ///
    /// The seed must come from a CSPRNG. At 30-second intervals, 4096
    /// intervals is a little over 34 hours.
    pub fn from_seed(seed: &[u8], intervals: u32) -> (c: Self)
        requires
            intervals as int + 1 <= usize::MAX,
        ensures
            is_hash_chain(c@),
            c@.len() == intervals + 1,
            forall|i: int| 0 <= i <= intervals ==> #[trigger] c@[i] == chain_key_spec(seed@, intervals as nat, i as nat),
    {
        let n = intervals as usize;
        let mut keys: Vec<ChainKey> = vec![[0u8; 32]; n + 1];
        let top = sha256(seed);
        keys.set(n, top);
        let mut i = n;
        while i > 0
            invariant
                keys@.len() == n + 1,
                n == intervals,
                i <= n,
                forall|j: int| i <= j <= n ==> (#[trigger] keys@[j])@ == chain_key_spec(seed@, n as nat, j as nat),
            decreases i,
        {
            let next = sha256(&keys[i]);
            proof {
                assert(keys@[i as int]@ == chain_key_spec(seed@, n as nat, i as nat));
                assert(chain_key_spec(seed@, n as nat, (i - 1) as nat) == sha256_spec(
                    chain_key_spec(seed@, n as nat, i as nat),
                ));
            }
            keys.set(i - 1, next);
            i = i - 1;
        }
        let c = Self { keys };
        proof {
            assert forall|j: int| 0 <= j < c@.len() - 1 implies #[trigger] c@[j] == sha256_spec(c@[j + 1]) by {
                assert(c@[j] == keys@[j]@);
                assert(c@[j + 1] == keys@[j + 1]@);
                assert(chain_key_spec(seed@, n as nat, j as nat) == sha256_spec(
                    chain_key_spec(seed@, n as nat, (j + 1) as nat),
                ));
            }
        }
        c
    }

    /// The value published in the operational cert. Receivers anchor here.
    pub fn commitment(&self) -> (k: ChainKey)
        ensures
            k@ == self@[0],
    {
        proof {
            use_type_invariant(self);
        }
        self.keys[0]
    }

    /// Highest interval this chain can authenticate.
    pub fn max_interval(&self) -> (m: u32)
        ensures
            m == self@.len() - 1,
    {
        proof {
            use_type_invariant(self);
        }
        (self.keys.len() - 1) as u32
    }

    /// The raw chain key for `interval`, which is what gets disclosed.
    pub fn key(&self, interval: u32) -> (res: Result<ChainKey, Error>)
        ensures
            match res {
                Ok(k) => interval < self@.len() && k@ == self@[interval as int],
                Err(e) => interval >= self@.len() && e == (Error::IntervalOutOfRange {
                    interval,
                    max: (self@.len() - 1) as u32,
                }),
            },
    {
        proof {
            use_type_invariant(self);
        }
        if (interval as usize) < self.keys.len() {
            Ok(self.keys[interval as usize])
        } else {
            Err(Error::IntervalOutOfRange { interval, max: self.max_interval() })
        }
    }

    /// The MAC key for `interval`. Never disclose this — disclose [`Chain::key`] instead.
    pub fn mac_key(&self, interval: u32) -> (res: Result<ChainKey, Error>)
        ensures
            match res {
                Ok(k) => interval < self@.len() && k@ == mac_key_spec(self@[interval as int]),
                Err(e) => interval >= self@.len() && e == (Error::IntervalOutOfRange {
                    interval,
                    max: (self@.len() - 1) as u32,
                }),
            },
    {
        match self.key(interval) {
            Ok(k) => Ok(derive_mac_key(&k)),
            Err(e) => Err(e),
        }
    }
}

/// Derive the MAC key for an interval from its chain key.
pub fn derive_mac_key(k: &ChainKey) -> (out: ChainKey)
    ensures
        out@ == mac_key_spec(k@),
{
    let mut buf: Vec<u8> = vec![115u8, 105, 103, 110, 101, 116, 47, 118, 49, 47, 109, 97, 99, 107, 101, 121];
    assert(buf@ =~= mac_key_domain());
    crate::bytes::push_all(&mut buf, k);
    sha256(&buf)
}

/// Authenticate `msg` under `mac_key`, truncated to [`MAC_LEN`].
pub fn mac(mac_key: &ChainKey, msg: &[u8]) -> (out: Mac)
    ensures
        out@ == mac_spec(mac_key@, msg@),
{
    let full = hmac_sha256(mac_key, msg);
    let out: [u8; 16] = [
        full[0], full[1], full[2], full[3], full[4], full[5], full[6], full[7],
        full[8], full[9], full[10], full[11], full[12], full[13], full[14], full[15],
    ];
    assert(out@ =~= full@.take(16));
    out
}

/// Constant-time check of a truncated MAC.
pub fn verify_mac(mac_key: &ChainKey, msg: &[u8], tag: &Mac) -> (ok: bool)
    ensures
        ok == (tag@ == mac_spec(mac_key@, msg@)),
{
    hmac_sha256_verify_truncated(mac_key, msg, tag)
}

/// Whether `disclosed`, claimed for `interval`, verifies against the trusted
/// `anchor` for `anchor_interval`: the interval advances and hashing forward
/// lands exactly on the anchor.
pub open spec fn disclosure_ok(anchor: Seq<u8>, anchor_interval: u32, interval: u32, disclosed: Seq<u8>) -> bool {
    interval > anchor_interval && hash_iter(disclosed, (interval - anchor_interval) as nat) == anchor
}

/// Verify a disclosed key against a previously trusted anchor.
///
/// `anchor` is either the commitment (`anchor_interval == 0`) or the most
/// recent key the receiver already verified. Hashing forward from
/// `disclosed` must land exactly on `anchor`, which simultaneously proves
/// authenticity and recovers every key skipped in between.
///
/// Returns `false` for a non-advancing interval: replaying an old disclosure
/// must never re-anchor a receiver backwards.
pub fn verify_disclosure(anchor: &ChainKey, anchor_interval: u32, interval: u32, disclosed: &ChainKey) -> (ok: bool)
    ensures
        ok == disclosure_ok(anchor@, anchor_interval, interval, disclosed@),
        ok <==> interval > anchor_interval && hash_iter(disclosed@, (interval - anchor_interval) as nat) == anchor@,
{
    if interval <= anchor_interval {
        return false;
    }
    let steps = interval - anchor_interval;
    let mut cur = *disclosed;
    let mut done: u32 = 0;
    while done < steps
        invariant
            done <= steps,
            cur@ == hash_iter(disclosed@, done as nat),
        decreases steps - done,
    {
        cur = sha256(&cur);
        done = done + 1;
    }
    // Chain keys become public by design, so a plain compare leaks nothing.
    keys_equal(&cur, anchor)
}

fn keys_equal(a: &ChainKey, b: &ChainKey) -> (eq: bool)
    ensures
        eq == (a@ == b@),
{
    let mut i: usize = 0;
    while i < 32
        invariant
            i <= 32,
            forall|j: int| 0 <= j < i ==> a@[j] == b@[j],
        decreases 32 - i,
    {
        if a[i] != b[i] {
            return false;
        }
        i = i + 1;
    }
    assert(a@ =~= b@);
    true
}

/// The key for `target`, by hashing forward `anchor_interval - target`
/// times, when `target` is not after the anchor.
pub open spec fn key_from_anchor_spec(anchor: Seq<u8>, anchor_interval: u32, target: u32) -> Option<Seq<u8>> {
    if target <= anchor_interval {
        Some(hash_iter(anchor, (anchor_interval - target) as nat))
    } else {
        None
    }
}

/// Recover an earlier interval's key by hashing forward from a trusted anchor.
///
/// Returns `None` if `target` is later than the anchor, since future keys are
/// exactly what the one-way chain refuses to give up.
pub fn key_from_anchor(anchor: &ChainKey, anchor_interval: u32, target: u32) -> (res: Option<ChainKey>)
    ensures
        match res {
            Some(k) => key_from_anchor_spec(anchor@, anchor_interval, target) == Some(k@),
            None => key_from_anchor_spec(anchor@, anchor_interval, target) is None,
        },
{
    if target > anchor_interval {
        return None;
    }
    let steps = anchor_interval - target;
    let mut cur = *anchor;
    let mut done: u32 = 0;
    while done < steps
        invariant
            done <= steps,
            cur@ == hash_iter(anchor@, done as nat),
        decreases steps - done,
    {
        cur = sha256(&cur);
        done = done + 1;
    }
    Some(cur)
}

/// Any key of a chain recovers every earlier key, and only those: the
/// receiver anchored at `K[j]` derives `K[i]` for each `i <= j`.
pub proof fn lemma_keys_recover_backwards(c: Chain, i: u32, j: u32)
    requires
        is_hash_chain(c@),
        i <= j < c@.len(),
    ensures
        key_from_anchor_spec(c@[j as int], j, i) == Some(c@[i as int]),
        forall|t: u32| t > j ==> key_from_anchor_spec(c@[j as int], j, t) is None,
{
    lemma_chain_walk(c@, i as int, j as int);
}

/// A genuine later key verifies against any earlier anchor of the same
/// chain, the commitment included; a key for the same or an earlier
/// interval never does.
pub proof fn lemma_genuine_disclosure_verifies(c: Chain, a: u32, i: u32, k: Seq<u8>)
    requires
        is_hash_chain(c@),
        a < i < c@.len(),
    ensures
        disclosure_ok(c@[a as int], a, i, c@[i as int]),
        !disclosure_ok(c@[i as int], i, a, k),
        !disclosure_ok(c@[i as int], i, i, k),
{
    lemma_chain_walk(c@, a as int, i as int);
}

/// A disclosure verifies exactly when the interval advances past the
/// anchor's and hashing the disclosed key forward exactly as many times as
/// the intervals between them gives the anchor: landing on the anchor after
/// fewer hashes, or more, is no verification.
pub proof fn lemma_disclosure_takes_exact_steps(anchor: Seq<u8>, anchor_interval: u32, interval: u32, disclosed: Seq<u8>, k: nat)
    ensures
        disclosure_ok(anchor, anchor_interval, interval, disclosed) <==> (interval > anchor_interval && hash_iter(
            disclosed,
            (interval - anchor_interval) as nat,
        ) == anchor),
        k != interval - anchor_interval && hash_iter(disclosed, k) == anchor && hash_iter(
            disclosed,
            (interval - anchor_interval) as nat,
        ) != anchor ==> !disclosure_ok(anchor, anchor_interval, interval, disclosed),
{
}

/// The forward hashes of `k`, from 0 to `m` applications, are all distinct.
pub open spec fn walk_distinct(k: Seq<u8>, m: nat) -> bool {
    forall|x: nat, y: nat| x < y <= m ==> #[trigger] hash_iter(k, x) != #[trigger] hash_iter(k, y)
}

/// A disclosure pins its interval: in a hash chain whose forward walk from
/// its last key does not repeat (no hash collision along it), the key
/// `K[j]` offered for interval `i` verifies against an earlier anchor `K[a]`
/// only if `j == i`.
pub proof fn lemma_disclosure_pins_interval(keys: Seq<Seq<u8>>, a: u32, i: u32, j: int)
    requires
        is_hash_chain(keys),
        a < keys.len(),
        0 <= j < keys.len(),
        walk_distinct(keys.last(), (keys.len() + i) as nat),
    ensures
        disclosure_ok(keys[a as int], a, i, keys[j]) ==> j == i,
{
    let n = keys.len() as int;
    if disclosure_ok(keys[a as int], a, i, keys[j]) {
        lemma_chain_walk(keys, j, n - 1);
        lemma_chain_walk(keys, a as int, n - 1);
        let last = keys[n - 1];
        assert(keys.last() == last);
        lemma_hash_iter_add(last, (n - 1 - j) as nat, (i - a) as nat);
        let x = (n - 1 - a) as nat;
        let y = (n - 1 - j + i - a) as nat;
        assert(hash_iter(last, y) == keys[a as int]);
        assert(hash_iter(last, x) == keys[a as int]);
        if x < y {
            assert(hash_iter(last, x) != hash_iter(last, y));
        } else if y < x {
            assert(hash_iter(last, y) != hash_iter(last, x));
        }
    }
}

} // verus!
