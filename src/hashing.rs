//! The hash adapter: turns a key into a 64-bit digest with a per-instance
//! seeded keyed hash, and the capacity arithmetic shared by the tables.

use std::hash::BuildHasher;
use vstd::arithmetic::power2::*;
use vstd::prelude::*;

verus! {

/// How a table turns keys into digests.
#[derive(Clone, Copy, Debug, PartialEq, Eq, Structural)]
pub enum KeyHash {
    /// The key is its own digest (predictable layouts, for diagnostics).
    Identity,
    /// A keyed mix of the key with a seed drawn per table instance.
    Keyed { seed: u64 },
}

/// The 64-bit finalizer of SplitMix64: a bijective avalanche mix.
pub open spec fn mix64(x: u64) -> u64 {
    let a = (x ^ (x >> 30u64)).wrapping_mul(0xbf58476d1ce4e5b9u64);
    let b = (a ^ (a >> 27u64)).wrapping_mul(0x94d049bb133111ebu64);
    b ^ (b >> 31u64)
}

impl KeyHash {
    pub open spec fn spec_digest(self, key: u64) -> u64 {
        match self {
            KeyHash::Identity => key,
            KeyHash::Keyed { seed } => mix64(key ^ seed),
        }
    }

    /// A keyed hash with a fresh random seed.
    pub fn random() -> (r: KeyHash)
        ensures
            r is Keyed,
    {
        KeyHash::Keyed { seed: random_seed() }
    }

    /// The digest of `key`.
    pub fn digest(&self, key: u64) -> (r: u64)
        ensures
            r == self.spec_digest(key),
    {
        match self {
            KeyHash::Identity => key,
            KeyHash::Keyed { seed } => {
                let x = key ^ *seed;
                let a = (x ^ (x >> 30u64)).wrapping_mul(0xbf58476d1ce4e5b9u64);
                let b = (a ^ (a >> 27u64)).wrapping_mul(0x94d049bb133111ebu64);
                b ^ (b >> 31u64)
            },
        }
    }

    /// The home slot of `key` in a buffer of `cap` slots.
    pub open spec fn spec_home(self, key: u64, cap: nat) -> int {
        spec_slot(self.spec_digest(key), cap)
    }

    pub fn home(&self, key: u64, cap: usize) -> (r: usize)
        requires
            0 < cap,
        ensures
            r == self.spec_home(key, cap as nat),
            r < cap,
    {

        slot_of(self.digest(key), cap)
    }
}

/// The slot a digest selects in a buffer of `cap` slots.
pub closed spec fn spec_slot(digest: u64, cap: nat) -> int {
    (digest % (cap as u64)) as int
}

/// A selected slot lies within the buffer.
pub broadcast proof fn lemma_slot_range(digest: u64, cap: nat)
    ensures
        0 < cap <= usize::MAX ==> 0 <= #[trigger] spec_slot(digest, cap) < cap,
{
}

pub fn slot_of(digest: u64, cap: usize) -> (r: usize)
    requires
        0 < cap,
    ensures
        r == spec_slot(digest, cap as nat),
        r < cap,
{
    (digest % (cap as u64)) as usize
}

/// Relies on std's `RandomState`: each new state is keyed with fresh random
/// keys, so the hash of a constant under it is an unpredictable 64-bit value.
#[verifier::external_body]
fn random_seed() -> u64 {
    std::collections::hash_map::RandomState::new().hash_one(0u64)
}

pub open spec fn is_power_of_two(n: nat) -> bool {
    exists|e: nat| pow2(e) == n
}

/// The only power of two in `(2^29, 2^30]` is `2^30`.
pub proof fn lemma_top_power(n: nat)
    requires
        is_power_of_two(n),
        0x2000_0000 < n <= 0x4000_0000,
    ensures
        n == 0x4000_0000,
{
    let e = choose|e: nat| pow2(e) == n;
    lemma2_to64();
    if e < 29 {
        lemma_pow2_strictly_increases(e, 29);
    } else if e > 30 {
        lemma_pow2_strictly_increases(30, e);
    }
}

/// The smallest power of two that is at least `v`.
pub fn round_up_to_power_of_two(v: usize) -> (r: usize)
    requires
        1 <= v <= (usize::MAX as int + 1) / 2,
    ensures
        is_power_of_two(r as nat),
        v <= r,
        r < 2 * v,
{
    let mut p: usize = 1;
    let ghost mut e: nat = 0;
    proof {
        lemma2_to64();
    }
    while p < v
        invariant
            1 <= v <= (usize::MAX as int + 1) / 2,
            pow2(e) == p,
            1 <= p,
            p < 2 * v,
        decreases 2 * v - p,
    {
        proof {
            lemma_pow2_unfold(e + 1);
        }
        p = p * 2;
        proof {
            e = e + 1;
        }
    }
    p
}

} // verus!

verus! {

/// Number of slots, a power of two, that hold `n` entries without passing
/// `load_percent` percent: `n` over the load factor, plus one, rounded up.
/// Capped at `2^30` slots.
pub fn capacity_for(n: usize, load_percent: usize) -> (r: usize)
    requires
        0 < load_percent < 100,
    ensures
        r <= 0x4000_0000,
        r == 0 || is_power_of_two(r as nat),
        n == 0 <==> r == 0,
        0 < n && r < 0x4000_0000 ==> n * 100 < r * load_percent && n < r,
{
    if n == 0 {
        return 0;
    }
    let want: u128 = (n as u128) * 100 / (load_percent as u128) + 1;
    proof {
        let d = load_percent as int;
        let x = (n as u128) * 100;
        vstd::arithmetic::div_mod::lemma_fundamental_div_mod(x as int, d);
        vstd::arithmetic::div_mod::lemma_mod_bound(x as int, d);
        assert(want as int * d > x) by (nonlinear_arith)
            requires
                x == d * (x / d) + x % d,
                x % d < d,
                want == x / d + 1,
        ;
    }
    if want >= 0x4000_0000 {
        proof {
            lemma2_to64();
            assert(pow2(30) == 0x4000_0000);
        }
        0x4000_0000
    } else {
        let r = round_up_to_power_of_two(want as usize);
        proof {
            assert(want > n) by (nonlinear_arith)
                requires
                    0 < load_percent < 100,
                    want * load_percent > n * 100,
            ;
            assert(n * 100 < r * load_percent) by (nonlinear_arith)
                requires
                    r >= want,
                    0 < load_percent,
                    want * load_percent > n * 100,
            ;
        }
        if r > 0x4000_0000 {
            proof {
                lemma2_to64();
                assert(pow2(30) == 0x4000_0000);
            }
            0x4000_0000
        } else {
            r
        }
    }
}

} // verus!
