//! A deterministic, platform-independent pseudo random number generator.
//!
//! The generator is the xoshiro256++ algorithm seeded through SplitMix64,
//! as published by Blackman and Vigna.  Every step is a pure function of the
//! generator state, which makes runs reproducible: the search engine clones
//! the state before an episode and replays the exact same draws when it
//! records a witness.  The state is a plain value (`Copy`), so taking a
//! replay snapshot is a copy.

use vstd::prelude::*;

verus! {

/// Golden-ratio increment of the SplitMix64 state.
pub const SPLITMIX_PHI: u64 = 0x9e3779b97f4a7c15;

/// First SplitMix64 output multiplier.
pub const SPLITMIX_MUL_A: u64 = 0xbf58476d1ce4e5b9;

/// Second SplitMix64 output multiplier.
pub const SPLITMIX_MUL_B: u64 = 0x94d049bb133111eb;

/// State of the xoshiro256++ generator: four 64-bit words.
#[derive(Clone, Copy, PartialEq, Eq, Structural, Debug)]
pub struct Xoshiro256 {
    pub s0: u64,
    pub s1: u64,
    pub s2: u64,
    pub s3: u64,
}

/// Left rotation of a 64-bit word by `k` bits, `0 < k < 64`.
pub open spec fn spec_rotl(x: u64, k: u64) -> u64 {
    (x << k) | (x >> (64 - k) as u64)
}

/// Wrapping 64-bit addition.
pub open spec fn wadd(x: u64, y: u64) -> u64 {
    vstd::wrapping::u64_specs::wrapping_add(x, y)
}

/// Wrapping 64-bit multiplication.
pub open spec fn wmul(x: u64, y: u64) -> u64 {
    vstd::wrapping::u64_specs::wrapping_mul(x, y)
}

/// The SplitMix64 output function applied to an (already advanced) state.
pub open spec fn splitmix_mix(x: u64) -> u64 {
    let z0 = wmul(x ^ (x >> 30), SPLITMIX_MUL_A);
    let z1 = wmul(z0 ^ (z0 >> 27), SPLITMIX_MUL_B);
    z1 ^ (z1 >> 31)
}

/// The SplitMix64 state after `n` advances from `seed`.
pub open spec fn splitmix_state(seed: u64, n: nat) -> u64
    decreases n,
{
    if n == 0 {
        seed
    } else {
        wadd(splitmix_state(seed, (n - 1) as nat), SPLITMIX_PHI)
    }
}

/// The `i`-th (0-based) output of a SplitMix64 generator seeded with `seed`.
pub open spec fn splitmix_out(seed: u64, i: nat) -> u64 {
    splitmix_mix(splitmix_state(seed, i + 1))
}

/// The xoshiro256++ state obtained by seeding from a single 64-bit value:
/// the first four SplitMix64 outputs, with the all-zero state replaced by
/// the state that the zero seed yields.
pub open spec fn spec_seed_from_u64(seed: u64) -> Xoshiro256 {
    let cand = Xoshiro256 {
        s0: splitmix_out(seed, 0),
        s1: splitmix_out(seed, 1),
        s2: splitmix_out(seed, 2),
        s3: splitmix_out(seed, 3),
    };
    if cand.s0 == 0 && cand.s1 == 0 && cand.s2 == 0 && cand.s3 == 0 {
        Xoshiro256 {
            s0: splitmix_out(0, 0),
            s1: splitmix_out(0, 1),
            s2: splitmix_out(0, 2),
            s3: splitmix_out(0, 3),
        }
    } else {
        cand
    }
}

/// The 64-bit word that a xoshiro256++ step outputs from state `s`.
pub open spec fn spec_next_out(s: Xoshiro256) -> u64 {
    wadd(spec_rotl(wadd(s.s0, s.s3), 23), s.s0)
}

/// The xoshiro256++ state after one step from `s`.
pub open spec fn spec_next_state(s: Xoshiro256) -> Xoshiro256 {
    let t = s.s1 << 17u64;
    let s2a = s.s2 ^ s.s0;
    let s3a = s.s3 ^ s.s1;
    let s1a = s.s1 ^ s2a;
    let s0a = s.s0 ^ s3a;
    Xoshiro256 { s0: s0a, s1: s1a, s2: s2a ^ t, s3: spec_rotl(s3a, 45) }
}

/// The value drawn into the closed range `[lo, hi]` from output word `w`.
pub open spec fn spec_in_range(w: u64, lo: u64, hi: u64) -> u64 {
    if hi - lo == u64::MAX {
        w
    } else {
        (lo + (w as int % (hi - lo + 1))) as u64
    }
}

fn rotl(x: u64, k: u64) -> (r: u64)
    requires
        0 < k < 64,
    ensures
        r == spec_rotl(x, k),
{
    (x << k) | (x >> (64 - k))
}

fn splitmix_step(x: &mut u64) -> (r: u64)
    ensures
        *final(x) == wadd(*old(x), SPLITMIX_PHI),
        r == splitmix_mix(*final(x)),
{
    *x = x.wrapping_add(SPLITMIX_PHI);
    let z0 = (*x ^ (*x >> 30)).wrapping_mul(SPLITMIX_MUL_A);
    let z1 = (z0 ^ (z0 >> 27)).wrapping_mul(SPLITMIX_MUL_B);
    z1 ^ (z1 >> 31)
}

impl Xoshiro256 {
    /// Seeds the generator from a 64-bit value via SplitMix64.
    pub fn seed_from_u64(seed: u64) -> (r: Self)
        ensures
            r == spec_seed_from_u64(seed),
    {
        let mut x = seed;
        proof {
            assert(splitmix_state(seed, 0) == seed);
        }
        let s0 = splitmix_step(&mut x);
        proof {
            assert(x == splitmix_state(seed, 1));
        }
        let s1 = splitmix_step(&mut x);
        proof {
            assert(x == splitmix_state(seed, 2));
        }
        let s2 = splitmix_step(&mut x);
        proof {
            assert(x == splitmix_state(seed, 3));
        }
        let s3 = splitmix_step(&mut x);
        if s0 == 0 && s1 == 0 && s2 == 0 && s3 == 0 {
            let mut z: u64 = 0;
            proof {
                assert(splitmix_state(0u64, 0) == 0u64);
            }
            let f0 = splitmix_step(&mut z);
            proof {
                assert(z == splitmix_state(0u64, 1));
            }
            let f1 = splitmix_step(&mut z);
            proof {
                assert(z == splitmix_state(0u64, 2));
            }
            let f2 = splitmix_step(&mut z);
            proof {
                assert(z == splitmix_state(0u64, 3));
            }
            let f3 = splitmix_step(&mut z);
            Xoshiro256 { s0: f0, s1: f1, s2: f2, s3: f3 }
        } else {
            Xoshiro256 { s0, s1, s2, s3 }
        }
    }

    /// Advances the generator one step and returns the next 64-bit word.
    pub fn next_u64(&mut self) -> (r: u64)
        ensures
            r == spec_next_out(*old(self)),
            *final(self) == spec_next_state(*old(self)),
    {
        let r = rotl(self.s0.wrapping_add(self.s3), 23).wrapping_add(self.s0);
        let t = self.s1 << 17u64;
        self.s2 = self.s2 ^ self.s0;
        self.s3 = self.s3 ^ self.s1;
        self.s1 = self.s1 ^ self.s2;
        self.s0 = self.s0 ^ self.s3;
        self.s2 = self.s2 ^ t;
        self.s3 = rotl(self.s3, 45);
        r
    }

    /// Draws a value uniformly distributed over the closed range `[lo, hi]`
    /// (uniform up to the modulo bias of the final reduction).
    pub fn next_in_range(&mut self, lo: u64, hi: u64) -> (r: u64)
        requires
            lo <= hi,
        ensures
            lo <= r <= hi,
            r == spec_in_range(spec_next_out(*old(self)), lo, hi),
            *final(self) == spec_next_state(*old(self)),
    {
        let w = self.next_u64();
        if hi - lo == u64::MAX {
            w
        } else {
            lo + w % (hi - lo + 1)
        }
    }
}

} // verus!
