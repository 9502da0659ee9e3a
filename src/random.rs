//! A small Lehmer generator: `seed = seed * 16807 mod (2^31 - 1)`.

use vstd::prelude::*;
use vstd::arithmetic::power2::pow2;

verus! {

/// The modulus, `2^31 - 1`.
pub const M: u32 = 2147483647;

/// The multiplier.
pub const A: u64 = 16807;

/// The seed after `s`: `s * 16807` folded once modulo `2^31 - 1` through `2^31 = M + 1`.
pub open spec fn next_seed(s: u32) -> u32 {
    let p = s as int * A as int;
    let t = p / 0x8000_0000 + p % 0x8000_0000;
    (if t > M as int {
        t - M as int
    } else {
        t
    }) as u32
}

pub struct Random {
    seed: u32,
}

impl Random {
    pub closed spec fn seed_spec(&self) -> u32 {
        self.seed
    }

    pub closed spec fn wf(&self) -> bool {
        1 <= self.seed <= M
    }

    /// A generator seeded from the low 31 bits of `s`; the seeds 0 and `2^31 - 1`, which
    /// would repeat forever, become 1.
    pub fn new(s: u32) -> (r: Self)
        ensures
            r.wf(),
            r.seed_spec() == if (s & 0x7fff_ffff) == 0 || (s & 0x7fff_ffff) == M {
                1
            } else {
                s & 0x7fff_ffff
            },
    {
        let mut seed = s & 0x7fff_ffff;
        if seed == 0 || seed == M {
            seed = 1;
        }
        assert(seed <= M) by (bit_vector)
            requires
                seed == 1 || seed == s & 0x7fff_ffffu32,
        ;
        Random { seed }
    }

    /// Advances the seed to `seed * 16807 mod (2^31 - 1)` and returns it; a residue of 0 is
    /// returned as `2^31 - 1`, which cannot arise from a seed below the modulus.
    pub fn next(&mut self) -> (r: u32)
        requires
            old(self).wf(),
        ensures
            final(self).wf(),
            r == final(self).seed_spec(),
            r == next_seed(old(self).seed_spec()),
            1 <= r <= M,
            r as int % M as int == (old(self).seed_spec() as int * A as int) % M as int,
    {
        let product: u64 = self.seed as u64 * A;
        let hi = product >> 31;
        let lo = product & (M as u64);
        assert(hi == product / 0x8000_0000 && lo == product % 0x8000_0000) by (bit_vector)
            requires
                hi == product >> 31u64,
                lo == product & 0x7fff_ffffu64,
        ;
        let mut seed = hi + lo;
        proof {
            let p = product as int;
            let q = hi as int;
            let r0 = lo as int;
            let m = M as int;
            assert(p == q * 0x8000_0000 + r0) by {
                vstd::arithmetic::div_mod::lemma_fundamental_div_mod(p, 0x8000_0000);
            }
            assert(p == q * m + (q + r0)) by (nonlinear_arith)
                requires
                    p == q * 0x8000_0000 + r0,
                    m == 0x7fff_ffff,
            ;
            vstd::arithmetic::div_mod::lemma_mod_multiples_vanish(q, q + r0, m);
            assert(q * m + (q + r0) == m * q + (q + r0));
            assert(p > 0) by (nonlinear_arith)
                requires
                    p == (self.seed as int) * 16807,
                    self.seed >= 1,
            ;
            assert(q < 16807) by (nonlinear_arith)
                requires
                    p == (self.seed as int) * 16807,
                    self.seed <= m,
                    m == 0x7fff_ffff,
                    p == q * 0x8000_0000 + r0,
                    0 <= r0,
            ;
        }
        if seed > M as u64 {
            proof {
                vstd::arithmetic::div_mod::lemma_mod_sub_multiples_vanish(seed as int, M as int);
            }
            seed = seed - M as u64;
        }
        self.seed = seed as u32;
        self.seed
    }

    /// A value in `[0, n)`: the next value modulo `n`.
    pub fn uniform(&mut self, n: u32) -> (r: u32)
        requires
            old(self).wf(),
            n > 0,
        ensures
            final(self).wf(),
            r < n,
            final(self).seed_spec() == next_seed(old(self).seed_spec()),
            1 <= final(self).seed_spec() <= M,
            r == final(self).seed_spec() % n,
            final(self).seed_spec() as int % M as int == (old(self).seed_spec() as int * A as int)
                % M as int,
    {
        self.next() % n
    }

    /// True about once in `n` calls: when the next value is a multiple of `n`.
    pub fn one_in(&mut self, n: u32) -> (r: bool)
        requires
            old(self).wf(),
            n > 0,
        ensures
            final(self).wf(),
            r == (final(self).seed_spec() % n == 0),
            final(self).seed_spec() == next_seed(old(self).seed_spec()),
            1 <= final(self).seed_spec() <= M,
            final(self).seed_spec() as int % M as int == (old(self).seed_spec() as int * A as int)
                % M as int,
    {
        self.next() % n == 0
    }

    /// Picks `base` uniformly in `[0, max_log]`, then returns `base` random bits (the shift
    /// taken modulo 32): small values are exponentially more likely.
    pub fn skewed(&mut self, max_log: u32) -> (r: u32)
        requires
            old(self).wf(),
            max_log < u32::MAX,
        ensures
            final(self).wf(),
            max_log < 32 ==> r < pow2(max_log as nat),
            final(self).seed_spec() == next_seed(next_seed(old(self).seed_spec())),
            r as int == final(self).seed_spec() as int % pow2(
                ((next_seed(old(self).seed_spec()) as int % (max_log as int + 1)) % 32) as nat,
            ) as int,
    {
        let base = self.uniform(max_log + 1);
        let bound = pow2_u32(base % 32);
        proof {
            if max_log < 32 && base < max_log {
                vstd::arithmetic::power2::lemma_pow2_strictly_increases(base as nat, max_log as nat);
            }
        }
        self.uniform(bound)
    }
}

/// `2^k`.
fn pow2_u32(k: u32) -> (r: u32)
    requires
        k < 32,
    ensures
        r == pow2(k as nat),
        r > 0,
{
    let mut r: u32 = 1;
    let mut i: u32 = 0;
    proof {
        vstd::arithmetic::power2::lemma2_to64();
    }
    while i < k
        invariant
            i <= k < 32,
            r == pow2(i as nat),
        decreases k - i,
    {
        proof {
            vstd::arithmetic::power2::lemma_pow2_unfold((i + 1) as nat);
            vstd::arithmetic::power2::lemma_pow2_strictly_increases((i + 1) as nat, 32);
            vstd::arithmetic::power2::lemma2_to64();
        }
        r = r * 2;
        i = i + 1;
    }
    proof {
        vstd::arithmetic::power2::lemma_pow2_pos(k as nat);
    }
    r
}

} // verus!
