//! Bit-manipulation helpers of the block compressor's support code.

use vstd::prelude::*;
use vstd::arithmetic::power2::{pow2, lemma_pow2_pos, lemma_pow2_unfold};
use vstd::arithmetic::div_mod::{lemma_div_denominator, lemma_fundamental_div_mod};

verus! {

proof fn lemma_pow2_le(a: nat, b: nat)
    requires
        a <= b,
    ensures
        pow2(a) <= pow2(b),
{
    if a < b {
        vstd::arithmetic::power2::lemma_pow2_strictly_increases(a, b);
    }
}

pub struct Bits;

impl Bits {
    /// `floor(log2(n))` for positive `n`.
    pub fn log2_floor_non_zero(n: u32) -> (r: i32)
        requires
            n != 0,
        ensures
            0 <= r < 32,
            pow2(r as nat) <= n < pow2((r + 1) as nat),
    {
        let mut m: u32 = n;
        let mut r: i32 = 0;
        proof {
            vstd::arithmetic::power2::lemma2_to64();
            assert(pow2(r as nat) == 1);
            assert(n as int / 1 == n as int);
        }
        while m >= 2
            invariant
                1 <= m,
                0 <= r < 32,
                m as int == n as int / pow2(r as nat) as int,
                m as int * pow2(r as nat) <= u32::MAX,
            decreases m,
        {
            proof {
                lemma_pow2_pos(r as nat);
                lemma_pow2_unfold((r + 1) as nat);
                lemma_div_denominator(n as int, pow2(r as nat) as int, 2);
                assert((m / 2) as int * pow2((r + 1) as nat) <= m as int * pow2(r as nat))
                    by (nonlinear_arith)
                    requires
                        pow2((r + 1) as nat) == 2 * pow2(r as nat),
                        m >= 2,
                ;
                assert(pow2((r + 1) as nat) <= u32::MAX) by (nonlinear_arith)
                    requires
                        (m / 2) as int * pow2((r + 1) as nat) <= u32::MAX,
                        m >= 2,
                ;
                vstd::arithmetic::power2::lemma2_to64();
                if r + 1 >= 32 {
                    lemma_pow2_le(32, (r + 1) as nat);
                }
            }
            m = m / 2;
            r = r + 1;
        }
        proof {
            lemma_pow2_pos(r as nat);
            lemma_pow2_unfold((r + 1) as nat);
            lemma_fundamental_div_mod(n as int, pow2(r as nat) as int);
            vstd::arithmetic::div_mod::lemma_mod_pos_bound(n as int, pow2(r as nat) as int);
        }
        r
    }

    /// `floor(log2(n))`, and `-1` for zero.
    pub fn log2_floor(n: u32) -> (r: i32)
        ensures
            n == 0 ==> r == -1,
            n != 0 ==> 0 <= r < 32 && pow2(r as nat) <= n < pow2((r + 1) as nat),
    {
        if n == 0 {
            -1
        } else {
            Bits::log2_floor_non_zero(n)
        }
    }

    /// The index of the lowest set bit of positive `n`.
    pub fn find_lsb_set_non_zero(n: u32) -> (r: i32)
        requires
            n != 0,
        ensures
            0 <= r < 32,
            n as int % pow2(r as nat) as int == 0,
            (n as int / pow2(r as nat) as int) % 2 == 1,
    {
        Bits::find_lsb_set_non_zero64(n as u64)
    }

    /// The index of the lowest set bit of positive `n`.
    pub fn find_lsb_set_non_zero64(n: u64) -> (r: i32)
        requires
            n != 0,
        ensures
            0 <= r < 64,
            n <= u32::MAX ==> r < 32,
            n as int % pow2(r as nat) as int == 0,
            (n as int / pow2(r as nat) as int) % 2 == 1,
    {
        let mut m: u64 = n;
        let mut r: i32 = 0;
        proof {
            vstd::arithmetic::power2::lemma2_to64();
            assert(pow2(r as nat) == 1);
        }
        while m % 2 == 0
            invariant
                1 <= m,
                0 <= r < 64,
                n as int == m as int * pow2(r as nat) as int,
                n <= u32::MAX ==> r < 32,
            decreases m,
        {
            proof {
                lemma_pow2_unfold((r + 1) as nat);
                assert(n as int == (m / 2) as int * pow2((r + 1) as nat) as int) by (nonlinear_arith)
                    requires
                        n as int == m as int * pow2(r as nat) as int,
                        m % 2 == 0,
                        pow2((r + 1) as nat) == 2 * pow2(r as nat),
                ;
                vstd::arithmetic::power2::lemma2_to64();
                if r + 1 >= 64 {
                    lemma_pow2_le(64, (r + 1) as nat);
                    assert(n as int >= pow2((r + 1) as nat)) by (nonlinear_arith)
                        requires
                            n as int == (m / 2) as int * pow2((r + 1) as nat) as int,
                            m / 2 >= 1,
                    ;
                }
                if n <= u32::MAX && r + 1 >= 32 {
                    lemma_pow2_le(32, (r + 1) as nat);
                    assert(n as int >= pow2((r + 1) as nat)) by (nonlinear_arith)
                        requires
                            n as int == (m / 2) as int * pow2((r + 1) as nat) as int,
                            m / 2 >= 1,
                    ;
                }
            }
            m = m / 2;
            r = r + 1;
        }
        proof {
            lemma_pow2_pos(r as nat);
            vstd::arithmetic::div_mod::lemma_mod_multiples_basic(m as int, pow2(r as nat) as int);
            vstd::arithmetic::div_mod::lemma_div_multiples_vanish(m as int, pow2(r as nat) as int);
            assert(m as int * pow2(r as nat) as int == pow2(r as nat) as int * m as int)
                by (nonlinear_arith);
        }
        r
    }
}

} // verus!
