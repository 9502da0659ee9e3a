//! A 32-bit hash of byte strings in the style of murmur hash.

use vstd::prelude::*;
use crate::coding::{decode_fixed32, fixed32_value};

verus! {

/// The multiplier of each mixing step.
pub const HASH_M: u32 = 0xc6a4_a793;

/// Folds one little-endian word into the hash.
pub open spec fn mix_word(h: u32, w: u32) -> u32 {
    let h1 = h.wrapping_add(w).wrapping_mul(HASH_M);
    h1 ^ (h1 >> 16u32)
}

/// Folds the last one to three bytes into the hash.
pub open spec fn mix_tail(h: u32, d: Seq<u8>) -> u32 {
    let h3 = if d.len() == 3 {
        h.wrapping_add(((d[2] as u32) * 0x10000) as u32)
    } else {
        h
    };
    let h2 = if d.len() >= 2 {
        h3.wrapping_add(((d[1] as u32) * 0x100) as u32)
    } else {
        h3
    };
    if d.len() >= 1 {
        let h1 = h2.wrapping_add(d[0] as u32).wrapping_mul(HASH_M);
        h1 ^ (h1 >> 24u32)
    } else {
        h2
    }
}

/// The hash state after folding in `d` four bytes at a time, then its tail.
pub open spec fn mix_rest(h: u32, d: Seq<u8>) -> u32
    decreases d.len(),
{
    if d.len() >= 4 {
        mix_rest(mix_word(h, fixed32_value(d.take(4)) as u32), d.skip(4))
    } else {
        mix_tail(h, d)
    }
}

/// The hash of `data` under `seed`.
pub open spec fn hash_spec(data: Seq<u8>, seed: u32) -> u32 {
    mix_rest(seed ^ ((data.len() % 0x1_0000_0000) as u32).wrapping_mul(HASH_M), data)
}

fn mix_word_exec(h: u32, w: u32) -> (r: u32)
    ensures
        r == mix_word(h, w),
{
    let h1 = h.wrapping_add(w).wrapping_mul(HASH_M);
    h1 ^ (h1 >> 16)
}

fn mix_tail_exec(h: u32, d: &[u8], i: usize) -> (r: u32)
    requires
        i <= d@.len() < i + 4,
    ensures
        r == mix_tail(h, d@.skip(i as int)),
{
    let rest = d.len() - i;
    let ghost t = d@.skip(i as int);
    let mut h = h;
    if rest == 3 {
        assert(t[2] == d[i + 2]);
        h = h.wrapping_add((d[i + 2] as u32) * 0x10000);
    }
    if rest >= 2 {
        assert(t[1] == d[i + 1]);
        h = h.wrapping_add((d[i + 1] as u32) * 0x100);
    }
    if rest >= 1 {
        assert(t[0] == d[i as int]);
        let h1 = h.wrapping_add(d[i] as u32).wrapping_mul(HASH_M);
        h = h1 ^ (h1 >> 24);
    }
    h
}

/// The hash of `data` under `seed`.
pub fn hash(data: &[u8], seed: u32) -> (r: u32)
    ensures
        r == hash_spec(data@, seed),
{
    let n = data.len();
    let mut h: u32 = seed ^ ((n as u64 % 0x1_0000_0000) as u32).wrapping_mul(HASH_M);
    let mut i: usize = 0;
    assert(data@.skip(0) =~= data@);
    while n - i >= 4
        invariant
            n == data@.len(),
            i <= n,
            hash_spec(data@, seed) == mix_rest(h, data@.skip(i as int)),
        decreases n - i,
    {
        let w = decode_fixed32(data, i);
        proof {
            let d = data@.skip(i as int);
            assert(d.take(4) =~= data@.subrange(i as int, i + 4));
            assert(d.skip(4) =~= data@.skip(i + 4));
        }
        h = mix_word_exec(h, w);
        i = i + 4;
    }
    mix_tail_exec(h, data, i)
}

} // verus!
