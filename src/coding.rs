//! Fixed-width little-endian integers and base-128 varints, as laid out in table files.

use vstd::prelude::*;

verus! {

/// The four little-endian bytes of `v`.
pub open spec fn fixed32_bytes(v: u32) -> Seq<u8> {
    seq![
        (v as int % 256) as u8,
        (v as int / 0x100 % 256) as u8,
        (v as int / 0x10000 % 256) as u8,
        (v as int / 0x1000000 % 256) as u8,
    ]
}

/// The eight little-endian bytes of `v`.
pub open spec fn fixed64_bytes(v: u64) -> Seq<u8> {
    fixed32_bytes((v as int % 0x1_0000_0000) as u32) + fixed32_bytes(
        (v as int / 0x1_0000_0000) as u32,
    )
}

/// The value of four little-endian bytes.
pub open spec fn fixed32_value(b: Seq<u8>) -> int {
    b[0] as int + 0x100 * b[1] as int + 0x10000 * b[2] as int + 0x1000000 * b[3] as int
}

/// The value of eight little-endian bytes.
pub open spec fn fixed64_value(b: Seq<u8>) -> int {
    fixed32_value(b.subrange(0, 4)) + 0x1_0000_0000 * fixed32_value(b.subrange(4, 8))
}

/// Base-128 encoding of `v`, low group first; every byte but the last has its high bit set.
pub open spec fn varint_bytes(v: nat) -> Seq<u8>
    decreases v,
{
    if v < 128 {
        seq![v as u8]
    } else {
        seq![(v % 128 + 128) as u8] + varint_bytes(v / 128)
    }
}

/// Parses a varint that starts at index `i` of `s` and spans at most `k` bytes:
/// its value and the index just past it, or `None` when it is cut short or too long.
pub open spec fn parse_varint(s: Seq<u8>, i: int, k: nat) -> Option<(nat, int)>
    decreases k,
{
    if k == 0 || i < 0 || i >= s.len() {
        None
    } else if s[i] < 128 {
        Some((s[i] as nat, i + 1))
    } else {
        match parse_varint(s, i + 1, (k - 1) as nat) {
            Some((v, e)) => Some(((s[i] - 128) as nat + 128 * v, e)),
            None => None,
        }
    }
}

pub proof fn lemma_fixed32_round_trip(v: u32)
    ensures
        fixed32_value(fixed32_bytes(v)) == v,
        fixed32_bytes(v).len() == 4,
{
    let x = v as int;
    assert(x == x % 256 + 256 * (x / 256 % 256) + 0x10000 * (x / 0x10000 % 256) + 0x1000000 * (x
        / 0x1000000 % 256)) by (nonlinear_arith)
        requires
            0 <= x < 0x1_0000_0000,
    ;
}

pub proof fn lemma_fixed64_round_trip(v: u64)
    ensures
        fixed64_value(fixed64_bytes(v)) == v,
        fixed64_bytes(v).len() == 8,
{
    let lo = (v as int % 0x1_0000_0000) as u32;
    let hi = (v as int / 0x1_0000_0000) as u32;
    lemma_fixed32_round_trip(lo);
    lemma_fixed32_round_trip(hi);
    let b = fixed64_bytes(v);
    assert(b.subrange(0, 4) =~= fixed32_bytes(lo));
    assert(b.subrange(4, 8) =~= fixed32_bytes(hi));
    assert(v as int == v as int % 0x1_0000_0000 + 0x1_0000_0000 * (v as int / 0x1_0000_0000))
        by (nonlinear_arith);
}

/// A varint is never empty, and is short when its value is small.
pub proof fn lemma_varint_len(v: nat, k: nat)
    requires
        v < pow128(k),
        k >= 1,
    ensures
        1 <= varint_bytes(v).len() <= k,
    decreases v,
{
    if v >= 128 {
        assert(k >= 2) by {
            if k == 1 {
                assert(pow128(1) == 128 * pow128(0));
            }
        }
        assert(pow128(k) == 128 * pow128((k - 1) as nat));
        assert(v / 128 < pow128((k - 1) as nat)) by (nonlinear_arith)
            requires
                v < 128 * pow128((k - 1) as nat),
        ;
        lemma_varint_len(v / 128, (k - 1) as nat);
    }
}

/// `128` to the power `k`.
pub open spec fn pow128(k: nat) -> nat
    decreases k,
{
    if k == 0 {
        1
    } else {
        128 * pow128((k - 1) as nat)
    }
}

pub proof fn lemma_pow128_values()
    ensures
        pow128(5) == 0x8_0000_0000,
        pow128(10) == 0x40_0000_0000_0000_0000,
{
    reveal_with_fuel(pow128, 11);
}

/// Parsing reads back what `varint_bytes` wrote, wherever it stands in a longer sequence.
pub proof fn lemma_varint_round_trip(s: Seq<u8>, i: int, v: nat, k: nat)
    requires
        0 <= i,
        i + varint_bytes(v).len() <= s.len(),
        s.subrange(i, i + varint_bytes(v).len()) == varint_bytes(v),
        varint_bytes(v).len() <= k,
    ensures
        parse_varint(s, i, k) == Some((v, i + varint_bytes(v).len())),
    decreases v,
{
    let b = varint_bytes(v);
    assert(s[i] == s.subrange(i, i + b.len())[0]);
    if v >= 128 {
        let rest = varint_bytes(v / 128);
        assert(s.subrange(i + 1, i + 1 + rest.len()) =~= s.subrange(i, i + b.len()).subrange(
            1,
            b.len() as int,
        ));
        assert(b.subrange(1, b.len() as int) =~= rest);
        lemma_varint_round_trip(s, i + 1, v / 128, (k - 1) as nat);
    }
}

/// Appends the four little-endian bytes of `value`.
pub fn put_fixed32(dst: &mut Vec<u8>, value: u32)
    ensures
        final(dst)@ == old(dst)@ + fixed32_bytes(value),
{
    dst.push((value % 256) as u8);
    dst.push((value / 0x100 % 256) as u8);
    dst.push((value / 0x10000 % 256) as u8);
    dst.push((value / 0x1000000 % 256) as u8);
    assert(final(dst)@ =~= old(dst)@ + fixed32_bytes(value));
}

/// Appends the eight little-endian bytes of `value`.
pub fn put_fixed64(dst: &mut Vec<u8>, value: u64)
    ensures
        final(dst)@ == old(dst)@ + fixed64_bytes(value),
{
    put_fixed32(dst, (value % 0x1_0000_0000) as u32);
    put_fixed32(dst, (value / 0x1_0000_0000) as u32);
    assert(final(dst)@ =~= old(dst)@ + fixed64_bytes(value));
}

/// Appends the varint encoding of `v`.
pub fn put_varint32(dst: &mut Vec<u8>, v: u32)
    ensures
        final(dst)@ == old(dst)@ + varint_bytes(v as nat),
{
    put_varint64(dst, v as u64);
}

/// Appends the varint encoding of `v`.
pub fn put_varint64(dst: &mut Vec<u8>, v: u64)
    ensures
        final(dst)@ == old(dst)@ + varint_bytes(v as nat),
{
    let mut cur: u64 = v;
    while cur >= 128
        invariant
            dst@ + varint_bytes(cur as nat) == old(dst)@ + varint_bytes(v as nat),
        decreases cur,
    {
        proof {
            assert(dst@ + varint_bytes(cur as nat) =~= dst@.push((cur % 128 + 128) as u8)
                + varint_bytes((cur / 128) as nat));
        }
        dst.push((cur % 128 + 128) as u8);
        cur = cur / 128;
    }
    dst.push(cur as u8);
    assert(dst@ =~= old(dst)@ + varint_bytes(v as nat));
}

/// Appends the varint length of `value` followed by its bytes.
pub fn put_length_prefixed_slice(dst: &mut Vec<u8>, value: &[u8])
    requires
        value@.len() <= u32::MAX,
    ensures
        final(dst)@ == old(dst)@ + varint_bytes(value@.len()) + value@,
{
    put_varint32(dst, value.len() as u32);
    append_bytes(dst, value);
    assert(final(dst)@ =~= old(dst)@ + varint_bytes(value@.len()) + value@);
}

/// Appends every byte of `src`.
pub fn append_bytes(dst: &mut Vec<u8>, src: &[u8])
    ensures
        final(dst)@ == old(dst)@ + src@,
{
    let mut i: usize = 0;
    while i < src.len()
        invariant
            i <= src@.len(),
            dst@ == old(dst)@ + src@.subrange(0, i as int),
        decreases src@.len() - i,
    {
        dst.push(src[i]);
        i = i + 1;
        assert(dst@ =~= old(dst)@ + src@.subrange(0, i as int));
    }
    assert(src@.subrange(0, i as int) =~= src@);
}

/// The value of the four little-endian bytes at `pos`.
pub fn decode_fixed32(src: &[u8], pos: usize) -> (r: u32)
    requires
        pos + 4 <= src@.len(),
    ensures
        r == fixed32_value(src@.subrange(pos as int, pos + 4)),
{
    let b0 = src[pos] as u32;
    let b1 = src[pos + 1] as u32;
    let b2 = src[pos + 2] as u32;
    let b3 = src[pos + 3] as u32;
    b0 + 0x100 * b1 + 0x10000 * b2 + 0x1000000 * b3
}

/// The value of the eight little-endian bytes at `pos`.
pub fn decode_fixed64(src: &[u8], pos: usize) -> (r: u64)
    requires
        pos + 8 <= src@.len(),
    ensures
        r == fixed64_value(src@.subrange(pos as int, pos + 8)),
{
    let ghost b = src@.subrange(pos as int, pos + 8);
    let lo = src[pos] as u64 + 0x100 * src[pos + 1] as u64 + 0x10000 * src[pos + 2] as u64
        + 0x1000000 * src[pos + 3] as u64;
    let hi = src[pos + 4] as u64 + 0x100 * src[pos + 5] as u64 + 0x10000 * src[pos + 6] as u64
        + 0x1000000 * src[pos + 7] as u64;
    assert(lo == fixed32_value(b.subrange(0, 4)));
    assert(hi == fixed32_value(b.subrange(4, 8)));
    lo + 0x1_0000_0000 * hi
}

/// Parses a varint of at most `max_len` bytes at `pos`, reading no byte at or past `limit`.
/// Returns its value modulo `2^(7*max_len)` truncated to the 64 bits kept, and the index past it.
fn parse_varint_exec(src: &[u8], pos: usize, limit: usize, max_len: usize) -> (r: Option<
    (u128, usize),
>)
    requires
        limit <= src@.len(),
        1 <= max_len <= 10,
    ensures
        match parse_varint(src@.subrange(0, limit as int), pos as int, max_len as nat) {
            Some((v, e)) => v < pow128(max_len as nat) && r == Some((v as u128, e as usize)),
            None => r is None,
        },
{
    let ghost s = src@.subrange(0, limit as int);
    proof {
        lemma_parse_varint_bounds(s, pos as int, max_len as nat);
        lemma_pow128_mono(max_len as nat, 10);
        lemma_pow128_values();
    }
    let mut i: usize = pos;
    let mut acc: u128 = 0;
    let mut mult: u128 = 1;
    let mut left: usize = max_len;
    while i < limit && left > 0
        invariant
            limit <= src@.len(),
            s == src@.subrange(0, limit as int),
            pos <= i,
            1 <= max_len <= 10,
            left <= max_len,
            i - pos + left == max_len,
            mult == pow128((i - pos) as nat),
            acc < mult,
            match parse_varint(s, pos as int, max_len as nat) {
                Some((v, e)) => v < pow128(max_len as nat),
                None => true,
            },
            parse_varint(s, pos as int, max_len as nat) == match parse_varint(
                s,
                i as int,
                left as nat,
            ) {
                Some((v, e)) => Some(((acc + mult * v) as nat, e)),
                None => None::<(nat, int)>,
            },
        decreases left,
    {
        let b = src[i];
        assert(s[i as int] == b);
        proof {
            lemma_pow128_mono((i - pos) as nat, 9);
            lemma_pow128_values();
            reveal_with_fuel(pow128, 10);
        }
        if b < 128 {
            proof {
                assert(parse_varint(s, i as int, left as nat) == Some((b as nat, i + 1)));
                assert(acc + mult * (b as int) < pow128(10) * 128) by (nonlinear_arith)
                    requires
                        mult <= pow128(9),
                        acc < mult,
                        b < 128,
                ;
                assert(parse_varint(s, pos as int, max_len as nat) == Some(
                    ((acc + mult * b) as nat, i + 1),
                ));
            }
            return Some((acc + mult * (b as u128), i + 1));
        }
        proof {
            assert(acc + mult * ((b - 128) as int) < mult * 128) by (nonlinear_arith)
                requires
                    acc < mult,
                    b < 256,
                    b >= 128,
            ;
            assert(pow128((i + 1 - pos) as nat) == 128 * pow128((i - pos) as nat));
            let tail = parse_varint(s, i + 1, (left - 1) as nat);
            match tail {
                Some((v, e)) => {
                    let d = b - 128;
                    assert(mult * (d + 128 * v) == mult * d + (mult * 128) * v)
                        by (nonlinear_arith);
                },
                None => {},
            }
        }
        acc = acc + mult * ((b - 128) as u128);
        mult = mult * 128;
        i = i + 1;
        left = left - 1;
    }
    None
}

/// A parsed varint of at most `k` bytes is below `128^k` and ends within its input.
pub proof fn lemma_parse_varint_bounds(s: Seq<u8>, i: int, k: nat)
    ensures
        match parse_varint(s, i, k) {
            Some((v, e)) => v < pow128(k) && i < e <= i + k && e <= s.len(),
            None => true,
        },
    decreases k,
{
    if k > 0 && 0 <= i < s.len() && s[i] < 128 {
        lemma_pow128_mono(1, k);
        reveal_with_fuel(pow128, 2);
    }
    if k > 0 && 0 <= i < s.len() && s[i] >= 128 {
        assert(pow128(k) == 128 * pow128((k - 1) as nat));
        lemma_parse_varint_bounds(s, i + 1, (k - 1) as nat);
        match parse_varint(s, i + 1, (k - 1) as nat) {
            Some((v, e)) => {
                let d = s[i] - 128;
                assert(d + 128 * v < 128 * pow128((k - 1) as nat)) by (nonlinear_arith)
                    requires
                        0 <= d < 128,
                        v < pow128((k - 1) as nat),
                ;
            },
            None => {},
        }
    }
}

proof fn lemma_pow128_mono(a: nat, b: nat)
    requires
        a <= b,
    ensures
        pow128(a) <= pow128(b),
    decreases b,
{
    if a < b {
        lemma_pow128_mono(a, (b - 1) as nat);
    }
}

/// Parses a varint32 at `pos` that ends before `limit`: its value and the index just past it.
/// A value wider than 32 bits keeps its low 32 bits; more than five bytes is an error.
pub fn get_varint32_ptr(src: &[u8], pos: usize, limit: usize) -> (r: Option<(u32, usize)>)
    requires
        limit <= src@.len(),
    ensures
        match parse_varint(src@.subrange(0, limit as int), pos as int, 5) {
            Some((v, e)) => r == Some(((v % 0x1_0000_0000) as u32, e as usize)),
            None => r is None,
        },
{
    proof {
        lemma_pow128_values();
    }
    match parse_varint_exec(src, pos, limit, 5) {
        Some((v, e)) => Some(((v % 0x1_0000_0000) as u32, e)),
        None => None,
    }
}

/// Parses a varint64 at `pos` that ends before `limit`: its value and the index just past it.
/// A value wider than 64 bits keeps its low 64 bits; more than ten bytes is an error.
pub fn get_varint64_ptr(src: &[u8], pos: usize, limit: usize) -> (r: Option<(u64, usize)>)
    requires
        limit <= src@.len(),
    ensures
        match parse_varint(src@.subrange(0, limit as int), pos as int, 10) {
            Some((v, e)) => r == Some(((v % 0x1_0000_0000_0000_0000) as u64, e as usize)),
            None => r is None,
        },
{
    proof {
        lemma_pow128_values();
    }
    match parse_varint_exec(src, pos, limit, 10) {
        Some((v, e)) => Some(((v % 0x1_0000_0000_0000_0000) as u64, e)),
        None => None,
    }
}

/// Parses a varint32 at `pos` of `input`: its value and the index just past it.
pub fn get_varint32(input: &[u8], pos: usize) -> (r: Option<(u32, usize)>)
    ensures
        match parse_varint(input@, pos as int, 5) {
            Some((v, e)) => r == Some(((v % 0x1_0000_0000) as u32, e as usize)),
            None => r is None,
        },
{
    assert(input@.subrange(0, input@.len() as int) =~= input@);
    get_varint32_ptr(input, pos, input.len())
}

/// Parses a varint64 at `pos` of `input`: its value and the index just past it.
pub fn get_varint64(input: &[u8], pos: usize) -> (r: Option<(u64, usize)>)
    ensures
        match parse_varint(input@, pos as int, 10) {
            Some((v, e)) => r == Some(((v % 0x1_0000_0000_0000_0000) as u64, e as usize)),
            None => r is None,
        },
{
    assert(input@.subrange(0, input@.len() as int) =~= input@);
    get_varint64_ptr(input, pos, input.len())
}

/// Parses a varint32 length at `pos` and the bytes it announces: those bytes and the index
/// just past them, or `None` when the length is malformed or runs past the end.
pub fn get_length_prefixed_slice(input: &[u8], pos: usize) -> (r: Option<(Vec<u8>, usize)>)
    ensures
        match parse_varint(input@, pos as int, 5) {
            Some((v, e)) => {
                let len = (v % 0x1_0000_0000) as int;
                if e + len <= input@.len() {
                    match r {
                        Some((bytes, end)) => bytes@ == input@.subrange(e, e + len) && end == e + len,
                        None => false,
                    }
                } else {
                    r is None
                }
            },
            None => r is None,
        },
{
    match get_varint32(input, pos) {
        Some((len, e)) => {
            proof {
                lemma_parse_varint_bounds(input@, pos as int, 5);
            }
            if len as usize > input.len() - e {
                return None;
            }
            let end = e + len as usize;
            let mut out: Vec<u8> = Vec::new();
            append_bytes(&mut out, &input[e..end]);
            Some((out, end))
        },
        None => None,
    }
}

/// The number of bytes in the varint encoding of `v`.
pub fn varint_length(v: u64) -> (r: usize)
    ensures
        r == varint_bytes(v as nat).len(),
        1 <= r <= 10,
{
    let mut cur: u64 = v;
    let mut len: usize = 1;
    proof {
        lemma_pow128_values();
        lemma_varint_len(v as nat, 10);
    }
    while cur >= 128
        invariant
            len + varint_bytes(cur as nat).len() == 1 + varint_bytes(v as nat).len(),
            varint_bytes(v as nat).len() <= 10,
            1 <= varint_bytes(cur as nat).len(),
        decreases cur,
    {
        proof {
            lemma_pow128_values();
            lemma_varint_len((cur / 128) as nat, 10);
        }
        len = len + 1;
        cur = cur / 128;
    }
    len
}

} // verus!
