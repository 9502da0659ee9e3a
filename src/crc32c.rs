//! CRC-32C (Castagnoli) checksums of block contents, and the masking applied before storing one.

use vstd::prelude::*;
use vstd::string::StringSliceAdditionalSpecFns;

verus! {

/// The reflected Castagnoli polynomial.
pub const POLY: u32 = 0x82f6_3b78;

/// Added to a rotated checksum before it is stored.
pub const MASK_DELTA: u32 = 0xa282_ead8;

/// `k` rounds of shifting the register right, folding in the polynomial when a one falls out.
pub open spec fn crc_shift(c: u32, k: nat) -> u32
    decreases k,
{
    if k == 0 {
        c
    } else {
        let p = crc_shift(c, (k - 1) as nat);
        if p & 1 == 1 {
            (p >> 1) ^ POLY
        } else {
            p >> 1
        }
    }
}

/// The register after feeding `data` into it, starting from `c`.
pub open spec fn crc_update(c: u32, data: Seq<u8>) -> u32
    decreases data.len(),
{
    if data.len() == 0 {
        c
    } else {
        crc_shift(crc_update(c, data.drop_last()) ^ (data.last() as u32), 8)
    }
}

/// The CRC-32C of `data` continued from the checksum `crc` of what came before it.
pub open spec fn crc32c_of(crc: u32, data: Seq<u8>) -> u32 {
    !crc_update(!crc, data)
}

/// The stored form of a checksum: rotated right by 15 bits, plus a constant.
pub open spec fn mask_spec(crc: u32) -> u32 {
    ((crc >> 15u32) | (crc << 17u32)).wrapping_add(MASK_DELTA)
}

/// Extends the checksum `crc` of some bytes with the bytes of `data`.
pub fn extend(crc: u32, data: &[u8]) -> (r: u32)
    ensures
        r == crc32c_of(crc, data@),
{
    let mut c: u32 = !crc;
    let mut i: usize = 0;
    while i < data.len()
        invariant
            i <= data@.len(),
            c == crc_update(!crc, data@.take(i as int)),
        decreases data@.len() - i,
    {
        c = c ^ (data[i] as u32);
        let ghost c0 = c;
        let mut j: usize = 0;
        while j < 8
            invariant
                j <= 8,
                c == crc_shift(c0, j as nat),
            decreases 8 - j,
        {
            if c & 1 == 1 {
                c = (c >> 1) ^ POLY;
            } else {
                c = c >> 1;
            }
            j = j + 1;
        }
        proof {
            assert(data@.take(i + 1).drop_last() =~= data@.take(i as int));
        }
        i = i + 1;
    }
    assert(data@.take(i as int) =~= data@);
    !c
}

/// Extends the checksum `crc` with the bytes of `data`.
pub fn crc32c_extend(crc: u32, data: &[u8]) -> (r: u32)
    ensures
        r == crc32c_of(crc, data@),
{
    extend(crc, data)
}

/// The checksum of `data`.
pub fn crc32c_value(data: &[u8]) -> (r: u32)
    ensures
        r == crc32c_of(0, data@),
{
    extend(0, data)
}

/// The checksum of `data`.
pub fn crc32c(data: &[u8]) -> (r: u32)
    ensures
        r == crc32c_of(0, data@),
{
    extend(0, data)
}

/// The checksum of the bytes of `data`.
pub fn crc32c_str(data: &str) -> (r: u32)
    ensures
        r == crc32c_of(0, data.spec_bytes()),
{
    extend(0, data.as_bytes())
}

/// The form in which a checksum is stored, so that checksums of data holding checksums stay robust.
pub fn mask(crc: u32) -> (r: u32)
    ensures
        r == mask_spec(crc),
{
    let rot = (crc >> 15) | (crc << 17);
    rot.wrapping_add(MASK_DELTA)
}

/// The checksum that `mask` turned into `masked`.
pub fn unmask(masked: u32) -> (r: u32)
    ensures
        mask_spec(r) == masked,
{
    let rot = masked.wrapping_sub(MASK_DELTA);
    let r = (rot >> 17) | (rot << 15);
    assert(((r >> 15u32) | (r << 17u32)) == rot) by (bit_vector)
        requires
            r == (rot >> 17u32) | (rot << 15u32),
    ;
    r
}

} // verus!
