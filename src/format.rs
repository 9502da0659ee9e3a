//! Block handles, block trailers and the fixed-size footer of a table file.

use vstd::prelude::*;
use crate::coding::{
    fixed32_bytes, fixed64_bytes, put_fixed32, put_fixed64, put_varint64, varint_bytes,
    lemma_varint_len, lemma_pow128_values,
};
use crate::crc32c::{crc32c_of, mask_spec};
use crate::block_builder::{decode_block, Entry};
use crate::comparator::bytes_lt;
use crate::coding::{fixed64_value, parse_varint};

verus! {

/// The most bytes a handle takes: two varint64s.
pub const BLOCK_HANDLE_MAX_ENCODED_LENGTH: usize = 20;

/// A footer: two handles padded to their maximum length, then the magic number.
pub const FOOTER_ENCODED_LENGTH: usize = 48;

/// Identifies the table format; the last eight bytes of every table file.
pub const TABLE_MAGIC_NUMBER: u64 = 0xdb47_7524_8b80_fb57;

/// A block is followed by a one-byte compression tag and a four-byte checksum.
pub const BLOCK_TRAILER_SIZE: usize = 5;

/// The compression tag of a block stored as it is.
pub const NO_COMPRESSION_TAG: u8 = 0;

/// Where a block lies in the file, not counting its trailer.
#[derive(PartialEq, Eq, Structural, Clone, Copy, Debug)]
pub struct BlockHandle {
    pub offset: u64,
    pub size: u64,
}

/// The encoding of a handle: its offset, then its size, as varint64s.
pub open spec fn handle_bytes(h: BlockHandle) -> Seq<u8> {
    varint_bytes(h.offset as nat) + varint_bytes(h.size as nat)
}

/// The footer naming the metaindex and index blocks.
pub open spec fn footer_bytes(metaindex: BlockHandle, index: BlockHandle) -> Seq<u8> {
    let h = handle_bytes(metaindex) + handle_bytes(index);
    h + Seq::new((2 * BLOCK_HANDLE_MAX_ENCODED_LENGTH - h.len()) as nat, |i: int| 0u8)
        + fixed64_bytes(TABLE_MAGIC_NUMBER)
}

/// The trailer of a block stored uncompressed: the tag, then the masked checksum of the
/// contents followed by the tag.
pub open spec fn block_trailer(contents: Seq<u8>) -> Seq<u8> {
    seq![NO_COMPRESSION_TAG] + fixed32_bytes(
        mask_spec(crc32c_of(0, contents.push(NO_COMPRESSION_TAG))),
    )
}

pub proof fn lemma_handle_bytes_len(h: BlockHandle)
    ensures
        2 <= handle_bytes(h).len() <= BLOCK_HANDLE_MAX_ENCODED_LENGTH,
{
    lemma_pow128_values();
    lemma_varint_len(h.offset as nat, 10);
    lemma_varint_len(h.size as nat, 10);
}

/// Parses a handle at `pos`: its offset and size, and the index just past them.
pub open spec fn parse_handle(s: Seq<u8>, pos: int) -> Option<(BlockHandle, int)> {
    match parse_varint(s, pos, 10) {
        Some((offset, at1)) => match parse_varint(s, at1, 10) {
            Some((size, at2)) => if offset <= u64::MAX && size <= u64::MAX {
                Some((BlockHandle { offset: offset as u64, size: size as u64 }, at2))
            } else {
                None
            },
            None => None,
        },
        None => None,
    }
}

/// The bytes of the block that `h` names in `file`, when they lie within it.
pub open spec fn block_at(file: Seq<u8>, h: BlockHandle) -> Option<Seq<u8>> {
    if h.offset + h.size <= file.len() {
        Some(file.subrange(h.offset as int, h.offset + h.size))
    } else {
        None
    }
}

/// The metaindex and index handles in the footer of `file`, checked against the magic number.
pub open spec fn read_footer(file: Seq<u8>) -> Option<(BlockHandle, BlockHandle)> {
    if file.len() < FOOTER_ENCODED_LENGTH {
        None
    } else {
        let f = file.subrange(file.len() - FOOTER_ENCODED_LENGTH, file.len() as int);
        if fixed64_value(f.subrange(40, 48)) != TABLE_MAGIC_NUMBER {
            None
        } else {
            match parse_handle(f, 0) {
                Some((m, p)) => match parse_handle(f, p) {
                    Some((i, q)) => if q <= 40 {
                        Some((m, i))
                    } else {
                        None
                    },
                    None => None,
                },
                None => None,
            }
        }
    }
}

/// The entries of the data blocks that the index entries name, block after block.
pub open spec fn read_data_blocks(file: Seq<u8>, index: Seq<Entry>) -> Option<Seq<Entry>>
    decreases index.len(),
{
    if index.len() == 0 {
        Some(Seq::empty())
    } else {
        match read_data_blocks(file, index.drop_last()) {
            Some(before) => match parse_handle(index.last().1, 0) {
                Some((h, _)) => match block_at(file, h) {
                    Some(b) => match decode_block(b) {
                        Some(es) => Some(before + es),
                        None => None,
                    },
                    None => None,
                },
                None => None,
            },
            None => None,
        }
    }
}

/// The index entries of a table file: the block that its footer names, decoded.
pub open spec fn read_index(file: Seq<u8>) -> Option<Seq<Entry>> {
    match read_footer(file) {
        Some((_, index_handle)) => match block_at(file, index_handle) {
            Some(b) => decode_block(b),
            None => None,
        },
        None => None,
    }
}

/// The metaindex entries of a table file: the block that its footer names first, decoded.
pub open spec fn read_metaindex(file: Seq<u8>) -> Option<Seq<Entry>> {
    match read_footer(file) {
        Some((metaindex_handle, _)) => match block_at(file, metaindex_handle) {
            Some(b) => decode_block(b),
            None => None,
        },
        None => None,
    }
}

/// Reads a table file back: footer, then index block, then each data block it names.
pub open spec fn read_table(file: Seq<u8>) -> Option<Seq<Entry>> {
    match read_index(file) {
        Some(index) => read_data_blocks(file, index),
        None => None,
    }
}

/// The entries of the data block that the index value `handle` names; none when it names no
/// readable block.
pub open spec fn named_block_entries(file: Seq<u8>, handle: Seq<u8>) -> Seq<Entry> {
    match parse_handle(handle, 0) {
        Some((h, _)) => match block_at(file, h) {
            Some(b) => match decode_block(b) {
                Some(es) => es,
                None => Seq::empty(),
            },
            None => Seq::empty(),
        },
        None => Seq::empty(),
    }
}

/// The first index entry from `j` on whose key is at or after `key`; the index's length when
/// there is none.
pub open spec fn first_at_or_after(index: Seq<Entry>, key: Seq<u8>, j: nat) -> nat
    decreases index.len() - j,
{
    if j >= index.len() {
        index.len()
    } else if !bytes_lt(index[j as int].0, key) {
        j
    } else {
        first_at_or_after(index, key, j + 1)
    }
}

/// The value of the first entry of `es` whose key is `key`.
pub open spec fn value_in(es: Seq<Entry>, key: Seq<u8>) -> Option<Seq<u8>>
    decreases es.len(),
{
    if es.len() == 0 {
        None
    } else if es[0].0 == key {
        Some(es[0].1)
    } else {
        value_in(es.drop_first(), key)
    }
}

/// Looks `key` up in a table file: the first index key at or after it names the only block
/// that can hold it, which is then searched.
pub open spec fn table_get(file: Seq<u8>, key: Seq<u8>) -> Option<Seq<u8>> {
    match read_index(file) {
        Some(index) => {
            let j = first_at_or_after(index, key, 0);
            if j < index.len() {
                value_in(named_block_entries(file, index[j as int].1), key)
            } else {
                None
            }
        },
        None => None,
    }
}

/// A key held by no entry has no value among them.
pub proof fn lemma_value_in_absent(es: Seq<Entry>, key: Seq<u8>)
    requires
        forall|i: int| 0 <= i < es.len() ==> (#[trigger] es[i]).0 != key,
    ensures
        value_in(es, key) is None,
    decreases es.len(),
{
    if es.len() > 0 {
        assert forall|i: int| 0 <= i < es.drop_first().len() implies (
        #[trigger] es.drop_first()[i]).0 != key by {
            assert(es.drop_first()[i] == es[i + 1]);
        }
        lemma_value_in_absent(es.drop_first(), key);
    }
}

/// Every index key is at or after the last key of the block it names, and before the first
/// key of the next block: a search for a key can pick the first index key at or after it.
pub open spec fn index_separates_blocks(file: Seq<u8>, index: Seq<Entry>) -> bool {
    &&& forall|j: int|
        0 <= j < index.len() ==> named_block_entries(file, (#[trigger] index[j]).1).len() > 0
            && !bytes_lt(index[j].0, named_block_entries(file, index[j].1).last().0)
    &&& forall|j: int|
        0 <= j && j + 1 < index.len() ==> bytes_lt(
            (#[trigger] index[j]).0,
            named_block_entries(file, index[j + 1].1)[0].0,
        )
}

/// A handle reads back from its encoding, wherever it stands.
pub proof fn lemma_parse_handle(s: Seq<u8>, pos: int, h: BlockHandle)
    requires
        0 <= pos,
        pos + handle_bytes(h).len() <= s.len(),
        s.subrange(pos, pos + handle_bytes(h).len()) == handle_bytes(h),
    ensures
        parse_handle(s, pos) == Some((h, pos + handle_bytes(h).len())),
{
    lemma_pow128_values();
    lemma_varint_len(h.offset as nat, 10);
    lemma_varint_len(h.size as nat, 10);
    let a = varint_bytes(h.offset as nat);
    let b = varint_bytes(h.size as nat);
    let hb = handle_bytes(h);
    assert(s.subrange(pos, pos + a.len()) =~= hb.subrange(0, a.len() as int));
    assert(hb.subrange(0, a.len() as int) =~= a);
    assert(s.subrange(pos + a.len(), pos + a.len() + b.len()) =~= hb.subrange(
        a.len() as int,
        hb.len() as int,
    ));
    assert(hb.subrange(a.len() as int, hb.len() as int) =~= b);
    crate::coding::lemma_varint_round_trip(s, pos, h.offset as nat, 10);
    crate::coding::lemma_varint_round_trip(s, pos + a.len(), h.size as nat, 10);
}

/// The footer of a file reads back as the handles it was written with.
pub proof fn lemma_read_footer(w: Seq<u8>, metaindex: BlockHandle, index: BlockHandle)
    ensures
        read_footer(w + footer_bytes(metaindex, index)) == Some((metaindex, index)),
{
    lemma_footer_len(metaindex, index);
    let file = w + footer_bytes(metaindex, index);
    let f = file.subrange(file.len() - 48, file.len() as int);
    assert(f =~= footer_bytes(metaindex, index));
    lemma_handle_bytes_len(metaindex);
    lemma_handle_bytes_len(index);
    let hm = handle_bytes(metaindex);
    let hi = handle_bytes(index);
    crate::coding::lemma_fixed64_round_trip(TABLE_MAGIC_NUMBER);
    assert(f.subrange(40, 48) =~= fixed64_bytes(TABLE_MAGIC_NUMBER));
    assert(f.subrange(0, hm.len() as int) =~= hm);
    lemma_parse_handle(f, 0, metaindex);
    assert(f.subrange(hm.len() as int, (hm.len() + hi.len()) as int) =~= hi);
    lemma_parse_handle(f, hm.len() as int, index);
}

pub proof fn lemma_footer_len(metaindex: BlockHandle, index: BlockHandle)
    ensures
        footer_bytes(metaindex, index).len() == FOOTER_ENCODED_LENGTH,
{
    lemma_handle_bytes_len(metaindex);
    lemma_handle_bytes_len(index);
    crate::coding::lemma_fixed64_round_trip(TABLE_MAGIC_NUMBER);
}

impl BlockHandle {
    pub fn new(offset: u64, size: u64) -> (r: Self)
        ensures
            r.offset == offset,
            r.size == size,
    {
        BlockHandle { offset, size }
    }

    /// Appends the encoding of this handle.
    pub fn encode_to(&self, dst: &mut Vec<u8>)
        ensures
            final(dst)@ == old(dst)@ + handle_bytes(*self),
    {
        put_varint64(dst, self.offset);
        put_varint64(dst, self.size);
        assert(final(dst)@ =~= old(dst)@ + handle_bytes(*self));
    }
}

/// The footer naming the metaindex and index blocks.
pub fn encode_footer(metaindex: BlockHandle, index: BlockHandle) -> (r: Vec<u8>)
    ensures
        r@ == footer_bytes(metaindex, index),
        r@.len() == FOOTER_ENCODED_LENGTH,
{
    let mut r: Vec<u8> = Vec::new();
    metaindex.encode_to(&mut r);
    index.encode_to(&mut r);
    let ghost h = r@;
    proof {
        lemma_handle_bytes_len(metaindex);
        lemma_handle_bytes_len(index);
        crate::coding::lemma_fixed64_round_trip(TABLE_MAGIC_NUMBER);
    }
    while r.len() < 2 * BLOCK_HANDLE_MAX_ENCODED_LENGTH
        invariant
            h.len() <= 40,
            h.len() <= r@.len() <= 40,
            r@ == h + Seq::new((r@.len() - h.len()) as nat, |i: int| 0u8),
        decreases 40 - r@.len(),
    {
        r.push(0);
        assert(r@ =~= h + Seq::new((r@.len() - h.len()) as nat, |i: int| 0u8));
    }
    put_fixed64(&mut r, TABLE_MAGIC_NUMBER);
    assert(r@ =~= footer_bytes(metaindex, index));
    r
}

/// The trailer stored after the uncompressed block `contents`.
pub fn encode_block_trailer(contents: &[u8]) -> (r: Vec<u8>)
    ensures
        r@ == block_trailer(contents@),
        r@.len() == BLOCK_TRAILER_SIZE,
{
    let mut tag: Vec<u8> = Vec::new();
    tag.push(NO_COMPRESSION_TAG);
    let crc = crate::crc32c::extend(crate::crc32c::crc32c_value(contents), tag.as_slice());
    proof {
        assert(tag@ =~= seq![NO_COMPRESSION_TAG]);
        lemma_crc_extend_concat(contents@, seq![NO_COMPRESSION_TAG]);
        assert(contents@ + seq![NO_COMPRESSION_TAG] =~= contents@.push(NO_COMPRESSION_TAG));
    }
    let mut r: Vec<u8> = Vec::new();
    r.push(NO_COMPRESSION_TAG);
    put_fixed32(&mut r, crate::crc32c::mask(crc));
    assert(r@ =~= block_trailer(contents@));
    r
}

/// Checksumming in two pieces gives the checksum of the whole.
pub proof fn lemma_crc_extend_concat(a: Seq<u8>, b: Seq<u8>)
    ensures
        crc32c_of(crc32c_of(0, a), b) == crc32c_of(0, a + b),
    decreases b.len(),
{
    lemma_crc_update_concat(!0u32, a, b);
    let x = crate::crc32c::crc_update(!0u32, a);
    assert(!(!x) == x) by (bit_vector);
}

proof fn lemma_crc_update_concat(c: u32, a: Seq<u8>, b: Seq<u8>)
    ensures
        crate::crc32c::crc_update(crate::crc32c::crc_update(c, a), b) == crate::crc32c::crc_update(
            c,
            a + b,
        ),
    decreases b.len(),
{
    if b.len() > 0 {
        lemma_crc_update_concat(c, a, b.drop_last());
        assert((a + b).drop_last() =~= a + b.drop_last());
    } else {
        assert(a + b =~= a);
    }
}

} // verus!
