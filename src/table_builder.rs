//! Assembles a table file: data blocks, the filter block, the metaindex block, the index
//! block and the footer, in that order.

use vstd::prelude::*;
use vstd::string::StringSliceAdditionalSpecFns;
use crate::block_builder::{
    block_contents, block_data, decode_block, keys_increasing, restart_offsets, BlockBuilder, Entry,
};
use crate::coding::append_bytes;
use crate::comparator::{
    bytes_lt, bytewise_comparator, lemma_bytes_lt_transitive, lemma_short_successor,
    lemma_shortest_separator, short_successor, shortest_separator,
};
use crate::env::WritableFile;
use crate::filter_block::{
    filter_block_bytes, oversized_filter_block, FilterBlockBuilder, FilterPolicy, FILTER_BASE,
};
use crate::format::{
    block_trailer, encode_block_trailer, encode_footer, footer_bytes, handle_bytes,
    first_at_or_after, index_separates_blocks, lemma_handle_bytes_len, lemma_value_in_absent,
    named_block_entries, parse_handle, block_at, read_data_blocks, read_footer, read_index,
    read_metaindex,
    read_table, table_get, BlockHandle,
    BLOCK_HANDLE_MAX_ENCODED_LENGTH, BLOCK_TRAILER_SIZE, FOOTER_ENCODED_LENGTH,
};
use crate::status::{Code, Status};

verus! {

/// How data blocks are to be compressed.
#[derive(PartialEq, Eq, Structural, Clone, Copy, Debug)]
pub enum CompressionType {
    /// Blocks are stored as they are (tag 0).
    NoCompression,
    /// Blocks are to be compressed with the default compressor (tag 1). This library carries
    /// no compressor, so such blocks are stored as they are, with tag 0, as a build without
    /// the compressor does.
    SnappyCompression,
}

/// What a table is built with.
#[derive(PartialEq, Eq, Structural, Clone, Copy, Debug)]
pub struct Options {
    /// A data block is written out once its estimated size reaches this many bytes.
    pub block_size: usize,
    /// Every this many entries, a data block stores a whole key.
    pub block_restart_interval: usize,
    pub compression: CompressionType,
}

impl Options {
    /// 4 KiB blocks, a restart point every 16 entries, no compression.
    pub fn new() -> (r: Self)
        ensures
            r.block_size == 4096,
            r.block_restart_interval == 16,
            r.compression == CompressionType::NoCompression,
    {
        Options {
            block_size: 4096,
            block_restart_interval: 16,
            compression: CompressionType::NoCompression,
        }
    }
}

/// Where a builder is in its life.
#[derive(PartialEq, Eq, Structural, Clone, Copy, Debug)]
pub enum BuildState {
    Open,
    Finished,
    Abandoned,
}

pub struct TableBuilder<P, W> {
    options: Options,
    file: W,
    offset: u64,
    status: Status,
    data_block: BlockBuilder,
    index_block: BlockBuilder,
    last_key: Vec<u8>,
    num_entries: u64,
    state: BuildState,
    filter_block: Option<FilterBlockBuilder<P>>,
    pending_index_entry: bool,
    pending_handle: BlockHandle,
    written: Ghost<Seq<u8>>,
    entries: Ghost<Seq<Entry>>,
    blocks: Ghost<Seq<(BlockHandle, Seq<Entry>)>>,
}

impl<P: FilterPolicy, W: WritableFile> TableBuilder<P, W> {
    /// Every entry added so far, in order.
    pub closed spec fn entries(&self) -> Seq<Entry> {
        self.entries@
    }

    /// Every byte written to the file so far.
    pub closed spec fn written(&self) -> Seq<u8> {
        self.written@
    }

    pub closed spec fn state(&self) -> BuildState {
        self.state
    }

    pub closed spec fn status_code(&self) -> Code {
        self.status.code_spec()
    }

    pub closed spec fn options_spec(&self) -> Options {
        self.options
    }

    /// The entries of the data block being filled.
    pub closed spec fn buffered(&self) -> Seq<Entry> {
        self.data_block.entries()
    }

    /// The status, message included.
    pub closed spec fn status_spec(&self) -> Status {
        self.status
    }

    /// The entries recorded in the index block so far: a separator key and a block handle each.
    pub closed spec fn index_entries(&self) -> Seq<Entry> {
        self.index_block.entries()
    }

    /// Whether the data block written last still awaits its index entry.
    pub closed spec fn has_pending_index_entry(&self) -> bool {
        self.pending_index_entry
    }

    /// The handle of the data block written last.
    pub closed spec fn pending_handle_spec(&self) -> BlockHandle {
        self.pending_handle
    }

    /// The keys handed to the filter builder since its last filter, when there is a policy.
    pub closed spec fn filter_pending(&self) -> Option<Seq<Seq<u8>>> {
        match self.filter_block {
            Some(f) => Some(f.pending()),
            None => None,
        }
    }

    /// Once the table is finished, the filter block that was written; `None` without a filter
    /// policy.
    pub closed spec fn filter_output(&self) -> Option<Seq<u8>> {
        match self.filter_block {
            Some(f) => Some(
                if f.is_oversized() {
                    oversized_filter_block()
                } else {
                    filter_block_bytes(f.filters())
                },
            ),
            None => None,
        }
    }

    /// Whether an entry with a key and value of these lengths fits: the data block keeps its
    /// offsets within 32 bits, and so does the index block when it must first name the block
    /// written last.
    pub closed spec fn accepts(&self, key_len: nat, value_len: nat) -> bool {
        &&& self.data_block.can_add(key_len, value_len)
        &&& self.pending_index_entry ==> self.index_block.can_add(
            self.last_key@.len(),
            BLOCK_HANDLE_MAX_ENCODED_LENGTH as nat,
        )
    }

    /// Whether adding this entry brings the data block's size estimate to the block size, so
    /// that the block is written out.
    pub closed spec fn fills_block(&self, key: Seq<u8>, value: Seq<u8>) -> bool {
        let d = self.data_block.entries().push((key, value));
        let k = self.options.block_restart_interval as nat;
        block_data(d, k).len() + 4 * restart_offsets(d, k).len() + 4 >= self.options.block_size
    }

    pub closed spec fn wf(&self) -> bool {
        &&& self.wf_core()
        &&& self.status.code_spec() == Code::Success ==> self.layout()
    }

    /// The layout of what is written, over this builder's fields.
    pub closed spec fn layout(&self) -> bool {
        layout_holds(
            self.written@,
            self.blocks@,
            self.entries@,
            self.data_block.entries(),
            self.index_block.entries(),
            self.pending_index_entry,
            self.pending_handle,
        )
    }

    pub closed spec fn wf_core(&self) -> bool {
        let es = self.entries@;
        let data = self.data_block.entries();
        let index = self.index_block.entries();
        &&& self.options.block_restart_interval >= 1
        &&& self.data_block.wf()
        &&& self.data_block.restart_interval_spec() == self.options.block_restart_interval
        &&& !self.data_block.is_finished()
        &&& self.index_block.wf()
        &&& self.index_block.restart_interval_spec() == 1
        &&& self.state == BuildState::Open ==> !self.index_block.is_finished()
        &&& self.offset == self.written@.len()
        &&& self.num_entries == es.len()
        &&& es.len() > 0 ==> self.last_key@ == es.last().0
        &&& keys_increasing(es)
        &&& data.len() <= es.len()
        &&& data == es.subrange(es.len() - data.len(), es.len() as int)
        &&& self.pending_index_entry ==> data.len() == 0 && es.len() > 0
        &&& self.status.code_spec() == Code::Success && es.len() > 0 && data.len() == 0
            && !self.index_block.is_finished() ==> self.pending_index_entry
        &&& index.len() > 0 ==> es.len() > 0
        &&& index.len() > 0 && data.len() > 0 ==> bytes_lt(index.last().0, data[0].0)
        &&& index.len() > 0 && self.pending_index_entry ==> bytes_lt(index.last().0, self.last_key@)
        &&& self.state == BuildState::Open && self.status.code_spec() == Code::Success && index.len()
            > 0 ==> self.pending_index_entry || data.len() > 0
        &&& match self.filter_block {
            Some(f) => f.wf() && (self.state == BuildState::Open ==> !f.is_finished()) && (
            !f.is_finished() ==> f.filters().len() <= self.offset / FILTER_BASE),
            None => true,
        }
    }

    /// A builder that writes a table to `file`, with a filter per 2 KiB of data blocks when a
    /// policy is given.
    pub fn new(options: Options, file: W, filter_policy: Option<P>) -> (r: Self)
        requires
            options.block_restart_interval >= 1,
        ensures
            r.wf(),
            r.entries().len() == 0,
            r.written().len() == 0,
            r.state() == BuildState::Open,
            r.status_code() == Code::Success,
            r.options_spec() == options,
    {
        let filter_block = match filter_policy {
            Some(p) => {
                let mut f = FilterBlockBuilder::new(p);
                f.start_block(0);
                Some(f)
            },
            None => None,
        };
        let r = TableBuilder {
            options,
            file,
            offset: 0,
            status: Status::new(),
            data_block: BlockBuilder::new(options.block_restart_interval),
            index_block: BlockBuilder::new(1),
            last_key: Vec::new(),
            num_entries: 0,
            state: BuildState::Open,
            filter_block,
            pending_index_entry: false,
            pending_handle: BlockHandle::new(0, 0),
            written: Ghost(Seq::empty()),
            entries: Ghost(Seq::empty()),
            blocks: Ghost(Seq::empty()),
        };
        assert(r.entries@.subrange(0, 0) =~= Seq::<Entry>::empty());
        proof {
            reveal(layout_holds);
            assert(flatten(r.blocks@) + r.data_block.entries() =~= r.entries@);
        }
        r
    }

    /// Changes the block size. The restart interval and the compression are fixed at
    /// construction: asking to change either changes nothing and is an invalid argument.
    pub fn change_options(&mut self, options: Options) -> (r: Status)
        requires
            old(self).wf(),
        ensures
            final(self).wf(),
            final(self).entries() == old(self).entries(),
            final(self).written() == old(self).written(),
            final(self).state() == old(self).state(),
            final(self).status_code() == old(self).status_code(),
            if options.compression != old(self).options_spec().compression
                || options.block_restart_interval != old(self).options_spec().block_restart_interval {
                r.code_spec() == Code::InvalidArgument && final(self).options_spec()
                    == old(self).options_spec()
            } else {
                r.code_spec() == Code::Success && final(self).options_spec() == options
            },
    {
        if options.compression != self.options.compression
            || options.block_restart_interval != self.options.block_restart_interval {
            return Status::invalid_argument("changing a fixed option while building a table", "");
        }
        self.options = options;
        Status::new()
    }

    /// Writes `contents` and its trailer at the end of the file.
    fn write_raw_block(&mut self, contents: &[u8]) -> (h: BlockHandle)
        requires
            old(self).wf_core(),
            old(self).status.code_spec() == Code::Success,
        ensures
            final(self).wf_core(),
            final(self).status.code_spec() == Code::Success ==> (old(self).layout() ==> final(self).layout()),
            h == (BlockHandle { offset: old(self).offset, size: contents@.len() as u64 }),
            final(self).entries == old(self).entries,
            final(self).state == old(self).state,
            final(self).options == old(self).options,
            final(self).data_block == old(self).data_block,
            final(self).index_block == old(self).index_block,
            final(self).filter_block == old(self).filter_block,
            final(self).last_key == old(self).last_key,
            final(self).pending_index_entry == old(self).pending_index_entry,
            final(self).pending_handle == old(self).pending_handle,
            final(self).blocks == old(self).blocks,
            final(self).status.code_spec() == Code::Success ==> final(self).written@ == old(self).written@ + contents@ + block_trailer(contents@),
            final(self).status.code_spec() != Code::Success ==> final(self).written@ == old(self).written@,
            old(self).offset + contents@.len() + BLOCK_TRAILER_SIZE > u64::MAX ==> final(self).status.code_spec()
                == Code::IOError,
    {
        let handle = BlockHandle::new(self.offset, contents.len() as u64);
        if self.offset as u128 + contents.len() as u128 + BLOCK_TRAILER_SIZE as u128
            > u64::MAX as u128 {
            self.status = Status::io_error("table file too large", "");
            return handle;
        }
        let trailer = encode_block_trailer(contents);
        let mut buf: Vec<u8> = Vec::new();
        append_bytes(&mut buf, contents);
        append_bytes(&mut buf, trailer.as_slice());
        let s = self.file.append(buf.as_slice());
        if s.ok() {
            self.offset = self.offset + contents.len() as u64 + BLOCK_TRAILER_SIZE as u64;
            self.written = Ghost(self.written@ + buf@);
            assert(self.written@ =~= old(self).written@ + contents@ + block_trailer(contents@));
            proof {
                assert(old(self).written@.is_prefix_of(self.written@));
                if old(self).layout() {
                lemma_layout_grows(
                    old(self).written@,
                    self.written@,
                    self.blocks@,
                    self.entries@,
                    self.data_block.entries(),
                    self.index_block.entries(),
                    self.pending_index_entry,
                    self.pending_handle,
                );
                }
            }
        } else {
            self.status = s;
        }
        handle
    }

    /// Adds an entry. After an error nothing happens. An entry too large for a block, or an
    /// index that would outgrow its 32-bit offsets, is an invalid argument. When the entry
    /// brings the data block to the block size, the block is written out.
    #[verifier::rlimit(100)]
    #[verifier::spinoff_prover]
    pub fn add(&mut self, key: &[u8], value: &[u8])
        requires
            old(self).wf(),
            old(self).state() == BuildState::Open,
            old(self).entries().len() > 0 ==> bytes_lt(old(self).entries().last().0, key@),
            old(self).entries().len() < u64::MAX,
        ensures
            final(self).wf(),
            final(self).state() == BuildState::Open,
            final(self).options_spec() == old(self).options_spec(),
            old(self).written().is_prefix_of(final(self).written()),
            old(self).status_code() != Code::Success ==> final(self).entries() == old(self).entries()
                && final(self).written() == old(self).written() && final(self).status_spec()
                == old(self).status_spec(),
            old(self).status_code() == Code::Success && !old(self).accepts(key@.len(), value@.len())
                ==> final(self).status_code() == Code::InvalidArgument && final(self).entries()
                == old(self).entries() && final(self).written() == old(self).written()
                && final(self).buffered() == old(self).buffered(),
            old(self).status_code() == Code::Success && old(self).accepts(key@.len(), value@.len())
                ==> final(self).entries() == old(self).entries().push((key@, value@)),
            old(self).status_code() == Code::Success && old(self).accepts(key@.len(), value@.len())
                && old(self).has_pending_index_entry() ==> final(self).index_entries() == old(self).index_entries().push(
                (
                    shortest_separator(old(self).entries().last().0, key@),
                    handle_bytes(old(self).pending_handle_spec()),
                ),
            ),
            old(self).status_code() == Code::Success && old(self).accepts(key@.len(), value@.len())
                && !old(self).has_pending_index_entry() ==> final(self).index_entries() == old(self).index_entries(),
            old(self).status_code() == Code::Success && old(self).accepts(key@.len(), value@.len())
                && !old(self).fills_block(key@, value@) ==> final(self).status_code() == Code::Success
                && final(self).written() == old(self).written() && final(self).buffered() == old(self).buffered().push((key@, value@)) && !final(self).has_pending_index_entry()
                && final(self).filter_pending() == match old(self).filter_pending() {
                Some(p) => Some(p.push(key@)),
                None => None::<Seq<Seq<u8>>>,
            },
            old(self).status_code() == Code::Success && old(self).accepts(key@.len(), value@.len())
                && old(self).fills_block(key@, value@) && final(self).status_code() == Code::Success
                ==> final(self).written() == old(self).written() + block_contents(
                old(self).buffered().push((key@, value@)),
                old(self).options_spec().block_restart_interval as nat,
            ) + block_trailer(
                block_contents(
                    old(self).buffered().push((key@, value@)),
                    old(self).options_spec().block_restart_interval as nat,
                ),
            ) && final(self).buffered().len() == 0 && final(self).has_pending_index_entry(),
    {
        if self.state != BuildState::Open || !self.status.ok() {
            return;
        }
        let ghost es = self.entries@;
        proof {
            crate::block_builder::lemma_block_data_empty(
                self.data_block.entries(),
                self.data_block.restart_interval_spec(),
            );
        }
        if self.pending_index_entry && !self.index_block.has_room_for(
            self.last_key.len(),
            BLOCK_HANDLE_MAX_ENCODED_LENGTH,
        ) {
            self.status = Status::invalid_argument("index block too large", "");
            return;
        }
        if !self.data_block.has_room_for(key.len(), value.len()) {
            self.status = Status::invalid_argument("entry too large for a block", "");
            return;
        }
        if self.pending_index_entry {
            self.add_index_entry(key);
        }
        match self.filter_block.take() {
            Some(mut f) => {
                f.add_key(key);
                self.filter_block = Some(f);
            },
            None => {},
        }
        let ghost data0 = self.data_block.entries();
        proof {
            if data0.len() > 0 {
                assert(data0.last() == es.last());
            }
            let index = self.index_block.entries();
        }
        self.data_block.add(key, value);
        self.last_key.clear();
        append_bytes(&mut self.last_key, key);
        self.num_entries = self.num_entries + 1;
        self.entries = Ghost(es.push((key@, value@)));
        proof {
            let es2 = self.entries@;
            lemma_keys_increasing_push(es, key@, value@);
            let d = self.data_block.entries();
            assert(d =~= es2.subrange(es2.len() - d.len(), es2.len() as int));
            assert(self.last_key@ =~= key@);
            if old(self).pending_index_entry {
                assert(self.index_block.entries().take(old(self).index_block.entries().len() as int)
                    =~= old(self).index_block.entries());
                lemma_shortest_separator(old(self).last_key@, key@);
            }
            lemma_layout_after_add(
                old(self).written@,
                old(self).blocks@,
                es,
                old(self).data_block.entries(),
                old(self).index_block.entries(),
                old(self).pending_index_entry,
                old(self).pending_handle,
                key@,
                value@,
                self.index_block.entries(),
                old(self).last_key@,
            );
        }
        if self.data_block.current_size_estimate() >= self.options.block_size {
            self.flush();
        }
    }

    /// Records the block written last in the index, under a short key between its last key
    /// and `key`.
    fn add_index_entry(&mut self, key: &[u8])
        requires
            old(self).index_block.wf(),
            !old(self).index_block.is_finished(),
            old(self).index_block.restart_interval_spec() == 1,
            old(self).index_block.can_add(
                old(self).last_key@.len(),
                BLOCK_HANDLE_MAX_ENCODED_LENGTH as nat,
            ),
            bytes_lt(old(self).last_key@, key@),
            old(self).index_block.entries().len() > 0 ==> bytes_lt(
                old(self).index_block.entries().last().0,
                old(self).last_key@,
            ),
        ensures
            final(self).index_block.wf(),
            !final(self).index_block.is_finished(),
            final(self).index_block.restart_interval_spec() == 1,
            final(self).index_block.entries() == old(self).index_block.entries().push(
                (shortest_separator(old(self).last_key@, key@), handle_bytes(old(self).pending_handle)),
            ),
            bytes_lt(shortest_separator(old(self).last_key@, key@), key@),
            !final(self).pending_index_entry,
            final(self).entries == old(self).entries,
            final(self).written == old(self).written,
            final(self).state == old(self).state,
            final(self).options == old(self).options,
            final(self).status == old(self).status,
            final(self).data_block == old(self).data_block,
            final(self).filter_block == old(self).filter_block,
            final(self).last_key == old(self).last_key,
            final(self).offset == old(self).offset,
            final(self).num_entries == old(self).num_entries,
            final(self).pending_handle == old(self).pending_handle,
            final(self).blocks == old(self).blocks,
    {
        let mut sep: Vec<u8> = Vec::new();
        append_bytes(&mut sep, self.last_key.as_slice());
        bytewise_comparator().find_shortest_separator(&mut sep, key);
        proof {
            lemma_shortest_separator(self.last_key@, key@);
            lemma_separator_len(self.last_key@, key@);
            lemma_handle_bytes_len(self.pending_handle);
            let index = self.index_block.entries();
            if index.len() > 0 {
                if sep@ != self.last_key@ {
                    lemma_bytes_lt_transitive(index.last().0, self.last_key@, sep@);
                }
            }
        }
        let mut handle_encoding: Vec<u8> = Vec::new();
        self.pending_handle.encode_to(&mut handle_encoding);
        self.index_block.add(sep.as_slice(), handle_encoding.as_slice());
        self.pending_index_entry = false;
    }

    /// Writes the data block being filled, if it holds any entry, and starts the next filter
    /// range at the new end of the file. After an error nothing happens. A file that would
    /// pass 64-bit offsets is an I/O error.
    #[verifier::rlimit(100)]
    #[verifier::spinoff_prover]
    pub fn flush(&mut self)
        requires
            old(self).wf(),
            old(self).state() == BuildState::Open,
        ensures
            final(self).wf(),
            final(self).state() == BuildState::Open,
            final(self).entries() == old(self).entries(),
            final(self).options_spec() == old(self).options_spec(),
            final(self).index_entries() == old(self).index_entries(),
            old(self).status_code() != Code::Success || old(self).buffered().len() == 0 ==> final(self).written() == old(self).written()
                && final(self).status_spec() == old(self).status_spec() && final(self).buffered()
                == old(self).buffered() && final(self).has_pending_index_entry() == old(self).has_pending_index_entry()
                && final(self).filter_pending() == old(self).filter_pending(),
            old(self).written().is_prefix_of(final(self).written()),
            old(self).status_code() == Code::Success && old(self).buffered().len() > 0
                && old(self).written().len() + block_contents(
                old(self).buffered(),
                old(self).options_spec().block_restart_interval as nat,
            ).len() + BLOCK_TRAILER_SIZE > u64::MAX ==> final(self).status_code() == Code::IOError
                && final(self).written() == old(self).written(),
            old(self).status_code() == Code::Success && old(self).buffered().len() > 0
                && final(self).status_code() == Code::Success
                ==> final(self).written() == old(self).written() + block_contents(
                old(self).buffered(),
                old(self).options_spec().block_restart_interval as nat,
            ) + block_trailer(
                block_contents(
                    old(self).buffered(),
                    old(self).options_spec().block_restart_interval as nat,
                ),
            ) && final(self).buffered().len() == 0 && final(self).has_pending_index_entry(),
    {
        if self.state != BuildState::Open || !self.status.ok() {
            return;
        }
        if self.data_block.empty() {
            return;
        }
        let ghost es = self.entries@;
        let ghost data = self.data_block.entries();
        let ghost old_layout = self.layout();
        let contents = self.data_block.finish();
        self.data_block.reset();
        proof {
            assert(es.subrange(es.len() - 0, es.len() as int) =~= Seq::<Entry>::empty());
            let index = self.index_block.entries();
            if index.len() > 0 {
                assert(data[0] == es[es.len() - data.len()]);
                assert(data.last() == es.last());
                if data.len() > 1 {
                    assert(bytes_lt(data[0].0, data.last().0));
                    lemma_bytes_lt_transitive(index.last().0, data[0].0, data.last().0);
                }
            }
        }
        self.pending_index_entry = true;
        self.pending_handle = BlockHandle::new(self.offset, contents.len() as u64);
        let ghost w0 = self.written@;
        let ghost h = self.pending_handle;
        self.write_raw_block(contents.as_slice());
        if self.status.ok() {
            proof {
                lemma_layout_after_flush(
                    w0,
                    self.written@,
                    self.blocks@,
                    es,
                    data,
                    self.index_block.entries(),
                    old(self).pending_handle,
                    h,
                    contents@,
                );
            }
            self.blocks = Ghost(self.blocks@.push((h, data)));
        }
        if self.status.ok() {
            let s = self.file.flush();
            if !s.ok() {
                self.status = s;
            }
        }
        if self.offset / FILTER_BASE >= usize::MAX as u64 {
            self.status = Status::io_error("table file too large", "");
            return;
        }
        match self.filter_block.take() {
            Some(mut f) => {
                f.start_block(self.offset);
                self.filter_block = Some(f);
            },
            None => {},
        }
    }

    /// What the steps of `finish` leave as they found it.
    pub closed spec fn output_grows(&self, before: &Self) -> bool {
        &&& before.written@.is_prefix_of(self.written@)
        &&& self.entries == before.entries
        &&& self.state == before.state
        &&& self.options == before.options
        &&& before.status.code_spec() != Code::Success ==> self.written == before.written
            && self.status == before.status
    }

    /// Writes the filter block, if there is a filter policy; returns its handle and the
    /// policy's name.
    fn write_filter_block(&mut self) -> (r: Option<(BlockHandle, &'static str)>)
        requires
            old(self).wf(),
            old(self).state == BuildState::Finished,
            match old(self).filter_block {
                Some(f) => !f.is_finished(),
                None => true,
            },
        ensures
            final(self).filter_block is Some == old(self).filter_block is Some,
            final(self).status.code_spec() == Code::Success ==> match r {
                Some((fh, name)) => final(self).filter_output() is Some && block_at(
                    final(self).written@,
                    fh,
                ) == final(self).filter_output(),
                None => final(self).filter_output() is None,
            },
            final(self).wf(),
            final(self).output_grows(old(self)),
            final(self).pending_index_entry == old(self).pending_index_entry,
            final(self).last_key == old(self).last_key,
            final(self).blocks == old(self).blocks,
            final(self).index_block == old(self).index_block,
            final(self).data_block == old(self).data_block,
    {
        if !self.status.ok() {
            return None;
        }
        match self.filter_block.take() {
            Some(mut f) => {
                if f.is_finished_exec() {
                    self.filter_block = Some(f);
                    self.status = Status::invalid_argument("filter block already written", "");
                    None
                } else if self.offset / FILTER_BASE < usize::MAX as u64 {
                    let contents = f.finish();
                    let name = f.policy_name();
                    self.filter_block = Some(f);
                    let h = self.write_raw_block(contents.as_slice());
                    proof {
                        if self.status.code_spec() == Code::Success {
                            assert(self.written@.subrange(h.offset as int, h.offset + h.size)
                                =~= contents@);
                        }
                    }
                    Some((h, name))
                } else {
                    self.filter_block = Some(f);
                    self.status = Status::io_error("table file too large", "");
                    None
                }
            },
            None => None,
        }
    }

    /// Writes the metaindex block, which names the filter block when there is one.
    fn write_metaindex_block(&mut self, filter: Option<(BlockHandle, &'static str)>) -> (r:
        BlockHandle)
        requires
            old(self).wf(),
            old(self).state == BuildState::Finished,
        ensures
            final(self).filter_block == old(self).filter_block,
            final(self).status.code_spec() == Code::Success ==> block_stored(
                final(self).written@,
                r,
                metaindex_entries(filter),
            ),
            final(self).wf(),
            final(self).output_grows(old(self)),
            final(self).pending_index_entry == old(self).pending_index_entry,
            final(self).last_key == old(self).last_key,
            final(self).blocks == old(self).blocks,
            final(self).index_block == old(self).index_block,
            final(self).data_block == old(self).data_block,
    {
        if !self.status.ok() {
            return BlockHandle::new(0, 0);
        }
        let mut meta = BlockBuilder::new(self.options.block_restart_interval);
        match filter {
            Some((filter_handle, name)) => {
                let mut key: Vec<u8> = Vec::new();
                append_bytes(&mut key, "filter.".as_bytes());
                append_bytes(&mut key, name.as_bytes());
                let mut handle_encoding: Vec<u8> = Vec::new();
                filter_handle.encode_to(&mut handle_encoding);
                if meta.has_room_for(key.len(), handle_encoding.len()) {
                    meta.add(key.as_slice(), handle_encoding.as_slice());
                    assert(meta.entries() =~= metaindex_entries(filter));
                } else {
                    self.status = Status::invalid_argument("filter policy name too long", "");
                    return BlockHandle::new(0, 0);
                }
            },
            None => {
                assert(meta.entries() =~= metaindex_entries(filter));
            },
        }
        let contents = meta.finish();
        let h = self.write_raw_block(contents.as_slice());
        proof {
            if self.status.code_spec() == Code::Success {
                assert(self.written@.subrange(h.offset as int, h.offset + h.size) =~= contents@);
            }
        }
        h
    }

    /// Writes the filter block, if any, then the metaindex block; returns the metaindex
    /// handle and what the metaindex names.
    #[verifier::rlimit(100)]
    #[verifier::spinoff_prover]
    fn write_meta_blocks(&mut self) -> (r: (BlockHandle, Option<(BlockHandle, &'static str)>))
        requires
            old(self).wf(),
            old(self).state == BuildState::Finished,
            match old(self).filter_block {
                Some(f) => !f.is_finished(),
                None => true,
            },
        ensures
            final(self).wf(),
            final(self).output_grows(old(self)),
            final(self).pending_index_entry == old(self).pending_index_entry,
            final(self).last_key == old(self).last_key,
            final(self).blocks == old(self).blocks,
            final(self).index_block == old(self).index_block,
            final(self).data_block == old(self).data_block,
            final(self).status.code_spec() == Code::Success ==> block_stored(
                final(self).written@,
                r.0,
                metaindex_entries(r.1),
            ) && match r.1 {
                Some((fh, name)) => final(self).filter_output() is Some && block_at(
                    final(self).written@,
                    fh,
                ) == final(self).filter_output(),
                None => final(self).filter_output() is None,
            },
    {
        let filter = self.write_filter_block();
        let ghost wf1 = self.written@;
        let metaindex_handle = self.write_metaindex_block(filter);
        proof {
            if self.status.code_spec() == Code::Success {
                match filter {
                    Some((fh, name)) => {
                        assert(wf1.is_prefix_of(self.written@));
                        assert(self.written@.subrange(fh.offset as int, fh.offset + fh.size)
                            =~= wf1.subrange(fh.offset as int, fh.offset + fh.size));
                    },
                    None => {},
                }
            }
        }
        (metaindex_handle, filter)
    }

    /// Records the last data block in the index under a short successor of the last key,
    /// then writes the index block.
    #[verifier::rlimit(100)]
    #[verifier::spinoff_prover]
    fn write_index_block(&mut self) -> (r: BlockHandle)
        requires
            old(self).wf(),
            old(self).state == BuildState::Finished,
        ensures
            final(self).wf(),
            final(self).output_grows(old(self)),
            final(self).blocks == old(self).blocks,
            final(self).data_block == old(self).data_block,
            final(self).filter_block == old(self).filter_block,
            final(self).status.code_spec() == Code::Success ==> !final(self).pending_index_entry
                && block_stored(final(self).written@, r, final(self).index_block.entries()),
            final(self).status.code_spec() == Code::Success && old(self).pending_index_entry
                ==> final(self).index_block.entries() == old(self).index_block.entries().push(
                (short_successor(old(self).last_key@), handle_bytes(old(self).pending_handle)),
            ),
            final(self).status.code_spec() == Code::Success && !old(self).pending_index_entry
                ==> final(self).index_block.entries() == old(self).index_block.entries(),
    {
        if !self.status.ok() {
            return BlockHandle::new(0, 0);
        }
        if self.pending_index_entry {
            proof {
                lemma_handle_bytes_len(self.pending_handle);
            }
            if self.index_block.is_finished_exec() {
                self.status = Status::invalid_argument("index block already written", "");
                return BlockHandle::new(0, 0);
            }
            if !self.index_block.has_room_for(self.last_key.len(), BLOCK_HANDLE_MAX_ENCODED_LENGTH) {
                self.status = Status::invalid_argument("index block too large", "");
                return BlockHandle::new(0, 0);
            }
            let mut succ: Vec<u8> = Vec::new();
            append_bytes(&mut succ, self.last_key.as_slice());
            bytewise_comparator().find_short_successor(&mut succ);
            proof {
                lemma_short_successor(self.last_key@, 0);
                lemma_successor_len(self.last_key@, 0);
                let index = self.index_block.entries();
                if index.len() > 0 && succ@ != self.last_key@ {
                    lemma_bytes_lt_transitive(index.last().0, self.last_key@, succ@);
                }
            }
            let mut handle_encoding: Vec<u8> = Vec::new();
            self.pending_handle.encode_to(&mut handle_encoding);
            let ghost idx0 = self.index_block.entries();
            self.index_block.add(succ.as_slice(), handle_encoding.as_slice());
            self.pending_index_entry = false;
            proof {
                if self.status.code_spec() == Code::Success {
                    assert(self.index_block.entries().take(idx0.len() as int) =~= idx0);
                    lemma_layout_after_last_index_entry(
                        self.written@,
                        self.blocks@,
                        self.entries@,
                        self.data_block.entries(),
                        idx0,
                        self.pending_handle,
                        self.index_block.entries(),
                        self.last_key@,
                    );
                }
            }
        }
        if self.index_block.is_finished_exec() {
            self.status = Status::invalid_argument("index block already written", "");
            return BlockHandle::new(0, 0);
        }
        let contents = self.index_block.finish();
        let ghost w0 = self.written@;
        let h = self.write_raw_block(contents.as_slice());
        proof {
            if self.status.code_spec() == Code::Success {
                assert(self.written@.subrange(h.offset as int, h.offset + h.size) =~= contents@);
            }
        }
        h
    }

    /// Appends the footer naming the metaindex and index blocks.
    fn write_footer(&mut self, metaindex: BlockHandle, index: BlockHandle)
        requires
            old(self).wf(),
            old(self).state == BuildState::Finished,
        ensures
            final(self).wf(),
            final(self).output_grows(old(self)),
            final(self).status.code_spec() == Code::Success ==> final(self).written@ == old(self).written@
                + footer_bytes(metaindex, index),
            final(self).blocks == old(self).blocks,
            final(self).index_block == old(self).index_block,
            final(self).data_block == old(self).data_block,
            final(self).pending_index_entry == old(self).pending_index_entry,
            final(self).filter_block == old(self).filter_block,
    {
        if !self.status.ok() {
            return;
        }
        let footer = encode_footer(metaindex, index);
        if self.offset as u128 + footer.len() as u128 > u64::MAX as u128 {
            self.status = Status::io_error("table file too large", "");
            return;
        }
        let s = self.file.append(footer.as_slice());
        if s.ok() {
            self.offset = self.offset + footer.len() as u64;
            let ghost w0 = self.written@;
            self.written = Ghost(self.written@ + footer@);
            proof {
                assert(w0.is_prefix_of(self.written@));
                lemma_layout_grows(
                    w0,
                    self.written@,
                    self.blocks@,
                    self.entries@,
                    self.data_block.entries(),
                    self.index_block.entries(),
                    self.pending_index_entry,
                    self.pending_handle,
                );
            }
        } else {
            self.status = s;
        }
    }

    /// Writes the filter block, the metaindex block, the index block and the footer.
    #[verifier::rlimit(100)]
    #[verifier::spinoff_prover]
    fn write_table_tail(&mut self)
        requires
            old(self).wf(),
            old(self).state() == BuildState::Finished,
            old(self).status_code() == Code::Success ==> old(self).buffered().len() == 0,
            !old(self).index_block.is_finished(),
            match old(self).filter_block {
                Some(f) => !f.is_finished(),
                None => true,
            },
        ensures
            final(self).wf(),
            final(self).entries() == old(self).entries(),
            final(self).state() == BuildState::Finished,
            old(self).status_code() != Code::Success ==> final(self).written() == old(self).written()
                && final(self).status_spec() == old(self).status_spec(),
            old(self).written().is_prefix_of(final(self).written()),
            final(self).status_code() == Code::Success ==> (exists|m: BlockHandle, i: BlockHandle|
                final(self).written().len() >= FOOTER_ENCODED_LENGTH && final(self).written().subrange(
                    final(self).written().len() - FOOTER_ENCODED_LENGTH,
                    final(self).written().len() as int,
                ) == footer_bytes(m, i)),
            final(self).status_code() == Code::Success ==> read_table(final(self).written()) == Some(
                final(self).entries(),
            ),
            final(self).status_code() == Code::Success ==> forall|key: Seq<u8>|
                (forall|i: int|
                    0 <= i < final(self).entries().len() ==> (#[trigger] final(self).entries()[i]).0
                        != key) ==> (#[trigger] table_get(final(self).written(), key)) is None,
            final(self).status_code() == Code::Success ==> match read_index(final(self).written()) {
                Some(index) => index_separates_blocks(final(self).written(), index),
                None => false,
            },
            final(self).status_code() == Code::Success ==> read_index(final(self).written()) == Some(
                final(self).index_entries(),
            ),
            final(self).status_code() == Code::Success && old(self).entries().len() > 0
                ==> final(self).index_entries().len() > 0 && final(self).index_entries().last().0
                == short_successor(old(self).entries().last().0),
            final(self).status_code() == Code::Success && old(self).entries().len() == 0
                ==> final(self).index_entries().len() == 0,
            final(self).status_code() == Code::Success ==> metaindex_names_filter(
                final(self).written(),
                final(self).filter_output(),
            ),
    {
        let ghost pending0 = self.pending_index_entry;
        proof {
            if self.status.code_spec() == Code::Success && self.entries@.len() > 0 {
                assert(pending0);
            }
        }
        let (metaindex_handle, filter) = self.write_meta_blocks();
        let ghost wm = self.written@;
        let index_handle = self.write_index_and_footer(metaindex_handle);
        proof {
            assert(old(self).written@.is_prefix_of(wm));
            assert(old(self).written@.is_prefix_of(self.written@));
            if self.status.code_spec() == Code::Success {
                let es2 = self.entries();
                let file = self.written();
                assert forall|key: Seq<u8>|
                    (forall|i: int| 0 <= i < es2.len() ==> (#[trigger] es2[i]).0 != key) implies (
                    #[trigger] table_get(file, key)) is None by {
                    assert(forall|i: int|
                        0 <= i < es2.len() ==> (#[trigger] es2[i]).0 != key);
                }
            }
            if self.status.code_spec() == Code::Success {
                lemma_metaindex_read(
                    wm,
                    self.written@,
                    metaindex_handle,
                    index_handle,
                    filter,
                    self.filter_output(),
                );
            }
        }
    }

    /// Records the last data block in the index, writes the index block, then the footer
    /// naming the metaindex block and the index block.
    #[verifier::rlimit(100)]
    #[verifier::spinoff_prover]
    fn write_index_and_footer(&mut self, metaindex_handle: BlockHandle) -> (index_handle:
        BlockHandle)
        requires
            old(self).wf(),
            old(self).state() == BuildState::Finished,
            old(self).status_code() == Code::Success ==> old(self).buffered().len() == 0,
            !old(self).index_block.is_finished(),
            old(self).status_code() == Code::Success && old(self).entries().len() > 0
                ==> old(self).pending_index_entry,
        ensures
            final(self).wf(),
            final(self).entries() == old(self).entries(),
            final(self).state() == BuildState::Finished,
            old(self).status_code() != Code::Success ==> final(self).written() == old(self).written()
                && final(self).status_spec() == old(self).status_spec(),
            old(self).written().is_prefix_of(final(self).written()),
            final(self).status_code() == Code::Success ==> (exists|m: BlockHandle, i: BlockHandle|
                final(self).written().len() >= FOOTER_ENCODED_LENGTH && final(self).written().subrange(
                    final(self).written().len() - FOOTER_ENCODED_LENGTH,
                    final(self).written().len() as int,
                ) == footer_bytes(m, i)),
            final(self).status_code() == Code::Success ==> read_table(final(self).written()) == Some(
                final(self).entries(),
            ),
            final(self).status_code() == Code::Success ==> forall|key: Seq<u8>|
                (forall|i: int|
                    0 <= i < final(self).entries().len() ==> (#[trigger] final(self).entries()[i]).0
                        != key) ==> (#[trigger] table_get(final(self).written(), key)) is None,
            final(self).status_code() == Code::Success ==> match read_index(final(self).written()) {
                Some(index) => index_separates_blocks(final(self).written(), index),
                None => false,
            },
            final(self).status_code() == Code::Success ==> read_index(final(self).written()) == Some(
                final(self).index_entries(),
            ),
            final(self).status_code() == Code::Success && old(self).entries().len() > 0
                ==> final(self).index_entries().len() > 0 && final(self).index_entries().last().0
                == short_successor(old(self).entries().last().0),
            final(self).status_code() == Code::Success && old(self).entries().len() == 0
                ==> final(self).index_entries().len() == 0,
            final(self).filter_block == old(self).filter_block,
            final(self).status_code() == Code::Success ==> read_footer(final(self).written())
                == Some((metaindex_handle, index_handle)),
    {
        let ghost lk = self.last_key@;
        let ghost es = self.entries@;
        let ghost idx0 = self.index_block.entries();
        let ghost pend = self.pending_index_entry;
        let ghost ph = self.pending_handle;
        proof {
            if es.len() > 0 {
                assert(lk == es.last().0);
            }
        }
        let index_handle = self.write_index_block();
        let ghost w1 = self.written@;
        let ghost idx1 = self.index_block.entries();
        proof {
            if self.status.code_spec() == Code::Success && es.len() > 0 {
                assert(pend);
                assert(idx1 == idx0.push((short_successor(lk), handle_bytes(ph))));
                assert(idx1.last().0 == short_successor(es.last().0));
            }
        }
        self.write_footer(metaindex_handle, index_handle);
        proof {
            if self.status.code_spec() == Code::Success {
                assert(self.index_block.entries() == idx1);
                crate::format::lemma_read_footer(w1, metaindex_handle, index_handle);
                lemma_finished_table(
                    w1,
                    self.written@,
                    metaindex_handle,
                    index_handle,
                    self.blocks@,
                    self.entries@,
                    self.data_block.entries(),
                    self.index_block.entries(),
                    self.pending_handle,
                );
            }
            if self.status.code_spec() == Code::Success {
                let es2 = self.entries();
                let file = self.written();
                assert(es2 == self.entries@ && file == self.written@);
                assert forall|key: Seq<u8>|
                    (forall|i: int| 0 <= i < es2.len() ==> (#[trigger] es2[i]).0 != key) implies (
                    #[trigger] table_get(file, key)) is None by {
                    assert(forall|i: int|
                        0 <= i < self.entries@.len() ==> (#[trigger] self.entries@[i]).0 != key);
                }
            }
            assert(old(self).written@.is_prefix_of(w1));
            assert(w1.is_prefix_of(self.written@));
            assert(old(self).written@.is_prefix_of(self.written@));
        }
        index_handle
    }

    /// Writes the last data block, the filter block, the metaindex block, the index block and
    /// the footer, and returns the final status: the first error met, or success.
    #[verifier::rlimit(100)]
    pub fn finish(&mut self) -> (r: Status)
        requires
            old(self).wf(),
            old(self).state() == BuildState::Open,
        ensures
            final(self).wf(),
            final(self).entries() == old(self).entries(),
            final(self).state() == BuildState::Finished,
            r.code_spec() == final(self).status_code(),
            r.message() == final(self).status_spec().message(),
            old(self).status_code() != Code::Success ==> final(self).written() == old(self).written()
                && final(self).status_spec() == old(self).status_spec(),
            old(self).written().is_prefix_of(final(self).written()),
            final(self).status_code() == Code::Success ==> (exists|m: BlockHandle, i: BlockHandle|
                final(self).written().len() >= FOOTER_ENCODED_LENGTH && final(self).written().subrange(
                    final(self).written().len() - FOOTER_ENCODED_LENGTH,
                    final(self).written().len() as int,
                ) == footer_bytes(m, i)),
            final(self).status_code() == Code::Success ==> read_table(final(self).written()) == Some(
                final(self).entries(),
            ),
            final(self).status_code() == Code::Success ==> forall|key: Seq<u8>|
                (forall|i: int|
                    0 <= i < final(self).entries().len() ==> (#[trigger] final(self).entries()[i]).0
                        != key) ==> (#[trigger] table_get(final(self).written(), key)) is None,
            final(self).status_code() == Code::Success ==> match read_index(final(self).written()) {
                Some(index) => index_separates_blocks(final(self).written(), index),
                None => false,
            },
            final(self).status_code() == Code::Success ==> read_index(final(self).written()) == Some(
                final(self).index_entries(),
            ),
            final(self).status_code() == Code::Success && old(self).entries().len() > 0
                ==> final(self).index_entries().len() > 0 && final(self).index_entries().last().0
                == short_successor(old(self).entries().last().0),
            final(self).status_code() == Code::Success && old(self).entries().len() == 0
                ==> final(self).index_entries().len() == 0,
            final(self).status_code() == Code::Success ==> metaindex_names_filter(
                final(self).written(),
                final(self).filter_output(),
            ),
    {
        if self.state != BuildState::Open {
            return Status::invalid_argument("table already finished or abandoned", "");
        }
        self.flush();
        self.state = BuildState::Finished;
        self.write_table_tail();
        self.status.duplicate()
    }

    /// Gives up the table: nothing more is written. Once the builder is finished or abandoned
    /// this does nothing.
    pub fn abandon(&mut self)
        requires
            old(self).wf(),
            old(self).state() == BuildState::Open,
        ensures
            final(self).wf(),
            final(self).entries() == old(self).entries(),
            final(self).written() == old(self).written(),
            final(self).status_spec() == old(self).status_spec(),
            final(self).state() == BuildState::Abandoned,
    {
        if self.state == BuildState::Open {
            self.state = BuildState::Abandoned;
        }
    }

    /// The first error met, or success.
    pub fn status(&self) -> (r: Status)
        ensures
            r.code_spec() == self.status_code(),
            r.message() == self.status_spec().message(),
    {
        self.status.duplicate()
    }

    /// Whether no error was met.
    fn ok(&self) -> (r: bool)
        ensures
            r == (self.status_code() == Code::Success),
    {
        self.status.ok()
    }

    /// The number of entries added.
    pub fn num_entries(&self) -> (r: u64)
        requires
            self.wf(),
        ensures
            r == self.entries().len(),
    {
        self.num_entries
    }

    /// The number of bytes written to the file; after a successful `finish`, its size.
    pub fn file_size(&self) -> (r: u64)
        requires
            self.wf(),
        ensures
            r == self.written().len(),
    {
        self.offset
    }

    /// The file the table is written to.
    pub fn file(&self) -> &W {
        &self.file
    }
}

/// The metaindex entries of a table whose filter block, if any, has handle `h` and was made by
/// the policy `name`: `"filter." + name` naming the filter block.
pub open spec fn metaindex_entries(filter: Option<(BlockHandle, &'static str)>) -> Seq<Entry> {
    match filter {
        Some((h, name)) => seq![("filter.".spec_bytes() + name.spec_bytes(), handle_bytes(h))],
        None => Seq::empty(),
    }
}

/// The entries of the written data blocks, block after block.
pub open spec fn flatten(blocks: Seq<(BlockHandle, Seq<Entry>)>) -> Seq<Entry>
    decreases blocks.len(),
{
    if blocks.len() == 0 {
        Seq::empty()
    } else {
        flatten(blocks.drop_last()) + blocks.last().1
    }
}

/// The last entry of the last non-empty block is the last entry of all blocks.
pub proof fn lemma_flatten_last(blocks: Seq<(BlockHandle, Seq<Entry>)>)
    requires
        blocks.len() > 0,
        blocks.last().1.len() > 0,
    ensures
        flatten(blocks).len() > 0,
        flatten(blocks).last() == blocks.last().1.last(),
{
}

/// `file` holds, where `h` names, a block that decodes to `es`.
pub open spec fn block_stored(file: Seq<u8>, h: BlockHandle, es: Seq<Entry>) -> bool {
    &&& h.offset + h.size <= file.len()
    &&& decode_block(file.subrange(h.offset as int, h.offset + h.size)) == Some(es)
}

/// How the written data blocks, the index being built, and the entries relate: the blocks hold
/// the entries before the buffered ones, and the index names every block but a pending one.
#[verifier::opaque]
pub open spec fn layout_holds(
    written: Seq<u8>,
    blocks: Seq<(BlockHandle, Seq<Entry>)>,
    entries: Seq<Entry>,
    buffered: Seq<Entry>,
    index: Seq<Entry>,
    pending: bool,
    pending_handle: BlockHandle,
) -> bool {
    &&& flatten(blocks) + buffered == entries
    &&& forall|j: int| 0 <= j < blocks.len() ==> block_stored(written, #[trigger] blocks[j].0, blocks[j].1)
    &&& index.len() + (if pending { 1int } else { 0int }) == blocks.len()
    &&& forall|j: int| 0 <= j < index.len() ==> (#[trigger] index[j]).1 == handle_bytes(blocks[j].0)
    &&& pending ==> blocks.len() > 0 && pending_handle == blocks.last().0
    &&& forall|j: int| 0 <= j < blocks.len() ==> (#[trigger] blocks[j]).1.len() > 0
    &&& forall|j: int|
        0 <= j < index.len() ==> !bytes_lt((#[trigger] index[j]).0, blocks[j].1.last().0)
    &&& forall|j: int|
        0 <= j < index.len() && j + 1 < blocks.len() ==> bytes_lt(
            (#[trigger] index[j]).0,
            blocks[j + 1].1[0].0,
        )
    &&& index.len() > 0 && index.len() == blocks.len() && buffered.len() > 0 ==> bytes_lt(
        index.last().0,
        buffered[0].0,
    )
}

/// A block stays readable as the file grows.
pub proof fn lemma_block_stored_grows(file: Seq<u8>, file2: Seq<u8>, h: BlockHandle, es: Seq<Entry>)
    requires
        block_stored(file, h, es),
        file.is_prefix_of(file2),
    ensures
        block_stored(file2, h, es),
{
    assert(file2.subrange(h.offset as int, h.offset + h.size) =~= file.subrange(
        h.offset as int,
        h.offset + h.size,
    ));
}

/// Writing the buffered entries as a block at the end of the file makes it the pending block.
pub proof fn lemma_layout_after_flush(
    w0: Seq<u8>,
    w1: Seq<u8>,
    blocks: Seq<(BlockHandle, Seq<Entry>)>,
    entries: Seq<Entry>,
    data: Seq<Entry>,
    index: Seq<Entry>,
    old_handle: BlockHandle,
    h: BlockHandle,
    contents: Seq<u8>,
)
    requires
        layout_holds(w0, blocks, entries, data, index, false, old_handle),
        w1 == w0 + contents + block_trailer(contents),
        h.offset == w0.len(),
        h.size == contents.len(),
        decode_block(contents) == Some(data),
        data.len() > 0,
    ensures
        layout_holds(w1, blocks.push((h, data)), entries, Seq::empty(), index, true, h),
{
    reveal(layout_holds);
    let b1 = blocks.push((h, data));
    assert forall|j: int| 0 <= j < b1.len() implies (#[trigger] b1[j]).1.len() > 0 by {
        if j < blocks.len() {
            assert(b1[j] == blocks[j]);
        }
    }
    assert forall|j: int| 0 <= j < index.len() implies !bytes_lt(
        (#[trigger] index[j]).0,
        b1[j].1.last().0,
    ) by {
        assert(b1[j] == blocks[j]);
    }
    assert forall|j: int| 0 <= j < index.len() && j + 1 < b1.len() implies bytes_lt(
        (#[trigger] index[j]).0,
        b1[j + 1].1[0].0,
    ) by {
        assert(b1[j] == blocks[j]);
        if j + 1 < blocks.len() {
            assert(b1[j + 1] == blocks[j + 1]);
        } else {
            assert(index.len() == blocks.len());
            assert(index[j] == index.last());
        }
    }
    assert(w0.is_prefix_of(w1));
    assert forall|j: int| 0 <= j < b1.len() implies block_stored(w1, #[trigger] b1[j].0, b1[j].1) by {
        if j < blocks.len() {
            assert(b1[j] == blocks[j]);
            lemma_block_stored_grows(w0, w1, blocks[j].0, blocks[j].1);
        } else {
            assert(w1.subrange(h.offset as int, h.offset + h.size) =~= contents);
        }
    }
    assert(b1.drop_last() =~= blocks);
    assert(flatten(b1) + Seq::<Entry>::empty() =~= entries);
    assert forall|j: int| 0 <= j < index.len() implies (#[trigger] index[j]).1 == handle_bytes(b1[j].0) by {
        assert(b1[j] == blocks[j]);
    }
}

/// Adding an entry, after naming a pending block in the index, keeps the layout.
pub proof fn lemma_layout_after_add(
    w: Seq<u8>,
    blocks: Seq<(BlockHandle, Seq<Entry>)>,
    entries: Seq<Entry>,
    data: Seq<Entry>,
    index: Seq<Entry>,
    pending: bool,
    pending_handle: BlockHandle,
    key: Seq<u8>,
    value: Seq<u8>,
    index2: Seq<Entry>,
    last_key: Seq<u8>,
)
    requires
        layout_holds(w, blocks, entries, data, index, pending, pending_handle),
        pending ==> data.len() == 0,
        pending ==> index2.len() == index.len() + 1 && index2.take(index.len() as int) == index
            && index2.last().1 == handle_bytes(pending_handle),
        pending ==> (index2.last().0 == last_key || bytes_lt(last_key, index2.last().0))
            && bytes_lt(index2.last().0, key),
        !pending ==> index2 == index,
        !pending && data.len() == 0 ==> index.len() == 0,
        entries.len() > 0 ==> last_key == entries.last().0,
        entries.len() > 0 ==> bytes_lt(entries.last().0, key),
    ensures
        layout_holds(
            w,
            blocks,
            entries.push((key, value)),
            data.push((key, value)),
            index2,
            false,
            pending_handle,
        ),
{
    reveal(layout_holds);
    assert(flatten(blocks) + data.push((key, value)) =~= entries.push((key, value)));
    assert forall|j: int| 0 <= j < index2.len() implies (#[trigger] index2[j]).1 == handle_bytes(
        blocks[j].0,
    ) by {
        if j < index.len() {
            assert(index2[j] == index2.take(index.len() as int)[j]);
        }
    }
    if pending {
        lemma_flatten_last(blocks);
        assert(flatten(blocks) + data =~= flatten(blocks));
        crate::comparator::lemma_bytes_lt_asymmetric(last_key, index2.last().0);
        assert forall|j: int| 0 <= j < index2.len() implies !bytes_lt(
            (#[trigger] index2[j]).0,
            blocks[j].1.last().0,
        ) by {
            if j < index.len() {
                assert(index2[j] == index2.take(index.len() as int)[j]);
            }
        }
        assert forall|j: int| 0 <= j < index2.len() && j + 1 < blocks.len() implies bytes_lt(
            (#[trigger] index2[j]).0,
            blocks[j + 1].1[0].0,
        ) by {
            assert(index2[j] == index2.take(index.len() as int)[j]);
        }
    } else if data.len() > 0 {
        assert(data.push((key, value))[0] == data[0]);
    }
}

/// Naming the pending block in the index under a key at or after the last key keeps the layout.
pub proof fn lemma_layout_after_last_index_entry(
    w: Seq<u8>,
    blocks: Seq<(BlockHandle, Seq<Entry>)>,
    entries: Seq<Entry>,
    data: Seq<Entry>,
    index: Seq<Entry>,
    pending_handle: BlockHandle,
    index2: Seq<Entry>,
    last_key: Seq<u8>,
)
    requires
        layout_holds(w, blocks, entries, data, index, true, pending_handle),
        data.len() == 0,
        index2.len() == index.len() + 1,
        index2.take(index.len() as int) == index,
        index2.last().1 == handle_bytes(pending_handle),
        index2.last().0 == last_key || bytes_lt(last_key, index2.last().0),
        entries.len() > 0,
        last_key == entries.last().0,
    ensures
        layout_holds(w, blocks, entries, data, index2, false, pending_handle),
{
    reveal(layout_holds);
    lemma_flatten_last(blocks);
    assert(flatten(blocks) + data =~= flatten(blocks));
    crate::comparator::lemma_bytes_lt_asymmetric(last_key, index2.last().0);
    assert forall|j: int| 0 <= j < index2.len() implies (#[trigger] index2[j]).1 == handle_bytes(
        blocks[j].0,
    ) && !bytes_lt(index2[j].0, blocks[j].1.last().0) by {
        if j < index.len() {
            assert(index2[j] == index2.take(index.len() as int)[j]);
        }
    }
    assert forall|j: int| 0 <= j < index2.len() && j + 1 < blocks.len() implies bytes_lt(
        (#[trigger] index2[j]).0,
        blocks[j + 1].1[0].0,
    ) by {
        assert(index2[j] == index2.take(index.len() as int)[j]);
    }
}

/// A key above every key keeps the keys increasing.
pub proof fn lemma_keys_increasing_push(es: Seq<Entry>, key: Seq<u8>, value: Seq<u8>)
    requires
        keys_increasing(es),
        es.len() > 0 ==> bytes_lt(es.last().0, key),
    ensures
        keys_increasing(es.push((key, value))),
{
    let es2 = es.push((key, value));
    assert forall|i: int, j: int| 0 <= i < j < es2.len() implies bytes_lt(
        #[trigger] es2[i].0,
        #[trigger] es2[j].0,
    ) by {
        if j == es.len() && i < es.len() - 1 {
            lemma_bytes_lt_transitive(es[i].0, es.last().0, key);
        } else if j < es.len() {
            assert(es2[i] == es[i] && es2[j] == es[j]);
        }
    }
}

/// Appending to the file keeps the layout.
pub proof fn lemma_layout_grows(
    written: Seq<u8>,
    written2: Seq<u8>,
    blocks: Seq<(BlockHandle, Seq<Entry>)>,
    entries: Seq<Entry>,
    buffered: Seq<Entry>,
    index: Seq<Entry>,
    pending: bool,
    pending_handle: BlockHandle,
)
    requires
        layout_holds(written, blocks, entries, buffered, index, pending, pending_handle),
        written.is_prefix_of(written2),
    ensures
        layout_holds(written2, blocks, entries, buffered, index, pending, pending_handle),
{
    reveal(layout_holds);
    assert forall|j: int| 0 <= j < blocks.len() implies block_stored(
        written2,
        #[trigger] blocks[j].0,
        blocks[j].1,
    ) by {
        lemma_block_stored_grows(written, written2, blocks[j].0, blocks[j].1);
    }
}

/// Reading the blocks that the index names gives back their entries in order.
pub proof fn lemma_read_data_blocks(
    file: Seq<u8>,
    index: Seq<Entry>,
    blocks: Seq<(BlockHandle, Seq<Entry>)>,
)
    requires
        index.len() == blocks.len(),
        forall|j: int| 0 <= j < index.len() ==> (#[trigger] index[j]).1 == handle_bytes(blocks[j].0),
        forall|j: int| 0 <= j < blocks.len() ==> block_stored(file, #[trigger] blocks[j].0, blocks[j].1),
    ensures
        read_data_blocks(file, index) == Some(flatten(blocks)),
    decreases index.len(),
{
    if index.len() > 0 {
        let n = index.len() - 1;
        let i2 = index.drop_last();
        let b2 = blocks.drop_last();
        assert forall|j: int| 0 <= j < i2.len() implies (#[trigger] i2[j]).1 == handle_bytes(b2[j].0) by {
            assert(i2[j] == index[j]);
            assert(b2[j] == blocks[j]);
        }
        assert forall|j: int| 0 <= j < b2.len() implies block_stored(file, #[trigger] b2[j].0, b2[j].1) by {
            assert(b2[j] == blocks[j]);
        }
        lemma_read_data_blocks(file, i2, b2);
        let h = blocks[n].0;
        assert(index.last().1 == handle_bytes(h));
        lemma_handle_bytes_len(h);
        assert(handle_bytes(h).subrange(0, handle_bytes(h).len() as int) =~= handle_bytes(h));
        crate::format::lemma_parse_handle(handle_bytes(h), 0, h);
        assert(block_stored(file, blocks[n].0, blocks[n].1));
    }
}

/// A file that ends with the index block and the footer reads back as the entries the blocks
/// hold; its index separates the blocks; and a key that no entry holds is not found.
pub proof fn lemma_finished_table(
    w1: Seq<u8>,
    file: Seq<u8>,
    metaindex_handle: BlockHandle,
    index_handle: BlockHandle,
    blocks: Seq<(BlockHandle, Seq<Entry>)>,
    entries: Seq<Entry>,
    data: Seq<Entry>,
    index: Seq<Entry>,
    pending_handle: BlockHandle,
)
    requires
        layout_holds(file, blocks, entries, data, index, false, pending_handle),
        data.len() == 0,
        block_stored(w1, index_handle, index),
        file == w1 + footer_bytes(metaindex_handle, index_handle),
    ensures
        file.len() >= FOOTER_ENCODED_LENGTH,
        file.subrange(file.len() - FOOTER_ENCODED_LENGTH, file.len() as int) == footer_bytes(
            metaindex_handle,
            index_handle,
        ),
        read_table(file) == Some(entries),
        read_index(file) == Some(index),
        entries.len() == 0 ==> index.len() == 0,
        index_separates_blocks(file, index),
        forall|key: Seq<u8>|
            (forall|i: int| 0 <= i < entries.len() ==> (#[trigger] entries[i]).0 != key) ==> (
            #[trigger] table_get(file, key)) is None,
{
    crate::format::lemma_read_footer(w1, metaindex_handle, index_handle);
    assert(w1.is_prefix_of(file));
    lemma_block_stored_grows(w1, file, index_handle, index);
    reveal(layout_holds);
    if blocks.len() > 0 {
        lemma_flatten_last(blocks);
    }
    lemma_read_data_blocks(file, index, blocks);
    lemma_named_blocks(file, index, blocks);
    assert(flatten(blocks) =~= flatten(blocks) + data);
    assert forall|key: Seq<u8>|
        (forall|i: int| 0 <= i < entries.len() ==> (#[trigger] entries[i]).0 != key) implies (
        #[trigger] table_get(file, key)) is None by {
        let j = first_at_or_after(index, key, 0);
        if j < index.len() {
            lemma_flatten_absent(blocks, key, j as int);
            lemma_value_in_absent(blocks[j as int].1, key);
        }
    }
    crate::format::lemma_footer_len(metaindex_handle, index_handle);
    assert(file.subrange(file.len() - 48, file.len() as int) =~= footer_bytes(
        metaindex_handle,
        index_handle,
    ));
}

/// The metaindex block of `file` holds one entry `"filter." + name` naming the filter block
/// `output` when there is one, and no entry otherwise.
#[verifier::opaque]
pub open spec fn metaindex_names_filter(file: Seq<u8>, output: Option<Seq<u8>>) -> bool {
    match read_metaindex(file) {
        Some(meta) => match output {
            Some(c) => meta.len() == 1 && (exists|name: Seq<u8>|
                meta[0].0 == "filter.".spec_bytes() + name) && match parse_handle(meta[0].1, 0) {
                Some((h, _)) => block_at(file, h) == Some(c),
                None => false,
            },
            None => meta.len() == 0,
        },
        None => false,
    }
}

/// The footer's first handle names the metaindex block, which names the filter block.
pub proof fn lemma_metaindex_read(
    wm: Seq<u8>,
    file: Seq<u8>,
    metaindex_handle: BlockHandle,
    index_handle: BlockHandle,
    filter: Option<(BlockHandle, &'static str)>,
    output: Option<Seq<u8>>,
)
    requires
        wm.is_prefix_of(file),
        read_footer(file) == Some((metaindex_handle, index_handle)),
        block_stored(wm, metaindex_handle, metaindex_entries(filter)),
        match filter {
            Some((fh, name)) => output is Some && block_at(wm, fh) == output,
            None => output is None,
        },
    ensures
        metaindex_names_filter(file, output),
{
    reveal(metaindex_names_filter);
    lemma_block_stored_grows(wm, file, metaindex_handle, metaindex_entries(filter));
    match filter {
        Some((fh, name)) => {
            let meta = metaindex_entries(filter);
            assert(meta[0].0 == "filter.".spec_bytes() + name.spec_bytes());
            lemma_handle_bytes_len(fh);
            assert(handle_bytes(fh).subrange(0, handle_bytes(fh).len() as int) =~= handle_bytes(fh));
            crate::format::lemma_parse_handle(handle_bytes(fh), 0, fh);
            assert(file.subrange(fh.offset as int, fh.offset + fh.size) =~= wm.subrange(
                fh.offset as int,
                fh.offset + fh.size,
            ));
        },
        None => {},
    }
}

/// A key that no entry holds is held by no entry of any block.
pub proof fn lemma_flatten_absent(blocks: Seq<(BlockHandle, Seq<Entry>)>, key: Seq<u8>, j: int)
    requires
        0 <= j < blocks.len(),
        forall|i: int| 0 <= i < flatten(blocks).len() ==> (#[trigger] flatten(blocks)[i]).0 != key,
    ensures
        forall|t: int| 0 <= t < blocks[j].1.len() ==> (#[trigger] blocks[j].1[t]).0 != key,
    decreases blocks.len(),
{
    let before = flatten(blocks.drop_last());
    if j < blocks.len() - 1 {
        assert forall|i: int| 0 <= i < flatten(blocks.drop_last()).len() implies (
        #[trigger] flatten(blocks.drop_last())[i]).0 != key by {
            assert(flatten(blocks)[i] == before[i]);
        }
        lemma_flatten_absent(blocks.drop_last(), key, j);
        assert(blocks.drop_last()[j] == blocks[j]);
    } else {
        assert forall|t: int| 0 <= t < blocks[j].1.len() implies (#[trigger] blocks[j].1[t]).0 != key by {
            assert(flatten(blocks)[before.len() + t] == blocks[j].1[t]);
        }
    }
}

/// Each index value names the block it was written for.
pub proof fn lemma_named_blocks(
    file: Seq<u8>,
    index: Seq<Entry>,
    blocks: Seq<(BlockHandle, Seq<Entry>)>,
)
    requires
        index.len() == blocks.len(),
        forall|j: int| 0 <= j < index.len() ==> (#[trigger] index[j]).1 == handle_bytes(blocks[j].0),
        forall|j: int| 0 <= j < blocks.len() ==> block_stored(file, #[trigger] blocks[j].0, blocks[j].1),
    ensures
        forall|j: int|
            0 <= j < index.len() ==> named_block_entries(file, (#[trigger] index[j]).1)
                == blocks[j].1,
{
    assert forall|j: int| 0 <= j < index.len() implies named_block_entries(
        file,
        (#[trigger] index[j]).1,
    ) == blocks[j].1 by {
        let h = blocks[j].0;
        lemma_handle_bytes_len(h);
        assert(handle_bytes(h).subrange(0, handle_bytes(h).len() as int) =~= handle_bytes(h));
        crate::format::lemma_parse_handle(handle_bytes(h), 0, h);
        assert(block_stored(file, blocks[j].0, blocks[j].1));
    }
}

/// A separator is never longer than the key it shortens.
pub proof fn lemma_separator_len(start: Seq<u8>, limit: Seq<u8>)
    ensures
        shortest_separator(start, limit).len() <= start.len(),
{
}

/// A successor is never longer than its key.
pub proof fn lemma_successor_len(key: Seq<u8>, i: nat)
    ensures
        crate::comparator::short_successor_from(key, i).len() <= key.len(),
    decreases key.len() - i,
{
    if i < key.len() && key[i as int] == 0xff {
        lemma_successor_len(key, i + 1);
    }
}

} // verus!
