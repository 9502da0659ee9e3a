//! The filter block: one membership filter per 2 KiB range of data-block offsets.
//!
//! Layout: `[filter_0] .. [filter_{n-1}] [offset_0: u32 LE] .. [offset_{n-1}: u32 LE]
//! [array_start: u32 LE] [base_lg: u8]`. Filter `i` covers the keys of the data blocks whose
//! offsets `o` have `o >> base_lg == i`, and spans from `offset_i` to the next offset (the
//! last one ends where the offset array starts).

use vstd::prelude::*;
use vstd::arithmetic::power2::pow2;
use crate::block_builder::fixed32_array;
use crate::coding::{append_bytes, decode_fixed32, fixed32_bytes, fixed32_value, put_fixed32};

verus! {

/// The base-2 logarithm of the offset range that one filter covers.
pub const FILTER_BASE_LG: u8 = 11;

/// The offset range that one filter covers: 2 KiB.
pub const FILTER_BASE: u64 = 2048;

/// Builds the filters of one table from its keys; answers membership against one of them.
///
/// `key_may_match` must answer `true` for every key that was handed to the `create_filter`
/// call that made `filter`; it may answer `true` for others too.
pub trait FilterPolicy {
    /// The policy's name, recorded in the table so that a reader can pick the same policy.
    fn name(&self) -> &'static str;

    /// A filter that summarizes `keys`.
    fn create_filter(&self, keys: &[Vec<u8>]) -> Vec<u8>;

    /// Whether `key` may be among the keys summarized by `filter`.
    fn key_may_match(&self, key: &[u8], filter: &[u8]) -> bool;
}

/// The filters, concatenated.
pub open spec fn concat(fs: Seq<Seq<u8>>) -> Seq<u8>
    decreases fs.len(),
{
    if fs.len() == 0 {
        Seq::empty()
    } else {
        concat(fs.drop_last()) + fs.last()
    }
}

/// Where each filter starts in the concatenation.
pub open spec fn filter_offsets(fs: Seq<Seq<u8>>) -> Seq<u32> {
    Seq::new(fs.len(), |i: int| concat(fs.take(i)).len() as u32)
}

/// A finished filter block holding the filters `fs`.
pub open spec fn filter_block_bytes(fs: Seq<Seq<u8>>) -> Seq<u8> {
    concat(fs) + fixed32_array(filter_offsets(fs)) + fixed32_bytes(concat(fs).len() as u32) + seq![
        FILTER_BASE_LG,
    ]
}

/// The block written when the filters outgrow 32-bit offsets: no filter at all, which a
/// reader answers with "may match" for every key.
pub open spec fn oversized_filter_block() -> Seq<u8> {
    fixed32_bytes(0) + seq![FILTER_BASE_LG]
}

pub struct FilterBlockBuilder<P> {
    policy: P,
    keys: Vec<Vec<u8>>,
    result: Vec<u8>,
    offsets: Vec<u32>,
    oversized: bool,
    finished: bool,
    filters: Ghost<Seq<Seq<u8>>>,
    groups: Ghost<Seq<Seq<Seq<u8>>>>,
}

impl<P: FilterPolicy> FilterBlockBuilder<P> {
    /// The filters generated so far.
    pub closed spec fn filters(&self) -> Seq<Seq<u8>> {
        self.filters@
    }

    /// The keys that each generated filter summarizes.
    pub closed spec fn groups(&self) -> Seq<Seq<Seq<u8>>> {
        self.groups@
    }

    /// The keys added since the last filter was generated.
    pub closed spec fn pending(&self) -> Seq<Seq<u8>> {
        self.keys@.map_values(|k: Vec<u8>| k@)
    }

    /// Whether the filters outgrew 32-bit offsets, so that the block will hold none.
    pub closed spec fn is_oversized(&self) -> bool {
        self.oversized
    }

    pub closed spec fn is_finished(&self) -> bool {
        self.finished
    }

    pub closed spec fn wf(&self) -> bool {
        &&& self.filters@.len() == self.groups@.len()
        &&& self.offsets@.len() == self.filters@.len()
        &&& forall|i: int|
            0 <= i < self.groups@.len() && (#[trigger] self.groups@[i]).len() == 0
                ==> self.filters@[i].len() == 0
        &&& self.result@.len() <= u32::MAX
        &&& self.oversized == (concat(self.filters@).len() > u32::MAX)
        &&& !self.oversized ==> {
            &&& self.result@ == concat(self.filters@)
            &&& self.offsets@ == filter_offsets(self.filters@)
        }
    }

    pub fn new(policy: P) -> (r: Self)
        ensures
            r.wf(),
            r.filters().len() == 0,
            r.pending().len() == 0,
            !r.is_oversized(),
            !r.is_finished(),
            concat(r.filters()).len() == 0,
    {
        let r = FilterBlockBuilder {
            policy,
            keys: Vec::new(),
            result: Vec::new(),
            offsets: Vec::new(),
            oversized: false,
            finished: false,
            filters: Ghost(Seq::empty()),
            groups: Ghost(Seq::empty()),
        };
        assert(r.pending() =~= Seq::<Seq<u8>>::empty());
        assert(r.offsets@ =~= filter_offsets(r.filters@));
        r
    }

    /// Turns the pending keys into the next filter.
    fn generate_filter(&mut self)
        requires
            old(self).wf(),
            !old(self).finished,
            old(self).filters@.len() < usize::MAX,
        ensures
            final(self).wf(),
            !final(self).finished,
            final(self).groups() == old(self).groups().push(old(self).pending()),
            final(self).filters().len() == old(self).filters().len() + 1,
            final(self).filters().take(old(self).filters().len() as int) == old(self).filters(),
            old(self).pending().len() == 0 ==> final(self).filters().last().len() == 0,
            final(self).pending().len() == 0,
            final(self).is_oversized() == (concat(final(self).filters()).len() > u32::MAX),
    {
        let ghost old_fs = self.filters@;
        proof {
            lemma_concat_push(old_fs, Seq::empty());
        }
        if self.keys.len() == 0 {
            self.offsets.push(self.result.len() as u32);
            self.filters = Ghost(old_fs.push(Seq::empty()));
        } else {
            let filter = self.policy.create_filter(self.keys.as_slice());
            proof {
                lemma_concat_push(old_fs, filter@);
            }
            if !self.oversized && self.result.len() as u128 + filter.len() as u128 <= u32::MAX as u128 {
                proof {
                    lemma_concat_push(old_fs, filter@);
                }
                self.offsets.push(self.result.len() as u32);
                append_bytes(&mut self.result, filter.as_slice());
            } else {
                self.oversized = true;
                self.offsets.push(self.result.len() as u32);
            }
            self.filters = Ghost(old_fs.push(filter@));
        }
        self.groups = Ghost(self.groups@.push(self.pending()));
        self.keys.clear();
        proof {
            assert(self.filters@.take(old_fs.len() as int) =~= old_fs);
            assert(self.pending() =~= Seq::<Seq<u8>>::empty());
            if !self.oversized {
                let fs = self.filters@;
                assert forall|i: int| 0 <= i < fs.len() implies self.offsets@[i] == filter_offsets(
                    fs,
                )[i] by {
                    if i < old_fs.len() {
                        assert(fs.take(i) =~= old_fs.take(i));
                    } else {
                        assert(fs.take(i) =~= old_fs);
                    }
                }
                assert(self.offsets@ =~= filter_offsets(self.filters@));
            }
        }
    }

    /// Starts the data block at `block_offset`: filters are generated until there is one for
    /// every range before the block's own, the first of them summarizing the pending keys.
    pub fn start_block(&mut self, block_offset: u64)
        requires
            old(self).wf(),
            !old(self).is_finished(),
            block_offset / FILTER_BASE >= old(self).filters().len(),
            block_offset / FILTER_BASE < usize::MAX,
        ensures
            final(self).wf(),
            !final(self).is_finished(),
            final(self).filters().len() == block_offset / FILTER_BASE,
            old(self).filters().len() < block_offset / FILTER_BASE ==> final(self).pending().len() == 0,
            old(self).filters().len() == block_offset / FILTER_BASE ==> *final(self) == *old(self),
            final(self).filters().take(old(self).filters().len() as int) == old(self).filters(),
            final(self).groups() == if old(self).filters().len() < block_offset / FILTER_BASE {
                old(self).groups().push(old(self).pending()) + Seq::new(
                    (block_offset / FILTER_BASE - old(self).filters().len() - 1) as nat,
                    |i: int| Seq::<Seq<u8>>::empty(),
                )
            } else {
                old(self).groups()
            },
            forall|i: int|
                0 <= i < final(self).groups().len() && (#[trigger] final(self).groups()[i]).len()
                    == 0 ==> final(self).filters()[i].len() == 0,
            final(self).is_oversized() == (concat(final(self).filters()).len() > u32::MAX),
    {
        let filter_index = block_offset / FILTER_BASE;
        let ghost n0 = self.filters@.len();
        let ghost g0 = self.groups@;
        let ghost at0 = self.pending();
        assert(self.filters@.take(n0 as int) =~= self.filters@);
        while (self.offsets.len() as u64) < filter_index
            invariant
                self.wf(),
                !self.finished,
                filter_index == block_offset / FILTER_BASE,
                filter_index < usize::MAX,
                n0 <= self.filters@.len() <= filter_index,
                self.filters@.take(n0 as int) == old(self).filters@,
                self.offsets@.len() == self.filters@.len(),
                n0 == old(self).filters@.len(),
                g0 == old(self).groups@,
                at0 == old(self).pending(),
                self.filters@.len() == n0 ==> *self == *old(self),
                self.filters@.len() > n0 ==> self.pending().len() == 0,
                self.groups@ == if self.filters@.len() > n0 {
                    g0.push(at0) + Seq::new(
                        (self.filters@.len() - n0 - 1) as nat,
                        |i: int| Seq::<Seq<u8>>::empty(),
                    )
                } else {
                    g0
                },
            decreases filter_index - self.filters@.len(),
        {
            let ghost before = self.filters@;
            let ghost gb = self.groups@;
            let ghost pb = self.pending();
            self.generate_filter();
            proof {
                assert(self.filters@.take(n0 as int) =~= before.take(n0 as int));
                if before.len() > n0 {
                    assert(pb =~= Seq::<Seq<u8>>::empty());
                    assert(self.groups@ =~= g0.push(at0) + Seq::new(
                        (self.filters@.len() - n0 - 1) as nat,
                        |i: int| Seq::<Seq<u8>>::empty(),
                    ));
                } else {
                    assert(self.groups@ =~= g0.push(at0) + Seq::new(
                        (self.filters@.len() - n0 - 1) as nat,
                        |i: int| Seq::<Seq<u8>>::empty(),
                    ));
                }
            }
        }
    }

    /// Whether `finish` was called.
    pub fn is_finished_exec(&self) -> (r: bool)
        ensures
            r == self.is_finished(),
    {
        self.finished
    }

    /// The name of the policy that makes the filters.
    pub fn policy_name(&self) -> &'static str {
        self.policy.name()
    }

    /// Adds a key to the next filter.
    pub fn add_key(&mut self, key: &[u8])
        requires
            old(self).wf(),
            !old(self).is_finished(),
        ensures
            final(self).wf(),
            !final(self).is_finished(),
            final(self).pending() == old(self).pending().push(key@),
            final(self).filters() == old(self).filters(),
            final(self).groups() == old(self).groups(),
            final(self).is_oversized() == old(self).is_oversized(),
            final(self).is_oversized() == (concat(final(self).filters()).len() > u32::MAX),
    {
        let mut k: Vec<u8> = Vec::new();
        append_bytes(&mut k, key);
        self.keys.push(k);
        assert(self.pending() =~= old(self).pending().push(key@));
    }

    /// Generates a last filter for the pending keys (or an empty one when no filter exists
    /// yet), then appends the offset array, its start, and the base logarithm.
    pub fn finish(&mut self) -> (r: Vec<u8>)
        requires
            old(self).wf(),
            !old(self).is_finished(),
            old(self).filters().len() < usize::MAX,
        ensures
            final(self).wf(),
            final(self).is_finished(),
            final(self).filters() == if old(self).pending().len() > 0 || old(self).filters().len()
                == 0 {
                old(self).filters().push(final(self).filters().last())
            } else {
                old(self).filters()
            },
            final(self).groups() == if old(self).pending().len() > 0 || old(self).filters().len()
                == 0 {
                old(self).groups().push(old(self).pending())
            } else {
                old(self).groups()
            },
            final(self).groups().len() == final(self).filters().len(),
            forall|i: int|
                0 <= i < final(self).groups().len() && (#[trigger] final(self).groups()[i]).len()
                    == 0 ==> final(self).filters()[i].len() == 0,
            !final(self).is_oversized() ==> r@ == filter_block_bytes(final(self).filters()),
            final(self).is_oversized() ==> r@ == oversized_filter_block(),
            final(self).is_oversized() == (concat(final(self).filters()).len() > u32::MAX),
    {
        if self.keys.len() > 0 || self.offsets.len() == 0 {
            self.generate_filter();
            proof {
                if old(self).pending().len() > 0 || old(self).filters().len() == 0 {
                    assert(self.filters@ =~= old(self).filters@.push(self.filters@.last()));
                }
            }
        }
        let mut out: Vec<u8> = Vec::new();
        if self.oversized {
            put_fixed32(&mut out, 0);
            out.push(FILTER_BASE_LG);
            assert(out@ =~= oversized_filter_block());
        } else {
            let array_offset = self.result.len() as u32;
            let ghost fs = self.filters@;
            append_bytes(&mut out, self.result.as_slice());
            let mut i: usize = 0;
            while i < self.offsets.len()
                invariant
                    self.wf(),
                    !self.oversized,
                    !self.finished,
                    fs == self.filters@,
                    i <= self.offsets@.len(),
                    array_offset == self.result@.len(),
                    out@ == concat(fs) + fixed32_array(self.offsets@.take(i as int)),
                decreases self.offsets@.len() - i,
            {
                put_fixed32(&mut out, self.offsets[i]);
                proof {
                    assert(self.offsets@.take(i + 1).drop_last() =~= self.offsets@.take(i as int));
                }
                i = i + 1;
            }
            assert(self.offsets@.take(i as int) =~= self.offsets@);
            put_fixed32(&mut out, array_offset);
            out.push(FILTER_BASE_LG);
            assert(out@ =~= filter_block_bytes(fs));
        }
        self.finished = true;
        out
    }
}

/// What a filter block says of the keys of the data block at some offset.
#[derive(PartialEq, Eq, Structural, Clone, Copy, Debug)]
pub enum FilterLookup {
    /// No usable filter covers the offset: every key may be present.
    MayMatch,
    /// The covering filter is empty: no key is present.
    NoMatch,
    /// The covering filter spans `start..limit` of the block.
    Filter { start: usize, limit: usize },
}

/// Where the offset array of the filter block `c` starts, and how many filters it lists;
/// a block too short or with an impossible array start lists none.
pub open spec fn filter_layout(c: Seq<u8>) -> (int, int) {
    if c.len() < 5 {
        (0, 0)
    } else {
        let last_word = fixed32_value(c.subrange(c.len() - 5, c.len() - 1));
        if last_word > c.len() - 5 {
            (0, 0)
        } else {
            (last_word, (c.len() - 5 - last_word) / 4)
        }
    }
}

/// The base logarithm recorded in the filter block `c`.
pub open spec fn filter_base_lg(c: Seq<u8>) -> nat {
    if c.len() < 5 {
        0
    } else {
        c.last() as nat
    }
}

/// Which filter of `c` covers the data block at `block_offset`, and what it says.
pub open spec fn filter_lookup(c: Seq<u8>, block_offset: u64) -> FilterLookup {
    let (array, num) = filter_layout(c);
    let index = block_offset as int / pow2(filter_base_lg(c)) as int;
    if index >= num {
        FilterLookup::MayMatch
    } else {
        let at = array + 4 * index;
        let start = fixed32_value(c.subrange(at, at + 4));
        let limit = fixed32_value(c.subrange(at + 4, at + 8));
        if start == limit {
            FilterLookup::NoMatch
        } else if start < limit && limit <= array {
            FilterLookup::Filter { start: start as usize, limit: limit as usize }
        } else {
            FilterLookup::MayMatch
        }
    }
}

pub struct FilterBlockReader<P> {
    policy: P,
    data: Vec<u8>,
    offset: usize,
    num: usize,
    base_lg: u8,
}

impl<P: FilterPolicy> FilterBlockReader<P> {
    /// The filter block this reader answers from.
    pub closed spec fn contents(&self) -> Seq<u8> {
        self.data@
    }

    pub closed spec fn wf(&self) -> bool {
        &&& (self.offset as int, self.num as int) == filter_layout(self.data@)
        &&& self.base_lg as nat == filter_base_lg(self.data@)
        &&& self.data@.len() >= 5 ==> self.offset + 4 * self.num + 5 <= self.data@.len()
    }

    /// A reader over `contents`; a malformed block yields a reader that always says "may match".
    pub fn new(policy: P, contents: &[u8]) -> (r: Self)
        ensures
            r.wf(),
            r.contents() == contents@,
    {
        let mut data: Vec<u8> = Vec::new();
        append_bytes(&mut data, contents);
        let n = data.len();
        if n < 5 {
            return FilterBlockReader { policy, data, offset: 0, num: 0, base_lg: 0 };
        }
        let base_lg = data[n - 1];
        let last_word = decode_fixed32(data.as_slice(), n - 5);
        if last_word as usize > n - 5 {
            return FilterBlockReader { policy, data, offset: 0, num: 0, base_lg };
        }
        let offset = last_word as usize;
        let num = (n - 5 - offset) / 4;
        FilterBlockReader { policy, data, offset, num, base_lg }
    }

    /// Which filter covers the data block at `block_offset`, and what it says.
    pub fn lookup(&self, block_offset: u64) -> (r: FilterLookup)
        requires
            self.wf(),
        ensures
            r == filter_lookup(self.contents(), block_offset),
    {
        let index = shift_right(block_offset, self.base_lg);
        if index >= self.num as u64 {
            return FilterLookup::MayMatch;
        }
        let i = index as usize;
        let n = self.data.len();
        assert(self.offset + 4 * i + 8 < n);
        let at = self.offset + 4 * i;
        let start = decode_fixed32(self.data.as_slice(), at);
        let limit = decode_fixed32(self.data.as_slice(), at + 4);
        if start == limit {
            FilterLookup::NoMatch
        } else if start < limit && limit as usize <= self.offset {
            FilterLookup::Filter { start: start as usize, limit: limit as usize }
        } else {
            FilterLookup::MayMatch
        }
    }

    /// Whether `key` may be among the keys of the data block at `block_offset`: the covering
    /// filter's policy decides; without a usable filter the answer is "may match", and an
    /// empty filter matches nothing.
    pub fn key_may_match(&self, block_offset: u64, key: &[u8]) -> (r: bool)
        requires
            self.wf(),
        ensures
            filter_lookup(self.contents(), block_offset) == FilterLookup::MayMatch ==> r,
            filter_lookup(self.contents(), block_offset) == FilterLookup::NoMatch ==> !r,
    {
        match self.lookup(block_offset) {
            FilterLookup::MayMatch => true,
            FilterLookup::NoMatch => false,
            FilterLookup::Filter { start, limit } => {
                let filter = &self.data.as_slice()[start..limit];
                self.policy.key_may_match(key, filter)
            },
        }
    }
}

/// `x >> s`, for any shift.
fn shift_right(x: u64, s: u8) -> (r: u64)
    ensures
        r == x as int / pow2(s as nat) as int,
{
    let mut r: u64 = x;
    let mut i: u8 = 0;
    proof {
        vstd::arithmetic::power2::lemma2_to64();
        assert(x as int / 1 == x);
    }
    while i < s
        invariant
            i <= s,
            r == x as int / pow2(i as nat) as int,
        decreases s - i,
    {
        proof {
            vstd::arithmetic::power2::lemma_pow2_pos(i as nat);
            vstd::arithmetic::power2::lemma_pow2_unfold((i + 1) as nat);
            vstd::arithmetic::div_mod::lemma_div_denominator(x as int, pow2(i as nat) as int, 2);
            assert(pow2(i as nat) * 2 == pow2((i + 1) as nat));
        }
        r = r / 2;
        i = i + 1;
    }
    r
}

/// Each element of an offset array reads back from its four bytes.
pub proof fn lemma_fixed32_array_index(xs: Seq<u32>, i: int)
    requires
        0 <= i < xs.len(),
    ensures
        fixed32_array(xs).len() == 4 * xs.len(),
        fixed32_array(xs).subrange(4 * i, 4 * i + 4) == fixed32_bytes(xs[i]),
    decreases xs.len(),
{
    crate::block_builder::lemma_fixed32_array_len(xs);
    crate::block_builder::lemma_fixed32_array_len(xs.drop_last());
    if i < xs.len() - 1 {
        lemma_fixed32_array_index(xs.drop_last(), i);
        assert(fixed32_array(xs).subrange(4 * i, 4 * i + 4) =~= fixed32_array(xs.drop_last()).subrange(
            4 * i,
            4 * i + 4,
        ));
    } else {
        assert(fixed32_array(xs).subrange(4 * i, 4 * i + 4) =~= fixed32_bytes(xs[i]));
    }
}

/// The filters before `j` form a prefix of the concatenation.
pub proof fn lemma_concat_prefix(fs: Seq<Seq<u8>>, j: int)
    requires
        0 <= j <= fs.len(),
    ensures
        concat(fs.take(j)).len() <= concat(fs).len(),
        concat(fs).subrange(0, concat(fs.take(j)).len() as int) == concat(fs.take(j)),
    decreases fs.len() - j,
{
    if j == fs.len() {
        assert(fs.take(j) =~= fs);
        assert(concat(fs).subrange(0, concat(fs).len() as int) =~= concat(fs));
    } else {
        lemma_concat_prefix(fs, j + 1);
        let t = fs.take(j + 1);
        assert(t.drop_last() =~= fs.take(j));
        let a = concat(fs.take(j));
        let b = concat(t);
        assert(concat(fs).subrange(0, a.len() as int) =~= b.subrange(0, a.len() as int));
        assert(b.subrange(0, a.len() as int) =~= a);
    }
}

/// Filter `i` lies between the offsets of filters `i` and `i + 1`.
pub proof fn lemma_concat_element(fs: Seq<Seq<u8>>, i: int)
    requires
        0 <= i < fs.len(),
    ensures
        concat(fs.take(i + 1)).len() == concat(fs.take(i)).len() + fs[i].len(),
        concat(fs).subrange(concat(fs.take(i)).len() as int, concat(fs.take(i + 1)).len() as int)
            == fs[i],
{
    let t = fs.take(i + 1);
    assert(t.drop_last() =~= fs.take(i));
    lemma_concat_prefix(fs, i + 1);
    let a = concat(fs.take(i)).len() as int;
    let b = concat(t).len() as int;
    assert(concat(fs).subrange(a, b) =~= concat(t).subrange(a, b));
    assert(concat(t).subrange(a, b) =~= fs[i]);
}

/// The pieces of a finished filter block: where its offset array starts, how many filters it
/// lists, its base logarithm, and the four bytes of each offset.
pub proof fn lemma_filter_block_layout(fs: Seq<Seq<u8>>)
    requires
        concat(fs).len() <= u32::MAX,
    ensures
        filter_layout(filter_block_bytes(fs)) == (concat(fs).len() as int, fs.len() as int),
        filter_base_lg(filter_block_bytes(fs)) == FILTER_BASE_LG,
        filter_block_bytes(fs).len() == concat(fs).len() + 4 * fs.len() + 5,
        filter_block_bytes(fs).subrange(0, concat(fs).len() as int) == concat(fs),
        forall|i: int|
            0 <= i < fs.len() ==> #[trigger] filter_block_bytes(fs).subrange(
                concat(fs).len() + 4 * i,
                concat(fs).len() + 4 * i + 4,
            ) == fixed32_bytes(filter_offsets(fs)[i]),
        filter_block_bytes(fs).subrange(
            (concat(fs).len() + 4 * fs.len()) as int,
            (concat(fs).len() + 4 * fs.len() + 4) as int,
        ) == fixed32_bytes(concat(fs).len() as u32),
{
    let c = filter_block_bytes(fs);
    let cc = concat(fs);
    let offs = filter_offsets(fs);
    let len = fs.len() as int;
    let n = c.len() as int;
    let arr = fixed32_array(offs);
    crate::block_builder::lemma_fixed32_array_len(offs);
    crate::coding::lemma_fixed32_round_trip(cc.len() as u32);
    assert(n == cc.len() + 4 * len + 5);
    assert(c.subrange(n - 5, n - 1) =~= fixed32_bytes(cc.len() as u32));
    assert(c.subrange(0, cc.len() as int) =~= cc);
    assert(filter_layout(c) == (cc.len() as int, len)) by {
        assert((4 * len) / 4 == len);
    }
    assert forall|i: int| 0 <= i < len implies #[trigger] c.subrange(
        cc.len() + 4 * i,
        cc.len() + 4 * i + 4,
    ) == fixed32_bytes(offs[i]) by {
        lemma_fixed32_array_index(offs, i);
        assert(c.subrange(cc.len() + 4 * i, cc.len() + 4 * i + 4) =~= arr.subrange(4 * i, 4 * i + 4));
    }
}

/// Reading back a finished filter block: the data block at `block_offset` is covered by
/// filter `block_offset / FILTER_BASE`. Past the last filter every key may match, an empty
/// filter matches nothing, and any other filter is handed to the policy exactly as it was made.
pub proof fn lemma_filter_block_round_trip(fs: Seq<Seq<u8>>, block_offset: u64)
    requires
        concat(fs).len() <= u32::MAX,
    ensures
        block_offset / FILTER_BASE >= fs.len() ==> filter_lookup(filter_block_bytes(fs), block_offset)
            == FilterLookup::MayMatch,
        block_offset / FILTER_BASE < fs.len() && fs[(block_offset / FILTER_BASE) as int].len() == 0
            ==> filter_lookup(filter_block_bytes(fs), block_offset) == FilterLookup::NoMatch,
        block_offset / FILTER_BASE < fs.len() && fs[(block_offset / FILTER_BASE) as int].len() > 0
            ==> match filter_lookup(filter_block_bytes(fs), block_offset) {
            FilterLookup::Filter { start, limit } => filter_block_bytes(fs).subrange(
                start as int,
                limit as int,
            ) == fs[(block_offset / FILTER_BASE) as int],
            _ => false,
        },
{
    let c = filter_block_bytes(fs);
    let cc = concat(fs);
    let offs = filter_offsets(fs);
    let len = fs.len() as int;
    lemma_filter_block_layout(fs);
    vstd::arithmetic::power2::lemma2_to64();
    let i = block_offset / FILTER_BASE;
    if i < len {
        let ii = i as int;
        let at = cc.len() + 4 * ii;
        lemma_concat_prefix(fs, ii);
        lemma_concat_prefix(fs, ii + 1);
        lemma_concat_element(fs, ii);
        crate::coding::lemma_fixed32_round_trip(offs[ii]);
        assert(c.subrange(at, at + 4) == fixed32_bytes(offs[ii]));
        if ii + 1 < len {
            let j = ii + 1;
            assert(c.subrange(cc.len() + 4 * j, cc.len() + 4 * j + 4) == fixed32_bytes(offs[j]));
            assert(at + 4 == cc.len() + 4 * j);
            crate::coding::lemma_fixed32_round_trip(offs[ii + 1]);
        } else {
            assert(fs.take(ii + 1) =~= fs);
            crate::coding::lemma_fixed32_round_trip(cc.len() as u32);
        }
        let start = concat(fs.take(ii)).len() as int;
        let limit = concat(fs.take(ii + 1)).len() as int;
        assert(fixed32_value(c.subrange(at, at + 4)) == start);
        assert(fixed32_value(c.subrange(at + 4, at + 8)) == limit);
        assert(c.subrange(start, limit) =~= cc.subrange(start, limit)) by {
            assert(c.subrange(start, limit) =~= c.subrange(0, cc.len() as int).subrange(start, limit));
        }
    }
}

/// A builder that saw no key and no block still finishes a non-empty block: one empty filter,
/// which matches nothing in the first range, while every later offset may match.
pub proof fn lemma_empty_filter_block(block_offset: u64)
    ensures
        filter_block_bytes(seq![Seq::<u8>::empty()]).len() == 9,
        block_offset < FILTER_BASE ==> filter_lookup(
            filter_block_bytes(seq![Seq::<u8>::empty()]),
            block_offset,
        ) == FilterLookup::NoMatch,
        block_offset >= FILTER_BASE ==> filter_lookup(
            filter_block_bytes(seq![Seq::<u8>::empty()]),
            block_offset,
        ) == FilterLookup::MayMatch,
{
    let fs = seq![Seq::<u8>::empty()];
    assert(fs.drop_last() =~= Seq::<Seq<u8>>::empty());
    assert(concat(fs) =~= Seq::<u8>::empty());
    lemma_filter_block_layout(fs);
    lemma_filter_block_round_trip(fs, block_offset);
}

/// A range in which blocks started but no key was added gets an empty filter, which a reader
/// reports as matching no key.
pub proof fn lemma_empty_range_never_matches(
    fs: Seq<Seq<u8>>,
    groups: Seq<Seq<Seq<u8>>>,
    block_offset: u64,
)
    requires
        fs.len() == groups.len(),
        forall|i: int| 0 <= i < groups.len() && (#[trigger] groups[i]).len() == 0 ==> fs[i].len() == 0,
        concat(fs).len() <= u32::MAX,
        block_offset / FILTER_BASE < fs.len(),
        groups[(block_offset / FILTER_BASE) as int].len() == 0,
    ensures
        filter_lookup(filter_block_bytes(fs), block_offset) == FilterLookup::NoMatch,
{
    lemma_filter_block_round_trip(fs, block_offset);
}

/// Concatenating one more filter appends its bytes.
pub proof fn lemma_concat_push(fs: Seq<Seq<u8>>, f: Seq<u8>)
    ensures
        concat(fs.push(f)) == concat(fs) + f,
        fs.push(f).take(fs.len() as int) == fs,
{
    assert(fs.push(f).drop_last() =~= fs);
    assert(fs.push(f).take(fs.len() as int) =~= fs);
}

} // verus!
