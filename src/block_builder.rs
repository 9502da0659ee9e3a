//! Builds one block: prefix-compressed entries followed by the restart array.
//!
//! Each entry is `varint32(shared) varint32(unshared) varint32(value_len)`, then the
//! unshared suffix of the key, then the value. Every `restart_interval`-th entry is a
//! restart point: it shares nothing with its predecessor, and its offset is listed in the
//! trailer `[u32 LE offset]* [u32 LE count]`.

use vstd::prelude::*;
use crate::coding::{
    append_bytes, fixed32_bytes, fixed32_value, parse_varint, put_fixed32, put_varint32,
    varint_bytes, lemma_varint_len, lemma_pow128_values,
};
use crate::comparator::{bytes_lt, common_prefix_len, shared_prefix_len};

verus! {

/// A key and its value.
pub type Entry = (Seq<u8>, Seq<u8>);

/// How many bytes of entry `i`'s key are shared with entry `i - 1`: none at a restart point.
pub open spec fn shared_at(es: Seq<Entry>, k: nat, i: int) -> nat {
    if i <= 0 || i % (k as int) == 0 {
        0
    } else {
        common_prefix_len(es[i - 1].0, es[i].0)
    }
}

/// The bytes of one entry whose key shares `shared` bytes with the previous key.
pub open spec fn entry_bytes(shared: nat, key: Seq<u8>, value: Seq<u8>) -> Seq<u8> {
    varint_bytes(shared) + varint_bytes((key.len() - shared) as nat) + varint_bytes(value.len())
        + key.subrange(shared as int, key.len() as int) + value
}

/// The entry region of a block holding `es` with restart interval `k`.
pub open spec fn block_data(es: Seq<Entry>, k: nat) -> Seq<u8>
    decreases es.len(),
{
    if es.len() == 0 {
        Seq::empty()
    } else {
        let i = es.len() - 1;
        block_data(es.take(i), k) + entry_bytes(shared_at(es, k, i), es[i].0, es[i].1)
    }
}

/// The offsets of the restart points of a block holding `es`: entry 0, and every `k`-th
/// entry after it. An empty block still lists offset 0.
pub open spec fn restart_offsets(es: Seq<Entry>, k: nat) -> Seq<u32>
    decreases es.len(),
{
    if es.len() <= 1 {
        seq![0u32]
    } else {
        let i = es.len() - 1;
        let before = restart_offsets(es.take(i), k);
        if i % (k as int) == 0 {
            before.push(block_data(es.take(i), k).len() as u32)
        } else {
            before
        }
    }
}

/// The little-endian encoding of each offset, concatenated.
pub open spec fn fixed32_array(xs: Seq<u32>) -> Seq<u8>
    decreases xs.len(),
{
    if xs.len() == 0 {
        Seq::empty()
    } else {
        fixed32_array(xs.drop_last()) + fixed32_bytes(xs.last())
    }
}

/// A finished block: the entries, the restart offsets, and their count.
pub open spec fn block_contents(es: Seq<Entry>, k: nat) -> Seq<u8> {
    block_data(es, k) + fixed32_array(restart_offsets(es, k)) + fixed32_bytes(
        restart_offsets(es, k).len() as u32,
    )
}

/// The keys of `es` strictly increase.
pub open spec fn keys_increasing(es: Seq<Entry>) -> bool {
    forall|i: int, j: int| 0 <= i < j < es.len() ==> bytes_lt(#[trigger] es[i].0, #[trigger] es[j].0)
}

/// The most bytes one entry adds beyond its key and value: three varint32 headers.
pub const ENTRY_OVERHEAD: usize = 15;

pub struct BlockBuilder {
    restart_interval: usize,
    buffer: Vec<u8>,
    restarts: Vec<u32>,
    counter: usize,
    finished: bool,
    last_key: Vec<u8>,
    entries: Ghost<Seq<Entry>>,
}

impl BlockBuilder {
    /// The entries added since construction or the last `reset`.
    pub closed spec fn entries(&self) -> Seq<Entry> {
        self.entries@
    }

    pub closed spec fn restart_interval_spec(&self) -> nat {
        self.restart_interval as nat
    }

    pub closed spec fn is_finished(&self) -> bool {
        self.finished
    }

    /// The bytes held so far: the entry region, and after `finish` the whole block.
    pub closed spec fn buffer_spec(&self) -> Seq<u8> {
        self.buffer@
    }

    pub closed spec fn wf(&self) -> bool {
        let es = self.entries@;
        let k = self.restart_interval as nat;
        &&& k >= 1
        &&& keys_increasing(es)
        &&& entries_bounded(es)
        &&& block_data(es, k).len() + 4 * restart_offsets(es, k).len() + 4 <= u32::MAX
        &&& self.restarts@ == restart_offsets(es, k)
        &&& self.counter == if es.len() == 0 {
            0
        } else {
            ((es.len() - 1) % (k as int) + 1) as nat
        }
        &&& self.counter <= k
        &&& es.len() > 0 ==> self.last_key@ == es.last().0
        &&& es.len() == 0 ==> self.last_key@.len() == 0
        &&& self.restarts@.len() <= es.len() + 1
        &&& if self.finished {
            self.buffer@ == block_contents(es, k)
        } else {
            self.buffer@ == block_data(es, k)
        }
    }

    /// Whether an entry with a key and value of these lengths keeps every offset within 32 bits.
    pub open spec fn can_add(&self, key_len: nat, value_len: nat) -> bool {
        block_data(self.entries(), self.restart_interval_spec()).len() + 4 * restart_offsets(
            self.entries(),
            self.restart_interval_spec(),
        ).len() + 8 + ENTRY_OVERHEAD + key_len + value_len <= u32::MAX
    }

    /// An empty builder that makes every `restart_interval`-th entry a restart point.
    pub fn new(restart_interval: usize) -> (r: Self)
        requires
            restart_interval >= 1,
        ensures
            r.wf(),
            r.entries() == Seq::<Entry>::empty(),
            r.restart_interval_spec() == restart_interval,
            !r.is_finished(),
    {
        let mut restarts: Vec<u32> = Vec::new();
        restarts.push(0);
        BlockBuilder {
            restart_interval,
            buffer: Vec::new(),
            restarts,
            counter: 0,
            finished: false,
            last_key: Vec::new(),
            entries: Ghost(Seq::empty()),
        }
    }

    /// Returns to the state that `new` gives, keeping the restart interval.
    pub fn reset(&mut self)
        requires
            old(self).wf(),
        ensures
            final(self).wf(),
            final(self).entries() == Seq::<Entry>::empty(),
            final(self).restart_interval_spec() == old(self).restart_interval_spec(),
            !final(self).is_finished(),
    {
        self.buffer.clear();
        self.restarts.clear();
        self.restarts.push(0);
        self.counter = 0;
        self.finished = false;
        self.last_key.clear();
        self.entries = Ghost(Seq::empty());
        assert(self.restarts@ =~= seq![0u32]);
    }

    /// The bounds that a well-formed builder keeps: a restart interval of at least one, keys
    /// and values with 32-bit lengths, and a finished block within 32-bit offsets.
    pub proof fn lemma_bounds(&self)
        requires
            self.wf(),
        ensures
            self.restart_interval_spec() >= 1,
            entries_bounded(self.entries()),
            keys_increasing(self.entries()),
            block_data(self.entries(), self.restart_interval_spec()).len() + 4 * restart_offsets(
                self.entries(),
                self.restart_interval_spec(),
            ).len() + 4 <= u32::MAX,
    {
    }

    /// Whether `finish` was called since construction or the last `reset`.
    pub fn is_finished_exec(&self) -> (r: bool)
        ensures
            r == self.is_finished(),
    {
        self.finished
    }

    /// Whether an entry with a key and value of these lengths fits the 32-bit offsets.
    pub fn has_room_for(&self, key_len: usize, value_len: usize) -> (r: bool)
        requires
            self.wf(),
            !self.is_finished(),
        ensures
            r == self.can_add(key_len as nat, value_len as nat),
    {
        let used = self.buffer.len() as u128 + 4 * self.restarts.len() as u128 + 8;
        used + ENTRY_OVERHEAD as u128 + key_len as u128 + value_len as u128 <= u32::MAX as u128
    }

    /// Appends an entry; every `restart_interval`-th entry starts a restart point.
    pub fn add(&mut self, key: &[u8], value: &[u8])
        requires
            old(self).wf(),
            !old(self).is_finished(),
            old(self).can_add(key@.len(), value@.len()),
            old(self).entries().len() > 0 ==> bytes_lt(old(self).entries().last().0, key@),
        ensures
            final(self).wf(),
            final(self).entries() == old(self).entries().push((key@, value@)),
            final(self).restart_interval_spec() == old(self).restart_interval_spec(),
            !final(self).is_finished(),
    {
        let ghost es = self.entries@;
        let ghost k = self.restart_interval as nat;
        let ghost n = es.len();
        let ghost es2 = es.push((key@, value@));
        let mut shared: usize = 0;
        if self.counter < self.restart_interval {
            shared = shared_prefix_len(self.last_key.as_slice(), key);
            proof {
                if n == 0 {
                    assert(common_prefix_len(self.last_key@, key@) == 0);
                }
            }
        } else {
            self.restarts.push(self.buffer.len() as u32);
            self.counter = 0;
        }
        proof {
            if n > 0 {
                lemma_mod_step(n as int, k as int);
            }
            assert(es2.take(n as int) =~= es);
            assert(shared == shared_at(es2, k, n as int));
            crate::comparator::lemma_common_prefix(self.last_key@, key@);
        }
        let non_shared = key.len() - shared;
        proof {
            lemma_pow128_values();
            lemma_varint_len(shared as nat, 5);
            lemma_varint_len(non_shared as nat, 5);
            lemma_varint_len(value@.len(), 5);
        }
        put_varint32(&mut self.buffer, shared as u32);
        put_varint32(&mut self.buffer, non_shared as u32);
        put_varint32(&mut self.buffer, value.len() as u32);
        append_bytes(&mut self.buffer, &key[shared..key.len()]);
        append_bytes(&mut self.buffer, value);
        self.last_key.clear();
        append_bytes(&mut self.last_key, key);
        self.counter = self.counter + 1;
        self.entries = Ghost(es2);
        proof {
            assert(self.buffer@ =~= block_data(es2, k));
            assert(self.last_key@ =~= key@);
            assert(self.restarts@ == restart_offsets(es2, k));
            assert forall|i: int, j: int| 0 <= i < j < es2.len() implies bytes_lt(
                #[trigger] es2[i].0,
                #[trigger] es2[j].0,
            ) by {
                if j == n && i < n - 1 {
                    crate::comparator::lemma_bytes_lt_transitive(es[i].0, es[n - 1].0, key@);
                }
            }
        }
    }

    /// Appends the restart array and its length, and returns the finished block.
    pub fn finish(&mut self) -> (r: Vec<u8>)
        requires
            old(self).wf(),
            !old(self).is_finished(),
        ensures
            final(self).wf(),
            final(self).is_finished(),
            final(self).entries() == old(self).entries(),
            final(self).restart_interval_spec() == old(self).restart_interval_spec(),
            r@ == block_contents(old(self).entries(), old(self).restart_interval_spec()),
            decode_block(r@) == Some(old(self).entries()),
            final(self).buffer_spec() == r@,
            old(self).entries().len() > 0 ==> restart_offsets(
                old(self).entries(),
                old(self).restart_interval_spec(),
            ).len() == (old(self).entries().len() + old(self).restart_interval_spec() - 1)
                / (old(self).restart_interval_spec() as int),
            forall|a: int, b: int|
                0 <= a < b < restart_offsets(
                    old(self).entries(),
                    old(self).restart_interval_spec(),
                ).len() ==> #[trigger] restart_offsets(
                    old(self).entries(),
                    old(self).restart_interval_spec(),
                )[a] < #[trigger] restart_offsets(
                    old(self).entries(),
                    old(self).restart_interval_spec(),
                )[b],
    {
        proof {
            lemma_block_round_trip(self.entries@, self.restart_interval as nat);
            if self.entries@.len() > 0 {
                lemma_restart_points(self.entries@, self.restart_interval as nat);
            }
        }
        let ghost start = self.buffer@;
        let mut i: usize = 0;
        while i < self.restarts.len()
            invariant
                old(self).wf(),
                !old(self).finished,
                self.entries == old(self).entries,
                self.restarts == old(self).restarts,
                self.restart_interval == old(self).restart_interval,
                self.counter == old(self).counter,
                self.last_key == old(self).last_key,
                self.finished == old(self).finished,
                start == old(self).buffer@,
                i <= self.restarts@.len(),
                self.buffer@ == start + fixed32_array(self.restarts@.take(i as int)),
            decreases self.restarts@.len() - i,
        {
            put_fixed32(&mut self.buffer, self.restarts[i]);
            proof {
                let t = self.restarts@.take(i + 1);
                assert(t.drop_last() =~= self.restarts@.take(i as int));
            }
            i = i + 1;
        }
        assert(self.restarts@.take(i as int) =~= self.restarts@);
        put_fixed32(&mut self.buffer, self.restarts.len() as u32);
        self.finished = true;
        let mut r: Vec<u8> = Vec::new();
        append_bytes(&mut r, self.buffer.as_slice());
        r
    }

    /// The size of the finished block if it were finished now.
    pub fn current_size_estimate(&self) -> (r: usize)
        requires
            self.wf(),
            !self.is_finished(),
        ensures
            r == block_data(self.entries(), self.restart_interval_spec()).len() + 4
                * restart_offsets(self.entries(), self.restart_interval_spec()).len() + 4,
    {
        self.buffer.len() + self.restarts.len() * 4 + 4
    }

    /// Whether no entry was added since construction or the last `reset`.
    pub fn empty(&self) -> (r: bool)
        requires
            self.wf(),
        ensures
            r == (!self.is_finished() && self.entries().len() == 0),
    {
        proof {
            lemma_block_data_empty(self.entries(), self.restart_interval as nat);
            lemma_fixed32_array_len(self.restarts@);
            crate::coding::lemma_fixed32_round_trip(self.restarts@.len() as u32);
        }
        self.buffer.len() == 0
    }
}

/// Stepping `n - 1` to `n` either moves one place within a group of `k` or starts a new group.
pub proof fn lemma_mod_step(n: int, k: int)
    requires
        n >= 1,
        k >= 1,
    ensures
        (n - 1) % k + 1 < k ==> n % k == (n - 1) % k + 1 && n / k == (n - 1) / k,
        (n - 1) % k + 1 >= k ==> n % k == 0 && n / k == (n - 1) / k + 1,
        0 <= (n - 1) % k < k,
{
    let q = (n - 1) / k;
    let r = (n - 1) % k;
    vstd::arithmetic::div_mod::lemma_fundamental_div_mod(n - 1, k);
    assert(0 <= r < k) by {
        vstd::arithmetic::div_mod::lemma_mod_pos_bound(n - 1, k);
    }
    if r + 1 < k {
        assert(n == q * k + (r + 1)) by (nonlinear_arith)
            requires
                n - 1 == k * q + r,
        ;
        vstd::arithmetic::div_mod::lemma_fundamental_div_mod_converse(n, k, q, r + 1);
    } else {
        assert(n == (q + 1) * k + 0) by (nonlinear_arith)
            requires
                n - 1 == k * q + r,
                r + 1 == k,
        ;
        vstd::arithmetic::div_mod::lemma_fundamental_div_mod_converse(n, k, q + 1, 0);
    }
}

/// The entry region is empty exactly when there are no entries.
pub proof fn lemma_block_data_empty(es: Seq<Entry>, k: nat)
    ensures
        (block_data(es, k).len() == 0) == (es.len() == 0),
{
    if es.len() > 0 {
        let i = es.len() - 1;
        assert(varint_bytes(shared_at(es, k, i)).len() >= 1);
    }
}

/// Where entry `i` starts in the entry region.
pub open spec fn entry_offset(es: Seq<Entry>, k: nat, i: int) -> nat {
    block_data(es.take(i), k).len()
}

/// The entry region of the first `i + 1` entries extends that of the first `i` by entry `i`.
pub proof fn lemma_block_data_step(es: Seq<Entry>, k: nat, i: int)
    requires
        0 <= i < es.len(),
    ensures
        block_data(es.take(i + 1), k) == block_data(es.take(i), k) + entry_bytes(
            shared_at(es, k, i),
            es[i].0,
            es[i].1,
        ),
{
    let t = es.take(i + 1);
    assert(t.take(i) =~= es.take(i));
    assert(t[i] == es[i]);
    if i > 0 {
        assert(t[i - 1] == es[i - 1]);
    }
    assert(shared_at(t, k, i) == shared_at(es, k, i));
}

/// Every entry takes at least three bytes.
pub proof fn lemma_entry_bytes_len(shared: nat, key: Seq<u8>, value: Seq<u8>)
    requires
        shared <= key.len(),
    ensures
        entry_bytes(shared, key, value).len() >= 3,
        entry_bytes(shared, key, value).len() == varint_bytes(shared).len() + varint_bytes(
            (key.len() - shared) as nat,
        ).len() + varint_bytes(value.len()).len() + (key.len() - shared) + value.len(),
{
    assert(varint_bytes(shared).len() >= 1);
    assert(varint_bytes((key.len() - shared) as nat).len() >= 1);
    assert(varint_bytes(value.len()).len() >= 1);
}

/// The shared prefix of an entry never exceeds its key.
pub proof fn lemma_shared_at_bound(es: Seq<Entry>, k: nat, i: int)
    requires
        0 <= i < es.len(),
    ensures
        shared_at(es, k, i) <= es[i].0.len(),
        shared_at(es, k, i) <= if i > 0 { es[i - 1].0.len() } else { 0 },
{
    if i > 0 {
        crate::comparator::lemma_common_prefix(es[i - 1].0, es[i].0);
    }
}

/// The entry region of a prefix of the entries is a prefix of the entry region.
pub proof fn lemma_block_data_prefix(es: Seq<Entry>, k: nat, i: int, j: int)
    requires
        0 <= i <= j <= es.len(),
    ensures
        entry_offset(es, k, i) <= entry_offset(es, k, j),
        i < j ==> entry_offset(es, k, i) + 3 <= entry_offset(es, k, j),
        block_data(es.take(j), k).subrange(0, entry_offset(es, k, i) as int) == block_data(
            es.take(i),
            k,
        ),
    decreases j - i,
{
    if i < j {
        lemma_block_data_prefix(es, k, i, j - 1);
        lemma_block_data_step(es, k, j - 1);
        lemma_shared_at_bound(es, k, j - 1);
        lemma_entry_bytes_len(shared_at(es, k, j - 1), es[j - 1].0, es[j - 1].1);
        let a = block_data(es.take(j - 1), k);
        let b = block_data(es.take(j), k);
        assert(b.subrange(0, entry_offset(es, k, i) as int) =~= a.subrange(
            0,
            entry_offset(es, k, i) as int,
        ));
    } else {
        assert(block_data(es.take(j), k).subrange(0, entry_offset(es, k, i) as int) =~= block_data(
            es.take(i),
            k,
        ));
    }
}

/// A non-empty block has `ceil(n / k)` restart points, at entries `0, k, 2k, ...`, in
/// strictly increasing order.
pub proof fn lemma_restart_points(es: Seq<Entry>, k: nat)
    requires
        k >= 1,
        es.len() >= 1,
        block_data(es, k).len() <= u32::MAX,
    ensures
        restart_offsets(es, k).len() == (es.len() + k - 1) / (k as int),
        forall|m: int|
            0 <= m < restart_offsets(es, k).len() ==> #[trigger] restart_offsets(es, k)[m]
                == entry_offset(es, k, m * k),
        forall|a: int, b: int|
            0 <= a < b < restart_offsets(es, k).len() ==> #[trigger] restart_offsets(es, k)[a]
                < #[trigger] restart_offsets(es, k)[b],
    decreases es.len(),
{
    let n = es.len() as int;
    let kk = k as int;
    vstd::arithmetic::div_mod::lemma_div_plus_one(n - 1, kk);
    assert(es.take(n) =~= es);
    if n == 1 {
        assert(0int / kk == 0) by {
            vstd::arithmetic::div_mod::lemma_basic_div(0, kk);
        }
        assert(es.take(0) =~= Seq::<Entry>::empty());
        let r = restart_offsets(es, k);
        assert(r[0] == entry_offset(es, k, 0 * kk));
    } else {
        let i = n - 1;
        let p = es.take(i);
        lemma_block_data_prefix(es, k, i, n);
        lemma_restart_points(p, k);
        vstd::arithmetic::div_mod::lemma_div_plus_one(n - 2, kk);
        lemma_mod_step(n - 1, kk);
        let before = restart_offsets(p, k);
        let r = restart_offsets(es, k);
        assert forall|m: int| 0 <= m < before.len() implies before[m] == entry_offset(es, k, m * kk)
        by {
            assert(0 <= m * kk) by (nonlinear_arith)
                requires
                    0 <= m,
                    kk >= 1,
            ;
            assert(m * kk <= i) by {
                assert(m <= (n - 2) / kk);
                vstd::arithmetic::div_mod::lemma_fundamental_div_mod(n - 2, kk);
                vstd::arithmetic::div_mod::lemma_mod_pos_bound(n - 2, kk);
                assert(m * kk <= ((n - 2) / kk) * kk) by (nonlinear_arith)
                    requires
                        m <= (n - 2) / kk,
                        kk >= 1,
                ;
            }
            assert(p.take(m * kk) =~= es.take(m * kk));
        }
        if i % kk == 0 {
            let q = i / kk;
            vstd::arithmetic::div_mod::lemma_fundamental_div_mod(i, kk);
            assert(q * kk == i) by (nonlinear_arith)
                requires
                    i == kk * q + 0,
            ;
            assert(r.len() == before.len() + 1);
            assert(r[before.len() as int] == entry_offset(es, k, i));
            assert(before.len() == q) by {
                assert((n - 2) / kk + 1 == q);
            }
            assert forall|a: int, b: int| 0 <= a < b < r.len() implies #[trigger] r[a] < #[trigger] r[b]
            by {
                if b == before.len() {
                    assert(a * kk < i) by (nonlinear_arith)
                        requires
                            a < q,
                            q * kk == i,
                            kk >= 1,
                    ;
                    assert(0 <= a * kk) by (nonlinear_arith)
                        requires
                            0 <= a,
                            kk >= 1,
                    ;
                    lemma_block_data_prefix(es, k, a * kk, i);
                } else {
                    assert(r[a] == before[a] && r[b] == before[b]);
                }
            }
        } else {
            assert(r == before);
        }
    }
}

/// Reads the entry at `pos` of the region `data[..end)` whose predecessor has key `prev`:
/// its key, its value, and where the next entry starts.
pub open spec fn decode_entry(data: Seq<u8>, pos: int, end: int, prev: Seq<u8>) -> Option<
    (Seq<u8>, Seq<u8>, int),
> {
    let s = data.subrange(0, end);
    match parse_varint(s, pos, 5) {
        Some((shared, at1)) => match parse_varint(s, at1, 5) {
            Some((unshared, at2)) => match parse_varint(s, at2, 5) {
                Some((value_len, at3)) => if shared <= prev.len() && at3 + unshared + value_len
                    <= end {
                    let key = prev.take(shared as int) + s.subrange(at3, at3 + unshared);
                    let value = s.subrange(at3 + unshared, at3 + unshared + value_len);
                    Some((key, value, at3 + unshared + value_len))
                } else {
                    None
                },
                None => None,
            },
            None => None,
        },
        None => None,
    }
}

/// Reads entries from `pos` up to exactly `end`, at most `fuel` of them.
pub open spec fn decode_entries(data: Seq<u8>, pos: int, end: int, prev: Seq<u8>, fuel: nat) -> Option<
    Seq<Entry>,
>
    decreases fuel,
{
    if pos == end {
        Some(Seq::empty())
    } else if fuel == 0 {
        None
    } else {
        match decode_entry(data, pos, end, prev) {
            Some((key, value, next)) => match decode_entries(
                data,
                next,
                end,
                key,
                (fuel - 1) as nat,
            ) {
                Some(rest) => Some(seq![(key, value)] + rest),
                None => None,
            },
            None => None,
        }
    }
}

/// Where the entry region of a finished block ends: before the restart array and its count.
pub open spec fn block_data_end(b: Seq<u8>) -> int {
    b.len() - 4 - 4 * fixed32_value(b.subrange(b.len() - 4, b.len() as int))
}

/// Reads every entry of a finished block, scanning from its start.
pub open spec fn decode_block(b: Seq<u8>) -> Option<Seq<Entry>> {
    if b.len() < 4 || block_data_end(b) < 0 {
        None
    } else {
        decode_entries(b, 0, block_data_end(b), Seq::empty(), block_data_end(b) as nat)
    }
}

/// Every key and value is short enough for a varint32 length.
pub open spec fn entries_bounded(es: Seq<Entry>) -> bool {
    forall|i: int| 0 <= i < es.len() ==> (#[trigger] es[i]).0.len() <= u32::MAX && es[i].1.len() <= u32::MAX
}

/// Entry `j` reads back from its offset in the entry region.
#[verifier::rlimit(100)]
#[verifier::spinoff_prover]
pub proof fn lemma_decode_entry_at(d: Seq<u8>, es: Seq<Entry>, k: nat, j: int, prev: Seq<u8>)
    requires
        k >= 1,
        0 <= j < es.len(),
        entries_bounded(es),
        d.len() >= block_data(es, k).len(),
        d.subrange(0, block_data(es, k).len() as int) == block_data(es, k),
        shared_at(es, k, j) <= prev.len(),
        prev.take(shared_at(es, k, j) as int) == es[j].0.take(shared_at(es, k, j) as int),
    ensures
        decode_entry(d, entry_offset(es, k, j) as int, block_data(es, k).len() as int, prev)
            == Some((es[j].0, es[j].1, entry_offset(es, k, j + 1) as int)),
{
    let n = es.len() as int;
    let end = block_data(es, k).len() as int;
    assert(es.take(n) =~= es);
    let off = entry_offset(es, k, j) as int;
    let nxt = entry_offset(es, k, j + 1) as int;
    lemma_block_data_prefix(es, k, j + 1, n);
    lemma_block_data_step(es, k, j);
    lemma_shared_at_bound(es, k, j);
    lemma_entry_bytes_len(shared_at(es, k, j), es[j].0, es[j].1);
    let key = es[j].0;
    let value = es[j].1;
    let sh = shared_at(es, k, j);
    let un = (key.len() - sh) as nat;
    let e = entry_bytes(sh, key, value);
    let s = d.subrange(0, end);
    assert(s =~= block_data(es, k));
    let bd1 = block_data(es.take(j + 1), k);
    assert(s.subrange(0, nxt) == bd1);
    assert(s.subrange(off, nxt) =~= e) by {
        assert(bd1.subrange(off, nxt) =~= e);
        assert(s.subrange(off, nxt) =~= bd1.subrange(off, nxt));
    }
    let v1 = varint_bytes(sh);
    let v2 = varint_bytes(un);
    let v3 = varint_bytes(value.len());
    lemma_pow128_values();
    lemma_varint_len(sh, 5);
    lemma_varint_len(un, 5);
    lemma_varint_len(value.len(), 5);
    let at1 = off + v1.len();
    let at2 = at1 + v2.len();
    let at3 = at2 + v3.len();
    let w = s.subrange(off, nxt);
    assert(s.subrange(off, at1) =~= v1) by {
        assert(e.subrange(0, v1.len() as int) =~= v1);
        assert(s.subrange(off, at1) =~= w.subrange(0, v1.len() as int));
    }
    assert(s.subrange(at1, at2) =~= v2) by {
        assert(e.subrange(v1.len() as int, (v1.len() + v2.len()) as int) =~= v2);
        assert(s.subrange(at1, at2) =~= w.subrange(v1.len() as int, (v1.len() + v2.len()) as int));
    }
    let hl = (v1.len() + v2.len() + v3.len()) as int;
    assert(s.subrange(at2, at3) =~= v3) by {
        assert(e.subrange((v1.len() + v2.len()) as int, hl) =~= v3);
        assert(s.subrange(at2, at3) =~= w.subrange((v1.len() + v2.len()) as int, hl));
    }
    crate::coding::lemma_varint_round_trip(s, off, sh, 5);
    crate::coding::lemma_varint_round_trip(s, at1, un, 5);
    crate::coding::lemma_varint_round_trip(s, at2, value.len(), 5);
    assert(s.subrange(at3, at3 + un) =~= key.subrange(sh as int, key.len() as int)) by {
        assert(e.subrange(hl, hl + un) =~= key.subrange(sh as int, key.len() as int));
        assert(s.subrange(at3, at3 + un) =~= w.subrange(hl, hl + un));
    }
    assert(s.subrange(at3 + un, at3 + un + value.len()) =~= value) by {
        assert(e.subrange(hl + un, hl + un + value.len()) =~= value);
        assert(s.subrange(at3 + un, at3 + un + value.len()) =~= w.subrange(
            hl + un,
            hl + un + value.len(),
        ));
    }
    assert(at3 + un + value.len() == nxt);
    assert(prev.take(sh as int) + s.subrange(at3, at3 + un) =~= key) by {
        assert(key =~= key.take(sh as int) + key.subrange(sh as int, key.len() as int));
    }
}

/// Decoding the entry region from entry `j` on, after a key that agrees with entry `j`'s key
/// on the bytes it shares, yields entries `j..`.
pub proof fn lemma_decode_from(d: Seq<u8>, es: Seq<Entry>, k: nat, j: int, prev: Seq<u8>, fuel: nat)
    requires
        k >= 1,
        0 <= j <= es.len(),
        entries_bounded(es),
        d.len() >= block_data(es, k).len(),
        d.subrange(0, block_data(es, k).len() as int) == block_data(es, k),
        fuel >= es.len() - j,
        j < es.len() ==> shared_at(es, k, j) <= prev.len(),
        j < es.len() ==> prev.take(shared_at(es, k, j) as int) == es[j].0.take(
            shared_at(es, k, j) as int,
        ),
    ensures
        decode_entries(d, entry_offset(es, k, j) as int, block_data(es, k).len() as int, prev, fuel)
            == Some(es.subrange(j, es.len() as int)),
    decreases es.len() - j,
{
    let n = es.len() as int;
    assert(es.take(n) =~= es);
    lemma_block_data_prefix(es, k, j, n);
    if j == n {
        assert(es.subrange(j, n) =~= Seq::<Entry>::empty());
    } else {
        lemma_block_data_prefix(es, k, j + 1, n);
        lemma_decode_entry_at(d, es, k, j, prev);
        let key = es[j].0;
        let value = es[j].1;
        if j + 1 < n {
            let sh2 = shared_at(es, k, j + 1);
            lemma_shared_at_bound(es, k, j + 1);
            if (j + 1) % (k as int) != 0 {
                crate::comparator::lemma_common_prefix(es[j].0, es[j + 1].0);
            }
            assert(key.take(sh2 as int) =~= es[j + 1].0.take(sh2 as int));
        }
        lemma_decode_from(d, es, k, j + 1, key, (fuel - 1) as nat);
        assert(seq![(key, value)] + es.subrange(j + 1, n) =~= es.subrange(j, n));
    }
}

/// Decoding a finished block gives back every entry, in order, for any restart interval.
pub proof fn lemma_block_round_trip(es: Seq<Entry>, k: nat)
    requires
        k >= 1,
        block_data(es, k).len() + 4 * restart_offsets(es, k).len() + 4 <= u32::MAX,
        entries_bounded(es),
    ensures
        decode_block(block_contents(es, k)) == Some(es),
{
    let b = block_contents(es, k);
    let r = restart_offsets(es, k);
    let data = block_data(es, k);
    lemma_fixed32_array_len(r);
    crate::coding::lemma_fixed32_round_trip(r.len() as u32);
    assert(b.subrange(b.len() - 4, b.len() as int) =~= fixed32_bytes(r.len() as u32));
    assert(block_data_end(b) == data.len());
    assert(b.subrange(0, data.len() as int) =~= data);
    lemma_entry_count_bound(es, k);
    assert(es.take(0) =~= Seq::<Entry>::empty());
    if es.len() > 0 {
        assert(Seq::<u8>::empty().take(0) =~= es[0].0.take(0));
    }
    lemma_decode_from(b, es, k, 0, Seq::empty(), data.len());
    assert(es.subrange(0, es.len() as int) =~= es);
}

/// Restart points are self-contained: decoding a finished block from its `m`-th restart
/// offset, with no previous key, yields every entry from that restart point on.
pub proof fn lemma_decode_from_restart(es: Seq<Entry>, k: nat, m: int)
    requires
        k >= 1,
        block_data(es, k).len() + 4 * restart_offsets(es, k).len() + 4 <= u32::MAX,
        entries_bounded(es),
        es.len() >= 1,
        0 <= m < restart_offsets(es, k).len(),
    ensures
        0 <= m * k < es.len(),
        decode_entries(
            block_contents(es, k),
            restart_offsets(es, k)[m] as int,
            block_data(es, k).len() as int,
            Seq::empty(),
            block_data(es, k).len(),
        ) == Some(es.subrange(m * k, es.len() as int)),
{
    let n = es.len() as int;
    let kk = k as int;
    lemma_restart_points(es, k);
    let j = m * kk;
    assert(0 <= m * kk) by (nonlinear_arith)
        requires
            0 <= m,
            kk >= 1,
    ;
    assert(j < n) by {
        vstd::arithmetic::div_mod::lemma_div_plus_one(n - 1, kk);
        vstd::arithmetic::div_mod::lemma_fundamental_div_mod(n - 1, kk);
        vstd::arithmetic::div_mod::lemma_mod_pos_bound(n - 1, kk);
        assert(m <= (n - 1) / kk);
        assert(m * kk <= ((n - 1) / kk) * kk) by (nonlinear_arith)
            requires
                m <= (n - 1) / kk,
                kk >= 1,
        ;
    }
    assert(j % kk == 0) by {
        vstd::arithmetic::div_mod::lemma_mod_multiples_basic(m, kk);
    }
    assert(shared_at(es, k, j) == 0);
    assert(Seq::<u8>::empty().take(0) =~= es[j].0.take(0));
    lemma_entry_count_bound(es, k);
    let b = block_contents(es, k);
    assert(b.subrange(0, block_data(es, k).len() as int) =~= block_data(es, k));
    lemma_decode_from(b, es, k, j, Seq::empty(), block_data(es, k).len());
}

/// Each entry takes at least three bytes of the entry region.
pub proof fn lemma_entry_count_bound(es: Seq<Entry>, k: nat)
    ensures
        3 * es.len() <= block_data(es, k).len(),
    decreases es.len(),
{
    if es.len() > 0 {
        let i = es.len() - 1;
        lemma_entry_count_bound(es.take(i), k);
        lemma_shared_at_bound(es, k, i);
        lemma_entry_bytes_len(shared_at(es, k, i), es[i].0, es[i].1);
    }
}

pub proof fn lemma_fixed32_array_len(xs: Seq<u32>)
    ensures
        fixed32_array(xs).len() == 4 * xs.len(),
    decreases xs.len(),
{
    if xs.len() > 0 {
        lemma_fixed32_array_len(xs.drop_last());
    }
}

} // verus!
