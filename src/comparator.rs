//! Bytewise key order, and the key-shortening helpers that index blocks use.

use vstd::prelude::*;

verus! {

/// `a` orders strictly before `b` when compared byte by byte, a proper prefix first.
pub open spec fn bytes_lt(a: Seq<u8>, b: Seq<u8>) -> bool
    decreases a.len(),
{
    if b.len() == 0 {
        false
    } else if a.len() == 0 {
        true
    } else if a[0] != b[0] {
        a[0] < b[0]
    } else {
        bytes_lt(a.drop_first(), b.drop_first())
    }
}

/// Byte order is transitive.
pub proof fn lemma_bytes_lt_transitive(a: Seq<u8>, b: Seq<u8>, c: Seq<u8>)
    requires
        bytes_lt(a, b),
        bytes_lt(b, c),
    ensures
        bytes_lt(a, c),
    decreases a.len(),
{
    if a.len() > 0 && b.len() > 0 && c.len() > 0 && a[0] == b[0] && b[0] == c[0] {
        lemma_bytes_lt_transitive(a.drop_first(), b.drop_first(), c.drop_first());
    }
}

/// Byte order is asymmetric, hence irreflexive.
pub proof fn lemma_bytes_lt_asymmetric(a: Seq<u8>, b: Seq<u8>)
    ensures
        bytes_lt(a, b) ==> !bytes_lt(b, a),
        !bytes_lt(a, a),
    decreases a.len(),
{
    if a.len() > 0 && b.len() > 0 && a[0] == b[0] {
        lemma_bytes_lt_asymmetric(a.drop_first(), b.drop_first());
    }
    if a.len() > 0 {
        lemma_bytes_lt_asymmetric(a.drop_first(), a.drop_first());
    }
}

/// The length of the longest common prefix of `a` and `b`, counted from index `i` on.
pub open spec fn common_prefix_from(a: Seq<u8>, b: Seq<u8>, i: nat) -> nat
    decreases a.len() - i,
{
    if i < a.len() && i < b.len() && a[i as int] == b[i as int] {
        common_prefix_from(a, b, i + 1)
    } else {
        i
    }
}

/// The length of the longest common prefix of `a` and `b`.
pub open spec fn common_prefix_len(a: Seq<u8>, b: Seq<u8>) -> nat {
    common_prefix_from(a, b, 0)
}

pub proof fn lemma_common_prefix_from(a: Seq<u8>, b: Seq<u8>, i: nat)
    requires
        i <= a.len(),
        i <= b.len(),
        forall|j: int| 0 <= j < i ==> a[j] == b[j],
    ensures
        i <= common_prefix_from(a, b, i) <= a.len(),
        common_prefix_from(a, b, i) <= b.len(),
        forall|j: int| 0 <= j < common_prefix_from(a, b, i) ==> a[j] == b[j],
        common_prefix_from(a, b, i) < a.len() && common_prefix_from(a, b, i) < b.len() ==> a[common_prefix_from(a, b, i) as int]
            != b[common_prefix_from(a, b, i) as int],
    decreases a.len() - i,
{
    if i < a.len() && i < b.len() && a[i as int] == b[i as int] {
        lemma_common_prefix_from(a, b, i + 1);
    }
}

/// The common prefix is a prefix of both, and ends where they first differ.
pub proof fn lemma_common_prefix(a: Seq<u8>, b: Seq<u8>)
    ensures
        common_prefix_len(a, b) <= a.len(),
        common_prefix_len(a, b) <= b.len(),
        a.subrange(0, common_prefix_len(a, b) as int) == b.subrange(0, common_prefix_len(a, b) as int),
        common_prefix_len(a, b) < a.len() && common_prefix_len(a, b) < b.len() ==> a[common_prefix_len(a, b) as int]
            != b[common_prefix_len(a, b) as int],
{
    lemma_common_prefix_from(a, b, 0);
    let n = common_prefix_len(a, b) as int;
    assert(a.subrange(0, n) =~= b.subrange(0, n));
}

/// The length of the longest common prefix of `a` and `b`.
pub fn shared_prefix_len(a: &[u8], b: &[u8]) -> (r: usize)
    ensures
        r == common_prefix_len(a@, b@),
{
    let min_length = if a.len() < b.len() {
        a.len()
    } else {
        b.len()
    };
    let mut i: usize = 0;
    while i < min_length && a[i] == b[i]
        invariant
            i <= min_length,
            min_length <= a@.len(),
            min_length <= b@.len(),
            min_length == a@.len() || min_length == b@.len(),
            common_prefix_from(a@, b@, 0) == common_prefix_from(a@, b@, i as nat),
        decreases min_length - i,
    {
        i = i + 1;
    }
    i
}

/// Comparing past an equal prefix: the order is decided by what follows it.
pub proof fn lemma_bytes_lt_skip(a: Seq<u8>, b: Seq<u8>, d: int)
    requires
        0 <= d <= a.len(),
        d <= b.len(),
        a.take(d) == b.take(d),
    ensures
        bytes_lt(a, b) == bytes_lt(a.skip(d), b.skip(d)),
    decreases d,
{
    if d > 0 {
        assert(a[0] == a.take(d)[0]);
        assert(b[0] == b.take(d)[0]);
        assert(a.drop_first().take(d - 1) =~= a.take(d).drop_first());
        assert(b.drop_first().take(d - 1) =~= b.take(d).drop_first());
        lemma_bytes_lt_skip(a.drop_first(), b.drop_first(), d - 1);
        assert(a.drop_first().skip(d - 1) =~= a.skip(d));
        assert(b.drop_first().skip(d - 1) =~= b.skip(d));
    } else {
        assert(a.skip(0) =~= a);
        assert(b.skip(0) =~= b);
    }
}

/// Byte order is decided at the first difference, or by length where one is a prefix of the other.
pub proof fn lemma_bytes_lt_at_difference(a: Seq<u8>, b: Seq<u8>)
    ensures
        bytes_lt(a, b) == if common_prefix_len(a, b) < a.len() && common_prefix_len(a, b) < b.len() {
            a[common_prefix_len(a, b) as int] < b[common_prefix_len(a, b) as int]
        } else {
            a.len() < b.len()
        },
        (a == b) == (common_prefix_len(a, b) == a.len() && a.len() == b.len()),
{
    lemma_common_prefix(a, b);
    let d = common_prefix_len(a, b) as int;
    assert(a.take(d) =~= a.subrange(0, d));
    assert(b.take(d) =~= b.subrange(0, d));
    lemma_bytes_lt_skip(a, b, d);
    let a2 = a.skip(d);
    let b2 = b.skip(d);
    if d < a.len() && d < b.len() {
        assert(a2[0] == a[d] && b2[0] == b[d]);
    }
    if d == a.len() && a.len() == b.len() {
        assert(a =~= a.subrange(0, d));
        assert(b =~= b.subrange(0, d));
    }
}

/// The shortened form of `start` that index blocks use to separate it from `limit`: where the
/// two first differ, the byte of `start` is raised by one and the rest dropped, when that still
/// orders before `limit`; otherwise `start` itself.
pub open spec fn shortest_separator(start: Seq<u8>, limit: Seq<u8>) -> Seq<u8> {
    let d = common_prefix_len(start, limit) as int;
    if d >= start.len() || d >= limit.len() {
        start
    } else if start[d] < 0xff && start[d] + 1 < limit[d] {
        start.take(d).push((start[d] + 1) as u8)
    } else {
        start
    }
}

/// The short key that an index block stores after its last block: the first byte below
/// `0xff` is raised by one and the rest dropped; a key of `0xff` bytes alone is kept.
pub open spec fn short_successor_from(key: Seq<u8>, i: nat) -> Seq<u8>
    decreases key.len() - i,
{
    if i >= key.len() {
        key
    } else if key[i as int] != 0xff {
        key.take(i as int).push((key[i as int] + 1) as u8)
    } else {
        short_successor_from(key, i + 1)
    }
}

pub open spec fn short_successor(key: Seq<u8>) -> Seq<u8> {
    short_successor_from(key, 0)
}

/// The separator lies in `[start, limit)` whenever `start < limit`.
pub proof fn lemma_shortest_separator(start: Seq<u8>, limit: Seq<u8>)
    requires
        bytes_lt(start, limit),
    ensures
        shortest_separator(start, limit) == start || bytes_lt(start, shortest_separator(start, limit)),
        bytes_lt(shortest_separator(start, limit), limit),
{
    lemma_common_prefix(start, limit);
    let d = common_prefix_len(start, limit) as int;
    let r = shortest_separator(start, limit);
    if d < start.len() && d < limit.len() && start[d] < 0xff && start[d] + 1 < limit[d] {
        assert(r.take(d) =~= start.take(d));
        lemma_bytes_lt_skip(start, r, d);
        assert(start.skip(d)[0] == start[d]);
        assert(r.skip(d)[0] == start[d] + 1);
        assert(r.take(d) =~= limit.subrange(0, d));
        assert(limit.take(d) =~= limit.subrange(0, d));
        lemma_bytes_lt_skip(r, limit, d);
        assert(limit.skip(d)[0] == limit[d]);
    }
}

/// The successor orders at or after the key.
pub proof fn lemma_short_successor(key: Seq<u8>, i: nat)
    ensures
        short_successor_from(key, i) == key || bytes_lt(key, short_successor_from(key, i)),
    decreases key.len() - i,
{
    if i < key.len() {
        if key[i as int] != 0xff {
            let r = short_successor_from(key, i);
            assert(r.take(i as int) =~= key.take(i as int));
            lemma_bytes_lt_skip(key, r, i as int);
            assert(key.skip(i as int)[0] == key[i as int]);
            assert(r.skip(i as int)[0] == key[i as int] + 1);
        } else {
            lemma_short_successor(key, i + 1);
        }
    }
}

/// Orders keys byte by byte, a proper prefix first.
pub struct BytewiseComparator;

/// The comparator that orders keys byte by byte.
pub fn bytewise_comparator() -> BytewiseComparator {
    BytewiseComparator
}

impl BytewiseComparator {
    /// Negative, zero or positive as `a` orders before, equal to, or after `b`.
    pub fn compare(&self, a: &[u8], b: &[u8]) -> (r: i32)
        ensures
            r < 0 <==> bytes_lt(a@, b@),
            r == 0 <==> a@ == b@,
            r > 0 <==> bytes_lt(b@, a@),
    {
        let d = shared_prefix_len(a, b);
        proof {
            lemma_bytes_lt_at_difference(a@, b@);
            lemma_bytes_lt_at_difference(b@, a@);
            lemma_common_prefix_symmetric(a@, b@);
            lemma_common_prefix(a@, b@);
        }
        if d < a.len() && d < b.len() {
            if a[d] < b[d] {
                -1
            } else {
                1
            }
        } else if a.len() < b.len() {
            -1
        } else if a.len() > b.len() {
            1
        } else {
            0
        }
    }

    /// The name recorded with tables ordered by this comparator.
    pub fn name(&self) -> &'static str {
        "levelerdb.BytewiseComparator"
    }

    /// Shortens `start` to a key that still orders in `[start, limit)`.
    pub fn find_shortest_separator(&self, start: &mut Vec<u8>, limit: &[u8])
        ensures
            final(start)@ == shortest_separator(old(start)@, limit@),
    {
        let d = shared_prefix_len(start.as_slice(), limit);
        if d < start.len() && d < limit.len() {
            let diff_byte = start[d];
            if diff_byte < 0xff && diff_byte + 1 < limit[d] {
                start.truncate(d);
                start.push(diff_byte + 1);
                assert(final(start)@ =~= shortest_separator(old(start)@, limit@));
            }
        }
    }

    /// Shortens `key` to a key that orders at or after it.
    pub fn find_short_successor(&self, key: &mut Vec<u8>)
        ensures
            final(key)@ == short_successor(old(key)@),
    {
        let n = key.len();
        let mut i: usize = 0;
        while i < n
            invariant
                n == key@.len(),
                i <= n,
                key@ == old(key)@,
                short_successor_from(old(key)@, 0) == short_successor_from(old(key)@, i as nat),
            decreases n - i,
        {
            let byte = key[i];
            if byte != 0xff {
                key.truncate(i);
                key.push(byte + 1);
                assert(final(key)@ =~= short_successor(old(key)@));
                return;
            }
            i = i + 1;
        }
    }
}

/// The common prefix does not depend on the order of the two keys.
pub proof fn lemma_common_prefix_symmetric(a: Seq<u8>, b: Seq<u8>)
    ensures
        common_prefix_len(a, b) == common_prefix_len(b, a),
{
    lemma_common_prefix(a, b);
    lemma_common_prefix(b, a);
    let d1 = common_prefix_len(a, b) as int;
    let d2 = common_prefix_len(b, a) as int;
    lemma_common_prefix_from(a, b, 0);
    lemma_common_prefix_from(b, a, 0);
    if d1 < d2 {
        assert(a[d1] == b[d1]);
    } else if d2 < d1 {
        assert(b[d2] == a[d2]);
    }
}

} // verus!
