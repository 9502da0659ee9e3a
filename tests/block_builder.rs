use sstable::block_builder::BlockBuilder;
use sstable::coding::{decode_fixed32, get_varint32};

fn decode_block(b: &[u8]) -> (Vec<(Vec<u8>, Vec<u8>)>, Vec<u32>) {
    let n = b.len();
    let count = decode_fixed32(b, n - 4) as usize;
    let data_end = n - 4 - 4 * count;
    let restarts: Vec<u32> = (0..count).map(|i| decode_fixed32(b, data_end + 4 * i)).collect();
    let mut out = Vec::new();
    let mut prev: Vec<u8> = Vec::new();
    let mut pos = 0;
    while pos < data_end {
        let (shared, at1) = get_varint32(&b[..data_end], pos).unwrap();
        let (unshared, at2) = get_varint32(&b[..data_end], at1).unwrap();
        let (vlen, at3) = get_varint32(&b[..data_end], at2).unwrap();
        let mut key = prev[..shared as usize].to_vec();
        key.extend_from_slice(&b[at3..at3 + unshared as usize]);
        let vstart = at3 + unshared as usize;
        let value = b[vstart..vstart + vlen as usize].to_vec();
        pos = vstart + vlen as usize;
        prev = key.clone();
        out.push((key, value));
    }
    (out, restarts)
}

#[test]
fn block_bytes_are_exact() {
    let mut b = BlockBuilder::new(2);
    b.add(b"apple", b"1");
    b.add(b"apply", b"2");
    b.add(b"banana", b"3");
    let block = b.finish();
    let expected: Vec<u8> = vec![
        0, 5, 1, b'a', b'p', b'p', b'l', b'e', b'1', 4, 1, 1, b'y', b'2', 0, 6, 1, b'b', b'a',
        b'n', b'a', b'n', b'a', b'3', 0, 0, 0, 0, 14, 0, 0, 0, 2, 0, 0, 0,
    ];
    assert_eq!(expected, block);
}

#[test]
fn block_round_trip_for_every_interval() {
    let entries: Vec<(Vec<u8>, Vec<u8>)> = (0..100u32)
        .map(|i| (format!("key{:05}", i * 7).into_bytes(), format!("v{}", i).into_bytes()))
        .collect();
    for interval in 1..20usize {
        let mut b = BlockBuilder::new(interval);
        for (k, v) in &entries {
            b.add(k, v);
        }
        let block = b.finish();
        let (decoded, restarts) = decode_block(&block);
        assert_eq!(entries, decoded);
        assert_eq!((entries.len() + interval - 1) / interval, restarts.len());
        for w in restarts.windows(2) {
            assert!(w[0] < w[1]);
        }
    }
}

#[test]
fn restart_entries_share_nothing() {
    let mut b = BlockBuilder::new(3);
    for i in 0..10u32 {
        b.add(format!("prefix{}", i).as_bytes(), b"v");
    }
    let block = b.finish();
    let (_, restarts) = decode_block(&block);
    assert_eq!(vec![0u32, 21, 42, 63], restarts);
    for r in restarts {
        assert_eq!(0, block[r as usize]);
    }
}

#[test]
fn empty_block_has_one_restart() {
    let mut b = BlockBuilder::new(16);
    assert!(b.empty());
    assert_eq!(8, b.current_size_estimate());
    let block = b.finish();
    assert_eq!(vec![0u8, 0, 0, 0, 1, 0, 0, 0], block);
    assert!(!b.empty());
}

#[test]
fn reset_returns_to_new_state() {
    let mut b = BlockBuilder::new(4);
    b.add(b"a", b"1");
    assert!(!b.empty());
    assert_eq!(3 + 1 + 1 + 4 + 4, b.current_size_estimate());
    let _ = b.finish();
    b.reset();
    assert!(b.empty());
    b.add(b"a", b"1");
    assert_eq!(vec![0u8, 1, 1, b'a', b'1', 0, 0, 0, 0, 1, 0, 0, 0], b.finish());
}
