use sstable::coding::{decode_fixed32, put_fixed32};
use sstable::filter_block::{FilterBlockBuilder, FilterBlockReader, FilterLookup, FilterPolicy};
use sstable::hash::hash;

struct TestHashFilter;

impl FilterPolicy for TestHashFilter {
    fn name(&self) -> &'static str {
        "TestHashFilter"
    }

    fn create_filter(&self, keys: &[Vec<u8>]) -> Vec<u8> {
        let mut dst = Vec::new();
        for k in keys {
            put_fixed32(&mut dst, hash(k, 1));
        }
        dst
    }

    fn key_may_match(&self, key: &[u8], filter: &[u8]) -> bool {
        let h = hash(key, 1);
        let mut i = 0;
        while i + 4 <= filter.len() {
            if h == decode_fixed32(filter, i) {
                return true;
            }
            i += 4;
        }
        false
    }
}

#[test]
fn empty_builder_emits_one_empty_filter() {
    let mut builder = FilterBlockBuilder::new(TestHashFilter);
    let block = builder.finish();
    assert_eq!(vec![0u8, 0, 0, 0, 0, 0, 0, 0, 0x0b], block);
    let reader = FilterBlockReader::new(TestHashFilter, &block);
    assert_eq!(FilterLookup::NoMatch, reader.lookup(0));
    assert!(!reader.key_may_match(0, b"foo"));
    assert!(reader.key_may_match(100_000, b"foo"));
}

#[test]
fn single_chunk() {
    let mut builder = FilterBlockBuilder::new(TestHashFilter);
    builder.start_block(100);
    builder.add_key(b"foo");
    builder.add_key(b"bar");
    builder.add_key(b"box");
    builder.start_block(200);
    builder.add_key(b"box");
    builder.start_block(300);
    builder.add_key(b"hello");
    let block = builder.finish();
    let reader = FilterBlockReader::new(TestHashFilter, &block);
    assert!(reader.key_may_match(100, b"foo"));
    assert!(reader.key_may_match(100, b"bar"));
    assert!(reader.key_may_match(100, b"box"));
    assert!(reader.key_may_match(100, b"hello"));
    assert!(reader.key_may_match(100, b"foo"));
    assert!(!reader.key_may_match(100, b"missing"));
    assert!(!reader.key_may_match(100, b"other"));
}

#[test]
fn multi_chunk() {
    let mut builder = FilterBlockBuilder::new(TestHashFilter);
    builder.start_block(0);
    builder.add_key(b"foo");
    builder.start_block(2000);
    builder.add_key(b"bar");
    builder.start_block(3100);
    builder.add_key(b"box");
    builder.start_block(9000);
    builder.add_key(b"box");
    builder.add_key(b"hello");
    let block = builder.finish();
    let reader = FilterBlockReader::new(TestHashFilter, &block);

    assert!(reader.key_may_match(0, b"foo"));
    assert!(reader.key_may_match(2000, b"bar"));
    assert!(!reader.key_may_match(0, b"box"));
    assert!(!reader.key_may_match(0, b"hello"));

    assert!(reader.key_may_match(3100, b"box"));
    assert!(!reader.key_may_match(3100, b"foo"));
    assert!(!reader.key_may_match(3100, b"bar"));
    assert!(!reader.key_may_match(3100, b"hello"));

    assert!(!reader.key_may_match(4100, b"foo"));
    assert!(!reader.key_may_match(4100, b"bar"));
    assert!(!reader.key_may_match(4100, b"box"));
    assert!(!reader.key_may_match(4100, b"hello"));

    assert!(reader.key_may_match(9000, b"box"));
    assert!(reader.key_may_match(9000, b"hello"));
    assert!(!reader.key_may_match(9000, b"foo"));
    assert!(!reader.key_may_match(9000, b"bar"));
}

#[test]
fn malformed_blocks_always_match() {
    let short = FilterBlockReader::new(TestHashFilter, &[1u8, 2, 3]);
    assert_eq!(FilterLookup::MayMatch, short.lookup(0));
    assert!(short.key_may_match(0, b"anything"));
    // the offset array would start past the end
    let bad = FilterBlockReader::new(TestHashFilter, &[0u8, 0, 0, 0, 0xff, 0, 0, 0, 11]);
    assert_eq!(FilterLookup::MayMatch, bad.lookup(0));
    assert!(bad.key_may_match(0, b"anything"));
}

#[test]
fn lookup_reports_filter_bounds() {
    let mut builder = FilterBlockBuilder::new(TestHashFilter);
    builder.start_block(0);
    builder.add_key(b"a");
    builder.add_key(b"b");
    builder.start_block(2048);
    builder.add_key(b"c");
    let block = builder.finish();
    let reader = FilterBlockReader::new(TestHashFilter, &block);
    assert_eq!(FilterLookup::Filter { start: 0, limit: 8 }, reader.lookup(0));
    assert_eq!(FilterLookup::Filter { start: 8, limit: 12 }, reader.lookup(2048));
    assert_eq!(FilterLookup::MayMatch, reader.lookup(4096));
    assert_eq!(12 + 8 + 4 + 1, block.len());
}
