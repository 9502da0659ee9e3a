use sstable::coding::{decode_fixed32, decode_fixed64, get_varint32, get_varint64, put_fixed32};
use sstable::crc32c::{crc32c_value, unmask};
use sstable::env::{MemoryFile, WritableFile};
use sstable::filter_block::{FilterBlockReader, FilterPolicy};
use sstable::hash::hash;
use sstable::status::Status;
use sstable::table_builder::{CompressionType, Options, TableBuilder};

struct TestHashFilter;

impl FilterPolicy for TestHashFilter {
    fn name(&self) -> &'static str {
        "TestHashFilter"
    }

    fn create_filter(&self, keys: &[Vec<u8>]) -> Vec<u8> {
        let mut dst = Vec::new();
        for k in keys {
            put_fixed32(&mut dst, hash(k, 1));
        }
        dst
    }

    fn key_may_match(&self, key: &[u8], filter: &[u8]) -> bool {
        let h = hash(key, 1);
        let mut i = 0;
        while i + 4 <= filter.len() {
            if h == decode_fixed32(filter, i) {
                return true;
            }
            i += 4;
        }
        false
    }
}

struct FailingFile {
    appends: usize,
}

impl WritableFile for FailingFile {
    fn append(&mut self, _data: &[u8]) -> Status {
        self.appends += 1;
        Status::io_error("disk full", "")
    }

    fn flush(&mut self) -> Status {
        Status::new()
    }
}

type Entries = Vec<(Vec<u8>, Vec<u8>)>;

fn decode_block(b: &[u8]) -> Entries {
    let n = b.len();
    let count = decode_fixed32(b, n - 4) as usize;
    let data_end = n - 4 - 4 * count;
    let data = &b[..data_end];
    let mut out = Vec::new();
    let mut prev: Vec<u8> = Vec::new();
    let mut pos = 0;
    while pos < data_end {
        let (shared, at1) = get_varint32(data, pos).unwrap();
        let (unshared, at2) = get_varint32(data, at1).unwrap();
        let (vlen, at3) = get_varint32(data, at2).unwrap();
        let mut key = prev[..shared as usize].to_vec();
        key.extend_from_slice(&data[at3..at3 + unshared as usize]);
        let vstart = at3 + unshared as usize;
        out.push((key.clone(), data[vstart..vstart + vlen as usize].to_vec()));
        pos = vstart + vlen as usize;
        prev = key;
    }
    out
}

fn decode_handle(b: &[u8], pos: usize) -> (u64, u64, usize) {
    let (offset, p) = get_varint64(b, pos).unwrap();
    let (size, p) = get_varint64(b, p).unwrap();
    (offset, size, p)
}

fn read_block(file: &[u8], offset: u64, size: u64) -> Vec<u8> {
    let start = offset as usize;
    let end = start + size as usize;
    assert_eq!(0, file[end]);
    let stored = unmask(decode_fixed32(file, end + 1));
    assert_eq!(crc32c_value(&file[start..end + 1]), stored);
    file[start..end].to_vec()
}

/// Index, metaindex and data entries of a finished table.
fn read_table(file: &[u8]) -> (Entries, Entries, Entries) {
    let n = file.len();
    assert!(n >= 48);
    assert_eq!(0xdb4775248b80fb57, decode_fixed64(file, n - 8));
    let footer = &file[n - 48..];
    let (mo, ms, p) = decode_handle(footer, 0);
    let (io, is, _) = decode_handle(footer, p);
    let meta = decode_block(&read_block(file, mo, ms));
    let index = decode_block(&read_block(file, io, is));
    let mut data = Vec::new();
    for (_, handle) in &index {
        let (o, s, _) = decode_handle(handle, 0);
        data.extend(decode_block(&read_block(file, o, s)));
    }
    (index, meta, data)
}

fn small_blocks() -> Options {
    let mut o = Options::new();
    o.block_size = 64;
    o.block_restart_interval = 4;
    o
}

#[test]
fn table_round_trip() {
    let entries: Entries = (0..200u32)
        .map(|i| (format!("k{:06}", i * 3).into_bytes(), format!("value-{}", i).into_bytes()))
        .collect();
    let mut t = TableBuilder::new(small_blocks(), MemoryFile::new(), Some(TestHashFilter));
    for (k, v) in &entries {
        t.add(k, v);
    }
    assert_eq!(200, t.num_entries());
    let s = t.finish();
    assert!(s.ok());
    let file = t.file().contents().clone();
    assert_eq!(file.len() as u64, t.file_size());
    let (index, meta, data) = read_table(&file);
    assert_eq!(entries, data);
    assert!(index.len() > 1);
    for w in index.windows(2) {
        assert!(w[0].0 < w[1].0);
    }
    assert_eq!(1, meta.len());
    assert_eq!(b"filter.TestHashFilter".to_vec(), meta[0].0);

    let (fo, fs, _) = decode_handle(&meta[0].1, 0);
    let filter = read_block(&file, fo, fs);
    let reader = FilterBlockReader::new(TestHashFilter, &filter);
    for (_, handle) in &index {
        let (o, s, _) = decode_handle(handle, 0);
        for (k, _) in decode_block(&read_block(&file, o, s)) {
            assert!(reader.key_may_match(o, &k));
        }
    }
}

#[test]
fn index_separators_bound_blocks() {
    let entries: Entries = (0..50u32)
        .map(|i| (format!("abc{:04}xyz", i).into_bytes(), vec![b'v'; 20]))
        .collect();
    let mut t = TableBuilder::new(small_blocks(), MemoryFile::new(), None::<TestHashFilter>);
    for (k, v) in &entries {
        t.add(k, v);
    }
    assert!(t.finish().ok());
    let file = t.file().contents().clone();
    let (index, meta, _) = read_table(&file);
    assert!(meta.is_empty());
    let mut next = 0;
    for (i, (sep, handle)) in index.iter().enumerate() {
        let (o, s, _) = decode_handle(handle, 0);
        let block = decode_block(&read_block(&file, o, s));
        next += block.len();
        assert!(&block.last().unwrap().0 <= sep);
        if i + 1 < index.len() {
            assert!(sep < &entries[next].0);
        }
    }
    assert_eq!(entries.len(), next);
}

#[test]
fn empty_table_is_well_formed() {
    let mut t = TableBuilder::new(Options::new(), MemoryFile::new(), Some(TestHashFilter));
    assert!(t.finish().ok());
    let file = t.file().contents().clone();
    assert_eq!(file.len() as u64, t.file_size());
    let (index, meta, data) = read_table(&file);
    assert!(index.is_empty());
    assert!(data.is_empty());
    assert_eq!(1, meta.len());
    let (fo, fs, _) = decode_handle(&meta[0].1, 0);
    assert_eq!(0, fo);
    let filter = read_block(&file, fo, fs);
    assert_eq!(vec![0u8, 0, 0, 0, 0, 0, 0, 0, 11], filter);
}

#[test]
fn finish_twice_is_rejected() {
    let mut t = TableBuilder::new(Options::new(), MemoryFile::new(), None::<TestHashFilter>);
    t.add(b"a", b"1");
    assert!(t.finish().ok());
    let before = t.file().contents().clone();
    let again = t.finish();
    assert!(again.is_invalid_argument());
    assert_eq!(before, *t.file().contents());
    t.add(b"b", b"2");
    t.flush();
    assert_eq!(1, t.num_entries());
    assert_eq!(before, *t.file().contents());
    assert!(t.status().ok());
}

#[test]
fn add_after_abandon_is_ignored() {
    let mut t = TableBuilder::new(Options::new(), MemoryFile::new(), None::<TestHashFilter>);
    t.add(b"a", b"1");
    t.abandon();
    t.add(b"b", b"2");
    assert_eq!(1, t.num_entries());
    assert_eq!(0, t.file_size());
    assert!(t.finish().is_invalid_argument());
    assert!(t.file().contents().is_empty());
}

#[test]
fn write_errors_are_sticky() {
    let mut t = TableBuilder::new(Options::new(), FailingFile { appends: 0 }, None::<TestHashFilter>);
    t.add(b"a", b"1");
    t.flush();
    assert!(t.status().is_io_error());
    assert_eq!(1, t.file().appends);
    t.add(b"b", b"2");
    t.flush();
    assert_eq!(1, t.num_entries());
    assert_eq!(0, t.file_size());
    assert!(t.finish().is_io_error());
    assert_eq!(1, t.file().appends);
}

#[test]
fn change_options_allows_only_block_size() {
    let mut t = TableBuilder::new(Options::new(), MemoryFile::new(), None::<TestHashFilter>);
    let mut o = Options::new();
    o.block_size = 1 << 16;
    assert!(t.change_options(o).ok());
    let mut bad = o;
    bad.compression = CompressionType::SnappyCompression;
    assert!(t.change_options(bad).is_invalid_argument());
    let mut bad2 = o;
    bad2.block_restart_interval = 3;
    assert!(t.change_options(bad2).is_invalid_argument());
    assert!(t.status().ok());
}

#[test]
fn flush_separates_blocks() {
    let mut t = TableBuilder::new(Options::new(), MemoryFile::new(), None::<TestHashFilter>);
    t.add(b"a", b"1");
    t.flush();
    let after_first = t.file_size();
    // block "a" (5 bytes) + restart array (8) + trailer (5)
    assert_eq!(18, after_first);
    t.flush();
    assert_eq!(after_first, t.file_size());
    t.add(b"b", b"2");
    assert!(t.finish().ok());
    let (index, _, data) = read_table(&t.file().contents().clone());
    assert_eq!(2, index.len());
    assert_eq!(2, data.len());
}

#[test]
fn empty_table_without_filter_has_exact_layout() {
    let mut o = Options::new();
    o.compression = CompressionType::SnappyCompression;
    let mut t = TableBuilder::new(o, MemoryFile::new(), None::<TestHashFilter>);
    assert!(t.finish().ok());
    let file = t.file().contents().clone();
    // metaindex block (8) + trailer (5), index block (8) + trailer (5), footer (48)
    assert_eq!(74, file.len());
    assert_eq!(vec![0u8, 0, 0, 0, 1, 0, 0, 0], file[0..8].to_vec());
    assert_eq!(0, file[8]);
    let footer = &file[26..];
    assert_eq!(vec![0u8, 8, 13, 8], footer[0..4].to_vec());
    assert!(footer[4..40].iter().all(|b| *b == 0));
    assert_eq!(
        vec![0x57u8, 0xfb, 0x80, 0x8b, 0x24, 0x75, 0x47, 0xdb],
        footer[40..48].to_vec()
    );
}

fn table_get(file: &[u8], key: &[u8]) -> Option<Vec<u8>> {
    let (index, _, _) = read_table(file);
    for (sep, handle) in &index {
        if sep.as_slice() >= key {
            let (o, s, _) = decode_handle(handle, 0);
            let block = decode_block(&read_block(file, o, s));
            return block.into_iter().find(|(k, _)| k.as_slice() == key).map(|(_, v)| v);
        }
    }
    None
}

#[test]
fn lookups_find_present_keys_and_miss_absent_ones() {
    let entries: Entries = (0..120u32)
        .map(|i| (format!("k{:06}", i * 3).into_bytes(), format!("value-{}", i).into_bytes()))
        .collect();
    let mut t = TableBuilder::new(small_blocks(), MemoryFile::new(), Some(TestHashFilter));
    for (k, v) in &entries {
        t.add(k, v);
    }
    assert!(t.finish().ok());
    let file = t.file().contents().clone();
    for (k, v) in &entries {
        assert_eq!(Some(v.clone()), table_get(&file, k));
    }
    for i in 0..120u32 {
        let absent = format!("k{:06}", i * 3 + 1).into_bytes();
        assert_eq!(None, table_get(&file, &absent));
    }
    assert_eq!(None, table_get(&file, b"a"));
    assert_eq!(None, table_get(&file, b"zzz"));
}
