use sstable::bits::Bits;
use sstable::comparator::bytewise_comparator;
use sstable::crc32c::{crc32c, crc32c_extend, crc32c_str, crc32c_value, extend, mask, unmask};
use sstable::random::Random;
use sstable::status::Status;

#[test]
fn crc32c_check_values() {
    assert_eq!(0xe3069283, crc32c_str("123456789"));
    assert_eq!(0x8a9136aa, crc32c(&[0u8; 32]));
    assert_eq!(0x62a8ab43, crc32c_value(&[0xffu8; 32]));
    assert_eq!(0, crc32c(&[]));
    let whole = crc32c(b"hello world");
    assert_eq!(whole, extend(crc32c(b"hello "), b"world"));
    assert_eq!(whole, crc32c_extend(crc32c(b"hello "), b"world"));
}

#[test]
fn crc32c_mask_round_trip() {
    let crc = crc32c(b"foo");
    assert_ne!(crc, mask(crc));
    assert_ne!(crc, mask(mask(crc)));
    assert_eq!(crc, unmask(mask(crc)));
    assert_eq!(crc, unmask(unmask(mask(mask(crc)))));
}

#[test]
fn random_follows_lehmer_sequence() {
    let mut r = Random::new(301);
    let mut seed: u64 = 301;
    for _ in 0..1000 {
        seed = seed * 16807 % 2147483647;
        assert_eq!(seed as u32, r.next());
    }
    let mut z = Random::new(0);
    assert_eq!(16807, z.next());
    let mut u = Random::new(4230497161);
    for _ in 0..100 {
        assert!(u.uniform(30) < 30);
        assert!(u.skewed(10) < 1024);
    }
    let mut o = Random::new(7);
    assert!(o.one_in(1));
}

#[test]
fn status_messages() {
    assert!(Status::new().ok());
    assert!(Status::OK().ok());
    assert_eq!("OK", Status::new().to_string());
    let s = Status::corruption("bad block", "checksum");
    assert!(s.is_corruption());
    assert!(!s.ok());
    assert_eq!("Corruption: bad block: checksum", s.to_string());
    assert_eq!("NotFound: x", Status::not_found("x", "").to_string());
    assert_eq!("IO error: disk", Status::io_error("disk", "").to_string());
    assert!(Status::io_error("disk", "").is_io_error());
    assert!(Status::not_supported("zstd", "").is_not_supported_error());
    assert_eq!("Not implemented: zstd", Status::not_supported("zstd", "").to_string());
    assert!(Status::invalid_argument("k", "v").is_invalid_argument());
    assert_eq!("Invalid argument: k: v", Status::invalid_argument("k", "v").to_string());
    assert!(Status::not_found("a", "b").is_not_found());
}

#[test]
fn bytewise_comparator_orders_and_shortens() {
    let c = bytewise_comparator();
    assert!(c.compare(b"abc", b"abd") < 0);
    assert!(c.compare(b"abc", b"ab") > 0);
    assert_eq!(0, c.compare(b"abc", b"abc"));
    assert!(c.compare(b"", b"a") < 0);
    let mut start = b"abcdefg".to_vec();
    c.find_shortest_separator(&mut start, b"abzzz");
    assert_eq!(b"abd".to_vec(), start);
    let mut prefix = b"abc".to_vec();
    c.find_shortest_separator(&mut prefix, b"abcdef");
    assert_eq!(b"abc".to_vec(), prefix);
    let mut adjacent = b"abc1".to_vec();
    c.find_shortest_separator(&mut adjacent, b"abc2");
    assert_eq!(b"abc1".to_vec(), adjacent);
    let mut key = b"abc".to_vec();
    c.find_short_successor(&mut key);
    assert_eq!(b"b".to_vec(), key);
    let mut ff = vec![0xffu8, 0xff, 0x10];
    c.find_short_successor(&mut ff);
    assert_eq!(vec![0xffu8, 0xff, 0x11], ff);
    let mut all_ff = vec![0xffu8, 0xff];
    c.find_short_successor(&mut all_ff);
    assert_eq!(vec![0xffu8, 0xff], all_ff);
    assert_eq!("levelerdb.BytewiseComparator", c.name());
}

#[test]
fn bits_logarithms_and_low_bits() {
    assert_eq!(-1, Bits::log2_floor(0));
    assert_eq!(0, Bits::log2_floor(1));
    assert_eq!(9, Bits::log2_floor(1000));
    assert_eq!(31, Bits::log2_floor_non_zero(u32::MAX));
    assert_eq!(0, Bits::find_lsb_set_non_zero(1));
    assert_eq!(3, Bits::find_lsb_set_non_zero(40));
    assert_eq!(31, Bits::find_lsb_set_non_zero(1 << 31));
    assert_eq!(40, Bits::find_lsb_set_non_zero64(1 << 40));
    assert_eq!(63, Bits::find_lsb_set_non_zero64(1 << 63));
}
