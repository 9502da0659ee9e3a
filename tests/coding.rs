use sstable::coding::{
    decode_fixed32, decode_fixed64, get_length_prefixed_slice, get_varint32, get_varint32_ptr,
    get_varint64_ptr, put_fixed32, put_fixed64, put_length_prefixed_slice, put_varint32,
    put_varint64, varint_length,
};

#[test]
fn test_fixed32() {
    let mut s = Vec::new();
    for v in 0..100_000u32 {
        put_fixed32(&mut s, v);
    }
    let mut p = 0;
    for v in 0..100_000u32 {
        let actual = decode_fixed32(&s, p);
        assert_eq!(v, actual);
        p += 4;
    }
}

#[test]
fn test_fixed64() {
    let mut s = Vec::new();
    for power in 0..63 {
        let v: u64 = 1 << power;
        put_fixed64(&mut s, v - 1);
        put_fixed64(&mut s, v + 0);
        put_fixed64(&mut s, v + 1);
    }
    let mut p = 0;
    for power in 0..63 {
        let v: u64 = 1 << power;
        assert_eq!(v - 1, decode_fixed64(&s, p));
        p += 8;
        assert_eq!(v + 0, decode_fixed64(&s, p));
        p += 8;
        assert_eq!(v + 1, decode_fixed64(&s, p));
        p += 8;
    }
}

#[test]
fn test_encoding_output() {
    let mut dst = Vec::new();
    put_fixed32(&mut dst, 0x04030201);
    assert_eq!(4, dst.len());
    assert_eq!(0x01, dst[0] as i32);
    assert_eq!(0x02, dst[1] as i32);
    assert_eq!(0x03, dst[2] as i32);
    assert_eq!(0x04, dst[3] as i32);

    dst.clear();
    put_fixed64(&mut dst, 0x0807060504030201);
    assert_eq!(8, dst.len());
    assert_eq!(0x01, dst[0] as i32);
    assert_eq!(0x02, dst[1] as i32);
    assert_eq!(0x03, dst[2] as i32);
    assert_eq!(0x04, dst[3] as i32);
    assert_eq!(0x05, dst[4] as i32);
    assert_eq!(0x06, dst[5] as i32);
    assert_eq!(0x07, dst[6] as i32);
    assert_eq!(0x08, dst[7] as i32);
}

#[test]
fn test_varint32() {
    let mut s = Vec::new();
    for i in 0..(32 * 32u32) {
        let v = (i / 32) << (i % 32);
        put_varint32(&mut s, v);
    }
    let mut p = 0;
    for i in 0..(32 * 32u32) {
        let expected = (i / 32) << (i % 32);
        let start = p;
        let op = get_varint32_ptr(&s, p, s.len());
        assert!(op.is_some());
        let (actual, next) = op.unwrap();
        p = next;
        assert_eq!(expected, actual);
        assert_eq!(varint_length(actual as u64), p - start);
    }
    assert_eq!(p, s.len());
}

#[test]
fn test_varint64() {
    let mut values = Vec::new();
    values.push(0);
    values.push(100);
    values.push(!0u64);
    values.push(!0u64 - 1);
    for k in 0..64 {
        let power: u64 = 1 << k;
        values.push(power);
        values.push(power - 1);
        values.push(power + 1);
    }
    let mut s = Vec::new();
    for i in 0..values.len() {
        put_varint64(&mut s, values[i]);
    }
    let limit = s.len();
    let mut p = 0;
    for i in 0..values.len() {
        assert!(p < limit);
        let start = p;
        let op = get_varint64_ptr(&s, p, limit);
        assert!(op.is_some());
        let (actual, next) = op.unwrap();
        p = next;
        assert_eq!(values[i], actual);
        assert_eq!(varint_length(actual), p - start);
    }
    assert_eq!(p, limit);
}

#[test]
fn test_varint32_overflow() {
    let input = String::from("\u{81}\u{82}\u{83}\u{84}\u{85}\u{11}");
    let bytes = input.as_bytes();
    assert!(get_varint32_ptr(bytes, 0, bytes.len()).is_none());
}

#[test]
fn test_varint32_truncation() {
    let large_value: u32 = (1 << 31) + 100;
    let mut s = Vec::new();
    put_varint32(&mut s, large_value);
    for len in 0..s.len() - 1 {
        assert!(get_varint32_ptr(&s, 0, len).is_none());
    }
    let r = get_varint32_ptr(&s, 0, s.len());
    assert!(r.is_some());
    assert_eq!(large_value, r.unwrap().0);
}

#[test]
fn test_varint64_overflow() {
    let input = String::from("\u{81}\u{82}\u{83}\u{84}\u{85}\u{81}\u{82}\u{83}\u{84}\u{85}\u{11}");
    let bytes = input.as_bytes();
    assert!(get_varint64_ptr(bytes, 0, bytes.len()).is_none());
}

#[test]
fn test_varint64_truncation() {
    let large_value: u64 = (1 << 63) + 100;
    let mut s = Vec::new();
    put_varint64(&mut s, large_value);
    for len in 0..s.len() - 1 {
        assert!(get_varint64_ptr(&s, 0, len).is_none());
    }
    let r = get_varint64_ptr(&s, 0, s.len());
    assert!(r.is_some());
    assert_eq!(large_value, r.unwrap().0);
}

#[test]
fn test_strings() {
    let mut s = Vec::new();
    put_length_prefixed_slice(&mut s, b"");
    put_length_prefixed_slice(&mut s, b"foo");
    put_length_prefixed_slice(&mut s, b"bar");
    put_length_prefixed_slice(&mut s, "x".repeat(200).as_bytes());

    let mut pos = 0;
    let (v, next) = get_length_prefixed_slice(&s, pos).unwrap();
    assert_eq!(b"".to_vec(), v);
    pos = next;
    let (v, next) = get_length_prefixed_slice(&s, pos).unwrap();
    assert_eq!(b"foo".to_vec(), v);
    pos = next;
    let (v, next) = get_length_prefixed_slice(&s, pos).unwrap();
    assert_eq!(b"bar".to_vec(), v);
    pos = next;
    let (v, next) = get_length_prefixed_slice(&s, pos).unwrap();
    assert_eq!("x".repeat(200).into_bytes(), v);
    pos = next;
    assert_eq!(s.len(), pos);
}

#[test]
fn varint_exact_bytes() {
    let mut s = Vec::new();
    put_varint32(&mut s, 300);
    assert_eq!(vec![0xac, 0x02], s);
    assert_eq!(2, varint_length(300));
    assert_eq!(1, varint_length(127));
    assert_eq!(10, varint_length(u64::MAX));
}

#[test]
fn length_prefixed_slice_past_end_is_rejected() {
    let s = vec![5u8, b'a', b'b'];
    assert!(get_length_prefixed_slice(&s, 0).is_none());
    assert_eq!(Some((5, 1)), get_varint32(&s, 0));
}
