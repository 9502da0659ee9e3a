use sstable::logging::{append_number_to, consume_decimal_number, number_to_string};

#[test]
fn test_number_to_string() {
    assert_eq!("0", number_to_string(0));
    assert_eq!("1", number_to_string(1));
    assert_eq!("9", number_to_string(9));

    assert_eq!("10", number_to_string(10));
    assert_eq!("11", number_to_string(11));
    assert_eq!("19", number_to_string(19));
    assert_eq!("99", number_to_string(99));

    assert_eq!("100", number_to_string(100));
    assert_eq!("109", number_to_string(109));
    assert_eq!("190", number_to_string(190));
    assert_eq!("123", number_to_string(123));
    assert_eq!("12345678", number_to_string(12345678));

    assert_eq!(u64::MAX, 18446744073709551615, "Test consistency check");
    assert_eq!("18446744073709551000", number_to_string(18446744073709551000));
    assert_eq!("18446744073709551600", number_to_string(18446744073709551600));
    assert_eq!("18446744073709551610", number_to_string(18446744073709551610));
    assert_eq!("18446744073709551614", number_to_string(18446744073709551614));
    assert_eq!("18446744073709551615", number_to_string(18446744073709551615));
}

fn consume_decimal_number_roundtrip_test(number: u64, padding: &str) {
    let decimal_number = number_to_string(number);
    let input_string = decimal_number.clone() + padding;
    let r = consume_decimal_number(input_string.as_bytes());
    assert!(r.is_some());
    let (result, consumed) = r.unwrap();
    assert_eq!(number, result);
    assert_eq!(decimal_number.len(), consumed);
    assert_eq!(padding.len(), input_string.len() - consumed);
}

#[test]
fn test_consume_decimal_number_roundtrip() {
    consume_decimal_number_roundtrip_test(0, "");
    consume_decimal_number_roundtrip_test(1, "");
    consume_decimal_number_roundtrip_test(9, "");

    consume_decimal_number_roundtrip_test(10, "");
    consume_decimal_number_roundtrip_test(11, "");
    consume_decimal_number_roundtrip_test(19, "");
    consume_decimal_number_roundtrip_test(99, "");

    consume_decimal_number_roundtrip_test(100, "");
    consume_decimal_number_roundtrip_test(109, "");
    consume_decimal_number_roundtrip_test(190, "");
    consume_decimal_number_roundtrip_test(123, "");
    assert_eq!("12345678", number_to_string(12345678));

    for i in 0..100 {
        let large_number = u64::MAX - i;
        consume_decimal_number_roundtrip_test(large_number, "");
    }
}

#[test]
fn test_consume_decimal_number_roundtrip_with_padding() {
    consume_decimal_number_roundtrip_test(0, " ");
    consume_decimal_number_roundtrip_test(1, "abc");
    consume_decimal_number_roundtrip_test(9, "x");

    consume_decimal_number_roundtrip_test(10, "-");
    consume_decimal_number_roundtrip_test(11, &"\0\0\0".repeat(3));
    consume_decimal_number_roundtrip_test(19, "abc");
    consume_decimal_number_roundtrip_test(99, "padding");

    consume_decimal_number_roundtrip_test(100, " ");

    for i in 0..100 {
        let large_number = u64::MAX - i;
        consume_decimal_number_roundtrip_test(large_number, "pad");
    }
}

fn consume_decimal_number_overflow_test(input_string: &str) {
    assert_eq!(None, consume_decimal_number(input_string.as_bytes()));
}

#[test]
fn test_consume_decimal_number_overflow() {
    assert_eq!(u64::MAX, 18446744073709551615, "Test consistency check");
    consume_decimal_number_overflow_test("18446744073709551616");
    consume_decimal_number_overflow_test("18446744073709551617");
    consume_decimal_number_overflow_test("18446744073709551618");
    consume_decimal_number_overflow_test("18446744073709551619");
    consume_decimal_number_overflow_test("18446744073709551620");
    consume_decimal_number_overflow_test("18446744073709551621");
    consume_decimal_number_overflow_test("18446744073709551622");
    consume_decimal_number_overflow_test("18446744073709551623");
    consume_decimal_number_overflow_test("18446744073709551624");
    consume_decimal_number_overflow_test("18446744073709551625");
    consume_decimal_number_overflow_test("18446744073709551626");

    consume_decimal_number_overflow_test("18446744073709551700");

    consume_decimal_number_overflow_test("99999999999999999999");
}

fn consume_decimal_number_no_digits_test(input_string: &str) {
    let input = input_string.as_bytes().to_vec();
    assert_eq!(None, consume_decimal_number(&input));
    assert_eq!(input_string.as_bytes(), &input[..]);
}

#[test]
fn test_consume_decimal_number_no_digits() {
    consume_decimal_number_no_digits_test("");
    consume_decimal_number_no_digits_test(" ");
    consume_decimal_number_no_digits_test("a");
    consume_decimal_number_no_digits_test(" 123");
    consume_decimal_number_no_digits_test("a123");
    consume_decimal_number_no_digits_test(&"\x00123".repeat(4));
    consume_decimal_number_no_digits_test(&"\x7f123".repeat(4));
    consume_decimal_number_no_digits_test(&"\u{FF}0123".repeat(4));
}

#[test]
fn append_number_keeps_prefix() {
    let mut s = String::from("n=");
    append_number_to(&mut s, 4096);
    assert_eq!("n=4096", s);
}
