use vector_collection::decimal::{decimal_string, parse_decimal};
use vector_collection::vector::{
    is_all_finite, is_finite_bits, is_storable_dimensions, words_from_le_bytes, words_to_le_bytes,
};

#[test]
fn decimal_string_writes_plain_decimal() {
    assert_eq!(decimal_string(0), "0");
    assert_eq!(decimal_string(7), "7");
    assert_eq!(decimal_string(10), "10");
    assert_eq!(decimal_string(1203), "1203");
    assert_eq!(decimal_string(9_876_543_210), "9876543210");
    assert_eq!(decimal_string(usize::MAX), usize::MAX.to_string());
}

#[test]
fn parse_decimal_reads_digits_with_an_optional_plus() {
    assert_eq!(parse_decimal("0"), Some(0));
    assert_eq!(parse_decimal("42"), Some(42));
    assert_eq!(parse_decimal("+42"), Some(42));
    assert_eq!(parse_decimal("0042"), Some(42));
    assert_eq!(parse_decimal(&usize::MAX.to_string()), Some(usize::MAX));
}

#[test]
fn parse_decimal_refuses_what_is_not_a_number() {
    assert_eq!(parse_decimal(""), None);
    assert_eq!(parse_decimal("+"), None);
    assert_eq!(parse_decimal("-1"), None);
    assert_eq!(parse_decimal("++1"), None);
    assert_eq!(parse_decimal("1+"), None);
    assert_eq!(parse_decimal("12a"), None);
    assert_eq!(parse_decimal(" 12"), None);
    assert_eq!(parse_decimal("12 "), None);
    assert_eq!(parse_decimal("1_000"), None);
    assert_eq!(parse_decimal("1.5"), None);
    assert_eq!(parse_decimal("\u{0663}"), None);
    assert_eq!(parse_decimal("x"), None);
}

#[test]
fn parse_decimal_refuses_what_a_word_cannot_hold() {
    let max = usize::MAX.to_string();
    let mut beyond = max.clone();
    beyond.push('0');
    assert_eq!(parse_decimal(&beyond), None);
    let (head, last) = max.split_at(max.len() - 1);
    let digit: u32 = last.parse().unwrap();
    assert!(digit < 9);
    assert_eq!(parse_decimal(&format!("{}{}", head, digit + 1)), None);
}

#[test]
fn parse_decimal_agrees_with_the_standard_parser() {
    let cases = ["0", "+0", "1", "007", "+", "", "18446744073709551615", "18446744073709551616",
        "99999999999999999999999", "4294967295", "4294967296", "a", "1a", "+-1", "१२"];
    for text in cases {
        assert_eq!(parse_decimal(text), text.parse::<usize>().ok(), "{:?}", text);
    }
    for n in [0usize, 1, 9, 10, 11, 99, 100, 101, 65535, 65536, 1 << 31, usize::MAX - 1] {
        assert_eq!(decimal_string(n), n.to_string());
        assert_eq!(parse_decimal(&decimal_string(n)), Some(n));
    }
}

#[test]
fn words_are_written_least_significant_byte_first() {
    assert_eq!(words_to_le_bytes(&vec![0x3f80_0000]), vec![0x00, 0x00, 0x80, 0x3f]);
    assert_eq!(
        words_to_le_bytes(&vec![0x0102_0304, 0xffee_ddcc]),
        vec![0x04, 0x03, 0x02, 0x01, 0xcc, 0xdd, 0xee, 0xff]
    );
    assert_eq!(words_to_le_bytes(&Vec::new()), Vec::<u8>::new());
    let values = [1.5f32, -0.25, 3.0e10];
    let words: Vec<u32> = values.iter().map(|v| v.to_bits()).collect();
    let expected: Vec<u8> = values.iter().flat_map(|v| v.to_le_bytes()).collect();
    assert_eq!(words_to_le_bytes(&words), expected);
}

#[test]
fn words_are_read_from_whole_groups_of_four_bytes() {
    assert_eq!(words_from_le_bytes(&vec![0x00, 0x00, 0x80, 0x3f], 1), Some(vec![0x3f80_0000]));
    assert_eq!(
        words_from_le_bytes(&vec![0x04, 0x03, 0x02, 0x01, 0xcc, 0xdd, 0xee, 0xff], 2),
        Some(vec![0x0102_0304, 0xffee_ddcc])
    );
    assert_eq!(words_from_le_bytes(&Vec::new(), 0), Some(Vec::new()));
    assert_eq!(words_from_le_bytes(&vec![1, 2, 3, 4], 2), None);
    assert_eq!(words_from_le_bytes(&vec![1, 2, 3, 4, 5], 1), None);
    assert_eq!(words_from_le_bytes(&vec![1, 2, 3], 1), None);
    assert_eq!(words_from_le_bytes(&vec![1, 2, 3, 4], 0), None);
    assert_eq!(words_from_le_bytes(&vec![1, 2, 3, 4], usize::MAX), None);
}

#[test]
fn finite_patterns_have_an_exponent_below_all_ones() {
    assert!(is_finite_bits(0));
    assert!(is_finite_bits(0x8000_0000));
    assert!(is_finite_bits(1.0f32.to_bits()));
    assert!(is_finite_bits(0x7f7f_ffff));
    assert!(is_finite_bits(0xff7f_ffff));
    assert!(is_finite_bits(0x0000_0001));
    assert!(!is_finite_bits(0x7f80_0000));
    assert!(!is_finite_bits(0xff80_0000));
    assert!(!is_finite_bits(0x7fc0_0000));
    assert!(!is_finite_bits(0x7f80_0001));
    assert!(!is_finite_bits(0xffff_ffff));
    for v in [0.0f32, -1.0, f32::MAX, f32::MIN_POSITIVE, f32::NAN, f32::INFINITY, f32::NEG_INFINITY] {
        assert_eq!(is_finite_bits(v.to_bits()), v.is_finite());
    }
}

#[test]
fn a_vector_is_finite_when_every_component_is() {
    assert!(is_all_finite(&Vec::new()));
    assert!(is_all_finite(&vec![0, 1.0f32.to_bits(), 0x7f7f_ffff]));
    assert!(!is_all_finite(&vec![0, 0x7f80_0000, 0]));
    assert!(!is_all_finite(&vec![0, 0, f32::NAN.to_bits()]));
}

#[test]
fn storable_dimensions_end_at_an_eighth_of_the_word_range() {
    assert!(is_storable_dimensions(0));
    assert!(is_storable_dimensions(1536));
    assert!(is_storable_dimensions(usize::MAX / 8));
    assert!(!is_storable_dimensions(usize::MAX / 8 + 1));
    assert!(!is_storable_dimensions(usize::MAX));
}

#[test]
fn parse_decimal_reads_long_runs_of_zeros() {
    let mut text = "0".repeat(200_000);
    assert_eq!(parse_decimal(&text), Some(0));
    text.push('7');
    assert_eq!(parse_decimal(&text), Some(7));
    text.insert(0, '+');
    assert_eq!(parse_decimal(&text), Some(7));
    text.push('x');
    assert_eq!(parse_decimal(&text), None);
}
