use snek_runtime::input::{parse_heap_size, parse_i64, parse_input, same_text};
use snek_runtime::text::{decimal_string, hex_string, parse_digits};

#[test]
fn parse_input_reads_booleans() {
    assert_eq!(parse_input("true"), Some(7));
    assert_eq!(parse_input("false"), Some(3));
}

#[test]
fn parse_input_doubles_integers() {
    assert_eq!(parse_input("0"), Some(0));
    assert_eq!(parse_input("5"), Some(10));
    assert_eq!(parse_input("1000"), Some(2000));
    assert_eq!(parse_input("+17"), Some(34));
    assert_eq!(parse_input("-1"), Some(u64::MAX - 1));
    assert_eq!(parse_input("-0"), Some(0));
    assert_eq!(parse_input("007"), Some(14));
}

#[test]
fn parse_input_loses_the_top_bit_of_large_integers() {
    assert_eq!(parse_input("9223372036854775807"), Some(u64::MAX - 1));
    assert_eq!(parse_input("-9223372036854775808"), Some(0));
    assert_eq!(parse_input("4611686018427387904"), Some(0x8000_0000_0000_0000));
    assert_eq!(parse_input("-4611686018427387905"), Some(0x7fff_ffff_ffff_fffe));
}

#[test]
fn parse_input_refuses_other_texts() {
    assert_eq!(parse_input(""), None);
    assert_eq!(parse_input("nil"), None);
    assert_eq!(parse_input("True"), None);
    assert_eq!(parse_input("-"), None);
    assert_eq!(parse_input("+"), None);
    assert_eq!(parse_input("12a"), None);
    assert_eq!(parse_input(" 12"), None);
    assert_eq!(parse_input("1.5"), None);
    assert_eq!(parse_input("--1"), None);
    assert_eq!(parse_input("9223372036854775808"), None);
    assert_eq!(parse_input("-9223372036854775809"), None);
    assert_eq!(parse_input("99999999999999999999999999"), None);
}

#[test]
fn parse_input_agrees_with_the_standard_parser() {
    for text in ["0", "1", "-1", "+5", "42", "-42", "9223372036854775807", "-9223372036854775808", "x", "", "+", "1_0"] {
        let expected = text.parse::<i64>().ok();
        assert_eq!(parse_i64(text), expected, "{}", text);
    }
}

#[test]
fn parse_heap_size_reads_word_counts() {
    assert_eq!(parse_heap_size("10000"), Some(10000));
    assert_eq!(parse_heap_size("0"), Some(0));
    assert_eq!(parse_heap_size("+5"), Some(5));
    assert_eq!(parse_heap_size("18446744073709551615"), "18446744073709551615".parse::<usize>().ok());
}

#[test]
fn parse_heap_size_refuses_other_texts() {
    assert_eq!(parse_heap_size(""), None);
    assert_eq!(parse_heap_size("-1"), None);
    assert_eq!(parse_heap_size("-0"), None);
    assert_eq!(parse_heap_size("ten"), None);
    assert_eq!(parse_heap_size("5 "), None);
    assert_eq!(parse_heap_size("18446744073709551616"), None);
}

#[test]
fn parse_digits_respects_the_limit() {
    assert_eq!(parse_digits("x123", 1, 123), Some(123));
    assert_eq!(parse_digits("x123", 1, 122), None);
    assert_eq!(parse_digits("x", 1, 10), None);
    assert_eq!(parse_digits("18446744073709551615", 0, u64::MAX), Some(u64::MAX));
    assert_eq!(parse_digits("18446744073709551616", 0, u64::MAX), None);
}

#[test]
fn same_text_compares_texts() {
    assert!(same_text("true", "true"));
    assert!(!same_text("true", "tru"));
    assert!(!same_text("true", "trua"));
    assert!(same_text("", ""));
}

#[test]
fn decimal_numerals() {
    assert_eq!(decimal_string(0), "0");
    assert_eq!(decimal_string(7), "7");
    assert_eq!(decimal_string(10), "10");
    assert_eq!(decimal_string(-1), "-1");
    assert_eq!(decimal_string(1234567890), "1234567890");
    assert_eq!(decimal_string(i64::MAX), "9223372036854775807");
    assert_eq!(decimal_string(i64::MIN), "-9223372036854775808");
}

#[test]
fn hexadecimal_numerals() {
    assert_eq!(hex_string(0), "0x0");
    assert_eq!(hex_string(15), "0xf");
    assert_eq!(hex_string(16), "0x10");
    assert_eq!(hex_string(0xdead_beef), "0xdeadbeef");
    assert_eq!(hex_string(u64::MAX), "0xffffffffffffffff");
    assert_eq!(hex_string(0x7ffc_1234_5678), format!("{:#0x}", 0x7ffc_1234_5678u64));
}
