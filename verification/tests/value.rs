use snek_runtime::value::{decode, encode, is_reference, word_to_int, Value};
use snek_runtime::value::{FALSE, INT_MAX, INT_MIN, NIL, TRUE};

#[test]
fn reserved_words_decode() {
    assert_eq!(decode(NIL), Value::Nil);
    assert_eq!(decode(FALSE), Value::Bool(false));
    assert_eq!(decode(TRUE), Value::Bool(true));
    assert_eq!(NIL, 0b001);
    assert_eq!(FALSE, 0b011);
    assert_eq!(TRUE, 0b111);
}

#[test]
fn even_words_decode_as_halved_signed_integers() {
    assert_eq!(decode(0), Value::Int(0));
    assert_eq!(decode(10), Value::Int(5));
    assert_eq!(decode(u64::MAX - 1), Value::Int(-1));
    assert_eq!(decode(0x8000_0000_0000_0000), Value::Int(INT_MIN));
    assert_eq!(decode(0x7fff_ffff_ffff_fffe), Value::Int(INT_MAX));
    assert_eq!(word_to_int(u64::MAX - 5), -3);
}

#[test]
fn other_odd_words_decode_as_references() {
    assert_eq!(decode(0x1001), Value::Ref(0x1000));
    assert_eq!(decode(5), Value::Ref(4));
    assert!(is_reference(0x1001));
    assert!(is_reference(5));
    assert!(!is_reference(1));
    assert!(!is_reference(3));
    assert!(!is_reference(7));
    assert!(!is_reference(8));
}

#[test]
fn encode_gives_the_word() {
    assert_eq!(encode(Value::Int(5)), Some(10));
    assert_eq!(encode(Value::Int(-1)), Some(u64::MAX - 1));
    assert_eq!(encode(Value::Int(INT_MIN)), Some(0x8000_0000_0000_0000));
    assert_eq!(encode(Value::Int(INT_MAX)), Some(0x7fff_ffff_ffff_fffe));
    assert_eq!(encode(Value::Bool(true)), Some(7));
    assert_eq!(encode(Value::Bool(false)), Some(3));
    assert_eq!(encode(Value::Nil), Some(1));
    assert_eq!(encode(Value::Ref(0x1000)), Some(0x1001));
}

#[test]
fn encode_refuses_what_has_no_word() {
    assert_eq!(encode(Value::Int(INT_MAX + 1)), None);
    assert_eq!(encode(Value::Int(INT_MIN - 1)), None);
    assert_eq!(encode(Value::Int(i64::MAX)), None);
    assert_eq!(encode(Value::Ref(0)), None);
    assert_eq!(encode(Value::Ref(2)), None);
    assert_eq!(encode(Value::Ref(6)), None);
    assert_eq!(encode(Value::Ref(0x1001)), None);
}

#[test]
fn encoding_round_trip() {
    for v in [
        Value::Int(0),
        Value::Int(1),
        Value::Int(-1),
        Value::Int(123_456_789),
        Value::Int(INT_MIN),
        Value::Int(INT_MAX),
        Value::Bool(true),
        Value::Bool(false),
        Value::Nil,
        Value::Ref(8),
        Value::Ref(0xffff_ffff_ffff_fff8),
    ] {
        assert_eq!(decode(encode(v).unwrap()), v);
    }
    for w in [0u64, 1, 2, 3, 5, 7, 9, 10, 0x1001, u64::MAX, u64::MAX - 1, 0x8000_0000_0000_0000] {
        assert_eq!(encode(decode(w)), Some(w));
    }
}
