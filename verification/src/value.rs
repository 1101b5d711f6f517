//! Tagged 64-bit words.
//!
//! A word whose lowest bit is clear is a signed integer shifted left by one.
//! Three odd bit patterns are reserved for `nil`, `false` and `true`; every
//! other odd word is a reference to the heap object at the address one below
//! the word.

use vstd::prelude::*;

verus! {

/// The word that stands for `nil`.
pub const NIL: u64 = 1;

/// The word that stands for the boolean `false`.
pub const FALSE: u64 = 3;

/// The word that stands for the boolean `true`.
pub const TRUE: u64 = 7;

/// Smallest integer that fits in a tagged word.
pub const INT_MIN: i64 = -0x4000_0000_0000_0000;

/// Largest integer that fits in a tagged word.
pub const INT_MAX: i64 = 0x3fff_ffff_ffff_ffff;

/// What a tagged word means.
#[derive(Clone, Copy, Debug, PartialEq, Eq, Structural)]
pub enum Value {
    /// A signed integer.
    Int(i64),
    /// A boolean.
    Bool(bool),
    /// The empty reference.
    Nil,
    /// A reference to the heap object that starts at this address.
    Ref(u64),
}

/// The word carries an integer: its lowest bit is clear.
pub open spec fn is_int_word(w: u64) -> bool {
    w % 2 == 0
}

/// The word is a heap reference: odd, and none of the three reserved
/// patterns.
pub open spec fn is_ref_word(w: u64) -> bool {
    w % 2 == 1 && w != NIL && w != FALSE && w != TRUE
}

/// The integer carried by an even word: the word read as a signed number and
/// halved.
pub open spec fn int_of_word(w: u64) -> int {
    if w < 0x8000_0000_0000_0000 {
        w as int / 2
    } else {
        (w as int - 0x1_0000_0000_0000_0000) / 2
    }
}

/// The meaning of a word.
pub open spec fn decode_spec(w: u64) -> Value {
    if w == TRUE {
        Value::Bool(true)
    } else if w == FALSE {
        Value::Bool(false)
    } else if w == NIL {
        Value::Nil
    } else if is_int_word(w) {
        Value::Int(int_of_word(w) as i64)
    } else {
        Value::Ref((w - 1) as u64)
    }
}

/// The values that have a word: integers of 63 bits, the booleans, `nil`,
/// and references to even addresses whose word is not a reserved pattern.
pub open spec fn representable(v: Value) -> bool {
    match v {
        Value::Int(n) => INT_MIN <= n <= INT_MAX,
        Value::Bool(_) => true,
        Value::Nil => true,
        Value::Ref(a) => a % 2 == 0 && a != 0 && a != 2 && a != 6,
    }
}

/// The word of a representable value.
pub open spec fn encode_spec(v: Value) -> u64 {
    match v {
        Value::Int(n) => if n >= 0 {
            (2 * n) as u64
        } else {
            (2 * n + 0x1_0000_0000_0000_0000) as u64
        },
        Value::Bool(b) => if b {
            TRUE
        } else {
            FALSE
        },
        Value::Nil => NIL,
        Value::Ref(a) => (a + 1) as u64,
    }
}

/// Tells whether a word is a heap reference.
pub fn is_reference(w: u64) -> (r: bool)
    ensures
        r == is_ref_word(w),
{
    assert(w & 1 == w % 2) by (bit_vector);
    w & 1 == 1 && w != NIL && w != FALSE && w != TRUE
}

/// The integer carried by an even word.
pub fn word_to_int(w: u64) -> (n: i64)
    ensures
        n == int_of_word(w),
        INT_MIN <= n <= INT_MAX,
{
    let signed: i64 = #[verifier::truncate]
    (w as i64);
    let n: i64 = signed >> 1;
    assert(n == int_of_word(w) && -0x4000_0000_0000_0000 <= n <= 0x3fff_ffff_ffff_ffff) by {
        assert(w < 0x8000_0000_0000_0000 ==> ((w as i64) >> 1) == w / 2) by (bit_vector);
        assert(w >= 0x8000_0000_0000_0000 ==> ((w as i64) >> 1) + 0x8000_0000_0000_0000 == w
            / 2) by (bit_vector);
    }
    n
}

/// Reads a word as the value it stands for.
pub fn decode(w: u64) -> (v: Value)
    ensures
        v == decode_spec(w),
        representable(v),
{
    if w == TRUE {
        Value::Bool(true)
    } else if w == FALSE {
        Value::Bool(false)
    } else if w == NIL {
        Value::Nil
    } else if w % 2 == 0 {
        Value::Int(word_to_int(w))
    } else {
        Value::Ref(w - 1)
    }
}

/// Writes a value as a word. Values without a word give `None`.
pub fn encode(v: Value) -> (w: Option<u64>)
    ensures
        representable(v) ==> w == Some(encode_spec(v)),
        !representable(v) ==> w.is_none(),
{
    match v {
        Value::Int(n) => {
            if INT_MIN <= n && n <= INT_MAX {
                let doubled: i64 = 2 * n;
                let word: u64 = #[verifier::truncate]
                (doubled as u64);
                assert(word == encode_spec(v)) by {
                    assert(doubled >= 0 ==> doubled as u64 == doubled) by (bit_vector);
                    assert(doubled < 0 ==> doubled as u64 == doubled
                        + 0x1_0000_0000_0000_0000) by (bit_vector);
                }
                Some(word)
            } else {
                None
            }
        },
        Value::Bool(b) => Some(if b { TRUE } else { FALSE }),
        Value::Nil => Some(NIL),
        Value::Ref(a) => {
            if a % 2 == 0 && a != 0 && a != 2 && a != 6 {
                Some(a + 1)
            } else {
                None
            }
        },
    }
}

/// Decoding a word and encoding the value again gives the word back.
pub proof fn lemma_decode_then_encode(w: u64)
    ensures
        representable(decode_spec(w)),
        encode_spec(decode_spec(w)) == w,
{
}

/// Encoding a representable value and decoding the word again gives the
/// value back: every 63-bit integer, `true`, `false`, `nil` and every
/// reference.
pub proof fn lemma_encode_then_decode(v: Value)
    requires
        representable(v),
    ensures
        decode_spec(encode_spec(v)) == v,
{
}

} // verus!
