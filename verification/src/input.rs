//! Reading what the program is started with: its input value and the size
//! of its heap.

use crate::text::{numeral_value, parse_digits};
use crate::value::{FALSE, TRUE};
use vstd::prelude::*;
use vstd::string::StrSliceExecFns;

verus! {

/// The word for an input text: `true`, `false`, or a decimal integer that
/// fits in 64 bits, doubled as a tagged integer is, without regard to the
/// bit lost at the top.
pub open spec fn input_word(s: Seq<char>) -> Option<u64> {
    if s == seq!['t', 'r', 'u', 'e'] {
        Some(TRUE)
    } else if s == seq!['f', 'a', 'l', 's', 'e'] {
        Some(FALSE)
    } else {
        match numeral_value(s, true) {
            Some(n) => if i64::MIN <= n <= i64::MAX {
                Some(((2 * n) % 0x1_0000_0000_0000_0000) as u64)
            } else {
                None
            },
            None => None,
        }
    }
}

/// The number of words for a heap size text: a decimal number that fits
/// in a machine word.
pub open spec fn heap_size_of(s: Seq<char>) -> Option<usize> {
    match numeral_value(s, false) {
        Some(n) => if n <= usize::MAX {
            Some(n as usize)
        } else {
            None
        },
        None => None,
    }
}

/// Tells whether two texts are the same.
pub fn same_text(a: &str, b: &str) -> (r: bool)
    ensures
        r == (a@ == b@),
{
    let n: usize = a.unicode_len();
    if n != b.unicode_len() {
        return false;
    }
    let mut i: usize = 0;
    while i < n
        invariant
            i <= n,
            n == a@.len(),
            n == b@.len(),
            forall|k: int| 0 <= k < i ==> a@[k] == b@[k],
        decreases n - i,
    {
        if a.get_char(i) != b.get_char(i) {
            return false;
        }
        i = i + 1;
    }
    assert(a@ =~= b@);
    true
}

/// Reads a decimal integer with an optional sign that fits in 64 bits.
pub fn parse_i64(s: &str) -> (r: Option<i64>)
    ensures
        r == (match numeral_value(s@, true) {
            Some(n) => if i64::MIN <= n <= i64::MAX {
                Some(n as i64)
            } else {
                None
            },
            None => None,
        }),
{
    let n: usize = s.unicode_len();
    if n > 0 && s.get_char(0) == '-' {
        match parse_digits(s, 1, 0x8000_0000_0000_0000) {
            Some(m) => {
                if m == 0x8000_0000_0000_0000 {
                    Some(i64::MIN)
                } else {
                    Some(-(m as i64))
                }
            },
            None => None,
        }
    } else if n > 0 && s.get_char(0) == '+' {
        match parse_digits(s, 1, 0x7fff_ffff_ffff_ffff) {
            Some(m) => Some(m as i64),
            None => None,
        }
    } else {
        proof {
            assert(s@.skip(0) =~= s@);
            if crate::text::all_digits(s@) {
                crate::text::lemma_digits_nonnegative(s@);
            }
        }
        match parse_digits(s, 0, 0x7fff_ffff_ffff_ffff) {
            Some(m) => Some(m as i64),
            None => None,
        }
    }
}

/// Reads the program's input: `true`, `false`, or a decimal integer. Gives
/// `None` for any other text.
pub fn parse_input(input: &str) -> (r: Option<u64>)
    ensures
        r == input_word(input@),
{
    proof {
        reveal_strlit("true");
        reveal_strlit("false");
        assert("true"@ =~= seq!['t', 'r', 'u', 'e']);
        assert("false"@ =~= seq!['f', 'a', 'l', 's', 'e']);
    }
    if same_text(input, "true") {
        return Some(TRUE);
    }
    if same_text(input, "false") {
        return Some(FALSE);
    }
    match parse_i64(input) {
        Some(n) => {
            if n >= 0 {
                Some(2 * (n as u64))
            } else {
                let magnitude: u64 = (-(n + 1)) as u64 + 1;
                if magnitude == 0x8000_0000_0000_0000 {
                    Some(0)
                } else {
                    Some(u64::MAX - 2 * magnitude + 1)
                }
            }
        },
        None => None,
    }
}

/// Reads the size of the heap, a number of words. Gives `None` for a text
/// that is no decimal number or does not fit in a machine word.
pub fn parse_heap_size(input: &str) -> (r: Option<usize>)
    ensures
        r == heap_size_of(input@),
{
    let n: usize = input.unicode_len();
    if n > 0 && input.get_char(0) == '+' {
        match parse_digits(input, 1, usize::MAX as u64) {
            Some(m) => Some(m as usize),
            None => None,
        }
    } else {
        proof {
            assert(input@.skip(0) =~= input@);
            if crate::text::all_digits(input@) {
                crate::text::lemma_digits_nonnegative(input@);
            }
        }
        match parse_digits(input, 0, usize::MAX as u64) {
            Some(m) => Some(m as usize),
            None => None,
        }
    }
}

} // verus!
