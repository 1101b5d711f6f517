//! The faults that end a program, and the line that reports each.

use crate::text::{decimal, decimal_string};
use vstd::prelude::*;
use vstd::string::StringExecFns;

verus! {

/// A fault. Each has a number, which is also the exit status of the
/// process that dies of it.
#[derive(Clone, Copy, Debug, PartialEq, Eq, Structural)]
pub enum ErrCode {
    /// An operand had the wrong kind.
    InvalidArgument,
    /// An integer result did not fit.
    Overflow,
    /// An index lay outside its vector.
    IndexOutOfBounds,
    /// A vector was asked for with a negative size.
    InvalidVecSize,
    /// The heap cannot hold what was asked for, even after a collection.
    OutOfMemory,
    /// Any other number.
    Unknown(i64),
}

impl ErrCode {
    /// The number of the fault.
    pub open spec fn spec_code(self) -> i64 {
        match self {
            ErrCode::InvalidArgument => 1,
            ErrCode::Overflow => 2,
            ErrCode::IndexOutOfBounds => 3,
            ErrCode::InvalidVecSize => 4,
            ErrCode::OutOfMemory => 5,
            ErrCode::Unknown(code) => code,
        }
    }

    /// The fault with the given number.
    pub open spec fn spec_from_code(code: i64) -> ErrCode {
        if code == 1 {
            ErrCode::InvalidArgument
        } else if code == 2 {
            ErrCode::Overflow
        } else if code == 3 {
            ErrCode::IndexOutOfBounds
        } else if code == 4 {
            ErrCode::InvalidVecSize
        } else if code == 5 {
            ErrCode::OutOfMemory
        } else {
            ErrCode::Unknown(code)
        }
    }

    /// The number of the fault.
    #[verifier::when_used_as_spec(spec_code)]
    pub fn code(self) -> (code: i64)
        ensures
            code == self.spec_code(),
    {
        match self {
            ErrCode::InvalidArgument => 1,
            ErrCode::Overflow => 2,
            ErrCode::IndexOutOfBounds => 3,
            ErrCode::InvalidVecSize => 4,
            ErrCode::OutOfMemory => 5,
            ErrCode::Unknown(code) => code,
        }
    }

    /// The fault with the given number.
    #[verifier::when_used_as_spec(spec_from_code)]
    pub fn from_code(code: i64) -> (fault: ErrCode)
        ensures
            fault == ErrCode::spec_from_code(code),
            fault.spec_code() == code,
    {
        if code == 1 {
            ErrCode::InvalidArgument
        } else if code == 2 {
            ErrCode::Overflow
        } else if code == 3 {
            ErrCode::IndexOutOfBounds
        } else if code == 4 {
            ErrCode::InvalidVecSize
        } else if code == 5 {
            ErrCode::OutOfMemory
        } else {
            ErrCode::Unknown(code)
        }
    }
}

/// The line that the fault trap writes for a fault number. The first four
/// faults have their own words; every other number, that of running out of
/// memory too, is reported by its numeral.
pub open spec fn fault_line(errcode: i64) -> Seq<char> {
    if errcode == 1 {
        "invalid argument"@
    } else if errcode == 2 {
        "overflow"@
    } else if errcode == 3 {
        "index out of bounds"@
    } else if errcode == 4 {
        "vector size must be non-negative"@
    } else {
        "an error ocurred "@ + decimal(errcode as int)
    }
}

/// The exit status of a process that dies of the fault with this number:
/// the low 32 bits of the number.
pub open spec fn exit_status(errcode: i64) -> i32 {
    errcode as i32
}

/// The fault trap, as far as it computes: the line for the diagnostic
/// stream and the exit status of the process.
pub fn snek_error(errcode: i64) -> (r: (String, i32))
    ensures
        r.0@ == fault_line(errcode),
        r.1 == exit_status(errcode),
        i32::MIN <= errcode <= i32::MAX ==> r.1 == errcode,
{
    let status: i32 = #[verifier::truncate]
    (errcode as i32);
    let line = if errcode == 1 {
        String::from_str("invalid argument")
    } else if errcode == 2 {
        String::from_str("overflow")
    } else if errcode == 3 {
        String::from_str("index out of bounds")
    } else if errcode == 4 {
        String::from_str("vector size must be non-negative")
    } else {
        let mut line = String::from_str("an error ocurred ");
        let number = decimal_string(errcode);
        line.append(number.as_str());
        line
    };
    (line, status)
}

/// The line that reports that the heap is exhausted.
pub open spec fn out_of_memory_line() -> Seq<char> {
    "out of memory"@
}

/// What the allocation trap reports when a collection has not made room:
/// the line for the diagnostic stream and the exit status of the process.
pub fn out_of_memory() -> (r: (String, i32))
    ensures
        r.0@ == out_of_memory_line(),
        r.1 == ErrCode::OutOfMemory.spec_code(),
{
    (String::from_str("out of memory"), 5)
}

} // verus!
