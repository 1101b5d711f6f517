use snek_runtime::fault::{out_of_memory, snek_error, ErrCode};

#[test]
fn fault_numbers() {
    assert_eq!(ErrCode::InvalidArgument.code(), 1);
    assert_eq!(ErrCode::Overflow.code(), 2);
    assert_eq!(ErrCode::IndexOutOfBounds.code(), 3);
    assert_eq!(ErrCode::InvalidVecSize.code(), 4);
    assert_eq!(ErrCode::OutOfMemory.code(), 5);
    assert_eq!(ErrCode::Unknown(99).code(), 99);
}

#[test]
fn faults_by_number() {
    assert_eq!(ErrCode::from_code(1), ErrCode::InvalidArgument);
    assert_eq!(ErrCode::from_code(2), ErrCode::Overflow);
    assert_eq!(ErrCode::from_code(3), ErrCode::IndexOutOfBounds);
    assert_eq!(ErrCode::from_code(4), ErrCode::InvalidVecSize);
    assert_eq!(ErrCode::from_code(5), ErrCode::OutOfMemory);
    assert_eq!(ErrCode::from_code(0), ErrCode::Unknown(0));
    assert_eq!(ErrCode::from_code(6), ErrCode::Unknown(6));
    assert_eq!(ErrCode::from_code(-1), ErrCode::Unknown(-1));
    for code in [-7i64, 0, 1, 2, 3, 4, 5, 6, 1000] {
        assert_eq!(ErrCode::from_code(code).code(), code);
    }
}

#[test]
fn fault_trap_lines() {
    assert_eq!(snek_error(1), ("invalid argument".to_string(), 1));
    assert_eq!(snek_error(2), ("overflow".to_string(), 2));
    assert_eq!(snek_error(3), ("index out of bounds".to_string(), 3));
    assert_eq!(snek_error(4), ("vector size must be non-negative".to_string(), 4));
}

#[test]
fn fault_trap_reports_other_numbers_by_numeral() {
    assert_eq!(snek_error(5), ("an error ocurred 5".to_string(), 5));
    assert_eq!(snek_error(0), ("an error ocurred 0".to_string(), 0));
    assert_eq!(snek_error(-3), ("an error ocurred -3".to_string(), -3));
    assert_eq!(snek_error(77), ("an error ocurred 77".to_string(), 77));
}

#[test]
fn exit_status_is_the_low_half_of_the_number() {
    assert_eq!(snek_error(0x1_0000_0002).1, 2);
    assert_eq!(snek_error(0xffff_ffff).1, -1);
    assert_eq!(snek_error(i64::MIN).1, 0);
    assert_eq!(snek_error(0x1_0000_0002).0, "an error ocurred 4294967298");
}

#[test]
fn out_of_memory_report() {
    assert_eq!(out_of_memory(), ("out of memory".to_string(), 5));
    assert_eq!(out_of_memory().1 as i64, ErrCode::OutOfMemory.code());
}
