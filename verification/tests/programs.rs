use snek_runtime::collector::allocate;
use snek_runtime::fault::{out_of_memory, ErrCode};
use snek_runtime::heap::Heap;
use snek_runtime::printer::snek_print;

const START: u64 = 0x10000;
const NIL: u64 = 1;

fn num(n: i64) -> u64 {
    (n << 1) as u64
}

/// What an element of a new vector is taken from: a word, or a stack slot
/// read after the allocation, when a collection may have renewed it.
#[derive(Clone, Copy)]
enum From {
    Word(u64),
    Slot(usize),
}

/// A program: a heap, a stack, and what has been printed.
struct Machine {
    heap: Heap,
    stack: Vec<u64>,
    printed: Vec<String>,
    collections: usize,
}

impl Machine {
    fn new(capacity: usize, slots: usize) -> Machine {
        Machine {
            heap: Heap::new(START, capacity).unwrap(),
            stack: vec![NIL; slots],
            printed: Vec::new(),
            collections: 0,
        }
    }

    /// Makes a vector by the allocation protocol and stores the reference
    /// to it in a stack slot.
    fn make_vec(&mut self, into: usize, elems: &[From]) -> Result<(), ErrCode> {
        assert!(self.heap.is_collectable(&self.stack));
        let count = elems.len() + 2;
        let had_room = self.heap.free_words() >= count;
        let before = self.heap.frontier_address();
        if !had_room {
            self.collections += 1;
        }
        let at = allocate(count, &mut self.heap, &mut self.stack)?;
        if had_room {
            assert_eq!(at, before);
        }
        assert_eq!(at, self.heap.frontier_address());
        let words: Vec<u64> = elems
            .iter()
            .map(|e| match e {
                From::Word(w) => *w,
                From::Slot(s) => self.stack[*s],
            })
            .collect();
        let r = self.heap.write_vec(&words);
        assert_eq!(r, at + 1);
        self.stack[into] = r;
        Ok(())
    }

    fn print(&mut self, slot: usize) {
        let v = self.stack[slot];
        assert!(self.heap.is_bounded());
        let (text, back) = snek_print(&self.heap, v);
        assert_eq!(back, v);
        self.printed.push(text);
    }

    /// Builds the list n-1, .., 1, 0 back to front in slot 0, so that it
    /// reads 0, 1, .., n-1.
    fn build_list(&mut self, n: i64) -> Result<(), ErrCode> {
        self.stack[0] = NIL;
        for i in (0..n).rev() {
            self.make_vec(0, &[From::Word(num(i)), From::Slot(0)])?;
        }
        Ok(())
    }

    /// Reverses the list in slot 0 into slot 1, letting go of each node
    /// of the old list as soon as it has been read.
    fn reverse_list(&mut self) -> Result<(), ErrCode> {
        self.stack[1] = NIL;
        while self.stack[0] != NIL {
            let head = self.heap.vec_get(self.stack[0], 0);
            self.make_vec(1, &[From::Word(head), From::Slot(1)])?;
            self.stack[0] = self.heap.vec_get(self.stack[0], 1);
        }
        Ok(())
    }
}

fn linked_lists(capacity: usize, upto: i64) -> (Result<(), ErrCode>, Vec<String>, usize) {
    let mut m = Machine::new(capacity, 1);
    let mut result = Ok(());
    for n in 0..=upto {
        result = m.build_list(n);
        if result.is_err() {
            break;
        }
        m.print(0);
    }
    (result, m.printed, m.collections)
}

const LISTS: [&str; 6] = [
    "nil",
    "[0, nil]",
    "[0, [1, nil]]",
    "[0, [1, [2, nil]]]",
    "[0, [1, [2, [3, nil]]]]",
    "[0, [1, [2, [3, [4, nil]]]]]",
];

#[test]
fn make_linked_lists_5_60_succ() {
    let (result, printed, collections) = linked_lists(60, 5);
    assert_eq!(result, Ok(()));
    assert_eq!(printed, LISTS);
    assert_eq!(collections, 0);
}

#[test]
fn make_linked_lists_5_20_succ() {
    let (result, printed, collections) = linked_lists(20, 5);
    assert_eq!(result, Ok(()));
    assert_eq!(printed, LISTS);
    assert!(collections > 0);
}

#[test]
fn make_linked_lists_5_19_oom() {
    let (result, printed, _) = linked_lists(19, 5);
    assert_eq!(result, Err(ErrCode::OutOfMemory));
    assert_eq!(printed, &LISTS[0..5]);
    assert_eq!(out_of_memory().0, "out of memory");
}

#[test]
fn make_vec_oom() {
    let mut m = Machine::new(5, 1);
    let r = m.make_vec(0, &[From::Word(num(0)); 5]);
    assert_eq!(r, Err(ErrCode::OutOfMemory));
    assert_eq!(m.collections, 1);
    assert_eq!(m.heap.frontier, 0);
    assert_eq!(out_of_memory(), ("out of memory".to_string(), 5));
}

fn make_vecs(capacity: usize, upto: usize) -> (Result<(), ErrCode>, Vec<String>) {
    let mut m = Machine::new(capacity, 1);
    for n in 0..=upto {
        // the vector before is let go
        m.stack[0] = NIL;
        let r = m.make_vec(0, &vec![From::Word(num(n as i64)); n]);
        if r.is_err() {
            return (r, m.printed);
        }
        m.print(0);
    }
    (Ok(()), m.printed)
}

#[test]
fn make_vecs_succ_5() {
    let (r, printed) = make_vecs(10000, 5);
    assert_eq!(r, Ok(()));
    assert_eq!(printed, ["[]", "[1]", "[2, 2]", "[3, 3, 3]", "[4, 4, 4, 4]", "[5, 5, 5, 5, 5]"]);
}

#[test]
fn make_vecs_5_succ_3() {
    let (r, printed) = make_vecs(5, 3);
    assert_eq!(r, Ok(()));
    assert_eq!(printed, ["[]", "[1]", "[2, 2]", "[3, 3, 3]"]);
}

#[test]
fn make_vecs_5_oom_4() {
    let (r, printed) = make_vecs(5, 4);
    assert_eq!(r, Err(ErrCode::OutOfMemory));
    assert_eq!(printed, ["[]", "[1]", "[2, 2]", "[3, 3, 3]"]);
}

#[test]
fn make_vecs_20_succ_5() {
    let (r, printed) = make_vecs(20, 5);
    assert_eq!(r, Ok(()));
    assert_eq!(printed, ["[]", "[1]", "[2, 2]", "[3, 3, 3]", "[4, 4, 4, 4]", "[5, 5, 5, 5, 5]"]);
}

fn build_print_reverse_print(capacity: usize) -> (Result<(), ErrCode>, Vec<String>, usize) {
    let mut m = Machine::new(capacity, 2);
    let mut result = m.build_list(5);
    if result.is_ok() {
        m.print(0);
        result = m.reverse_list();
    }
    if result.is_ok() {
        m.print(1);
    }
    (result, m.printed, m.collections)
}

#[test]
fn list_reversal_without_collections() {
    let (result, printed, collections) = build_print_reverse_print(60);
    assert_eq!(result, Ok(()));
    assert_eq!(collections, 0);
    assert_eq!(printed, ["[0, [1, [2, [3, [4, nil]]]]]", "[4, [3, [2, [1, [0, nil]]]]]"]);
}

#[test]
fn list_reversal_prints_the_same_with_collections_between() {
    let (result, printed, collections) = build_print_reverse_print(24);
    assert_eq!(result, Ok(()));
    assert_eq!(collections, 4);
    assert_eq!(printed, ["[0, [1, [2, [3, [4, nil]]]]]", "[4, [3, [2, [1, [0, nil]]]]]"]);
}

#[test]
fn list_reversal_runs_out_of_memory_in_a_heap_that_holds_only_the_list() {
    let (result, printed, _) = build_print_reverse_print(20);
    assert_eq!(result, Err(ErrCode::OutOfMemory));
    assert_eq!(printed, ["[0, [1, [2, [3, [4, nil]]]]]"]);
}

fn cycle_then_big_vector(capacity: usize) -> (Result<(), ErrCode>, Machine) {
    let mut m = Machine::new(capacity, 3);
    // two objects that refer to each other, and one that stands alone
    m.make_vec(0, &[From::Word(NIL), From::Word(num(1))]).unwrap();
    m.make_vec(1, &[From::Slot(0), From::Word(num(2))]).unwrap();
    let (a, b) = (m.stack[0], m.stack[1]);
    m.heap.vec_set(a, 0, b);
    m.make_vec(2, &[From::Word(num(5))]).unwrap();
    assert_eq!(m.heap.frontier, 11);
    assert_eq!(m.collections, 0);
    // the pair is let go
    m.stack[0] = NIL;
    m.stack[1] = NIL;
    let r = m.make_vec(0, &[From::Word(num(7)); 7]);
    (r, m)
}

#[test]
fn unrooted_cycle_makes_room_in_a_heap_that_barely_fits_the_rest() {
    let (r, mut m) = cycle_then_big_vector(12);
    assert_eq!(r, Ok(()));
    assert_eq!(m.collections, 1);
    assert_eq!(m.heap.frontier, 12);
    assert_eq!(m.stack, vec![START + 8 * 3 + 1, NIL, START + 1]);
    m.print(2);
    m.print(0);
    assert_eq!(m.printed, ["[5]", "[7, 7, 7, 7, 7, 7, 7]"]);
}

#[test]
fn unrooted_cycle_does_not_help_a_heap_one_word_too_small() {
    let (r, m) = cycle_then_big_vector(11);
    assert_eq!(r, Err(ErrCode::OutOfMemory));
    assert_eq!(m.collections, 1);
    assert_eq!(m.heap.frontier, 3);
}

#[test]
fn multiple_stack_references_succ() {
    let mut m = Machine::new(8, 3);
    for n in (1..=5).rev() {
        m.stack = vec![NIL; 3];
        m.make_vec(0, &[From::Word(num(n)), From::Word(NIL)]).unwrap();
        m.stack[1] = m.stack[0];
        m.stack[2] = m.stack[0];
        m.make_vec(0, &[From::Word(num(n + 1)), From::Word(NIL)]).unwrap();
        m.print(1);
        m.print(2);
        m.print(0);
        assert_eq!(m.stack[1], m.stack[2]);
    }
    assert_eq!(m.printed[0..6], ["[5, nil]", "[5, nil]", "[6, nil]", "[4, nil]", "[4, nil]", "[5, nil]"]);
    assert!(m.collections >= 4);
}

#[test]
fn multiple_stack_references_oom() {
    let mut m = Machine::new(7, 3);
    m.make_vec(0, &[From::Word(num(5)), From::Word(NIL)]).unwrap();
    m.stack[1] = m.stack[0];
    m.stack[2] = m.stack[0];
    let r = m.make_vec(0, &[From::Word(num(6)), From::Word(NIL)]);
    assert_eq!(r, Err(ErrCode::OutOfMemory));
}
