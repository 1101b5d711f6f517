use snek_runtime::collector::{allocate, snek_gc, snek_try_gc};
use snek_runtime::fault::{out_of_memory, ErrCode};
use snek_runtime::heap::Heap;
use snek_runtime::mark::{find_root_ptrs, mark_from_roots, sort_live};

const START: u64 = 0x1000;

fn reference(index: usize) -> u64 {
    START + 8 * index as u64 + 1
}

/// Writes an object at the frontier without asking for room.
fn put(heap: &mut Heap, elems: &[u64]) -> u64 {
    assert!(heap.frontier + 2 + elems.len() <= heap.words.len());
    heap.write_vec(&elems.to_vec())
}

fn collect(heap: &mut Heap, stack: &mut Vec<u64>) -> u64 {
    assert!(heap.is_collectable(stack));
    let frontier = snek_gc(heap, stack);
    assert!(heap.is_collectable(stack));
    assert_eq!(frontier, heap.start + 8 * heap.frontier as u64);
    frontier
}

#[test]
fn new_heap_is_empty_and_well_formed() {
    let heap = Heap::new(START, 16).unwrap();
    assert_eq!(heap.start, START);
    assert_eq!(heap.frontier, 0);
    assert_eq!(heap.words, vec![0u64; 16]);
    assert_eq!(heap.capacity(), 16);
    assert_eq!(heap.frontier_address(), START);
    assert_eq!(heap.end_address(), START + 128);
    assert!(heap.is_collectable(&vec![]));
}

#[test]
fn new_heap_needs_a_place() {
    assert!(Heap::new(0, 16).is_none());
    assert!(Heap::new(0x1004, 16).is_none());
    assert!(Heap::new(0xffff_ffff_ffff_fff8, 1).is_none());
    assert!(Heap::new(0xffff_ffff_ffff_fff0, 1).is_some());
    assert!(Heap::new(8, 0).is_some());
}

#[test]
fn target_tells_references_into_the_region() {
    let heap = Heap::new(START, 4).unwrap();
    assert_eq!(heap.target(reference(0)), Some(0));
    assert_eq!(heap.target(reference(3)), Some(3));
    assert_eq!(heap.target(reference(4)), None);
    assert_eq!(heap.target(START - 7), None);
    assert_eq!(heap.target(START), None);
    assert_eq!(heap.target(1), None);
    assert_eq!(heap.target(3), None);
    assert_eq!(heap.target(7), None);
    assert_eq!(heap.target(START + 3), Some(0));
}

#[test]
fn collection_without_roots_empties_the_heap() {
    let mut heap = Heap::new(START, 16).unwrap();
    put(&mut heap, &[2, 4]);
    put(&mut heap, &[6]);
    let mut stack: Vec<u64> = vec![2, 7, 3, 1];
    let frontier = collect(&mut heap, &mut stack);
    assert_eq!(frontier, START);
    assert_eq!(heap.frontier, 0);
    assert_eq!(stack, vec![2, 7, 3, 1]);
}

#[test]
fn collection_of_an_empty_heap() {
    let mut heap = Heap::new(START, 0).unwrap();
    let mut stack: Vec<u64> = vec![];
    assert_eq!(collect(&mut heap, &mut stack), START);
    let mut heap = Heap::new(START, 8).unwrap();
    let mut stack: Vec<u64> = vec![10];
    assert_eq!(collect(&mut heap, &mut stack), START);
    assert_eq!(heap.words, vec![0u64; 8]);
}

#[test]
fn live_objects_are_packed_in_address_order() {
    let mut heap = Heap::new(START, 16).unwrap();
    let _dead = put(&mut heap, &[2]);
    let a = put(&mut heap, &[4, 1]);
    let _dead2 = put(&mut heap, &[]);
    let b = put(&mut heap, &[a, 8]);
    assert_eq!(a, reference(3));
    assert_eq!(b, reference(9));
    let mut stack: Vec<u64> = vec![b, 10];
    let frontier = collect(&mut heap, &mut stack);
    assert_eq!(frontier, START + 8 * 8);
    assert_eq!(heap.frontier, 8);
    assert_eq!(stack, vec![reference(4), 10]);
    assert_eq!(&heap.words[0..8], &[0, 2, 4, 1, 0, 2, reference(0), 8]);
}

#[test]
fn packing_follows_addresses_not_the_order_of_discovery() {
    let mut heap = Heap::new(START, 16).unwrap();
    let _dead = put(&mut heap, &[2]);
    let a = put(&mut heap, &[4]);
    let b = put(&mut heap, &[6, 8]);
    // The scan starts at the last slot, so b is found before a.
    let mut stack: Vec<u64> = vec![a, b];
    let roots = find_root_ptrs(&heap, &stack);
    assert_eq!(roots, vec![1, 0]);
    let mut probe = Heap { start: heap.start, words: heap.words.clone(), frontier: heap.frontier };
    let found = mark_from_roots(&mut probe, &stack, &roots);
    assert_eq!(found, vec![3, 6]);
    collect(&mut heap, &mut stack);
    assert_eq!(stack, vec![reference(0), reference(3)]);
    assert_eq!(heap.frontier, 7);
    assert_eq!(&heap.words[0..7], &[0, 1, 4, 0, 2, 6, 8]);
}

#[test]
fn sort_live_orders_addresses() {
    let mut live: Vec<usize> = vec![40, 3, 17, 0, 9];
    sort_live(&mut live);
    assert_eq!(live, vec![0, 3, 9, 17, 40]);
    let mut none: Vec<usize> = vec![];
    sort_live(&mut none);
    assert_eq!(none, Vec::<usize>::new());
}

#[test]
fn mark_lists_no_object_twice() {
    let mut heap = Heap::new(START, 32).unwrap();
    let shared = put(&mut heap, &[2]);
    let left = put(&mut heap, &[shared, shared]);
    let right = put(&mut heap, &[shared, left]);
    let cycle = put(&mut heap, &[1, right]);
    heap.vec_set(cycle, 0, cycle);
    heap.vec_set(shared, 0, cycle);
    let stack: Vec<u64> = vec![cycle, right, cycle, shared, left, left];
    let roots = find_root_ptrs(&heap, &stack);
    assert_eq!(roots, vec![5, 4, 3, 2, 1, 0]);
    let live = mark_from_roots(&mut heap, &stack, &roots);
    assert_eq!(live, vec![0, 3, 7, 11]);
}

#[test]
fn mark_sets_the_header_of_each_live_object() {
    let mut heap = Heap::new(START, 16).unwrap();
    let a = put(&mut heap, &[2]);
    let _dead = put(&mut heap, &[4]);
    let b = put(&mut heap, &[a]);
    let stack: Vec<u64> = vec![b];
    let roots = find_root_ptrs(&heap, &stack);
    let live = mark_from_roots(&mut heap, &stack, &roots);
    assert_eq!(live, vec![0, 6]);
    assert_eq!(&heap.words[0..9], &[1, 1, 2, 0, 1, 4, 1, 1, a]);
}

#[test]
fn self_cycle_survives() {
    let mut heap = Heap::new(START, 16).unwrap();
    let _dead = put(&mut heap, &[2, 2]);
    let me = put(&mut heap, &[1, 20]);
    heap.vec_set(me, 0, me);
    let mut stack: Vec<u64> = vec![me];
    collect(&mut heap, &mut stack);
    assert_eq!(stack, vec![reference(0)]);
    assert_eq!(heap.frontier, 4);
    assert_eq!(&heap.words[0..4], &[0, 2, reference(0), 20]);
}

#[test]
fn mutual_cycle_survives() {
    let mut heap = Heap::new(START, 16).unwrap();
    let a = put(&mut heap, &[1]);
    let _dead = put(&mut heap, &[]);
    let b = put(&mut heap, &[a]);
    heap.vec_set(a, 0, b);
    let mut stack: Vec<u64> = vec![10, b];
    collect(&mut heap, &mut stack);
    assert_eq!(stack, vec![10, reference(3)]);
    assert_eq!(heap.frontier, 6);
    assert_eq!(&heap.words[0..6], &[0, 1, reference(3), 0, 1, reference(0)]);
}

#[test]
fn shared_object_is_kept_once() {
    let mut heap = Heap::new(START, 24).unwrap();
    let _dead = put(&mut heap, &[0]);
    let shared = put(&mut heap, &[14]);
    let left = put(&mut heap, &[shared]);
    let right = put(&mut heap, &[shared]);
    let top = put(&mut heap, &[left, right, shared]);
    let mut stack: Vec<u64> = vec![top, shared];
    collect(&mut heap, &mut stack);
    // 3 + 3 + 3 + 5 words stay
    assert_eq!(heap.frontier, 14);
    assert_eq!(stack, vec![reference(9), reference(0)]);
    assert_eq!(
        &heap.words[0..14],
        &[0, 1, 14, 0, 1, reference(0), 0, 1, reference(0), 0, 3, reference(3), reference(6), reference(0)]
    );
}

#[test]
fn unreachable_cycle_is_dropped() {
    let mut heap = Heap::new(START, 16).unwrap();
    let a = put(&mut heap, &[1]);
    let b = put(&mut heap, &[a]);
    heap.vec_set(a, 0, b);
    let keep = put(&mut heap, &[12]);
    let mut stack: Vec<u64> = vec![keep];
    collect(&mut heap, &mut stack);
    assert_eq!(heap.frontier, 3);
    assert_eq!(stack, vec![reference(0)]);
    assert_eq!(&heap.words[0..3], &[0, 1, 12]);
}

#[test]
fn a_stack_word_that_looks_like_a_reference_keeps_its_object() {
    let mut heap = Heap::new(START, 16).unwrap();
    let forgotten = put(&mut heap, &[2]);
    let kept = put(&mut heap, &[4]);
    // Nothing says that the first word is a value; it is taken for one.
    let mut stack: Vec<u64> = vec![forgotten, kept];
    collect(&mut heap, &mut stack);
    assert_eq!(heap.frontier, 6);
    assert_eq!(&heap.words[0..6], &[0, 1, 2, 0, 1, 4]);
}

#[test]
fn stack_words_outside_the_region_are_left_alone() {
    let mut heap = Heap::new(START, 8).unwrap();
    let _dead = put(&mut heap, &[2]);
    let a = put(&mut heap, &[4]);
    let mut stack: Vec<u64> = vec![0x40_1235, 0x7ffc_0001, a, START - 7, START + 8 * 8 + 1, 1, 3, 7, 0];
    collect(&mut heap, &mut stack);
    assert_eq!(
        stack,
        vec![0x40_1235, 0x7ffc_0001, reference(0), START - 7, START + 8 * 8 + 1, 1, 3, 7, 0]
    );
}

#[test]
fn words_from_the_new_frontier_on_are_left_as_the_collection_passed_them() {
    let mut heap = Heap::new(START, 12).unwrap();
    let _dead = put(&mut heap, &[2]);
    let a = put(&mut heap, &[4, 6, 8]);
    let b = put(&mut heap, &[a]);
    heap.words[11] = 99;
    let mut stack: Vec<u64> = vec![b];
    collect(&mut heap, &mut stack);
    assert_eq!(heap.frontier, 8);
    assert_eq!(stack, vec![reference(5)]);
    // a moved from 3 to 0, b from 8 to 5; old b keeps a clear header, its
    // size and its renewed element; the word past the old frontier stays
    assert_eq!(heap.words, vec![0, 3, 4, 6, 8, 0, 1, reference(0), 0, 1, reference(0), 99]);
}

#[test]
fn collecting_twice_changes_nothing_more() {
    let mut heap = Heap::new(START, 32).unwrap();
    let _dead = put(&mut heap, &[2, 4, 6]);
    let a = put(&mut heap, &[1, 8]);
    let _dead2 = put(&mut heap, &[a]);
    let b = put(&mut heap, &[a, a, 3]);
    heap.vec_set(a, 0, b);
    let mut stack: Vec<u64> = vec![b, 5, a, 0x9999_9999];
    let first = collect(&mut heap, &mut stack);
    let words = heap.words.clone();
    let after = stack.clone();
    let second = collect(&mut heap, &mut stack);
    assert_eq!(first, second);
    assert_eq!(heap.words, words);
    assert_eq!(stack, after);
    let third = collect(&mut heap, &mut stack);
    assert_eq!(third, first);
    assert_eq!(heap.words, words);
}

#[test]
fn new_frontier_is_the_sum_of_the_live_extents() {
    let mut heap = Heap::new(START, 64).unwrap();
    let mut stack: Vec<u64> = vec![];
    let mut expected = 0;
    for size in 0..8usize {
        let r = put(&mut heap, &vec![2u64; size]);
        if size % 2 == 1 {
            stack.push(r);
            expected += 2 + size;
        }
    }
    collect(&mut heap, &mut stack);
    assert_eq!(heap.frontier, expected);
    assert_eq!(heap.frontier, 3 + 5 + 7 + 9);
}

#[test]
fn try_gc_reports_out_of_memory() {
    let mut heap = Heap::new(START, 5).unwrap();
    let mut stack: Vec<u64> = vec![];
    assert_eq!(snek_try_gc(7, &mut heap, &mut stack), Err(ErrCode::OutOfMemory));
    assert_eq!(snek_try_gc(6, &mut heap, &mut stack), Err(ErrCode::OutOfMemory));
    assert_eq!(snek_try_gc(5, &mut heap, &mut stack), Ok(START));
    assert_eq!(snek_try_gc(0, &mut heap, &mut stack), Ok(START));
    assert_eq!(snek_try_gc(-1, &mut heap, &mut stack), Ok(START));
}

#[test]
fn try_gc_gives_the_frontier_after_the_collection() {
    let mut heap = Heap::new(START, 8).unwrap();
    let _dead = put(&mut heap, &[2, 2]);
    let a = put(&mut heap, &[4, 4]);
    let mut stack: Vec<u64> = vec![a];
    assert_eq!(snek_try_gc(4, &mut heap, &mut stack), Ok(START + 32));
    assert_eq!(stack, vec![reference(0)]);
    assert_eq!(heap.frontier, 4);
    assert_eq!(snek_try_gc(5, &mut heap, &mut stack), Err(ErrCode::OutOfMemory));
    assert_eq!(heap.frontier, 4);
}

#[test]
fn allocation_with_room_collects_nothing() {
    let mut heap = Heap::new(START, 10).unwrap();
    let _dead = put(&mut heap, &[2, 2]);
    let words = heap.words.clone();
    let mut stack: Vec<u64> = vec![10];
    assert_eq!(allocate(6, &mut heap, &mut stack), Ok(START + 32));
    assert_eq!(heap.frontier, 4);
    assert_eq!(heap.words, words);
    assert_eq!(stack, vec![10]);
}

#[test]
fn allocation_without_room_collects_once() {
    let mut heap = Heap::new(START, 10).unwrap();
    let _dead = put(&mut heap, &[2, 2]);
    let a = put(&mut heap, &[4]);
    let mut stack: Vec<u64> = vec![a];
    assert_eq!(allocate(7, &mut heap, &mut stack), Ok(START + 24));
    assert_eq!(heap.frontier, 3);
    assert_eq!(stack, vec![reference(0)]);
    assert_eq!(&heap.words[0..3], &[0, 1, 4]);
}

#[test]
fn allocation_fails_when_the_collection_frees_too_little() {
    let mut heap = Heap::new(START, 10).unwrap();
    let _dead = put(&mut heap, &[2, 2]);
    let a = put(&mut heap, &[4]);
    let mut stack: Vec<u64> = vec![a];
    assert_eq!(allocate(8, &mut heap, &mut stack), Err(ErrCode::OutOfMemory));
    // the collection has run all the same
    assert_eq!(heap.frontier, 3);
    assert_eq!(stack, vec![reference(0)]);
    assert_eq!(out_of_memory(), ("out of memory".to_string(), 5));
}

#[test]
fn five_elements_do_not_fit_in_five_words() {
    let mut heap = Heap::new(START, 5).unwrap();
    let mut stack: Vec<u64> = vec![10];
    let count = 5 + 2;
    let r = allocate(count, &mut heap, &mut stack);
    assert_eq!(r, Err(ErrCode::OutOfMemory));
    assert_eq!(heap.frontier, 0);
    let (line, status) = out_of_memory();
    assert_eq!(line, "out of memory");
    assert_eq!(status as i64, ErrCode::OutOfMemory.code());
}

#[test]
fn write_vec_puts_an_object_at_the_frontier() {
    let mut heap = Heap::new(START, 8).unwrap();
    assert_eq!(heap.free_words(), 8);
    let a = heap.write_vec(&vec![2, 4]);
    assert_eq!(a, reference(0));
    assert_eq!(heap.frontier, 4);
    let b = heap.write_vec(&vec![a]);
    assert_eq!(b, reference(4));
    assert_eq!(heap.words, vec![0, 2, 2, 4, 0, 1, a, 0]);
    assert_eq!(heap.free_words(), 1);
    assert_eq!(heap.vec_len(a), 2);
    assert_eq!(heap.vec_get(a, 1), 4);
    assert_eq!(heap.vec_get(b, 0), a);
    heap.vec_set(a, 0, b);
    assert_eq!(heap.words, vec![0, 2, b, 4, 0, 1, a, 0]);
    assert!(heap.is_collectable(&vec![a, b]));
}
