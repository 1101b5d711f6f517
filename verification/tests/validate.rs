use snek_runtime::heap::Heap;

const START: u64 = 0x1000;

fn reference(index: usize) -> u64 {
    START + 8 * index as u64 + 1
}

fn sample() -> Heap {
    let mut heap = Heap::new(START, 12).unwrap();
    let a = heap.write_vec(&vec![2, 4]);
    let _b = heap.write_vec(&vec![a, 1, 7]);
    heap
}

#[test]
fn built_heaps_are_well_formed() {
    let heap = sample();
    assert!(heap.is_bounded());
    assert!(heap.is_well_formed());
    assert!(heap.is_collectable(&vec![reference(0), reference(4), 10, 0x40_0001, START + 8 * 12 + 1]));
    assert_eq!(
        heap.object_starts(),
        Some(vec![true, false, false, false, true, false, false, false, false, false, false, false])
    );
}

#[test]
fn a_region_without_a_place_is_refused() {
    let mut heap = sample();
    heap.start = 0;
    assert!(!heap.is_bounded());
    assert!(!heap.is_well_formed());
    heap.start = 0x1004;
    assert!(!heap.is_bounded());
    heap.start = u64::MAX - 7;
    assert!(!heap.is_bounded());
    heap.start = START;
    heap.frontier = 13;
    assert!(!heap.is_bounded());
    assert!(!heap.is_collectable(&vec![]));
}

#[test]
fn a_frontier_inside_an_object_is_refused() {
    let mut heap = sample();
    heap.frontier = 8;
    assert_eq!(heap.object_starts(), None);
    assert!(!heap.is_well_formed());
    heap.frontier = 5;
    assert_eq!(heap.object_starts(), None);
    heap.frontier = 4;
    assert!(heap.is_well_formed());
}

#[test]
fn a_size_that_runs_past_the_frontier_is_refused() {
    let mut heap = sample();
    heap.words[5] = 4;
    assert_eq!(heap.object_starts(), None);
    heap.words[5] = u64::MAX;
    assert_eq!(heap.object_starts(), None);
    assert!(!heap.is_collectable(&vec![]));
}

#[test]
fn a_marked_header_is_refused() {
    let mut heap = sample();
    heap.words[4] = 1;
    assert!(heap.object_starts().is_some());
    assert!(!heap.is_well_formed());
}

#[test]
fn a_reference_into_the_middle_of_an_object_is_refused() {
    let mut heap = sample();
    heap.words[2] = reference(5);
    assert!(!heap.is_well_formed());
    let heap = sample();
    assert!(!heap.is_collectable(&vec![reference(1)]));
    assert!(!heap.is_collectable(&vec![reference(9)]));
    assert!(!heap.is_collectable(&vec![reference(0) + 2]));
}

#[test]
fn a_reference_out_of_the_region_is_harmless() {
    let mut heap = sample();
    heap.words[2] = 0x40_0001;
    assert!(heap.is_well_formed());
    assert!(heap.is_collectable(&vec![reference(0), 0x40_0001, 5]));
}
