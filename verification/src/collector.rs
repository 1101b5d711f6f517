//! The collector and the allocation trap.

use crate::compact::{compact, fwd_headers, fwd_roots, fwd_vecs, headers_forwarded};
use crate::fault::ErrCode;
use crate::heap::{lemma_object_bounds, Heap};
use crate::laws::lemma_collected_wf;
use crate::mark::{find_root_ptrs, mark_from_roots};
use crate::relocate::{collected, lemma_owner};
use vstd::prelude::*;

verus! {

/// Collects garbage. Every object that cannot be reached from the stack is
/// dropped, the others are moved together at the start of the region in
/// the order of their addresses, and every reference to a moved object, on
/// the stack and in the heap, is renewed. Gives the address of the new
/// frontier.
pub fn snek_gc(heap: &mut Heap, stack: &mut Vec<u64>) -> (frontier: u64)
    requires
        old(heap)@.wf(),
        old(heap)@.roots_ok(old(stack)@),
    ensures
        collected(old(heap)@, old(stack)@, final(heap)@, final(stack)@),
        final(heap)@.wf(),
        final(heap)@.roots_ok(final(stack)@),
        frontier == final(heap).start + 8 * final(heap).frontier,
{
    let ghost pre = heap@;
    let ghost stack0 = stack@;
    let ghost alive = pre.live(stack0);
    let roots = find_root_ptrs(heap, stack);
    let live = mark_from_roots(heap, stack, &roots);
    fwd_headers(heap, &live, Ghost(pre), Ghost(stack0));
    proof {
        assert forall|a: int| alive.contains(a) && pre.is_object(a) implies
            #[trigger] heap@.words[a] == pre.reference_to(pre.new_index(alive, a)) by {
            lemma_object_bounds(pre, a);
            lemma_owner(pre, alive, a, a);
        }
        assert(headers_forwarded(pre, alive, heap@));
    }
    fwd_roots(heap, stack, &roots, Ghost(pre));
    fwd_vecs(heap, &live, Ghost(pre), Ghost(stack0));
    let frontier = compact(heap, &live, Ghost(pre), Ghost(alive));
    heap.frontier = frontier;
    proof {
        assert(collected(pre, stack0, heap@, stack@));
        lemma_collected_wf(pre, stack0, heap@, stack@);
    }
    heap.frontier_address()
}

/// The allocation trap: called when `count` words are wanted and do not fit
/// above the frontier. Collects garbage, and gives the address of the new
/// frontier if `count` words fit above it now. Otherwise the program is out
/// of memory. The heap and the stack are those that the collection left,
/// either way.
pub fn snek_try_gc(count: isize, heap: &mut Heap, stack: &mut Vec<u64>) -> (r: Result<u64, ErrCode>)
    requires
        old(heap)@.wf(),
        old(heap)@.roots_ok(old(stack)@),
    ensures
        collected(old(heap)@, old(stack)@, final(heap)@, final(stack)@),
        final(heap)@.wf(),
        final(heap)@.roots_ok(final(stack)@),
        r.is_ok() <==> final(heap).frontier + count <= final(heap).words.len(),
        r matches Ok(frontier) ==> frontier == final(heap).start + 8 * final(heap).frontier,
        r matches Err(fault) ==> fault == ErrCode::OutOfMemory,
{
    let frontier = snek_gc(heap, stack);
    let free: usize = heap.words.len() - heap.frontier;
    if count > 0 && count as usize > free {
        Err(ErrCode::OutOfMemory)
    } else {
        Ok(frontier)
    }
}

/// The allocation protocol for an object of `count` words, header and size
/// word included. Where `count` words fit above the frontier, nothing is
/// collected and nothing changes. Where they do not, garbage is collected
/// once, and the program is out of memory if they still do not fit. Gives
/// the address at which the object is to be written; to write it and to
/// move the frontier past it is left to the caller.
pub fn allocate(count: usize, heap: &mut Heap, stack: &mut Vec<u64>) -> (r: Result<u64, ErrCode>)
    requires
        old(heap)@.wf(),
        old(heap)@.roots_ok(old(stack)@),
    ensures
        final(heap)@.wf(),
        final(heap)@.roots_ok(final(stack)@),
        old(heap).frontier + count <= old(heap).words.len() ==> r.is_ok() && final(heap)@ == old(
            heap,
        )@ && final(stack)@ == old(stack)@,
        old(heap).frontier + count > old(heap).words.len() ==> collected(
            old(heap)@,
            old(stack)@,
            final(heap)@,
            final(stack)@,
        ),
        r.is_ok() <==> final(heap).frontier + count <= final(heap).words.len(),
        r matches Ok(frontier) ==> frontier == final(heap).start + 8 * final(heap).frontier,
        r matches Err(fault) ==> fault == ErrCode::OutOfMemory,
{
    if count <= heap.words.len() - heap.frontier {
        return Ok(heap.frontier_address());
    }
    let frontier = snek_gc(heap, stack);
    if count <= heap.words.len() - heap.frontier {
        Ok(frontier)
    } else {
        Err(ErrCode::OutOfMemory)
    }
}

} // verus!
