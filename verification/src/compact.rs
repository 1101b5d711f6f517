//! The phases of a collection after marking: forwarding references are
//! assigned, references are renewed, and the live objects are moved
//! together at the start of the region.

use crate::heap::{lemma_edge_reachable, lemma_object_bounds};
use crate::heap::{lemma_root_reachable, Heap, HeapView};
use crate::layout::lemma_block_of_word;
use crate::mark::{lemma_root_slots_are_roots, marking, root_slots};
use crate::relocate::{cursor, lemma_below_cursor, lemma_between_cursors, lemma_owner};
use crate::relocate::{lemma_prefix_bounded, lemma_prefix_is_new_index, prefix_extent};
use crate::relocate::{lemma_prefix_monotone, sorted_live};
use vstd::prelude::*;

verus! {

/// The heap has the place, the size and the frontier of the heap before the
/// collection.
pub open spec fn same_shape(pre: HeapView, cur: HeapView) -> bool {
    &&& cur.start == pre.start
    &&& cur.frontier == pre.frontier
    &&& cur.words.len() == pre.words.len()
}

/// Address assignment: walks the live objects in ascending order, gives
/// each the next free place counted from the start of the region, and
/// writes the reference to that place into the object's header.
pub(crate) fn fwd_headers(
    heap: &mut Heap,
    live: &Vec<usize>,
    Ghost(pre): Ghost<HeapView>,
    Ghost(stack): Ghost<Seq<u64>>,
)
    requires
        marking(pre, stack, old(heap)@, live@),
        sorted_live(pre, pre.live(stack), live@),
    ensures
        same_shape(pre, final(heap)@),
        forall|i: int|
            0 <= i < pre.words.len() ==> #[trigger] final(heap)@.words[i] == pre.forwarding_word(
                pre.live(stack),
                pre.frontier,
                i,
            ),
{
    let ghost alive = pre.live(stack);
    let mut move_to: usize = 0;
    let mut k: usize = 0;
    proof {
        assert forall|i: int| 0 <= i < pre.words.len() implies #[trigger] heap@.words[i]
            == pre.forwarding_word(alive, cursor(pre, live@, 0), i) by {
            lemma_header_stage(pre, alive, live@, i);
        }
    }
    while k < live.len()
        invariant
            pre.wf(),
            same_shape(pre, heap@),
            sorted_live(pre, alive, live@),
            k <= live.len(),
            move_to == prefix_extent(pre.words, live@, k as int),
            forall|i: int|
                0 <= i < pre.words.len() ==> #[trigger] heap@.words[i] == pre.forwarding_word(
                    alive,
                    cursor(pre, live@, k as int),
                    i,
                ),
        decreases live.len() - k,
    {
        let from: usize = live[k];
        proof {
            lemma_object_bounds(pre, from as int);
            lemma_owner(pre, alive, from as int, from + 1);
            lemma_owner(pre, alive, from as int, from as int);
            lemma_prefix_bounded(pre, alive, live@, k as int);
            lemma_prefix_bounded(pre, alive, live@, k + 1);
            lemma_prefix_is_new_index(pre, alive, live@, k as int);
            lemma_below_cursor(pre, alive, live@, k as int, k as int);
        }
        let size: u64 = heap.words[from + 1];
        let ghost before = heap@;
        let forward: u64 = heap.start + 8 * (move_to as u64) + 1;
        heap.words.set(from, forward);
        move_to = move_to + 2 + size as usize;
        proof {
            assert forall|i: int| 0 <= i < pre.words.len() implies #[trigger] heap@.words[i]
                == pre.forwarding_word(alive, cursor(pre, live@, k + 1), i) by {
                assert(before.words[i] == pre.forwarding_word(
                    alive,
                    cursor(pre, live@, k as int),
                    i,
                ));
                if i != from && pre.in_live(alive, i) && i == pre.owner(i) && live@[k as int] <= i
                    < cursor(pre, live@, k + 1) {
                    lemma_between_cursors(pre, alive, live@, k as int, i);
                }
                if k + 1 < live.len() {
                    assert(live@[k as int] < live@[k + 1]);
                }
            }
        }
        k = k + 1;
    }
}

/// After marking, a header holds the mark exactly if its object is live;
/// this is the state in which address assignment starts.
proof fn lemma_header_stage(pre: HeapView, alive: Set<int>, lv: Seq<usize>, i: int)
    requires
        pre.wf(),
        sorted_live(pre, alive, lv),
        0 <= i < pre.words.len(),
    ensures
        pre.forwarding_word(alive, cursor(pre, lv, 0), i) == (if alive.contains(i) {
            1u64
        } else {
            pre.words[i]
        }),
{
    if alive.contains(i) {
        let m = choose|m: int| 0 <= m < lv.len() && #[trigger] lv[m] as int == i;
        lemma_object_bounds(pre, i);
        lemma_owner(pre, alive, i, i);
        if m > 0 {
            assert(lv[0] < lv[m]);
        }
    }
}

/// The headers of the live objects hold their forwarding references.
pub open spec fn headers_forwarded(pre: HeapView, alive: Set<int>, cur: HeapView) -> bool {
    forall|a: int|
        alive.contains(a) && pre.is_object(a) ==> #[trigger] cur.words[a] == pre.reference_to(
            pre.new_index(alive, a),
        )
}

/// The forwarding reference of the object that `v` refers to, read from
/// that object's header.
pub(crate) fn fwd_reference(
    heap: &Heap,
    v: u64,
    Ghost(pre): Ghost<HeapView>,
    Ghost(alive): Ghost<Set<int>>,
) -> (w: u64)
    requires
        pre.wf(),
        same_shape(pre, heap@),
        headers_forwarded(pre, alive, heap@),
        pre.in_range(v),
        pre.is_object(pre.index_of(v)),
        alive.contains(pre.index_of(v)),
    ensures
        w == pre.forward(alive, v),
{
    match heap.target(v) {
        Some(t) => heap.words[t],
        None => v,
    }
}

/// Renews the references among the elements of the live object at `a`.
pub(crate) fn fwd_vec(
    heap: &mut Heap,
    a: usize,
    Ghost(pre): Ghost<HeapView>,
    Ghost(stack): Ghost<Seq<u64>>,
)
    requires
        pre.wf(),
        same_shape(pre, old(heap)@),
        pre.is_object(a as int),
        pre.reachable(stack, a as int),
        forall|i: int|
            0 <= i < pre.words.len() ==> #[trigger] old(heap)@.words[i] == pre.rewriting_word(
                pre.live(stack),
                a as int,
                0,
                i,
            ),
    ensures
        same_shape(pre, final(heap)@),
        forall|i: int|
            0 <= i < pre.words.len() ==> #[trigger] final(heap)@.words[i] == pre.rewriting_word(
                pre.live(stack),
                a as int,
                pre.size_of(a as int),
                i,
            ),
{
    let ghost alive = pre.live(stack);
    proof {
        lemma_object_bounds(pre, a as int);
        lemma_owner(pre, alive, a as int, a + 1);
    }
    let size: u64 = heap.words[a + 1];
    let mut j: u64 = 0;
    while j < size
        invariant
            pre.wf(),
            same_shape(pre, heap@),
            pre.is_object(a as int),
            pre.reachable(stack, a as int),
            alive == pre.live(stack),
            size == pre.size_of(a as int),
            j <= size,
            forall|i: int|
                0 <= i < pre.words.len() ==> #[trigger] heap@.words[i] == pre.rewriting_word(
                    alive,
                    a as int,
                    j as int,
                    i,
                ),
        decreases size - j,
    {
        proof {
            lemma_object_bounds(pre, a as int);
            lemma_owner(pre, alive, a as int, a + 2 + j);
        }
        let at: usize = a + 2 + j as usize;
        let v: u64 = heap.words[at];
        assert(v == pre.elem(a as int, j as int));
        let ghost before = heap@;
        if heap.target(v).is_some() {
            proof {
                lemma_edge_reachable(pre, stack, a as int, j as int);
                let t = pre.index_of(v);
                lemma_object_bounds(pre, t);
                lemma_owner(pre, alive, t, t);
                assert forall|b: int| alive.contains(b) && pre.is_object(b) implies
                    #[trigger] heap@.words[b] == pre.reference_to(pre.new_index(alive, b)) by {
                    lemma_object_bounds(pre, b);
                    lemma_owner(pre, alive, b, b);
                }
            }
            let w: u64 = fwd_reference(heap, v, Ghost(pre), Ghost(alive));
            heap.words.set(at, w);
        }
        proof {
            assert forall|i: int| 0 <= i < pre.words.len() implies #[trigger] heap@.words[i]
                == pre.rewriting_word(alive, a as int, j + 1, i) by {
                assert(before.words[i] == pre.rewriting_word(alive, a as int, j as int, i));
            }
        }
        j = j + 1;
    }
}

/// Renews the references among the elements of every live object.
pub(crate) fn fwd_vecs(
    heap: &mut Heap,
    live: &Vec<usize>,
    Ghost(pre): Ghost<HeapView>,
    Ghost(stack): Ghost<Seq<u64>>,
)
    requires
        pre.wf(),
        pre.roots_ok(stack),
        same_shape(pre, old(heap)@),
        sorted_live(pre, pre.live(stack), live@),
        forall|i: int|
            0 <= i < pre.words.len() ==> #[trigger] old(heap)@.words[i] == pre.forwarding_word(
                pre.live(stack),
                pre.frontier,
                i,
            ),
    ensures
        same_shape(pre, final(heap)@),
        forall|i: int|
            0 <= i < pre.words.len() ==> #[trigger] final(heap)@.words[i] == pre.residual_word(
                pre.live(stack),
                0,
                i,
            ),
{
    let ghost alive = pre.live(stack);
    let mut k: usize = 0;
    proof {
        assert forall|i: int| 0 <= i < pre.words.len() implies #[trigger] heap@.words[i]
            == pre.rewriting_word(alive, cursor(pre, live@, 0), 0, i) by {
            if pre.in_live(alive, i) {
                lemma_owner_below_first(pre, alive, live@, i);
            }
        }
    }
    while k < live.len()
        invariant
            pre.wf(),
            pre.roots_ok(stack),
            same_shape(pre, heap@),
            alive == pre.live(stack),
            sorted_live(pre, alive, live@),
            k <= live.len(),
            forall|i: int|
                0 <= i < pre.words.len() ==> #[trigger] heap@.words[i] == pre.rewriting_word(
                    alive,
                    cursor(pre, live@, k as int),
                    0,
                    i,
                ),
        decreases live.len() - k,
    {
        let a: usize = live[k];
        proof {
            lemma_below_cursor(pre, alive, live@, k as int, k as int);
        }
        fwd_vec(heap, a, Ghost(pre), Ghost(stack));
        proof {
            assert forall|i: int| 0 <= i < pre.words.len() implies #[trigger] heap@.words[i]
                == pre.rewriting_word(alive, cursor(pre, live@, k + 1), 0, i) by {
                assert(heap@.words[i] == pre.rewriting_word(
                    alive,
                    a as int,
                    pre.size_of(a as int),
                    i,
                ));
                if pre.in_live(alive, i) {
                    let o = pre.owner(i);
                    lemma_block_of_word(pre.words, 0, pre.frontier, i);
                    lemma_object_bounds(pre, o);
                    if a <= o < cursor(pre, live@, k + 1) {
                        lemma_between_cursors(pre, alive, live@, k as int, o);
                    }
                    if k + 1 < live.len() {
                        assert(live@[k as int] < live@[k + 1]);
                    } else {
                        lemma_object_bounds(pre, a as int);
                    }
                }
            }
        }
        k = k + 1;
    }
    proof {
        assert forall|i: int| 0 <= i < pre.words.len() implies #[trigger] heap@.words[i]
            == pre.residual_word(alive, 0, i) by {
            assert(heap@.words[i] == pre.rewriting_word(alive, pre.frontier, 0, i));
            if pre.in_live(alive, i) {
                lemma_block_of_word(pre.words, 0, pre.frontier, i);
                lemma_object_bounds(pre, pre.owner(i));
            }
        }
    }
}

/// No live object lies below the first entry of the sorted list.
proof fn lemma_owner_below_first(pre: HeapView, alive: Set<int>, lv: Seq<usize>, i: int)
    requires
        pre.wf(),
        sorted_live(pre, alive, lv),
        pre.in_live(alive, i),
    ensures
        cursor(pre, lv, 0) <= pre.owner(i) <= i < pre.frontier,
        pre.is_object(pre.owner(i)),
{
    let o = pre.owner(i);
    lemma_block_of_word(pre.words, 0, pre.frontier, i);
    let m = choose|m: int| 0 <= m < lv.len() && #[trigger] lv[m] as int == o;
    if m > 0 {
        assert(lv[0] < lv[m]);
    }
}

/// Renews the references in the root slots of the stack.
pub(crate) fn fwd_roots(
    heap: &Heap,
    stack: &mut Vec<u64>,
    roots: &Vec<usize>,
    Ghost(pre): Ghost<HeapView>,
)
    requires
        pre.wf(),
        pre.roots_ok(old(stack)@),
        same_shape(pre, heap@),
        roots@ == root_slots(pre, old(stack)@, 0),
        headers_forwarded(pre, pre.live(old(stack)@), heap@),
    ensures
        final(stack)@.len() == old(stack)@.len(),
        forall|i: int|
            0 <= i < old(stack)@.len() ==> #[trigger] final(stack)@[i] == pre.forward(
                pre.live(old(stack)@),
                old(stack)@[i],
            ),
{
    let ghost stack0 = stack@;
    let ghost alive = pre.live(stack0);
    let slots: usize = stack.len();
    proof {
        lemma_root_slots_are_roots(pre, stack0, 0);
        assert forall|i: int|
            0 <= i < stack0.len() && i > slot_bound(roots@, 0) implies pre.forward(
            alive,
            stack0[i],
        ) == stack0[i] by {
            lemma_unlisted_slot(pre, stack0, roots@, 0, i);
        }
    }
    let mut k: usize = 0;
    while k < roots.len()
        invariant
            pre.wf(),
            pre.roots_ok(stack0),
            same_shape(pre, heap@),
            headers_forwarded(pre, alive, heap@),
            alive == pre.live(stack0),
            roots@ == root_slots(pre, stack0, 0),
            slots == stack0.len(),
            stack@.len() == stack0.len(),
            k <= roots.len(),
            forall|i: int|
                0 <= i < stack0.len() ==> #[trigger] stack@[i] == (if i > slot_bound(
                    roots@,
                    k as int,
                ) {
                    pre.forward(alive, stack0[i])
                } else {
                    stack0[i]
                }),
        decreases roots.len() - k,
    {
        proof {
            lemma_root_slots_are_roots(pre, stack0, 0);
        }
        let r: usize = roots[k];
        let v: u64 = stack[r];
        proof {
            lemma_root_reachable(pre, stack0, r as int);
        }
        let w: u64 = fwd_reference(heap, v, Ghost(pre), Ghost(alive));
        let ghost before = stack@;
        stack.set(r, w);
        proof {
            assert forall|i: int| 0 <= i < stack0.len() implies #[trigger] stack@[i] == (if i
                > slot_bound(roots@, k + 1) {
                pre.forward(alive, stack0[i])
            } else {
                stack0[i]
            }) by {
                if slot_bound(roots@, k + 1) < i < r {
                    lemma_unlisted_slot(pre, stack0, roots@, k + 1, i);
                }
                assert(before[i] == (if i > slot_bound(roots@, k as int) {
                    pre.forward(alive, stack0[i])
                } else {
                    stack0[i]
                }));
                if k + 1 < roots.len() {
                    assert(roots@[k as int] > roots@[k + 1]);
                }
            }
        }
        k = k + 1;
    }
}

/// The slot of entry `k` of the root list, or -1 past its end: the slots
/// above it have been dealt with when the first `k` entries have been.
pub open spec fn slot_bound(roots: Seq<usize>, k: int) -> int {
    if 0 <= k < roots.len() {
        roots[k] as int
    } else {
        -1
    }
}

/// A slot strictly between two neighbouring entries of the root list, or
/// above the first, holds no reference into the heap.
proof fn lemma_unlisted_slot(pre: HeapView, stack: Seq<u64>, roots: Seq<usize>, k: int, i: int)
    requires
        roots == root_slots(pre, stack, 0),
        stack.len() <= usize::MAX,
        0 <= k <= roots.len(),
        0 <= i < stack.len(),
        slot_bound(roots, k) < i,
        k > 0 ==> i < roots[k - 1],
    ensures
        !pre.in_range(stack[i]),
        pre.forward(pre.live(stack), stack[i]) == stack[i],
{
    lemma_root_slots_are_roots(pre, stack, 0);
    if pre.in_range(stack[i]) {
        assert(roots.contains(i as usize));
        let m = choose|m: int| 0 <= m < roots.len() && roots[m] == i as usize;
        if m < k {
            if m < k - 1 {
                assert(roots[m] > roots[k - 1]);
            }
        } else {
            if m > k {
                assert(roots[k] > roots[m]);
            }
        }
    }
}

/// Compaction: walks the live objects in ascending order and copies each
/// to its new place, with a clear header. Gives the index one past the last
/// moved object.
pub(crate) fn compact(
    heap: &mut Heap,
    live: &Vec<usize>,
    Ghost(pre): Ghost<HeapView>,
    Ghost(alive): Ghost<Set<int>>,
) -> (frontier: usize)
    requires
        pre.wf(),
        same_shape(pre, old(heap)@),
        sorted_live(pre, alive, live@),
        forall|i: int|
            0 <= i < pre.words.len() ==> #[trigger] old(heap)@.words[i] == pre.residual_word(
                alive,
                0,
                i,
            ),
    ensures
        same_shape(pre, final(heap)@),
        frontier == pre.new_index(alive, pre.frontier),
        frontier <= pre.frontier,
        forall|a: int, j: int|
            alive.contains(a) && 0 <= j < pre.end_of(a) - a ==> final(heap)@.words[pre.new_index(
                alive,
                a,
            ) + j] == #[trigger] pre.moved_word(alive, a, j),
        forall|i: int|
            frontier <= i < pre.words.len() ==> #[trigger] final(heap)@.words[i]
                == pre.residual_word(alive, pre.frontier, i),
{
    let mut to: usize = 0;
    let mut k: usize = 0;
    proof {
        assert forall|i: int| 0 <= i < pre.words.len() implies #[trigger] heap@.words[i]
            == pre.residual_word(alive, cursor(pre, live@, 0), i) by {
            if pre.in_live(alive, i) {
                lemma_owner_below_first(pre, alive, live@, i);
            }
        }
    }
    while k < live.len()
        invariant
            pre.wf(),
            same_shape(pre, heap@),
            sorted_live(pre, alive, live@),
            k <= live.len(),
            to == prefix_extent(pre.words, live@, k as int),
            forall|m: int, j: int|
                0 <= m < k && 0 <= j < pre.end_of(live@[m] as int) - live@[m]
                    ==> heap@.words[prefix_extent(pre.words, live@, m) + j]
                    == #[trigger] pre.moved_word(alive, live@[m] as int, j),
            forall|i: int|
                to <= i < pre.words.len() ==> #[trigger] heap@.words[i] == pre.residual_word(
                    alive,
                    cursor(pre, live@, k as int),
                    i,
                ),
        decreases live.len() - k,
    {
        let from: usize = live[k];
        let ghost next = cursor(pre, live@, k + 1);
        proof {
            lemma_object_bounds(pre, from as int);
            lemma_owner(pre, alive, from as int, from as int);
            lemma_owner(pre, alive, from as int, from + 1);
            lemma_prefix_bounded(pre, alive, live@, k as int);
            lemma_prefix_bounded(pre, alive, live@, k + 1);
            lemma_below_cursor(pre, alive, live@, k as int, k as int);
            if k + 1 < live.len() {
                assert(live@[k as int] < live@[k + 1]);
            }
        }
        let size: u64 = heap.words[from + 1];
        let extent: usize = 2 + size as usize;
        let ghost entry = heap@;
        heap.words.set(from, 0);
        heap.words.set(to, 0);
        proof {
            assert forall|i: int| to + 1 <= i < pre.words.len() implies #[trigger] heap@.words[i]
                == pre.residual_word(alive, next, i) by {
                assert(entry.words[i] == pre.residual_word(alive, cursor(pre, live@, k as int), i));
                if i != from && pre.in_live(alive, i) && i == pre.owner(i) && from <= i < next {
                    lemma_between_cursors(pre, alive, live@, k as int, i);
                }
            }
        }
        let mut j: usize = 1;
        while j < extent
            invariant
                pre.wf(),
                same_shape(pre, heap@),
                sorted_live(pre, alive, live@),
                k < live.len(),
                from == live@[k as int],
                pre.is_object(from as int),
                alive.contains(from as int),
                extent == pre.end_of(from as int) - from,
                to <= from,
                from + extent <= pre.words.len(),
                1 <= j <= extent,
                next == cursor(pre, live@, k + 1),
                forall|i: int| 0 <= i < to ==> #[trigger] heap@.words[i] == entry.words[i],
                forall|i: int|
                    0 <= i < j ==> heap@.words[to + i] == #[trigger] pre.moved_word(
                        alive,
                        from as int,
                        i,
                    ),
                forall|i: int|
                    to + j <= i < pre.words.len() ==> #[trigger] heap@.words[i]
                        == pre.residual_word(alive, next, i),
            decreases extent - j,
        {
            proof {
                lemma_owner(pre, alive, from as int, from + j);
            }
            let w: u64 = heap.words[from + j];
            assert(w == pre.moved_word(alive, from as int, j as int));
            heap.words.set(to + j, w);
            j = j + 1;
        }
        proof {
            assert forall|m: int, i: int|
                0 <= m < k + 1 && 0 <= i < pre.end_of(live@[m] as int)
                    - live@[m] implies heap@.words[prefix_extent(pre.words, live@, m) + i]
                == #[trigger] pre.moved_word(alive, live@[m] as int, i) by {
                if m < k {
                    lemma_prefix_monotone(pre, alive, live@, m + 1, k as int);
                    lemma_prefix_bounded(pre, alive, live@, m);
                    assert(entry.words[prefix_extent(pre.words, live@, m) + i] == pre.moved_word(
                        alive,
                        live@[m] as int,
                        i,
                    ));
                }
            }
        }
        to = to + extent;
        k = k + 1;
    }
    proof {
        lemma_prefix_is_new_index(pre, alive, live@, live@.len() as int);
        lemma_prefix_bounded(pre, alive, live@, live@.len() as int);
        assert forall|a: int, j: int|
            alive.contains(a) && 0 <= j < pre.end_of(a) - a implies heap@.words[pre.new_index(
            alive,
            a,
        ) + j] == #[trigger] pre.moved_word(alive, a, j) by {
            let m = choose|m: int| 0 <= m < live@.len() && #[trigger] live@[m] as int == a;
            lemma_prefix_is_new_index(pre, alive, live@, m);
        }
    }
    to
}

} // verus!
