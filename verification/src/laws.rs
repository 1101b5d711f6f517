//! What holds of every collection.

use crate::heap::{lemma_edge_reachable, lemma_object_bounds, lemma_reachable_is_object};
use crate::heap::{lemma_root_reachable, HeapView};
use crate::layout::{block_end, is_block, tiled};
use crate::layout::{lemma_block_bounds, lemma_block_of_word, lemma_first_block};
use crate::relocate::{collected, live_extent};
use vstd::prelude::*;

verus! {

/// `b` is the start of an object or the frontier.
pub open spec fn is_boundary(h: HeapView, b: int) -> bool {
    b == h.frontier || h.is_object(b)
}

/// Walking from a block of a tiled run, the live words up to the end of a
/// later block are those up to its start and, if it is live, its own.
pub proof fn lemma_live_extent_step(
    words: Seq<u64>,
    live: Set<int>,
    from: int,
    limit: int,
    a: int,
)
    requires
        tiled(words, from, limit),
        is_block(words, from, limit, a),
    ensures
        live_extent(words, live, from, block_end(words, a)) == live_extent(words, live, from, a)
            + (if live.contains(a) {
            block_end(words, a) - a
        } else {
            0
        }),
        0 <= live_extent(words, live, from, a) <= a - from,
    decreases limit - from,
{
    lemma_block_bounds(words, from, limit, a);
    if from != a {
        lemma_first_block(words, from, limit);
        crate::layout::lemma_blocks_disjoint(words, from, limit, from, a);
        lemma_live_extent_step(words, live, block_end(words, from), limit, a);
    }
}

/// The new index of the place after an object is the object's new index
/// plus, if the object is live, its extent; and no new index lies above
/// the old one.
pub proof fn lemma_new_index_step(pre: HeapView, live: Set<int>, a: int)
    requires
        pre.wf(),
        pre.is_object(a),
    ensures
        pre.new_index(live, pre.end_of(a)) == pre.new_index(live, a) + (if live.contains(a) {
            pre.end_of(a) - a
        } else {
            0
        }),
        0 <= pre.new_index(live, a) <= a,
        pre.new_index(live, pre.end_of(a)) <= pre.end_of(a),
        is_boundary(pre, pre.end_of(a)),
{
    lemma_live_extent_step(pre.words, live, 0, pre.frontier, a);
    lemma_block_bounds(pre.words, 0, pre.frontier, a);
}

/// The new index of a boundary lies between zero and the boundary.
pub proof fn lemma_new_index_bounded(pre: HeapView, live: Set<int>, b: int)
    requires
        pre.wf(),
        is_boundary(pre, b),
    ensures
        0 <= pre.new_index(live, b) <= b,
{
    if pre.is_object(b) {
        lemma_new_index_step(pre, live, b);
    } else if pre.frontier > 0 {
        // the frontier is the end of the last object
        lemma_last_object(pre.words, 0, pre.frontier);
        let a = last_block(pre.words, 0, pre.frontier);
        lemma_new_index_step(pre, live, a);
    }
}

/// The start of the last block of a nonempty tiled run.
pub open spec fn last_block(words: Seq<u64>, from: int, limit: int) -> int
    decreases limit - from,
{
    if from < 0 || from + 2 > limit || block_end(words, from) >= limit {
        from
    } else {
        last_block(words, block_end(words, from), limit)
    }
}

/// The last block of a nonempty tiled run is a block of it and ends at the
/// limit.
pub proof fn lemma_last_object(words: Seq<u64>, from: int, limit: int)
    requires
        tiled(words, from, limit),
        from < limit,
    ensures
        is_block(words, from, limit, last_block(words, from, limit)),
        block_end(words, last_block(words, from, limit)) == limit,
    decreases limit - from,
{
    if block_end(words, from) < limit {
        lemma_last_object(words, block_end(words, from), limit);
    }
}

/// After a collection the words from the new index of any old boundary up
/// to the new frontier are a run of blocks.
pub proof fn lemma_post_tiled(
    pre: HeapView,
    stack: Seq<u64>,
    post: HeapView,
    post_stack: Seq<u64>,
    b: int,
)
    requires
        pre.wf(),
        collected(pre, stack, post, post_stack),
        is_boundary(pre, b),
    ensures
        tiled(post.words, pre.new_index(pre.live(stack), b), post.frontier),
        0 <= pre.new_index(pre.live(stack), b) <= post.frontier <= pre.frontier,
    decreases pre.frontier - b,
{
    let live = pre.live(stack);
    lemma_new_index_bounded(pre, live, pre.frontier);
    if b != pre.frontier {
        lemma_object_bounds(pre, b);
        lemma_new_index_step(pre, live, b);
        lemma_post_tiled(pre, stack, post, post_stack, pre.end_of(b));
        if live.contains(b) {
            assert(post.words[pre.new_index(live, b) + 1] == pre.moved_word(live, b, 1));
        }
    }
}

/// After a collection every object of the heap is the image of a live
/// object of the heap before.
pub proof fn lemma_post_object_source(
    pre: HeapView,
    stack: Seq<u64>,
    post: HeapView,
    post_stack: Seq<u64>,
    b: int,
    x: int,
) -> (a: int)
    requires
        pre.wf(),
        collected(pre, stack, post, post_stack),
        is_boundary(pre, b),
        is_block(post.words, pre.new_index(pre.live(stack), b), post.frontier, x),
    ensures
        b <= a,
        pre.is_object(a),
        pre.live(stack).contains(a),
        pre.new_index(pre.live(stack), a) == x,
    decreases pre.frontier - b,
{
    let live = pre.live(stack);
    lemma_post_tiled(pre, stack, post, post_stack, b);
    if b == pre.frontier {
        assert(false);
        b
    } else {
        lemma_object_bounds(pre, b);
        lemma_new_index_step(pre, live, b);
        if live.contains(b) {
            assert(post.words[pre.new_index(live, b) + 1] == pre.moved_word(live, b, 1));
            if x == pre.new_index(live, b) {
                b
            } else {
                lemma_post_object_source(pre, stack, post, post_stack, pre.end_of(b), x)
            }
        } else {
            lemma_post_object_source(pre, stack, post, post_stack, pre.end_of(b), x)
        }
    }
}

/// After a collection the image of every live object is an object.
pub proof fn lemma_post_object_image(
    pre: HeapView,
    stack: Seq<u64>,
    post: HeapView,
    post_stack: Seq<u64>,
    b: int,
    a: int,
)
    requires
        pre.wf(),
        collected(pre, stack, post, post_stack),
        is_boundary(pre, b),
        b <= a,
        pre.is_object(a),
        pre.live(stack).contains(a),
    ensures
        is_block(
            post.words,
            pre.new_index(pre.live(stack), b),
            post.frontier,
            pre.new_index(pre.live(stack), a),
        ),
    decreases pre.frontier - b,
{
    let live = pre.live(stack);
    lemma_post_tiled(pre, stack, post, post_stack, b);
    lemma_object_bounds(pre, a);
    lemma_object_bounds(pre, b);
    lemma_new_index_step(pre, live, b);
    let next = pre.end_of(b);
    lemma_post_tiled(pre, stack, post, post_stack, next);
    if live.contains(b) {
        assert(post.words[pre.new_index(live, b) + 1] == pre.moved_word(live, b, 1));
    }
    if b != a {
        crate::heap::lemma_objects_disjoint(pre, b, a);
        lemma_post_object_image(pre, stack, post, post_stack, next, a);
        lemma_block_bounds(
            post.words,
            pre.new_index(live, next),
            post.frontier,
            pre.new_index(live, a),
        );
    }
}

/// What a collection makes of a harmless word is harmless in the heap
/// after the collection.
pub proof fn lemma_forward_ok(
    pre: HeapView,
    stack: Seq<u64>,
    post: HeapView,
    post_stack: Seq<u64>,
    v: u64,
)
    requires
        pre.wf(),
        collected(pre, stack, post, post_stack),
        pre.value_ok(v),
        pre.in_range(v) ==> pre.live(stack).contains(pre.index_of(v)),
    ensures
        post.value_ok(pre.forward(pre.live(stack), v)),
        pre.in_range(v) ==> post.in_range(pre.forward(pre.live(stack), v)) && post.index_of(
            pre.forward(pre.live(stack), v),
        ) == pre.new_index(pre.live(stack), pre.index_of(v)) && post.is_object(
            pre.new_index(pre.live(stack), pre.index_of(v)),
        ),
        !pre.in_range(v) ==> !post.in_range(pre.forward(pre.live(stack), v)),
{
    let live = pre.live(stack);
    if pre.in_range(v) {
        let t = pre.index_of(v);
        lemma_object_bounds(pre, t);
        lemma_new_index_step(pre, live, t);
        if pre.frontier > 0 {
            lemma_first_block(pre.words, 0, pre.frontier);
        }
        lemma_post_object_image(pre, stack, post, post_stack, 0, t);
        let x = pre.new_index(live, t);
        let w = pre.forward(live, v);
        assert(w == pre.start + 8 * x + 1);
        assert((w - 1 - pre.start) == 8 * x);
        assert(w % 2 == 1);
    }
}

/// A collection leaves a well-formed heap and a stack that fits it.
pub proof fn lemma_collected_wf(
    pre: HeapView,
    stack: Seq<u64>,
    post: HeapView,
    post_stack: Seq<u64>,
)
    requires
        pre.wf(),
        pre.roots_ok(stack),
        collected(pre, stack, post, post_stack),
    ensures
        post.wf(),
        post.roots_ok(post_stack),
{
    let live = pre.live(stack);
    if pre.frontier > 0 {
        lemma_first_block(pre.words, 0, pre.frontier);
    }
    lemma_post_tiled(pre, stack, post, post_stack, 0);
    assert forall|x: int| #[trigger] post.is_object(x) implies post.words[x] == 0 by {
        let a = lemma_post_object_source(pre, stack, post, post_stack, 0, x);
        lemma_object_bounds(pre, a);
        assert(post.words[pre.new_index(live, a) + 0] == pre.moved_word(live, a, 0));
    }
    assert forall|x: int, j: int|
        post.is_object(x) && 0 <= j < post.size_of(x) implies post.value_ok(
        #[trigger] post.elem(x, j),
    ) by {
        let a = lemma_post_object_source(pre, stack, post, post_stack, 0, x);
        lemma_object_bounds(pre, a);
        assert(post.words[pre.new_index(live, a) + 1] == pre.moved_word(live, a, 1));
        assert(post.words[pre.new_index(live, a) + (2 + j)] == pre.moved_word(live, a, 2 + j));
        assert(pre.value_ok(pre.elem(a, j)));
        if pre.in_range(pre.elem(a, j)) {
            lemma_edge_reachable(pre, stack, a, j);
        }
        lemma_forward_ok(pre, stack, post, post_stack, pre.elem(a, j));
    }
    assert forall|i: int| 0 <= i < post_stack.len() implies post.value_ok(
        #[trigger] post_stack[i],
    ) by {
        assert(pre.value_ok(stack[i]));
        if pre.in_range(stack[i]) {
            lemma_root_reachable(pre, stack, i);
        }
        lemma_forward_ok(pre, stack, post, post_stack, stack[i]);
    }
}

/// What can be reached before a collection can be reached, at its new
/// index, after it.
pub proof fn lemma_reach_image(
    pre: HeapView,
    stack: Seq<u64>,
    post: HeapView,
    post_stack: Seq<u64>,
    n: nat,
    a: int,
)
    requires
        pre.wf(),
        pre.roots_ok(stack),
        collected(pre, stack, post, post_stack),
        pre.reach_within(stack, n, a),
    ensures
        post.reachable(post_stack, pre.new_index(pre.live(stack), a)),
    decreases n,
{
    let live = pre.live(stack);
    lemma_collected_wf(pre, stack, post, post_stack);
    if pre.frontier > 0 {
        lemma_first_block(pre.words, 0, pre.frontier);
    }
    if n == 0 {
        let i = choose|i: int|
            0 <= i < stack.len() && pre.in_range(#[trigger] stack[i]) && pre.index_of(stack[i])
                == a;
        lemma_root_reachable(pre, stack, i);
        lemma_forward_ok(pre, stack, post, post_stack, stack[i]);
        assert(post_stack[i] == pre.forward(live, stack[i]));
        lemma_root_reachable(post, post_stack, i);
    } else if pre.reach_within(stack, (n - 1) as nat, a) {
        lemma_reach_image(pre, stack, post, post_stack, (n - 1) as nat, a);
    } else {
        let b = choose|b: int|
            pre.reach_within(stack, (n - 1) as nat, b) && #[trigger] pre.edge(b, a);
        lemma_reach_image(pre, stack, post, post_stack, (n - 1) as nat, b);
        let j = choose|j: int|
            0 <= j < pre.size_of(b) && pre.in_range(#[trigger] pre.elem(b, j)) && pre.index_of(
                pre.elem(b, j),
            ) == a;
        assert(pre.reachable(stack, b));
        lemma_object_bounds(pre, b);
        lemma_edge_reachable(pre, stack, b, j);
        assert(pre.value_ok(pre.elem(b, j)));
        lemma_forward_ok(pre, stack, post, post_stack, pre.elem(b, j));
        lemma_post_object_image(pre, stack, post, post_stack, 0, b);
        let x = pre.new_index(live, b);
        assert(post.words[x + 1] == pre.moved_word(live, b, 1));
        assert(post.words[x + (2 + j)] == pre.moved_word(live, b, 2 + j));
        assert(post.elem(x, j) == pre.forward(live, pre.elem(b, j)));
        lemma_edge_reachable(post, post_stack, x, j);
    }
}

/// Reachability safety. After a collection, every object that could be
/// reached before stands at its new index, can still be reached, and has
/// the size and the elements that it had: an element that referred to an
/// object refers to that object's new place, every other element is the
/// same word.
pub proof fn lemma_live_object_survives(
    pre: HeapView,
    stack: Seq<u64>,
    post: HeapView,
    post_stack: Seq<u64>,
    a: int,
)
    requires
        pre.wf(),
        pre.roots_ok(stack),
        collected(pre, stack, post, post_stack),
        pre.reachable(stack, a),
    ensures
        post.is_object(pre.new_index(pre.live(stack), a)),
        post.reachable(post_stack, pre.new_index(pre.live(stack), a)),
        post.size_of(pre.new_index(pre.live(stack), a)) == pre.size_of(a),
        forall|j: int|
            0 <= j < pre.size_of(a) ==> {
                let before = #[trigger] pre.elem(a, j);
                let after = post.elem(pre.new_index(pre.live(stack), a), j);
                if pre.in_range(before) {
                    &&& pre.reachable(stack, pre.index_of(before))
                    &&& post.in_range(after)
                    &&& post.index_of(after) == pre.new_index(
                        pre.live(stack),
                        pre.index_of(before),
                    )
                } else {
                    after == before
                }
            },
{
    let live = pre.live(stack);
    let x = pre.new_index(live, a);
    lemma_reachable_is_object(pre, stack, a);
    lemma_object_bounds(pre, a);
    if pre.frontier > 0 {
        lemma_first_block(pre.words, 0, pre.frontier);
    }
    lemma_post_object_image(pre, stack, post, post_stack, 0, a);
    let n = choose|n: nat| pre.reach_within(stack, n, a);
    lemma_reach_image(pre, stack, post, post_stack, n, a);
    assert(post.words[x + 1] == pre.moved_word(live, a, 1));
    assert forall|j: int| 0 <= j < pre.size_of(a) implies {
        let before = #[trigger] pre.elem(a, j);
        let after = post.elem(x, j);
        if pre.in_range(before) {
            &&& pre.reachable(stack, pre.index_of(before))
            &&& post.in_range(after)
            &&& post.index_of(after) == pre.new_index(live, pre.index_of(before))
        } else {
            after == before
        }
    } by {
        assert(post.words[x + (2 + j)] == pre.moved_word(live, a, 2 + j));
        assert(pre.value_ok(pre.elem(a, j)));
        if pre.in_range(pre.elem(a, j)) {
            lemma_edge_reachable(pre, stack, a, j);
        }
        lemma_forward_ok(pre, stack, post, post_stack, pre.elem(a, j));
    }
}

/// After a collection, a stack word that referred to an object refers to
/// that object's new place, and every other stack word is the same word.
pub proof fn lemma_root_survives(
    pre: HeapView,
    stack: Seq<u64>,
    post: HeapView,
    post_stack: Seq<u64>,
    i: int,
)
    requires
        pre.wf(),
        pre.roots_ok(stack),
        collected(pre, stack, post, post_stack),
        0 <= i < stack.len(),
    ensures
        pre.in_range(stack[i]) ==> post.in_range(post_stack[i]) && post.index_of(post_stack[i])
            == pre.new_index(pre.live(stack), pre.index_of(stack[i])) && pre.reachable(
            stack,
            pre.index_of(stack[i]),
        ),
        !pre.in_range(stack[i]) ==> post_stack[i] == stack[i],
{
    assert(pre.value_ok(stack[i]));
    assert(post_stack[i] == pre.forward(pre.live(stack), stack[i]));
    if pre.in_range(stack[i]) {
        lemma_root_reachable(pre, stack, i);
    }
    lemma_forward_ok(pre, stack, post, post_stack, stack[i]);
}

/// After a collection, the objects of the heap are exactly the objects
/// that could be reached before, and the frontier is the sum of their
/// extents: two words and the elements for each.
pub proof fn lemma_only_live_objects_remain(
    pre: HeapView,
    stack: Seq<u64>,
    post: HeapView,
    post_stack: Seq<u64>,
    x: int,
)
    requires
        pre.wf(),
        pre.roots_ok(stack),
        collected(pre, stack, post, post_stack),
    ensures
        post.frontier == live_extent(pre.words, pre.live(stack), 0, pre.frontier),
        post.is_object(x) <==> exists|a: int|
            pre.reachable(stack, a) && #[trigger] pre.new_index(pre.live(stack), a) == x,
{
    let live = pre.live(stack);
    if pre.frontier > 0 {
        lemma_first_block(pre.words, 0, pre.frontier);
    }
    if post.is_object(x) {
        let a = lemma_post_object_source(pre, stack, post, post_stack, 0, x);
        assert(pre.reachable(stack, a) && pre.new_index(live, a) == x);
    }
    if exists|a: int| pre.reachable(stack, a) && #[trigger] pre.new_index(live, a) == x {
        let a = choose|a: int| pre.reachable(stack, a) && #[trigger] pre.new_index(live, a) == x;
        lemma_live_object_survives(pre, stack, post, post_stack, a);
    }
}

/// Where no stack word refers into the region, nothing can be reached.
pub proof fn lemma_no_roots_nothing_reachable(pre: HeapView, stack: Seq<u64>, a: int)
    requires
        forall|i: int| 0 <= i < stack.len() ==> !pre.in_range(#[trigger] stack[i]),
    ensures
        !pre.reachable(stack, a),
{
    if pre.reachable(stack, a) {
        let n = choose|n: nat| pre.reach_within(stack, n, a);
        lemma_no_roots_within(pre, stack, n, a);
    }
}

/// Where no stack word refers into the region, nothing can be reached in
/// any number of steps.
proof fn lemma_no_roots_within(pre: HeapView, stack: Seq<u64>, n: nat, a: int)
    requires
        forall|i: int| 0 <= i < stack.len() ==> !pre.in_range(#[trigger] stack[i]),
    ensures
        !pre.reach_within(stack, n, a),
    decreases n,
{
    if n > 0 {
        lemma_no_roots_within(pre, stack, (n - 1) as nat, a);
        assert forall|b: int| !(pre.reach_within(stack, (n - 1) as nat, b) && #[trigger] pre.edge(
            b,
            a,
        )) by {
            lemma_no_roots_within(pre, stack, (n - 1) as nat, b);
        }
    }
}

/// A collection with nothing reachable leaves an empty heap: the new
/// frontier is the start of the region.
pub proof fn lemma_nothing_live(
    pre: HeapView,
    stack: Seq<u64>,
    post: HeapView,
    post_stack: Seq<u64>,
)
    requires
        pre.wf(),
        pre.roots_ok(stack),
        collected(pre, stack, post, post_stack),
        forall|a: int| !pre.reachable(stack, a),
    ensures
        post.frontier == 0,
{
    lemma_no_live_extent(pre.words, pre.live(stack), 0, pre.frontier);
}

/// Where nothing is live, no words are.
proof fn lemma_no_live_extent(words: Seq<u64>, live: Set<int>, from: int, upto: int)
    requires
        forall|a: int| !live.contains(a),
    ensures
        live_extent(words, live, from, upto) == 0,
    decreases upto - from,
{
    if !(from < 0 || from + 1 >= words.len() || from >= upto) {
        if block_end(words, from) < upto {
            lemma_no_live_extent(words, live, block_end(words, from), upto);
        }
    }
}

/// Where every block of a tiled run is live, the live words below a
/// boundary of the run are all the words below it.
pub proof fn lemma_full_extent(words: Seq<u64>, live: Set<int>, from: int, limit: int, a: int)
    requires
        tiled(words, from, limit),
        is_block(words, from, limit, a) || a == limit,
        forall|x: int| #[trigger] is_block(words, from, limit, x) ==> live.contains(x),
    ensures
        live_extent(words, live, from, a) == a - from,
    decreases limit - from,
{
    if from != a {
        lemma_first_block(words, from, limit);
        lemma_block_bounds(words, from, limit, from);
        let next = block_end(words, from);
        if a != limit {
            lemma_block_bounds(words, next, limit, a);
        }
        assert forall|x: int| #[trigger] is_block(words, next, limit, x) implies live.contains(
            x,
        ) by {
            assert(is_block(words, from, limit, x));
        }
        if next < limit || a == limit {
            lemma_full_extent(words, live, next, limit, a);
        }
    } else if a == limit {
    } else {
        lemma_block_bounds(words, from, limit, a);
    }
}

/// Idempotence: a second collection right after a collection changes
/// nothing. The frontier, every word of the heap and every word of the
/// stack stay as the first collection left them.
pub proof fn lemma_collect_twice(
    pre: HeapView,
    stack: Seq<u64>,
    mid: HeapView,
    mid_stack: Seq<u64>,
    post: HeapView,
    post_stack: Seq<u64>,
)
    requires
        pre.wf(),
        pre.roots_ok(stack),
        collected(pre, stack, mid, mid_stack),
        collected(mid, mid_stack, post, post_stack),
    ensures
        post == mid,
        post_stack == mid_stack,
{
    let live = pre.live(stack);
    let live2 = mid.live(mid_stack);
    lemma_collected_wf(pre, stack, mid, mid_stack);
    if pre.frontier > 0 {
        lemma_first_block(pre.words, 0, pre.frontier);
    }
    assert forall|x: int| #[trigger] mid.is_object(x) implies live2.contains(x) by {
        let a = lemma_post_object_source(pre, stack, mid, mid_stack, 0, x);
        let n = choose|n: nat| pre.reach_within(stack, n, a);
        lemma_reach_image(pre, stack, mid, mid_stack, n, a);
    }
    assert forall|x: int| #[trigger] is_block(mid.words, 0, mid.frontier, x) implies live2.contains(
        x,
    ) by {
        assert(mid.is_object(x));
    }
    lemma_full_extent(mid.words, live2, 0, mid.frontier, mid.frontier);
    assert(post.frontier == mid.frontier);
    assert forall|v: u64| mid.value_ok(v) implies #[trigger] mid.forward(live2, v) == v by {
        if mid.in_range(v) {
            lemma_full_extent(mid.words, live2, 0, mid.frontier, mid.index_of(v));
        }
    }
    assert forall|i: int| 0 <= i < mid_stack.len() implies post_stack[i] == mid_stack[i] by {
        assert(mid.value_ok(mid_stack[i]));
        assert(post_stack[i] == mid.forward(live2, mid_stack[i]));
    }
    assert(post_stack =~= mid_stack);
    assert forall|i: int| 0 <= i < mid.words.len() implies post.words[i] == mid.words[i] by {
        if i < mid.frontier {
            lemma_block_of_word(mid.words, 0, mid.frontier, i);
            let x = mid.owner(i);
            let j = i - x;
            assert(mid.is_object(x));
            lemma_object_bounds(mid, x);
            lemma_full_extent(mid.words, live2, 0, mid.frontier, x);
            assert(mid.new_index(live2, x) == x);
            assert(live2.contains(x));
            assert(0 <= j < mid.end_of(x) - x);
            assert(post.words[mid.new_index(live2, x) + j] == mid.moved_word(live2, x, j));
            assert(post.words[i] == mid.moved_word(live2, x, j));
            if j >= 2 {
                assert(mid.value_ok(mid.elem(x, j - 2)));
                assert(mid.elem(x, j - 2) == mid.words[i]);
                assert(mid.forward(live2, mid.words[i]) == mid.words[i]);
            }
        } else {
            assert(post.words[i] == mid.residual_word(live2, mid.frontier, i));
        }
    }
    assert(post.words =~= mid.words);
}

/// The words that a collection makes of the words in `seen`.
pub open spec fn forwarded_set(pre: HeapView, live: Set<int>, seen: Set<u64>) -> Set<u64> {
    Set::new(|w: u64| exists|u: u64| seen.contains(u) && #[trigger] pre.forward(live, u) == w)
}

/// Every word in `seen` is the reference to a live object.
pub open spec fn seen_live(pre: HeapView, live: Set<int>, seen: Set<u64>) -> bool {
    forall|u: u64|
        #[trigger] seen.contains(u) ==> pre.refers_to_object(u) && live.contains(pre.index_of(u))
}

/// Two different live objects have different new indices.
pub proof fn lemma_new_index_injective(
    pre: HeapView,
    stack: Seq<u64>,
    post: HeapView,
    post_stack: Seq<u64>,
    a: int,
    b: int,
)
    requires
        pre.wf(),
        collected(pre, stack, post, post_stack),
        pre.is_object(a),
        pre.is_object(b),
        pre.live(stack).contains(a),
        pre.live(stack).contains(b),
        a < b,
    ensures
        pre.new_index(pre.live(stack), a) < pre.new_index(pre.live(stack), b),
{
    let live = pre.live(stack);
    lemma_object_bounds(pre, a);
    lemma_new_index_step(pre, live, a);
    crate::heap::lemma_objects_disjoint(pre, a, b);
    lemma_post_object_image(pre, stack, post, post_stack, pre.end_of(a), b);
    lemma_post_tiled(pre, stack, post, post_stack, pre.end_of(a));
    lemma_block_bounds(
        post.words,
        pre.new_index(live, pre.end_of(a)),
        post.frontier,
        pre.new_index(live, b),
    );
}

/// A harmless word is among the words being printed before a collection
/// exactly if what the collection makes of it is among what the
/// collection makes of them.
proof fn lemma_seen_kept(
    pre: HeapView,
    stack: Seq<u64>,
    post: HeapView,
    post_stack: Seq<u64>,
    v: u64,
    seen: Set<u64>,
)
    requires
        pre.wf(),
        pre.roots_ok(stack),
        collected(pre, stack, post, post_stack),
        pre.value_ok(v),
        pre.in_range(v) ==> pre.live(stack).contains(pre.index_of(v)),
        seen_live(pre, pre.live(stack), seen),
    ensures
        forwarded_set(pre, pre.live(stack), seen).contains(pre.forward(pre.live(stack), v))
            == seen.contains(v),
{
    let live = pre.live(stack);
    let w = pre.forward(live, v);
    lemma_forward_ok(pre, stack, post, post_stack, v);
    if seen.contains(v) {
        assert(forwarded_set(pre, live, seen).contains(w));
    }
    if forwarded_set(pre, live, seen).contains(w) {
        let u = choose|u: u64| seen.contains(u) && #[trigger] pre.forward(live, u) == w;
        assert(pre.refers_to_object(u));
        lemma_forward_ok(pre, stack, post, post_stack, u);
        // u is a reference into the region, so w is, and so v is
        let a = pre.index_of(u);
        let b = pre.index_of(v);
        if a < b {
            lemma_new_index_injective(pre, stack, post, post_stack, a, b);
        } else if b < a {
            lemma_new_index_injective(pre, stack, post, post_stack, b, a);
        }
        assert(u == v);
    }
}

/// A collection does not change what is printed: a harmless word whose
/// object, if it refers to one, is live prints after the collection, in
/// its forwarded form, as it printed before.
pub proof fn lemma_render_kept(
    pre: HeapView,
    stack: Seq<u64>,
    post: HeapView,
    post_stack: Seq<u64>,
    v: u64,
    seen: Set<u64>,
)
    requires
        pre.wf(),
        pre.roots_ok(stack),
        collected(pre, stack, post, post_stack),
        pre.value_ok(v),
        pre.in_range(v) ==> pre.live(stack).contains(pre.index_of(v)),
        seen_live(pre, pre.live(stack), seen),
    ensures
        post.render(
            pre.forward(pre.live(stack), v),
            forwarded_set(pre, pre.live(stack), seen),
        ) == pre.render(v, seen),
    decreases pre.unseen(seen).len(), 0nat, 0nat,
{
    let live = pre.live(stack);
    let w = pre.forward(live, v);
    let image = forwarded_set(pre, live, seen);
    lemma_forward_ok(pre, stack, post, post_stack, v);
    lemma_seen_kept(pre, stack, post, post_stack, v, seen);
    lemma_collected_wf(pre, stack, post, post_stack);
    if pre.in_range(v) {
        let a = pre.index_of(v);
        let x = pre.new_index(live, a);
        lemma_object_bounds(pre, a);
        lemma_object_bounds(post, x);
        assert(post.words[x + 1] == pre.moved_word(live, a, 1));
        assert(pre.holds_vec(v));
        assert(post.holds_vec(w));
        assert(w % 2 == 1);
        if !seen.contains(v) {
            crate::printer::lemma_unseen_shrinks(pre, v, seen);
            let inner = seen.insert(v);
            assert(seen_live(pre, live, inner));
            lemma_render_elems_kept(pre, stack, post, post_stack, a, 0, inner);
            assert(forwarded_set(pre, live, inner) =~= image.insert(w)) by {
                assert forall|y: u64|
                    forwarded_set(pre, live, inner).contains(y) implies image.insert(
                    w,
                ).contains(y) by {
                    let u = choose|u: u64|
                        inner.contains(u) && #[trigger] pre.forward(live, u) == y;
                    if u != v {
                        assert(seen.contains(u));
                    }
                }
                assert forall|y: u64| image.insert(w).contains(y) implies forwarded_set(
                    pre,
                    live,
                    inner,
                ).contains(y) by {
                    if y == w {
                        assert(inner.contains(v) && pre.forward(live, v) == y);
                    } else {
                        let u = choose|u: u64|
                            seen.contains(u) && #[trigger] pre.forward(live, u) == y;
                        assert(inner.contains(u));
                    }
                }
            }
        }
    } else {
        assert(w == v);
        if crate::value::is_ref_word(v) && !seen.contains(v) {
            assert(!pre.holds_vec(v));
            assert(!post.holds_vec(v));
        }
    }
}

/// A collection does not change what the elements of a live object print
/// as.
pub proof fn lemma_render_elems_kept(
    pre: HeapView,
    stack: Seq<u64>,
    post: HeapView,
    post_stack: Seq<u64>,
    a: int,
    j: int,
    seen: Set<u64>,
)
    requires
        pre.wf(),
        pre.roots_ok(stack),
        collected(pre, stack, post, post_stack),
        pre.is_object(a),
        pre.live(stack).contains(a),
        0 <= j,
        seen_live(pre, pre.live(stack), seen),
    ensures
        post.render_elems(
            pre.new_index(pre.live(stack), a),
            j,
            forwarded_set(pre, pre.live(stack), seen),
        ) == pre.render_elems(a, j, seen),
    decreases pre.unseen(seen).len(), 1nat, pre.size_of(a) - j,
{
    let live = pre.live(stack);
    let x = pre.new_index(live, a);
    lemma_object_bounds(pre, a);
    assert(post.words[x + 1] == pre.moved_word(live, a, 1));
    if j < pre.size_of(a) {
        assert(post.words[x + (2 + j)] == pre.moved_word(live, a, 2 + j));
        assert(post.elem(x, j) == pre.forward(live, pre.elem(a, j)));
        assert(pre.value_ok(pre.elem(a, j)));
        if pre.in_range(pre.elem(a, j)) {
            lemma_edge_reachable(pre, stack, a, j);
        }
        lemma_render_kept(pre, stack, post, post_stack, pre.elem(a, j), seen);
        lemma_render_elems_kept(pre, stack, post, post_stack, a, j + 1, seen);
    }
}

/// A collection does not change what is printed for a word of the stack.
pub proof fn lemma_collection_keeps_text(
    pre: HeapView,
    stack: Seq<u64>,
    post: HeapView,
    post_stack: Seq<u64>,
    i: int,
)
    requires
        pre.wf(),
        pre.roots_ok(stack),
        collected(pre, stack, post, post_stack),
        0 <= i < stack.len(),
    ensures
        post.render(post_stack[i], Set::empty()) == pre.render(stack[i], Set::empty()),
{
    let live = pre.live(stack);
    let none = Set::<u64>::empty();
    assert(pre.value_ok(stack[i]));
    if pre.in_range(stack[i]) {
        lemma_root_reachable(pre, stack, i);
    }
    lemma_render_kept(pre, stack, post, post_stack, stack[i], none);
    assert(forwarded_set(pre, live, none) =~= none);
    assert(post_stack[i] == pre.forward(live, stack[i]));
}

} // verus!
