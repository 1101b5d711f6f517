//! Where a collection puts the live objects, and what each word of the heap
//! holds afterwards.

use crate::heap::{lemma_object_bounds, lemma_objects_disjoint, HeapView};
use crate::layout::{block_end, block_of};
use crate::layout::{lemma_block_bounds, lemma_block_of_unique, lemma_first_block};
use crate::mark::{addr_set, strictly_ascending};
use vstd::prelude::*;

verus! {

/// The number of words taken by the blocks that start in `[from, upto)` and
/// belong to `live`, walking from the block start `from`.
pub open spec fn live_extent(words: Seq<u64>, live: Set<int>, from: int, upto: int) -> int
    decreases upto - from,
{
    if from < 0 || from + 1 >= words.len() || from >= upto {
        0
    } else {
        let here = if live.contains(from) {
            block_end(words, from) - from
        } else {
            0
        };
        if block_end(words, from) >= upto {
            here
        } else {
            here + live_extent(words, live, block_end(words, from), upto)
        }
    }
}

/// The number of words taken by the first `k` blocks of the list.
pub open spec fn prefix_extent(words: Seq<u64>, lv: Seq<usize>, k: int) -> int
    decreases k,
{
    if k <= 0 {
        0
    } else {
        prefix_extent(words, lv, k - 1) + block_end(words, lv[k - 1] as int) - lv[k - 1]
    }
}

/// The list holds the live objects of the heap in ascending order.
pub open spec fn sorted_live(pre: HeapView, live: Set<int>, lv: Seq<usize>) -> bool {
    &&& strictly_ascending(lv)
    &&& addr_set(lv) == live
    &&& forall|k: int| 0 <= k < lv.len() ==> pre.is_object(#[trigger] lv[k] as int)
}

/// The address of entry `k` of the list, or the frontier past its end.
pub open spec fn cursor(pre: HeapView, lv: Seq<usize>, k: int) -> int {
    if 0 <= k < lv.len() {
        lv[k] as int
    } else {
        pre.frontier
    }
}

impl HeapView {
    /// The index at which the object at `a` starts after a collection that
    /// keeps the objects in `live`: the number of words that the live
    /// objects below `a` take.
    pub open spec fn new_index(self, live: Set<int>, a: int) -> int {
        live_extent(self.words, live, 0, a)
    }

    /// What a collection that keeps `live` makes of a word: a reference
    /// into the region becomes the reference to the new place of its
    /// object, every other word stays.
    pub open spec fn forward(self, live: Set<int>, v: u64) -> u64 {
        if self.in_range(v) {
            self.reference_to(self.new_index(live, self.index_of(v)))
        } else {
            v
        }
    }

    /// The start of the object that holds word `i`.
    pub open spec fn owner(self, i: int) -> int {
        block_of(self.words, 0, i)
    }

    /// Word `i` belongs to an object in `live`.
    pub open spec fn in_live(self, live: Set<int>, i: int) -> bool {
        0 <= i < self.frontier && live.contains(self.owner(i))
    }

    /// Word `j` of the object at `a` as the collection writes it to the
    /// object's new place: a clear header, the size, and the elements with
    /// their references renewed.
    pub open spec fn moved_word(self, live: Set<int>, a: int, j: int) -> u64 {
        if j == 0 {
            0
        } else if j == 1 {
            self.words[a + 1]
        } else {
            self.forward(live, self.words[a + j])
        }
    }

    /// Word `i` while the headers of the live objects receive their
    /// forwarding references: those of the objects below `c` hold them
    /// already, the others still hold the mark.
    pub open spec fn forwarding_word(self, live: Set<int>, c: int, i: int) -> u64 {
        if self.in_live(live, i) && i == self.owner(i) {
            if i < c {
                self.reference_to(self.new_index(live, i))
            } else {
                1
            }
        } else {
            self.words[i]
        }
    }

    /// Word `i` while the elements of the live objects are renewed: the
    /// objects below `c` are done, the object at `c` up to element `j`.
    pub open spec fn rewriting_word(self, live: Set<int>, c: int, j: int, i: int) -> u64 {
        if self.in_live(live, i) {
            let a = self.owner(i);
            if i == a {
                self.reference_to(self.new_index(live, a))
            } else if i == a + 1 {
                self.words[i]
            } else if a < c || (a == c && i - a - 2 < j) {
                self.forward(live, self.words[i])
            } else {
                self.words[i]
            }
        } else {
            self.words[i]
        }
    }

    /// Word `i` where the collection leaves it in place while the objects
    /// below `c` have been moved: the header of a moved object is clear,
    /// that of a live object still to move holds its forwarding reference,
    /// the elements of live objects are renewed, all else is untouched.
    pub open spec fn residual_word(self, live: Set<int>, c: int, i: int) -> u64 {
        if self.in_live(live, i) {
            let a = self.owner(i);
            if i == a {
                if a < c {
                    0
                } else {
                    self.reference_to(self.new_index(live, a))
                }
            } else if i == a + 1 {
                self.words[i]
            } else {
                self.forward(live, self.words[i])
            }
        } else {
            self.words[i]
        }
    }
}

/// What a collection makes of a heap and a stack. With `live` the objects
/// that can be reached from the stack: the region keeps its place and its
/// size; every stack word is forwarded; every live object stands at its
/// new index, with a clear header, its size, and its elements forwarded;
/// the new frontier is the number of words that the live objects take; and
/// each word from the new frontier on is what the collection left there
/// in passing.
pub open spec fn collected(
    pre: HeapView,
    stack: Seq<u64>,
    post: HeapView,
    post_stack: Seq<u64>,
) -> bool {
    let live = pre.live(stack);
    &&& post.start == pre.start
    &&& post.words.len() == pre.words.len()
    &&& post.frontier == pre.new_index(live, pre.frontier)
    &&& post_stack.len() == stack.len()
    &&& forall|i: int|
        0 <= i < stack.len() ==> #[trigger] post_stack[i] == pre.forward(live, stack[i])
    &&& forall|a: int, j: int|
        live.contains(a) && 0 <= j < pre.end_of(a) - a ==> post.words[pre.new_index(live, a) + j]
            == #[trigger] pre.moved_word(live, a, j)
    &&& forall|i: int|
        post.frontier <= i < pre.words.len() ==> #[trigger] post.words[i] == pre.residual_word(
            live,
            pre.frontier,
            i,
        )
}

/// A word inside a live object belongs to it.
pub proof fn lemma_owner(pre: HeapView, live: Set<int>, a: int, i: int)
    requires
        pre.wf(),
        pre.is_object(a),
        a <= i < pre.end_of(a),
    ensures
        pre.owner(i) == a,
        0 <= i < pre.frontier,
        live.contains(a) ==> pre.in_live(live, i),
{
    lemma_object_bounds(pre, a);
    lemma_block_of_unique(pre.words, 0, pre.frontier, a, i);
}

/// An entry of the sorted list that is a live object between two
/// neighbouring cursors is the lower one.
pub proof fn lemma_between_cursors(pre: HeapView, live: Set<int>, lv: Seq<usize>, k: int, a: int)
    requires
        sorted_live(pre, live, lv),
        0 <= k < lv.len(),
        live.contains(a),
        lv[k] <= a < cursor(pre, lv, k + 1),
    ensures
        a == lv[k],
{
    let m = choose|m: int| 0 <= m < lv.len() && #[trigger] lv[m] as int == a;
    if m < k {
        assert(lv[m] < lv[k]);
    } else if m > k {
        assert(lv[k + 1] <= lv[m]) by {
            if k + 1 < m {
                assert(lv[k + 1] < lv[m]);
            }
        }
    }
}

/// A live object lies below the cursor of entry `k` exactly if it is one of
/// the first `k` entries.
pub proof fn lemma_below_cursor(pre: HeapView, live: Set<int>, lv: Seq<usize>, k: int, m: int)
    requires
        pre.wf(),
        sorted_live(pre, live, lv),
        0 <= k <= lv.len(),
        0 <= m < lv.len(),
    ensures
        lv[m] < cursor(pre, lv, k) <==> m < k,
        live.contains(lv[m] as int),
{
    lemma_object_bounds(pre, lv[m] as int);
    if k < lv.len() {
        if m < k {
            assert(lv[m] < lv[k]);
        } else if m > k {
            assert(lv[k] < lv[m]);
        }
    }
    assert(addr_set(lv).contains(lv[m] as int));
}

/// The first `k` entries of the sorted list take no more words than lie
/// below the cursor of entry `k`.
pub proof fn lemma_prefix_bounded(pre: HeapView, live: Set<int>, lv: Seq<usize>, k: int)
    requires
        pre.wf(),
        sorted_live(pre, live, lv),
        0 <= k <= lv.len(),
    ensures
        0 <= prefix_extent(pre.words, lv, k) <= cursor(pre, lv, k) <= pre.frontier,
    decreases k,
{
    if k > 0 {
        lemma_prefix_bounded(pre, live, lv, k - 1);
        let a = lv[k - 1] as int;
        lemma_object_bounds(pre, a);
        if k < lv.len() {
            assert(lv[k - 1] < lv[k]);
            lemma_objects_disjoint(pre, a, lv[k] as int);
        }
    }
    if k < lv.len() {
        lemma_object_bounds(pre, lv[k] as int);
    }
}

/// The words taken by the first entries of the sorted list grow with their
/// number.
pub proof fn lemma_prefix_monotone(pre: HeapView, live: Set<int>, lv: Seq<usize>, m: int, k: int)
    requires
        pre.wf(),
        sorted_live(pre, live, lv),
        0 <= m <= k <= lv.len(),
    ensures
        prefix_extent(pre.words, lv, m) <= prefix_extent(pre.words, lv, k),
    decreases k - m,
{
    if m < k {
        lemma_prefix_monotone(pre, live, lv, m, k - 1);
        lemma_object_bounds(pre, lv[k - 1] as int);
    }
}

/// Walking from a boundary that lies between the entries before `k0` and
/// those from `k0` on, the live words up to the cursor of entry `k` are
/// those of the entries from `k0` up to `k`.
proof fn lemma_walk(pre: HeapView, live: Set<int>, lv: Seq<usize>, from: int, k0: int, k: int)
    requires
        pre.wf(),
        sorted_live(pre, live, lv),
        from == pre.frontier || pre.is_object(from),
        0 <= k0 <= k <= lv.len(),
        forall|m: int| 0 <= m < k0 ==> #[trigger] lv[m] < from,
        forall|m: int| k0 <= m < lv.len() ==> #[trigger] lv[m] >= from,
        from <= cursor(pre, lv, k),
    ensures
        live_extent(pre.words, live, from, cursor(pre, lv, k)) == prefix_extent(pre.words, lv, k)
            - prefix_extent(pre.words, lv, k0),
    decreases pre.frontier - from,
{
    let c = cursor(pre, lv, k);
    if k < lv.len() {
        lemma_object_bounds(pre, lv[k] as int);
    }
    if from >= c {
        if k0 < k {
            lemma_object_bounds(pre, lv[k0] as int);
            if k < lv.len() {
                assert(lv[k0] < lv[k]);
            }
        }
    } else {
        lemma_object_bounds(pre, from);
        let next = pre.end_of(from);
        lemma_block_bounds(pre.words, 0, pre.frontier, from);
        assert(next == pre.frontier || pre.is_object(next));
        // the cursor is a block boundary above `from`
        if k < lv.len() {
            lemma_objects_disjoint(pre, from, c);
        }
        assert(next <= c);
        if live.contains(from) {
            let m = choose|m: int| 0 <= m < lv.len() && #[trigger] lv[m] as int == from;
            assert(m >= k0);
            if m > k0 {
                assert(lv[k0] < lv[m]);
            }
            assert(m == k0);
            assert(k0 < k);
            assert forall|m2: int| k0 + 1 <= m2 < lv.len() implies #[trigger] lv[m2] >= next by {
                assert(lv[k0] < lv[m2]);
                lemma_objects_disjoint(pre, from, lv[m2] as int);
            }
            lemma_walk(pre, live, lv, next, k0 + 1, k);
            assert(prefix_extent(pre.words, lv, k0 + 1) == prefix_extent(pre.words, lv, k0) + next
                - from);
        } else {
            assert forall|m2: int| k0 <= m2 < lv.len() implies #[trigger] lv[m2] >= next by {
                assert(addr_set(lv).contains(lv[m2] as int));
                assert(lv[m2] != from);
                lemma_objects_disjoint(pre, from, lv[m2] as int);
            }
            lemma_walk(pre, live, lv, next, k0, k);
        }
    }
}

/// The new index of entry `k` of the sorted list of live objects is the
/// number of words that the entries before it take; past the end of the
/// list this is the new index of the frontier.
pub proof fn lemma_prefix_is_new_index(pre: HeapView, live: Set<int>, lv: Seq<usize>, k: int)
    requires
        pre.wf(),
        sorted_live(pre, live, lv),
        0 <= k <= lv.len(),
    ensures
        pre.new_index(live, cursor(pre, lv, k)) == prefix_extent(pre.words, lv, k),
{
    if pre.frontier > 0 {
        lemma_first_block(pre.words, 0, pre.frontier);
    }
    assert forall|m: int| 0 <= m < lv.len() implies #[trigger] lv[m] >= 0 by {}
    if k < lv.len() {
        lemma_object_bounds(pre, lv[k] as int);
    }
    lemma_walk(pre, live, lv, 0, 0, k);
}

} // verus!
