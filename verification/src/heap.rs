//! The heap: one fixed region of words, the address of its first word, and
//! the frontier below which objects lie.

use crate::layout::{block_end, is_block, tiled};
use crate::layout::{lemma_block_bounds, lemma_blocks_disjoint};
use crate::value::{is_ref_word, is_reference};
use vstd::prelude::*;

verus! {

/// Bytes in a word.
pub const WORD_BYTES: u64 = 8;

/// A bounded heap.
pub struct Heap {
    /// The address of word 0.
    pub start: u64,
    /// The whole region, free words included.
    pub words: Vec<u64>,
    /// The index of the first free word.
    pub frontier: usize,
}

/// The mathematical picture of a heap.
pub struct HeapView {
    /// The address of word 0.
    pub start: int,
    /// The whole region, free words included.
    pub words: Seq<u64>,
    /// The index of the first free word.
    pub frontier: int,
}

impl View for Heap {
    type V = HeapView;

    open spec fn view(&self) -> HeapView {
        HeapView { start: self.start as int, words: self.words@, frontier: self.frontier as int }
    }
}

impl HeapView {
    /// The address one past the last word of the region.
    pub open spec fn limit(self) -> int {
        self.start + 8 * self.words.len()
    }

    /// The region starts at a nonzero word-aligned address and its
    /// addresses, plus a tag bit, fit in a word.
    pub open spec fn bounded(self) -> bool {
        &&& self.start > 0
        &&& self.start % 8 == 0
        &&& self.limit() <= u64::MAX
        &&& 0 <= self.frontier <= self.words.len()
    }

    /// The word is a reference whose address lies in the region.
    pub open spec fn in_range(self, v: u64) -> bool {
        is_ref_word(v) && self.start <= v - 1 < self.limit()
    }

    /// The index of the word that a reference into the region points at.
    pub open spec fn index_of(self, v: u64) -> int {
        (v - 1 - self.start) / 8
    }

    /// The reference to the word at index `a`.
    pub open spec fn reference_to(self, a: int) -> u64 {
        (self.start + 8 * a + 1) as u64
    }

    /// An object starts at index `a`.
    pub open spec fn is_object(self, a: int) -> bool {
        is_block(self.words, 0, self.frontier, a)
    }

    /// The number of elements of the object at `a`.
    pub open spec fn size_of(self, a: int) -> int {
        self.words[a + 1] as int
    }

    /// The index one past the last word of the object at `a`.
    pub open spec fn end_of(self, a: int) -> int {
        block_end(self.words, a)
    }

    /// Element `j` of the object at `a`.
    pub open spec fn elem(self, a: int, j: int) -> u64 {
        self.words[a + 2 + j]
    }

    /// The word is the reference to an object.
    pub open spec fn refers_to_object(self, v: u64) -> bool {
        self.in_range(v) && self.is_object(self.index_of(v)) && v == self.reference_to(
            self.index_of(v),
        )
    }

    /// The word is harmless to a collection: if it is a reference into the
    /// region, it is the reference to an object.
    pub open spec fn value_ok(self, v: u64) -> bool {
        self.in_range(v) ==> self.refers_to_object(v)
    }

    /// The heap is well formed: objects fill the words below the frontier
    /// without gap, every header is clear, and every element that is a
    /// reference into the region refers to an object.
    pub open spec fn wf(self) -> bool {
        &&& self.bounded()
        &&& tiled(self.words, 0, self.frontier)
        &&& forall|a: int| #[trigger] self.is_object(a) ==> self.words[a] == 0
        &&& forall|a: int, j: int|
            self.is_object(a) && 0 <= j < self.size_of(a) ==> self.value_ok(
                #[trigger] self.elem(a, j),
            )
    }

    /// Every stack word that is a reference into the region refers to an
    /// object.
    pub open spec fn roots_ok(self, stack: Seq<u64>) -> bool {
        forall|i: int| 0 <= i < stack.len() ==> self.value_ok(#[trigger] stack[i])
    }

    /// Some stack word refers to `b`.
    pub open spec fn is_root(self, stack: Seq<u64>, b: int) -> bool {
        exists|i: int|
            0 <= i < stack.len() && self.in_range(#[trigger] stack[i]) && self.index_of(stack[i])
                == b
    }

    /// Some element of the object at `a` refers to `b`.
    pub open spec fn edge(self, a: int, b: int) -> bool {
        self.is_object(a) && exists|j: int|
            0 <= j < self.size_of(a) && self.in_range(#[trigger] self.elem(a, j)) && self.index_of(
                self.elem(a, j),
            ) == b
    }

    /// `b` can be reached from a stack word by following at most `n`
    /// references.
    pub open spec fn reach_within(self, stack: Seq<u64>, n: nat, b: int) -> bool
        decreases n,
    {
        if n == 0 {
            self.is_root(stack, b)
        } else {
            self.reach_within(stack, (n - 1) as nat, b) || exists|a: int|
                self.reach_within(stack, (n - 1) as nat, a) && #[trigger] self.edge(a, b)
        }
    }

    /// `b` can be reached from a stack word by following references.
    pub open spec fn reachable(self, stack: Seq<u64>, b: int) -> bool {
        exists|n: nat| self.reach_within(stack, n, b)
    }

    /// The starts of the objects that can be reached from the stack.
    pub open spec fn live(self, stack: Seq<u64>) -> Set<int> {
        Set::new(|b: int| self.reachable(stack, b))
    }
}

/// An object of a well-formed heap lies below the frontier.
pub proof fn lemma_object_bounds(h: HeapView, a: int)
    requires
        h.wf(),
        h.is_object(a),
    ensures
        0 <= a,
        a + 2 <= h.end_of(a) <= h.frontier <= h.words.len(),
        h.size_of(a) == h.end_of(a) - a - 2,
        h.start + 8 * a + 1 <= u64::MAX,
        h.in_range(h.reference_to(a)),
        h.index_of(h.reference_to(a)) == a,
        h.reference_to(a) == h.start + 8 * a + 1,
{
    lemma_block_bounds(h.words, 0, h.frontier, a);
    let v = h.reference_to(a);
    assert(v == h.start + 8 * a + 1);
    assert(v % 2 == 1);
    assert(v >= 9);
    assert((v - 1 - h.start) == 8 * a);
}

/// Two different objects of a well-formed heap do not overlap.
pub proof fn lemma_objects_disjoint(h: HeapView, a: int, b: int)
    requires
        h.wf(),
        h.is_object(a),
        h.is_object(b),
        a < b,
    ensures
        h.end_of(a) <= b,
{
    lemma_blocks_disjoint(h.words, 0, h.frontier, a, b);
}

/// What a stack word refers to is an object, and it can be reached.
pub proof fn lemma_root_reachable(h: HeapView, stack: Seq<u64>, i: int)
    requires
        h.roots_ok(stack),
        0 <= i < stack.len(),
        h.in_range(stack[i]),
    ensures
        h.is_object(h.index_of(stack[i])),
        h.reachable(stack, h.index_of(stack[i])),
        h.is_root(stack, h.index_of(stack[i])),
{
    let b = h.index_of(stack[i]);
    assert(h.value_ok(stack[i]));
    assert(h.is_root(stack, b));
    assert(h.reach_within(stack, 0, b));
}

/// What an element of a reachable object refers to is an object, and it can
/// be reached.
pub proof fn lemma_edge_reachable(h: HeapView, stack: Seq<u64>, a: int, j: int)
    requires
        h.wf(),
        h.is_object(a),
        h.reachable(stack, a),
        0 <= j < h.size_of(a),
        h.in_range(h.elem(a, j)),
    ensures
        h.is_object(h.index_of(h.elem(a, j))),
        h.edge(a, h.index_of(h.elem(a, j))),
        h.reachable(stack, h.index_of(h.elem(a, j))),
{
    let b = h.index_of(h.elem(a, j));
    assert(h.value_ok(h.elem(a, j)));
    assert(h.edge(a, b));
    let n = choose|n: nat| h.reach_within(stack, n, a);
    assert(h.reach_within(stack, n, a));
    assert(h.reach_within(stack, (n + 1) as nat, b));
}

/// Everything reachable is an object.
pub proof fn lemma_reachable_is_object(h: HeapView, stack: Seq<u64>, b: int)
    requires
        h.wf(),
        h.roots_ok(stack),
        h.reachable(stack, b),
    ensures
        h.is_object(b),
{
    let n = choose|n: nat| h.reach_within(stack, n, b);
    lemma_reach_within_is_object(h, stack, n, b);
}

/// Everything reachable in a given number of steps is an object.
proof fn lemma_reach_within_is_object(h: HeapView, stack: Seq<u64>, n: nat, b: int)
    requires
        h.wf(),
        h.roots_ok(stack),
        h.reach_within(stack, n, b),
    ensures
        h.is_object(b),
    decreases n,
{
    if n == 0 {
        let i = choose|i: int|
            0 <= i < stack.len() && h.in_range(#[trigger] stack[i]) && h.index_of(stack[i]) == b;
        lemma_root_reachable(h, stack, i);
    } else if h.reach_within(stack, (n - 1) as nat, b) {
        lemma_reach_within_is_object(h, stack, (n - 1) as nat, b);
    } else {
        let a = choose|a: int|
            h.reach_within(stack, (n - 1) as nat, a) && #[trigger] h.edge(a, b);
        let j = choose|j: int|
            0 <= j < h.size_of(a) && h.in_range(#[trigger] h.elem(a, j)) && h.index_of(
                h.elem(a, j),
            ) == b;
        assert(h.value_ok(h.elem(a, j)));
    }
}

/// A set of objects that holds what the stack refers to, and with each
/// object what its elements refer to, holds everything reachable.
pub proof fn lemma_closed_holds_reachable(h: HeapView, stack: Seq<u64>, s: Set<int>, b: int)
    requires
        forall|r: int| h.is_root(stack, r) ==> s.contains(r),
        forall|x: int, y: int| s.contains(x) && h.edge(x, y) ==> s.contains(y),
        h.reachable(stack, b),
    ensures
        s.contains(b),
{
    let n = choose|n: nat| h.reach_within(stack, n, b);
    lemma_closed_holds_reach_within(h, stack, s, n, b);
}

/// A set of objects that holds what the stack refers to, and with each
/// object what its elements refer to, holds everything reachable in a
/// given number of steps.
proof fn lemma_closed_holds_reach_within(
    h: HeapView,
    stack: Seq<u64>,
    s: Set<int>,
    n: nat,
    b: int,
)
    requires
        forall|r: int| h.is_root(stack, r) ==> s.contains(r),
        forall|x: int, y: int| s.contains(x) && h.edge(x, y) ==> s.contains(y),
        h.reach_within(stack, n, b),
    ensures
        s.contains(b),
    decreases n,
{
    if n == 0 {
    } else if h.reach_within(stack, (n - 1) as nat, b) {
        lemma_closed_holds_reach_within(h, stack, s, (n - 1) as nat, b);
    } else {
        let a = choose|a: int|
            h.reach_within(stack, (n - 1) as nat, a) && #[trigger] h.edge(a, b);
        lemma_closed_holds_reach_within(h, stack, s, (n - 1) as nat, a);
    }
}

impl Heap {
    /// An empty heap of `capacity` words whose first word has the address
    /// `start`. Gives `None` when `start` is zero or not word-aligned, or
    /// when the region would not fit below the largest address.
    pub fn new(start: u64, capacity: usize) -> (h: Option<Heap>)
        ensures
            h.is_some() <==> start > 0 && start % 8 == 0 && start + 8 * capacity <= u64::MAX,
            h matches Some(heap) ==> heap@.wf() && heap.start == start && heap.frontier == 0
                && heap.words@ == Seq::new(capacity as nat, |i: int| 0u64),
    {
        if start == 0 || start % WORD_BYTES != 0 {
            return None;
        }
        if capacity as u64 > (u64::MAX - start) / WORD_BYTES {
            return None;
        }
        let words: Vec<u64> = vec![0u64; capacity];
        let heap = Heap { start, words, frontier: 0 };
        assert(heap.words@ =~= Seq::new(capacity as nat, |i: int| 0u64));
        Some(heap)
    }

    /// The number of words of the region.
    pub fn capacity(&self) -> (n: usize)
        ensures
            n == self.words.len(),
    {
        self.words.len()
    }

    /// The address of the first free word.
    pub fn frontier_address(&self) -> (p: u64)
        requires
            self@.bounded(),
        ensures
            p == self.start + 8 * self.frontier,
    {
        self.start + WORD_BYTES * (self.frontier as u64)
    }

    /// The address one past the last word of the region.
    pub fn end_address(&self) -> (p: u64)
        requires
            self@.bounded(),
        ensures
            p == self@.limit(),
    {
        self.start + WORD_BYTES * (self.words.len() as u64)
    }

    /// The index that the word refers to, if the word is a reference into
    /// the region.
    pub fn target(&self, v: u64) -> (t: Option<usize>)
        requires
            self@.bounded(),
        ensures
            t.is_some() <==> self@.in_range(v),
            t matches Some(a) ==> a == self@.index_of(v) && a < self.words.len(),
    {
        if !is_reference(v) {
            return None;
        }
        let addr: u64 = v - 1;
        if addr < self.start || addr >= self.end_address() {
            return None;
        }
        let offset: u64 = addr - self.start;
        assert(offset < 8 * self.words.len());
        assert(offset / 8 < self.words.len());
        Some((offset / WORD_BYTES) as usize)
    }
}

} // verus!
