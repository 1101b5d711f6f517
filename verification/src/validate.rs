//! Run-time tests of the conditions that the collector and the printer ask
//! of a heap.

use crate::heap::{Heap, HeapView};
use crate::layout::{block_end, is_block, lemma_block_range, tiled};
use vstd::prelude::*;

verus! {

/// The flags mark the starts of the objects of the heap.
pub open spec fn marks_objects(h: HeapView, starts: Seq<bool>) -> bool {
    &&& starts.len() == h.words.len()
    &&& forall|a: int| 0 <= a < starts.len() ==> (#[trigger] starts[a] <==> h.is_object(a))
}

impl Heap {
    /// Tells whether the region has a place in memory and the frontier
    /// lies in it.
    pub fn is_bounded(&self) -> (ok: bool)
        ensures
            ok == self@.bounded(),
    {
        self.start > 0 && self.start % 8 == 0 && self.words.len() as u64 <= (u64::MAX - self.start)
            / 8 && self.frontier <= self.words.len()
    }

    /// Walks the words below the frontier block by block. Gives a flag for
    /// each word of the region, set where an object starts, if the blocks
    /// end exactly at the frontier, and `None` if they do not.
    pub fn object_starts(&self) -> (r: Option<Vec<bool>>)
        requires
            self@.bounded(),
        ensures
            r.is_some() <==> tiled(self.words@, 0, self.frontier as int),
            r matches Some(starts) ==> marks_objects(self@, starts@),
    {
        let n: usize = self.words.len();
        let limit: usize = self.frontier;
        let mut starts: Vec<bool> = vec![false; n];
        let mut p: usize = 0;
        while p < limit
            invariant
                n == self.words@.len(),
                limit == self.frontier,
                limit <= n,
                p <= limit,
                starts@.len() == n,
                tiled(self.words@, 0, limit as int) == tiled(self.words@, p as int, limit as int),
                forall|a: int| p <= a < n ==> !#[trigger] starts@[a],
                forall|a: int|
                    #[trigger] is_block(self.words@, 0, limit as int, a) == ((0 <= a < p
                        && starts@[a]) || is_block(self.words@, p as int, limit as int, a)),
            decreases limit - p,
        {
            if limit - p < 2 {
                return None;
            }
            let size: u64 = self.words[p + 1];
            if size > (limit - p - 2) as u64 {
                return None;
            }
            let ghost before = starts@;
            starts.set(p, true);
            let next: usize = p + 2 + size as usize;
            proof {
                assert(next == block_end(self.words@, p as int));
                assert forall|a: int|
                    #[trigger] is_block(self.words@, 0, limit as int, a) == ((0 <= a < next
                        && starts@[a]) || is_block(self.words@, next as int, limit as int, a)) by {
                    assert(is_block(self.words@, 0, limit as int, a) == ((0 <= a < p && before[a])
                        || is_block(self.words@, p as int, limit as int, a)));
                    if is_block(self.words@, next as int, limit as int, a) {
                        lemma_block_range(self.words@, next as int, limit as int, a);
                    }
                }
            }
            p = next;
        }
        proof {
            assert forall|a: int| 0 <= a < starts@.len() implies (#[trigger] starts@[a]
                <==> self@.is_object(a)) by {
                assert(is_block(self.words@, 0, limit as int, a) == ((0 <= a < p && starts@[a])
                    || is_block(self.words@, p as int, limit as int, a)));
            }
        }
        Some(starts)
    }

    /// Tells whether a word is harmless to a collection.
    pub fn word_is_harmless(&self, v: u64, starts: &Vec<bool>) -> (ok: bool)
        requires
            self@.bounded(),
            marks_objects(self@, starts@),
        ensures
            ok == self@.value_ok(v),
    {
        match self.target(v) {
            Some(t) => {
                let aligned: bool = (v - 1 - self.start) % 8 == 0;
                aligned && starts[t]
            },
            None => true,
        }
    }

    /// Tells whether the heap is well formed.
    pub fn is_well_formed(&self) -> (ok: bool)
        ensures
            ok == self@.wf(),
    {
        if !self.is_bounded() {
            return false;
        }
        let starts = match self.object_starts() {
            Some(starts) => starts,
            None => {
                return false;
            },
        };
        let n: usize = self.words.len();
        let ghost h = self@;
        let mut a: usize = 0;
        while a < n
            invariant
                h == self@,
                h.bounded(),
                tiled(h.words, 0, h.frontier),
                marks_objects(h, starts@),
                n == h.words.len(),
                a <= n,
                forall|b: int| 0 <= b < a && #[trigger] h.is_object(b) ==> h.words[b] == 0,
                forall|b: int, j: int|
                    0 <= b < a && h.is_object(b) && 0 <= j < h.size_of(b) ==> h.value_ok(
                        #[trigger] h.elem(b, j),
                    ),
            decreases n - a,
        {
            if starts[a] {
                proof {
                    crate::layout::lemma_block_bounds(h.words, 0, h.frontier, a as int);
                }
                if self.words[a] != 0 {
                    return false;
                }
                let size: u64 = self.words[a + 1];
                let mut j: u64 = 0;
                while j < size
                    invariant
                        h == self@,
                        h.bounded(),
                        marks_objects(h, starts@),
                        h.is_object(a as int),
                        size == h.size_of(a as int),
                        n == h.words.len(),
                        a + 2 + size <= n,
                        j <= size,
                        forall|i: int| 0 <= i < j ==> h.value_ok(#[trigger] h.elem(a as int, i)),
                    decreases size - j,
                {
                    let v: u64 = self.words[a + 2 + j as usize];
                    assert(v == h.elem(a as int, j as int));
                    if !self.word_is_harmless(v, &starts) {
                        return false;
                    }
                    j = j + 1;
                }
            }
            a = a + 1;
        }
        proof {
            assert forall|b: int| #[trigger] h.is_object(b) implies h.words[b] == 0 by {
                lemma_block_range(h.words, 0, h.frontier, b);
            }
            assert forall|b: int, j: int|
                h.is_object(b) && 0 <= j < h.size_of(b) implies h.value_ok(
                #[trigger] h.elem(b, j),
            ) by {
                lemma_block_range(h.words, 0, h.frontier, b);
            }
        }
        true
    }

    /// Tells whether the heap is well formed and fits the stack: what a
    /// collection asks for.
    pub fn is_collectable(&self, stack: &Vec<u64>) -> (ok: bool)
        ensures
            ok == (self@.wf() && self@.roots_ok(stack@)),
    {
        if !self.is_well_formed() {
            return false;
        }
        let starts = match self.object_starts() {
            Some(starts) => starts,
            None => {
                return false;
            },
        };
        let mut i: usize = 0;
        while i < stack.len()
            invariant
                self@.bounded(),
                marks_objects(self@, starts@),
                i <= stack.len(),
                forall|k: int| 0 <= k < i ==> self@.value_ok(#[trigger] stack@[k]),
            decreases stack.len() - i,
        {
            if !self.word_is_harmless(stack[i], &starts) {
                return false;
            }
            i = i + 1;
        }
        true
    }
}

} // verus!
