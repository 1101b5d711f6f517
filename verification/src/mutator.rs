//! What a running program does to the heap between collections: it writes
//! a new object at the frontier, and it reads and writes elements.

use crate::heap::{lemma_object_bounds, lemma_objects_disjoint, Heap};
use crate::layout::{block_end, is_block, lemma_same_sizes_same_blocks, tiled};
use vstd::prelude::*;

verus! {

/// Where a block is written right after a tiled run, the longer run is
/// tiled, and its blocks are those of the run and the new one.
pub proof fn lemma_append_block(
    before: Seq<u64>,
    after: Seq<u64>,
    from: int,
    limit: int,
    end: int,
)
    requires
        tiled(before, from, limit),
        0 <= from,
        after.len() == before.len(),
        forall|i: int| 0 <= i < limit ==> after[i] == before[i],
        limit + 2 <= end <= after.len(),
        block_end(after, limit) == end,
    ensures
        tiled(after, from, end),
        forall|a: int|
            #[trigger] is_block(after, from, end, a) == (is_block(before, from, limit, a) || a
                == limit),
    decreases limit - from,
{
    if from == limit {
        assert(tiled(after, end, end));
        assert forall|a: int|
            #[trigger] is_block(after, from, end, a) == (is_block(before, from, limit, a) || a
                == limit) by {
            assert(!is_block(after, end, end, a));
        }
    } else {
        let next = block_end(before, from);
        assert(after[from + 1] == before[from + 1]);
        lemma_append_block(before, after, next, limit, end);
        assert forall|a: int|
            #[trigger] is_block(after, from, end, a) == (is_block(before, from, limit, a) || a
                == limit) by {
            assert(is_block(after, next, end, a) == (is_block(before, next, limit, a) || a
                == limit));
        }
    }
}

impl Heap {
    /// The number of free words above the frontier.
    pub fn free_words(&self) -> (n: usize)
        requires
            self@.bounded(),
        ensures
            n == self.words.len() - self.frontier,
    {
        self.words.len() - self.frontier
    }

    /// Writes a new object with the given elements at the frontier and
    /// moves the frontier past it. Gives the reference to the object.
    pub fn write_vec(&mut self, elems: &Vec<u64>) -> (r: u64)
        requires
            old(self)@.wf(),
            old(self).frontier + 2 + elems.len() <= old(self).words.len(),
            forall|j: int| 0 <= j < elems@.len() ==> old(self)@.value_ok(#[trigger] elems@[j]),
        ensures
            final(self)@.wf(),
            final(self).start == old(self).start,
            final(self).words.len() == old(self).words.len(),
            final(self).frontier == old(self).frontier + 2 + elems.len(),
            r == old(self)@.reference_to(old(self).frontier as int),
            final(self)@.refers_to_object(r),
            final(self)@.index_of(r) == old(self).frontier,
            final(self)@.size_of(old(self).frontier as int) == elems@.len(),
            forall|j: int|
                0 <= j < elems@.len() ==> final(self)@.elem(old(self).frontier as int, j)
                    == #[trigger] elems@[j],
            forall|i: int|
                0 <= i < old(self).frontier || old(self).frontier + 2 + elems.len() <= i < old(
                    self,
                ).words.len() ==> final(self).words@[i] == old(self).words@[i],
            forall|a: int|
                #[trigger] final(self)@.is_object(a) <==> old(self)@.is_object(a) || a == old(
                    self,
                ).frontier,
            forall|v: u64| old(self)@.value_ok(v) ==> #[trigger] final(self)@.value_ok(v),
    {
        let ghost pre = self@;
        let at: usize = self.frontier;
        let n: usize = elems.len();
        let cap: usize = self.words.len();
        self.words.set(at, 0);
        self.words.set(at + 1, n as u64);
        let mut j: usize = 0;
        while j < n
            invariant
                pre.wf(),
                at == pre.frontier,
                n == elems@.len(),
                cap == pre.words.len(),
                at + 2 + n <= cap,
                j <= n,
                self.start == pre.start,
                self.frontier == pre.frontier,
                self.words@.len() == pre.words.len(),
                self.words@[at as int] == 0,
                self.words@[at + 1] == n,
                forall|i: int| 0 <= i < j ==> self.words@[at + 2 + i] == elems@[i],
                forall|i: int|
                    0 <= i < at || at + 2 + n <= i < pre.words.len() ==> self.words@[i]
                        == pre.words[i],
            decreases n - j,
        {
            self.words.set(at + 2 + j, elems[j]);
            j = j + 1;
        }
        self.frontier = at + 2 + n;
        let r: u64 = self.start + 8 * (at as u64) + 1;
        proof {
            let post = self@;
            lemma_append_block(pre.words, post.words, 0, at as int, at + 2 + n);
            assert forall|a: int|
                #[trigger] post.is_object(a) <==> pre.is_object(a) || a == at by {
                assert(is_block(post.words, 0, post.frontier, a) == (is_block(
                    pre.words,
                    0,
                    pre.frontier,
                    a,
                ) || a == at));
            }
            assert(post.is_object(at as int));
            assert forall|v: u64| pre.value_ok(v) implies #[trigger] post.value_ok(v) by {
                if pre.in_range(v) {
                    assert(post.is_object(pre.index_of(v)));
                }
            }
            assert forall|a: int| #[trigger] post.is_object(a) implies post.words[a] == 0 by {
                if a != at {
                    assert(pre.is_object(a));
                    lemma_object_bounds(pre, a);
                }
            }
            assert forall|a: int, i: int|
                post.is_object(a) && 0 <= i < post.size_of(a) implies post.value_ok(
                #[trigger] post.elem(a, i),
            ) by {
                if a != at {
                    assert(pre.is_object(a));
                    lemma_object_bounds(pre, a);
                    assert(pre.value_ok(pre.elem(a, i)));
                } else {
                    assert(pre.value_ok(elems@[i]));
                }
            }
            assert((r - 1 - post.start) == 8 * at);
            assert(r % 2 == 1);
        }
        r
    }

    /// Reads element `index` of the object that `r` refers to.
    pub fn vec_get(&self, r: u64, index: usize) -> (v: u64)
        requires
            self@.wf(),
            self@.refers_to_object(r),
            index < self@.size_of(self@.index_of(r)),
        ensures
            v == self@.elem(self@.index_of(r), index as int),
            self@.value_ok(v),
    {
        proof {
            lemma_object_bounds(self@, self@.index_of(r));
            assert(self@.value_ok(self@.elem(self@.index_of(r), index as int)));
        }
        let at: usize = ((r - 1 - self.start) / 8) as usize;
        self.words[at + 2 + index]
    }

    /// The number of elements of the object that `r` refers to.
    pub fn vec_len(&self, r: u64) -> (n: u64)
        requires
            self@.wf(),
            self@.refers_to_object(r),
        ensures
            n == self@.size_of(self@.index_of(r)),
    {
        proof {
            lemma_object_bounds(self@, self@.index_of(r));
        }
        let at: usize = ((r - 1 - self.start) / 8) as usize;
        self.words[at + 1]
    }

    /// Writes `v` to element `index` of the object that `r` refers to.
    pub fn vec_set(&mut self, r: u64, index: usize, v: u64)
        requires
            old(self)@.wf(),
            old(self)@.refers_to_object(r),
            index < old(self)@.size_of(old(self)@.index_of(r)),
            old(self)@.value_ok(v),
        ensures
            final(self)@.wf(),
            final(self).start == old(self).start,
            final(self).frontier == old(self).frontier,
            final(self).words@ == old(self).words@.update(
                old(self)@.index_of(r) + 2 + index,
                v,
            ),
            forall|a: int| #[trigger] final(self)@.is_object(a) == old(self)@.is_object(a),
            forall|w: u64| #[trigger] final(self)@.value_ok(w) == old(self)@.value_ok(w),
    {
        let ghost pre = self@;
        let ghost a = pre.index_of(r);
        proof {
            lemma_object_bounds(pre, a);
        }
        let at: usize = ((r - 1 - self.start) / 8) as usize;
        self.words.set(at + 2 + index, v);
        proof {
            let post = self@;
            let target = a + 2 + index;
            assert forall|b: int|
                #[trigger] is_block(pre.words, 0, pre.frontier, b) implies post.words[b + 1]
                == pre.words[b + 1] && post.words[b] == pre.words[b] by {
                assert(pre.is_object(b));
                lemma_object_bounds(pre, b);
                if b < a {
                    lemma_objects_disjoint(pre, b, a);
                } else if a < b {
                    lemma_objects_disjoint(pre, a, b);
                }
            }
            lemma_same_sizes_same_blocks(pre.words, post.words, 0, pre.frontier);
            assert forall|b: int| #[trigger] post.is_object(b) == pre.is_object(b) by {
                assert(is_block(post.words, 0, pre.frontier, b) == is_block(
                    pre.words,
                    0,
                    pre.frontier,
                    b,
                ));
            }
            assert forall|w: u64| #[trigger] post.value_ok(w) == pre.value_ok(w) by {
                assert(post.is_object(post.index_of(w)) == pre.is_object(pre.index_of(w)));
            }
            assert forall|b: int| #[trigger] post.is_object(b) implies post.words[b] == 0 by {
                assert(pre.is_object(b));
                assert(is_block(pre.words, 0, pre.frontier, b));
            }
            assert forall|b: int, i: int|
                post.is_object(b) && 0 <= i < post.size_of(b) implies post.value_ok(
                #[trigger] post.elem(b, i),
            ) by {
                assert(pre.is_object(b));
                assert(is_block(pre.words, 0, pre.frontier, b));
                lemma_object_bounds(pre, b);
                assert(post.size_of(b) == pre.size_of(b));
                if b + 2 + i != target {
                    assert(pre.value_ok(pre.elem(b, i)));
                    assert(post.elem(b, i) == pre.elem(b, i));
                    assert(post.value_ok(pre.elem(b, i)) == pre.value_ok(pre.elem(b, i)));
                } else {
                    assert(post.elem(b, i) == v);
                    assert(post.value_ok(v) == pre.value_ok(v));
                }
            }
        }
    }
}

} // verus!
