//! Root discovery and the mark phase of a collection.

use crate::heap::{Heap, HeapView};
use crate::heap::{lemma_closed_holds_reachable, lemma_edge_reachable, lemma_object_bounds};
use crate::heap::{lemma_objects_disjoint, lemma_root_reachable};
use vstd::prelude::*;
use vstd::set_lib::{lemma_int_range, lemma_len_subset, set_int_range};

verus! {

/// The addresses that a list holds.
pub open spec fn addr_set(s: Seq<usize>) -> Set<int> {
    Set::new(|a: int| exists|k: int| 0 <= k < s.len() && #[trigger] s[k] as int == a)
}

/// The stack slots, from the highest index down to `from`, whose word is a
/// reference into the heap.
pub open spec fn root_slots(h: HeapView, stack: Seq<u64>, from: int) -> Seq<usize>
    decreases stack.len() - from,
{
    if from < 0 || from >= stack.len() {
        Seq::empty()
    } else if h.in_range(stack[from]) {
        root_slots(h, stack, from + 1).push(from as usize)
    } else {
        root_slots(h, stack, from + 1)
    }
}

/// Every slot in the list is a slot of the stack that refers into the heap.
pub proof fn lemma_root_slots_are_roots(h: HeapView, stack: Seq<u64>, from: int)
    requires
        0 <= from,
        stack.len() <= usize::MAX,
    ensures
        forall|k: int|
            0 <= k < root_slots(h, stack, from).len() ==> {
                let r = #[trigger] root_slots(h, stack, from)[k];
                from <= r < stack.len() && h.in_range(stack[r as int])
            },
        forall|i: int|
            from <= i < stack.len() && h.in_range(stack[i]) ==> root_slots(
                h,
                stack,
                from,
            ).contains(i as usize),
        forall|k1: int, k2: int|
            0 <= k1 < k2 < root_slots(h, stack, from).len() ==> root_slots(h, stack, from)[k1]
                > root_slots(h, stack, from)[k2],
    decreases stack.len() - from,
{
    if from < stack.len() {
        lemma_root_slots_are_roots(h, stack, from + 1);
        let rest = root_slots(h, stack, from + 1);
        let all = root_slots(h, stack, from);
        assert forall|k: int| 0 <= k < rest.len() implies from < #[trigger] rest[k] by {}
        assert forall|i: int| from <= i < stack.len() && h.in_range(stack[i]) implies all.contains(
            i as usize,
        ) by {
            if i == from {
                assert(all[all.len() - 1] == from as usize);
            } else {
                assert(rest.contains(i as usize));
                let k = choose|k: int| 0 <= k < rest.len() && rest[k] == i as usize;
                assert(all[k] == i as usize);
            }
        }
    }
}

/// Finds the roots: the stack slots whose word is a reference into the
/// heap, scanning from the stack base (the last slot) down to the stack
/// pointer (slot 0).
pub fn find_root_ptrs(heap: &Heap, stack: &Vec<u64>) -> (roots: Vec<usize>)
    requires
        heap@.bounded(),
    ensures
        roots@ == root_slots(heap@, stack@, 0),
{
    let mut roots: Vec<usize> = Vec::new();
    let mut i: usize = stack.len();
    while i > 0
        invariant
            heap@.bounded(),
            i <= stack.len(),
            roots@ == root_slots(heap@, stack@, i as int),
        decreases i,
    {
        i = i - 1;
        if heap.target(stack[i]).is_some() {
            roots.push(i);
        }
    }
    roots
}

/// The state in the middle of the mark phase. The heap differs from the
/// heap before the collection only in the headers of the marked objects,
/// which hold 1; the marked objects are listed once each, and each can be
/// reached from the stack.
pub open spec fn marking(pre: HeapView, stack: Seq<u64>, cur: HeapView, live: Seq<usize>) -> bool {
    &&& pre.wf()
    &&& pre.roots_ok(stack)
    &&& cur.start == pre.start
    &&& cur.frontier == pre.frontier
    &&& cur.words.len() == pre.words.len()
    &&& live.no_duplicates()
    &&& forall|k: int|
        0 <= k < live.len() ==> pre.is_object(#[trigger] live[k] as int) && pre.reachable(
            stack,
            live[k] as int,
        )
    &&& forall|i: int|
        0 <= i < cur.words.len() ==> #[trigger] cur.words[i] == (if addr_set(live).contains(i) {
            1u64
        } else {
            pre.words[i]
        })
}

/// Every marked object outside `grey` has all the objects marked that its
/// elements refer to.
pub open spec fn closed_except(pre: HeapView, marked: Set<int>, grey: Set<int>) -> bool {
    forall|x: int, y: int|
        marked.contains(x) && !grey.contains(x) && #[trigger] pre.edge(x, y) ==> marked.contains(y)
}

/// A list without repeats of indices below `n` has at most `n` entries.
pub proof fn lemma_distinct_below(s: Seq<usize>, n: int)
    requires
        s.no_duplicates(),
        0 <= n,
        forall|k: int| 0 <= k < s.len() ==> #[trigger] s[k] < n,
    ensures
        s.len() <= n,
{
    let t = s.map_values(|x: usize| x as int);
    assert(t.no_duplicates()) by {
        assert forall|i: int, j: int| 0 <= i < t.len() && 0 <= j < t.len() && i != j implies t[i]
            != t[j] by {
            assert(s[i] != s[j]);
        }
    }
    t.unique_seq_to_set();
    lemma_int_range(0, n);
    assert(t.to_set().subset_of(set_int_range(0, n))) by {
        assert forall|a: int| t.to_set().contains(a) implies set_int_range(0, n).contains(a) by {
            let k = choose|k: int| 0 <= k < t.len() && t[k] == a;
            assert(s[k] < n);
        }
    }
    lemma_len_subset(t.to_set(), set_int_range(0, n));
}

/// No more objects are marked than there are words below the frontier.
pub proof fn lemma_marked_count(pre: HeapView, stack: Seq<u64>, cur: HeapView, live: Seq<usize>)
    requires
        marking(pre, stack, cur, live),
    ensures
        live.len() <= pre.frontier,
{
    assert forall|k: int| 0 <= k < live.len() implies #[trigger] live[k] < pre.frontier by {
        lemma_object_bounds(pre, live[k] as int);
    }
    lemma_distinct_below(live, pre.frontier);
}

/// While marking, a word inside an object and past its header is as it was
/// before the collection.
pub proof fn lemma_body_unmarked(
    pre: HeapView,
    stack: Seq<u64>,
    cur: HeapView,
    live: Seq<usize>,
    a: int,
    i: int,
)
    requires
        marking(pre, stack, cur, live),
        pre.is_object(a),
        a < i < pre.end_of(a),
    ensures
        0 <= i < cur.words.len(),
        cur.words[i] == pre.words[i],
{
    lemma_object_bounds(pre, a);
    if addr_set(live).contains(i) {
        let k = choose|k: int| 0 <= k < live.len() && #[trigger] live[k] as int == i;
        lemma_objects_disjoint(pre, a, i);
    }
}

/// Pushing an address adds it to the set of addresses.
pub proof fn lemma_addr_set_push(s: Seq<usize>, a: usize)
    ensures
        addr_set(s.push(a)) == addr_set(s).insert(a as int),
{
    let t = s.push(a);
    assert forall|x: int| addr_set(t).contains(x) == addr_set(s).insert(a as int).contains(x) by {
        if addr_set(t).contains(x) {
            let k = choose|k: int| 0 <= k < t.len() && #[trigger] t[k] as int == x;
            if k < s.len() {
                assert(s[k] as int == x);
            }
        }
        if addr_set(s).contains(x) {
            let k = choose|k: int| 0 <= k < s.len() && #[trigger] s[k] as int == x;
            assert(t[k] as int == x);
        }
        if x == a as int {
            assert(t[s.len() as int] as int == x);
        }
    }
    assert(addr_set(t) =~= addr_set(s).insert(a as int));
}

/// Marks the object at `a` and everything that can be reached from it
/// through objects not marked yet, and lists each newly marked object.
pub(crate) fn mark(
    heap: &mut Heap,
    a: usize,
    live: &mut Vec<usize>,
    Ghost(pre): Ghost<HeapView>,
    Ghost(stack): Ghost<Seq<u64>>,
    Ghost(grey): Ghost<Set<int>>,
)
    requires
        marking(pre, stack, old(heap)@, old(live)@),
        pre.is_object(a as int),
        pre.reachable(stack, a as int),
        closed_except(pre, addr_set(old(live)@), grey),
    ensures
        marking(pre, stack, final(heap)@, final(live)@),
        closed_except(pre, addr_set(final(live)@), grey),
        addr_set(final(live)@).contains(a as int),
        addr_set(old(live)@).subset_of(addr_set(final(live)@)),
        old(live)@.len() <= final(live)@.len(),
    decreases pre.frontier - old(live)@.len(),
{
    proof {
        lemma_object_bounds(pre, a as int);
        lemma_marked_count(pre, stack, heap@, live@);
    }
    if heap.words[a] != 0 {
        assert(addr_set(live@).contains(a as int));
        return ;
    }
    assert(!addr_set(live@).contains(a as int));
    let ghost live0 = live@;
    live.push(a);
    heap.words.set(a, 1);
    proof {
        lemma_addr_set_push(live0, a);
        assert(live@.no_duplicates()) by {
            assert forall|i: int, j: int|
                0 <= i < live@.len() && 0 <= j < live@.len() && i != j implies live@[i]
                != live@[j] by {
                if i < live0.len() {
                    assert(live0[i] as int != a as int);
                }
                if j < live0.len() {
                    assert(live0[j] as int != a as int);
                }
            }
        }
        assert(marking(pre, stack, heap@, live@));
    }
    proof {
        lemma_body_unmarked(pre, stack, heap@, live@, a as int, a + 1);
    }
    let size: u64 = heap.words[a + 1];
    let ghost inner = grey.insert(a as int);
    let mut j: u64 = 0;
    while j < size
        invariant
            marking(pre, stack, heap@, live@),
            closed_except(pre, addr_set(live@), inner),
            inner == grey.insert(a as int),
            addr_set(live@).contains(a as int),
            addr_set(live0.push(a)).subset_of(addr_set(live@)),
            live0.len() < live@.len(),
            live0 == old(live)@,
            pre.is_object(a as int),
            pre.reachable(stack, a as int),
            size == pre.size_of(a as int),
            j <= size,
            forall|i: int|
                0 <= i < j && pre.in_range(#[trigger] pre.elem(a as int, i)) ==> addr_set(
                    live@,
                ).contains(pre.index_of(pre.elem(a as int, i))),
        decreases size - j,
    {
        proof {
            lemma_object_bounds(pre, a as int);
        }
        proof {
            lemma_body_unmarked(pre, stack, heap@, live@, a as int, a + 2 + j);
        }
        let v: u64 = heap.words[a + 2 + j as usize];
        match heap.target(v) {
            Some(t) => {
                proof {
                    lemma_edge_reachable(pre, stack, a as int, j as int);
                }
                let ghost before = live@;
                proof {
                    lemma_marked_count(pre, stack, heap@, live@);
                }
                mark(heap, t, live, Ghost(pre), Ghost(stack), Ghost(inner));
                assert(addr_set(before).subset_of(addr_set(live@)));
            },
            None => {},
        }
        j = j + 1;
    }
    proof {
        assert forall|x: int, y: int|
            addr_set(live@).contains(x) && !grey.contains(x) && #[trigger] pre.edge(
                x,
                y,
            ) implies addr_set(live@).contains(y) by {
            if x == a as int {
                let i = choose|i: int|
                    0 <= i < pre.size_of(x) && pre.in_range(#[trigger] pre.elem(x, i))
                        && pre.index_of(pre.elem(x, i)) == y;
                assert(0 <= i < j);
            } else {
                assert(!inner.contains(x));
            }
        }
        assert(addr_set(live0).subset_of(addr_set(live@))) by {
            assert(addr_set(live0).subset_of(addr_set(live0.push(a))));
        }
    }
}

/// The list does not descend.
pub open spec fn ascending(s: Seq<usize>) -> bool {
    forall|i: int, j: int| 0 <= i < j < s.len() ==> s[i] <= s[j]
}

/// The list ascends and holds nothing twice.
pub open spec fn strictly_ascending(s: Seq<usize>) -> bool {
    forall|i: int, j: int| 0 <= i < j < s.len() ==> s[i] < s[j]
}

/// Sorts the list with `sort_unstable` of the standard library. Afterwards
/// the list does not descend and holds the same addresses as before, each
/// as often as before.
#[verifier::external_body]
fn sort_addresses(v: &mut Vec<usize>)
    ensures
        ascending(final(v)@),
        final(v)@.to_multiset() == old(v)@.to_multiset(),
{
    v.sort_unstable();
}

/// Puts a list of distinct addresses into ascending order.
pub fn sort_live(live: &mut Vec<usize>)
    requires
        old(live)@.no_duplicates(),
    ensures
        strictly_ascending(final(live)@),
        addr_set(final(live)@) == addr_set(old(live)@),
        final(live)@.len() == old(live)@.len(),
        final(live)@.to_multiset() == old(live)@.to_multiset(),
{
    let ghost before = live@;
    sort_addresses(live);
    proof {
        let after = live@;
        broadcast use vstd::seq_lib::group_to_multiset_ensures;

        before.lemma_multiset_has_no_duplicates();
        after.lemma_multiset_has_no_duplicates_conv();
        assert forall|a: int| addr_set(after).contains(a) == addr_set(before).contains(a) by {
            if addr_set(after).contains(a) {
                let k = choose|k: int| 0 <= k < after.len() && #[trigger] after[k] as int == a;
                assert(after.contains(after[k]));
                assert(after.to_multiset().count(after[k]) > 0);
                assert(before.to_multiset().count(after[k]) > 0);
                assert(before.contains(after[k]));
                let m = choose|m: int| 0 <= m < before.len() && before[m] == after[k];
                assert(before[m] as int == a);
            }
            if addr_set(before).contains(a) {
                let k = choose|k: int| 0 <= k < before.len() && #[trigger] before[k] as int == a;
                assert(before.contains(before[k]));
                assert(before.to_multiset().count(before[k]) > 0);
                assert(after.to_multiset().count(before[k]) > 0);
                assert(after.contains(before[k]));
                let m = choose|m: int| 0 <= m < after.len() && after[m] == before[k];
                assert(after[m] as int == a);
            }
        }
        assert(addr_set(after) =~= addr_set(before));
        assert(after.len() == after.to_multiset().len());
        assert(before.len() == before.to_multiset().len());
        assert(strictly_ascending(after)) by {
            assert forall|i: int, j: int| 0 <= i < j < after.len() implies after[i] < after[j] by {
                assert(after[i] != after[j]);
            }
        }
    }
}

/// The mark phase: marks every object that can be reached from the roots,
/// depth first, and lists the marked objects in ascending order of their
/// addresses, each once.
pub fn mark_from_roots(heap: &mut Heap, stack: &Vec<u64>, roots: &Vec<usize>) -> (live: Vec<
    usize,
>)
    requires
        old(heap)@.wf(),
        old(heap)@.roots_ok(stack@),
        roots@ == root_slots(old(heap)@, stack@, 0),
    ensures
        marking(old(heap)@, stack@, final(heap)@, live@),
        live@.no_duplicates(),
        strictly_ascending(live@),
        addr_set(live@) == old(heap)@.live(stack@),
{
    let ghost pre = heap@;
    let mut live: Vec<usize> = Vec::new();
    let slots: usize = stack.len();
    proof {
        lemma_root_slots_are_roots(pre, stack@, 0);
        assert(addr_set(live@) =~= Set::<int>::empty());
    }
    let mut k: usize = 0;
    while k < roots.len()
        invariant
            k <= roots.len(),
            slots == stack@.len(),
            marking(pre, stack@, heap@, live@),
            closed_except(pre, addr_set(live@), Set::<int>::empty()),
            forall|m: int|
                0 <= m < roots@.len() ==> {
                    let r = #[trigger] roots@[m];
                    r < stack@.len() && pre.in_range(stack@[r as int])
                },
            forall|m: int|
                0 <= m < k ==> addr_set(live@).contains(
                    pre.index_of(stack@[(#[trigger] roots@[m]) as int]),
                ),
        decreases roots.len() - k,
    {
        let r: usize = roots[k];
        let v: u64 = stack[r];
        proof {
            lemma_root_reachable(pre, stack@, r as int);
        }
        match heap.target(v) {
            Some(t) => {
                mark(heap, t, &mut live, Ghost(pre), Ghost(stack@), Ghost(Set::<int>::empty()));
            },
            None => {},
        }
        k = k + 1;
    }
    proof {
        let marked = addr_set(live@);
        assert forall|b: int| pre.is_root(stack@, b) implies marked.contains(b) by {
            let i = choose|i: int|
                0 <= i < stack@.len() && pre.in_range(#[trigger] stack@[i]) && pre.index_of(
                    stack@[i],
                ) == b;
            lemma_root_slots_are_roots(pre, stack@, 0);
            assert(roots@.contains(i as usize));
            let m = choose|m: int| 0 <= m < roots@.len() && roots@[m] == i as usize;
            assert(marked.contains(pre.index_of(stack@[roots@[m] as int])));
        }
        assert forall|b: int| pre.reachable(stack@, b) implies marked.contains(b) by {
            lemma_closed_holds_reachable(pre, stack@, marked, b);
        }
        assert forall|b: int| marked.contains(b) implies pre.reachable(stack@, b) by {
            let m = choose|m: int| 0 <= m < live@.len() && #[trigger] live@[m] as int == b;
        }
        assert(marked =~= pre.live(stack@));
    }
    let ghost found = live@;
    sort_live(&mut live);
    proof {
        assert forall|k: int| 0 <= k < live@.len() implies pre.is_object(
            #[trigger] live@[k] as int,
        ) && pre.reachable(stack@, live@[k] as int) by {
            assert(addr_set(live@).contains(live@[k] as int));
            let m = choose|m: int|
                0 <= m < found.len() && #[trigger] found[m] as int == live@[k] as int;
        }
    }
    live
}

} // verus!
