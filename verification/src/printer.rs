//! The value printer.
//!
//! Integers print as decimal numerals, the reserved words as `true`,
//! `false` and `nil`, and a reference as the elements of its object between
//! brackets. An object that is met again while it is being printed prints
//! as `[...]`.

use crate::heap::{Heap, HeapView};
use crate::text::{decimal, decimal_string, numeral, push_numeral};
use crate::value::{int_of_word, is_ref_word, word_to_int, FALSE, NIL, TRUE};
use std::collections::HashSet;
use vstd::prelude::*;
use vstd::set_lib::{lemma_int_range, lemma_len_subset, set_int_range};
use vstd::string::StringExecFns;

verus! {

/// The text `true`.
pub open spec fn text_true() -> Seq<char> {
    seq!['t', 'r', 'u', 'e']
}

/// The text `false`.
pub open spec fn text_false() -> Seq<char> {
    seq!['f', 'a', 'l', 's', 'e']
}

/// The text `nil`.
pub open spec fn text_nil() -> Seq<char> {
    seq!['n', 'i', 'l']
}

/// The marker printed in place of an object that is being printed already.
pub open spec fn text_ellipsis() -> Seq<char> {
    seq!['[', '.', '.', '.', ']']
}

/// The text for a reference that refers to no vector in the region.
pub open spec fn text_unknown(v: u64) -> Seq<char> {
    "unknown value: "@ + numeral(v as nat, 10)
}

/// What stands between two elements.
pub open spec fn text_separator() -> Seq<char> {
    seq![',', ' ']
}

impl HeapView {
    /// The word refers to a vector that lies in the region: it is the
    /// reference to a word of the region, and the size word after that word
    /// and as many elements as it tells lie in the region too.
    pub open spec fn holds_vec(self, v: u64) -> bool {
        &&& self.in_range(v)
        &&& v == self.reference_to(self.index_of(v))
        &&& self.index_of(v) + 2 + self.size_of(self.index_of(v)) <= self.words.len()
    }

    /// The words of the region whose reference is not in `seen`.
    pub open spec fn unseen(self, seen: Set<u64>) -> Set<int> {
        Set::new(|a: int| 0 <= a < self.words.len() && !seen.contains(self.reference_to(a)))
    }

    /// The text of a word, where the objects whose references are in
    /// `seen` are being printed already. A reference that is not being
    /// printed and does not refer to a vector in the region prints as an
    /// unknown value, with its numeral.
    pub open spec fn render(self, v: u64, seen: Set<u64>) -> Seq<char>
        decreases self.unseen(seen).len(), 0nat, 0nat,
    {
        if v == TRUE {
            text_true()
        } else if v == FALSE {
            text_false()
        } else if v % 2 == 0 {
            decimal(int_of_word(v))
        } else if v == NIL {
            text_nil()
        } else if seen.contains(v) {
            text_ellipsis()
        } else if !self.holds_vec(v) {
            text_unknown(v)
        } else {
            proof {
                lemma_unseen_shrinks(self, v, seen);
            }
            seq!['['] + self.render_elems(self.index_of(v), 0, seen.insert(v)) + seq![']']
        }
    }

    /// The text of the elements of the object at `a` from element `j` on,
    /// with a separator after each but the last.
    pub open spec fn render_elems(self, a: int, j: int, seen: Set<u64>) -> Seq<char>
        decreases self.unseen(seen).len(), 1nat, self.size_of(a) - j,
    {
        if j < 0 || j >= self.size_of(a) {
            Seq::empty()
        } else {
            self.render(self.elem(a, j), seen) + (if j < self.size_of(a) - 1 {
                text_separator()
            } else {
                Seq::empty()
            }) + self.render_elems(a, j + 1, seen)
        }
    }
}

/// The words not seen are finitely many.
pub proof fn lemma_unseen_finite(h: HeapView, seen: Set<u64>)
    ensures
        h.unseen(seen).finite(),
{
    lemma_int_range(0, h.words.len() as int);
    assert(h.unseen(seen).subset_of(set_int_range(0, h.words.len() as int)));
    vstd::set_lib::lemma_set_subset_finite(set_int_range(0, h.words.len() as int), h.unseen(seen));
}

/// Seeing one more vector leaves fewer words unseen.
pub proof fn lemma_unseen_shrinks(h: HeapView, v: u64, seen: Set<u64>)
    requires
        h.holds_vec(v),
        !seen.contains(v),
    ensures
        h.unseen(seen.insert(v)).len() < h.unseen(seen).len(),
{
    let before = h.unseen(seen);
    let after = h.unseen(seen.insert(v));
    let a = h.index_of(v);
    lemma_unseen_finite(h, seen);
    lemma_unseen_finite(h, seen.insert(v));
    assert(before.contains(a));
    assert(after.subset_of(before.remove(a)));
    lemma_len_subset(after, before.remove(a));
}

/// Cycle safety: an object that is met again while it is being printed
/// prints as the ellipsis marker, whatever it holds.
pub proof fn lemma_back_edge_prints_ellipsis(h: HeapView, v: u64, seen: Set<u64>)
    requires
        is_ref_word(v),
        seen.contains(v),
    ensures
        h.render(v, seen) == text_ellipsis(),
{
}

/// An object that is not being printed already prints in full: its
/// elements between brackets, and among them the object itself as the
/// ellipsis marker.
pub proof fn lemma_fresh_object_prints_in_full(h: HeapView, v: u64, seen: Set<u64>)
    requires
        h.holds_vec(v),
        !seen.contains(v),
    ensures
        h.render(v, seen) == seq!['['] + h.render_elems(h.index_of(v), 0, seen.insert(v)) + seq![
            ']',
        ],
        h.render(v, seen.insert(v)) == text_ellipsis(),
{
    assert(v % 2 == 1);
}

/// The object at `a` prints each element by itself, against the same set of
/// objects being printed. So two elements that hold the same word print
/// alike; and a vector that stands in two places of one object, and is not
/// being printed already, is printed in full in both.
pub proof fn lemma_siblings_print_alike(h: HeapView, a: int, i: int, j: int, seen: Set<u64>)
    requires
        0 <= i < h.size_of(a),
        0 <= j < h.size_of(a),
        h.elem(a, i) == h.elem(a, j),
    ensures
        h.render_elems(a, i, seen) == h.render(h.elem(a, i), seen) + (if i < h.size_of(a) - 1 {
            text_separator()
        } else {
            Seq::empty()
        }) + h.render_elems(a, i + 1, seen),
        h.render_elems(a, j, seen) == h.render(h.elem(a, i), seen) + (if j < h.size_of(a) - 1 {
            text_separator()
        } else {
            Seq::empty()
        }) + h.render_elems(a, j + 1, seen),
        h.holds_vec(h.elem(a, i)) && !seen.contains(h.elem(a, i)) ==> h.render(
            h.elem(a, i),
            seen,
        ) == seq!['['] + h.render_elems(
            h.index_of(h.elem(a, i)),
            0,
            seen.insert(h.elem(a, i)),
        ) + seq![']'],
{
    if h.holds_vec(h.elem(a, i)) && !seen.contains(h.elem(a, i)) {
        lemma_fresh_object_prints_in_full(h, h.elem(a, i), seen);
    }
}

impl Heap {
    /// The index and the size of the vector that a word refers to, if it
    /// refers to one that lies in the region.
    pub fn vec_at(&self, v: u64) -> (r: Option<(usize, u64)>)
        requires
            self@.bounded(),
        ensures
            r.is_some() <==> self@.holds_vec(v),
            r matches Some((at, size)) ==> at == self@.index_of(v) && size == self@.size_of(
                at as int,
            ) && at + 2 + size <= self.words.len(),
    {
        match self.target(v) {
            Some(at) => {
                let n: usize = self.words.len();
                let aligned: bool = (v - 1 - self.start) % 8 == 0;
                if !aligned || n - at < 2 {
                    return None;
                }
                let size: u64 = self.words[at + 1];
                if size > (n - at - 2) as u64 {
                    return None;
                }
                Some((at, size))
            },
            None => None,
        }
    }
}

/// The text of a word. `seen` holds the references to the objects that are
/// being printed already, and is left as it was.
pub fn snek_str(heap: &Heap, val: u64, seen: &mut HashSet<u64>) -> (text: String)
    requires
        heap@.bounded(),
    ensures
        text@ == heap@.render(val, old(seen)@),
        final(seen)@ == old(seen)@,
    decreases heap@.unseen(old(seen)@).len(),
{
    broadcast use vstd::std_specs::hash::group_hash_axioms;

    proof {
        reveal_strlit("true");
        reveal_strlit("false");
        reveal_strlit("nil");
        reveal_strlit("[...]");
        reveal_strlit("[");
        reveal_strlit("]");
        reveal_strlit(", ");
    }
    if val == TRUE {
        let text = String::from_str("true");
        assert(text@ =~= text_true());
        text
    } else if val == FALSE {
        let text = String::from_str("false");
        assert(text@ =~= text_false());
        text
    } else if val % 2 == 0 {
        decimal_string(word_to_int(val))
    } else if val == NIL {
        let text = String::from_str("nil");
        assert(text@ =~= text_nil());
        text
    } else {
        let ghost seen0 = seen@;
        if !seen.insert(val) {
            let text = String::from_str("[...]");
            assert(text@ =~= text_ellipsis());
            assert(seen@ =~= seen0);
            return text;
        }
        let ghost inner = seen0.insert(val);
        let ghost h = heap@;
        let (at, size) = match heap.vec_at(val) {
            Some(found) => found,
            None => {
                seen.remove(&val);
                assert(seen@ =~= seen0);
                let mut text = String::from_str("unknown value: ");
                push_numeral(&mut text, val, 10);
                return text;
            },
        };
        let ghost a = h.index_of(val);
        proof {
            lemma_unseen_shrinks(h, val, seen0);
        }
        let mut text = String::from_str("[");
        let mut i: u64 = 0;
        while i < size
            invariant
                h == heap@,
                h.bounded(),
                at == a,
                size == h.size_of(a),
                at + 2 + size <= heap.words.len(),
                i <= size,
                seen@ == inner,
                h.unseen(inner).len() < h.unseen(seen0).len(),
                seen0 == old(seen)@,
                text@ + h.render_elems(a, i as int, inner) == seq!['['] + h.render_elems(
                    a,
                    0,
                    inner,
                ),
            decreases size - i,
        {
            let elem: u64 = heap.words[at + 2 + i as usize];
            assert(elem == h.elem(a, i as int));
            let ghost before = text@;
            let piece = snek_str(heap, elem, seen);
            text.append(piece.as_str());
            if i < size - 1 {
                text.append(", ");
            }
            proof {
                let sep = if i < size - 1 {
                    text_separator()
                } else {
                    Seq::<char>::empty()
                };
                reveal_strlit(", ");
                assert(", "@ =~= text_separator());
                assert(text@ =~= before + h.render(elem, inner) + sep);
                assert(h.render_elems(a, i as int, inner) == h.render(elem, inner) + sep
                    + h.render_elems(a, i + 1, inner));
                assert(text@ + h.render_elems(a, i + 1, inner) =~= before + h.render_elems(
                    a,
                    i as int,
                    inner,
                ));
            }
            i = i + 1;
        }
        seen.remove(&val);
        text.append("]");
        proof {
            assert(seen@ =~= seen0);
            assert(h.render_elems(a, size as int, inner) =~= Seq::<char>::empty());
            assert(text@ =~= seq!['['] + h.render_elems(a, 0, inner) + seq![']']);
        }
        text
    }
}

/// The print trap: the line to print for a value, and the value itself.
pub fn snek_print(heap: &Heap, val: u64) -> (r: (String, u64))
    requires
        heap@.bounded(),
    ensures
        r.0@ == heap@.render(val, Set::empty()),
        r.1 == val,
{
    let mut seen: HashSet<u64> = HashSet::new();
    let text = snek_str(heap, val, &mut seen);
    (text, val)
}

} // verus!
