//! How objects lie in the word region.
//!
//! An object is a block of words: a header word, a size word, and as many
//! element words as the size word says. The allocated part of the region is
//! a gapless run of such blocks from word 0 up to the frontier.

use vstd::prelude::*;

verus! {

/// The index one past the last word of the block that starts at `a`.
pub open spec fn block_end(words: Seq<u64>, a: int) -> int {
    a + 2 + words[a + 1] as int
}

/// The words in `[from, limit)` are exactly a run of blocks.
pub open spec fn tiled(words: Seq<u64>, from: int, limit: int) -> bool
    decreases limit - from,
{
    if from == limit {
        true
    } else if from < 0 || from + 2 > limit || limit > words.len() || block_end(words, from)
        > limit {
        false
    } else {
        tiled(words, block_end(words, from), limit)
    }
}

/// `a` is the start of one of the blocks met when walking from the block
/// start `from` towards `limit`.
pub open spec fn is_block(words: Seq<u64>, from: int, limit: int, a: int) -> bool
    decreases limit - from,
{
    if from < 0 || from + 2 > limit || limit > words.len() || block_end(words, from) > limit {
        false
    } else if a == from {
        true
    } else {
        is_block(words, block_end(words, from), limit, a)
    }
}

/// The start of the block that holds word `i`, walking from the block start
/// `from`.
pub open spec fn block_of(words: Seq<u64>, from: int, i: int) -> int
    decreases i - from,
{
    if from < 0 || from + 1 >= words.len() || i < block_end(words, from) {
        from
    } else {
        block_of(words, block_end(words, from), i)
    }
}

/// A block of a tiled run lies inside the run, the rest of the run from it
/// on is tiled too, and the block after it, if any, is a block of the run.
pub proof fn lemma_block_bounds(words: Seq<u64>, from: int, limit: int, a: int)
    requires
        tiled(words, from, limit),
        is_block(words, from, limit, a),
    ensures
        0 <= from <= a,
        a + 2 <= block_end(words, a) <= limit <= words.len(),
        tiled(words, a, limit),
        tiled(words, block_end(words, a), limit),
        block_end(words, a) < limit ==> is_block(words, from, limit, block_end(words, a)),
    decreases limit - from,
{
    if a != from {
        lemma_block_bounds(words, block_end(words, from), limit, a);
    } else {
        let e = block_end(words, a);
        if e < limit {
            assert(tiled(words, e, limit));
            assert(is_block(words, e, limit, e));
        }
    }
}

/// The first word of a nonempty tiled run starts a block.
pub proof fn lemma_first_block(words: Seq<u64>, from: int, limit: int)
    requires
        tiled(words, from, limit),
        from < limit,
    ensures
        is_block(words, from, limit, from),
{
}

/// A block lies between the start of the walk and its limit.
pub proof fn lemma_block_range(words: Seq<u64>, from: int, limit: int, a: int)
    requires
        is_block(words, from, limit, a),
    ensures
        0 <= from <= a < limit <= words.len(),
    decreases limit - from,
{
    if a != from {
        lemma_block_range(words, block_end(words, from), limit, a);
    }
}

/// Two different blocks of a tiled run do not overlap.
pub proof fn lemma_blocks_disjoint(words: Seq<u64>, from: int, limit: int, a: int, b: int)
    requires
        tiled(words, from, limit),
        is_block(words, from, limit, a),
        is_block(words, from, limit, b),
        a < b,
    ensures
        block_end(words, a) <= b,
    decreases limit - from,
{
    if from == a {
        lemma_block_bounds(words, block_end(words, from), limit, b);
    } else if from == b {
        lemma_block_bounds(words, block_end(words, from), limit, a);
    } else {
        lemma_blocks_disjoint(words, block_end(words, from), limit, a, b);
    }
}

/// In a tiled run the block that holds a word of the run is a block of the
/// run, and it does hold the word.
pub proof fn lemma_block_of_word(words: Seq<u64>, from: int, limit: int, i: int)
    requires
        tiled(words, from, limit),
        from <= i < limit,
    ensures
        is_block(words, from, limit, block_of(words, from, i)),
        block_of(words, from, i) <= i < block_end(words, block_of(words, from, i)),
    decreases limit - from,
{
    if i >= block_end(words, from) {
        lemma_block_of_word(words, block_end(words, from), limit, i);
    }
}

/// In a tiled run a word that lies inside a block of the run is held by that
/// block and no other.
pub proof fn lemma_block_of_unique(words: Seq<u64>, from: int, limit: int, a: int, i: int)
    requires
        tiled(words, from, limit),
        is_block(words, from, limit, a),
        a <= i < block_end(words, a),
    ensures
        block_of(words, from, i) == a,
    decreases limit - from,
{
    lemma_block_bounds(words, from, limit, a);
    if from != a {
        lemma_first_block(words, from, limit);
        lemma_blocks_disjoint(words, from, limit, from, a);
        lemma_block_of_unique(words, block_end(words, from), limit, a, i);
    }
}

/// Two word sequences of one length that agree on the size word of every
/// block of a tiled run have the same blocks there.
pub proof fn lemma_same_sizes_same_blocks(
    w1: Seq<u64>,
    w2: Seq<u64>,
    from: int,
    limit: int,
)
    requires
        tiled(w1, from, limit),
        w1.len() == w2.len(),
        forall|a: int| #[trigger] is_block(w1, from, limit, a) ==> w2[a + 1] == w1[a + 1],
    ensures
        tiled(w2, from, limit),
        forall|a: int| #[trigger] is_block(w2, from, limit, a) == is_block(w1, from, limit, a),
    decreases limit - from,
{
    if from == limit {
        assert forall|a: int| #[trigger] is_block(w2, from, limit, a) == is_block(
            w1,
            from,
            limit,
            a,
        ) by {}
    } else {
        lemma_first_block(w1, from, limit);
        let next = block_end(w1, from);
        assert(next == block_end(w2, from));
        assert forall|a: int| #[trigger] is_block(w1, next, limit, a) implies w2[a + 1] == w1[a
            + 1] by {
            assert(is_block(w1, from, limit, a));
        }
        lemma_same_sizes_same_blocks(w1, w2, next, limit);
        assert forall|a: int| #[trigger] is_block(w2, from, limit, a) == is_block(
            w1,
            from,
            limit,
            a,
        ) by {
            if a != from {
                assert(is_block(w2, next, limit, a) == is_block(w1, next, limit, a));
            }
        }
    }
}

} // verus!
