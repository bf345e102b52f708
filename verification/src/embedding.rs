//! Order-preserving embeddings of a pattern into a text, and the facts by
//! which a single left-to-right scan decides whether one exists.
//!
//! A pattern is embedded in a text by giving each of its items a position
//! in the text that the item *hits*, such that the positions rise strictly.
//! What counts as a hit is a parameter: the deterministic matcher compares
//! alphabet slots, the pre-filter asks whether a mask holds a class bit.

use vstd::prelude::*;

verus! {

/// `at` gives each item of `pattern` a position in `text` that it hits, and
/// later items get later positions.
pub open spec fn is_embedding<P, T>(
    at: Seq<int>,
    pattern: Seq<P>,
    text: Seq<T>,
    hit: spec_fn(P, T) -> bool,
) -> bool {
    &&& at.len() == pattern.len()
    &&& forall|k: int|
        0 <= k < at.len() ==> 0 <= #[trigger] at[k] < text.len() && hit(pattern[k], text[at[k]])
    &&& forall|j: int, k: int| 0 <= j < k < at.len() ==> at[j] < at[k]
}

/// The pattern can be found in the text, item by item and in order, gaps
/// allowed.
pub open spec fn embeds<P, T>(pattern: Seq<P>, text: Seq<T>, hit: spec_fn(P, T) -> bool) -> bool {
    exists|at: Seq<int>| is_embedding(at, pattern, text, hit)
}

/// What a leftmost scan has established once it has placed the first `k`
/// items of the pattern and stands at position `i` of the text: those items
/// are embedded in what lies before `i`, and no embedding of them ends
/// earlier than the scan's own.
pub open spec fn scanned<P, T>(
    pattern: Seq<P>,
    text: Seq<T>,
    hit: spec_fn(P, T) -> bool,
    k: int,
    i: int,
) -> bool {
    &&& 0 <= k <= pattern.len()
    &&& 0 <= i <= text.len()
    &&& k == 0 ==> i == 0
    &&& embeds(pattern.take(k), text.take(i), hit)
    &&& forall|at: Seq<int>| #[trigger]
        is_embedding(at, pattern.take(k), text, hit) && k > 0 ==> at[k - 1] + 1 >= i
}

/// The empty pattern is embedded in every text.
pub proof fn lemma_embeds_empty<P, T>(pattern: Seq<P>, text: Seq<T>, hit: spec_fn(P, T) -> bool)
    requires
        pattern.len() == 0,
    ensures
        embeds(pattern, text, hit),
{
    assert(is_embedding(Seq::<int>::empty(), pattern, text, hit));
}

/// The first items of an embedded pattern are embedded by the first
/// positions.
pub proof fn lemma_embedding_prefix<P, T>(
    at: Seq<int>,
    pattern: Seq<P>,
    text: Seq<T>,
    hit: spec_fn(P, T) -> bool,
    k: int,
)
    requires
        is_embedding(at, pattern, text, hit),
        0 <= k <= pattern.len(),
    ensures
        is_embedding(at.take(k), pattern.take(k), text, hit),
{
}

/// A scan starts with nothing placed, at the start of the text.
pub proof fn lemma_scan_start<P, T>(pattern: Seq<P>, text: Seq<T>, hit: spec_fn(P, T) -> bool)
    ensures
        scanned(pattern, text, hit, 0, 0),
{
    lemma_embeds_empty(pattern.take(0), text.take(0), hit);
}

/// Where the next item of the pattern hits the text at `j` and nowhere
/// between the cursor and `j`, the scan places it there and moves on to
/// `j + 1`.
pub proof fn lemma_scan_hit<P, T>(
    pattern: Seq<P>,
    text: Seq<T>,
    hit: spec_fn(P, T) -> bool,
    k: int,
    i: int,
    j: int,
)
    requires
        scanned(pattern, text, hit, k, i),
        k < pattern.len(),
        i <= j < text.len(),
        hit(pattern[k], text[j]),
        forall|x: int| i <= x < j ==> !hit(pattern[k], #[trigger] text[x]),
    ensures
        scanned(pattern, text, hit, k + 1, j + 1),
{
    let before = choose|at: Seq<int>| is_embedding(at, pattern.take(k), text.take(i), hit);
    let placed = before.push(j);
    assert(is_embedding(placed, pattern.take(k + 1), text.take(j + 1), hit));
    assert forall|at: Seq<int>| #[trigger]
        is_embedding(at, pattern.take(k + 1), text, hit) implies at[k] + 1 >= j + 1 by {
        lemma_embedding_prefix(at, pattern.take(k + 1), text, hit, k);
        assert(pattern.take(k + 1).take(k) =~= pattern.take(k));
    }
}

/// Where the next item of the pattern hits nothing from the cursor on, the
/// pattern is not embedded in the text at all.
pub proof fn lemma_scan_miss<P, T>(
    pattern: Seq<P>,
    text: Seq<T>,
    hit: spec_fn(P, T) -> bool,
    k: int,
    i: int,
)
    requires
        scanned(pattern, text, hit, k, i),
        k < pattern.len(),
        forall|x: int| i <= x < text.len() ==> !hit(pattern[k], #[trigger] text[x]),
    ensures
        !embeds(pattern, text, hit),
{
    if embeds(pattern, text, hit) {
        let at = choose|at: Seq<int>| is_embedding(at, pattern, text, hit);
        lemma_embedding_prefix(at, pattern, text, hit, k);
        assert(hit(pattern[k], text[at[k]]));
    }
}

/// Once every item is placed, the pattern is embedded in the text.
pub proof fn lemma_scan_done<P, T>(
    pattern: Seq<P>,
    text: Seq<T>,
    hit: spec_fn(P, T) -> bool,
    i: int,
)
    requires
        scanned(pattern, text, hit, pattern.len() as int, i),
    ensures
        embeds(pattern, text, hit),
{
    let k = pattern.len() as int;
    let at = choose|at: Seq<int>| is_embedding(at, pattern.take(k), text.take(i), hit);
    assert(is_embedding(at, pattern, text, hit));
}

} // verus!
