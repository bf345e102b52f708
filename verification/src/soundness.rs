//! The pre-filter against the deterministic matcher: what the signature of
//! a word list can and cannot rule out.

use crate::alphabet::{in_alphabet, lemma_class_bits_meet, lemma_slot_range, low_byte};
use crate::embedding::is_embedding;
use crate::encoding::{char_index, lemma_char_index, lemma_char_index_rises};
use crate::matching::{
    is_subsequence_of, mask_hit, matches_all, matches_any_word, signature_admits, slot_hit,
};
use crate::signature::{lemma_signature_covers, signature};
use crate::todo_list::{hits, is_hit, lemma_hits_are_the_matching_items, well_formed, ItemView};
use vstd::prelude::*;
use vstd::utf8::encode_utf8;

verus! {

/// Every character of the pattern is classified as a letter or the hyphen.
pub open spec fn within_alphabet(pattern: Seq<char>) -> bool {
    forall|k: int| 0 <= k < pattern.len() ==> in_alphabet(low_byte(#[trigger] pattern[k]))
}

/// One of the patterns holds a character that is neither classified as a
/// letter nor as the hyphen.
pub open spec fn has_foreign_pattern(patterns: Seq<Seq<char>>) -> bool {
    exists|k: int| 0 <= k < patterns.len() && !within_alphabet(#[trigger] patterns[k])
}

/// The pre-filter never rejects a true match: a pattern of letters and
/// hyphens that is a subsequence of one of the words is admitted by the
/// signature of the words.
pub proof fn lemma_signature_admits_matches(words: Seq<Seq<char>>, n: int, pattern: Seq<char>)
    requires
        0 <= n < words.len(),
        within_alphabet(pattern),
        is_subsequence_of(pattern, words[n]),
    ensures
        signature_admits(signature(words), pattern),
{
    let word = words[n];
    let bytes = encode_utf8(word);
    let masks = signature(words);
    let at = choose|at: Seq<int>| is_embedding(at, pattern, bytes, slot_hit());
    let to = Seq::new(pattern.len(), |k: int| char_index(word, at[k]));
    assert forall|k: int| 0 <= k < to.len() implies 0 <= #[trigger] to[k] < masks.len()
        && mask_hit()(pattern[k], masks[to[k]]) by {
        let c = low_byte(pattern[k]);
        let b = bytes[at[k]];
        lemma_slot_range(c);
        lemma_slot_range(b);
        lemma_char_index(word, at[k]);
        lemma_signature_covers(words, n, to[k]);
        lemma_class_bits_meet(c, b);
    }
    assert forall|j: int, k: int| 0 <= j < k < to.len() implies to[j] < to[k] by {
        let b = bytes[at[k]];
        lemma_slot_range(low_byte(pattern[k]));
        lemma_slot_range(b);
        lemma_char_index_rises(word, at[j], at[k]);
    }
    assert(is_embedding(to, pattern, masks, mask_hit()));
}

/// A pattern with a character that is neither a letter nor the hyphen is
/// admitted by no signature: such a character has no class bit to look for.
pub proof fn lemma_foreign_pattern_rejected(masks: Seq<u32>, pattern: Seq<char>)
    requires
        !within_alphabet(pattern),
    ensures
        !signature_admits(masks, pattern),
{
    let k = choose|k: int| 0 <= k < pattern.len() && !in_alphabet(low_byte(#[trigger] pattern[k]));
    assert forall|at: Seq<int>| !is_embedding(at, pattern, masks, mask_hit()) by {
        if is_embedding(at, pattern, masks, mask_hit()) {
            let mask = masks[at[k]];
            assert(mask & 0u32 == 0) by (bit_vector);
        }
    }
}

/// For patterns of letters and hyphens the pre-filter changes no result:
/// against the signature of the words themselves, the patterns match
/// exactly if each of them is a subsequence of one of the words.
pub proof fn lemma_prefilter_is_transparent(patterns: Seq<Seq<char>>, words: Seq<Seq<char>>)
    requires
        !has_foreign_pattern(patterns),
    ensures
        matches_all(patterns, signature(words), words) <==> forall|k: int|
            0 <= k < patterns.len() ==> matches_any_word(#[trigger] patterns[k], words),
{
    if forall|k: int| 0 <= k < patterns.len() ==> matches_any_word(#[trigger] patterns[k], words) {
        assert forall|k: int| 0 <= k < patterns.len() implies signature_admits(
            signature(words),
            #[trigger] patterns[k],
        ) by {
            let n = choose|n: int|
                0 <= n < words.len() && is_subsequence_of(patterns[k], #[trigger] words[n]);
            lemma_signature_admits_matches(words, n, patterns[k]);
        }
    }
}

/// The item is not done, each of the words is a subsequence of a word of
/// its description, and each of the tags is a subsequence of one of its
/// labels: what a search is to find, with no signature in it.
pub open spec fn truly_matches(
    item: ItemView,
    words: Seq<Seq<char>>,
    tags: Seq<Seq<char>>,
) -> bool {
    &&& !item.done
    &&& forall|k: int|
        0 <= k < words.len() ==> matches_any_word(#[trigger] words[k], item.description)
    &&& forall|k: int| 0 <= k < tags.len() ==> matches_any_word(#[trigger] tags[k], item.tags)
}

/// A search shows no false positive of a signature: whatever it finds
/// truly matches, in any store and for any patterns.
pub proof fn lemma_hit_truly_matches(item: ItemView, words: Seq<Seq<char>>, tags: Seq<Seq<char>>)
    requires
        is_hit(item, words, tags),
    ensures
        truly_matches(item, words, tags),
{
}

/// In a well-formed store a search for patterns of letters and hyphens
/// finds exactly the items that truly match: the signatures lose none of
/// them and add none.
pub proof fn lemma_search_finds_the_true_matches(
    items: Seq<ItemView>,
    words: Seq<Seq<char>>,
    tags: Seq<Seq<char>>,
)
    requires
        well_formed(items),
        !has_foreign_pattern(words),
        !has_foreign_pattern(tags),
    ensures
        forall|id: u64| #[trigger]
            hits(items, words, tags).contains(id) <==> id < items.len() && truly_matches(
                items[id as int],
                words,
                tags,
            ),
{
    lemma_hits_are_the_matching_items(items, words, tags);
    assert forall|id: u64| id < items.len() implies (is_hit(items[id as int], words, tags)
        <==> truly_matches(items[id as int], words, tags)) by {
        let item = items[id as int];
        lemma_prefilter_is_transparent(words, item.description);
        lemma_prefilter_is_transparent(tags, item.tags);
    }
}

/// A search with a pattern that holds a character other than a letter or
/// the hyphen finds nothing.
pub proof fn lemma_foreign_search_finds_nothing(
    items: Seq<ItemView>,
    words: Seq<Seq<char>>,
    tags: Seq<Seq<char>>,
)
    requires
        well_formed(items),
        has_foreign_pattern(words) || has_foreign_pattern(tags),
    ensures
        hits(items, words, tags) == Seq::<u64>::empty(),
{
    let found = hits(items, words, tags);
    lemma_hits_are_the_matching_items(items, words, tags);
    if found.len() > 0 {
        let id = found[0];
        assert(found.contains(id));
        let item = items[id as int];
        if has_foreign_pattern(words) {
            let k = choose|k: int| 0 <= k < words.len() && !within_alphabet(#[trigger] words[k]);
            lemma_foreign_pattern_rejected(item.words_hash, words[k]);
        } else {
            let k = choose|k: int| 0 <= k < tags.len() && !within_alphabet(#[trigger] tags[k]);
            lemma_foreign_pattern_rejected(item.tags_hash, tags[k]);
        }
    }
}

} // verus!
