//! The two matchers of one pattern, and their combination over word lists.
//!
//! A pattern is read character by character, and each character is
//! classified by its lowest eight bits. The deterministic matcher reads the
//! text byte by byte, as it is encoded; the pre-filter reads a signature,
//! which was built character by character. For letters and the hyphen, in
//! pattern and text, the three readings agree.

use crate::alphabet::{
    alphabet_slot, class_bit, get_alphabet_position, get_bit_position, in_alphabet,
    lemma_slot_range, low_byte, HYPHEN_SLOT,
};
use crate::embedding::{
    embeds, is_embedding, lemma_embeds_empty, lemma_scan_done, lemma_scan_hit, lemma_scan_miss,
    lemma_scan_start, scanned,
};
use crate::encoding::{
    byte_offset, char_index, is_ascii, lemma_byte_offset, lemma_byte_offset_rises,
    lemma_char_index, lemma_char_index_rises, lemma_scalar_bytes,
};
use vstd::prelude::*;
use vstd::utf8::encode_utf8;

verus! {

/// A pattern character hits a byte of the text that has its alphabet slot.
pub open spec fn slot_hit() -> spec_fn(char, u8) -> bool {
    |c: char, b: u8| alphabet_slot(low_byte(c)) == alphabet_slot(b)
}

/// A pattern character hits a mask that holds its class bit.
pub open spec fn mask_hit() -> spec_fn(char, u32) -> bool {
    |c: char, mask: u32| mask & class_bit(low_byte(c)) != 0
}

/// The characters of the pattern occur, in their order and by their slots,
/// among the bytes of the text.
pub open spec fn is_subsequence_of(pattern: Seq<char>, text: Seq<char>) -> bool {
    embeds(pattern, encode_utf8(text), slot_hit())
}

/// The characters of the pattern find their class bits, in their order, at
/// rising positions of the signature.
pub open spec fn signature_admits(signature: Seq<u32>, pattern: Seq<char>) -> bool {
    embeds(pattern, signature, mask_hit())
}

/// Whether the pattern is a subsequence of the text: one scan over the
/// bytes of the text, which takes for each character of the pattern the
/// next byte of its slot.
pub fn is_subsequence(pattern: &String, sequence: &String) -> (found: bool)
    ensures
        found == is_subsequence_of(pattern@, sequence@),
{
    let mut i: usize = 0;
    let bytes = sequence.as_str().as_bytes();
    let m: usize = bytes.len();
    proof {
        lemma_scan_start(pattern@, bytes@, slot_hit());
    }
    for c in it: pattern.as_str().chars()
        invariant
            it.seq() == pattern@,
            bytes@ == encode_utf8(sequence@),
            m == bytes@.len(),
            scanned(pattern@, bytes@, slot_hit(), it.index(), i as int),
    {
        let pos: u8 = get_alphabet_position(#[verifier::truncate] (c as u8));
        let ghost k = it.index();
        let ghost start = i as int;
        while i < m && get_alphabet_position(bytes[i]) != pos
            invariant
                start <= i <= m,
                m == bytes@.len(),
                pos == alphabet_slot(low_byte(c)),
                forall|x: int| start <= x < i ==> !slot_hit()(c, #[trigger] bytes@[x]),
            decreases m - i,
        {
            i += 1;
        }
        if i >= m {
            proof {
                lemma_scan_miss(pattern@, bytes@, slot_hit(), k, start);
            }
            return false;
        }
        proof {
            lemma_scan_hit(pattern@, bytes@, slot_hit(), k, start, i as int);
        }
        i += 1;
    }
    proof {
        lemma_scan_done(pattern@, bytes@, slot_hit(), i as int);
    }
    true
}

/// Whether the signature admits the word: one scan over the masks, which
/// takes for each character of the word the next mask with its class bit.
pub fn match_with_hash(word: &String, words_hash: &Vec<u32>) -> (admitted: bool)
    ensures
        admitted == signature_admits(words_hash@, word@),
{
    let mut i: usize = 0;
    let m: usize = words_hash.len();
    proof {
        lemma_scan_start(word@, words_hash@, mask_hit());
    }
    for c in it: word.as_str().chars()
        invariant
            it.seq() == word@,
            m == words_hash@.len(),
            scanned(word@, words_hash@, mask_hit(), it.index(), i as int),
    {
        let pos: u32 = get_bit_position(#[verifier::truncate] (c as u8));
        let ghost k = it.index();
        let ghost start = i as int;
        while i < m && (words_hash[i] & pos == 0)
            invariant
                start <= i <= m,
                m == words_hash@.len(),
                pos == class_bit(low_byte(c)),
                forall|x: int| start <= x < i ==> !mask_hit()(c, #[trigger] words_hash@[x]),
            decreases m - i,
        {
            i += 1;
        }
        if i >= m {
            proof {
                lemma_scan_miss(word@, words_hash@, mask_hit(), k, start);
            }
            return false;
        }
        proof {
            lemma_scan_hit(word@, words_hash@, mask_hit(), k, start, i as int);
        }
        i += 1;
    }
    proof {
        lemma_scan_done(word@, words_hash@, mask_hit(), i as int);
    }
    true
}

/// The pattern is a subsequence of at least one of the words.
pub open spec fn matches_any_word(pattern: Seq<char>, words: Seq<Seq<char>>) -> bool {
    exists|n: int| 0 <= n < words.len() && is_subsequence_of(pattern, #[trigger] words[n])
}

/// Every pattern is admitted by the signature and is a subsequence of at
/// least one of the words.
pub open spec fn matches_all(
    patterns: Seq<Seq<char>>,
    signature: Seq<u32>,
    words: Seq<Seq<char>>,
) -> bool {
    forall|k: int|
        0 <= k < patterns.len() ==> signature_admits(signature, #[trigger] patterns[k])
            && matches_any_word(patterns[k], words)
}

/// Whether the pattern is a subsequence of one of the words.
pub fn match_word_deterministic(pattern: &String, words: &Vec<String>) -> (found: bool)
    ensures
        found == matches_any_word(pattern@, words.deep_view()),
{
    let mut n: usize = 0;
    while n < words.len()
        invariant
            n <= words.len(),
            forall|x: int|
                0 <= x < n ==> !is_subsequence_of(pattern@, #[trigger] words.deep_view()[x]),
        decreases words.len() - n,
    {
        if is_subsequence(pattern, &words[n]) {
            assert(is_subsequence_of(pattern@, words.deep_view()[n as int]));
            return true;
        }
        n += 1;
    }
    false
}

/// Whether every pattern matches: the signature is asked first, and the
/// words are read only for a pattern that it admits.
pub fn match_words(patterns: &Vec<String>, words_hash: &Vec<u32>, words: &Vec<String>) -> (matched:
    bool)
    ensures
        matched == matches_all(patterns.deep_view(), words_hash@, words.deep_view()),
{
    let mut k: usize = 0;
    while k < patterns.len()
        invariant
            k <= patterns.len(),
            forall|x: int|
                0 <= x < k ==> signature_admits(words_hash@, #[trigger] patterns.deep_view()[x])
                    && matches_any_word(patterns.deep_view()[x], words.deep_view()),
        decreases patterns.len() - k,
    {
        let word = &patterns[k];
        if !(match_with_hash(word, words_hash) && match_word_deterministic(word, words)) {
            assert(patterns.deep_view()[k as int] == word@);
            return false;
        }
        k += 1;
    }
    true
}

/// The empty pattern is a subsequence of every text, the empty text too.
pub proof fn lemma_empty_pattern_matches(pattern: Seq<char>, text: Seq<char>)
    requires
        pattern.len() == 0,
    ensures
        is_subsequence_of(pattern, text),
{
    lemma_embeds_empty(pattern, encode_utf8(text), slot_hit());
}

/// Each character is classified as it is encoded: it is below 128, or it
/// is neither classified as a letter nor as the hyphen.
pub open spec fn reads_as_written(text: Seq<char>) -> bool {
    forall|k: int|
        0 <= k < text.len() ==> is_ascii(#[trigger] text[k]) || !in_alphabet(low_byte(text[k]))
}

/// A text that reads as it is written is a subsequence of itself. (A
/// character from 128 on whose lowest eight bits are those of a letter
/// asks, as a pattern, for that letter, and is no letter as a text.)
pub proof fn lemma_text_matches_itself(text: Seq<char>)
    requires
        reads_as_written(text),
    ensures
        is_subsequence_of(text, text),
{
    let bytes = encode_utf8(text);
    let at = Seq::new(text.len(), |k: int| byte_offset(text, k));
    assert forall|k: int| 0 <= k < at.len() implies 0 <= #[trigger] at[k] < bytes.len()
        && slot_hit()(text[k], bytes[at[k]]) by {
        lemma_byte_offset(text, k);
        lemma_scalar_bytes(text[k]);
    }
    assert forall|j: int, k: int| 0 <= j < k < at.len() implies at[j] < at[k] by {
        lemma_byte_offset_rises(text, j, k);
    }
    assert(is_embedding(at, text, bytes, slot_hit()));
}

/// Character `k` of the text is classified with the given slot.
spec fn asks_for(text: Seq<char>, k: int, slot: u8) -> bool {
    0 <= k < text.len() && alphabet_slot(low_byte(text[k])) == slot
}

/// Where a text is embedded in its own bytes, a character that asks for a
/// slot of the alphabet is placed on a character below 128 of that slot.
proof fn lemma_placed_on_same_slot(text: Seq<char>, at: Seq<int>, slot: u8, k: int)
    requires
        is_embedding(at, text, encode_utf8(text), slot_hit()),
        slot <= HYPHEN_SLOT,
        asks_for(text, k, slot),
    ensures
        asks_for(text, char_index(text, at[k]), slot),
        is_ascii(text[char_index(text, at[k])]),
        encode_utf8(text)[at[k]] < 0x80,
{
    let b = encode_utf8(text)[at[k]];
    lemma_slot_range(b);
    lemma_char_index(text, at[k]);
}

/// Such a character is not placed on an earlier one: that one would have
/// to be placed earlier still, and so on without end.
proof fn lemma_not_placed_earlier(text: Seq<char>, at: Seq<int>, slot: u8, k: int)
    requires
        is_embedding(at, text, encode_utf8(text), slot_hit()),
        slot <= HYPHEN_SLOT,
        asks_for(text, k, slot),
    ensures
        char_index(text, at[k]) >= k,
    decreases k,
{
    let j = char_index(text, at[k]);
    lemma_placed_on_same_slot(text, at, slot, k);
    if j < k {
        lemma_char_index_rises(text, at[j], at[k]);
        lemma_not_placed_earlier(text, at, slot, j);
    }
}

/// Nor is it placed on a later one.
proof fn lemma_not_placed_later(text: Seq<char>, at: Seq<int>, slot: u8, k: int)
    requires
        is_embedding(at, text, encode_utf8(text), slot_hit()),
        slot <= HYPHEN_SLOT,
        asks_for(text, k, slot),
    ensures
        char_index(text, at[k]) <= k,
    decreases text.len() - k,
{
    let j = char_index(text, at[k]);
    lemma_placed_on_same_slot(text, at, slot, k);
    if j > k {
        lemma_placed_on_same_slot(text, at, slot, j);
        lemma_char_index_rises(text, at[k], at[j]);
        lemma_not_placed_later(text, at, slot, j);
    }
}

/// A text that does not read as it is written is no subsequence of itself:
/// its characters that ask for a letter or the hyphen can only be placed
/// each on itself, and one of them is not there as a byte.
pub proof fn lemma_misread_text_fails(text: Seq<char>)
    requires
        !reads_as_written(text),
    ensures
        !is_subsequence_of(text, text),
{
    if is_subsequence_of(text, text) {
        let k = choose|k: int|
            0 <= k < text.len() && !(is_ascii(#[trigger] text[k]) || !in_alphabet(
                low_byte(text[k]),
            ));
        let at = choose|at: Seq<int>| is_embedding(at, text, encode_utf8(text), slot_hit());
        let slot = alphabet_slot(low_byte(text[k]));
        lemma_slot_range(low_byte(text[k]));
        lemma_placed_on_same_slot(text, at, slot, k);
        lemma_not_placed_earlier(text, at, slot, k);
        lemma_not_placed_later(text, at, slot, k);
    }
}

/// Matching goes by alphabet slots alone: two patterns whose characters
/// have the same slots, against two texts whose bytes have the same slots,
/// give the same result.
pub proof fn lemma_matching_goes_by_slots(
    pattern: Seq<char>,
    text: Seq<char>,
    other_pattern: Seq<char>,
    other_text: Seq<char>,
)
    requires
        pattern.len() == other_pattern.len(),
        forall|k: int|
            0 <= k < pattern.len() ==> alphabet_slot(low_byte(pattern[k])) == alphabet_slot(
                low_byte(other_pattern[k]),
            ),
        encode_utf8(text).len() == encode_utf8(other_text).len(),
        forall|x: int|
            0 <= x < encode_utf8(text).len() ==> alphabet_slot(encode_utf8(text)[x])
                == alphabet_slot(encode_utf8(other_text)[x]),
    ensures
        is_subsequence_of(pattern, text) == is_subsequence_of(other_pattern, other_text),
{
    if is_subsequence_of(pattern, text) {
        let at = choose|at: Seq<int>| is_embedding(at, pattern, encode_utf8(text), slot_hit());
        assert(is_embedding(at, other_pattern, encode_utf8(other_text), slot_hit()));
    }
    if is_subsequence_of(other_pattern, other_text) {
        let at = choose|at: Seq<int>|
            is_embedding(at, other_pattern, encode_utf8(other_text), slot_hit());
        assert(is_embedding(at, pattern, encode_utf8(text), slot_hit()));
    }
}

/// The lower-case form of a capital letter, and any other character as it
/// is.
pub open spec fn fold_case(c: char) -> char {
    if 'A' <= c <= 'Z' {
        ((c as u32) + 32) as char
    } else {
        c
    }
}

/// The text with its capital letters turned into lower case.
pub open spec fn lower_case(text: Seq<char>) -> Seq<char> {
    text.map_values(|c: char| fold_case(c))
}

/// Turning capital letters into lower case changes no slot of a text's
/// bytes, nor their number.
pub proof fn lemma_lower_case_bytes(text: Seq<char>)
    ensures
        encode_utf8(lower_case(text)).len() == encode_utf8(text).len(),
        forall|x: int|
            0 <= x < encode_utf8(text).len() ==> alphabet_slot(encode_utf8(text)[x])
                == alphabet_slot(#[trigger] encode_utf8(lower_case(text))[x]),
    decreases text.len(),
{
    if text.len() > 0 {
        let rest = text.drop_first();
        lemma_lower_case_bytes(rest);
        assert(lower_case(text).drop_first() =~= lower_case(rest));
        lemma_scalar_bytes(text[0]);
        lemma_scalar_bytes(fold_case(text[0]));
        lemma_fold_case_slot(text[0]);
    }
}

/// A capital letter and its lower-case form are classified alike.
pub proof fn lemma_fold_case_slot(c: char)
    ensures
        alphabet_slot(low_byte(fold_case(c))) == alphabet_slot(low_byte(c)),
        is_ascii(c) == is_ascii(fold_case(c)),
        !is_ascii(c) ==> fold_case(c) == c,
{
    if 'A' <= c <= 'Z' {
        let u = c as u32;
        assert(u as u8 == u && (u + 32) as u8 == u + 32) by (bit_vector)
            requires
                0x41 <= u <= 0x5a,
        ;
    }
}

/// Matching does not tell capital letters from lower-case ones, in the
/// pattern or in the text.
pub proof fn lemma_case_is_ignored(pattern: Seq<char>, text: Seq<char>)
    ensures
        is_subsequence_of(pattern, text) == is_subsequence_of(
            lower_case(pattern),
            lower_case(text),
        ),
{
    lemma_lower_case_bytes(text);
    assert forall|k: int| 0 <= k < pattern.len() implies alphabet_slot(low_byte(pattern[k]))
        == alphabet_slot(low_byte(lower_case(pattern)[k])) by {
        lemma_fold_case_slot(pattern[k]);
    }
    lemma_matching_goes_by_slots(pattern, text, lower_case(pattern), lower_case(text));
}

/// Where no pattern is asked for, everything matches, whatever the
/// signature and the words.
pub proof fn lemma_no_patterns_match(
    patterns: Seq<Seq<char>>,
    signature: Seq<u32>,
    words: Seq<Seq<char>>,
)
    requires
        patterns.len() == 0,
    ensures
        matches_all(patterns, signature, words),
{
}

/// Against no words at all, no pattern matches.
pub proof fn lemma_no_words_match_nothing(pattern: Seq<char>, words: Seq<Seq<char>>)
    requires
        words.len() == 0,
    ensures
        !matches_any_word(pattern, words),
{
}

} // verus!
