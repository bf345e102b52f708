//! Splitting free text into its words.

use crate::encoding::{
    byte_offset, is_ascii, lemma_byte_offset, lemma_cut_at_char, lemma_encoding_concat,
    lemma_same_encoding, lemma_scalar_bytes,
};
use vstd::prelude::*;
use vstd::utf8::{
    char_u32_cast, encode_scalar, encode_utf8, encode_utf8_valid_utf8, is_char_boundary,
    is_char_boundary_iff_not_is_continuation_byte, is_char_boundary_start_end_of_seq,
    pop_first_scalar,
};

verus! {

/// The byte of the space.
pub const SPACE: u8 = 0x20;

/// The position of the first space of the text, or its length where it
/// holds none.
pub open spec fn first_space(text: Seq<char>) -> int
    decreases text.len(),
{
    if text.len() == 0 || text[0] == ' ' {
        0
    } else {
        1 + first_space(text.drop_first())
    }
}

/// The words of a text: what stands before its first space, then the words
/// of what follows that space. Nothing else is done to them: two spaces in
/// a row, or one at either end, give an empty word, and the empty text is
/// one empty word.
pub open spec fn split_on_space(text: Seq<char>) -> Seq<Seq<char>>
    decreases text.len(),
    via split_on_space_decreases
{
    let n = first_space(text);
    if n >= text.len() {
        seq![text]
    } else {
        seq![text.take(n)] + split_on_space(text.skip(n + 1))
    }
}

#[via_fn]
proof fn split_on_space_decreases(text: Seq<char>) {
    lemma_first_space_range(text);
}

/// The first space lies within the text or at its end, and no space stands
/// before it.
pub proof fn lemma_first_space_range(text: Seq<char>)
    ensures
        0 <= first_space(text) <= text.len(),
        first_space(text) < text.len() ==> text[first_space(text)] == ' ',
        forall|x: int| 0 <= x < first_space(text) ==> text[x] != ' ',
    decreases text.len(),
{
    if !(text.len() == 0 || text[0] == ' ') {
        let rest = text.drop_first();
        lemma_first_space_range(rest);
        assert forall|x: int| 0 <= x < first_space(text) implies text[x] != ' ' by {
            if x > 0 {
                assert(text[x] == rest[x - 1]);
            }
        }
    }
}

/// The words in a row, with one space between each two.
pub open spec fn join_with_spaces(words: Seq<Seq<char>>) -> Seq<char>
    decreases words.len(),
{
    if words.len() == 0 {
        Seq::empty()
    } else if words.len() == 1 {
        words[0]
    } else {
        words[0] + seq![' '] + join_with_spaces(words.drop_first())
    }
}

/// Splitting loses nothing and splits at every space: there is at least
/// one word, no word holds a space, and the words joined with spaces are
/// the text again.
pub proof fn lemma_split_keeps_the_text(text: Seq<char>)
    ensures
        split_on_space(text).len() >= 1,
        forall|n: int, x: int|
            0 <= n < split_on_space(text).len() && 0 <= x < split_on_space(text)[n].len()
                ==> split_on_space(text)[n][x] != ' ',
        join_with_spaces(split_on_space(text)) == text,
    decreases text.len(),
{
    let n = first_space(text);
    lemma_first_space_range(text);
    if n < text.len() {
        let after = text.skip(n + 1);
        lemma_split_keeps_the_text(after);
        assert(split_on_space(text).drop_first() =~= split_on_space(after));
    }
}

/// The first space of a text is the first space byte of its encoding: no
/// byte before the place where it starts is one, and where the text has no
/// space its encoding has no such byte.
pub proof fn lemma_first_space_byte(text: Seq<char>)
    ensures
        0 <= byte_offset(text, first_space(text)) <= encode_utf8(text).len(),
        forall|x: int|
            0 <= x < byte_offset(text, first_space(text)) ==> encode_utf8(text)[x] != SPACE,
        first_space(text) < text.len() ==> byte_offset(text, first_space(text)) < encode_utf8(
            text,
        ).len() && encode_utf8(text)[byte_offset(text, first_space(text))] == SPACE,
        first_space(text) >= text.len() ==> byte_offset(text, first_space(text)) == encode_utf8(
            text,
        ).len(),
    decreases text.len(),
{
    let n = first_space(text);
    lemma_first_space_range(text);
    if text.len() > 0 && text[0] == ' ' {
        lemma_byte_offset(text, 0);
        lemma_scalar_bytes(text[0]);
        assert(0x20u32 as u8 == 0x20u8) by (bit_vector);
    } else if text.len() > 0 {
        let rest = text.drop_first();
        let first = seq![text[0]];
        let width = encode_scalar(text[0] as u32).len() as int;
        lemma_first_space_byte(rest);
        lemma_first_space_range(rest);
        lemma_scalar_bytes(text[0]);
        assert(text.take(n) =~= first + rest.take(n - 1));
        lemma_encoding_concat(first, rest.take(n - 1));
        assert(encode_utf8(first) =~= encode_scalar(text[0] as u32)) by {
            reveal_with_fuel(encode_utf8, 2);
        }
        assert(byte_offset(text, n) == width + byte_offset(rest, n - 1));
        if is_ascii(text[0]) {
            let u = text[0] as u32;
            assert(u as u8 == 0x20u8 ==> u == 0x20) by (bit_vector)
                requires
                    u < 0x80,
            ;
            char_u32_cast(text[0], u);
            char_u32_cast(' ', 0x20);
        }
        if n < text.len() {
            assert(encode_utf8(text)[byte_offset(text, n)] == encode_utf8(rest)[byte_offset(
                rest,
                n - 1,
            )]);
        }
    }
}

/// A text that starts with a space has its second character, or its end,
/// at its second byte.
pub proof fn lemma_space_is_one_byte(text: Seq<char>)
    requires
        text.len() > 0,
        text[0] == ' ',
    ensures
        byte_offset(text, 1) == 1,
        is_char_boundary(encode_utf8(text), 1),
{
    let bytes = encode_utf8(text);
    lemma_byte_offset(text, 0);
    lemma_scalar_bytes(text[0]);
    encode_utf8_valid_utf8(text);
    assert(0x20u32 as u8 == 0x20u8) by (bit_vector);
    assert(bytes[0] == SPACE);
    is_char_boundary_start_end_of_seq(pop_first_scalar(bytes));
    reveal_with_fuel(is_char_boundary, 2);
}

/// Splits a text on single spaces.
pub fn split_words(text: &str) -> (words: Vec<String>)
    ensures
        words.deep_view() == split_on_space(text@),
{
    let mut words: Vec<String> = Vec::new();
    let mut rest: &str = text;
    loop
        invariant
            split_on_space(text@) == words.deep_view() + split_on_space(rest@),
        decreases rest@.len(),
    {
        let bytes = rest.as_bytes();
        let mut j: usize = 0;
        while j < bytes.len() && bytes[j] != SPACE
            invariant
                j <= bytes.len(),
                forall|x: int| 0 <= x < j ==> bytes@[x] != SPACE,
            decreases bytes.len() - j,
        {
            j += 1;
        }
        let ghost n = first_space(rest@);
        let ghost before = words.deep_view();
        proof {
            lemma_first_space_range(rest@);
            lemma_first_space_byte(rest@);
            assert(j == byte_offset(rest@, n));
        }
        if j >= bytes.len() {
            words.push(rest.to_owned());
            return words;
        }
        proof {
            encode_utf8_valid_utf8(rest@);
            is_char_boundary_iff_not_is_continuation_byte(bytes@, j as int);
            lemma_cut_at_char(rest@, n);
        }
        let (word, tail) = rest.split_at(j);
        proof {
            lemma_same_encoding(word@, rest@.take(n));
            lemma_same_encoding(tail@, rest@.skip(n));
            lemma_space_is_one_byte(tail@);
            lemma_cut_at_char(tail@, 1);
        }
        let (_, after) = tail.split_at(1);
        proof {
            lemma_same_encoding(after@, tail@.skip(1));
            assert(tail@.skip(1) =~= rest@.skip(n + 1));
        }
        words.push(word.to_owned());
        proof {
            assert(before.push(rest@.take(n)) + split_on_space(rest@.skip(n + 1)) =~= before
                + split_on_space(rest@));
        }
        rest = after;
    }
}

} // verus!
