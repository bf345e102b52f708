//! How the characters of a text lie among the bytes of its UTF-8 encoding.
//!
//! The deterministic matcher reads a text byte by byte, while patterns and
//! signatures go character by character. A character below 128 is encoded
//! as the one byte of its value, and every byte of a longer encoding is 128
//! or more: so the bytes of the alphabet are characters of their own, and
//! stand in the same order as those.

use crate::alphabet::low_byte;
use vstd::prelude::*;
use vstd::utf8::{encode_scalar, encode_utf8, encode_utf8_decode_utf8, has_width_1_encoding};

verus! {

/// The character is encoded as a single byte.
pub open spec fn is_ascii(c: char) -> bool {
    (c as u32) < 0x80
}

/// The index of the character whose encoding holds byte `x` of the
/// encoding of the text.
pub open spec fn char_index(text: Seq<char>, x: int) -> int
    decreases text.len(),
{
    if text.len() == 0 {
        0
    } else {
        let width = encode_scalar(text[0] as u32).len();
        if x < width {
            0
        } else {
            1 + char_index(text.drop_first(), x - width)
        }
    }
}

/// The position in the encoding of the text at which character `n` starts.
pub open spec fn byte_offset(text: Seq<char>, n: int) -> int {
    encode_utf8(text.take(n)).len() as int
}

/// A character below 128 is encoded as the byte of its value; the encoding
/// of any other has two to four bytes, each of them 128 or more.
pub proof fn lemma_scalar_bytes(c: char)
    ensures
        1 <= encode_scalar(c as u32).len() <= 4,
        is_ascii(c) ==> encode_scalar(c as u32) == seq![low_byte(c)] && low_byte(c) < 0x80,
        !is_ascii(c) ==> encode_scalar(c as u32).len() >= 2 && forall|i: int|
            0 <= i < encode_scalar(c as u32).len() ==> #[trigger] encode_scalar(c as u32)[i]
                >= 0x80,
{
    let s = c as u32;
    if has_width_1_encoding(s) {
        assert((s & 0x7F) as u8 == s as u8 && (s as u8) < 0x80) by (bit_vector)
            requires
                s <= 0x7F,
        ;
        assert(encode_scalar(s) =~= seq![low_byte(c)]);
    } else {
        assert forall|x: u8|
            (0xC0u8 | x) >= 0x80 && (0xE0u8 | x) >= 0x80 && (0xF0u8 | x) >= 0x80 && (0x80u8 | x)
                >= 0x80 by {
            assert((0xC0u8 | x) >= 0x80 && (0xE0u8 | x) >= 0x80 && (0xF0u8 | x) >= 0x80 && (0x80u8
                | x) >= 0x80) by (bit_vector);
        }
    }
}

/// No text has more characters than its encoding has bytes.
pub proof fn lemma_chars_fit_bytes(text: Seq<char>)
    ensures
        text.len() <= encode_utf8(text).len(),
    decreases text.len(),
{
    if text.len() > 0 {
        lemma_chars_fit_bytes(text.drop_first());
    }
}

/// The encoding of two texts in a row is the two encodings in a row.
pub proof fn lemma_encoding_concat(a: Seq<char>, b: Seq<char>)
    ensures
        encode_utf8(a + b) == encode_utf8(a) + encode_utf8(b),
    decreases a.len(),
{
    if a.len() > 0 {
        lemma_encoding_concat(a.drop_first(), b);
        assert((a + b).drop_first() =~= a.drop_first() + b);
    }
}

/// Cutting the encoding of a text where a character starts gives the
/// encodings of the characters before and of those from there on.
pub proof fn lemma_cut_at_char(text: Seq<char>, n: int)
    requires
        0 <= n <= text.len(),
    ensures
        encode_utf8(text).subrange(0, byte_offset(text, n)) == encode_utf8(text.take(n)),
        encode_utf8(text).subrange(byte_offset(text, n), encode_utf8(text).len() as int)
            == encode_utf8(text.skip(n)),
{
    assert(text =~= text.take(n) + text.skip(n));
    lemma_encoding_concat(text.take(n), text.skip(n));
    assert(encode_utf8(text).subrange(0, byte_offset(text, n)) =~= encode_utf8(text.take(n)));
    assert(encode_utf8(text).subrange(byte_offset(text, n), encode_utf8(text).len() as int)
        =~= encode_utf8(text.skip(n)));
}

/// Two texts with the same encoding are the same text.
pub proof fn lemma_same_encoding(a: Seq<char>, b: Seq<char>)
    requires
        encode_utf8(a) == encode_utf8(b),
    ensures
        a == b,
{
    encode_utf8_decode_utf8(a);
    encode_utf8_decode_utf8(b);
}

/// A character starts within the encoding, with the first byte of its own
/// encoding, and the next one starts after it.
pub proof fn lemma_byte_offset(text: Seq<char>, n: int)
    requires
        0 <= n < text.len(),
    ensures
        0 <= byte_offset(text, n) < encode_utf8(text).len(),
        encode_utf8(text)[byte_offset(text, n)] == encode_scalar(text[n] as u32)[0],
        byte_offset(text, n + 1) == byte_offset(text, n) + encode_scalar(text[n] as u32).len(),
        byte_offset(text, n + 1) <= encode_utf8(text).len(),
{
    let before = text.take(n);
    let this = seq![text[n]];
    let after = text.skip(n + 1);
    lemma_scalar_bytes(text[n]);
    assert(text =~= before + this + after);
    assert(text.take(n + 1) =~= before + this);
    lemma_encoding_concat(before + this, after);
    lemma_encoding_concat(before, this);
    assert(encode_utf8(this) =~= encode_scalar(text[n] as u32)) by {
        reveal_with_fuel(encode_utf8, 2);
    }
}

/// Later characters start later.
pub proof fn lemma_byte_offset_rises(text: Seq<char>, m: int, n: int)
    requires
        0 <= m < n <= text.len(),
    ensures
        byte_offset(text, m) < byte_offset(text, n),
{
    let between = text.subrange(m, n);
    assert(text.take(n) =~= text.take(m) + between);
    lemma_encoding_concat(text.take(m), between);
    lemma_chars_fit_bytes(between);
}

/// A byte of the encoding belongs to a character of the text; where the
/// byte is below 128 it is that character's value.
pub proof fn lemma_char_index(text: Seq<char>, x: int)
    requires
        0 <= x < encode_utf8(text).len(),
    ensures
        0 <= char_index(text, x) < text.len(),
        encode_utf8(text)[x] < 0x80 ==> is_ascii(text[char_index(text, x)]) && low_byte(
            text[char_index(text, x)],
        ) == encode_utf8(text)[x],
    decreases text.len(),
{
    lemma_scalar_bytes(text[0]);
    let width = encode_scalar(text[0] as u32).len();
    if x >= width {
        lemma_char_index(text.drop_first(), x - width);
        assert(text.drop_first()[char_index(text.drop_first(), x - width)] == text[char_index(
            text,
            x,
        )]);
    }
}

/// Of two bytes of the encoding, the later of which is below 128, the
/// later belongs to a later character.
pub proof fn lemma_char_index_rises(text: Seq<char>, x: int, y: int)
    requires
        0 <= x < y < encode_utf8(text).len(),
        encode_utf8(text)[y] < 0x80,
    ensures
        char_index(text, x) < char_index(text, y),
    decreases text.len(),
{
    lemma_scalar_bytes(text[0]);
    let width = encode_scalar(text[0] as u32).len();
    if y >= width {
        if x >= width {
            lemma_char_index_rises(text.drop_first(), x - width, y - width);
        } else {
            lemma_char_index(text.drop_first(), y - width);
        }
    }
}

} // verus!
