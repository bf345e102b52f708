//! The character classifier.
//!
//! Searching recognises the twenty-six letters, without regard to case, and
//! the hyphen. Every byte is given an *alphabet slot*, by which the
//! deterministic matcher compares characters, and a *class bit*, by which
//! the signatures of word lists are built and probed. A byte outside the
//! alphabet gets the sentinel slot [`UNDEFINED_SLOT`] and no class bit at
//! all, so two such bytes compare equal by slot while neither can ever be
//! found in a signature.

use vstd::prelude::*;

verus! {

/// The byte of `a`.
pub const LOWER_A: u8 = 0x61;

/// The byte of `z`.
pub const LOWER_Z: u8 = 0x7a;

/// The byte of `A`.
pub const UPPER_A: u8 = 0x41;

/// The byte of `Z`.
pub const UPPER_Z: u8 = 0x5a;

/// The byte of `-`.
pub const HYPHEN: u8 = 0x2d;

/// The slot of the hyphen.
pub const HYPHEN_SLOT: u8 = 28;

/// The slot of every byte that is neither a letter nor the hyphen.
pub const UNDEFINED_SLOT: u8 = 127;

/// The byte a character is classified by: its scalar value cut down to its
/// lowest eight bits.
pub open spec fn low_byte(c: char) -> u8 {
    c as u8
}

/// The byte is a lower-case letter.
pub open spec fn is_lower(b: u8) -> bool {
    LOWER_A <= b <= LOWER_Z
}

/// The byte is a capital letter.
pub open spec fn is_upper(b: u8) -> bool {
    UPPER_A <= b <= UPPER_Z
}

/// The byte is the hyphen.
pub open spec fn is_hyphen(b: u8) -> bool {
    b == HYPHEN
}

/// Whether the byte is a letter or the hyphen.
pub open spec fn in_alphabet(b: u8) -> bool {
    is_lower(b) || is_upper(b) || is_hyphen(b)
}

/// The slot of a byte: the index of the letter in the alphabet (0 for `a`
/// and `A`, 25 for `z` and `Z`), 28 for the hyphen, 127 for anything else.
pub open spec fn alphabet_slot(b: u8) -> u8 {
    if is_lower(b) {
        (b - LOWER_A) as u8
    } else if is_upper(b) {
        (b - UPPER_A) as u8
    } else if is_hyphen(b) {
        HYPHEN_SLOT
    } else {
        UNDEFINED_SLOT
    }
}

/// The class bit of a byte: the single bit at the index of its slot, or no
/// bit where the byte is outside the alphabet.
pub open spec fn class_bit(b: u8) -> u32 {
    if in_alphabet(b) {
        1u32 << alphabet_slot(b)
    } else {
        0
    }
}

/// The alphabet slot of a byte.
pub fn get_alphabet_position(c: u8) -> (slot: u8)
    ensures
        slot == alphabet_slot(c),
{
    if c >= LOWER_A && c <= LOWER_Z {
        c - LOWER_A
    } else if c >= UPPER_A && c <= UPPER_Z {
        c - UPPER_A
    } else if c == HYPHEN {
        HYPHEN_SLOT
    } else {
        UNDEFINED_SLOT
    }
}

/// The class bit of a byte.
pub fn get_bit_position(c: u8) -> (bit: u32)
    ensures
        bit == class_bit(c),
{
    if c >= LOWER_A && c <= LOWER_Z {
        1u32 << (c - LOWER_A)
    } else if c >= UPPER_A && c <= UPPER_Z {
        1u32 << (c - UPPER_A)
    } else if c == HYPHEN {
        1u32 << HYPHEN_SLOT
    } else {
        0
    }
}

/// A slot below 29 belongs to a byte of the alphabet, and only the sentinel
/// belongs to the others.
pub proof fn lemma_slot_range(b: u8)
    ensures
        in_alphabet(b) ==> alphabet_slot(b) <= HYPHEN_SLOT,
        in_alphabet(b) <==> alphabet_slot(b) != UNDEFINED_SLOT,
        is_lower(b) || is_upper(b) <==> alphabet_slot(b) <= 25,
{
}

/// The bit at one index differs from zero, and two such bits meet exactly
/// where the indices are the same.
proof fn lemma_single_bits(i: u8, j: u8)
    by (bit_vector)
    requires
        i < 32,
        j < 32,
    ensures
        1u32 << i != 0,
        ((1u32 << i) & (1u32 << j) != 0) <==> i == j,
        (1u32 << i) == (1u32 << j) <==> i == j,
{
}

/// Two bytes have a class bit in common exactly if both are in the alphabet
/// and have the same slot; a byte outside the alphabet has no class bit.
pub proof fn lemma_class_bits_meet(a: u8, b: u8)
    ensures
        in_alphabet(a) <==> class_bit(a) != 0,
        (class_bit(a) & class_bit(b) != 0) <==> (in_alphabet(a) && in_alphabet(b) && alphabet_slot(
            a,
        ) == alphabet_slot(b)),
        in_alphabet(a) && in_alphabet(b) ==> (class_bit(a) == class_bit(b) <==> alphabet_slot(a)
            == alphabet_slot(b)),
{
    let x = class_bit(a);
    let y = class_bit(b);
    if in_alphabet(a) && in_alphabet(b) {
        lemma_single_bits(alphabet_slot(a), alphabet_slot(b));
    } else if in_alphabet(a) {
        lemma_single_bits(alphabet_slot(a), 0);
        assert(x & 0u32 == 0) by (bit_vector);
    } else {
        if in_alphabet(b) {
            lemma_single_bits(alphabet_slot(b), 0);
        }
        assert(0u32 & y == 0) by (bit_vector);
    }
}

/// The classifier does not tell the two cases of a letter apart: the
/// lower-case and the upper-case form have the same slot, the index of the
/// letter, and the same class bit.
pub proof fn lemma_classifier_ignores_case(lower: u8, upper: u8)
    requires
        is_lower(lower),
        is_upper(upper),
        lower - LOWER_A == upper - UPPER_A,
    ensures
        alphabet_slot(lower) == alphabet_slot(upper),
        alphabet_slot(lower) == lower - LOWER_A,
        class_bit(lower) == class_bit(upper),
        class_bit(lower) == 1u32 << ((lower - LOWER_A) as u8),
{
}

/// The hyphen has slot 28 and the class bit at index 28.
pub proof fn lemma_hyphen_class()
    ensures
        alphabet_slot(HYPHEN) == 28,
        class_bit(HYPHEN) == 0x1000_0000,
{
    assert(1u32 << 28u8 == 0x1000_0000) by (bit_vector);
}

} // verus!
