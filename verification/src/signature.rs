//! Signatures: per position, the class bits that the words of a list can
//! show there.

use crate::alphabet::{class_bit, get_bit_position, low_byte};
use vstd::prelude::*;

verus! {

/// The number of characters of the longest word, 0 for no words.
pub open spec fn longest(words: Seq<Seq<char>>) -> nat
    decreases words.len(),
{
    if words.len() == 0 {
        0
    } else if words.last().len() > longest(words.drop_last()) {
        words.last().len()
    } else {
        longest(words.drop_last())
    }
}

/// The class bit that a word shows at position `i`: that of its character
/// there, and none beyond its end.
pub open spec fn bit_at(word: Seq<char>, i: int) -> u32 {
    if 0 <= i < word.len() {
        class_bit(low_byte(word[i]))
    } else {
        0
    }
}

/// The class bits that the words show at position `i`, taken together.
pub open spec fn column(words: Seq<Seq<char>>, i: int) -> u32
    decreases words.len(),
{
    if words.len() == 0 {
        0
    } else {
        column(words.drop_last(), i) | bit_at(words.last(), i)
    }
}

/// The signature of a word list: one mask for each position of its longest
/// word, holding the class bits of all the words at that position.
pub open spec fn signature(words: Seq<Seq<char>>) -> Seq<u32> {
    Seq::new(longest(words), |i: int| column(words, i))
}

/// Beyond the end of the longest word no word shows a bit.
pub proof fn lemma_column_beyond(words: Seq<Seq<char>>, i: int)
    requires
        i >= longest(words),
    ensures
        column(words, i) == 0,
    decreases words.len(),
{
    if words.len() > 0 {
        lemma_column_beyond(words.drop_last(), i);
        assert(0u32 | 0u32 == 0u32) by (bit_vector);
    }
}

/// Every word puts the class bit of each of its characters into the mask
/// at that character's position.
pub proof fn lemma_signature_covers(words: Seq<Seq<char>>, n: int, i: int)
    requires
        0 <= n < words.len(),
        0 <= i < words[n].len(),
    ensures
        i < signature(words).len(),
        signature(words)[i] & class_bit(low_byte(words[n][i])) == class_bit(low_byte(words[n][i])),
    decreases words.len(),
{
    let bit = class_bit(low_byte(words[n][i]));
    let rest = column(words.drop_last(), i);
    let last = bit_at(words.last(), i);
    if n == words.len() - 1 {
        assert((rest | bit) & bit == bit) by (bit_vector);
    } else {
        lemma_signature_covers(words.drop_last(), n, i);
        assert((rest | last) & bit == bit) by (bit_vector)
            requires
                rest & bit == bit,
        ;
    }
}

/// The signature is as long as the longest word: no word is longer, and
/// where there are words, one of them is that long.
pub proof fn lemma_longest_word(words: Seq<Seq<char>>)
    ensures
        forall|n: int| 0 <= n < words.len() ==> (#[trigger] words[n]).len() <= longest(words),
        words.len() > 0 ==> exists|n: int|
            0 <= n < words.len() && (#[trigger] words[n]).len() == longest(words),
    decreases words.len(),
{
    if words.len() > 0 {
        let rest = words.drop_last();
        lemma_longest_word(rest);
        assert forall|n: int| 0 <= n < words.len() implies (#[trigger] words[n]).len() <= longest(
            words,
        ) by {
            if n < rest.len() {
                assert(rest[n] == words[n]);
            }
        }
        if words.last().len() > longest(rest) || rest.len() == 0 {
            assert(words[words.len() - 1].len() == longest(words));
        } else {
            let n = choose|n: int|
                0 <= n < rest.len() && (#[trigger] rest[n]).len() == longest(rest);
            assert(words[n] == rest[n]);
        }
    }
}

/// Every bit of a signature comes from a word: where a mask holds a bit,
/// one of the words has a character of that class bit at that position.
pub proof fn lemma_signature_bits_come_from_words(words: Seq<Seq<char>>, i: int, bit: u32)
    requires
        column(words, i) & bit != 0,
    ensures
        exists|n: int| 0 <= n < words.len() && bit_at(#[trigger] words[n], i) & bit != 0,
    decreases words.len(),
{
    if words.len() == 0 {
        assert(0u32 & bit == 0) by (bit_vector);
    } else {
        let rest = words.drop_last();
        let before = column(rest, i);
        let last = bit_at(words.last(), i);
        assert(before & bit != 0 || last & bit != 0) by (bit_vector)
            requires
                (before | last) & bit != 0,
        ;
        if last & bit == 0 {
            lemma_signature_bits_come_from_words(rest, i, bit);
        }
    }
}

/// The masks of two lists of words, taken together, are the masks of the
/// two lists in a row.
pub proof fn lemma_signature_of_two_lists(a: Seq<Seq<char>>, b: Seq<Seq<char>>, i: int)
    ensures
        column(a + b, i) == column(a, i) | column(b, i),
        longest(a + b) == (if longest(a) > longest(b) {
            longest(a)
        } else {
            longest(b)
        }),
    decreases b.len(),
{
    let x = column(a, i);
    if b.len() == 0 {
        assert(x | 0u32 == x) by (bit_vector);
    } else {
        let rest = b.drop_last();
        let y = column(rest, i);
        let z = bit_at(b.last(), i);
        lemma_signature_of_two_lists(a, rest, i);
        assert((a + b).drop_last() =~= a + rest);
        assert((x | y) | z == x | (y | z)) by (bit_vector);
    }
}

/// The signature does not depend on the order of the words.
pub proof fn lemma_signature_ignores_order(a: Seq<Seq<char>>, b: Seq<Seq<char>>)
    ensures
        signature(a + b) == signature(b + a),
{
    lemma_signature_of_two_lists(a, b, 0);
    lemma_signature_of_two_lists(b, a, 0);
    assert forall|i: int| 0 <= i < longest(a + b) implies column(a + b, i) == column(b + a, i) by {
        let x = column(a, i);
        let y = column(b, i);
        lemma_signature_of_two_lists(a, b, i);
        lemma_signature_of_two_lists(b, a, i);
        assert(x | y == y | x) by (bit_vector);
    }
}

/// The signature of the words.
pub fn hash_words(words: &Vec<String>) -> (words_hash: Vec<u32>)
    ensures
        words_hash@ == signature(words.deep_view()),
{
    let mut words_hash: Vec<u32> = Vec::new();
    let mut n: usize = 0;
    while n < words.len()
        invariant
            n <= words.len(),
            words_hash@ == signature(words.deep_view().take(n as int)),
        decreases words.len() - n,
    {
        let word = &words[n];
        let ghost done = words.deep_view().take(n as int);
        let mut i: usize = 0;
        proof {
            assert forall|x: int| 0 <= x < words_hash@.len() implies #[trigger] words_hash@[x]
                == column(done, x) | bit_at(word@.take(0), x) by {
                let a = column(done, x);
                assert(a | 0u32 == a) by (bit_vector);
            }
        }
        for c in it: word.as_str().chars()
            invariant
                it.seq() == word@,
                i == it.index(),
                words_hash@.len() == if i > longest(done) {
                    i as nat
                } else {
                    longest(done)
                },
                forall|x: int|
                    0 <= x < words_hash@.len() ==> #[trigger] words_hash@[x] == column(done, x)
                        | bit_at(word@.take(i as int), x),
        {
            let bit: u32 = get_bit_position(#[verifier::truncate] (c as u8));
            if i >= words_hash.len() {
                proof {
                    lemma_column_beyond(done, i as int);
                    assert(0u32 | bit == bit) by (bit_vector);
                }
                words_hash.push(bit);
            } else {
                let mask: u32 = words_hash[i];
                proof {
                    let a = column(done, i as int);
                    assert((a | 0u32) | bit == a | bit) by (bit_vector);
                }
                words_hash.set(i, mask | bit);
            }
            assert(i < words_hash.len());
            i += 1;
        }
        n += 1;
        assert(words.deep_view().take(n as int).drop_last() =~= done);
    }
    assert(words.deep_view().take(n as int) =~= words.deep_view());
    words_hash
}

} // verus!
