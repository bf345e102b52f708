use fuzzy_todo::{
    hash_words, is_subsequence, match_with_hash, match_word_deterministic, match_words,
};

fn s(text: &str) -> String {
    String::from(text)
}

fn list(words: &[&str]) -> Vec<String> {
    words.iter().map(|w| s(w)).collect()
}

#[test]
fn test_hash_words() {
    let mut words = vec![String::from("abc")];
    assert_eq!(hash_words(&words), vec![0b1, 0b10, 0b100]);
    words.push(String::from("acd"));
    assert_eq!(hash_words(&words), vec![0b1, 0b110, 0b1100]);
}

#[test]
fn test_is_subsequence() {
    assert_eq!(is_subsequence(&String::from("abc"), &String::from("abcd")), true);
    assert_eq!(is_subsequence(&String::from("abc"), &String::from("ab")), false);
    assert_eq!(is_subsequence(&String::from("abc"), &String::from("acb")), false);
    assert_eq!(is_subsequence(&String::from("abc"), &String::from("acd")), false);
    assert_eq!(is_subsequence(&String::from("abc"), &String::from("abc")), true);
    assert_eq!(is_subsequence(&String::from("groceries"), &String::from("groceries")), true);
    assert_eq!(is_subsequence(&String::from(""), &String::from("abc")), true);
    assert_eq!(is_subsequence(&String::from("bxy"), &String::from("abc")), false);

    assert_eq!(is_subsequence(&String::from("-"), &String::from("ab-c")), true);
    assert_eq!(is_subsequence(&String::from("-"), &String::from("abc")), false);
}

#[test]
fn test_match_with_hash() {
    // true positive
    assert_eq!(match_with_hash(&String::from("abc"), &vec![0b1, 0b10, 0b100]), true);
    // true negative
    assert_eq!(match_with_hash(&String::from("abc"), &vec![0b1, 0b10, 0b1]), false);
    // false positive, "aac" & "bbb"
    assert_eq!(match_with_hash(&String::from("abc"), &vec![0b11, 0b11, 0b110]), true);
}

#[test]
fn test_match_deterministic() {
    let mut words = vec![String::from("abc"), String::from("acd")];
    assert_eq!(match_word_deterministic(&String::from("abc"), &words), true);
    assert_eq!(match_word_deterministic(&String::from("acd"), &words), true);
    assert_eq!(match_word_deterministic(&String::from("abd"), &words), false);
    assert_eq!(match_word_deterministic(&String::from("groceries"), &words), false);

    words.push(String::from("groceries"));
    assert_eq!(match_word_deterministic(&String::from("groceries"), &words), true);
    assert_eq!(match_word_deterministic(&String::from("g"), &words), true);

    let empty: Vec<String> = vec![];
    assert_eq!(match_word_deterministic(&String::from("anything"), &empty), false);
}

#[test]
fn test_match_words() {
    let mut patterns = vec![];
    let mut words = vec![];
    let mut words_hash = vec![];

    // Empty patterns case
    assert_eq!(match_words(&patterns, &words_hash, &words), true);
    words.push(String::from("abc"));
    words_hash.push(0b11);
    assert_eq!(match_words(&patterns, &words_hash, &words), true);

    let g = String::from("groceries");
    patterns.push(g.clone());
    words.push(g.clone());
    words_hash = hash_words(&words);
    assert_eq!(match_words(&patterns, &words_hash, &words), true);
}

#[test]
fn signature_of_no_words_is_empty() {
    assert_eq!(hash_words(&vec![]), Vec::<u32>::new());
    assert_eq!(hash_words(&list(&[""])), Vec::<u32>::new());
    assert_eq!(hash_words(&list(&["", ""])), Vec::<u32>::new());
}

#[test]
fn signature_is_as_long_as_the_longest_word() {
    assert_eq!(hash_words(&list(&["a", "abcd", "ab"])).len(), 4);
    assert_eq!(hash_words(&list(&["abcd", "a"])).len(), 4);
    assert_eq!(hash_words(&list(&["héllo"])).len(), 5);
}

#[test]
fn signature_does_not_depend_on_the_order_of_the_words() {
    let a = hash_words(&list(&["buy", "groceries", "now"]));
    let b = hash_words(&list(&["now", "buy", "groceries"]));
    let c = hash_words(&list(&["groceries", "now", "buy"]));
    assert_eq!(a, b);
    assert_eq!(a, c);
}

#[test]
fn signature_ignores_case_and_foreign_characters() {
    assert_eq!(hash_words(&list(&["AbC"])), vec![0b1, 0b10, 0b100]);
    assert_eq!(hash_words(&list(&["a1-"])), vec![0b1, 0, 1 << 28]);
    assert_eq!(hash_words(&list(&["a b"])), vec![0b1, 0, 0b10]);
}

#[test]
fn signature_holds_the_bit_of_every_character_of_every_word() {
    let words = list(&["buy", "Groceries", "to-day", "x"]);
    let hash = hash_words(&words);
    for word in &words {
        for (i, c) in word.chars().enumerate() {
            let bit = fuzzy_todo::get_bit_position(c as u8);
            assert_eq!(hash[i] & bit, bit);
        }
    }
}

#[test]
fn signature_classifies_characters_by_their_low_byte() {
    // U+0161 has the low byte of 'a'.
    assert_eq!(hash_words(&list(&["\u{161}"])), vec![0b1]);
    // U+00E9 has a low byte outside the alphabet.
    assert_eq!(hash_words(&list(&["\u{e9}"])), vec![0]);
}

#[test]
fn signature_blends_words_into_false_positives() {
    let words = list(&["aac", "bbb"]);
    let hash = hash_words(&words);
    assert_eq!(hash, vec![0b11, 0b11, 0b110]);
    let pattern = s("abc");
    assert_eq!(match_with_hash(&pattern, &hash), true);
    assert_eq!(is_subsequence(&pattern, &words[0]), false);
    assert_eq!(is_subsequence(&pattern, &words[1]), false);
    assert_eq!(match_word_deterministic(&pattern, &words), false);
    assert_eq!(match_words(&vec![pattern], &hash, &words), false);
}

#[test]
fn signature_never_rejects_a_true_match() {
    let words = list(&["buy", "Groceries", "to-day", "aac", "bbb"]);
    let hash = hash_words(&words);
    for pattern in ["", "b", "by", "grc", "GROCERIES", "t-d", "oa", "today", "ies", "bbb", "ac"] {
        let pattern = s(pattern);
        assert!(match_word_deterministic(&pattern, &words));
        assert!(match_with_hash(&pattern, &hash));
        assert!(match_words(&vec![pattern], &hash, &words));
    }
}

#[test]
fn empty_pattern_is_a_subsequence_of_everything() {
    assert!(is_subsequence(&s(""), &s("")));
    assert!(is_subsequence(&s(""), &s("abc")));
    assert!(is_subsequence(&s(""), &s("1 2 3")));
    assert!(match_with_hash(&s(""), &vec![]));
    assert!(match_with_hash(&s(""), &vec![0, 0]));
}

#[test]
fn text_is_a_subsequence_of_itself() {
    for text in ["a", "abc", "groceries", "to-day", "Hello World", "a1b2", "h\u{e9}llo", "   "] {
        assert!(is_subsequence(&s(text), &s(text)));
    }
}

#[test]
fn text_with_a_misread_character_is_no_subsequence_of_itself() {
    // As a pattern U+0161 asks for the letter 'a'; as a text it is two bytes
    // from 128 on.
    assert_eq!(is_subsequence(&s("\u{161}"), &s("\u{161}")), false);
    assert_eq!(is_subsequence(&s("\u{161}"), &s("a")), true);
}

#[test]
fn subsequence_ignores_case() {
    assert!(is_subsequence(&s("AbC"), &s("abc")));
    assert!(is_subsequence(&s("abc"), &s("ABC")));
    assert!(is_subsequence(&s("gRc"), &s("Groceries")));
    assert!(!is_subsequence(&s("AcB"), &s("abc")));
}

#[test]
fn subsequence_needs_increasing_positions() {
    assert!(is_subsequence(&s("aa"), &s("aba")));
    assert!(!is_subsequence(&s("aa"), &s("a")));
    assert!(!is_subsequence(&s("ba"), &s("ab")));
    assert!(!is_subsequence(&s("a"), &s("")));
}

#[test]
fn foreign_characters_share_the_sentinel_slot() {
    assert!(is_subsequence(&s("1"), &s("2")));
    assert!(is_subsequence(&s("!"), &s("a b")));
    assert!(is_subsequence(&s("\u{e9}"), &s("7")));
    assert!(!is_subsequence(&s("1"), &s("abc")));
    assert!(!is_subsequence(&s("a"), &s("123")));
    // Two bytes of one character can take two pattern characters.
    assert!(is_subsequence(&s("12"), &s("\u{e9}")));
    assert!(!is_subsequence(&s("123"), &s("\u{e9}")));
}

#[test]
fn foreign_patterns_are_rejected_by_every_signature() {
    let words = list(&["a1"]);
    let hash = hash_words(&words);
    assert!(is_subsequence(&s("1"), &words[0]));
    assert!(!match_with_hash(&s("1"), &hash));
    assert!(!match_with_hash(&s("a1"), &hash));
    assert!(!match_with_hash(&s("1"), &vec![u32::MAX, u32::MAX]));
    assert!(!match_words(&list(&["1"]), &hash, &words));
}

#[test]
fn hash_match_walks_the_signature_from_left_to_right() {
    assert!(match_with_hash(&s("ab"), &vec![0b1, 0b10]));
    assert!(!match_with_hash(&s("ab"), &vec![0b10, 0b1]));
    assert!(match_with_hash(&s("ab"), &vec![0b10, 0b1, 0b10]));
    assert!(!match_with_hash(&s("aa"), &vec![0b1]));
    assert!(match_with_hash(&s("-"), &vec![1 << 28]));
    assert!(!match_with_hash(&s("a"), &vec![]));
}

#[test]
fn no_patterns_match_whatever_the_signature_and_words() {
    assert!(match_words(&vec![], &vec![], &vec![]));
    assert!(match_words(&vec![], &vec![0, 7, u32::MAX], &list(&["x"])));
    assert!(match_words(&vec![], &vec![], &list(&["abc", "def"])));
}

#[test]
fn every_pattern_must_pass_both_checks() {
    let words = list(&["buy", "groceries"]);
    let hash = hash_words(&words);
    assert!(match_words(&list(&["buy", "grc"]), &hash, &words));
    assert!(!match_words(&list(&["buy", "milk"]), &hash, &words));
    assert!(!match_words(&list(&["milk", "buy"]), &hash, &words));
    // The words alone would do, the signature given does not.
    assert!(!match_words(&list(&["buy"]), &vec![], &words));
    // The signature alone would do, the words given do not.
    assert!(!match_words(&list(&["buy"]), &hash, &vec![]));
}
