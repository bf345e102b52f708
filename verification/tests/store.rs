use fuzzy_todo::{
    hash_words, item_matches, run_query, split_words, Description, Index, Query, QueryError,
    QueryResult, SearchParams, SearchWord, Tag, TodoItem, TodoList,
};

fn params(words: &[&str], tags: &[&str]) -> SearchParams {
    SearchParams {
        words: words.iter().map(|w| SearchWord::new(w)).collect(),
        tags: Tag::from_strings(tags.to_vec()),
    }
}

fn ids(found: Vec<Index>) -> Vec<u64> {
    found.iter().map(|i| i.value()).collect()
}

fn insert(tl: &mut TodoList, description: &str, tags: &[&str]) -> u64 {
    tl.push(Description::new(description), Tag::from_strings(tags.to_vec())).value()
}

fn strings(words: &[&str]) -> Vec<String> {
    words.iter().map(|w| String::from(*w)).collect()
}

#[test]
fn index_keeps_its_number() {
    assert_eq!(Index::new(0).value(), 0);
    assert_eq!(Index::new(7).value(), 7);
    assert_eq!(Index::new(u64::MAX).value(), u64::MAX);
    assert_eq!(Index::new(3), Index::new(3));
    assert_ne!(Index::new(3), Index::new(4));
}

#[test]
fn description_and_tag_keep_their_text() {
    assert_eq!(Description::new("buy  milk ").value(), "buy  milk ");
    assert_eq!(Description::new("").value(), "");
    assert_eq!(Tag::new("errand").value(), "errand");
    assert_eq!(SearchWord::new("grc").value(), "grc");
}

#[test]
fn tags_from_strings_keep_order_and_text() {
    let tags = Tag::from_strings(vec!["b", "a", "", "b"]);
    let texts: Vec<&str> = tags.iter().map(|t| t.value()).collect();
    assert_eq!(texts, vec!["b", "a", "", "b"]);
    assert_eq!(Tag::from_strings(vec![]), Vec::<Tag>::new());
    assert_eq!(Tag::to_strings(&tags), strings(&["b", "a", "", "b"]));
}

#[test]
fn search_words_give_their_texts() {
    let words = vec![SearchWord::new("x"), SearchWord::new("Y z")];
    assert_eq!(SearchWord::to_strings(&words), strings(&["x", "Y z"]));
    assert_eq!(SearchWord::to_strings(&vec![]), Vec::<String>::new());
}

#[test]
fn splitting_keeps_empty_words_case_and_punctuation() {
    assert_eq!(split_words("buy groceries"), strings(&["buy", "groceries"]));
    assert_eq!(split_words(""), strings(&[""]));
    assert_eq!(split_words(" "), strings(&["", ""]));
    assert_eq!(split_words("a  b"), strings(&["a", "", "b"]));
    assert_eq!(split_words(" a "), strings(&["", "a", ""]));
    assert_eq!(split_words("Buy, MILK!"), strings(&["Buy,", "MILK!"]));
    assert_eq!(split_words("one"), strings(&["one"]));
    assert_eq!(split_words("caf\u{e9} au lait"), strings(&["caf\u{e9}", "au", "lait"]));
    assert_eq!(split_words("a\tb"), strings(&["a\tb"]));
}

#[test]
fn splitting_agrees_with_the_standard_split() {
    for text in ["", " ", "  ", "a", "a b", " a  b ", "x y z ", "\u{161} \u{e9}  -"] {
        let expected: Vec<String> = text.split(' ').map(|w| w.to_owned()).collect();
        assert_eq!(split_words(text), expected);
    }
}

#[test]
fn splitting_loses_nothing() {
    for text in ["", " ", "a", "buy  milk ", " x y  z", "caf\u{e9} \u{161}"] {
        let words = split_words(text);
        assert!(words.len() >= 1);
        assert!(words.iter().all(|w| !w.contains(' ')));
        assert_eq!(words.join(" "), text);
    }
}

#[test]
fn item_holds_what_it_was_made_of() {
    let item = TodoItem::new(
        Index::new(4),
        strings(&["buy", "milk"]),
        strings(&["errand"]),
        true,
        vec![1, 2],
        vec![3],
    );
    assert_eq!(item.index, Index::new(4));
    assert_eq!(item.description, strings(&["buy", "milk"]));
    assert_eq!(item.tags, strings(&["errand"]));
    assert_eq!(item.done, true);
}

#[test]
fn item_matching_asks_signature_and_words() {
    let words = strings(&["buy", "milk"]);
    let tags = strings(&["errand"]);
    let item = TodoItem::new(
        Index::new(0),
        words.clone(),
        tags.clone(),
        false,
        hash_words(&words),
        hash_words(&tags),
    );
    assert!(item_matches(&item, &vec![], &vec![]));
    assert!(item_matches(&item, &strings(&["by", "mlk"]), &strings(&["err"])));
    assert!(!item_matches(&item, &strings(&["bread"]), &vec![]));
    assert!(!item_matches(&item, &vec![], &strings(&["home"])));

    let done = TodoItem::new(
        Index::new(0),
        words.clone(),
        tags.clone(),
        true,
        hash_words(&words),
        hash_words(&tags),
    );
    assert!(!item_matches(&done, &vec![], &vec![]));

    // With a signature that does not belong to the words, the signature decides.
    let blind = TodoItem::new(Index::new(0), words.clone(), tags.clone(), false, vec![], vec![]);
    assert!(item_matches(&blind, &vec![], &vec![]));
    assert!(!item_matches(&blind, &strings(&["buy"]), &vec![]));
}

#[test]
fn new_store_is_empty() {
    let mut tl = TodoList::new();
    assert_eq!(ids(tl.search(params(&[], &[]))), Vec::<u64>::new());
    assert_eq!(tl.done_with_index(Index::new(0)), None);
    assert_eq!(tl, TodoList::new());
}

#[test]
fn identifiers_count_up_from_zero() {
    let mut tl = TodoList::new();
    for expected in 0..20u64 {
        assert_eq!(insert(&mut tl, "same text", &[]), expected);
    }
    // Completing items does not free their identifiers.
    assert_eq!(tl.done_with_index(Index::new(19)), Some(Index::new(19)));
    assert_eq!(tl.done_with_index(Index::new(0)), Some(Index::new(0)));
    assert_eq!(insert(&mut tl, "same text", &[]), 20);
}

#[test]
fn search_returns_newest_first() {
    let mut tl = TodoList::new();
    let id0 = insert(&mut tl, "buy milk", &["errand"]);
    let id1 = insert(&mut tl, "buy bread", &["errand"]);
    let id2 = insert(&mut tl, "buy butter", &["errand"]);
    assert_eq!(ids(tl.search(params(&["buy"], &["errand"]))), vec![id2, id1, id0]);
    assert_eq!(ids(tl.search(params(&[], &[]))), vec![2, 1, 0]);
    assert_eq!(ids(tl.search(params(&["b"], &[]))), vec![2, 1, 0]);
}

#[test]
fn search_keeps_order_over_many_items() {
    let mut tl = TodoList::new();
    for i in 0..500u64 {
        let text = if i % 3 == 0 { "water plants" } else { "feed cat" };
        insert(&mut tl, text, &["home"]);
    }
    let expected: Vec<u64> = (0..500u64).rev().filter(|i| i % 3 == 0).collect();
    assert_eq!(ids(tl.search(params(&["plants"], &["home"]))), expected);
    let all: Vec<u64> = (0..500u64).rev().collect();
    assert_eq!(ids(tl.search(params(&[], &["hm"]))), all);
    assert_eq!(ids(tl.search(params(&["dog"], &[]))), Vec::<u64>::new());
}

#[test]
fn search_needs_every_word_and_every_tag() {
    let mut tl = TodoList::new();
    insert(&mut tl, "buy groceries", &["errand", "food"]);
    insert(&mut tl, "buy stamps", &["errand"]);
    insert(&mut tl, "call mum", &[]);
    assert_eq!(ids(tl.search(params(&["buy"], &[]))), vec![1, 0]);
    assert_eq!(ids(tl.search(params(&["buy", "grc"], &[]))), vec![0]);
    assert_eq!(ids(tl.search(params(&["buy"], &["food"]))), vec![0]);
    assert_eq!(ids(tl.search(params(&["buy"], &["errand", "food"]))), vec![0]);
    assert_eq!(ids(tl.search(params(&[], &["errand"]))), vec![1, 0]);
    assert_eq!(ids(tl.search(params(&["cl", "mm"], &[]))), vec![2]);
    assert_eq!(ids(tl.search(params(&["call"], &["errand"]))), Vec::<u64>::new());
    // Words are looked for in the description only, tags in the labels only.
    assert_eq!(ids(tl.search(params(&["errand"], &[]))), Vec::<u64>::new());
    assert_eq!(ids(tl.search(params(&[], &["buy"]))), Vec::<u64>::new());
}

#[test]
fn search_is_fuzzy_and_ignores_case() {
    let mut tl = TodoList::new();
    insert(&mut tl, "Buy Groceries to-day", &["Errand"]);
    assert_eq!(ids(tl.search(params(&["GRCRS"], &[]))), vec![0]);
    assert_eq!(ids(tl.search(params(&["t-d"], &["eRR"]))), vec![0]);
    assert_eq!(ids(tl.search(params(&["today"], &[]))), vec![0]);
    assert_eq!(ids(tl.search(params(&["yub"], &[]))), Vec::<u64>::new());
    // A pattern is matched within one word, not across words.
    assert_eq!(ids(tl.search(params(&["buygroceries"], &[]))), Vec::<u64>::new());
}

#[test]
fn search_rejects_a_false_positive_of_the_signature() {
    let mut tl = TodoList::new();
    insert(&mut tl, "aac bbb", &["aac", "bbb"]);
    assert_eq!(ids(tl.search(params(&["abc"], &[]))), Vec::<u64>::new());
    assert_eq!(ids(tl.search(params(&[], &["abc"]))), Vec::<u64>::new());
    assert_eq!(ids(tl.search(params(&["ac", "bb"], &["bbb"]))), vec![0]);
}

#[test]
fn search_with_a_foreign_character_finds_nothing() {
    let mut tl = TodoList::new();
    insert(&mut tl, "room 101", &["a1"]);
    assert_eq!(ids(tl.search(params(&["room"], &[]))), vec![0]);
    assert_eq!(ids(tl.search(params(&["101"], &[]))), Vec::<u64>::new());
    assert_eq!(ids(tl.search(params(&["room", "1"], &[]))), Vec::<u64>::new());
    assert_eq!(ids(tl.search(params(&[], &["a1"]))), Vec::<u64>::new());
    assert_eq!(ids(tl.search(params(&[], &["a"]))), vec![0]);
}

#[test]
fn empty_pattern_matches_only_where_there_is_a_word() {
    let mut tl = TodoList::new();
    insert(&mut tl, "", &[]);
    insert(&mut tl, "x", &["y"]);
    // The empty description is one empty word; no labels are no words.
    assert_eq!(ids(tl.search(params(&[""], &[]))), vec![1, 0]);
    assert_eq!(ids(tl.search(params(&[], &[""]))), vec![1]);
}

#[test]
fn done_items_are_not_found() {
    let mut tl = TodoList::new();
    insert(&mut tl, "buy milk", &["errand"]);
    insert(&mut tl, "buy bread", &["errand"]);
    insert(&mut tl, "buy butter", &["errand"]);
    assert_eq!(tl.done_with_index(Index::new(1)), Some(Index::new(1)));
    assert_eq!(ids(tl.search(params(&["buy"], &[]))), vec![2, 0]);
    assert_eq!(ids(tl.search(params(&["bread"], &[]))), Vec::<u64>::new());
    assert_eq!(ids(tl.search(params(&[], &[]))), vec![2, 0]);
    assert_eq!(ids(tl.search(params(&[], &["errand"]))), vec![2, 0]);
    assert_eq!(tl.done_with_index(Index::new(2)), Some(Index::new(2)));
    assert_eq!(tl.done_with_index(Index::new(0)), Some(Index::new(0)));
    assert_eq!(ids(tl.search(params(&[], &[]))), Vec::<u64>::new());
}

#[test]
fn completing_twice_succeeds_and_changes_nothing() {
    let mut tl = TodoList::new();
    insert(&mut tl, "buy milk", &[]);
    insert(&mut tl, "buy bread", &[]);
    assert_eq!(tl.done_with_index(Index::new(0)), Some(Index::new(0)));
    let once = tl.clone();
    assert_eq!(tl.done_with_index(Index::new(0)), Some(Index::new(0)));
    assert_eq!(tl, once);
    assert_eq!(ids(tl.search(params(&[], &[]))), vec![1]);
}

#[test]
fn completing_an_unknown_identifier_fails() {
    let mut tl = TodoList::new();
    assert_eq!(tl.done_with_index(Index::new(0)), None);
    assert_eq!(tl.done_with_index(Index::new(u64::MAX)), None);
    insert(&mut tl, "buy milk", &[]);
    insert(&mut tl, "buy bread", &[]);
    let before = tl.clone();
    assert_eq!(tl.done_with_index(Index::new(2)), None);
    assert_eq!(tl.done_with_index(Index::new(3)), None);
    assert_eq!(tl.done_with_index(Index::new(1 << 40)), None);
    assert_eq!(tl.done_with_index(Index::new(u64::MAX)), None);
    assert_eq!(tl, before);
    assert_eq!(ids(tl.search(params(&[], &[]))), vec![1, 0]);
    assert_eq!(tl.done_with_index(Index::new(1)), Some(Index::new(1)));
}

#[test]
fn search_does_not_change_the_store() {
    let mut tl = TodoList::new();
    insert(&mut tl, "buy milk", &["errand"]);
    let before = tl.clone();
    tl.search(params(&["buy"], &["errand"]));
    tl.search(params(&["nothing"], &[]));
    assert_eq!(tl, before);
}

#[test]
fn end_to_end() {
    let mut tl = TodoList::new();
    assert_eq!(insert(&mut tl, "buy groceries", &["errand"]), 0);
    assert_eq!(insert(&mut tl, "buy milk", &["errand"]), 1);
    assert_eq!(ids(tl.search(params(&["groceries"], &[]))), vec![0]);
    assert_eq!(ids(tl.search(params(&["buy"], &["errand"]))), vec![1, 0]);
    assert_eq!(tl.done_with_index(Index::new(0)), Some(Index::new(0)));
    assert_eq!(ids(tl.search(params(&["buy"], &[]))), vec![1]);
}

#[test]
fn queries_are_carried_out() {
    let mut tl = TodoList::new();
    let add = Query::Add(Description::new("buy groceries"), Tag::from_strings(vec!["errand"]));
    assert_eq!(run_query(add, &mut tl), Ok(QueryResult::Added(Index::new(0))));
    let add = Query::Add(Description::new("buy milk"), Tag::from_strings(vec!["errand"]));
    assert_eq!(run_query(add, &mut tl), Ok(QueryResult::Added(Index::new(1))));

    let search = Query::Search(params(&["buy"], &["errand"]));
    assert_eq!(
        run_query(search, &mut tl),
        Ok(QueryResult::Found(vec![Index::new(1), Index::new(0)]))
    );

    assert_eq!(run_query(Query::Done(Index::new(0)), &mut tl), Ok(QueryResult::Done));
    let search = Query::Search(params(&["buy"], &[]));
    assert_eq!(run_query(search, &mut tl), Ok(QueryResult::Found(vec![Index::new(1)])));
}

#[test]
fn query_for_an_unknown_identifier_is_an_error() {
    let mut tl = TodoList::new();
    assert_eq!(
        run_query(Query::Done(Index::new(0)), &mut tl),
        Err(QueryError(String::from("Invalid Index")))
    );
    run_query(Query::Add(Description::new("x"), vec![]), &mut tl).unwrap();
    assert_eq!(
        run_query(Query::Done(Index::new(1)), &mut tl),
        Err(QueryError(String::from("Invalid Index")))
    );
    assert_eq!(run_query(Query::Done(Index::new(0)), &mut tl), Ok(QueryResult::Done));
    assert_eq!(run_query(Query::Done(Index::new(0)), &mut tl), Ok(QueryResult::Done));
}
