//! What a caller can ask of the store, and what it is told.

use crate::todo_list::{Description, Index, Tag};
use vstd::prelude::*;

verus! {

/// A word that a search asks for.
#[derive(Debug, Clone, PartialEq, Eq)]
pub struct SearchWord(String);

impl View for SearchWord {
    type V = Seq<char>;

    closed spec fn view(&self) -> Seq<char> {
        self.0@
    }
}

impl DeepView for SearchWord {
    type V = Seq<char>;

    open spec fn deep_view(&self) -> Seq<char> {
        self@
    }
}

impl SearchWord {
    /// The word with the given text.
    pub fn new(s: &str) -> (word: SearchWord)
        ensures
            word@ == s@,
    {
        SearchWord(s.to_owned())
    }

    /// The text of the word.
    pub fn value(&self) -> (s: &str)
        ensures
            s@ == self@,
    {
        self.0.as_str()
    }

    /// The texts of the words, in their order.
    pub fn to_strings(words: &Vec<SearchWord>) -> (values: Vec<String>)
        ensures
            values.deep_view() == words.deep_view(),
    {
        let mut values: Vec<String> = Vec::new();
        let mut n: usize = 0;
        while n < words.len()
            invariant
                n <= words.len(),
                values.deep_view() == words.deep_view().take(n as int),
            decreases words.len() - n,
        {
            let ghost before = values.deep_view();
            let value = words[n].value().to_owned();
            values.push(value);
            n += 1;
            assert(words.deep_view().take(n as int) =~= before.push(words.deep_view()[n - 1]));
        }
        values
    }
}

/// The patterns of a search: words for the descriptions, labels for the
/// labels. An item is found if it matches all of both.
#[derive(Debug, Clone, PartialEq, Eq)]
pub struct SearchParams {
    pub words: Vec<SearchWord>,
    pub tags: Vec<Tag>,
}

/// A request to the store.
#[derive(Debug, Clone, PartialEq, Eq)]
pub enum Query {
    Add(Description, Vec<Tag>),
    Done(Index),
    Search(SearchParams),
}

/// What a request that was carried out gave.
#[derive(Debug, Clone, PartialEq, Eq)]
pub enum QueryResult {
    Added(Index),
    Done,
    Found(Vec<Index>),
}

/// Why a request was not carried out.
#[derive(Debug, Clone, PartialEq, Eq)]
pub struct QueryError(pub String);

} // verus!
