//! A store of to-do items with fuzzy search.
//!
//! An item holds the words of a description and a list of labels. A search
//! gives word patterns and label patterns, and finds the items that are not
//! done and in which every pattern is a subsequence of some word, or label:
//! letters are compared without regard to case, and only letters and the
//! hyphen count. Each item carries two signatures, bit masks that say which
//! characters its words and its labels can show at each position; a search
//! asks the signature first and reads the words only of the items that the
//! signature admits.
//!
//! - [`alphabet`]: the classifier of characters.
//! - [`embedding`]: subsequences as order-preserving embeddings, and the
//!   scan that finds them.
//! - [`encoding`]: characters among the bytes of a text.
//! - [`words`]: splitting a description into words.
//! - [`signature`]: building signatures.
//! - [`matching`]: the two matchers and their combination.
//! - [`soundness`]: the signatures lose no true match and add none.
//! - [`todo_list`]: the store.
//! - [`query`], [`runner`]: requests, and carrying one out.

pub mod alphabet;
pub mod embedding;
pub mod encoding;
pub mod matching;
pub mod query;
pub mod runner;
pub mod signature;
pub mod soundness;
pub mod todo_list;
pub mod words;

pub use alphabet::{get_alphabet_position, get_bit_position};
pub use matching::{is_subsequence, match_with_hash, match_word_deterministic, match_words};
pub use query::{Query, QueryError, QueryResult, SearchParams, SearchWord};
pub use runner::run_query;
pub use signature::hash_words;
pub use todo_list::{item_matches, Description, Index, Tag, TodoItem, TodoList};
pub use words::split_words;
