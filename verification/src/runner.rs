//! Carrying out one request against a store.

use crate::query::{Query, QueryError, QueryResult};
use crate::todo_list::{fresh_item, hits, mark_done, TodoList};
use vstd::prelude::*;

verus! {

/// What the store is told of a `Done` request whose identifier it never
/// gave out.
pub open spec fn invalid_index_message() -> Seq<char> {
    "Invalid Index"@
}

/// Carries out a request: an insertion, which gives the new identifier; a
/// completion, which fails for an identifier that the store never gave
/// out; or a search, which gives the identifiers found and leaves the store
/// as it was.
pub fn run_query(q: Query, tl: &mut TodoList) -> (outcome: Result<QueryResult, QueryError>)
    requires
        old(tl).wf(),
    ensures
        final(tl).wf(),
        (match q {
            Query::Add(description, tags) => {
                &&& outcome matches Ok(QueryResult::Added(id))
                &&& id@ == old(tl)@.len()
                &&& final(tl)@ == old(tl)@.push(fresh_item(id@, description@, tags.deep_view()))
            },
            Query::Done(idx) => if idx@ < old(tl)@.len() {
                &&& outcome == Ok::<QueryResult, QueryError>(QueryResult::Done)
                &&& final(tl)@ == mark_done(old(tl)@, idx@ as int)
            } else {
                &&& outcome matches Err(error)
                &&& error.0@ == invalid_index_message()
                &&& final(tl)@ == old(tl)@
            },
            Query::Search(params) => {
                &&& outcome matches Ok(QueryResult::Found(found))
                &&& found.deep_view() == hits(
                    old(tl)@,
                    params.words.deep_view(),
                    params.tags.deep_view(),
                )
                &&& final(tl)@ == old(tl)@
            },
        }),
{
    match q {
        Query::Add(desc, tags) => Ok(QueryResult::Added(tl.push(desc, tags))),
        Query::Done(idx) => match tl.done_with_index(idx) {
            None => Err(QueryError("Invalid Index".to_owned())),
            Some(_) => Ok(QueryResult::Done),
        },
        Query::Search(params) => Ok(QueryResult::Found(tl.search(params))),
    }
}

} // verus!
