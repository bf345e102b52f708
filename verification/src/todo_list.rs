//! The store of to-do items, and the values it hands out and takes in.

use crate::matching::{match_words, matches_all};
use crate::query::{SearchParams, SearchWord};
use crate::signature::{hash_words, signature};
use crate::words::{split_on_space, split_words};
use rayon::iter::{IndexedParallelIterator, IntoParallelRefIterator, ParallelIterator};
use vstd::prelude::*;

verus! {

/// The identifier of an item: the number of items that were inserted
/// before it.
#[derive(Debug, Clone, Copy, PartialEq, Eq, Structural)]
pub struct Index(u64);

impl View for Index {
    type V = u64;

    closed spec fn view(&self) -> u64 {
        self.0
    }
}

impl DeepView for Index {
    type V = u64;

    open spec fn deep_view(&self) -> u64 {
        self@
    }
}

impl Index {
    /// The identifier with the given number.
    pub fn new(i: u64) -> (index: Index)
        ensures
            index@ == i,
    {
        Index(i)
    }

    /// The number of the identifier.
    pub fn value(&self) -> (i: u64)
        ensures
            i == self@,
    {
        self.0
    }

    fn increment(&mut self)
        requires
            old(self)@ < u64::MAX,
        ensures
            final(self)@ == old(self)@ + 1,
    {
        self.0 += 1;
    }

    /// An identifier is nothing but its number.
    pub proof fn lemma_same_number(self, other: Index)
        ensures
            self@ == other@ <==> self == other,
    {
    }
}

/// The free text of an item.
#[derive(Debug, Clone, PartialEq, Eq)]
pub struct Description(String);

impl View for Description {
    type V = Seq<char>;

    closed spec fn view(&self) -> Seq<char> {
        self.0@
    }
}

impl DeepView for Description {
    type V = Seq<char>;

    open spec fn deep_view(&self) -> Seq<char> {
        self@
    }
}

impl Description {
    /// The description with the given text.
    pub fn new(s: &str) -> (description: Description)
        ensures
            description@ == s@,
    {
        Description(s.to_owned())
    }

    /// The text of the description.
    pub fn value(&self) -> (s: &str)
        ensures
            s@ == self@,
    {
        self.0.as_str()
    }
}

/// A label of an item, or one that a search asks for.
#[derive(Debug, Clone, PartialEq, Eq)]
pub struct Tag(String);

impl View for Tag {
    type V = Seq<char>;

    closed spec fn view(&self) -> Seq<char> {
        self.0@
    }
}

impl DeepView for Tag {
    type V = Seq<char>;

    open spec fn deep_view(&self) -> Seq<char> {
        self@
    }
}

impl Tag {
    /// The label with the given text.
    pub fn new(s: &str) -> (tag: Tag)
        ensures
            tag@ == s@,
    {
        Tag(s.to_owned())
    }

    /// The text of the label.
    pub fn value(&self) -> (s: &str)
        ensures
            s@ == self@,
    {
        self.0.as_str()
    }

    /// The labels with the given texts, in their order.
    pub fn from_strings(ss: Vec<&str>) -> (tags: Vec<Tag>)
        ensures
            tags.deep_view() == ss.deep_view(),
    {
        let mut tags: Vec<Tag> = Vec::new();
        let mut n: usize = 0;
        while n < ss.len()
            invariant
                n <= ss.len(),
                tags.deep_view() == ss.deep_view().take(n as int),
            decreases ss.len() - n,
        {
            let ghost before = tags.deep_view();
            let tag = Tag::new(ss[n]);
            tags.push(tag);
            n += 1;
            assert(ss.deep_view().take(n as int) =~= before.push(ss.deep_view()[n - 1]));
        }
        tags
    }

    /// The texts of the labels, in their order.
    pub fn to_strings(tags: &Vec<Tag>) -> (values: Vec<String>)
        ensures
            values.deep_view() == tags.deep_view(),
    {
        let mut values: Vec<String> = Vec::new();
        let mut n: usize = 0;
        while n < tags.len()
            invariant
                n <= tags.len(),
                values.deep_view() == tags.deep_view().take(n as int),
            decreases tags.len() - n,
        {
            let ghost before = values.deep_view();
            let value = tags[n].value().to_owned();
            values.push(value);
            n += 1;
            assert(tags.deep_view().take(n as int) =~= before.push(tags.deep_view()[n - 1]));
        }
        values
    }
}

/// What one item holds: its identifier, the words of its description, its
/// labels, whether it is done, and the signatures kept for its words and
/// for its labels.
pub ghost struct ItemView {
    pub index: u64,
    pub description: Seq<Seq<char>>,
    pub tags: Seq<Seq<char>>,
    pub done: bool,
    pub words_hash: Seq<u32>,
    pub tags_hash: Seq<u32>,
}

/// An item of the store. The signatures are its own affair: they are given
/// when it is made and read when it is searched.
#[derive(Debug, Clone, PartialEq, Eq)]
pub struct TodoItem {
    pub index: Index,
    pub description: Vec<String>,
    pub tags: Vec<String>,
    pub done: bool,
    words_hash: Vec<u32>,
    tags_hash: Vec<u32>,
}

impl View for TodoItem {
    type V = ItemView;

    closed spec fn view(&self) -> ItemView {
        ItemView {
            index: self.index@,
            description: self.description.deep_view(),
            tags: self.tags.deep_view(),
            done: self.done,
            words_hash: self.words_hash@,
            tags_hash: self.tags_hash@,
        }
    }
}

impl DeepView for TodoItem {
    type V = ItemView;

    open spec fn deep_view(&self) -> ItemView {
        self@
    }
}

impl TodoItem {
    /// The item with the given parts. Nothing is asked of the signatures
    /// here; the store gives its items those of their words and labels.
    pub fn new(
        index: Index,
        description: Vec<String>,
        tags: Vec<String>,
        done: bool,
        words_hash: Vec<u32>,
        tags_hash: Vec<u32>,
    ) -> (item: TodoItem)
        ensures
            item@ == (ItemView {
                index: index@,
                description: description.deep_view(),
                tags: tags.deep_view(),
                done,
                words_hash: words_hash@,
                tags_hash: tags_hash@,
            }),
    {
        TodoItem { index, description, tags, done, words_hash, tags_hash }
    }
}

/// The store: the items in the order of their insertion, and the
/// identifier that the next one gets. Items are added and marked as done,
/// never removed.
#[derive(Debug, Clone, PartialEq, Eq)]
pub struct TodoList {
    top_index: Index,
    items: Vec<TodoItem>,
}

/// What an item is when it is inserted: its words are those of the
/// description, it is not done, and its signatures are those of its words
/// and of its labels.
pub open spec fn fresh_item(index: u64, description: Seq<char>, tags: Seq<Seq<char>>) -> ItemView {
    let words = split_on_space(description);
    ItemView {
        index,
        description: words,
        tags,
        done: false,
        words_hash: signature(words),
        tags_hash: signature(tags),
    }
}

/// The items with the one at `position` marked as done.
pub open spec fn mark_done(items: Seq<ItemView>, position: int) -> Seq<ItemView> {
    items.update(position, ItemView { done: true, ..items[position] })
}

/// The item stands at the position that its identifier names, and its
/// signatures are those of its words and of its labels.
pub open spec fn consistent(item: ItemView, position: int) -> bool {
    &&& item.index == position
    &&& item.words_hash == signature(item.description)
    &&& item.tags_hash == signature(item.tags)
}

/// Every item is consistent with its position.
pub open spec fn well_formed(items: Seq<ItemView>) -> bool {
    forall|i: int| 0 <= i < items.len() ==> consistent(#[trigger] items[i], i)
}

/// The item is not done, its description matches all the words and its
/// labels match all the tags.
pub open spec fn is_hit(item: ItemView, words: Seq<Seq<char>>, tags: Seq<Seq<char>>) -> bool {
    &&& !item.done
    &&& matches_all(words, item.words_hash, item.description)
    &&& matches_all(tags, item.tags_hash, item.tags)
}

/// The test that a search for the words and tags puts each item to.
pub open spec fn hit_test(words: Seq<Seq<char>>, tags: Seq<Seq<char>>) -> spec_fn(
    ItemView,
) -> bool {
    |item: ItemView| is_hit(item, words, tags)
}

/// What a search gives for an item that it finds: its identifier.
pub open spec fn index_of() -> spec_fn(ItemView) -> u64 {
    |item: ItemView| item.index
}

/// The identifiers of the items that a search finds: the items are taken
/// from the last to the first, those that are hits are kept, and each gives
/// its identifier.
pub open spec fn hits(items: Seq<ItemView>, words: Seq<Seq<char>>, tags: Seq<Seq<char>>) -> Seq<
    u64,
> {
    items.reverse().filter(hit_test(words, tags)).map_values(index_of())
}

/// Whether a search for the words and tags finds the item.
pub fn item_matches(item: &TodoItem, words: &Vec<String>, tags: &Vec<String>) -> (hit: bool)
    ensures
        hit == is_hit(item@, words.deep_view(), tags.deep_view()),
{
    !item.done && match_words(words, &item.words_hash, &item.description) && match_words(
        tags,
        &item.tags_hash,
        &item.tags,
    )
}

/// Runs rayon's `par_iter`, `rev`, `filter`, `map` and `collect` over the
/// items, with [`item_matches`] as the filter. Trusted, not proved: the
/// vector that rayon collects holds, in this order, the identifiers of the
/// items that the filter accepts, taken from the last item to the first,
/// however the work was shared out among threads. (Rayon panics where it
/// cannot set up its pool of threads; that depends on the machine, not on
/// the arguments.)
#[verifier::external_body]
fn parallel_hits(items: &Vec<TodoItem>, words: &Vec<String>, tags: &Vec<String>) -> (found: Vec<
    Index,
>)
    ensures
        found.deep_view() == hits(items.deep_view(), words.deep_view(), tags.deep_view()),
{
    items.par_iter().rev().filter(|item| item_matches(item, words, tags)).map(|item| item.index)
        .collect()
}

impl View for TodoList {
    type V = Seq<ItemView>;

    closed spec fn view(&self) -> Seq<ItemView> {
        self.items.deep_view()
    }
}

impl TodoList {
    /// The identifier that the next inserted item gets.
    pub closed spec fn next_index(&self) -> u64 {
        self.top_index@
    }

    /// The store is in order: its items are well formed, and the next
    /// identifier is their number.
    pub open spec fn wf(&self) -> bool {
        &&& self.next_index() == self@.len()
        &&& well_formed(self@)
    }

    /// The empty store.
    pub fn new() -> (list: TodoList)
        ensures
            list.wf(),
            list@ == Seq::<ItemView>::empty(),
    {
        let list = TodoList { top_index: Index::new(0), items: vec![] };
        list
    }

    /// Inserts an item with the words of the description and the given
    /// labels, and gives its identifier: the number of items inserted
    /// before.
    pub fn push(&mut self, description: Description, tags: Vec<Tag>) -> (id: Index)
        requires
            old(self).wf(),
        ensures
            final(self).wf(),
            id@ == old(self)@.len(),
            final(self)@ == old(self)@.push(fresh_item(id@, description@, tags.deep_view())),
    {
        let words = split_words(description.value());
        let tags = Tag::to_strings(&tags);
        let words_hash = hash_words(&words);
        let tags_hash = hash_words(&tags);
        let ghost before = self@;

        let item = TodoItem::new(
            Index(self.top_index.value()),
            words,
            tags,
            false,
            words_hash,
            tags_hash,
        );
        self.items.push(item);
        assert(self.items.len() == before.len() + 1);
        assert(self@ =~= before.push(item@));
        let v = self.top_index;
        self.top_index.increment();
        v
    }

    /// Marks the item with the given identifier as done and gives the
    /// identifier back, or gives `None` and leaves the store as it is where
    /// no item has that identifier. An item that is done already stays so.
    pub fn done_with_index(&mut self, idx: Index) -> (found: Option<Index>)
        requires
            old(self).wf(),
        ensures
            final(self).wf(),
            idx@ < old(self)@.len() ==> found == Some(idx) && final(self)@ == mark_done(
                old(self)@,
                idx@ as int,
            ),
            idx@ >= old(self)@.len() ==> found is None && final(self)@ == old(self)@,
    {
        if idx.value() < self.top_index.value() {
            let ghost before = self@;
            assert(idx@ < self.items.len());
            let position: usize = idx.value() as usize;
            self.items[position].done = true;
            assert(self@ =~= mark_done(before, position as int));
            Some(idx)
        } else {
            None
        }
    }

    /// The identifiers of the items that are not done and match all the
    /// words and all the tags, the last inserted first.
    pub fn search(&self, sp: SearchParams) -> (found: Vec<Index>)
        ensures
            found.deep_view() == hits(self@, sp.words.deep_view(), sp.tags.deep_view()),
    {
        let s_words = SearchWord::to_strings(&sp.words);
        let s_tags = Tag::to_strings(&sp.tags);
        parallel_hits(&self.items, &s_words, &s_tags)
    }
}

/// A search among the items and one more finds that one first, if it is a
/// hit, and then what it finds among the items.
pub proof fn lemma_hits_push(
    items: Seq<ItemView>,
    item: ItemView,
    words: Seq<Seq<char>>,
    tags: Seq<Seq<char>>,
)
    ensures
        hits(items.push(item), words, tags) == (if is_hit(item, words, tags) {
            seq![item.index] + hits(items, words, tags)
        } else {
            hits(items, words, tags)
        }),
{
    let test = hit_test(words, tags);
    let newest = seq![item];
    assert(items.push(item).reverse() =~= newest + items.reverse());
    Seq::filter_distributes_over_add(newest, items.reverse(), test);
    assert(newest.filter(test) =~= if is_hit(item, words, tags) {
        newest
    } else {
        Seq::empty()
    }) by {
        reveal_with_fuel(Seq::filter, 2);
    }
    let found = items.reverse().filter(test);
    if is_hit(item, words, tags) {
        assert((newest + found).map_values(index_of()) =~= seq![item.index] + found.map_values(
            index_of(),
        ));
    }
}

/// A search in a well-formed store finds exactly the items that are hits,
/// each once, the later inserted before the earlier.
pub proof fn lemma_hits_are_the_matching_items(
    items: Seq<ItemView>,
    words: Seq<Seq<char>>,
    tags: Seq<Seq<char>>,
)
    requires
        well_formed(items),
    ensures
        forall|id: u64| #[trigger]
            hits(items, words, tags).contains(id) <==> id < items.len() && is_hit(
                items[id as int],
                words,
                tags,
            ),
        forall|a: int, b: int|
            0 <= a < b < hits(items, words, tags).len() ==> hits(items, words, tags)[a] > hits(
                items,
                words,
                tags,
            )[b],
    decreases items.len(),
{
    let found = hits(items, words, tags);
    if items.len() == 0 {
        assert(items.reverse().filter(hit_test(words, tags)) =~= Seq::<ItemView>::empty()) by {
            reveal_with_fuel(Seq::filter, 1);
        }
    } else {
        let earlier = items.drop_last();
        let last = items.last();
        let rest = hits(earlier, words, tags);
        assert(items =~= earlier.push(last));
        lemma_hits_push(earlier, last, words, tags);
        lemma_hits_are_the_matching_items(earlier, words, tags);
        assert forall|k: int| 0 <= k < rest.len() implies #[trigger] rest[k] < last.index by {
            assert(rest.contains(rest[k]));
        }
        assert forall|id: u64| #[trigger] found.contains(id) <==> id < items.len() && is_hit(
            items[id as int],
            words,
            tags,
        ) by {
            if is_hit(last, words, tags) {
                assert(found[0] == last.index);
                if rest.contains(id) {
                    let k = choose|k: int| 0 <= k < rest.len() && rest[k] == id;
                    assert(found[k + 1] == id);
                }
            }
        }
    }
}

/// Where every item of a well-formed store is a hit, a search finds them
/// all, from the last inserted to the first.
pub proof fn lemma_all_hits_newest_first(
    items: Seq<ItemView>,
    words: Seq<Seq<char>>,
    tags: Seq<Seq<char>>,
)
    requires
        well_formed(items),
        forall|i: int| 0 <= i < items.len() ==> is_hit(#[trigger] items[i], words, tags),
    ensures
        hits(items, words, tags) == Seq::new(items.len(), |k: int| (items.len() - 1 - k) as u64),
    decreases items.len(),
{
    if items.len() == 0 {
        lemma_hits_are_the_matching_items(items, words, tags);
    } else {
        let earlier = items.drop_last();
        assert(items =~= earlier.push(items.last()));
        lemma_hits_push(earlier, items.last(), words, tags);
        lemma_all_hits_newest_first(earlier, words, tags);
        assert(hits(items, words, tags) =~= Seq::new(
            items.len(),
            |k: int| (items.len() - 1 - k) as u64,
        ));
    }
}

/// An item that was marked as done is found by no search, whatever the
/// words and tags.
pub proof fn lemma_done_item_is_not_found(
    items: Seq<ItemView>,
    position: int,
    words: Seq<Seq<char>>,
    tags: Seq<Seq<char>>,
)
    requires
        well_formed(items),
        0 <= position < items.len(),
    ensures
        well_formed(mark_done(items, position)),
        !hits(mark_done(items, position), words, tags).contains(position as u64),
{
    let marked = mark_done(items, position);
    lemma_hits_are_the_matching_items(marked, words, tags);
}

/// Marking an item as done takes it out of what a search finds and
/// changes nothing else.
pub proof fn lemma_done_removes_one_hit(
    items: Seq<ItemView>,
    position: int,
    words: Seq<Seq<char>>,
    tags: Seq<Seq<char>>,
    id: u64,
)
    requires
        well_formed(items),
        0 <= position < items.len(),
        id != position,
    ensures
        hits(mark_done(items, position), words, tags).contains(id) == hits(
            items,
            words,
            tags,
        ).contains(id),
{
    let marked = mark_done(items, position);
    lemma_hits_are_the_matching_items(marked, words, tags);
    lemma_hits_are_the_matching_items(items, words, tags);
}

/// `after` is a later state of the store whose items were `before`: every
/// item is still there, at its place and as it was, except that it may
/// have been marked as done since.
pub open spec fn continues(before: Seq<ItemView>, after: Seq<ItemView>) -> bool {
    &&& before.len() <= after.len()
    &&& forall|i: int|
        0 <= i < before.len() ==> (#[trigger] after[i]) == (ItemView {
            done: after[i].done,
            ..before[i]
        }) && (before[i].done ==> after[i].done)
}

/// Inserting an item and marking one as done both continue the store:
/// nothing is removed, no identifier is given twice, and nothing that was
/// done is open again.
pub proof fn lemma_store_continues(items: Seq<ItemView>, item: ItemView, position: int)
    ensures
        continues(items, items),
        continues(items, items.push(item)),
        0 <= position < items.len() ==> continues(items, mark_done(items, position)),
{
}

/// A later state of a later state is a later state.
pub proof fn lemma_continues_further(
    first: Seq<ItemView>,
    second: Seq<ItemView>,
    third: Seq<ItemView>,
)
    requires
        continues(first, second),
        continues(second, third),
    ensures
        continues(first, third),
{
}

/// An item that is done is found by no search in any later state of the
/// store.
pub proof fn lemma_done_item_stays_out(
    before: Seq<ItemView>,
    after: Seq<ItemView>,
    position: int,
    words: Seq<Seq<char>>,
    tags: Seq<Seq<char>>,
)
    requires
        continues(before, after),
        well_formed(after),
        0 <= position < before.len(),
        before[position].done,
    ensures
        !hits(after, words, tags).contains(position as u64),
{
    assert(after[position].done);
    lemma_hits_are_the_matching_items(after, words, tags);
}

} // verus!
