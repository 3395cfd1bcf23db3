//! The store of the clipboard history: items with their tags, and the
//! catalog of tag definitions.
//!
//! The store is modelled as two lists. `items` holds the items in the order
//! in which they were inserted; no identifier occurs twice, and no item
//! holds a tag twice. `definitions` holds the catalog ordered by name; the
//! seven system tags are always in it.

use crate::content_analyzer::{
    TAG_CODE, TAG_EMAIL, TAG_JSON, TAG_MARKDOWN, TAG_PATH, TAG_PHONE, TAG_URL,
};
use crate::laws::{lemma_listing_ordered, lemma_listing_permutes};
use crate::models::{clone_texts, ClipboardItem, ItemView, TagDefinition, TagDefinitionView};
use crate::pattern::{regex_compiles, regex_finds, search};
use crate::text::{
    contains_text, lemma_text_lt_irreflexive, lemma_text_lt_total, lemma_text_lt_transitive,
    text_contains, text_less, text_lt,
};
use vstd::prelude::*;
use vstd::string::*;

verus! {

/// Why the store refused a change.
#[derive(Clone, Copy, Debug, PartialEq, Eq, Structural)]
pub enum StorageError {
    /// An item with this identifier is stored already.
    DuplicateId,
    /// The item names a tag twice.
    DuplicateTag,
    /// No item has this identifier.
    UnknownItem,
    /// A tag definition of this name exists already.
    DuplicateTagName,
}

/// The mathematical value of a [`Database`].
pub struct DatabaseView {
    /// The items, in order of insertion.
    pub items: Seq<ItemView>,
    /// The tag catalog, ordered by name.
    pub definitions: Seq<TagDefinitionView>,
}

/// Whether `name` is one of the seven tags of the classifier.
pub open spec fn is_system_tag_name(name: Seq<char>) -> bool {
    ||| name == TAG_URL@
    ||| name == TAG_CODE@
    ||| name == TAG_JSON@
    ||| name == TAG_MARKDOWN@
    ||| name == TAG_EMAIL@
    ||| name == TAG_PHONE@
    ||| name == TAG_PATH@
}

/// Whether `a` is listed before `b` whatever their order of insertion:
/// pinned items come before unpinned ones, and among items with the same pin
/// flag the one captured later comes first.
pub open spec fn outranks(a: ItemView, b: ItemView) -> bool {
    (a.is_pinned && !b.is_pinned) || (a.is_pinned == b.is_pinned && a.timestamp > b.timestamp)
}

/// Where `item` goes in a list in listing order: before the first entry that
/// it outranks, at the end where it outranks none.
pub open spec fn slot(ordered: Seq<ItemView>, item: ItemView) -> int
    decreases ordered.len(),
{
    if ordered.len() == 0 || outranks(item, ordered.first()) {
        0
    } else {
        1 + slot(ordered.drop_first(), item)
    }
}

/// The items in listing order: pinned first, then latest first; items that
/// agree in both keep their order of insertion.
pub open spec fn listing(items: Seq<ItemView>) -> Seq<ItemView>
    decreases items.len(),
{
    if items.len() == 0 {
        Seq::empty()
    } else {
        let rest = listing(items.drop_last());
        rest.insert(slot(rest, items.last()), items.last())
    }
}

/// The page of `list` that starts at `offset` and holds at most `limit`
/// entries.
pub open spec fn window(list: Seq<ItemView>, offset: nat, limit: nat) -> Seq<ItemView> {
    let start = if offset <= list.len() {
        offset
    } else {
        list.len()
    };
    let end = if start + limit <= list.len() {
        start + limit
    } else {
        list.len()
    };
    list.subrange(start as int, end as int)
}

/// Holds of every item but the one with identifier `id`.
pub open spec fn id_differs(id: Seq<char>) -> spec_fn(ItemView) -> bool {
    |item: ItemView| item.id != id
}

/// Holds of every text but `tag`.
pub open spec fn text_differs(tag: Seq<char>) -> spec_fn(Seq<char>) -> bool {
    |t: Seq<char>| t != tag
}

/// Holds of the items whose content contains `needle`.
pub open spec fn content_contains(needle: Seq<char>) -> spec_fn(ItemView) -> bool {
    |item: ItemView| contains_text(item.content, needle)
}

/// Holds of the items in whose content the regular expression `pattern` has
/// a match.
pub open spec fn content_matches(pattern: Seq<char>) -> spec_fn(ItemView) -> bool {
    |item: ItemView| regex_finds(pattern, item.content)
}

/// Holds of the items tagged `tag`.
pub open spec fn tagged(tag: Seq<char>) -> spec_fn(ItemView) -> bool {
    |item: ItemView| item.tags.contains(tag)
}

/// What setting the pin flag of the item `id` does to an item: the item
/// `id` gets the flag, every other item stays as it is.
pub open spec fn pin_change(id: Seq<char>, is_pinned: bool) -> spec_fn(ItemView) -> ItemView {
    |item: ItemView|
        if item.id == id {
            item.with_pin(is_pinned)
        } else {
            item
        }
}

/// What putting `tag` on the item `id` does to an item: the item `id` gets
/// the tag at the end of its tags, unless it has it; every other item stays
/// as it is.
pub open spec fn tag_addition(id: Seq<char>, tag: Seq<char>) -> spec_fn(ItemView) -> ItemView {
    |item: ItemView|
        if item.id == id && !item.tags.contains(tag) {
            item.with_tags(item.tags.push(tag))
        } else {
            item
        }
}

/// What taking `tag` off the item `id` does to an item: the item `id` loses
/// the tag; every other item stays as it is.
pub open spec fn tag_removal(id: Seq<char>, tag: Seq<char>) -> spec_fn(ItemView) -> ItemView {
    |item: ItemView|
        if item.id == id {
            item.with_tags(item.tags.filter(text_differs(tag)))
        } else {
            item
        }
}

/// Holds of every definition that a request to delete `name` leaves in the
/// catalog: those of another name, and system definitions.
pub open spec fn survives_delete(name: Seq<char>) -> spec_fn(TagDefinitionView) -> bool {
    |d: TagDefinitionView| d.name != name || d.is_system
}

/// How many definitions have a name that sorts before `name`.
pub open spec fn rank(definitions: Seq<TagDefinitionView>, name: Seq<char>) -> nat
    decreases definitions.len(),
{
    if definitions.len() == 0 {
        0
    } else {
        rank(definitions.drop_last(), name) + if text_lt(definitions.last().name, name) {
            1nat
        } else {
            0nat
        }
    }
}

/// Whether `definitions` holds a definition of `name`.
pub open spec fn defines(definitions: Seq<TagDefinitionView>, name: Seq<char>) -> bool {
    exists|i: int| 0 <= i < definitions.len() && #[trigger] definitions[i].name == name
}

/// The invariant of the items: no identifier occurs twice, and no item
/// holds a tag twice.
pub open spec fn items_wf(items: Seq<ItemView>) -> bool {
    &&& forall|i: int, j: int| 0 <= i < j < items.len() ==> items[i].id != items[j].id
    &&& forall|i: int| 0 <= i < items.len() ==> (#[trigger] items[i]).tags.no_duplicates()
}

/// The invariant of the catalog: it is ordered by name, so that no name
/// occurs twice; the system definitions are those with the name of a system
/// tag; and every system tag is defined.
pub open spec fn catalog_wf(definitions: Seq<TagDefinitionView>) -> bool {
    &&& forall|i: int, j: int|
        0 <= i < j < definitions.len() ==> text_lt(definitions[i].name, definitions[j].name)
    &&& forall|i: int|
        0 <= i < definitions.len() ==> ((#[trigger] definitions[i]).is_system
            <==> is_system_tag_name(definitions[i].name))
    &&& forall|name: Seq<char>| is_system_tag_name(name) ==> #[trigger] defines(definitions, name)
}

/// The entries of `items` whose mark is set. Entries beyond the end of
/// `marks` count as unmarked.
pub open spec fn marked(items: Seq<ItemView>, marks: Seq<bool>) -> Seq<ItemView>
    decreases items.len(),
{
    if items.len() == 0 {
        Seq::empty()
    } else {
        let front = marked(items.drop_last(), marks);
        if items.len() <= marks.len() && marks[items.len() - 1] {
            front.push(items.last())
        } else {
            front
        }
    }
}

/// Where each mark says whether `keep` holds of the entry, the marked
/// entries are those that pass the filter `keep`.
pub proof fn lemma_marked_is_filter(
    items: Seq<ItemView>,
    marks: Seq<bool>,
    keep: spec_fn(ItemView) -> bool,
)
    requires
        marks.len() >= items.len(),
        forall|k: int| 0 <= k < items.len() ==> marks[k] == keep(#[trigger] items[k]),
    ensures
        marked(items, marks) == items.filter(keep),
    decreases items.len(),
{
    reveal(Seq::filter);
    if items.len() > 0 {
        let front = items.drop_last();
        assert forall|k: int| 0 <= k < front.len() implies marks[k] == keep(#[trigger] front[k]) by {
            assert(front[k] == items[k]);
        }
        lemma_marked_is_filter(front, marks, keep);
        assert(items.last() == items[items.len() - 1]);
    }
}

/// In a catalog ordered by name, the definitions whose name sorts before
/// `name` are the first `rank` ones.
pub proof fn lemma_rank_splits(definitions: Seq<TagDefinitionView>, name: Seq<char>)
    requires
        forall|i: int, j: int|
            0 <= i < j < definitions.len() ==> text_lt(definitions[i].name, definitions[j].name),
    ensures
        rank(definitions, name) <= definitions.len(),
        forall|k: int|
            0 <= k < definitions.len() ==> (k < rank(definitions, name) <==> text_lt(
                #[trigger] definitions[k].name,
                name,
            )),
    decreases definitions.len(),
{
    if definitions.len() > 0 {
        let front = definitions.drop_last();
        let last = definitions.last();
        assert forall|i: int, j: int| 0 <= i < j < front.len() implies text_lt(
            front[i].name,
            front[j].name,
        ) by {
            assert(front[i] == definitions[i]);
            assert(front[j] == definitions[j]);
        }
        lemma_rank_splits(front, name);
        assert forall|k: int| 0 <= k < front.len() implies (k < rank(front, name) <==> text_lt(
            #[trigger] definitions[k].name,
            name,
        )) by {
            assert(front[k] == definitions[k]);
        }
        if text_lt(last.name, name) {
            assert forall|k: int| 0 <= k < front.len() implies text_lt(
                #[trigger] definitions[k].name,
                name,
            ) by {
                assert(text_lt(definitions[k].name, definitions[definitions.len() - 1].name));
                lemma_text_lt_transitive(definitions[k].name, last.name, name);
            }
            if rank(front, name) < front.len() {
                assert(text_lt(definitions[rank(front, name) as int].name, name));
            }
        }
    }
}

impl DatabaseView {
    /// Whether an item with identifier `id` is stored.
    pub open spec fn has_item(self, id: Seq<char>) -> bool {
        exists|i: int| 0 <= i < self.items.len() && #[trigger] self.items[i].id == id
    }

    /// Whether the catalog defines `name`.
    pub open spec fn has_definition(self, name: Seq<char>) -> bool {
        defines(self.definitions, name)
    }

    /// The invariant of the store.
    pub open spec fn wf(self) -> bool {
        items_wf(self.items) && catalog_wf(self.definitions)
    }

    /// The tag associations of the store: the pairs of an item's identifier
    /// and one of its tags.
    pub open spec fn tag_rows(self) -> Set<(Seq<char>, Seq<char>)> {
        Set::new(
            |row: (Seq<char>, Seq<char>)|
                exists|i: int|
                    0 <= i < self.items.len() && #[trigger] self.items[i].id == row.0
                        && self.items[i].tags.contains(row.1),
        )
    }

    /// The tags of the item `id`; none where no such item is stored.
    pub open spec fn tags_of(self, id: Seq<char>) -> Seq<Seq<char>>
        decreases self.items.len(),
    {
        if self.items.len() == 0 {
            Seq::empty()
        } else if self.items.last().id == id {
            self.items.last().tags
        } else {
            DatabaseView { items: self.items.drop_last(), ..self }.tags_of(id)
        }
    }

    /// The item `id`, if it is stored.
    pub open spec fn item_of(self, id: Seq<char>) -> Option<ItemView>
        decreases self.items.len(),
    {
        if self.items.len() == 0 {
            None
        } else if self.items.last().id == id {
            Some(self.items.last())
        } else {
            DatabaseView { items: self.items.drop_last(), ..self }.item_of(id)
        }
    }

    /// Why `item` cannot be inserted, if it cannot.
    pub open spec fn insert_error(self, item: ItemView) -> Option<StorageError> {
        if self.has_item(item.id) {
            Some(StorageError::DuplicateId)
        } else if !item.tags.no_duplicates() {
            Some(StorageError::DuplicateTag)
        } else {
            None
        }
    }

    /// The store with `item` added.
    pub open spec fn with_item(self, item: ItemView) -> DatabaseView {
        DatabaseView { items: self.items.push(item), ..self }
    }

    /// The store after an attempt to insert `item`: with the item where it
    /// can be inserted, unchanged where it cannot.
    pub open spec fn after_insert(self, item: ItemView) -> DatabaseView {
        if self.insert_error(item) is None {
            self.with_item(item)
        } else {
            self
        }
    }

    /// The store without the item `id`, and so without its tags.
    pub open spec fn without_item(self, id: Seq<char>) -> DatabaseView {
        DatabaseView { items: self.items.filter(id_differs(id)), ..self }
    }

    /// The store without any item; the catalog stays.
    pub open spec fn without_items(self) -> DatabaseView {
        DatabaseView { items: Seq::empty(), ..self }
    }

    /// The store with the pin flag of the item `id` set to `is_pinned`.
    pub open spec fn with_pin(self, id: Seq<char>, is_pinned: bool) -> DatabaseView {
        DatabaseView { items: self.items.map_values(pin_change(id, is_pinned)), ..self }
    }

    /// The store with `tag` on the item `id`, where it was not on it yet.
    pub open spec fn with_tag(self, id: Seq<char>, tag: Seq<char>) -> DatabaseView {
        DatabaseView { items: self.items.map_values(tag_addition(id, tag)), ..self }
    }

    /// The store without `tag` on the item `id`.
    pub open spec fn without_tag(self, id: Seq<char>, tag: Seq<char>) -> DatabaseView {
        DatabaseView { items: self.items.map_values(tag_removal(id, tag)), ..self }
    }

    /// The store with `definition` added to the catalog, in its place by
    /// name.
    pub open spec fn with_definition(self, definition: TagDefinitionView) -> DatabaseView {
        DatabaseView {
            definitions: self.definitions.insert(
                rank(self.definitions, definition.name) as int,
                definition,
            ),
            ..self
        }
    }

    /// The store with the colour of the definition `name` set to `color`.
    pub open spec fn with_color(self, name: Seq<char>, color: Seq<char>) -> DatabaseView {
        DatabaseView {
            definitions: self.definitions.map_values(
                |d: TagDefinitionView|
                    if d.name == name {
                        TagDefinitionView { color: Some(color), ..d }
                    } else {
                        d
                    },
            ),
            ..self
        }
    }

    /// The store without the custom definition `name`. A system definition
    /// stays.
    pub open spec fn without_definition(self, name: Seq<char>) -> DatabaseView {
        DatabaseView { definitions: self.definitions.filter(survives_delete(name)), ..self }
    }

    /// What a search for `pattern` returns: the items in listing order whose
    /// content contains `pattern`, or, for a regular expression, the items
    /// in whose content it has a match; none where the expression does not
    /// compile.
    pub open spec fn search_result(self, pattern: Seq<char>, use_regex: bool) -> Seq<ItemView> {
        if !use_regex {
            listing(self.items).filter(content_contains(pattern))
        } else if regex_compiles(pattern) {
            listing(self.items).filter(content_matches(pattern))
        } else {
            Seq::empty()
        }
    }
}

/// The definition of a system tag.
pub open spec fn system_definition(name: Seq<char>, color: Seq<char>) -> TagDefinitionView {
    TagDefinitionView { name, color: Some(color), is_system: true }
}

/// The catalog of a new store: the seven system tags with their colours.
pub open spec fn system_definitions() -> Seq<TagDefinitionView> {
    seq![
        system_definition(TAG_CODE@, "#10B981"@),
        system_definition(TAG_EMAIL@, "#EF4444"@),
        system_definition(TAG_JSON@, "#F59E0B"@),
        system_definition(TAG_MARKDOWN@, "#8B5CF6"@),
        system_definition(TAG_PATH@, "#6366F1"@),
        system_definition(TAG_PHONE@, "#EC4899"@),
        system_definition(TAG_URL@, "#3B82F6"@),
    ]
}

/// The store of items and tag definitions.
pub struct Database {
    items: Vec<ClipboardItem>,
    tag_master: Vec<TagDefinition>,
}

impl View for Database {
    type V = DatabaseView;

    closed spec fn view(&self) -> DatabaseView {
        DatabaseView { items: self.items.deep_view(), definitions: self.tag_master.deep_view() }
    }
}

/// The position of the item `id`, if it is among `items`.
fn find_item(items: &Vec<ClipboardItem>, id: &String) -> (found: Option<usize>)
    ensures
        match found {
            Some(i) => i < items@.len() && items@[i as int].id@ == id@,
            None => forall|k: int| 0 <= k < items@.len() ==> items@[k].id@ != id@,
        },
{
    let mut i: usize = 0;
    while i < items.len()
        invariant
            i <= items@.len(),
            forall|k: int| 0 <= k < i ==> items@[k].id@ != id@,
        decreases items@.len() - i,
    {
        if items[i].id == *id {
            return Some(i);
        }
        i += 1;
    }
    None
}

/// The position of `text`, if it is among `texts`.
fn find_text(texts: &Vec<String>, text: &String) -> (found: Option<usize>)
    ensures
        match found {
            Some(i) => i < texts@.len() && texts.deep_view()[i as int] == text@,
            None => forall|k: int| 0 <= k < texts@.len() ==> texts.deep_view()[k] != text@,
        },
{
    let mut i: usize = 0;
    while i < texts.len()
        invariant
            i <= texts@.len(),
            forall|k: int| 0 <= k < i ==> texts.deep_view()[k] != text@,
        decreases texts@.len() - i,
    {
        if texts[i] == *text {
            assert(texts.deep_view()[i as int] == text@);
            return Some(i);
        }
        i += 1;
    }
    None
}

/// Whether `text` is among `texts`.
fn has_text(texts: &Vec<String>, text: &String) -> (b: bool)
    ensures
        b == texts.deep_view().contains(text@),
{
    find_text(texts, text).is_some()
}

/// Whether no text occurs twice in `texts`.
fn all_distinct(texts: &Vec<String>) -> (b: bool)
    ensures
        b == texts.deep_view().no_duplicates(),
{
    let ghost all = texts.deep_view();
    let n = texts.len();
    let mut i: usize = 0;
    while i < n
        invariant
            i <= n,
            n == texts@.len(),
            all == texts.deep_view(),
            forall|a: int, b: int| 0 <= a < b < n && a < i ==> all[a] != all[b],
        decreases n - i,
    {
        let mut j: usize = i + 1;
        while j < n
            invariant
                i < j <= n,
                n == texts@.len(),
                all == texts.deep_view(),
                forall|b: int| i < b < j ==> all[i as int] != all[b],
            decreases n - j,
        {
            if texts[i] == texts[j] {
                assert(all[i as int] == all[j as int]);
                return false;
            }
            j += 1;
        }
        i += 1;
    }
    assert forall|a: int, b: int| 0 <= a < all.len() && 0 <= b < all.len() && a != b implies all[a]
        != all[b] by {
        if a < b {
        } else {
            assert(all[b] != all[a]);
        }
    }
    true
}

/// The position of the definition `name`, if it is in the catalog.
fn find_definition(definitions: &Vec<TagDefinition>, name: &String) -> (found: Option<usize>)
    ensures
        match found {
            Some(i) => i < definitions@.len() && definitions@[i as int].name@ == name@,
            None => forall|k: int| 0 <= k < definitions@.len() ==> definitions@[k].name@ != name@,
        },
{
    let mut i: usize = 0;
    while i < definitions.len()
        invariant
            i <= definitions@.len(),
            forall|k: int| 0 <= k < i ==> definitions@[k].name@ != name@,
        decreases definitions@.len() - i,
    {
        if definitions[i].name == *name {
            return Some(i);
        }
        i += 1;
    }
    None
}

/// How many definitions have a name that sorts before `name`.
fn count_before(definitions: &Vec<TagDefinition>, name: &String) -> (n: usize)
    ensures
        n == rank(definitions.deep_view(), name@),
        n <= definitions@.len(),
{
    let ghost all = definitions.deep_view();
    let len = definitions.len();
    let mut n: usize = 0;
    let mut i: usize = 0;
    assert(all.take(0).len() == 0);
    while i < len
        invariant
            i <= len,
            len == definitions@.len(),
            all == definitions.deep_view(),
            n <= i,
            n == rank(all.take(i as int), name@),
        decreases len - i,
    {
        assert(all.take(i + 1).drop_last() =~= all.take(i as int));
        assert(all.take(i + 1).last() == definitions@[i as int]@);
        if text_less(definitions[i].name.as_str(), name.as_str()) {
            n += 1;
        }
        i += 1;
    }
    assert(all.take(len as int) =~= all);
    n
}

/// A copy of the catalog.
fn clone_definitions(definitions: &Vec<TagDefinition>) -> (copy: Vec<TagDefinition>)
    ensures
        copy.deep_view() == definitions.deep_view(),
        copy@.len() == definitions@.len(),
{
    let mut copy: Vec<TagDefinition> = Vec::new();
    let mut i: usize = 0;
    while i < definitions.len()
        invariant
            i <= definitions@.len(),
            copy@.len() == i,
            forall|k: int| 0 <= k < i ==> copy@[k]@ == definitions@[k]@,
        decreases definitions@.len() - i,
    {
        copy.push(definitions[i].clone());
        i += 1;
    }
    assert(copy.deep_view() =~= definitions.deep_view());
    copy
}

/// Whether `a` is listed before `b` whatever their order of insertion.
fn item_outranks(a: &ClipboardItem, b: &ClipboardItem) -> (r: bool)
    ensures
        r == outranks(a@, b@),
{
    (a.is_pinned && !b.is_pinned) || (a.is_pinned == b.is_pinned && a.timestamp > b.timestamp)
}

/// Puts `item` in its place in a list in listing order.
fn place(ordered: &mut Vec<ClipboardItem>, item: ClipboardItem)
    ensures
        final(ordered).deep_view() == old(ordered).deep_view().insert(
            slot(old(ordered).deep_view(), item@),
            item@,
        ),
{
    let n = ordered.len();
    let ghost list = ordered.deep_view();
    let mut pos: usize = 0;
    assert(list.skip(0) =~= list);
    while pos < n && !item_outranks(&item, &ordered[pos])
        invariant
            pos <= n,
            n == ordered@.len(),
            list == ordered.deep_view(),
            slot(list, item@) == pos + slot(list.skip(pos as int), item@),
        decreases n - pos,
    {
        assert(list.skip(pos as int).first() == list[pos as int]);
        assert(list.skip(pos as int).drop_first() =~= list.skip(pos + 1));
        pos += 1;
    }
    assert(pos < n ==> list.skip(pos as int).first() == list[pos as int]);
    ordered.insert(pos, item);
    assert(ordered.deep_view() =~= list.insert(pos as int, item@));
}


/// A filter that every entry passes keeps the list as it is.
pub proof fn lemma_filter_keeps_all<A>(s: Seq<A>, keep: spec_fn(A) -> bool)
    requires
        forall|k: int| 0 <= k < s.len() ==> keep(#[trigger] s[k]),
    ensures
        s.filter(keep) == s,
    decreases s.len(),
{
    reveal(Seq::filter);
    if s.len() > 0 {
        let front = s.drop_last();
        assert forall|k: int| 0 <= k < front.len() implies keep(#[trigger] front[k]) by {
            assert(front[k] == s[k]);
        }
        lemma_filter_keeps_all(front, keep);
        assert(front.push(s.last()) =~= s);
    }
}

/// A filter that every entry passes but the one at `i` removes that entry.
pub proof fn lemma_filter_drops_one<A>(s: Seq<A>, keep: spec_fn(A) -> bool, i: int)
    requires
        0 <= i < s.len(),
        !keep(s[i]),
        forall|k: int| 0 <= k < s.len() && k != i ==> keep(#[trigger] s[k]),
    ensures
        s.filter(keep) == s.remove(i),
    decreases s.len(),
{
    reveal(Seq::filter);
    let front = s.drop_last();
    if i == s.len() - 1 {
        assert forall|k: int| 0 <= k < front.len() implies keep(#[trigger] front[k]) by {
            assert(front[k] == s[k]);
        }
        lemma_filter_keeps_all(front, keep);
        assert(s.remove(i) =~= front);
    } else {
        assert(front[i] == s[i]);
        assert forall|k: int| 0 <= k < front.len() && k != i implies keep(#[trigger] front[k]) by {
            assert(front[k] == s[k]);
        }
        lemma_filter_drops_one(front, keep, i);
        assert(front.remove(i).push(s.last()) =~= s.remove(i));
    }
}

/// Where no identifier occurs twice, a change that touches none but the
/// items with the identifier of the item at `i` changes that one item. Where
/// the change keeps the identifier and leaves no tag twice on the item, the
/// items meet their invariant afterwards.
pub proof fn lemma_one_item_changes(
    items: Seq<ItemView>,
    i: int,
    change: spec_fn(ItemView) -> ItemView,
)
    requires
        items_wf(items),
        0 <= i < items.len(),
        forall|item: ItemView| item.id != items[i].id ==> #[trigger] change(item) == item,
        change(items[i]).id == items[i].id,
        change(items[i]).tags.no_duplicates(),
    ensures
        items.map_values(change) == items.update(i, change(items[i])),
        items_wf(items.map_values(change)),
{
    let after = items.update(i, change(items[i]));
    assert forall|k: int| 0 <= k < items.len() implies #[trigger] items.map_values(change)[k]
        == after[k] by {
        if k < i {
            assert(items[k].id != items[i].id);
        } else if k > i {
            assert(items[i].id != items[k].id);
        }
    }
    assert(items.map_values(change) =~= after);
    assert forall|a: int, b: int| 0 <= a < b < after.len() implies after[a].id != after[b].id by {
        assert(items[a].id != items[b].id);
    }
    assert forall|k: int| 0 <= k < after.len() implies (#[trigger] after[k]).tags.no_duplicates() by {
        if k != i {
            assert(items[k].tags.no_duplicates());
        }
    }
}

/// A change that touches none but the items `id` changes nothing where no
/// item has that identifier.
pub proof fn lemma_no_item_changes(
    items: Seq<ItemView>,
    id: Seq<char>,
    change: spec_fn(ItemView) -> ItemView,
)
    requires
        forall|k: int| 0 <= k < items.len() ==> (#[trigger] items[k]).id != id,
        forall|item: ItemView| item.id != id ==> #[trigger] change(item) == item,
    ensures
        items.map_values(change) == items,
{
    assert(items.map_values(change) =~= items);
}

/// Where no identifier occurs twice, the tags of the item `id` are those of
/// the one item with that identifier.
pub proof fn lemma_tags_of_found(db: DatabaseView, i: int)
    requires
        0 <= i < db.items.len(),
        forall|a: int, b: int| 0 <= a < b < db.items.len() ==> db.items[a].id != db.items[b].id,
    ensures
        db.tags_of(db.items[i].id) == db.items[i].tags,
    decreases db.items.len(),
{
    if i < db.items.len() - 1 {
        let front = DatabaseView { items: db.items.drop_last(), ..db };
        assert(front.items[i] == db.items[i]);
        assert forall|a: int, b: int| 0 <= a < b < front.items.len() implies front.items[a].id
            != front.items[b].id by {
            assert(front.items[a] == db.items[a]);
            assert(front.items[b] == db.items[b]);
        }
        lemma_tags_of_found(front, i);
    }
}

/// Where no identifier occurs twice, the item `id` is the one item with that
/// identifier.
pub proof fn lemma_item_of_found(db: DatabaseView, i: int)
    requires
        0 <= i < db.items.len(),
        forall|a: int, b: int| 0 <= a < b < db.items.len() ==> db.items[a].id != db.items[b].id,
    ensures
        db.item_of(db.items[i].id) == Some(db.items[i]),
    decreases db.items.len(),
{
    if i < db.items.len() - 1 {
        let front = DatabaseView { items: db.items.drop_last(), ..db };
        assert(front.items[i] == db.items[i]);
        assert forall|a: int, b: int| 0 <= a < b < front.items.len() implies front.items[a].id
            != front.items[b].id by {
            assert(front.items[a] == db.items[a]);
            assert(front.items[b] == db.items[b]);
        }
        lemma_item_of_found(front, i);
    }
}

/// An identifier that no item has stands for no item.
pub proof fn lemma_item_of_absent(db: DatabaseView, id: Seq<char>)
    requires
        !db.has_item(id),
    ensures
        db.item_of(id) is None,
    decreases db.items.len(),
{
    if db.items.len() > 0 {
        let front = DatabaseView { items: db.items.drop_last(), ..db };
        assert(db.items[db.items.len() - 1].id != id);
        assert forall|k: int| 0 <= k < front.items.len() implies front.items[k].id != id by {
            assert(front.items[k] == db.items[k]);
        }
        lemma_item_of_absent(front, id);
    }
}

/// An identifier that no item has has no tags.
pub proof fn lemma_tags_of_absent(db: DatabaseView, id: Seq<char>)
    requires
        !db.has_item(id),
    ensures
        db.tags_of(id) == Seq::<Seq<char>>::empty(),
    decreases db.items.len(),
{
    if db.items.len() > 0 {
        let front = DatabaseView { items: db.items.drop_last(), ..db };
        assert(db.items[db.items.len() - 1].id != id);
        assert forall|k: int| 0 <= k < front.items.len() implies front.items[k].id != id by {
            assert(front.items[k] == db.items[k]);
        }
        lemma_tags_of_absent(front, id);
    }
}

/// The names of the system tags, in the order of the catalog.
proof fn lemma_system_names_ordered()
    ensures
        text_lt(TAG_CODE@, TAG_EMAIL@),
        text_lt(TAG_EMAIL@, TAG_JSON@),
        text_lt(TAG_JSON@, TAG_MARKDOWN@),
        text_lt(TAG_MARKDOWN@, TAG_PATH@),
        text_lt(TAG_PATH@, TAG_PHONE@),
        text_lt(TAG_PHONE@, TAG_URL@),
{
    reveal_strlit("url");
    reveal_strlit("email");
    reveal_strlit("phone");
    reveal_strlit("path");
    reveal_strlit("json");
    reveal_strlit("markdown");
    reveal_strlit("code");
    assert(TAG_PATH@.drop_first().first() == 'a');
    assert(TAG_PHONE@.drop_first().first() == 'h');
    assert(text_lt(TAG_PATH@.drop_first(), TAG_PHONE@.drop_first()));
}

/// A catalog in which each name sorts before the next is ordered by name.
proof fn lemma_neighbours_ordered(definitions: Seq<TagDefinitionView>, i: int, j: int)
    requires
        forall|k: int|
            0 <= k < definitions.len() - 1 ==> text_lt(
                #[trigger] definitions[k].name,
                definitions[k + 1].name,
            ),
        0 <= i < j < definitions.len(),
    ensures
        text_lt(definitions[i].name, definitions[j].name),
    decreases j - i,
{
    if j > i + 1 {
        lemma_neighbours_ordered(definitions, i, j - 1);
        assert(text_lt(definitions[j - 1].name, definitions[j].name));
        lemma_text_lt_transitive(
            definitions[i].name,
            definitions[j - 1].name,
            definitions[j].name,
        );
    }
}

/// The catalog of a new store meets the invariant.
proof fn lemma_system_definitions_wf()
    ensures
        catalog_wf(system_definitions()),
{
    let defs = system_definitions();
    lemma_system_names_ordered();
    assert forall|i: int, j: int| 0 <= i < j < defs.len() implies text_lt(
        defs[i].name,
        defs[j].name,
    ) by {
        lemma_neighbours_ordered(defs, i, j);
    }
    assert forall|name: Seq<char>| is_system_tag_name(name) implies #[trigger] defines(
        defs,
        name,
    ) by {
        assert(defs[0].name == TAG_CODE@);
        assert(defs[1].name == TAG_EMAIL@);
        assert(defs[2].name == TAG_JSON@);
        assert(defs[3].name == TAG_MARKDOWN@);
        assert(defs[4].name == TAG_PATH@);
        assert(defs[5].name == TAG_PHONE@);
        assert(defs[6].name == TAG_URL@);
    }
}

/// A definition of a system tag.
fn system_tag(name: &'static str, color: &'static str) -> (definition: TagDefinition)
    ensures
        definition@ == system_definition(name@, color@),
{
    TagDefinition {
        name: String::from_str(name),
        color: Some(String::from_str(color)),
        is_system: true,
    }
}

impl Database {
    /// Every store meets the invariant of its mathematical value.
    #[verifier::type_invariant]
    pub open spec fn inv(&self) -> bool {
        self@.wf()
    }

    /// A new store: no items, and the seven system tags in the catalog.
    pub fn new() -> (db: Self)
        ensures
            db@.items == Seq::<ItemView>::empty(),
            db@.definitions == system_definitions(),
            db@.wf(),
    {
        let mut tag_master: Vec<TagDefinition> = Vec::new();
        tag_master.push(system_tag(TAG_CODE, "#10B981"));
        tag_master.push(system_tag(TAG_EMAIL, "#EF4444"));
        tag_master.push(system_tag(TAG_JSON, "#F59E0B"));
        tag_master.push(system_tag(TAG_MARKDOWN, "#8B5CF6"));
        tag_master.push(system_tag(TAG_PATH, "#6366F1"));
        tag_master.push(system_tag(TAG_PHONE, "#EC4899"));
        tag_master.push(system_tag(TAG_URL, "#3B82F6"));
        let items: Vec<ClipboardItem> = Vec::new();
        proof {
            assert(tag_master.deep_view() =~= system_definitions());
            assert(items.deep_view() =~= Seq::<ItemView>::empty());
            lemma_system_definitions_wf();
        }
        Database { items, tag_master }
    }

    /// Inserts `item` with all its tags, or nothing at all. Refused where an
    /// item with the same identifier is stored, or where the item names a
    /// tag twice.
    pub fn insert_item(&mut self, item: &ClipboardItem) -> (outcome: Result<(), StorageError>)
        ensures
            match outcome {
                Ok(()) => old(self)@.insert_error(item@) is None,
                Err(e) => old(self)@.insert_error(item@) == Some(e),
            },
            final(self)@ == old(self)@.after_insert(item@),
            final(self)@.wf(),
    {
        proof {
            use_type_invariant(&*self);
        }
        let ghost before = self@;
        if let Some(i) = find_item(&self.items, &item.id) {
            assert(before.items[i as int].id == item@.id);
            return Err(StorageError::DuplicateId);
        }
        assert(!before.has_item(item@.id));
        if !all_distinct(&item.tags) {
            return Err(StorageError::DuplicateTag);
        }
        let mut items: Vec<ClipboardItem> = Vec::new();
        std::mem::swap(&mut items, &mut self.items);
        items.push(item.clone());
        proof {
            assert(items.deep_view() =~= before.items.push(item@));
            let after = before.with_item(item@);
            assert forall|i: int, j: int| 0 <= i < j < after.items.len() implies after.items[i].id
                != after.items[j].id by {
                if j == before.items.len() {
                    assert(before.items[i].id != item@.id);
                }
            }
        }
        self.items = items;
        Ok(())
    }

    /// Removes the item `id` together with its tags. Nothing changes where
    /// no such item is stored.
    pub fn delete_item(&mut self, id: &str)
        ensures
            final(self)@ == old(self)@.without_item(id@),
            final(self)@.wf(),
    {
        proof {
            use_type_invariant(&*self);
        }
        let ghost before = self@;
        let id = String::from_str(id);
        match find_item(&self.items, &id) {
            Some(i) => {
                let mut items: Vec<ClipboardItem> = Vec::new();
                std::mem::swap(&mut items, &mut self.items);
                let _ = items.remove(i);
                proof {
                    assert(items.deep_view() =~= before.items.remove(i as int));
                    assert forall|k: int| 0 <= k < before.items.len() && k != i implies id_differs(
                        id@,
                    )(#[trigger] before.items[k]) by {
                        if k < i {
                            assert(before.items[k].id != before.items[i as int].id);
                        } else {
                            assert(before.items[i as int].id != before.items[k].id);
                        }
                    }
                    lemma_filter_drops_one(before.items, id_differs(id@), i as int);
                }
                self.items = items;
            },
            None => {
                proof {
                    assert forall|k: int| 0 <= k < before.items.len() implies id_differs(id@)(
                        #[trigger] before.items[k],
                    ) by {
                        assert(before.items[k] == self.items@[k]@);
                    }
                    lemma_filter_keeps_all(before.items, id_differs(id@));
                    assert(before.without_item(id@) == before);
                }
            },
        }
    }

    /// Removes every item with its tags. The catalog stays.
    pub fn clear_all(&mut self)
        ensures
            final(self)@ == old(self)@.without_items(),
            final(self)@.wf(),
    {
        proof {
            use_type_invariant(&*self);
        }
        let items: Vec<ClipboardItem> = Vec::new();
        proof {
            assert(items.deep_view() =~= Seq::<ItemView>::empty());
        }
        self.items = items;
    }

    /// Puts `item` in the place of the item at position `i`.
    fn replace_item(&mut self, i: usize, item: ClipboardItem)
        requires
            i < old(self)@.items.len(),
            items_wf(old(self)@.items.update(i as int, item@)),
        ensures
            final(self)@ == (DatabaseView {
                items: old(self)@.items.update(i as int, item@),
                ..old(self)@
            }),
    {
        proof {
            use_type_invariant(&*self);
        }
        let ghost before = self@;
        let mut items: Vec<ClipboardItem> = Vec::new();
        std::mem::swap(&mut items, &mut self.items);
        let _ = items.remove(i);
        items.insert(i, item);
        assert(items.deep_view() =~= before.items.update(i as int, item@));
        self.items = items;
    }

    /// Sets the pin flag of the item `id`. Nothing changes where no such
    /// item is stored.
    pub fn update_pin_status(&mut self, id: &str, is_pinned: bool)
        ensures
            final(self)@ == old(self)@.with_pin(id@, is_pinned),
            final(self)@.wf(),
    {
        proof {
            use_type_invariant(&*self);
        }
        let ghost before = self@;
        let id = String::from_str(id);
        match find_item(&self.items, &id) {
            Some(i) => {
                let mut item = self.items[i].clone();
                item.is_pinned = is_pinned;
                proof {
                    lemma_one_item_changes(before.items, i as int, pin_change(id@, is_pinned));
                }
                self.replace_item(i, item);
            },
            None => {
                proof {
                    lemma_no_item_changes(before.items, id@, pin_change(id@, is_pinned));
                }
            },
        }
    }

    /// Puts `tag` on the item `id`. Nothing changes where the item has the
    /// tag already. Refused where no such item is stored.
    pub fn add_tag(&mut self, item_id: &str, tag: &str) -> (outcome: Result<(), StorageError>)
        ensures
            match outcome {
                Ok(()) => old(self)@.has_item(item_id@) && final(self)@ == old(self)@.with_tag(
                    item_id@,
                    tag@,
                ),
                Err(e) => e == StorageError::UnknownItem && !old(self)@.has_item(item_id@)
                    && final(self)@ == old(self)@,
            },
            final(self)@.wf(),
    {
        proof {
            use_type_invariant(&*self);
        }
        let ghost before = self@;
        let id = String::from_str(item_id);
        let tag = String::from_str(tag);
        match find_item(&self.items, &id) {
            Some(i) => {
                let ghost change = tag_addition(id@, tag@);
                assert(before.items[i as int].id == id@);
                assert(before.items[i as int].tags.no_duplicates());
                let mut item = self.items[i].clone();
                if !has_text(&item.tags, &tag) {
                    let ghost old_tags = item.tags.deep_view();
                    item.tags.push(tag);
                    assert(item.tags.deep_view() =~= old_tags.push(tag@));
                }
                proof {
                    assert(item@ == change(before.items[i as int]));
                    lemma_one_item_changes(before.items, i as int, change);
                }
                self.replace_item(i, item);
                Ok(())
            },
            None => {
                assert(!before.has_item(id@));
                Err(StorageError::UnknownItem)
            },
        }
    }

    /// Takes `tag` off the item `id`. Nothing changes where the item does
    /// not have the tag, or where no such item is stored.
    pub fn remove_tag(&mut self, item_id: &str, tag: &str)
        ensures
            final(self)@ == old(self)@.without_tag(item_id@, tag@),
            final(self)@.wf(),
    {
        proof {
            use_type_invariant(&*self);
        }
        let ghost before = self@;
        let id = String::from_str(item_id);
        let tag = String::from_str(tag);
        match find_item(&self.items, &id) {
            Some(i) => {
                let ghost change = tag_removal(id@, tag@);
                let ghost old_tags = before.items[i as int].tags;
                assert(before.items[i as int].id == id@);
                assert(old_tags.no_duplicates());
                let mut item = self.items[i].clone();
                match find_text(&item.tags, &tag) {
                    Some(t) => {
                        let _ = item.tags.remove(t);
                        proof {
                            assert(item.tags.deep_view() =~= old_tags.remove(t as int));
                            assert forall|k: int|
                                0 <= k < old_tags.len() && k != t implies text_differs(tag@)(
                                #[trigger] old_tags[k],
                            ) by {
                                assert(old_tags[k] != old_tags[t as int]);
                            }
                            lemma_filter_drops_one(old_tags, text_differs(tag@), t as int);
                            let kept = old_tags.remove(t as int);
                            assert forall|a: int, b: int|
                                0 <= a < kept.len() && 0 <= b < kept.len() && a != b implies kept[a]
                                != kept[b] by {
                                let a0 = if a < t { a } else { a + 1 };
                                let b0 = if b < t { b } else { b + 1 };
                                assert(kept[a] == old_tags[a0]);
                                assert(kept[b] == old_tags[b0]);
                            }
                        }
                    },
                    None => {
                        proof {
                            assert forall|k: int| 0 <= k < old_tags.len() implies text_differs(
                                tag@,
                            )(#[trigger] old_tags[k]) by {}
                            lemma_filter_keeps_all(old_tags, text_differs(tag@));
                        }
                    },
                }
                proof {
                    assert(item@ == change(before.items[i as int]));
                    lemma_one_item_changes(before.items, i as int, change);
                }
                self.replace_item(i, item);
            },
            None => {
                proof {
                    lemma_no_item_changes(before.items, id@, tag_removal(id@, tag@));
                }
            },
        }
    }

    /// The item `id`, if it is stored.
    pub fn get_item(&self, id: &str) -> (item: Option<ClipboardItem>)
        ensures
            item.deep_view() == self@.item_of(id@),
            item is Some <==> self@.has_item(id@),
    {
        proof {
            use_type_invariant(&*self);
        }
        let id = String::from_str(id);
        match find_item(&self.items, &id) {
            Some(i) => {
                proof {
                    lemma_item_of_found(self@, i as int);
                    assert(self@.items[i as int].id == id@);
                }
                Some(self.items[i].clone())
            },
            None => {
                proof {
                    lemma_item_of_absent(self@, id@);
                }
                None
            },
        }
    }

    /// The tags of the item `id`, in the order in which they were put on
    /// it; none where no such item is stored.
    pub fn get_tags_for_item(&self, item_id: &str) -> (tags: Vec<String>)
        ensures
            tags.deep_view() == self@.tags_of(item_id@),
    {
        proof {
            use_type_invariant(&*self);
        }
        let id = String::from_str(item_id);
        match find_item(&self.items, &id) {
            Some(i) => {
                proof {
                    lemma_tags_of_found(self@, i as int);
                }
                clone_texts(&self.items[i].tags)
            },
            None => {
                proof {
                    lemma_tags_of_absent(self@, id@);
                }
                let tags: Vec<String> = Vec::new();
                assert(tags.deep_view() =~= Seq::<Seq<char>>::empty());
                tags
            },
        }
    }

    /// One page of the listing: at most `limit` items, starting after the
    /// first `offset` items of the listing.
    pub fn get_items_paginated(&self, offset: usize, limit: usize) -> (page: Vec<ClipboardItem>)
        ensures
            page.deep_view() == window(listing(self@.items), offset as nat, limit as nat),
    {
        let mut all = self.get_all_items();
        let ghost list = all.deep_view();
        let n = all.len();
        let start = if offset <= n {
            offset
        } else {
            n
        };
        let end = if limit <= n - start {
            start + limit
        } else {
            n
        };
        all.truncate(end);
        let page = all.split_off(start);
        assert(page.deep_view() =~= list.subrange(start as int, end as int));
        page
    }

    /// The tag catalog, ordered by name.
    pub fn get_all_tags(&self) -> (list: Vec<TagDefinition>)
        ensures
            list.deep_view() == self@.definitions,
            catalog_wf(self@.definitions),
    {
        proof {
            use_type_invariant(&*self);
        }
        clone_definitions(&self.tag_master)
    }

    /// Adds a custom definition to the catalog. Refused where the catalog
    /// defines `name` already, as it does for every system tag.
    pub fn create_custom_tag(&mut self, name: &str, color: Option<&str>) -> (outcome: Result<
        (),
        StorageError,
    >)
        ensures
            match outcome {
                Ok(()) => !old(self)@.has_definition(name@) && final(self)@ == old(
                    self,
                )@.with_definition(
                    TagDefinitionView {
                        name: name@,
                        color: match color {
                            Some(c) => Some(c@),
                            None => None,
                        },
                        is_system: false,
                    },
                ),
                Err(e) => e == StorageError::DuplicateTagName && old(self)@.has_definition(name@)
                    && final(self)@ == old(self)@,
            },
            final(self)@.wf(),
    {
        proof {
            use_type_invariant(&*self);
        }
        let ghost before = self@;
        let name = String::from_str(name);
        if let Some(i) = find_definition(&self.tag_master, &name) {
            assert(before.definitions[i as int].name == name@);
            return Err(StorageError::DuplicateTagName);
        }
        assert(!defines(before.definitions, name@));
        let pos = count_before(&self.tag_master, &name);
        let definition = TagDefinition {
            name,
            color: match color {
                Some(c) => Some(String::from_str(c)),
                None => None,
            },
            is_system: false,
        };
        let ghost added = definition@;
        let mut updated = clone_definitions(&self.tag_master);
        updated.insert(pos, definition);
        proof {
            let olds = before.definitions;
            let news = olds.insert(pos as int, added);
            assert(updated.deep_view() =~= news);
            lemma_rank_splits(olds, added.name);
            assert forall|i: int, j: int| 0 <= i < j < news.len() implies text_lt(
                news[i].name,
                news[j].name,
            ) by {
                if j == pos {
                    assert(news[i] == olds[i]);
                } else if i == pos {
                    assert(news[j] == olds[j - 1]);
                    assert(olds[j - 1].name != added.name);
                    lemma_text_lt_total(added.name, olds[j - 1].name);
                } else {
                    let i0 = if i < pos { i } else { i - 1 };
                    let j0 = if j < pos { j } else { j - 1 };
                    assert(news[i] == olds[i0]);
                    assert(news[j] == olds[j0]);
                }
            }
            assert(!is_system_tag_name(added.name)) by {
                if is_system_tag_name(added.name) {
                    assert(defines(olds, added.name));
                }
            }
            assert forall|i: int| 0 <= i < news.len() implies ((#[trigger] news[i]).is_system
                <==> is_system_tag_name(news[i].name)) by {
                if i != pos {
                    let i0 = if i < pos { i } else { i - 1 };
                    assert(news[i] == olds[i0]);
                }
            }
            assert forall|n: Seq<char>| is_system_tag_name(n) implies #[trigger] defines(
                news,
                n,
            ) by {
                assert(defines(olds, n));
                let k = choose|k: int| 0 <= k < olds.len() && #[trigger] olds[k].name == n;
                let k1 = if k < pos { k } else { k + 1 };
                assert(news[k1].name == n);
            }
        }
        self.tag_master = updated;
        Ok(())
    }

    /// Sets the colour of the definition `name`, system or custom. Nothing
    /// changes where the catalog does not define `name`.
    pub fn update_tag_color(&mut self, name: &str, color: &str)
        ensures
            final(self)@ == old(self)@.with_color(name@, color@),
            final(self)@.wf(),
    {
        proof {
            use_type_invariant(&*self);
        }
        let ghost before = self@;
        let name = String::from_str(name);
        match find_definition(&self.tag_master, &name) {
            Some(i) => {
                let mut updated = clone_definitions(&self.tag_master);
                let mut definition = updated.remove(i);
                definition.color = Some(String::from_str(color));
                updated.insert(i, definition);
                proof {
                    let olds = before.definitions;
                    let news = before.with_color(name@, color@).definitions;
                    assert forall|k: int| 0 <= k < olds.len() implies #[trigger] updated.deep_view()[k]
                        == news[k] by {
                        lemma_text_lt_irreflexive(olds[k].name);
                        if k < i {
                            assert(text_lt(olds[k].name, olds[i as int].name));
                        } else if k > i {
                            assert(text_lt(olds[i as int].name, olds[k].name));
                        } else {
                            assert(olds[k].name == name@);
                        }
                    }
                    assert(updated.deep_view() =~= news);
                    assert forall|k: int| 0 <= k < news.len() implies (#[trigger] news[k]).name
                        == olds[k].name && news[k].is_system == olds[k].is_system by {}
                    assert forall|a: int, b: int| 0 <= a < b < news.len() implies text_lt(
                        news[a].name,
                        news[b].name,
                    ) by {
                        assert(news[a].name == olds[a].name);
                        assert(news[b].name == olds[b].name);
                    }
                    assert forall|n: Seq<char>| is_system_tag_name(n) implies #[trigger] defines(
                        news,
                        n,
                    ) by {
                        assert(defines(olds, n));
                        let k = choose|k: int| 0 <= k < olds.len() && #[trigger] olds[k].name == n;
                        assert(news[k].name == n);
                    }
                }
                self.tag_master = updated;
            },
            None => {
                proof {
                    assert(before.with_color(name@, color@).definitions =~= before.definitions);
                }
            },
        }
    }

    /// Removes the custom definition `name` from the catalog. Nothing
    /// changes where `name` is a system tag, or where the catalog does not
    /// define it.
    pub fn delete_custom_tag(&mut self, name: &str)
        ensures
            final(self)@ == old(self)@.without_definition(name@),
            final(self)@.wf(),
    {
        proof {
            use_type_invariant(&*self);
        }
        let ghost before = self@;
        let ghost olds = before.definitions;
        let name = String::from_str(name);
        let found = find_definition(&self.tag_master, &name);
        let doomed = match found {
            Some(i) => !self.tag_master[i].is_system,
            None => false,
        };
        if doomed {
            let i = found.unwrap();
            let mut updated = clone_definitions(&self.tag_master);
            let _ = updated.remove(i);
            proof {
                let news = olds.remove(i as int);
                assert(updated.deep_view() =~= news);
                assert forall|k: int| 0 <= k < olds.len() && k != i implies survives_delete(name@)(
                    #[trigger] olds[k],
                ) by {
                    if k < i {
                        assert(text_lt(olds[k].name, olds[i as int].name));
                    } else {
                        assert(text_lt(olds[i as int].name, olds[k].name));
                    }
                    lemma_text_lt_irreflexive(olds[k].name);
                }
                lemma_filter_drops_one(olds, survives_delete(name@), i as int);
                assert forall|a: int, b: int| 0 <= a < b < news.len() implies text_lt(
                    news[a].name,
                    news[b].name,
                ) by {
                    let a0 = if a < i { a } else { a + 1 };
                    let b0 = if b < i { b } else { b + 1 };
                    assert(news[a] == olds[a0]);
                    assert(news[b] == olds[b0]);
                }
                assert forall|k: int| 0 <= k < news.len() implies ((#[trigger] news[k]).is_system
                    <==> is_system_tag_name(news[k].name)) by {
                    let k0 = if k < i { k } else { k + 1 };
                    assert(news[k] == olds[k0]);
                }
                assert forall|n: Seq<char>| is_system_tag_name(n) implies #[trigger] defines(
                    news,
                    n,
                ) by {
                    assert(defines(olds, n));
                    let k = choose|k: int| 0 <= k < olds.len() && #[trigger] olds[k].name == n;
                    assert(k != i);
                    let k1 = if k < i { k } else { k - 1 };
                    assert(news[k1].name == n);
                }
            }
            self.tag_master = updated;
        } else {
            proof {
                assert forall|k: int| 0 <= k < olds.len() implies survives_delete(name@)(
                    #[trigger] olds[k],
                ) by {
                    if olds[k].name == name@ {
                        let i = found.unwrap();
                        if k < i {
                            assert(text_lt(olds[k].name, olds[i as int].name));
                        } else if k > i {
                            assert(text_lt(olds[i as int].name, olds[k].name));
                        }
                        lemma_text_lt_irreflexive(olds[k].name);
                    }
                }
                lemma_filter_keeps_all(olds, survives_delete(name@));
                assert(before.without_definition(name@) == before);
            }
        }
    }

    /// The entries of `items` whose mark is set, in their order.
    pub fn select_marked(items: &Vec<ClipboardItem>, marks: &Vec<bool>) -> (chosen: Vec<
        ClipboardItem,
    >)
        ensures
            chosen.deep_view() == marked(items.deep_view(), marks@),
    {
        let ghost all = items.deep_view();
        let mut chosen: Vec<ClipboardItem> = Vec::new();
        let mut i: usize = 0;
        assert(chosen.deep_view() =~= marked(all.take(0), marks@));
        while i < items.len()
            invariant
                i <= items@.len(),
                all == items.deep_view(),
                chosen.deep_view() == marked(all.take(i as int), marks@),
            decreases items@.len() - i,
        {
            assert(all.take(i + 1).drop_last() =~= all.take(i as int));
            assert(all.take(i + 1).last() == items@[i as int]@);
            let ghost so_far = chosen.deep_view();
            if i < marks.len() && marks[i] {
                chosen.push(items[i].clone());
                assert(chosen.deep_view() =~= so_far.push(items@[i as int]@));
            }
            i += 1;
        }
        assert(all.take(i as int) =~= all);
        chosen
    }

    /// Searches the contents of the items. Without `use_regex`, an item is
    /// found where its content contains `pattern`, letter for letter. With
    /// `use_regex`, `pattern` is a regular expression and an item is found
    /// where the expression has a match in its content; an expression that
    /// does not compile finds nothing. The items come in listing order.
    pub fn search_items(&self, pattern: &str, use_regex: bool) -> (hits: Vec<ClipboardItem>)
        ensures
            hits.deep_view() == self@.search_result(pattern@, use_regex),
    {
        let all = self.get_all_items();
        let ghost list = all.deep_view();
        let mut marks: Vec<bool> = Vec::new();
        let mut i: usize = 0;
        while i < all.len()
            invariant
                i <= all@.len(),
                list == all.deep_view(),
                list == listing(self@.items),
                marks@.len() == i,
                use_regex && i > 0 ==> regex_compiles(pattern@),
                use_regex ==> forall|k: int|
                    0 <= k < i ==> marks@[k] == content_matches(pattern@)(#[trigger] list[k]),
                !use_regex ==> forall|k: int|
                    0 <= k < i ==> marks@[k] == content_contains(pattern@)(#[trigger] list[k]),
            decreases all@.len() - i,
        {
            assert(list[i as int].content == all@[i as int].content@);
            let hit = if use_regex {
                match search(pattern, all[i].content.as_str()) {
                    Some(hit) => hit,
                    None => {
                        let none: Vec<ClipboardItem> = Vec::new();
                        assert(none.deep_view() =~= Seq::<ItemView>::empty());
                        return none;
                    },
                }
            } else {
                text_contains(all[i].content.as_str(), pattern)
            };
            marks.push(hit);
            i += 1;
        }
        proof {
            if !use_regex {
                lemma_marked_is_filter(list, marks@, content_contains(pattern@));
            } else if regex_compiles(pattern@) {
                lemma_marked_is_filter(list, marks@, content_matches(pattern@));
            } else {
                assert(list.len() == 0);
            }
        }
        Self::select_marked(&all, &marks)
    }

    /// The items tagged `tag`, in listing order.
    pub fn get_items_by_tag(&self, tag: &str) -> (hits: Vec<ClipboardItem>)
        ensures
            hits.deep_view() == listing(self@.items).filter(tagged(tag@)),
    {
        let all = self.get_all_items();
        let ghost list = all.deep_view();
        let tag = String::from_str(tag);
        let mut marks: Vec<bool> = Vec::new();
        let mut i: usize = 0;
        while i < all.len()
            invariant
                i <= all@.len(),
                list == all.deep_view(),
                marks@.len() == i,
                forall|k: int| 0 <= k < i ==> marks@[k] == tagged(tag@)(#[trigger] list[k]),
            decreases all@.len() - i,
        {
            assert(list[i as int].tags == all@[i as int].tags.deep_view());
            marks.push(has_text(&all[i].tags, &tag));
            i += 1;
        }
        proof {
            lemma_marked_is_filter(list, marks@, tagged(tag@));
        }
        Self::select_marked(&all, &marks)
    }

    /// Every item, in listing order: pinned items first, then the latest
    /// first.
    pub fn get_all_items(&self) -> (list: Vec<ClipboardItem>)
        ensures
            list.deep_view() == listing(self@.items),
            list@.len() == self@.items.len(),
            list.deep_view().to_multiset() == self@.items.to_multiset(),
            forall|i: int, j: int|
                0 <= i < j < list@.len() ==> !outranks(
                    #[trigger] list.deep_view()[j],
                    #[trigger] list.deep_view()[i],
                ),
    {
        proof {
            lemma_listing_permutes(self@.items);
            lemma_listing_ordered(self@.items);
        }
        let ghost all = self.items.deep_view();
        let mut list: Vec<ClipboardItem> = Vec::new();
        let mut i: usize = 0;
        assert(list.deep_view() =~= listing(all.take(0)));
        while i < self.items.len()
            invariant
                i <= self.items@.len(),
                all == self.items.deep_view(),
                list.deep_view() == listing(all.take(i as int)),
            decreases self.items@.len() - i,
        {
            assert(all.take(i + 1).drop_last() =~= all.take(i as int));
            assert(all.take(i + 1).last() == self.items@[i as int]@);
            place(&mut list, self.items[i].clone());
            i += 1;
        }
        assert(all.take(i as int) =~= all);
        list
    }

    /// How many items are stored.
    pub fn get_total_count(&self) -> (count: usize)
        ensures
            count == self@.items.len(),
    {
        self.items.len()
    }
}

} // verus!
