//! What holds of the store and the monitor across their operations.
//!
//! Each statement is over the mathematical values of the store and the
//! monitor and over the functions in which the operations' contracts are
//! written, so that it holds of every execution.

use crate::content_analyzer::lemma_classification_distinct;
use crate::db::{
    defines, id_differs, is_system_tag_name, lemma_filter_keeps_all, listing, outranks, slot,
    survives_delete, window, DatabaseView,
};
use crate::models::ItemView;
use crate::monitor::{captured_item, MonitorView};
use crate::text::is_blank;
use vstd::prelude::*;
use vstd::seq_lib::*;

verus! {

/// An item's slot lies in the list or at its end; the item outranks the
/// entry at its slot, and no entry before it.
pub proof fn lemma_slot(ordered: Seq<ItemView>, item: ItemView)
    ensures
        0 <= slot(ordered, item) <= ordered.len(),
        slot(ordered, item) < ordered.len() ==> outranks(item, ordered[slot(ordered, item)]),
        forall|k: int| 0 <= k < slot(ordered, item) ==> !outranks(item, #[trigger] ordered[k]),
    decreases ordered.len(),
{
    if ordered.len() > 0 && !outranks(item, ordered.first()) {
        let rest = ordered.drop_first();
        lemma_slot(rest, item);
        assert forall|k: int| 0 <= k < slot(ordered, item) implies !outranks(
            item,
            #[trigger] ordered[k],
        ) by {
            if k > 0 {
                assert(ordered[k] == rest[k - 1]);
            }
        }
        if slot(ordered, item) < ordered.len() {
            assert(ordered[slot(ordered, item)] == rest[slot(rest, item)]);
        }
    }
}

/// The listing holds the stored items, each as often as it is stored; so
/// there are as many listed items as stored ones.
pub proof fn lemma_listing_permutes(items: Seq<ItemView>)
    ensures
        listing(items).to_multiset() == items.to_multiset(),
        listing(items).len() == items.len(),
    decreases items.len(),
{
    broadcast use group_to_multiset_ensures;

    if items.len() > 0 {
        let front = items.drop_last();
        let rest = listing(front);
        lemma_listing_permutes(front);
        lemma_slot(rest, items.last());
        assert(front.push(items.last()) =~= items);
        assert(rest.insert(slot(rest, items.last()), items.last()).to_multiset()
            == rest.to_multiset().insert(items.last()));
        assert(front.push(items.last()).to_multiset() == front.to_multiset().insert(items.last()));
    } else {
        assert(listing(items) =~= items);
    }
}

/// The listing is in order: no item outranks one that is listed before it.
/// So pinned items come before unpinned ones, and among items with the same
/// pin flag a later one never comes after an earlier one.
pub proof fn lemma_listing_ordered(items: Seq<ItemView>)
    ensures
        forall|i: int, j: int|
            0 <= i < j < listing(items).len() ==> !outranks(
                #[trigger] listing(items)[j],
                #[trigger] listing(items)[i],
            ),
    decreases items.len(),
{
    if items.len() > 0 {
        let rest = listing(items.drop_last());
        let item = items.last();
        let at = slot(rest, item);
        let list = listing(items);
        lemma_listing_ordered(items.drop_last());
        lemma_slot(rest, item);
        assert(list == rest.insert(at, item));
        assert forall|i: int, j: int| 0 <= i < j < list.len() implies !outranks(
            #[trigger] list[j],
            #[trigger] list[i],
        ) by {
            let i0 = if i < at { i } else { i - 1 };
            let j0 = if j < at { j } else { j - 1 };
            if i == at {
                assert(list[j] == rest[j0]);
                assert(outranks(item, rest[at]));
                if j0 > at {
                    assert(!outranks(rest[j0], rest[at]));
                }
            } else if j == at {
                assert(list[i] == rest[i0]);
                assert(!outranks(item, rest[i0]));
            } else {
                assert(list[i] == rest[i0]);
                assert(list[j] == rest[j0]);
                assert(!outranks(rest[j0], rest[i0]));
            }
        }
    }
}

/// Unpinned items that were inserted in the order of their capture are
/// listed in reverse: the latest first.
pub proof fn lemma_listing_latest_first(items: Seq<ItemView>)
    requires
        forall|i: int| 0 <= i < items.len() ==> !(#[trigger] items[i]).is_pinned,
        forall|i: int, j: int|
            0 <= i < j < items.len() ==> (#[trigger] items[i]).timestamp < (
            #[trigger] items[j]).timestamp,
    ensures
        listing(items) == items.reverse(),
    decreases items.len(),
{
    if items.len() > 0 {
        let front = items.drop_last();
        let item = items.last();
        assert forall|i: int| 0 <= i < front.len() implies !(#[trigger] front[i]).is_pinned by {
            assert(front[i] == items[i]);
        }
        assert forall|i: int, j: int| 0 <= i < j < front.len() implies (#[trigger] front[i]).timestamp
            < (#[trigger] front[j]).timestamp by {
            assert(front[i] == items[i]);
            assert(front[j] == items[j]);
        }
        lemma_listing_latest_first(front);
        let rest = listing(front);
        if rest.len() > 0 {
            assert(rest.first() == front[front.len() - 1]);
            assert(front[front.len() - 1] == items[items.len() - 2]);
            assert(items[items.len() - 2].timestamp < items[items.len() - 1].timestamp);
            assert(outranks(item, rest.first()));
        }
        assert(slot(rest, item) == 0);
        assert(rest.insert(0, item) =~= items.reverse());
    } else {
        assert(listing(items) =~= items.reverse());
    }
}

/// A page is a contiguous part of the listing: it starts after the first
/// `offset` listed items, or at the end of the listing, and holds the next
/// `limit` items, or those that are left. The listing is as long as the
/// store has items.
pub proof fn lemma_page_is_slice(items: Seq<ItemView>, offset: nat, limit: nat)
    ensures
        listing(items).len() == items.len(),
        ({
            let list = listing(items);
            let start = if offset <= list.len() {
                offset as int
            } else {
                list.len() as int
            };
            let length = if limit <= list.len() - start {
                limit as int
            } else {
                list.len() - start
            };
            &&& window(list, offset, limit) == list.subrange(start, start + length)
            &&& forall|k: int|
                0 <= k < length ==> #[trigger] window(list, offset, limit)[k] == list[start + k]
        }),
{
    lemma_listing_permutes(items);
}

/// Pages that follow one another make up the listing: the page of `limit`
/// items at `offset`, followed by the page that starts where it ends, is the
/// page of both lengths at `offset`.
pub proof fn lemma_pages_join(items: Seq<ItemView>, offset: nat, limit: nat, more: nat)
    ensures
        window(listing(items), offset, limit) + window(listing(items), offset + limit, more)
            == window(listing(items), offset, limit + more),
{
    let list = listing(items);
    assert(window(list, offset, limit) + window(list, offset + limit, more) =~= window(
        list,
        offset,
        limit + more,
    ));
}

/// After the item `id` is deleted no item has that identifier, and no tag
/// is associated with it.
pub proof fn lemma_delete_leaves_no_rows(db: DatabaseView, id: Seq<char>)
    ensures
        !db.without_item(id).has_item(id),
        forall|tag: Seq<char>| !db.without_item(id).tag_rows().contains((id, tag)),
{
    let after = db.without_item(id);
    assert forall|k: int| 0 <= k < after.items.len() implies (#[trigger] after.items[k]).id
        != id by {
        db.items.lemma_filter_pred(id_differs(id), k);
    }
}

/// Inserting an item and deleting it again leaves the store as it was.
pub proof fn lemma_insert_then_delete(db: DatabaseView, item: ItemView)
    requires
        db.wf(),
        db.insert_error(item) is None,
    ensures
        db.after_insert(item) == db.with_item(item),
        db.after_insert(item).without_item(item.id) == db,
{
    reveal(Seq::filter);
    let keep = id_differs(item.id);
    let grown = db.items.push(item);
    assert(grown.drop_last() =~= db.items);
    assert forall|k: int| 0 <= k < db.items.len() implies keep(#[trigger] db.items[k]) by {}
    lemma_filter_keeps_all(db.items, keep);
    assert(grown.filter(keep) == db.items);
}

/// An insertion that is refused changes nothing, and one that is accepted
/// adds the item with all its tags: the tags that the store then has for it
/// are the item's own.
pub proof fn lemma_insert_is_atomic(db: DatabaseView, item: ItemView)
    requires
        db.wf(),
    ensures
        db.insert_error(item) is Some ==> db.after_insert(item) == db,
        db.insert_error(item) is None ==> db.after_insert(item).has_item(item.id)
            && db.after_insert(item).tags_of(item.id) == item.tags,
        db.after_insert(item).wf(),
{
    if db.insert_error(item) is None {
        let after = db.after_insert(item);
        assert(after.items[db.items.len() as int] == item);
        assert forall|i: int, j: int| 0 <= i < j < after.items.len() implies after.items[i].id
            != after.items[j].id by {
            if j == db.items.len() {
                assert(db.items[i].id != item.id);
            }
        }
    }
}

/// A request to delete a tag definition leaves every system definition in
/// the catalog, as a system definition, whatever name it asks for.
pub proof fn lemma_system_definitions_survive(
    db: DatabaseView,
    name: Seq<char>,
    system_name: Seq<char>,
)
    requires
        db.wf(),
        is_system_tag_name(system_name),
    ensures
        exists|i: int|
            0 <= i < db.without_definition(name).definitions.len() && (
            #[trigger] db.without_definition(name).definitions[i]).name == system_name
                && db.without_definition(name).definitions[i].is_system,
{
    let keep = survives_delete(name);
    assert(defines(db.definitions, system_name));
    let k = choose|k: int| 0 <= k < db.definitions.len() && #[trigger] db.definitions[k].name
        == system_name;
    let definition = db.definitions[k];
    assert(definition.is_system);
    db.definitions.lemma_filter_contains(keep, k);
    let after = db.without_definition(name).definitions;
    assert(after.contains(definition));
    let i = choose|i: int| 0 <= i < after.len() && after[i] == definition;
    assert(after[i].name == system_name);
}

/// A request to delete a system tag changes nothing.
pub proof fn lemma_system_tag_not_deleted(db: DatabaseView, name: Seq<char>)
    requires
        db.wf(),
        is_system_tag_name(name),
    ensures
        db.without_definition(name) == db,
{
    let keep = survives_delete(name);
    assert forall|k: int| 0 <= k < db.definitions.len() implies keep(#[trigger] db.definitions[k]) by {}
    lemma_filter_keeps_all(db.definitions, keep);
}

/// Content that is read twice in a row is stored once. After the contents
/// `c1`, `c2`, `c2`, `c3` were read by a running monitor, with `c1` new to it,
/// the store holds three items more, for `c1`, `c2` and `c3`, inserted in
/// this order; the second reading of `c2` changes nothing. Where the store
/// was empty and the times of capture rise, the history lists them latest
/// first.
pub proof fn lemma_repeated_content_stored_once(
    monitor: MonitorView,
    db: DatabaseView,
    c1: Seq<char>,
    c2: Seq<char>,
    c3: Seq<char>,
    id1: Seq<char>,
    id2: Seq<char>,
    id_again: Seq<char>,
    id3: Seq<char>,
    t1: int,
    t2: int,
    t_again: int,
    t3: int,
)
    requires
        db.wf(),
        monitor.monitoring,
        monitor.last_content != Some(c1),
        c1 != c2,
        c2 != c3,
        !is_blank(c1),
        !is_blank(c2),
        !is_blank(c3),
        !db.has_item(id1),
        !db.has_item(id2),
        !db.has_item(id3),
        id1 != id2,
        id1 != id3,
        id2 != id3,
    ensures
        ({
            let m1 = monitor.after_reading(Some(c1));
            let d1 = monitor.store_after(db, Some(c1), id1, t1);
            let m2 = m1.after_reading(Some(c2));
            let d2 = m1.store_after(d1, Some(c2), id2, t2);
            let m3 = m2.after_reading(Some(c2));
            let d3 = m2.store_after(d2, Some(c2), id_again, t_again);
            let m4 = m3.after_reading(Some(c3));
            let d4 = m3.store_after(d3, Some(c3), id3, t3);
            &&& d3 == d2
            &&& d4.items == db.items + seq![
                captured_item(c1, id1, t1),
                captured_item(c2, id2, t2),
                captured_item(c3, id3, t3),
            ]
            &&& d4.definitions == db.definitions
            &&& m4.last_content == Some(c3)
            &&& db.items.len() == 0 && t1 < t2 < t3 ==> listing(d4.items) == seq![
                captured_item(c3, id3, t3),
                captured_item(c2, id2, t2),
                captured_item(c1, id1, t1),
            ]
        }),
{
    lemma_classification_distinct(c1);
    lemma_classification_distinct(c2);
    lemma_classification_distinct(c3);
    let i1 = captured_item(c1, id1, t1);
    let i2 = captured_item(c2, id2, t2);
    let i3 = captured_item(c3, id3, t3);
    let m1 = monitor.after_reading(Some(c1));
    let d1 = monitor.store_after(db, Some(c1), id1, t1);
    assert(d1 == db.with_item(i1));
    assert(!d1.has_item(id2)) by {
        assert forall|k: int| 0 <= k < d1.items.len() implies (#[trigger] d1.items[k]).id != id2 by {
            if k < db.items.len() {
                assert(db.items[k].id != id2);
            }
        }
    }
    let m2 = m1.after_reading(Some(c2));
    let d2 = m1.store_after(d1, Some(c2), id2, t2);
    assert(d2 == d1.with_item(i2));
    let m3 = m2.after_reading(Some(c2));
    let d3 = m2.store_after(d2, Some(c2), id_again, t_again);
    assert(d3 == d2);
    assert(!d3.has_item(id3)) by {
        assert forall|k: int| 0 <= k < d3.items.len() implies (#[trigger] d3.items[k]).id != id3 by {
            if k < db.items.len() {
                assert(db.items[k].id != id3);
            }
        }
    }
    let d4 = m3.store_after(d3, Some(c3), id3, t3);
    assert(d4 == d3.with_item(i3));
    assert(d4.items =~= db.items + seq![i1, i2, i3]);
    if db.items.len() == 0 && t1 < t2 < t3 {
        assert(d4.items =~= seq![i1, i2, i3]);
        lemma_listing_latest_first(d4.items);
        assert(d4.items.reverse() =~= seq![i3, i2, i1]);
    }
}

/// Content that is read twice and followed by other content leaves two
/// items: after a monitor that has seen nothing read `first`, `first` and
/// `second` into an empty store, the store holds one item for each of the
/// two contents, both unpinned. The history shows the later one first; where
/// both have the same time of capture it shows them in order of capture.
pub proof fn lemma_twice_read_content_stored_once(
    db: DatabaseView,
    first: Seq<char>,
    second: Seq<char>,
    id1: Seq<char>,
    id_again: Seq<char>,
    id2: Seq<char>,
    t1: int,
    t_again: int,
    t2: int,
)
    requires
        db.wf(),
        db.items.len() == 0,
        first != second,
        !is_blank(first),
        !is_blank(second),
        id1 != id2,
        t1 <= t2,
    ensures
        ({
            let m0 = MonitorView::initial();
            let m1 = m0.after_reading(Some(first));
            let d1 = m0.store_after(db, Some(first), id1, t1);
            let m2 = m1.after_reading(Some(first));
            let d2 = m1.store_after(d1, Some(first), id_again, t_again);
            let d3 = m2.store_after(d2, Some(second), id2, t2);
            let earlier = captured_item(first, id1, t1);
            let later = captured_item(second, id2, t2);
            &&& d3.items == seq![earlier, later]
            &&& !earlier.is_pinned && !later.is_pinned
            &&& t1 < t2 ==> listing(d3.items) == seq![later, earlier]
            &&& t1 == t2 ==> listing(d3.items) == seq![earlier, later]
        }),
{
    lemma_classification_distinct(first);
    lemma_classification_distinct(second);
    let m0 = MonitorView::initial();
    let m1 = m0.after_reading(Some(first));
    let d1 = m0.store_after(db, Some(first), id1, t1);
    let earlier = captured_item(first, id1, t1);
    let later = captured_item(second, id2, t2);
    assert(d1 == db.with_item(earlier));
    let m2 = m1.after_reading(Some(first));
    let d2 = m1.store_after(d1, Some(first), id_again, t_again);
    assert(d2 == d1);
    assert(!d2.has_item(id2)) by {
        assert forall|k: int| 0 <= k < d2.items.len() implies (#[trigger] d2.items[k]).id != id2 by {}
    }
    let d3 = m2.store_after(d2, Some(second), id2, t2);
    assert(d3 == d2.with_item(later));
    let items = seq![earlier, later];
    assert(d3.items =~= items);
    assert(items.drop_last() =~= seq![earlier]);
    assert(seq![earlier].drop_last() =~= Seq::<ItemView>::empty());
    reveal_with_fuel(listing, 3);
    reveal_with_fuel(slot, 3);
    let one = listing(seq![earlier]);
    assert(one =~= seq![earlier]);
    if t1 < t2 {
        assert(slot(one, later) == 0);
        assert(listing(items) =~= seq![later, earlier]);
    } else {
        assert(one.drop_first() =~= Seq::<ItemView>::empty());
        assert(slot(one, later) == 1);
        assert(listing(items) =~= seq![earlier, later]);
    }
}

/// Content that the monitor wrote to the clipboard itself is not captured
/// when it is read back.
pub proof fn lemma_write_back_not_captured(
    monitor: MonitorView,
    db: DatabaseView,
    content: Seq<char>,
    id: Seq<char>,
    timestamp: int,
)
    ensures
        ({
            let written = MonitorView { last_content: Some(content), ..monitor };
            &&& !written.captures(content)
            &&& written.store_after(db, Some(content), id, timestamp) == db
            &&& written.after_reading(Some(content)) == written
        }),
{
}

/// Content that is read while the monitor is paused is not stored, and is
/// not stored either when it is read again after the monitor has resumed.
pub proof fn lemma_paused_content_not_captured(
    monitor: MonitorView,
    db: DatabaseView,
    content: Seq<char>,
    id: Seq<char>,
    timestamp: int,
)
    requires
        !monitor.monitoring,
    ensures
        ({
            let seen = monitor.after_reading(Some(content));
            let resumed = MonitorView { monitoring: true, ..seen };
            &&& monitor.store_after(db, Some(content), id, timestamp) == db
            &&& resumed.store_after(db, Some(content), id, timestamp) == db
        }),
{
}

} // verus!
