use clipedia::db::{Database, StorageError};
use clipedia::models::{ClipboardItem, ClipboardItemType, TagDefinition};

fn item(id: &str, content: &str, timestamp: i64) -> ClipboardItem {
    ClipboardItem::with_identity(
        id.to_string(),
        timestamp,
        content.to_string(),
        ClipboardItemType::Text,
    )
}

fn tagged(id: &str, content: &str, timestamp: i64, tags: &[&str]) -> ClipboardItem {
    let mut it = item(id, content, timestamp);
    it.tags = tags.iter().map(|t| t.to_string()).collect();
    it
}

fn ids(items: &[ClipboardItem]) -> Vec<String> {
    items.iter().map(|i| i.id.clone()).collect()
}

fn names(definitions: &[TagDefinition]) -> Vec<String> {
    definitions.iter().map(|d| d.name.clone()).collect()
}

fn store_of(items: &[ClipboardItem]) -> Database {
    let mut db = Database::new();
    for it in items {
        assert_eq!(db.insert_item(it), Ok(()));
    }
    db
}

#[test]
fn a_new_store_has_no_items_and_the_system_tags() {
    let db = Database::new();
    assert_eq!(db.get_total_count(), 0);
    assert!(db.get_all_items().is_empty());
    let catalog = db.get_all_tags();
    assert_eq!(names(&catalog), vec!["code", "email", "json", "markdown", "path", "phone", "url"]);
    let colors: Vec<Option<String>> = catalog.iter().map(|d| d.color.clone()).collect();
    assert_eq!(
        colors,
        vec![
            Some("#10B981".to_string()),
            Some("#EF4444".to_string()),
            Some("#F59E0B".to_string()),
            Some("#8B5CF6".to_string()),
            Some("#6366F1".to_string()),
            Some("#EC4899".to_string()),
            Some("#3B82F6".to_string()),
        ]
    );
    assert!(catalog.iter().all(|d| d.is_system));
}

#[test]
fn items_are_listed_pinned_first_then_latest_first() {
    let mut old_pinned = item("a", "old pinned", 10);
    old_pinned.is_pinned = true;
    let mut new_pinned = item("d", "new pinned", 40);
    new_pinned.is_pinned = true;
    let db = store_of(&[old_pinned, item("b", "middle", 20), item("c", "latest", 30), new_pinned]);
    assert_eq!(ids(&db.get_all_items()), vec!["d", "a", "c", "b"]);
    assert_eq!(db.get_total_count(), 4);
}

#[test]
fn items_of_equal_rank_keep_their_order_of_insertion() {
    let db = store_of(&[item("x", "1", 5), item("y", "2", 5), item("z", "3", 5), item("w", "4", 6)]);
    assert_eq!(ids(&db.get_all_items()), vec!["w", "x", "y", "z"]);
}

#[test]
fn listed_items_carry_their_fields_and_tags() {
    let mut it = tagged("a", "content", -3, &["one", "two"]);
    it.item_type = ClipboardItemType::File;
    it.application_source = Some("editor".to_string());
    it.is_pinned = true;
    let db = store_of(&[it]);
    let list = db.get_all_items();
    assert_eq!(list.len(), 1);
    assert_eq!(list[0].id, "a");
    assert_eq!(list[0].content, "content");
    assert_eq!(list[0].item_type, ClipboardItemType::File);
    assert_eq!(list[0].timestamp, -3);
    assert!(list[0].is_pinned);
    assert_eq!(list[0].tags, vec!["one", "two"]);
    assert_eq!(list[0].application_source, Some("editor".to_string()));
}

#[test]
fn an_identifier_is_stored_once() {
    let mut db = store_of(&[tagged("a", "first", 1, &["t"])]);
    assert_eq!(db.insert_item(&tagged("a", "second", 2, &["u"])), Err(StorageError::DuplicateId));
    let list = db.get_all_items();
    assert_eq!(list.len(), 1);
    assert_eq!(list[0].content, "first");
    assert_eq!(list[0].tags, vec!["t"]);
}

#[test]
fn an_item_that_names_a_tag_twice_is_not_stored_at_all() {
    let mut db = Database::new();
    assert_eq!(
        db.insert_item(&tagged("a", "text", 1, &["x", "y", "x"])),
        Err(StorageError::DuplicateTag)
    );
    assert_eq!(db.get_total_count(), 0);
    assert!(db.get_tags_for_item("a").is_empty());
    assert!(db.get_items_by_tag("y").is_empty());
    // The identifier is judged first.
    assert_eq!(db.insert_item(&item("a", "text", 1)), Ok(()));
    assert_eq!(
        db.insert_item(&tagged("a", "text", 1, &["x", "x"])),
        Err(StorageError::DuplicateId)
    );
}

#[test]
fn pages_are_slices_of_the_listing() {
    let db = store_of(&[
        item("a", "1", 1),
        item("b", "2", 2),
        item("c", "3", 3),
        item("d", "4", 4),
        item("e", "5", 5),
    ]);
    let all = ids(&db.get_all_items());
    assert_eq!(all, vec!["e", "d", "c", "b", "a"]);
    assert_eq!(ids(&db.get_items_paginated(0, 2)), vec!["e", "d"]);
    assert_eq!(ids(&db.get_items_paginated(2, 2)), vec!["c", "b"]);
    assert_eq!(ids(&db.get_items_paginated(4, 2)), vec!["a"]);
    assert_eq!(ids(&db.get_items_paginated(0, 5)), all);
    assert_eq!(ids(&db.get_items_paginated(0, 100)), all);
    assert_eq!(ids(&db.get_items_paginated(1, usize::MAX)), vec!["d", "c", "b", "a"]);
    assert!(db.get_items_paginated(5, 2).is_empty());
    assert!(db.get_items_paginated(usize::MAX, usize::MAX).is_empty());
    assert!(db.get_items_paginated(2, 0).is_empty());
    for offset in 0..7 {
        for limit in 0..7 {
            let page = ids(&db.get_items_paginated(offset, limit));
            let start = offset.min(all.len());
            let end = (start + limit).min(all.len());
            assert_eq!(page, all[start..end].to_vec());
        }
    }
    assert_eq!(db.get_total_count(), all.len());
}

#[test]
fn a_deleted_item_is_gone_with_its_tags() {
    let mut db = store_of(&[tagged("a", "1", 1, &["x"]), tagged("b", "2", 2, &["x", "y"])]);
    db.delete_item("b");
    assert_eq!(ids(&db.get_all_items()), vec!["a"]);
    assert!(db.get_tags_for_item("b").is_empty());
    assert_eq!(ids(&db.get_items_by_tag("x")), vec!["a"]);
    assert!(db.get_items_by_tag("y").is_empty());
    db.delete_item("missing");
    assert_eq!(ids(&db.get_all_items()), vec!["a"]);
    // The identifier is free again, and comes without the old tags.
    assert_eq!(db.insert_item(&item("b", "again", 3)), Ok(()));
    assert!(db.get_tags_for_item("b").is_empty());
}

#[test]
fn insert_then_delete_leaves_no_rows() {
    let mut db = store_of(&[tagged("keep", "k", 1, &["t"])]);
    assert_eq!(db.insert_item(&tagged("gone", "g", 2, &["t", "u"])), Ok(()));
    db.delete_item("gone");
    assert_eq!(db.get_total_count(), 1);
    assert_eq!(ids(&db.get_all_items()), vec!["keep"]);
    assert!(db.get_tags_for_item("gone").is_empty());
    assert!(db.get_items_by_tag("u").is_empty());
    assert_eq!(ids(&db.get_items_by_tag("t")), vec!["keep"]);
}

#[test]
fn clearing_removes_the_items_and_keeps_the_catalog() {
    let mut db = store_of(&[tagged("a", "1", 1, &["x"]), item("b", "2", 2)]);
    assert_eq!(db.create_custom_tag("work", None), Ok(()));
    db.clear_all();
    assert_eq!(db.get_total_count(), 0);
    assert!(db.get_all_items().is_empty());
    assert!(db.get_items_by_tag("x").is_empty());
    assert_eq!(db.get_all_tags().len(), 8);
    db.clear_all();
    assert_eq!(db.get_total_count(), 0);
}

#[test]
fn pinning_changes_the_flag_and_so_the_listing() {
    let mut db = store_of(&[item("a", "1", 1), item("b", "2", 2), item("c", "3", 3)]);
    db.update_pin_status("a", true);
    let list = db.get_all_items();
    assert_eq!(ids(&list), vec!["a", "c", "b"]);
    assert!(list[0].is_pinned);
    assert!(!list[1].is_pinned);
    assert_eq!(list[0].content, "1");
    assert_eq!(list[0].timestamp, 1);
    db.update_pin_status("missing", true);
    assert_eq!(ids(&db.get_all_items()), vec!["a", "c", "b"]);
    assert_eq!(db.get_total_count(), 3);
    db.update_pin_status("a", true);
    assert_eq!(ids(&db.get_all_items()), vec!["a", "c", "b"]);
    db.update_pin_status("a", false);
    assert_eq!(ids(&db.get_all_items()), vec!["c", "b", "a"]);
    assert!(db.get_all_items().iter().all(|i| !i.is_pinned));
}

#[test]
fn a_pinned_item_can_be_deleted() {
    let mut db = store_of(&[item("a", "1", 1)]);
    db.update_pin_status("a", true);
    db.delete_item("a");
    assert_eq!(db.get_total_count(), 0);
}

#[test]
fn a_tag_is_put_on_an_item_once() {
    let mut db = store_of(&[tagged("a", "1", 1, &["x"]), item("b", "2", 2)]);
    assert_eq!(db.add_tag("a", "y"), Ok(()));
    assert_eq!(db.add_tag("a", "y"), Ok(()));
    assert_eq!(db.add_tag("a", "x"), Ok(()));
    assert_eq!(db.get_tags_for_item("a"), vec!["x", "y"]);
    assert!(db.get_tags_for_item("b").is_empty());
    assert_eq!(db.add_tag("missing", "y"), Err(StorageError::UnknownItem));
    assert!(db.get_tags_for_item("missing").is_empty());
    assert_eq!(ids(&db.get_items_by_tag("y")), vec!["a"]);
    // A tag needs no definition in the catalog.
    assert!(!db.get_all_tags().iter().any(|d| d.name == "y"));
}

#[test]
fn a_tag_is_taken_off_an_item() {
    let mut db = store_of(&[tagged("a", "1", 1, &["x", "y", "z"]), tagged("b", "2", 2, &["y"])]);
    db.remove_tag("a", "y");
    assert_eq!(db.get_tags_for_item("a"), vec!["x", "z"]);
    assert_eq!(db.get_tags_for_item("b"), vec!["y"]);
    db.remove_tag("a", "y");
    db.remove_tag("a", "never");
    db.remove_tag("missing", "x");
    assert_eq!(db.get_tags_for_item("a"), vec!["x", "z"]);
    assert_eq!(db.add_tag("a", "y"), Ok(()));
    assert_eq!(db.get_tags_for_item("a"), vec!["x", "z", "y"]);
}

#[test]
fn custom_definitions_are_listed_by_name() {
    let mut db = Database::new();
    assert_eq!(db.create_custom_tag("work", Some("#123456")), Ok(()));
    assert_eq!(db.create_custom_tag("aaa", None), Ok(()));
    assert_eq!(db.create_custom_tag("mail", None), Ok(()));
    assert_eq!(db.create_custom_tag("Zed", None), Ok(()));
    assert_eq!(db.create_custom_tag("", None), Ok(()));
    let catalog = db.get_all_tags();
    assert_eq!(
        names(&catalog),
        vec![
            "", "Zed", "aaa", "code", "email", "json", "mail", "markdown", "path", "phone", "url",
            "work"
        ]
    );
    let work = catalog.iter().find(|d| d.name == "work").unwrap();
    assert_eq!(work.color, Some("#123456".to_string()));
    assert!(!work.is_system);
    let aaa = catalog.iter().find(|d| d.name == "aaa").unwrap();
    assert_eq!(aaa.color, None);
    assert!(!aaa.is_system);
    let mut sorted = names(&catalog);
    sorted.sort();
    assert_eq!(names(&catalog), sorted);
}

#[test]
fn a_name_is_defined_once() {
    let mut db = Database::new();
    assert_eq!(db.create_custom_tag("work", Some("#111")), Ok(()));
    assert_eq!(db.create_custom_tag("work", Some("#222")), Err(StorageError::DuplicateTagName));
    assert_eq!(db.create_custom_tag("url", None), Err(StorageError::DuplicateTagName));
    let catalog = db.get_all_tags();
    assert_eq!(catalog.len(), 8);
    let work = catalog.iter().find(|d| d.name == "work").unwrap();
    assert_eq!(work.color, Some("#111".to_string()));
    let url = catalog.iter().find(|d| d.name == "url").unwrap();
    assert!(url.is_system);
    assert_eq!(url.color, Some("#3B82F6".to_string()));
}

#[test]
fn any_definition_can_be_recoloured() {
    let mut db = Database::new();
    assert_eq!(db.create_custom_tag("work", None), Ok(()));
    db.update_tag_color("work", "#abcdef");
    db.update_tag_color("url", "#000000");
    db.update_tag_color("missing", "#ffffff");
    let catalog = db.get_all_tags();
    assert_eq!(catalog.len(), 8);
    let work = catalog.iter().find(|d| d.name == "work").unwrap();
    assert_eq!(work.color, Some("#abcdef".to_string()));
    assert!(!work.is_system);
    let url = catalog.iter().find(|d| d.name == "url").unwrap();
    assert_eq!(url.color, Some("#000000".to_string()));
    assert!(url.is_system);
    let code = catalog.iter().find(|d| d.name == "code").unwrap();
    assert_eq!(code.color, Some("#10B981".to_string()));
}

#[test]
fn a_system_definition_is_not_deleted() {
    let mut db = Database::new();
    db.delete_custom_tag("url");
    let catalog = db.get_all_tags();
    assert_eq!(catalog.len(), 7);
    let url = catalog.iter().find(|d| d.name == "url").unwrap();
    assert!(url.is_system);
    for name in ["url", "code", "json", "markdown", "email", "phone", "path"] {
        db.delete_custom_tag(name);
    }
    assert_eq!(
        names(&db.get_all_tags()),
        vec!["code", "email", "json", "markdown", "path", "phone", "url"]
    );
    assert!(db.get_all_tags().iter().all(|d| d.is_system));
}

#[test]
fn a_custom_definition_is_deleted() {
    let mut db = store_of(&[tagged("a", "1", 1, &["work"])]);
    assert_eq!(db.create_custom_tag("work", None), Ok(()));
    assert_eq!(db.create_custom_tag("home", None), Ok(()));
    db.delete_custom_tag("work");
    db.delete_custom_tag("missing");
    assert_eq!(
        names(&db.get_all_tags()),
        vec!["code", "email", "home", "json", "markdown", "path", "phone", "url"]
    );
    // The tags on items are not touched.
    assert_eq!(db.get_tags_for_item("a"), vec!["work"]);
    assert_eq!(db.create_custom_tag("work", Some("#1")), Ok(()));
}

#[test]
fn search_for_text_compares_letter_for_letter() {
    let db = store_of(&[
        item("a", "Hello World", 1),
        item("b", "hello there", 2),
        item("c", "100% sure", 3),
        item("d", "100 percent", 4),
        item("e", "a_c", 5),
        item("f", "abc", 6),
    ]);
    assert_eq!(ids(&db.search_items("hello", false)), vec!["b"]);
    assert_eq!(ids(&db.search_items("Hello", false)), vec!["a"]);
    assert_eq!(ids(&db.search_items("ello", false)), vec!["b", "a"]);
    assert_eq!(ids(&db.search_items("100%", false)), vec!["c"]);
    assert_eq!(ids(&db.search_items("100", false)), vec!["d", "c"]);
    assert_eq!(ids(&db.search_items("a_c", false)), vec!["e"]);
    assert_eq!(ids(&db.search_items(".*", false)), Vec::<String>::new());
    assert_eq!(ids(&db.search_items("", false)), vec!["f", "e", "d", "c", "b", "a"]);
    assert!(db.search_items("nothing", false).is_empty());
}

#[test]
fn search_by_regular_expression() {
    let mut pinned = item("a", "order 66", 1);
    pinned.is_pinned = true;
    let db = store_of(&[pinned, item("b", "no digits", 2), item("c", "7 wonders", 3)]);
    assert_eq!(ids(&db.search_items(r"\d+", true)), vec!["a", "c"]);
    assert_eq!(ids(&db.search_items(r"^\d", true)), vec!["c"]);
    assert_eq!(ids(&db.search_items("o", true)), vec!["a", "c", "b"]);
    assert_eq!(ids(&db.search_items("O", true)), Vec::<String>::new());
    assert_eq!(ids(&db.search_items("(?i)O", true)), vec!["a", "c", "b"]);
    assert_eq!(ids(&db.search_items("", true)), vec!["a", "c", "b"]);
    // The same pattern, taken as text.
    assert!(db.search_items(r"\d+", false).is_empty());
}

#[test]
fn a_malformed_expression_finds_nothing() {
    let db = store_of(&[item("a", "[", 1), item("b", "text", 2)]);
    assert!(db.search_items("[", true).is_empty());
    assert!(db.search_items("(", true).is_empty());
    assert!(db.search_items("*", true).is_empty());
    assert_eq!(ids(&db.search_items("[", false)), vec!["a"]);
    assert!(Database::new().search_items("[", true).is_empty());
}

#[test]
fn items_by_tag() {
    let mut pinned = tagged("a", "1", 1, &["x"]);
    pinned.is_pinned = true;
    let db = store_of(&[
        pinned,
        tagged("b", "2", 2, &["x", "y"]),
        tagged("c", "3", 3, &["xx"]),
        tagged("d", "4", 4, &["y", "x"]),
    ]);
    assert_eq!(ids(&db.get_items_by_tag("x")), vec!["a", "d", "b"]);
    assert_eq!(ids(&db.get_items_by_tag("y")), vec!["d", "b"]);
    assert_eq!(ids(&db.get_items_by_tag("xx")), vec!["c"]);
    assert!(db.get_items_by_tag("X").is_empty());
    assert!(db.get_items_by_tag("").is_empty());
    let found = db.get_items_by_tag("y");
    assert_eq!(found[0].tags, vec!["y", "x"]);
}

#[test]
fn marked_items_are_selected_in_order() {
    let items = vec![item("a", "1", 1), item("b", "2", 2), item("c", "3", 3)];
    assert_eq!(ids(&Database::select_marked(&items, &vec![true, false, true])), vec!["a", "c"]);
    assert_eq!(ids(&Database::select_marked(&items, &vec![false, true])), vec!["b"]);
    assert_eq!(ids(&Database::select_marked(&items, &vec![true, true, true, true])), vec!["a", "b", "c"]);
    assert!(Database::select_marked(&items, &vec![]).is_empty());
    assert!(Database::select_marked(&Vec::new(), &vec![true]).is_empty());
}

#[test]
fn an_item_is_found_by_its_identifier() {
    let mut db = store_of(&[tagged("a", "1", 1, &["x"]), item("b", "2", 2)]);
    let a = db.get_item("a").unwrap();
    assert_eq!(a.id, "a");
    assert_eq!(a.content, "1");
    assert_eq!(a.tags, vec!["x"]);
    assert!(db.get_item("A").is_none());
    assert!(db.get_item("").is_none());
    db.update_pin_status("b", true);
    assert!(db.get_item("b").unwrap().is_pinned);
    db.delete_item("a");
    assert!(db.get_item("a").is_none());
}
