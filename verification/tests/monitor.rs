use clipedia::db::{Database, StorageError};
use clipedia::models::{ClipboardItem, ClipboardItemType};
use clipedia::monitor::{CaptureError, CaptureOutcome, ClipboardMonitor};

fn contents(items: &[ClipboardItem]) -> Vec<String> {
    items.iter().map(|i| i.content.clone()).collect()
}

fn capture(
    monitor: &mut ClipboardMonitor,
    db: &mut Database,
    content: &str,
    id: &str,
    timestamp: i64,
) -> CaptureOutcome {
    monitor.capture(db, Some(content), id.to_string(), timestamp)
}

#[test]
fn repeated_content_is_captured_once() {
    let mut monitor = ClipboardMonitor::new();
    let mut db = Database::new();
    assert_eq!(capture(&mut monitor, &mut db, "hello", "1", 100), CaptureOutcome::Stored);
    assert_eq!(capture(&mut monitor, &mut db, "hello", "2", 200), CaptureOutcome::Unchanged);
    assert_eq!(capture(&mut monitor, &mut db, "world", "3", 300), CaptureOutcome::Stored);
    let history = db.get_all_items();
    assert_eq!(contents(&history), vec!["world", "hello"]);
    assert_eq!(history.len(), 2);
    assert_eq!(db.get_total_count(), 2);
    assert!(history.iter().all(|i| !i.is_pinned));
}

#[test]
fn a_consecutive_duplicate_is_suppressed() {
    let mut monitor = ClipboardMonitor::new();
    let mut db = Database::new();
    assert_eq!(capture(&mut monitor, &mut db, "c1", "1", 10), CaptureOutcome::Stored);
    assert_eq!(capture(&mut monitor, &mut db, "c2", "2", 20), CaptureOutcome::Stored);
    assert_eq!(capture(&mut monitor, &mut db, "c2", "3", 30), CaptureOutcome::Unchanged);
    assert_eq!(capture(&mut monitor, &mut db, "c3", "4", 40), CaptureOutcome::Stored);
    assert_eq!(db.get_total_count(), 3);
    let history = db.get_all_items();
    assert_eq!(contents(&history), vec!["c3", "c2", "c1"]);
    let times: Vec<i64> = history.iter().map(|i| i.timestamp).collect();
    assert_eq!(times, vec![40, 20, 10]);
    let ids: Vec<&str> = history.iter().map(|i| i.id.as_str()).collect();
    assert_eq!(ids, vec!["4", "2", "1"]);
}

#[test]
fn content_that_returns_later_is_captured_again() {
    let mut monitor = ClipboardMonitor::new();
    let mut db = Database::new();
    assert_eq!(capture(&mut monitor, &mut db, "a", "1", 1), CaptureOutcome::Stored);
    assert_eq!(capture(&mut monitor, &mut db, "b", "2", 2), CaptureOutcome::Stored);
    assert_eq!(capture(&mut monitor, &mut db, "a", "3", 3), CaptureOutcome::Stored);
    assert_eq!(contents(&db.get_all_items()), vec!["a", "b", "a"]);
}

#[test]
fn a_captured_item_is_text_with_the_tags_of_the_classifier() {
    let mut monitor = ClipboardMonitor::new();
    let mut db = Database::new();
    let outcome = capture(&mut monitor, &mut db, " https://example.com ", "u", 7);
    assert_eq!(outcome, CaptureOutcome::Stored);
    let code = "fn main() { let mut x = 1; }";
    assert_eq!(capture(&mut monitor, &mut db, code, "c", 8), CaptureOutcome::Stored);
    let history = db.get_all_items();
    assert_eq!(history[1].id, "u");
    assert_eq!(history[1].content, " https://example.com ");
    assert_eq!(history[1].item_type, ClipboardItemType::Text);
    assert_eq!(history[1].timestamp, 7);
    assert!(!history[1].is_pinned);
    assert_eq!(history[1].application_source, None);
    assert_eq!(history[1].tags, vec!["url"]);
    assert_eq!(history[0].tags, vec!["code", "code:rust"]);
    assert_eq!(db.get_items_by_tag("url").len(), 1);
}

#[test]
fn blank_content_is_seen_and_not_stored() {
    let mut monitor = ClipboardMonitor::new();
    let mut db = Database::new();
    assert_eq!(capture(&mut monitor, &mut db, "a", "1", 1), CaptureOutcome::Stored);
    assert_eq!(capture(&mut monitor, &mut db, "  \n", "2", 2), CaptureOutcome::Ignored);
    assert_eq!(capture(&mut monitor, &mut db, "  \n", "3", 3), CaptureOutcome::Unchanged);
    assert_eq!(capture(&mut monitor, &mut db, "", "4", 4), CaptureOutcome::Ignored);
    // The blank content was seen last, so the earlier content is new again.
    assert_eq!(capture(&mut monitor, &mut db, "a", "5", 5), CaptureOutcome::Stored);
    assert_eq!(db.get_total_count(), 2);
}

#[test]
fn a_failed_read_changes_nothing() {
    let mut monitor = ClipboardMonitor::new();
    let mut db = Database::new();
    assert_eq!(monitor.capture(&mut db, None, "0".to_string(), 0), CaptureOutcome::NoReading);
    assert_eq!(capture(&mut monitor, &mut db, "a", "1", 1), CaptureOutcome::Stored);
    assert_eq!(monitor.capture(&mut db, None, "2".to_string(), 2), CaptureOutcome::NoReading);
    assert_eq!(monitor.poll(&mut db, None), (CaptureOutcome::NoReading, None));
    assert_eq!(capture(&mut monitor, &mut db, "a", "3", 3), CaptureOutcome::Unchanged);
    assert_eq!(db.get_total_count(), 1);
    assert!(!monitor.observe(None));
}

#[test]
fn the_monitor_toggles_between_running_and_paused() {
    let mut monitor = ClipboardMonitor::new();
    assert!(monitor.is_monitoring());
    assert!(!monitor.toggle_monitoring());
    assert!(!monitor.is_monitoring());
    assert!(monitor.toggle_monitoring());
    assert!(monitor.is_monitoring());
}

#[test]
fn content_read_while_paused_is_never_stored() {
    let mut monitor = ClipboardMonitor::new();
    let mut db = Database::new();
    assert_eq!(capture(&mut monitor, &mut db, "before", "1", 1), CaptureOutcome::Stored);
    assert!(!monitor.toggle_monitoring());
    assert_eq!(capture(&mut monitor, &mut db, "during", "2", 2), CaptureOutcome::Ignored);
    assert_eq!(capture(&mut monitor, &mut db, "during", "3", 3), CaptureOutcome::Unchanged);
    assert_eq!(db.get_total_count(), 1);
    assert!(monitor.toggle_monitoring());
    // No burst after resuming: the content was seen while paused.
    assert_eq!(capture(&mut monitor, &mut db, "during", "4", 4), CaptureOutcome::Unchanged);
    assert_eq!(capture(&mut monitor, &mut db, "after", "5", 5), CaptureOutcome::Stored);
    assert_eq!(contents(&db.get_all_items()), vec!["after", "before"]);
}

#[test]
fn what_the_monitor_wrote_is_not_captured() {
    let mut monitor = ClipboardMonitor::new();
    let mut db = Database::new();
    assert_eq!(capture(&mut monitor, &mut db, "a", "1", 1), CaptureOutcome::Stored);
    assert_eq!(capture(&mut monitor, &mut db, "b", "2", 2), CaptureOutcome::Stored);
    assert_eq!(monitor.copy_to_clipboard("a", true), Ok(()));
    assert_eq!(capture(&mut monitor, &mut db, "a", "3", 3), CaptureOutcome::Unchanged);
    assert_eq!(db.get_total_count(), 2);
    assert_eq!(capture(&mut monitor, &mut db, "b", "4", 4), CaptureOutcome::Stored);
    assert_eq!(db.get_total_count(), 3);
}

#[test]
fn a_failed_write_is_reported_and_forgotten() {
    let mut monitor = ClipboardMonitor::new();
    let mut db = Database::new();
    assert_eq!(monitor.copy_to_clipboard("a", false), Err(CaptureError::Unwritable));
    assert_eq!(capture(&mut monitor, &mut db, "a", "1", 1), CaptureOutcome::Stored);
    assert_eq!(db.get_total_count(), 1);
}

#[test]
fn a_refusal_by_the_store_is_reported() {
    let mut monitor = ClipboardMonitor::new();
    let mut db = Database::new();
    assert_eq!(capture(&mut monitor, &mut db, "a", "same", 1), CaptureOutcome::Stored);
    assert_eq!(
        capture(&mut monitor, &mut db, "b", "same", 2),
        CaptureOutcome::Refused(StorageError::DuplicateId)
    );
    assert_eq!(contents(&db.get_all_items()), vec!["a"]);
    // The refused content was seen all the same.
    assert_eq!(capture(&mut monitor, &mut db, "b", "other", 3), CaptureOutcome::Unchanged);
}

#[test]
fn observing_decides_without_storing() {
    let mut monitor = ClipboardMonitor::new();
    assert!(monitor.observe(Some("a")));
    assert!(!monitor.observe(Some("a")));
    assert!(!monitor.observe(Some("   ")));
    assert!(monitor.observe(Some("a")));
    monitor.toggle_monitoring();
    assert!(!monitor.observe(Some("b")));
    monitor.toggle_monitoring();
    assert!(!monitor.observe(Some("b")));
    assert!(monitor.observe(Some("c")));
}

#[test]
fn polling_stores_with_an_identifier_and_time_of_its_own() {
    let mut monitor = ClipboardMonitor::new();
    let mut db = Database::new();
    let (outcome, id) = monitor.poll(&mut db, Some("test@example.com"));
    assert_eq!(outcome, CaptureOutcome::Stored);
    let id = id.unwrap();
    assert_eq!(id.len(), 36);
    assert_eq!(monitor.poll(&mut db, Some("test@example.com")), (CaptureOutcome::Unchanged, None));
    assert_eq!(monitor.poll(&mut db, Some("\t")), (CaptureOutcome::Ignored, None));
    let (outcome, other) = monitor.poll(&mut db, Some("second"));
    assert_eq!(outcome, CaptureOutcome::Stored);
    assert_ne!(other, Some(id.clone()));
    assert_eq!(db.get_total_count(), 2);
    let first = db.get_item(&id).unwrap();
    assert_eq!(first.id, id);
    assert_eq!(first.content, "test@example.com");
    assert_eq!(first.tags, vec!["email"]);
    assert_eq!(first.item_type, ClipboardItemType::Text);
    assert!(!first.is_pinned);
    assert!(first.timestamp > 1_600_000_000_000_000);
    let second = db.get_item(&other.unwrap()).unwrap();
    assert_eq!(second.content, "second");
    assert!(first.timestamp <= second.timestamp);
}

#[test]
fn polling_while_paused_draws_no_identifier() {
    let mut monitor = ClipboardMonitor::new();
    let mut db = Database::new();
    monitor.toggle_monitoring();
    assert_eq!(monitor.poll(&mut db, Some("a")), (CaptureOutcome::Ignored, None));
    assert_eq!(db.get_total_count(), 0);
}
