use clipedia::menu::{
    menu_action, menu_label, recent_event_id, recent_item_id, text_starts_with, MenuAction,
};

#[test]
fn fixed_entries_go_by_their_whole_identifier() {
    assert_eq!(menu_action("quick_access"), MenuAction::QuickAccess);
    assert_eq!(menu_action("show_window"), MenuAction::ShowWindow);
    assert_eq!(menu_action("settings"), MenuAction::Settings);
    assert_eq!(menu_action("toggle_monitoring"), MenuAction::ToggleMonitoring);
    assert_eq!(menu_action("quit"), MenuAction::Quit);
    assert_eq!(menu_action("quit "), MenuAction::Unknown);
    assert_eq!(menu_action("Quit"), MenuAction::Unknown);
    assert_eq!(menu_action(""), MenuAction::Unknown);
    assert_eq!(menu_action("no_items"), MenuAction::Unknown);
    assert_eq!(menu_action("recent_label"), MenuAction::CopyRecent);
}

#[test]
fn entries_of_recent_items_carry_the_identifier() {
    assert_eq!(menu_action("recent_42"), MenuAction::CopyRecent);
    assert_eq!(menu_action("recent_"), MenuAction::CopyRecent);
    assert_eq!(menu_action("recent"), MenuAction::Unknown);
    assert_eq!(recent_item_id("recent_42"), Some("42".to_string()));
    assert_eq!(recent_item_id("recent_"), Some("".to_string()));
    assert_eq!(recent_item_id("recent_recent_x"), Some("recent_x".to_string()));
    assert_eq!(recent_item_id("recent"), None);
    assert_eq!(recent_item_id("quit"), None);
    assert_eq!(recent_item_id("xrecent_1"), None);
    assert_eq!(recent_event_id("42"), "recent_42");
    for id in ["", "a", "6f9619ff-8b86-d011-b42d-00c04fc964ff", "\u{e9}"] {
        assert_eq!(recent_item_id(&recent_event_id(id)), Some(id.to_string()));
        assert_eq!(menu_action(&recent_event_id(id)), MenuAction::CopyRecent);
    }
}

#[test]
fn labels_are_cut_after_fifty_bytes() {
    let fifty = "a".repeat(50);
    let fifty_one = "a".repeat(51);
    assert_eq!(menu_label("short"), "short");
    assert_eq!(menu_label(""), "");
    assert_eq!(menu_label(&fifty), fifty);
    assert_eq!(menu_label(&fifty_one), format!("{}...", fifty));
    assert_eq!(menu_label(&"a".repeat(500)), format!("{}...", fifty));
    // Two bytes to the character: 50 bytes are 25 characters.
    assert_eq!(menu_label(&"\u{e9}".repeat(25)), "\u{e9}".repeat(25));
    assert_eq!(menu_label(&"\u{e9}".repeat(26)), format!("{}...", "\u{e9}".repeat(25)));
    let long = format!("{}{}", "\u{e9}".repeat(25), "tail");
    assert_eq!(menu_label(&long), format!("{}...", "\u{e9}".repeat(25)));
}

#[test]
fn labels_hold_the_first_fifty_bytes_where_they_end_with_a_character() {
    let samples = [
        "a".repeat(51),
        "\u{e9}".repeat(26),
        format!("{}{}", "ab", "\u{3042}".repeat(17)),
        format!("{}{}", "\u{1f600}".repeat(12), "xyz"),
        format!("{} and more text that goes on", "x".repeat(40)),
    ];
    for content in samples {
        assert!(content.len() > 50);
        assert!(content.is_char_boundary(50));
        assert_eq!(menu_label(&content), format!("{}...", &content[..50]));
    }
}

#[test]
fn labels_are_cut_before_a_character_that_the_fiftieth_byte_divides() {
    // Three bytes to the character: boundaries at 48 and 51.
    let threes = "\u{3042}".repeat(17);
    assert!(!threes.is_char_boundary(50));
    assert_eq!(menu_label(&threes), format!("{}...", "\u{3042}".repeat(16)));
    // One byte, then two to the character: boundaries at 49 and 51.
    let shifted = format!("a{}", "\u{e9}".repeat(25));
    assert_eq!(shifted.len(), 51);
    assert_eq!(menu_label(&shifted), format!("a{}...", "\u{e9}".repeat(24)));
    // Four bytes to the character: boundaries at 48 and 52.
    let fours = "\u{1f600}".repeat(13);
    assert_eq!(menu_label(&fours), format!("{}...", "\u{1f600}".repeat(12)));
}

#[test]
fn prefixes() {
    assert!(text_starts_with("recent_1", "recent_"));
    assert!(text_starts_with("abc", ""));
    assert!(text_starts_with("", ""));
    assert!(text_starts_with("abc", "abc"));
    assert!(!text_starts_with("ab", "abc"));
    assert!(!text_starts_with("abd", "abc"));
    assert!(!text_starts_with("", "a"));
}
