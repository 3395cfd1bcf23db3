//! What the entries of the tray menu stand for, and how recent items are
//! shown in it.

use crate::text::chars_of;
use vstd::prelude::*;
use vstd::string::*;
use vstd::utf8::*;

verus! {

pub const EVENT_QUICK_ACCESS: &'static str = "quick_access";

pub const EVENT_SHOW_WINDOW: &'static str = "show_window";

pub const EVENT_SETTINGS: &'static str = "settings";

pub const EVENT_TOGGLE_MONITORING: &'static str = "toggle_monitoring";

pub const EVENT_QUIT: &'static str = "quit";

/// What the identifier of a recent item's menu entry starts with; the
/// item's identifier follows.
pub const RECENT_PREFIX: &'static str = "recent_";

/// What follows a label that was cut short.
pub const ELLIPSIS: &'static str = "...";

/// How many bytes of an item's content, in UTF-8, a menu entry shows at
/// most.
pub const LABEL_LENGTH: usize = 50;

/// How many recent items the menu shows at most.
pub const RECENT_ITEMS: usize = 5;

/// What a click on a menu entry asks for.
#[derive(Clone, Copy, Debug, PartialEq, Eq, Structural)]
pub enum MenuAction {
    /// Open the quick-access window.
    QuickAccess,
    /// Show the main window.
    ShowWindow,
    /// Show the main window with its settings.
    Settings,
    /// Pause or resume the monitor.
    ToggleMonitoring,
    /// Leave the application.
    Quit,
    /// Write a recent item back to the clipboard.
    CopyRecent,
    /// Nothing that is known.
    Unknown,
}

/// Whether `text` starts with `prefix`.
pub open spec fn starts_with(text: Seq<char>, prefix: Seq<char>) -> bool {
    prefix.len() <= text.len() && text.take(prefix.len() as int) == prefix
}

/// What the menu entry `event_id` asks for. The fixed entries go by their
/// whole identifier; any other identifier that starts like a recent item's
/// stands for that item.
pub open spec fn action_of(event_id: Seq<char>) -> MenuAction {
    if event_id == EVENT_QUICK_ACCESS@ {
        MenuAction::QuickAccess
    } else if event_id == EVENT_SHOW_WINDOW@ {
        MenuAction::ShowWindow
    } else if event_id == EVENT_SETTINGS@ {
        MenuAction::Settings
    } else if event_id == EVENT_TOGGLE_MONITORING@ {
        MenuAction::ToggleMonitoring
    } else if event_id == EVENT_QUIT@ {
        MenuAction::Quit
    } else if starts_with(event_id, RECENT_PREFIX@) {
        MenuAction::CopyRecent
    } else {
        MenuAction::Unknown
    }
}

/// The identifier of the item that the menu entry `event_id` stands for, if
/// it stands for one.
pub open spec fn recent_item_of(event_id: Seq<char>) -> Option<Seq<char>> {
    if starts_with(event_id, RECENT_PREFIX@) {
        Some(event_id.skip(RECENT_PREFIX@.len() as int))
    } else {
        None
    }
}

/// The last character boundary of `bytes` at or before `limit`.
pub open spec fn cut_point(bytes: Seq<u8>, limit: int) -> int
    decreases limit,
{
    if limit <= 0 {
        0
    } else if is_char_boundary(bytes, limit) {
        limit
    } else {
        cut_point(bytes, limit - 1)
    }
}

/// The label of the menu entry for an item with `content`. Content of at
/// most fifty bytes of UTF-8 is its own label. Longer content is cut after
/// its first fifty bytes and marked; where the fiftieth byte lies within a
/// character, the cut is before that character.
pub open spec fn label_of(content: Seq<char>) -> Seq<char> {
    let bytes = encode_utf8(content);
    if bytes.len() > LABEL_LENGTH {
        decode_utf8(bytes.subrange(0, cut_point(bytes, LABEL_LENGTH as int))) + ELLIPSIS@
    } else {
        content
    }
}

/// Where the first fifty bytes of longer content end with a character, the
/// label holds exactly those bytes before the mark.
pub proof fn lemma_label_holds_first_bytes(content: Seq<char>)
    requires
        encode_utf8(content).len() > LABEL_LENGTH,
        is_char_boundary(encode_utf8(content), LABEL_LENGTH as int),
    ensures
        label_of(content) == decode_utf8(encode_utf8(content).subrange(0, LABEL_LENGTH as int))
            + ELLIPSIS@,
{
}

/// The cut of a label is the last character boundary at or before the limit.
pub proof fn lemma_cut_point(bytes: Seq<u8>, limit: int)
    requires
        valid_utf8(bytes),
    ensures
        is_char_boundary(bytes, cut_point(bytes, limit)),
        0 <= cut_point(bytes, limit),
        limit >= 0 ==> cut_point(bytes, limit) <= limit,
        forall|k: int| cut_point(bytes, limit) < k <= limit ==> !is_char_boundary(bytes, k),
    decreases limit,
{
    if limit <= 0 {
    } else if !is_char_boundary(bytes, limit) {
        lemma_cut_point(bytes, limit - 1);
    }
}

/// The menu entry of an item stands for that item.
pub proof fn lemma_recent_entry_round_trip(item_id: Seq<char>)
    ensures
        recent_item_of(RECENT_PREFIX@ + item_id) == Some(item_id),
        action_of(RECENT_PREFIX@ + item_id) == MenuAction::CopyRecent,
{
    let event_id = RECENT_PREFIX@ + item_id;
    reveal_strlit("recent_");
    reveal_strlit("quick_access");
    reveal_strlit("show_window");
    reveal_strlit("settings");
    reveal_strlit("toggle_monitoring");
    reveal_strlit("quit");
    assert(event_id.take(RECENT_PREFIX@.len() as int) =~= RECENT_PREFIX@);
    assert(event_id.skip(RECENT_PREFIX@.len() as int) =~= item_id);
    assert(event_id[0] == 'r');
}

/// Whether `text` starts with `prefix`.
pub fn text_starts_with(text: &str, prefix: &str) -> (b: bool)
    ensures
        b == starts_with(text@, prefix@),
{
    let t = chars_of(text);
    let p = chars_of(prefix);
    if p.len() > t.len() {
        return false;
    }
    let mut i: usize = 0;
    while i < p.len()
        invariant
            i <= p@.len() <= t@.len(),
            t@ == text@,
            p@ == prefix@,
            forall|k: int| 0 <= k < i ==> t@[k] == p@[k],
        decreases p@.len() - i,
    {
        if t[i] != p[i] {
            assert(text@.take(prefix@.len() as int)[i as int] != prefix@[i as int]);
            return false;
        }
        i += 1;
    }
    assert(text@.take(prefix@.len() as int) =~= prefix@);
    true
}

/// What a click on the menu entry `event_id` asks for.
pub fn menu_action(event_id: &str) -> (action: MenuAction)
    ensures
        action == action_of(event_id@),
{
    let id = String::from_str(event_id);
    if id == String::from_str(EVENT_QUICK_ACCESS) {
        MenuAction::QuickAccess
    } else if id == String::from_str(EVENT_SHOW_WINDOW) {
        MenuAction::ShowWindow
    } else if id == String::from_str(EVENT_SETTINGS) {
        MenuAction::Settings
    } else if id == String::from_str(EVENT_TOGGLE_MONITORING) {
        MenuAction::ToggleMonitoring
    } else if id == String::from_str(EVENT_QUIT) {
        MenuAction::Quit
    } else if text_starts_with(event_id, RECENT_PREFIX) {
        MenuAction::CopyRecent
    } else {
        MenuAction::Unknown
    }
}

/// The identifier of the item that the menu entry `event_id` stands for.
pub fn recent_item_id(event_id: &str) -> (item_id: Option<String>)
    ensures
        match item_id {
            Some(id) => recent_item_of(event_id@) == Some(id@),
            None => recent_item_of(event_id@) is None,
        },
{
    if text_starts_with(event_id, RECENT_PREFIX) {
        let from = RECENT_PREFIX.unicode_len();
        let to = event_id.unicode_len();
        let rest = event_id.substring_char(from, to);
        assert(rest@ =~= event_id@.skip(RECENT_PREFIX@.len() as int));
        Some(String::from_str(rest))
    } else {
        None
    }
}

/// The identifier of the menu entry for the item `item_id`.
pub fn recent_event_id(item_id: &str) -> (event_id: String)
    ensures
        event_id@ == RECENT_PREFIX@ + item_id@,
{
    let mut event_id = String::from_str(RECENT_PREFIX);
    event_id.append(item_id);
    event_id
}

/// The label of the menu entry for an item with `content`.
pub fn menu_label(content: &str) -> (label: String)
    ensures
        label@ == label_of(content@),
{
    broadcast use {encode_utf8_valid_utf8, encode_utf8_decode_utf8};

    let ghost bytes = content.spec_bytes();
    if content.as_bytes().len() > LABEL_LENGTH {
        let mut cut: usize = LABEL_LENGTH;
        while !content.is_char_boundary(cut)
            invariant
                cut <= LABEL_LENGTH,
                bytes == content.spec_bytes(),
                valid_utf8(bytes),
                cut_point(bytes, LABEL_LENGTH as int) == cut_point(bytes, cut as int),
            decreases cut,
        {
            cut -= 1;
        }
        let (head, _) = content.split_at(cut);
        assert(head.spec_bytes() == bytes.subrange(0, cut as int));
        assert(decode_utf8(encode_utf8(head@)) == head@);
        let mut label = String::from_str(head);
        label.append(ELLIPSIS);
        label
    } else {
        String::from_str(content)
    }
}

} // verus!
