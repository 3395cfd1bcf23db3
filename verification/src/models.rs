//! The records of the clipboard history: items and tag definitions.

use chrono::Utc;
use uuid::Uuid;
use vstd::prelude::*;
use vstd::string::*;

verus! {

/// What kind of payload an item carries.
#[derive(Clone, Copy, Debug, PartialEq, Eq, Structural)]
pub enum ClipboardItemType {
    Text,
    Image,
    File,
}

/// One captured clipboard entry.
#[derive(Debug)]
pub struct ClipboardItem {
    /// Unique identifier, given at creation.
    pub id: String,
    /// The captured text.
    pub content: String,
    pub item_type: ClipboardItemType,
    /// Time of capture, in microseconds since the Unix epoch (UTC).
    pub timestamp: i64,
    pub is_pinned: bool,
    /// The names of the item's tags; no name twice once the item is stored.
    pub tags: Vec<String>,
    /// The application the content came from, where known.
    pub application_source: Option<String>,
}

/// The mathematical value of a [`ClipboardItem`].
pub struct ItemView {
    pub id: Seq<char>,
    pub content: Seq<char>,
    pub item_type: ClipboardItemType,
    pub timestamp: int,
    pub is_pinned: bool,
    pub tags: Seq<Seq<char>>,
    pub application_source: Option<Seq<char>>,
}

/// An entry of the tag catalog.
#[derive(Debug)]
pub struct TagDefinition {
    pub name: String,
    /// Display colour, as a hint for a user interface.
    pub color: Option<String>,
    /// Whether the tag belongs to the classifier's vocabulary.
    pub is_system: bool,
}

/// The mathematical value of a [`TagDefinition`].
pub struct TagDefinitionView {
    pub name: Seq<char>,
    pub color: Option<Seq<char>>,
    pub is_system: bool,
}

/// The text of an optional string.
pub open spec fn option_text(s: Option<String>) -> Option<Seq<char>> {
    match s {
        Some(t) => Some(t@),
        None => None,
    }
}

impl View for ClipboardItem {
    type V = ItemView;

    open spec fn view(&self) -> ItemView {
        ItemView {
            id: self.id@,
            content: self.content@,
            item_type: self.item_type,
            timestamp: self.timestamp as int,
            is_pinned: self.is_pinned,
            tags: self.tags.deep_view(),
            application_source: option_text(self.application_source),
        }
    }
}

impl DeepView for ClipboardItem {
    type V = ItemView;

    open spec fn deep_view(&self) -> ItemView {
        self.view()
    }
}

impl View for TagDefinition {
    type V = TagDefinitionView;

    open spec fn view(&self) -> TagDefinitionView {
        TagDefinitionView {
            name: self.name@,
            color: option_text(self.color),
            is_system: self.is_system,
        }
    }
}

impl DeepView for TagDefinition {
    type V = TagDefinitionView;

    open spec fn deep_view(&self) -> TagDefinitionView {
        self.view()
    }
}

impl ItemView {
    /// A freshly captured item: unpinned, untagged, of unknown origin.
    pub open spec fn fresh(
        id: Seq<char>,
        timestamp: int,
        content: Seq<char>,
        item_type: ClipboardItemType,
    ) -> ItemView {
        ItemView {
            id,
            content,
            item_type,
            timestamp,
            is_pinned: false,
            tags: Seq::empty(),
            application_source: None,
        }
    }

    /// This item with `tags` in place of its own.
    pub open spec fn with_tags(self, tags: Seq<Seq<char>>) -> ItemView {
        ItemView { tags, ..self }
    }

    /// This item with the pin flag set to `is_pinned`.
    pub open spec fn with_pin(self, is_pinned: bool) -> ItemView {
        ItemView { is_pinned, ..self }
    }
}

/// A copy of a list of strings.
pub fn clone_texts(texts: &Vec<String>) -> (copy: Vec<String>)
    ensures
        copy.deep_view() == texts.deep_view(),
{
    let mut copy: Vec<String> = Vec::new();
    let mut i: usize = 0;
    while i < texts.len()
        invariant
            i <= texts@.len(),
            copy@.len() == i,
            forall|k: int| 0 <= k < i ==> copy@[k]@ == texts@[k]@,
        decreases texts@.len() - i,
    {
        copy.push(texts[i].clone());
        i += 1;
    }
    assert(copy.deep_view() =~= texts.deep_view());
    copy
}

/// A copy of an optional string.
pub fn clone_optional_text(text: &Option<String>) -> (copy: Option<String>)
    ensures
        option_text(copy) == option_text(*text),
{
    match text {
        Some(t) => Some(t.clone()),
        None => None,
    }
}

impl ClipboardItemType {
    /// The name under which the kind is stored.
    pub open spec fn label(self) -> Seq<char> {
        match self {
            ClipboardItemType::Text => "text"@,
            ClipboardItemType::Image => "image"@,
            ClipboardItemType::File => "file"@,
        }
    }

    /// The kind that a stored name stands for; every name but those of
    /// images and files stands for text.
    pub open spec fn of_label(name: Seq<char>) -> ClipboardItemType {
        if name == "image"@ {
            ClipboardItemType::Image
        } else if name == "file"@ {
            ClipboardItemType::File
        } else {
            ClipboardItemType::Text
        }
    }

    /// The name under which the kind is stored.
    pub fn as_str(self) -> (name: &'static str)
        ensures
            name@ == self.label(),
    {
        match self {
            ClipboardItemType::Text => "text",
            ClipboardItemType::Image => "image",
            ClipboardItemType::File => "file",
        }
    }

    /// The kind that a stored name stands for.
    pub fn from_name(name: &str) -> (kind: ClipboardItemType)
        ensures
            kind == ClipboardItemType::of_label(name@),
    {
        let name = String::from_str(name);
        if name == String::from_str("image") {
            ClipboardItemType::Image
        } else if name == String::from_str("file") {
            ClipboardItemType::File
        } else {
            ClipboardItemType::Text
        }
    }

    /// A kind is recovered from the name under which it is stored.
    pub proof fn lemma_label_round_trip(self)
        ensures
            ClipboardItemType::of_label(self.label()) == self,
    {
        reveal_strlit("text");
        reveal_strlit("image");
        reveal_strlit("file");
        assert("text"@.len() == 4);
        assert("image"@.len() == 5);
        assert("file"@[0] == 'f');
        assert("text"@[0] == 't');
    }
}

/// Draws a random identifier with `uuid::Uuid::new_v4` and writes it out in
/// the hyphenated form.
///
/// Trusted: nothing is claimed of the text; it differs from call to call.
/// The call fails only where the operating system supplies no randomness.
#[verifier::external_body]
pub(crate) fn fresh_id() -> String {
    Uuid::new_v4().to_string()
}

/// Reads the clock with `chrono::Utc::now` and counts microseconds since
/// the Unix epoch with `DateTime::timestamp_micros`.
///
/// Trusted: nothing is claimed of the number. The call fails only where
/// the system clock stands before 1970.
#[verifier::external_body]
pub(crate) fn now_micros() -> i64 {
    Utc::now().timestamp_micros()
}

impl ClipboardItem {
    /// A new item for `content`, with a random identifier and the current
    /// time: unpinned, untagged, of unknown origin.
    pub fn new(content: String, item_type: ClipboardItemType) -> (item: Self)
        ensures
            item@ == ItemView::fresh(item@.id, item@.timestamp, content@, item_type),
    {
        let id = fresh_id();
        let timestamp = now_micros();
        Self::with_identity(id, timestamp, content, item_type)
    }

    /// A new item with the given identifier and time of capture: unpinned,
    /// untagged, of unknown origin.
    pub fn with_identity(
        id: String,
        timestamp: i64,
        content: String,
        item_type: ClipboardItemType,
    ) -> (item: Self)
        ensures
            item@ == ItemView::fresh(id@, timestamp as int, content@, item_type),
    {
        let item = ClipboardItem {
            id,
            content,
            item_type,
            timestamp,
            is_pinned: false,
            tags: Vec::new(),
            application_source: None,
        };
        assert(item.tags.deep_view() =~= Seq::<Seq<char>>::empty());
        item
    }
}

impl Clone for ClipboardItem {
    fn clone(&self) -> (copy: Self)
        ensures
            copy@ == self@,
    {
        ClipboardItem {
            id: self.id.clone(),
            content: self.content.clone(),
            item_type: self.item_type,
            timestamp: self.timestamp,
            is_pinned: self.is_pinned,
            tags: clone_texts(&self.tags),
            application_source: clone_optional_text(&self.application_source),
        }
    }
}

impl Clone for TagDefinition {
    fn clone(&self) -> (copy: Self)
        ensures
            copy@ == self@,
    {
        TagDefinition {
            name: self.name.clone(),
            color: clone_optional_text(&self.color),
            is_system: self.is_system,
        }
    }
}

} // verus!
