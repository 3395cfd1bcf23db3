//! The capture monitor: what one polling cycle decides and does.
//!
//! The monitor remembers the content it saw last, so that content is captured
//! once however often it is read, and it can be paused. Reading and writing
//! the clipboard, and waiting between cycles, are left to the caller: each
//! cycle is one call of [`ClipboardMonitor::poll`] with what was read.

use crate::content_analyzer::{classification, lemma_classification_distinct, ContentAnalyzer};
use crate::db::{Database, DatabaseView, StorageError};
use crate::models::{ClipboardItem, ClipboardItemType, ItemView};
use crate::text::{is_blank, text_is_blank};
use vstd::prelude::*;
use vstd::string::*;

verus! {

/// Why content did not reach the clipboard.
#[derive(Clone, Copy, Debug, PartialEq, Eq, Structural)]
pub enum CaptureError {
    /// The clipboard could not be written.
    Unwritable,
}

/// How one polling cycle ended.
#[derive(Clone, Copy, Debug, PartialEq, Eq, Structural)]
pub enum CaptureOutcome {
    /// Nothing was read.
    NoReading,
    /// The content is the one seen last.
    Unchanged,
    /// The content is new, and blank or read while paused: not stored.
    Ignored,
    /// The content is new and was stored as an item.
    Stored,
    /// The content is new, and the store refused the item.
    Refused(StorageError),
}

/// The mathematical value of a [`ClipboardMonitor`].
pub struct MonitorView {
    /// The content seen last, if any was seen.
    pub last_content: Option<Seq<char>>,
    /// Whether new content is stored.
    pub monitoring: bool,
}

/// The text of an optional string slice.
pub open spec fn reading_text(reading: Option<&str>) -> Option<Seq<char>> {
    match reading {
        Some(content) => Some(content@),
        None => None,
    }
}

/// The identifier that a cycle drew, or the empty text where it drew none.
pub open spec fn drawn_id(id: Option<String>) -> Seq<char> {
    match id {
        Some(text) => text@,
        None => Seq::empty(),
    }
}

/// The item that is stored for captured `content`: a text item with the
/// tags of the classifier.
pub open spec fn captured_item(content: Seq<char>, id: Seq<char>, timestamp: int) -> ItemView {
    ItemView::fresh(id, timestamp, content, ClipboardItemType::Text).with_tags(
        classification(content),
    )
}

impl MonitorView {
    /// A monitor that has seen nothing and is not paused.
    pub open spec fn initial() -> MonitorView {
        MonitorView { last_content: None, monitoring: true }
    }

    /// Whether `content`, just read, is captured: it differs from the
    /// content seen last, is not blank, and the monitor is not paused.
    pub open spec fn captures(self, content: Seq<char>) -> bool {
        self.last_content != Some(content) && !is_blank(content) && self.monitoring
    }

    /// The monitor after a cycle in which `reading` was read: content that
    /// was read is the content seen last, whether or not it is captured.
    pub open spec fn after_reading(self, reading: Option<Seq<char>>) -> MonitorView {
        match reading {
            Some(content) => MonitorView { last_content: Some(content), ..self },
            None => self,
        }
    }

    /// The store after a cycle in which `reading` was read, where a captured
    /// item gets the identifier `id` and the time `timestamp`.
    pub open spec fn store_after(
        self,
        db: DatabaseView,
        reading: Option<Seq<char>>,
        id: Seq<char>,
        timestamp: int,
    ) -> DatabaseView {
        match reading {
            Some(content) if self.captures(content) => db.after_insert(
                captured_item(content, id, timestamp),
            ),
            _ => db,
        }
    }

    /// How a cycle ends in which `reading` was read, where a captured item
    /// gets the identifier `id`.
    pub open spec fn outcome_of(
        self,
        db: DatabaseView,
        reading: Option<Seq<char>>,
        id: Seq<char>,
    ) -> CaptureOutcome {
        match reading {
            None => CaptureOutcome::NoReading,
            Some(content) => if self.last_content == Some(content) {
                CaptureOutcome::Unchanged
            } else if !self.captures(content) {
                CaptureOutcome::Ignored
            } else if db.has_item(id) {
                CaptureOutcome::Refused(StorageError::DuplicateId)
            } else {
                CaptureOutcome::Stored
            },
        }
    }
}

/// The capture monitor.
pub struct ClipboardMonitor {
    last_content: Option<String>,
    monitoring: bool,
}

impl View for ClipboardMonitor {
    type V = MonitorView;

    closed spec fn view(&self) -> MonitorView {
        MonitorView {
            last_content: match self.last_content {
                Some(content) => Some(content@),
                None => None,
            },
            monitoring: self.monitoring,
        }
    }
}

/// Stores the item for captured `content`.
fn persist(db: &mut Database, content: &str, id: String, timestamp: i64) -> (outcome:
    CaptureOutcome)
    ensures
        final(db)@ == old(db)@.after_insert(captured_item(content@, id@, timestamp as int)),
        final(db)@.wf(),
        outcome == if old(db)@.has_item(id@) {
            CaptureOutcome::Refused(StorageError::DuplicateId)
        } else {
            CaptureOutcome::Stored
        },
{
    let mut item = ClipboardItem::with_identity(
        id,
        timestamp,
        String::from_str(content),
        ClipboardItemType::Text,
    );
    item.tags = ContentAnalyzer::analyze(content);
    proof {
        lemma_classification_distinct(content@);
    }
    match db.insert_item(&item) {
        Ok(()) => CaptureOutcome::Stored,
        Err(e) => CaptureOutcome::Refused(e),
    }
}

impl ClipboardMonitor {
    /// A monitor that has seen nothing and is not paused.
    pub fn new() -> (monitor: Self)
        ensures
            monitor@ == MonitorView::initial(),
    {
        ClipboardMonitor { last_content: None, monitoring: true }
    }

    /// Whether new content is stored, that is, whether the monitor is not
    /// paused.
    pub fn is_monitoring(&self) -> (monitoring: bool)
        ensures
            monitoring == self@.monitoring,
    {
        self.monitoring
    }

    /// Pauses a running monitor and resumes a paused one. Returns whether
    /// the monitor runs afterwards.
    pub fn toggle_monitoring(&mut self) -> (monitoring: bool)
        ensures
            monitoring == !old(self)@.monitoring,
            final(self)@ == (MonitorView { monitoring, ..old(self)@ }),
    {
        self.monitoring = !self.monitoring;
        self.monitoring
    }

    /// Takes note of what one cycle read and says whether it is to be
    /// captured. `None` stands for a failed read.
    pub fn observe(&mut self, reading: Option<&str>) -> (capture: bool)
        ensures
            final(self)@ == old(self)@.after_reading(reading_text(reading)),
            capture == match reading {
                Some(content) => old(self)@.captures(content@),
                None => false,
            },
    {
        match reading {
            None => false,
            Some(content) => {
                let current = String::from_str(content);
                let unchanged = match &self.last_content {
                    Some(last) => *last == current,
                    None => false,
                };
                if unchanged {
                    return false;
                }
                let capture = self.monitoring && !text_is_blank(content);
                self.last_content = Some(current);
                capture
            },
        }
    }

    /// One polling cycle with a given identifier and time: takes note of
    /// what was read and, where it is to be captured, stores it as a text
    /// item with the classifier's tags. A refusal by the store is reported
    /// and has no other effect.
    pub fn capture(
        &mut self,
        db: &mut Database,
        reading: Option<&str>,
        id: String,
        timestamp: i64,
    ) -> (outcome: CaptureOutcome)
        ensures
            final(self)@ == old(self)@.after_reading(reading_text(reading)),
            final(db)@ == old(self)@.store_after(
                old(db)@,
                reading_text(reading),
                id@,
                timestamp as int,
            ),
            outcome == old(self)@.outcome_of(old(db)@, reading_text(reading), id@),
            final(db)@ == if outcome == CaptureOutcome::Stored {
                old(db)@.with_item(captured_item(reading->0@, id@, timestamp as int))
            } else {
                old(db)@
            },
            final(db)@.wf(),
    {
        proof {
            use_type_invariant(&*db);
            if reading is Some {
                lemma_classification_distinct(reading->0@);
            }
        }
        let was_seen = self.saw(reading);
        let capture = self.observe(reading);
        match reading {
            None => CaptureOutcome::NoReading,
            Some(content) => {
                if capture {
                    persist(db, content, id, timestamp)
                } else if was_seen {
                    CaptureOutcome::Unchanged
                } else {
                    CaptureOutcome::Ignored
                }
            },
        }
    }

    /// One polling cycle: as [`ClipboardMonitor::capture`], with a random
    /// identifier and the current time for a captured item. Returns how the
    /// cycle ended and, where the content was to be captured, the
    /// identifier that was drawn for it.
    pub fn poll(&mut self, db: &mut Database, reading: Option<&str>) -> (cycle: (
        CaptureOutcome,
        Option<String>,
    ))
        ensures
            final(self)@ == old(self)@.after_reading(reading_text(reading)),
            cycle.1 is Some <==> reading is Some && old(self)@.captures(reading->0@),
            cycle.0 == old(self)@.outcome_of(old(db)@, reading_text(reading), drawn_id(cycle.1)),
            exists|timestamp: int|
                final(db)@ == #[trigger] old(self)@.store_after(
                    old(db)@,
                    reading_text(reading),
                    drawn_id(cycle.1),
                    timestamp,
                ),
            final(db)@.wf(),
    {
        proof {
            use_type_invariant(&*db);
        }
        let ghost before = self@;
        let ghost store = db@;
        let was_seen = self.saw(reading);
        let capture = self.observe(reading);
        match reading {
            None => {
                assert(db@ == before.store_after(store, reading_text(reading), Seq::empty(), 0));
                (CaptureOutcome::NoReading, None)
            },
            Some(content) => {
                if capture {
                    let fresh = ClipboardItem::new(String::from_str(content), ClipboardItemType::Text);
                    let ghost timestamp = fresh.timestamp as int;
                    let id = fresh.id.clone();
                    let outcome = persist(db, content, fresh.id, fresh.timestamp);
                    assert(db@ == before.store_after(store, reading_text(reading), id@, timestamp));
                    (outcome, Some(id))
                } else {
                    assert(db@ == before.store_after(
                        store,
                        reading_text(reading),
                        Seq::empty(),
                        0,
                    ));
                    if was_seen {
                        (CaptureOutcome::Unchanged, None)
                    } else {
                        (CaptureOutcome::Ignored, None)
                    }
                }
            },
        }
    }

    /// Takes note of an attempt to write `content` to the clipboard. After
    /// a successful write `content` is the content seen last, so that the
    /// next cycle does not capture what the monitor wrote itself. A failed
    /// write changes nothing and is reported.
    pub fn copy_to_clipboard(&mut self, content: &str, written: bool) -> (outcome: Result<
        (),
        CaptureError,
    >)
        ensures
            outcome == if written {
                Ok::<(), CaptureError>(())
            } else {
                Err::<(), CaptureError>(CaptureError::Unwritable)
            },
            final(self)@ == if written {
                MonitorView { last_content: Some(content@), ..old(self)@ }
            } else {
                old(self)@
            },
    {
        if written {
            self.last_content = Some(String::from_str(content));
            Ok(())
        } else {
            Err(CaptureError::Unwritable)
        }
    }

    /// Whether `reading` is the content seen last.
    fn saw(&self, reading: Option<&str>) -> (seen: bool)
        ensures
            seen == match reading {
                Some(content) => self@.last_content == Some(content@),
                None => false,
            },
    {
        match reading {
            None => false,
            Some(content) => {
                let current = String::from_str(content);
                match &self.last_content {
                    Some(last) => *last == current,
                    None => false,
                }
            },
        }
    }
}

} // verus!
