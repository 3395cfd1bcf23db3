//! When the quick-access window closes by itself.

use vstd::prelude::*;

verus! {

/// What a change of focus means for the quick-access window.
#[derive(Clone, Copy, Debug, PartialEq, Eq, Structural)]
pub struct FocusStep {
    /// Whether the window has had the focus, this change included.
    pub had_focus: bool,
    /// Whether the window is to be closed.
    pub close: bool,
}

/// The window closes when it loses the focus after it has had it. A window
/// that never had the focus stays open until it is closed by hand.
/// `had_focus` says whether the window had the focus before this change,
/// `focused` whether it has it now.
pub fn focus_step(had_focus: bool, focused: bool) -> (step: FocusStep)
    ensures
        step.close == (had_focus && !focused),
        step.had_focus == (had_focus || focused),
{
    FocusStep { had_focus: had_focus || focused, close: had_focus && !focused }
}

} // verus!
