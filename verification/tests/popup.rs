use clipedia::popup::{focus_step, FocusStep};

#[test]
fn the_window_closes_when_it_loses_the_focus_it_had() {
    assert_eq!(focus_step(false, false), FocusStep { had_focus: false, close: false });
    assert_eq!(focus_step(false, true), FocusStep { had_focus: true, close: false });
    assert_eq!(focus_step(true, true), FocusStep { had_focus: true, close: false });
    assert_eq!(focus_step(true, false), FocusStep { had_focus: true, close: true });
}
