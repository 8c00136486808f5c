use sabun::selection::{FinishOutcome, SelectionState, TextLane, TextPoint};

fn point(display_index: usize, offset: usize) -> TextPoint {
    TextPoint {
        display_index,
        lane: TextLane::Unified,
        offset,
    }
}

#[test]
fn clicking_a_header_without_dragging_toggles_its_file() {
    let mut state = SelectionState::new();
    state.begin_header(2, true, 5);
    assert_eq!(state.dragging_header(), Some(2));
    assert!(!state.drag_header_to(5));
    assert_eq!(
        state.finish(),
        FinishOutcome::ToggleFile {
            file_index: 2,
            sticky_header: true
        }
    );
    assert_eq!(state, SelectionState::new());
    assert_eq!(state.finish(), FinishOutcome::Unchanged);
}

#[test]
fn a_dragged_header_selection_stays_after_the_drag() {
    let mut state = SelectionState::new();
    state.begin_text(point(1, 0));
    state.begin_header(0, false, 3);
    assert!(state.text.is_none());
    assert!(state.drag_header_to(9));
    assert!(!state.drag_text_to(point(4, 4)));
    assert_eq!(state.finish(), FinishOutcome::Changed);
    let header = state.header.unwrap();
    assert_eq!((header.anchor, header.head, header.dragging), (3, 9, false));
    assert_eq!(state.dragging_header(), None);
    assert!(!state.drag_header_to(1));
    assert_eq!(state.finish(), FinishOutcome::Unchanged);
}

#[test]
fn a_code_selection_follows_the_drag_and_an_empty_one_is_dropped() {
    let mut state = SelectionState::new();
    state.begin_text(point(3, 2));
    assert!(state.drag_text_to(point(5, 1)));
    assert!(!state.drag_text_to(point(5, 1)));
    assert_eq!(state.finish(), FinishOutcome::Changed);
    let text = state.text.unwrap();
    assert_eq!((text.anchor, text.head, text.dragging), (point(3, 2), point(5, 1), false));
    assert!(!state.drag_text_to(point(6, 0)));

    state.begin_text(point(7, 7));
    assert_eq!(state.finish(), FinishOutcome::Changed);
    assert_eq!(state, SelectionState::new());
}
