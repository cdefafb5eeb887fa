use jless::action::{Action, MovementMethod};
use jless::keymap::{step, InputState, KeyInput, KeyResponse, KeyState};
use jless::search::{JumpDirection, SearchDirection};

fn fresh() -> KeyState {
    KeyState { input_state: InputState::Default, input_buffer: Vec::new() }
}

fn press_all(keys: &[KeyInput]) -> (KeyState, Vec<KeyResponse>) {
    let mut state = fresh();
    let mut responses = Vec::new();
    for key in keys {
        let (next, response) = step(&state, *key);
        state = next;
        responses.push(response);
    }
    (state, responses)
}

#[test]
fn plain_movement_keys_move_once() {
    let (_, r) = press_all(&[KeyInput::Char('j'), KeyInput::Up, KeyInput::Char('l'), KeyInput::Left]);
    assert!(matches!(r[0], KeyResponse::Act(Some(Action::MoveCursorDown(1)))));
    assert!(matches!(r[1], KeyResponse::Act(Some(Action::MoveCursorUp(1)))));
    assert!(matches!(r[2], KeyResponse::Act(Some(Action::ExpandOrMoveCursorRightOrDown))));
    assert!(matches!(r[3], KeyResponse::Act(Some(Action::CollapseOrMoveCursorLeftOrUp))));
}

#[test]
fn a_count_prefix_repeats_the_command_and_is_then_cleared() {
    let (state, r) = press_all(&[KeyInput::Char('1'), KeyInput::Char('2'), KeyInput::Char('j'), KeyInput::Char('j')]);
    assert!(matches!(r[0], KeyResponse::Act(None)));
    assert!(matches!(r[1], KeyResponse::Act(None)));
    assert!(matches!(r[2], KeyResponse::Act(Some(Action::MoveCursorDown(12)))));
    assert!(matches!(r[3], KeyResponse::Act(Some(Action::MoveCursorDown(1)))));
    assert!(state.input_buffer.is_empty());
}

#[test]
fn a_leading_zero_goes_to_the_first_sibling() {
    let (state, r) = press_all(&[KeyInput::Char('0')]);
    assert!(matches!(r[0], KeyResponse::Act(Some(Action::MoveCursorToFirstSibling))));
    assert!(state.input_buffer.is_empty());
    let (_, r) = press_all(&[KeyInput::Char('3'), KeyInput::Char('0'), KeyInput::Char('k')]);
    assert!(matches!(r[2], KeyResponse::Act(Some(Action::MoveCursorUp(30)))));
}

#[test]
fn only_the_last_nine_digits_are_kept() {
    let mut keys: Vec<KeyInput> = "12345678901".chars().map(KeyInput::Char).collect();
    keys.push(KeyInput::Char('j'));
    let (_, r) = press_all(&keys);
    assert!(matches!(r[11], KeyResponse::Act(Some(Action::MoveCursorDown(345678901)))));
}

#[test]
fn z_commands_place_the_focused_element() {
    let (state, r) = press_all(&[KeyInput::Char('z')]);
    assert_eq!(state.input_state, InputState::PendingZCommand);
    assert_eq!(state.input_buffer, b"z".to_vec());
    assert!(matches!(r[0], KeyResponse::Act(None)));
    let (state, r) = press_all(&[KeyInput::Char('z'), KeyInput::Char('t')]);
    assert_eq!(state.input_state, InputState::Default);
    assert!(state.input_buffer.is_empty());
    assert!(matches!(r[1], KeyResponse::Act(Some(Action::MoveFocusedElemToTop))));
    let (_, r) = press_all(&[KeyInput::Char('z'), KeyInput::Char('z')]);
    assert!(matches!(r[1], KeyResponse::Act(Some(Action::MoveFocusedElemToCenter))));
    let (_, r) = press_all(&[KeyInput::Char('z'), KeyInput::Char('b')]);
    assert!(matches!(r[1], KeyResponse::Act(Some(Action::MoveFocusedElemToBottom))));
    let (state, r) = press_all(&[KeyInput::Char('z'), KeyInput::Char('j')]);
    assert!(matches!(r[1], KeyResponse::Act(None)));
    assert_eq!(state.input_state, InputState::Default);
}

#[test]
fn quitting_and_suspending() {
    let (_, r) = press_all(&[KeyInput::Char('q')]);
    assert!(matches!(r[0], KeyResponse::Quit));
    let (_, r) = press_all(&[KeyInput::Ctrl('c')]);
    assert!(matches!(r[0], KeyResponse::Quit));
    let (state, r) = press_all(&[KeyInput::Char('4'), KeyInput::Ctrl('z')]);
    assert!(matches!(r[1], KeyResponse::Suspend));
    assert_eq!(state.input_buffer, b"4".to_vec());
}

#[test]
fn expand_and_collapse_take_counts() {
    let (_, r) = press_all(&[KeyInput::Char('e'), KeyInput::Char('E'), KeyInput::Char('3'), KeyInput::Char('E')]);
    assert!(matches!(r[0], KeyResponse::Act(Some(Action::ExpandNodeAndSiblings(Some(1))))));
    assert!(matches!(r[1], KeyResponse::Act(Some(Action::ExpandNodeAndSiblings(None)))));
    assert!(matches!(r[3], KeyResponse::Act(Some(Action::ExpandNodeAndSiblings(Some(3))))));
    let (_, r) = press_all(&[KeyInput::Char('c'), KeyInput::Char('C')]);
    assert!(matches!(r[0], KeyResponse::Act(Some(Action::CollapseNodeAndSiblings(Some(1))))));
    assert!(matches!(r[1], KeyResponse::Act(Some(Action::CollapseNodeAndSiblings(None)))));
}

#[test]
fn jumps_keep_a_count_only_when_given() {
    let (_, r) = press_all(&[KeyInput::Ctrl('d'), KeyInput::Char('7'), KeyInput::Ctrl('u')]);
    assert!(matches!(r[0], KeyResponse::Act(Some(Action::JumpDown(None)))));
    assert!(matches!(r[2], KeyResponse::Act(Some(Action::JumpUp(Some(7))))));
}

#[test]
fn scrolling_keys_and_the_mouse_wheel() {
    let (_, r) = press_all(&[KeyInput::Ctrl('e'), KeyInput::Ctrl('y'), KeyInput::PageDown, KeyInput::PageUp]);
    assert!(matches!(r[0], KeyResponse::Act(Some(Action::ScrollViewportDown(1)))));
    assert!(matches!(r[1], KeyResponse::Act(Some(Action::ScrollViewportUp(1)))));
    assert!(matches!(r[2], KeyResponse::Act(Some(Action::PageDown(1)))));
    assert!(matches!(r[3], KeyResponse::Act(Some(Action::PageUp(1)))));
    let (state, r) = press_all(&[KeyInput::Char('5'), KeyInput::WheelDown]);
    assert!(matches!(r[1], KeyResponse::Act(Some(Action::ScrollViewportDown(3)))));
    assert!(state.input_buffer.is_empty());
    let (_, r) = press_all(&[KeyInput::WheelUp, KeyInput::OtherMouse, KeyInput::Unsupported]);
    assert!(matches!(r[0], KeyResponse::Act(Some(Action::ScrollViewportUp(3)))));
    assert!(matches!(r[1], KeyResponse::Ignore));
    assert!(matches!(r[2], KeyResponse::Ignore));
}

#[test]
fn top_and_bottom() {
    let (_, r) = press_all(&[KeyInput::Char('g'), KeyInput::Home, KeyInput::Char('G'), KeyInput::End]);
    assert!(matches!(r[0], KeyResponse::Act(Some(Action::FocusTop))));
    assert!(matches!(r[1], KeyResponse::Act(Some(Action::FocusTop))));
    assert!(matches!(r[2], KeyResponse::Act(Some(Action::FocusBottom))));
    assert!(matches!(r[3], KeyResponse::Act(Some(Action::FocusBottom))));
}

#[test]
fn search_keys() {
    let (_, r) = press_all(&[
        KeyInput::Char('/'),
        KeyInput::Char('2'),
        KeyInput::Char('?'),
        KeyInput::Char('n'),
        KeyInput::Char('N'),
        KeyInput::Ctrl('f'),
        KeyInput::Ctrl('g'),
        KeyInput::Esc,
    ]);
    assert!(matches!(r[0], KeyResponse::Search(SearchDirection::Forward, 1)));
    assert!(matches!(r[2], KeyResponse::Search(SearchDirection::Reverse, 2)));
    assert!(matches!(r[3], KeyResponse::SearchMatch(MovementMethod::MoveCursor, JumpDirection::Next, 1)));
    assert!(matches!(r[4], KeyResponse::SearchMatch(MovementMethod::MoveCursor, JumpDirection::Prev, 1)));
    assert!(matches!(r[5], KeyResponse::SearchMatch(MovementMethod::ScrollViewport, JumpDirection::Next, 1)));
    assert!(matches!(r[6], KeyResponse::SearchMatch(MovementMethod::ScrollViewport, JumpDirection::Prev, 1)));
    assert!(matches!(r[7], KeyResponse::StopSearching));
}

#[test]
fn colon_asks_for_a_command() {
    let (_, r) = press_all(&[KeyInput::Char(':'), KeyInput::Char('z'), KeyInput::Char(':')]);
    assert!(matches!(r[0], KeyResponse::PromptCommand));
    assert!(matches!(r[2], KeyResponse::PromptCommand));
}

#[test]
fn other_keys_do_nothing_but_clear_the_count() {
    let (state, r) = press_all(&[KeyInput::Char('8'), KeyInput::Char('x'), KeyInput::Char('j')]);
    assert!(matches!(r[1], KeyResponse::Act(None)));
    assert!(state.input_buffer.is_empty());
    assert!(matches!(r[2], KeyResponse::Act(Some(Action::MoveCursorDown(1)))));
}
