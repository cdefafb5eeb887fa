//! What each key does: the viewer's key map, with its count prefix (digits
//! typed before a command) and the `z` prefix of the `zt`, `zz` and `zb`
//! commands. A step takes the input state and one event and gives the next
//! state and what the program is to do; the terminal work is the caller's.

use vstd::prelude::*;
use crate::action::{Action, MovementMethod};
use crate::search::{JumpDirection, SearchDirection};

verus! {

/// The most digits of a count that are kept; older ones are dropped.
pub const MAX_BUFFER_SIZE: usize = 9;

/// How the next key is read.
#[derive(Debug, Copy, Clone, PartialEq, Eq)]
pub enum InputState {
    Default,
    /// After `z`, waiting for `t`, `z` or `b`.
    PendingZCommand,
}

/// An event from the terminal, as far as the key map tells them apart.
#[derive(Debug, Copy, Clone, PartialEq, Eq)]
pub enum KeyInput {
    Char(char),
    Ctrl(char),
    Up,
    Down,
    Left,
    Right,
    Home,
    End,
    PageUp,
    PageDown,
    Esc,
    /// Any other key.
    OtherKey,
    WheelUp,
    WheelDown,
    /// Any other mouse event.
    OtherMouse,
    /// An event the terminal library could not read.
    Unsupported,
}

/// What the program does after a key.
#[derive(Debug, Copy, Clone)]
pub enum KeyResponse {
    /// Quit at once.
    Quit,
    /// Suspend the program, then draw the screen.
    Suspend,
    /// Do nothing, not even draw.
    Ignore,
    /// Perform the action, if any, then draw the screen.
    Act(Option<Action>),
    /// Ask for a search input and search in the direction, the count times.
    Search(SearchDirection, usize),
    /// Move to a search match by the method, in the direction, the count times.
    SearchMatch(MovementMethod, JumpDirection, usize),
    /// Stop showing search matches, then draw the screen.
    StopSearching,
    /// Draw the screen, then ask for a command.
    PromptCommand,
}

/// The input state and the digits typed so far.
#[derive(Debug, Clone)]
pub struct KeyState {
    pub input_state: InputState,
    pub input_buffer: Vec<u8>,
}

/// `c` is a decimal digit.
pub open spec fn is_digit_char(c: char) -> bool {
    '0' <= c && c <= '9'
}

/// `b` is the byte of a decimal digit.
pub open spec fn is_digit_byte(b: u8) -> bool {
    48 <= b && b <= 57
}

/// The byte of a digit character.
pub open spec fn digit_byte(c: char) -> u8 {
    (c as u32) as u8
}

/// A state that the key map can reach: at most `MAX_BUFFER_SIZE` bytes kept,
/// digits only outside the `z` prefix.
pub open spec fn state_wf(input_state: InputState, buffer: Seq<u8>) -> bool {
    &&& buffer.len() <= MAX_BUFFER_SIZE
    &&& input_state is Default ==> forall|i: int| 0 <= i < buffer.len() ==> is_digit_byte(#[trigger] buffer[i])
}

/// The buffer after `b` is typed: a leading zero is not kept, and when the
/// buffer is full its oldest byte is dropped.
pub open spec fn buffered(buffer: Seq<u8>, b: u8) -> Seq<u8> {
    if buffer.len() == 0 && b == 48 {
        buffer
    } else if buffer.len() >= MAX_BUFFER_SIZE {
        buffer.subrange(1, buffer.len() as int).push(b)
    } else {
        buffer.push(b)
    }
}

/// The number the digits of `digits` write in decimal.
pub open spec fn digits_value(digits: Seq<u8>) -> nat
    decreases digits.len(),
{
    if digits.len() == 0 {
        0
    } else {
        digits_value(digits.drop_last()) * 10 + (digits.last() - 48) as nat
    }
}

/// The count that the digits typed give: none when no digit was typed.
pub open spec fn buffered_count(buffer: Seq<u8>) -> Option<usize> {
    if buffer.len() == 0 {
        None
    } else {
        Some(digits_value(buffer) as usize)
    }
}

/// `Some(n)` for a count that is not zero.
pub open spec fn nonzero(count: Option<usize>) -> Option<usize> {
    match count {
        Some(n) => if n == 0 {
            None
        } else {
            Some(n)
        },
        None => None,
    }
}

/// What a command key does with the count typed before it (`count`, or
/// one where none was typed).
pub open spec fn command_response(key: KeyInput, count: Option<usize>) -> KeyResponse {
    let n = match count {
        Some(c) => c,
        None => 1,
    };
    match key {
        KeyInput::Down | KeyInput::Char('j') => KeyResponse::Act(Some(Action::MoveCursorDown(n))),
        KeyInput::Up | KeyInput::Char('k') => KeyResponse::Act(Some(Action::MoveCursorUp(n))),
        KeyInput::Right | KeyInput::Char('l') => KeyResponse::Act(Some(Action::ExpandOrMoveCursorRightOrDown)),
        KeyInput::Left | KeyInput::Char('h') => KeyResponse::Act(Some(Action::CollapseOrMoveCursorLeftOrUp)),
        KeyInput::Char('H') => KeyResponse::Act(Some(Action::MoveCursorLeftOrUpWithoutCollapsing)),
        KeyInput::Char('$') => KeyResponse::Act(Some(Action::MoveCursorToLastSibling)),
        KeyInput::Char('e') => KeyResponse::Act(Some(Action::ExpandNodeAndSiblings(Some(n)))),
        KeyInput::Char('E') => KeyResponse::Act(Some(Action::ExpandNodeAndSiblings(count))),
        KeyInput::Char('c') => KeyResponse::Act(Some(Action::CollapseNodeAndSiblings(Some(n)))),
        KeyInput::Char('C') => KeyResponse::Act(Some(Action::CollapseNodeAndSiblings(count))),
        KeyInput::Home | KeyInput::Char('g') => KeyResponse::Act(Some(Action::FocusTop)),
        KeyInput::End | KeyInput::Char('G') => KeyResponse::Act(Some(Action::FocusBottom)),
        KeyInput::Ctrl('e') => KeyResponse::Act(Some(Action::ScrollViewportDown(n))),
        KeyInput::Ctrl('y') => KeyResponse::Act(Some(Action::ScrollViewportUp(n))),
        KeyInput::PageDown => KeyResponse::Act(Some(Action::PageDown(n))),
        KeyInput::PageUp => KeyResponse::Act(Some(Action::PageUp(n))),
        KeyInput::Ctrl('d') => KeyResponse::Act(Some(Action::JumpDown(nonzero(count)))),
        KeyInput::Ctrl('u') => KeyResponse::Act(Some(Action::JumpUp(nonzero(count)))),
        KeyInput::Char('/') => KeyResponse::Search(SearchDirection::Forward, n),
        KeyInput::Char('?') => KeyResponse::Search(SearchDirection::Reverse, n),
        KeyInput::Char('n') => KeyResponse::SearchMatch(MovementMethod::MoveCursor, JumpDirection::Next, n),
        KeyInput::Char('N') => KeyResponse::SearchMatch(MovementMethod::MoveCursor, JumpDirection::Prev, n),
        KeyInput::Ctrl('f') => KeyResponse::SearchMatch(MovementMethod::ScrollViewport, JumpDirection::Next, n),
        KeyInput::Ctrl('g') => KeyResponse::SearchMatch(MovementMethod::ScrollViewport, JumpDirection::Prev, n),
        KeyInput::Esc => KeyResponse::StopSearching,
        KeyInput::Char(':') => KeyResponse::PromptCommand,
        _ => KeyResponse::Act(None),
    }
}

/// One step of the key map: the next input state, the next buffer, and the
/// response to `key`.
pub open spec fn spec_step(input_state: InputState, buffer: Seq<u8>, key: KeyInput) -> (
    InputState,
    Seq<u8>,
    KeyResponse,
) {
    match key {
        KeyInput::Ctrl('z') => (input_state, buffer, KeyResponse::Suspend),
        KeyInput::Unsupported => (input_state, buffer, KeyResponse::Ignore),
        KeyInput::WheelUp => (input_state, Seq::empty(), KeyResponse::Act(Some(Action::ScrollViewportUp(3)))),
        KeyInput::WheelDown => (input_state, Seq::empty(), KeyResponse::Act(Some(Action::ScrollViewportDown(3)))),
        KeyInput::OtherMouse => (input_state, Seq::empty(), KeyResponse::Ignore),
        _ => match input_state {
            InputState::PendingZCommand => (
                InputState::Default,
                Seq::empty(),
                match key {
                    KeyInput::Char('t') => KeyResponse::Act(Some(Action::MoveFocusedElemToTop)),
                    KeyInput::Char('z') => KeyResponse::Act(Some(Action::MoveFocusedElemToCenter)),
                    KeyInput::Char('b') => KeyResponse::Act(Some(Action::MoveFocusedElemToBottom)),
                    KeyInput::Char(':') => KeyResponse::PromptCommand,
                    _ => KeyResponse::Act(None),
                },
            ),
            InputState::Default => match key {
                KeyInput::Char('q') | KeyInput::Ctrl('c') => (input_state, buffer, KeyResponse::Quit),
                KeyInput::Char(d) if is_digit_char(d) => if d == '0' && buffer.len() == 0 {
                    (input_state, buffer, KeyResponse::Act(Some(Action::MoveCursorToFirstSibling)))
                } else {
                    (input_state, buffered(buffer, digit_byte(d)), KeyResponse::Act(None))
                },
                KeyInput::Char('z') => (
                    InputState::PendingZCommand,
                    buffered(Seq::empty(), 122),
                    KeyResponse::Act(None),
                ),
                _ => (input_state, Seq::empty(), command_response(key, buffered_count(buffer))),
            },
        },
    }
}

/// Two digits of a count typed in a row make the number they write, as long
/// as the buffer has room.
pub proof fn law_digits_accumulate(buffer: Seq<u8>, d: char)
    requires
        state_wf(InputState::Default, buffer),
        buffer.len() < MAX_BUFFER_SIZE,
        is_digit_char(d),
        buffer.len() > 0 || d != '0',
    ensures
        ({
            let (st, b, _r) = spec_step(InputState::Default, buffer, KeyInput::Char(d));
            &&& st == InputState::Default
            &&& digits_value(b) == digits_value(buffer) * 10 + (d as u32 - 48)
        }),
{
    let b = buffered(buffer, digit_byte(d));
    assert(b == buffer.push(digit_byte(d)));
    assert(b.drop_last() == buffer);
    lemma_digit_byte(d);
}

/// The byte of a digit is its code.
proof fn lemma_digit_byte(d: char)
    requires
        is_digit_char(d),
    ensures
        digit_byte(d) == d as u32,
        is_digit_byte(digit_byte(d)),
{
    let x = d as u32;
    assert(48 <= x <= 57);
    assert(x as u8 == x) by (bit_vector)
        requires
            x < 256,
    ;
}

/// The arrow keys and Home/End do what their letter keys do, in every input
/// state and after any count: Down as `j`, Up as `k`, Right as `l`, Left as
/// `h`, Home as `g` and End as `G`.
pub proof fn law_arrow_keys_match_letters(input_state: InputState, buffer: Seq<u8>)
    ensures
        spec_step(input_state, buffer, KeyInput::Down) == spec_step(input_state, buffer, KeyInput::Char('j')),
        spec_step(input_state, buffer, KeyInput::Up) == spec_step(input_state, buffer, KeyInput::Char('k')),
        spec_step(input_state, buffer, KeyInput::Right) == spec_step(input_state, buffer, KeyInput::Char('l')),
        spec_step(input_state, buffer, KeyInput::Left) == spec_step(input_state, buffer, KeyInput::Char('h')),
        spec_step(input_state, buffer, KeyInput::Home) == spec_step(input_state, buffer, KeyInput::Char('g')),
        spec_step(input_state, buffer, KeyInput::End) == spec_step(input_state, buffer, KeyInput::Char('G')),
{
}

/// With no command pending, Down (and `j`) moves the cursor down by the
/// count typed before it, or by one line without a count, and Up (and `k`)
/// moves it up the same way; the count is used up.
pub proof fn law_down_and_up_move_the_cursor_by_the_count(buffer: Seq<u8>)
    ensures
        ({
            let n: usize = if buffer.len() == 0 { 1 } else { digits_value(buffer) as usize };
            &&& spec_step(InputState::Default, buffer, KeyInput::Down) == (
                InputState::Default,
                Seq::<u8>::empty(),
                KeyResponse::Act(Some(Action::MoveCursorDown(n))),
            )
            &&& spec_step(InputState::Default, buffer, KeyInput::Up) == (
                InputState::Default,
                Seq::<u8>::empty(),
                KeyResponse::Act(Some(Action::MoveCursorUp(n))),
            )
        }),
{
}

/// Every step keeps the state one the key map can reach.
pub proof fn law_step_keeps_state_wf(input_state: InputState, buffer: Seq<u8>, key: KeyInput)
    requires
        state_wf(input_state, buffer),
    ensures
        ({
            let (st, b, _r) = spec_step(input_state, buffer, key);
            state_wf(st, b)
        }),
{
    lemma_step_wf(input_state, buffer, key);
}

proof fn lemma_step_wf(input_state: InputState, buffer: Seq<u8>, key: KeyInput)
    requires
        state_wf(input_state, buffer),
    ensures
        ({
            let (st, b, _r) = spec_step(input_state, buffer, key);
            state_wf(st, b)
        }),
{
    if let KeyInput::Char(d) = key {
        if input_state is Default && is_digit_char(d) && !(d == '0' && buffer.len() == 0) {
            let b = buffered(buffer, digit_byte(d));
            lemma_digit_byte(d);
            assert forall|i: int| 0 <= i < b.len() implies is_digit_byte(#[trigger] b[i]) by {
                if buffer.len() >= MAX_BUFFER_SIZE {
                    if i < b.len() - 1 {
                        assert(b[i] == buffer[i + 1]);
                    }
                } else {
                    if i < buffer.len() {
                        assert(b[i] == buffer[i]);
                    }
                }
            }
        }
    }
}

/// Drops the oldest byte of a full buffer and adds `b`; a leading zero is
/// not kept.
fn buffer_input(buffer: &mut Vec<u8>, b: u8)
    requires
        old(buffer)@.len() <= MAX_BUFFER_SIZE,
    ensures
        final(buffer)@ == buffered(old(buffer)@, b),
{
    if buffer.len() == 0 && b == 48 {
        return;
    }
    if buffer.len() >= MAX_BUFFER_SIZE {
        buffer.remove(0);
    }
    buffer.push(b);
}

/// The count the digits typed write, if any were typed.
fn parse_count(buffer: &Vec<u8>) -> (r: Option<usize>)
    requires
        buffer@.len() <= MAX_BUFFER_SIZE,
        forall|i: int| 0 <= i < buffer@.len() ==> is_digit_byte(#[trigger] buffer@[i]),
    ensures
        r == buffered_count(buffer@),
        r matches Some(n) ==> n == digits_value(buffer@),
{
    if buffer.len() == 0 {
        return None;
    }
    let mut value: usize = 0;
    let mut i: usize = 0;
    while i < buffer.len()
        invariant
            i <= buffer@.len() <= MAX_BUFFER_SIZE,
            forall|j: int| 0 <= j < buffer@.len() ==> is_digit_byte(#[trigger] buffer@[j]),
            value == digits_value(buffer@.subrange(0, i as int)),
            value < pow10(i as nat),
        decreases buffer@.len() - i,
    {
        let d = buffer[i];
        proof {
            let s = buffer@.subrange(0, i as int + 1);
            assert(s.drop_last() == buffer@.subrange(0, i as int));
            lemma_pow10_bound(i as nat);
            assert(value * 10 + 9 < pow10(i as nat + 1)) by (nonlinear_arith)
                requires
                    value < pow10(i as nat),
                    pow10(i as nat + 1) == pow10(i as nat) * 10,
            ;
        }
        value = value * 10 + (d - 48) as usize;
        i = i + 1;
    }
    proof {
        assert(buffer@.subrange(0, buffer@.len() as int) == buffer@);
    }
    Some(value)
}

/// Ten to the power `n`.
pub open spec fn pow10(n: nat) -> nat
    decreases n,
{
    if n == 0 {
        1
    } else {
        pow10((n - 1) as nat) * 10
    }
}

/// Ten to the power of at most the buffer size fits a machine word.
proof fn lemma_pow10_bound(n: nat)
    requires
        n < MAX_BUFFER_SIZE,
    ensures
        pow10(n + 1) == pow10(n) * 10,
        pow10(n + 1) <= 1000000000,
{
    reveal_with_fuel(pow10, 10);
}

/// The key map: the next state and what to do after `key`.
pub fn step(state: &KeyState, key: KeyInput) -> (r: (KeyState, KeyResponse))
    requires
        state_wf(state.input_state, state.input_buffer@),
    ensures
        (r.0.input_state, r.0.input_buffer@, r.1) == spec_step(state.input_state, state.input_buffer@, key),
        state_wf(r.0.input_state, r.0.input_buffer@),
{
    proof {
        lemma_step_wf(state.input_state, state.input_buffer@, key);
    }
    let same = KeyState { input_state: state.input_state, input_buffer: copy_bytes(&state.input_buffer) };
    let cleared = KeyState { input_state: state.input_state, input_buffer: Vec::new() };
    match key {
        KeyInput::Ctrl('z') => {
            return (same, KeyResponse::Suspend);
        },
        KeyInput::Unsupported => {
            return (same, KeyResponse::Ignore);
        },
        KeyInput::WheelUp => {
            return (cleared, KeyResponse::Act(Some(Action::ScrollViewportUp(3))));
        },
        KeyInput::WheelDown => {
            return (cleared, KeyResponse::Act(Some(Action::ScrollViewportDown(3))));
        },
        KeyInput::OtherMouse => {
            return (cleared, KeyResponse::Ignore);
        },
        _ => {},
    }
    match state.input_state {
        InputState::PendingZCommand => {
            let response = match key {
                KeyInput::Char('t') => KeyResponse::Act(Some(Action::MoveFocusedElemToTop)),
                KeyInput::Char('z') => KeyResponse::Act(Some(Action::MoveFocusedElemToCenter)),
                KeyInput::Char('b') => KeyResponse::Act(Some(Action::MoveFocusedElemToBottom)),
                KeyInput::Char(':') => KeyResponse::PromptCommand,
                _ => KeyResponse::Act(None),
            };
            (KeyState { input_state: InputState::Default, input_buffer: Vec::new() }, response)
        },
        InputState::Default => match key {
            KeyInput::Char('q') | KeyInput::Ctrl('c') => (same, KeyResponse::Quit),
            KeyInput::Char(d) if '0' <= d && d <= '9' => {
                if d == '0' && state.input_buffer.len() == 0 {
                    (same, KeyResponse::Act(Some(Action::MoveCursorToFirstSibling)))
                } else {
                    let mut buffer = copy_bytes(&state.input_buffer);
                    buffer_input(&mut buffer, digit_to_byte(d));
                    (KeyState { input_state: InputState::Default, input_buffer: buffer }, KeyResponse::Act(None))
                }
            },
            KeyInput::Char('z') => {
                let mut buffer: Vec<u8> = Vec::new();
                buffer_input(&mut buffer, 122);
                (KeyState { input_state: InputState::PendingZCommand, input_buffer: buffer }, KeyResponse::Act(None))
            },
            _ => {
                let count = parse_count(&state.input_buffer);
                (cleared, command_for(key, count))
            },
        },
    }
}

/// The byte of a digit character.
fn digit_to_byte(d: char) -> (b: u8)
    requires
        is_digit_char(d),
    ensures
        b == digit_byte(d),
{
    proof {
        lemma_digit_byte(d);
    }
    let code = d as u32;
    code as u8
}

/// A copy of `bytes`.
fn copy_bytes(bytes: &Vec<u8>) -> (r: Vec<u8>)
    ensures
        r@ == bytes@,
{
    let mut r: Vec<u8> = Vec::new();
    let mut i: usize = 0;
    while i < bytes.len()
        invariant
            i <= bytes@.len(),
            r@ == bytes@.subrange(0, i as int),
        decreases bytes@.len() - i,
    {
        r.push(bytes[i]);
        i = i + 1;
    }
    r
}

/// What a command key does with the count typed before it.
fn command_for(key: KeyInput, count: Option<usize>) -> (r: KeyResponse)
    ensures
        r == command_response(key, count),
{
    let n = match count {
        Some(c) => c,
        None => 1,
    };
    match key {
        KeyInput::Down | KeyInput::Char('j') => KeyResponse::Act(Some(Action::MoveCursorDown(n))),
        KeyInput::Up | KeyInput::Char('k') => KeyResponse::Act(Some(Action::MoveCursorUp(n))),
        KeyInput::Right | KeyInput::Char('l') => KeyResponse::Act(Some(Action::ExpandOrMoveCursorRightOrDown)),
        KeyInput::Left | KeyInput::Char('h') => KeyResponse::Act(Some(Action::CollapseOrMoveCursorLeftOrUp)),
        KeyInput::Char('H') => KeyResponse::Act(Some(Action::MoveCursorLeftOrUpWithoutCollapsing)),
        KeyInput::Char('$') => KeyResponse::Act(Some(Action::MoveCursorToLastSibling)),
        KeyInput::Char('e') => KeyResponse::Act(Some(Action::ExpandNodeAndSiblings(Some(n)))),
        KeyInput::Char('E') => KeyResponse::Act(Some(Action::ExpandNodeAndSiblings(count))),
        KeyInput::Char('c') => KeyResponse::Act(Some(Action::CollapseNodeAndSiblings(Some(n)))),
        KeyInput::Char('C') => KeyResponse::Act(Some(Action::CollapseNodeAndSiblings(count))),
        KeyInput::Home | KeyInput::Char('g') => KeyResponse::Act(Some(Action::FocusTop)),
        KeyInput::End | KeyInput::Char('G') => KeyResponse::Act(Some(Action::FocusBottom)),
        KeyInput::Ctrl('e') => KeyResponse::Act(Some(Action::ScrollViewportDown(n))),
        KeyInput::Ctrl('y') => KeyResponse::Act(Some(Action::ScrollViewportUp(n))),
        KeyInput::PageDown => KeyResponse::Act(Some(Action::PageDown(n))),
        KeyInput::PageUp => KeyResponse::Act(Some(Action::PageUp(n))),
        KeyInput::Ctrl('d') => KeyResponse::Act(Some(Action::JumpDown(nonzero_count(count)))),
        KeyInput::Ctrl('u') => KeyResponse::Act(Some(Action::JumpUp(nonzero_count(count)))),
        KeyInput::Char('/') => KeyResponse::Search(SearchDirection::Forward, n),
        KeyInput::Char('?') => KeyResponse::Search(SearchDirection::Reverse, n),
        KeyInput::Char('n') => KeyResponse::SearchMatch(MovementMethod::MoveCursor, JumpDirection::Next, n),
        KeyInput::Char('N') => KeyResponse::SearchMatch(MovementMethod::MoveCursor, JumpDirection::Prev, n),
        KeyInput::Ctrl('f') => KeyResponse::SearchMatch(MovementMethod::ScrollViewport, JumpDirection::Next, n),
        KeyInput::Ctrl('g') => KeyResponse::SearchMatch(MovementMethod::ScrollViewport, JumpDirection::Prev, n),
        KeyInput::Esc => KeyResponse::StopSearching,
        KeyInput::Char(':') => KeyResponse::PromptCommand,
        _ => KeyResponse::Act(None),
    }
}

/// `Some(n)` for a count that is not zero.
fn nonzero_count(count: Option<usize>) -> (r: Option<usize>)
    ensures
        r == nonzero(count),
{
    match count {
        Some(n) => if n == 0 {
            None
        } else {
            Some(n)
        },
        None => None,
    }
}

} // verus!
