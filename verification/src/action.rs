//! The actions a user can ask of the viewer.

use vstd::prelude::*;
use crate::search::JumpDirection;

verus! {

#[derive(Debug, Copy, Clone)]
pub enum MovementMethod {
    MoveCursor,
    ScrollViewport,
}

/// An action of the viewer. Counts that are never zero (the jump sizes and
/// the line number) are plain `usize` values here.
#[derive(Debug, Copy, Clone)]
pub enum Action {
    /// Does nothing and changes no state.
    NoOp,
    MoveCursorDown(usize),
    MoveCursorUp(usize),
    ExpandOrMoveCursorRightOrDown,
    CollapseOrMoveCursorLeftOrUp,
    MoveCursorLeftOrUpWithoutCollapsing,
    MoveCursorToFirstSibling,
    MoveCursorToLastSibling,
    MoveCursorToNextSiblingOrDown(usize),
    MoveCursorToPrevSiblingOrUp(usize),
    MoveCursorToNextIndentationChange(usize),
    MoveCursorToPrevIndentationChange(usize),
    CollapseNodeAndSiblings(Option<usize>),
    ExpandNodeAndSiblings(Option<usize>),
    ScrollViewportDown(usize),
    ScrollViewportUp(usize),
    PageDown(usize),
    PageUp(usize),
    /// Moves the viewport by half the height of the screen, or by the given
    /// number of lines, keeping the focus in the same spot on the screen.
    JumpDown(Option<usize>),
    JumpUp(Option<usize>),
    MoveToSearchMatch(MovementMethod, JumpDirection, usize),
    MoveToLineNumber(usize),
    FocusTop,
    FocusBottom,
    MoveFocusedElemToCenter,
    MoveFocusedElemToTop,
    MoveFocusedElemToBottom,
}

impl Action {
    /// The action moves the cursor on purpose: a cursor movement, a jump to a
    /// search match or a line, or to the top or bottom.
    pub open spec fn spec_is_intentionally_moving_cursor(self) -> bool {
        match self {
            Action::MoveCursorDown(_) | Action::MoveCursorUp(_)
            | Action::ExpandOrMoveCursorRightOrDown | Action::CollapseOrMoveCursorLeftOrUp
            | Action::MoveCursorLeftOrUpWithoutCollapsing | Action::MoveCursorToFirstSibling
            | Action::MoveCursorToLastSibling | Action::MoveCursorToNextSiblingOrDown(_)
            | Action::MoveCursorToPrevSiblingOrUp(_) | Action::MoveCursorToNextIndentationChange(_)
            | Action::MoveCursorToPrevIndentationChange(_) | Action::MoveToSearchMatch(_, _, _)
            | Action::FocusTop | Action::FocusBottom | Action::MoveToLineNumber(_) => true,
            _ => false,
        }
    }

    pub fn is_intentionally_moving_cursor(&self) -> (b: bool)
        ensures
            b == self.spec_is_intentionally_moving_cursor(),
    {
        match self {
            Action::MoveCursorDown(_)
            | Action::MoveCursorUp(_)
            | Action::ExpandOrMoveCursorRightOrDown
            | Action::CollapseOrMoveCursorLeftOrUp
            | Action::MoveCursorLeftOrUpWithoutCollapsing
            | Action::MoveCursorToFirstSibling
            | Action::MoveCursorToLastSibling
            | Action::MoveCursorToNextSiblingOrDown(_)
            | Action::MoveCursorToPrevSiblingOrUp(_)
            | Action::MoveCursorToNextIndentationChange(_)
            | Action::MoveCursorToPrevIndentationChange(_)
            | Action::MoveToSearchMatch(_, _, _)
            | Action::FocusTop
            | Action::FocusBottom
            | Action::MoveToLineNumber(_) => true,
            Action::NoOp
            | Action::CollapseNodeAndSiblings(_)
            | Action::ExpandNodeAndSiblings(_)
            | Action::ScrollViewportDown(_)
            | Action::ScrollViewportUp(_)
            | Action::PageDown(_)
            | Action::PageUp(_)
            | Action::JumpDown(_)
            | Action::JumpUp(_)
            | Action::MoveFocusedElemToTop
            | Action::MoveFocusedElemToCenter
            | Action::MoveFocusedElemToBottom => false,
        }
    }

    pub fn is_move_to_search_match(&self) -> (b: bool)
        ensures
            b == self is MoveToSearchMatch,
    {
        match self {
            Action::MoveToSearchMatch(_, _, _) => true,
            _ => false,
        }
    }

    pub fn is_focus_bottom(&self) -> (b: bool)
        ensures
            b == self is FocusBottom,
    {
        match self {
            Action::FocusBottom => true,
            _ => false,
        }
    }

    pub fn is_moving_to_adjacent_sibling(&self) -> (b: bool)
        ensures
            b == (self is MoveCursorToNextSiblingOrDown || self is MoveCursorToPrevSiblingOrUp),
    {
        match self {
            Action::MoveCursorToNextSiblingOrDown(_) | Action::MoveCursorToPrevSiblingOrUp(_) => {
                true
            },
            _ => false,
        }
    }
}

} // verus!
