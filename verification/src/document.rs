//! A document as a viewer sees it: screen lines one after another, cursors
//! that cover some of them, and the raw bytes that a search runs over.

use std::ops::Range;
use vstd::prelude::*;
use vstd::std_specs::cmp::{PartialEqSpec, PartialOrdSpec};
use crate::rendering::PreHighlightingStyledSegment;
use crate::search::InvertedPairedDelimeters;

verus! {

/// The screen lines that a piece of content takes: the first, the last, and
/// how many there are from one to the other.
#[derive(Clone, Debug)]
pub struct ContentRange<SL> {
    pub start: SL,
    pub end: SL,
    pub num_screen_lines: usize,
}

/// The order of `T` is the one that its specification states.
pub open spec fn ordered_by_spec<T: PartialOrd>() -> bool {
    T::obeys_partial_cmp_spec()
}

/// `a` comes at or before `b` by their order.
pub open spec fn at_or_before<T: PartialOrd>(a: T, b: T) -> bool {
    a.partial_cmp_spec(&b) matches Some(std::cmp::Ordering::Less | std::cmp::Ordering::Equal)
}

/// The screen line `k` lines below `sl`, going down by `next`, if there is
/// one.
pub open spec fn lines_below<SL>(next: spec_fn(SL) -> Option<SL>, sl: SL, k: nat) -> Option<SL>
    decreases k,
{
    if k == 0 {
        Some(sl)
    } else {
        match next(sl) {
            Some(t) => lines_below(next, t, (k - 1) as nat),
            None => None,
        }
    }
}

/// Going up from `t` by `prev`, how many lines it takes to reach a line
/// equal to `b`, if that is at most `k`.
pub open spec fn lines_up_to<SL: PartialEq>(prev: spec_fn(SL) -> Option<SL>, t: SL, b: SL, k: nat) -> Option<nat>
    decreases k,
{
    if t.eq_spec(&b) {
        Some(0)
    } else if k == 0 {
        None
    } else {
        match prev(t) {
            Some(u) => match lines_up_to(prev, u, b, (k - 1) as nat) {
                Some(n) => Some(n + 1),
                None => None,
            },
            None => None,
        }
    }
}

/// Reaching `b` within `k` lines takes at most `k` lines, and the same
/// number within any larger bound.
pub proof fn lemma_lines_up_to_bound<SL: PartialEq>(prev: spec_fn(SL) -> Option<SL>, t: SL, b: SL, k: nat, k2: nat)
    requires
        lines_up_to(prev, t, b, k) is Some,
        k <= k2,
    ensures
        lines_up_to(prev, t, b, k).unwrap() <= k,
        lines_up_to(prev, t, b, k2) == lines_up_to(prev, t, b, k),
    decreases k,
{
    if !t.eq_spec(&b) && k > 0 {
        let u = prev(t).unwrap();
        lemma_lines_up_to_bound(prev, u, b, (k - 1) as nat, (k2 - 1) as nat);
    }
}

/// The index of the last byte of `range`, or its start where it is empty.
pub open spec fn last_byte_index(range: Range<usize>) -> usize {
    if range.end >= 1 && range.end - 1 > range.start {
        (range.end - 1) as usize
    } else {
        range.start
    }
}

/// The moves of a cursor that a document makes, some of which expand or
/// collapse nodes on the way.
#[derive(Debug, Copy, Clone)]
pub enum DocMove {
    Down(usize),
    Up(usize),
    ExpandOrRightOrDown,
    CollapseOrLeftOrUp,
    LeftOrUpWithoutCollapsing,
    FirstSibling,
    LastSibling,
    NextSiblingOrDown,
    PrevSiblingOrUp,
    NextIndentationChange,
    PrevIndentationChange,
    CollapseNodeAndSiblings(Option<usize>),
    ExpandNodeAndSiblings(Option<usize>),
}

/// A document laid out in screen lines, with cursors in it: what a viewer
/// shows and moves through.
pub trait Document: Sized {
    type ScreenLine: Clone + Eq + Ord + std::fmt::Debug;
    type Cursor: Clone + Ord + std::fmt::Debug;

    /// The screen line after `sl`, if there is one.
    spec fn spec_next_screen_line(&self, sl: Self::ScreenLine) -> Option<Self::ScreenLine>;

    /// The screen line before `sl`, if there is one.
    spec fn spec_prev_screen_line(&self, sl: Self::ScreenLine) -> Option<Self::ScreenLine>;

    /// The number of the line of the document that `sl` shows, from 1.
    spec fn spec_line_number(&self, sl: Self::ScreenLine) -> usize;

    /// `sl` shows part of a line that takes several screen lines.
    spec fn spec_is_wrapped_line(&self, sl: Self::ScreenLine) -> bool;

    /// `sl` shows the start of a line that takes several screen lines.
    spec fn spec_is_start_of_wrapped_line(&self, sl: Self::ScreenLine) -> bool;

    /// The screen lines that `cursor` covers.
    spec fn spec_cursor_range(&self, cursor: Self::Cursor) -> ContentRange<Self::ScreenLine>;

    /// The visible screen line that shows the byte at `index`.
    spec fn spec_visible_screen_line(&self, index: usize) -> Self::ScreenLine;

    /// The document after a cursor move from `cursor`, and the cursor it
    /// moved to, if it moved.
    spec fn spec_move(&self, m: DocMove, cursor: Self::Cursor) -> (Self, Option<Self::Cursor>);

    /// The document once it forgot the depth kept for sibling moves.
    spec fn spec_cleared_sibling_nav_state(&self) -> Self;

    /// The number of lines of the document.
    spec fn spec_num_lines(&self) -> usize;

    /// The document with `data` appended.
    spec fn spec_appended(&self, data: &[u8]) -> Self;

    /// The document once its input ended.
    spec fn spec_at_eof(&self) -> Self;

    /// What `render_screen_line` gives for `sl` with `cursor` focused.
    spec fn spec_render_screen_line(&self, sl: Self::ScreenLine, cursor: Self::Cursor) -> Option<Vec<PreHighlightingStyledSegment>>;

    /// What `debug_text_content` gives for `sl` with `cursor` focused.
    spec fn spec_debug_text_content(&self, sl: Self::ScreenLine, cursor: Self::Cursor) -> Vec<u8>;

    /// What `first_visible_cursor_at_or_before_line_index` gives.
    spec fn spec_first_visible_cursor_at_or_before_line_index(&self, index: usize) -> Option<Self::Cursor>;

    /// What `get_search_input_under_cursor` gives.
    spec fn spec_search_input_under_cursor(&self, cursor: Self::Cursor) -> Option<String>;

    /// The visible cursor that shows the byte at `index`.
    spec fn spec_visible_cursor(&self, index: usize) -> Self::Cursor;

    /// The cursor nearest the byte at `index`, visible or not.
    spec fn spec_cursor_at(&self, index: usize) -> Self::Cursor;

    /// The first visible cursor at or before `cursor`.
    spec fn spec_closest_visible_cursor(&self, cursor: Self::Cursor) -> Self::Cursor;

    /// The bytes that `cursor` covers.
    spec fn spec_byte_range_of_cursor(&self, cursor: Self::Cursor) -> Range<usize>;

    /// Every byte of `range` shows.
    spec fn spec_is_range_visible(&self, range: Range<usize>) -> bool;

    /// The cursor `convert_screen_line_to_cursor` gives for `sl`, after
    /// `prev_cursor`.
    spec fn spec_convert_screen_line_to_cursor(&self, sl: Self::ScreenLine, prev_cursor: Self::Cursor) -> Self::Cursor;

    /// The first screen line of the document and the cursor on it, if the
    /// document has any line.
    spec fn spec_top_screen_line_and_cursor(&self) -> Option<(Self::ScreenLine, Self::Cursor)>;

    /// The last screen line of the document and the cursor on it, if the
    /// document has any line.
    spec fn spec_bottom_screen_line_and_cursor(&self) -> Option<(Self::ScreenLine, Self::Cursor)>;

    fn new(width: usize) -> Self;

    fn width(&self) -> usize;

    fn resize(&mut self, new_width: usize);

    fn append(&mut self, data: &[u8])
        ensures
            *final(self) == old(self).spec_appended(data),
    ;

    fn eof(&mut self)
        ensures
            *final(self) == old(self).spec_at_eof(),
    ;

    fn top_screen_line_and_cursor(&self) -> (r: Option<(Self::ScreenLine, Self::Cursor)>)
        ensures
            r == self.spec_top_screen_line_and_cursor(),
    ;

    fn bottom_screen_line_and_cursor(&self) -> (r: Option<(Self::ScreenLine, Self::Cursor)>)
        ensures
            r == self.spec_bottom_screen_line_and_cursor(),
    ;

    fn next_screen_line(&self, screen_line: &Self::ScreenLine) -> (r: Option<Self::ScreenLine>)
        ensures
            r == self.spec_next_screen_line(*screen_line),
    ;

    fn prev_screen_line(&self, screen_line: &Self::ScreenLine) -> (r: Option<Self::ScreenLine>)
        ensures
            r == self.spec_prev_screen_line(*screen_line),
    ;

    /// The number of the line of the document, from 1.
    fn line_number(&self, screen_line: &Self::ScreenLine) -> (n: usize)
        ensures
            n == self.spec_line_number(*screen_line),
    ;

    fn is_wrapped_line(&self, screen_line: &Self::ScreenLine) -> (b: bool)
        ensures
            b == self.spec_is_wrapped_line(*screen_line),
    ;

    fn is_start_of_wrapped_line(&self, screen_line: &Self::ScreenLine) -> (b: bool)
        ensures
            b == self.spec_is_start_of_wrapped_line(*screen_line),
    ;

    fn is_end_of_wrapped_line(&self, screen_line: &Self::ScreenLine) -> bool;

    fn is_after_start_of_wrapped_line(&self, screen_line: &Self::ScreenLine) -> bool;

    fn is_before_end_of_wrapped_line(&self, screen_line: &Self::ScreenLine) -> bool;

    /// `screen_line` is the first of the document: it shows line 1, and the
    /// start of that line where it is wrapped.
    fn is_first_screen_line_of_document(&self, screen_line: &Self::ScreenLine) -> (b: bool)
        ensures
            b == (self.spec_line_number(*screen_line) == 1 && (!self.spec_is_wrapped_line(*screen_line)
                || self.spec_is_start_of_wrapped_line(*screen_line))),
    {
        self.line_number(screen_line) == 1 && (!self.is_wrapped_line(screen_line)
            || self.is_start_of_wrapped_line(screen_line))
    }

    /// The screen lines that `cursor` covers: the first, the last, and how
    /// many; almost always one line.
    fn cursor_range(&self, cursor: &Self::Cursor) -> (r: ContentRange<Self::ScreenLine>)
        ensures
            r == self.spec_cursor_range(*cursor),
    ;

    /// `screen_line` lies within the screen lines that `cursor` covers.
    fn does_screen_line_intersect_cursor(&self, screen_line: &Self::ScreenLine, cursor: &Self::Cursor) -> (b: bool)
        ensures
            ordered_by_spec::<Self::ScreenLine>() ==> b == (at_or_before(
                self.spec_cursor_range(*cursor).start,
                *screen_line,
            ) && at_or_before(*screen_line, self.spec_cursor_range(*cursor).end)),
    {
        let ContentRange { start, end, .. } = self.cursor_range(cursor);
        start <= *screen_line && *screen_line <= end
    }

    /// The screen line in the middle of `content_range`: as many lines below
    /// its start as half the lines after the start, rounded down.
    fn center_of_content_range(&self, content_range: &ContentRange<Self::ScreenLine>) -> (sl: Self::ScreenLine)
        requires
            content_range.num_screen_lines >= 1,
            lines_below(
                (|t: Self::ScreenLine| self.spec_next_screen_line(t)),
                content_range.start,
                ((content_range.num_screen_lines - 1) / 2) as nat,
            ) is Some,
        ensures
            (content_range.num_screen_lines - 1) / 2 == 0 ==> cloned(content_range.start, sl),
            (content_range.num_screen_lines - 1) / 2 > 0 ==> lines_below(
                (|t: Self::ScreenLine| self.spec_next_screen_line(t)),
                content_range.start,
                ((content_range.num_screen_lines - 1) / 2) as nat,
            ) == Some(sl),
    {
        let ghost next = |t: Self::ScreenLine| self.spec_next_screen_line(t);
        let diff = (content_range.num_screen_lines - 1) / 2;
        if diff == 0 {
            return content_range.start.clone();
        }
        proof {
            assert(lines_below(next, content_range.start, diff as nat) == match next(content_range.start) {
                Some(t) => lines_below(next, t, (diff - 1) as nat),
                None => None,
            });
        }
        let mut screen_line = self.next_screen_line(&content_range.start).unwrap();
        let mut k: usize = 1;
        while k < diff
            invariant
                next == (|t: Self::ScreenLine| self.spec_next_screen_line(t)),
                1 <= k <= diff,
                lines_below(next, screen_line, (diff - k) as nat) == lines_below(
                    next,
                    content_range.start,
                    diff as nat,
                ),
                lines_below(next, content_range.start, diff as nat) is Some,
            decreases diff - k,
        {
            proof {
                assert(lines_below(next, screen_line, (diff - k) as nat) == match next(screen_line) {
                    Some(t) => lines_below(next, t, (diff - k - 1) as nat),
                    None => None,
                });
            }
            screen_line = self.next_screen_line(&screen_line).unwrap();
            k = k + 1;
        }
        screen_line
    }

    /// If a document can focus several nodes in one screen line, this gives
    /// the one whose horizontal position is like that of `prev_cursor`.
    fn convert_screen_line_to_cursor(&self, screen_line: Self::ScreenLine, prev_cursor: &Self::Cursor) -> (c: Self::Cursor)
        ensures
            c == self.spec_convert_screen_line_to_cursor(screen_line, *prev_cursor),
    ;

    /// How many screen lines up from `a` one goes to reach `b`.
    fn diff_screen_lines(&self, a: &Self::ScreenLine, b: &Self::ScreenLine) -> (diff: usize)
        requires
            <Self::ScreenLine as PartialEqSpec>::obeys_eq_spec(),
            lines_up_to((|t: Self::ScreenLine| self.spec_prev_screen_line(t)), *a, *b, usize::MAX as nat) is Some,
        ensures
            lines_up_to((|t: Self::ScreenLine| self.spec_prev_screen_line(t)), *a, *b, usize::MAX as nat) == Some(
                diff as nat,
            ),
    {
        let ghost prev = |t: Self::ScreenLine| self.spec_prev_screen_line(t);
        let ghost m = usize::MAX as nat;
        if !(*a != *b) {
            return 0;
        }
        let mut t = match self.prev_screen_line(a) {
            Some(t) => t,
            None => {
                return 0;
            },
        };
        let mut diff: usize = 1;
        while t != *b
            invariant
                <Self::ScreenLine as PartialEqSpec>::obeys_eq_spec(),
                prev == (|t: Self::ScreenLine| self.spec_prev_screen_line(t)),
                m == usize::MAX as nat,
                1 <= diff <= m,
                lines_up_to(prev, t, *b, (m - diff) as nat) is Some,
                lines_up_to(prev, *a, *b, m) == Some(
                    (lines_up_to(prev, t, *b, (m - diff) as nat).unwrap() + diff) as nat,
                ),
            decreases m - diff,
        {
            t = match self.prev_screen_line(&t) {
                Some(p) => p,
                None => {
                    return 0;
                },
            };
            diff = diff + 1;
        }
        diff
    }

    fn move_cursor_down(&mut self, lines: usize, cursor: &Self::Cursor) -> (r: Option<Self::Cursor>)
        ensures
            (*final(self), r) == old(self).spec_move(DocMove::Down(lines), *cursor),
    ;

    fn move_cursor_up(&mut self, lines: usize, cursor: &Self::Cursor) -> (r: Option<Self::Cursor>)
        ensures
            (*final(self), r) == old(self).spec_move(DocMove::Up(lines), *cursor),
    ;

    fn expand_or_move_cursor_right_or_down(&mut self, cursor: &Self::Cursor) -> (r: Option<Self::Cursor>)
        ensures
            (*final(self), r) == old(self).spec_move(DocMove::ExpandOrRightOrDown, *cursor),
    ;

    fn collapse_or_move_cursor_left_or_up(&mut self, cursor: &Self::Cursor) -> (r: Option<Self::Cursor>)
        ensures
            (*final(self), r) == old(self).spec_move(DocMove::CollapseOrLeftOrUp, *cursor),
    ;

    fn move_cursor_left_or_up_without_collapsing(&mut self, cursor: &Self::Cursor) -> (r: Option<Self::Cursor>)
        ensures
            (*final(self), r) == old(self).spec_move(DocMove::LeftOrUpWithoutCollapsing, *cursor),
    ;

    fn move_cursor_to_first_sibling(&mut self, cursor: &Self::Cursor) -> (r: Option<Self::Cursor>)
        ensures
            (*final(self), r) == old(self).spec_move(DocMove::FirstSibling, *cursor),
    ;

    fn move_cursor_to_last_sibling(&mut self, cursor: &Self::Cursor) -> (r: Option<Self::Cursor>)
        ensures
            (*final(self), r) == old(self).spec_move(DocMove::LastSibling, *cursor),
    ;

    fn move_cursor_to_next_sibling_or_down(&mut self, cursor: &Self::Cursor) -> (r: Option<Self::Cursor>)
        ensures
            (*final(self), r) == old(self).spec_move(DocMove::NextSiblingOrDown, *cursor),
    ;

    fn move_cursor_to_prev_sibling_or_up(&mut self, cursor: &Self::Cursor) -> (r: Option<Self::Cursor>)
        ensures
            (*final(self), r) == old(self).spec_move(DocMove::PrevSiblingOrUp, *cursor),
    ;

    fn move_cursor_to_next_indentation_change(&mut self, cursor: &Self::Cursor) -> (r: Option<Self::Cursor>)
        ensures
            (*final(self), r) == old(self).spec_move(DocMove::NextIndentationChange, *cursor),
    ;

    fn move_cursor_to_prev_indentation_change(&mut self, cursor: &Self::Cursor) -> (r: Option<Self::Cursor>)
        ensures
            (*final(self), r) == old(self).spec_move(DocMove::PrevIndentationChange, *cursor),
    ;

    fn collapse_node_and_siblings(&mut self, cursor: &Self::Cursor, depth: Option<usize>) -> (r: Option<Self::Cursor>)
        ensures
            (*final(self), r) == old(self).spec_move(DocMove::CollapseNodeAndSiblings(depth), *cursor),
    ;

    fn expand_node_and_siblings(&mut self, cursor: &Self::Cursor, depth: Option<usize>) -> (r: Option<Self::Cursor>)
        ensures
            (*final(self), r) == old(self).spec_move(DocMove::ExpandNodeAndSiblings(depth), *cursor),
    ;

    /// Forgets the depth kept for moves between adjacent siblings.
    fn clear_adjacent_sibling_nav_state(&mut self)
        ensures
            *final(self) == old(self).spec_cleared_sibling_nav_state(),
    ;

    /// The number of lines of the document.
    fn num_lines(&self) -> (n: usize)
        ensures
            n == self.spec_num_lines(),
    ;

    /// The first visible cursor on the line at `index` (from 0) or before
    /// it, if the document has such a line.
    fn first_visible_cursor_at_or_before_line_index(&self, index: usize) -> (r: Option<Self::Cursor>)
        ensures
            r == self.spec_first_visible_cursor_at_or_before_line_index(index),
    ;

    /// The text under `cursor` to search for, if it has one.
    fn get_search_input_under_cursor(&self, cursor: &Self::Cursor) -> (r: Option<String>)
        ensures
            r == self.spec_search_input_under_cursor(*cursor),
    ;

    /// The visible cursor that shows the byte at `index`.
    fn raw_byte_index_to_visible_cursor(&self, index: usize) -> (c: Self::Cursor)
        ensures
            c == self.spec_visible_cursor(index),
    ;

    /// Which paired delimiters a search input of this kind of document
    /// inverts: none.
    fn inverted_paired_delimiters_for_search_input() -> (d: InvertedPairedDelimeters)
        ensures
            !d.square_brackets && !d.curly_braces && !d.parentheses,
    {
        InvertedPairedDelimeters { square_brackets: false, curly_braces: false, parentheses: false }
    }

    fn raw_bytes_for_searching(&self) -> &[u8];

    fn raw_byte_range_of_cursor(&self, cursor: &Self::Cursor) -> (r: Range<usize>)
        ensures
            r == self.spec_byte_range_of_cursor(*cursor),
    ;

    /// The cursor closest to the byte at `index`; it need not be visible.
    fn raw_byte_index_to_cursor(&self, index: usize) -> (c: Self::Cursor)
        ensures
            c == self.spec_cursor_at(index),
    ;

    /// The screen line that shows the byte at `index`, possibly inside a
    /// collapsed node.
    fn raw_byte_index_to_visible_screen_line(&self, index: usize) -> (sl: Self::ScreenLine)
        ensures
            sl == self.spec_visible_screen_line(index),
    ;

    fn is_raw_byte_range_visible(&self, range: Range<usize>) -> (b: bool)
        ensures
            b == self.spec_is_range_visible(range),
    ;

    /// The screen lines that show the bytes of `range`: from the line of its
    /// first byte to that of its last (of its start where it is empty).
    fn raw_byte_range_to_visible_content_range(&self, range: Range<usize>) -> (r: ContentRange<Self::ScreenLine>)
        requires
            <Self::ScreenLine as PartialEqSpec>::obeys_eq_spec(),
            lines_up_to(
                (|t: Self::ScreenLine| self.spec_prev_screen_line(t)),
                self.spec_visible_screen_line(last_byte_index(range)),
                self.spec_visible_screen_line(range.start),
                (usize::MAX - 1) as nat,
            ) is Some,
        ensures
            r.start == self.spec_visible_screen_line(range.start),
            r.end == self.spec_visible_screen_line(last_byte_index(range)),
            lines_up_to((|t: Self::ScreenLine| self.spec_prev_screen_line(t)), r.end, r.start, usize::MAX as nat)
                == Some((r.num_screen_lines - 1) as nat),
    {
        let end_index = if range.end >= 1 && range.end - 1 > range.start {
            range.end - 1
        } else {
            range.start
        };
        let start = self.raw_byte_index_to_visible_screen_line(range.start);
        let end = self.raw_byte_index_to_visible_screen_line(end_index);
        proof {
            lemma_lines_up_to_bound(
                (|t: Self::ScreenLine| self.spec_prev_screen_line(t)),
                end,
                start,
                (usize::MAX - 1) as nat,
                usize::MAX as nat,
            );
        }
        let diff = self.diff_screen_lines(&end, &start);
        let num_screen_lines = diff + 1;
        ContentRange { start, end, num_screen_lines }
    }

    /// If `cursor` is hidden in a collapsed node, the first visible cursor
    /// before it; else `cursor` itself.
    fn closest_visible_cursor(&self, cursor: &Self::Cursor) -> (c: Self::Cursor)
        ensures
            c == self.spec_closest_visible_cursor(*cursor),
    ;

    fn debug_text_content(&self, screen_line: &Self::ScreenLine, cursor: &Self::Cursor) -> (r: Vec<u8>)
        ensures
            r == self.spec_debug_text_content(*screen_line, *cursor),
    ;

    fn render_screen_line(
        &self,
        screen_line: &Self::ScreenLine,
        cursor: &Self::Cursor,
    ) -> (r: Option<Vec<PreHighlightingStyledSegment>>)
        ensures
            r == self.spec_render_screen_line(*screen_line, *cursor),
    ;
}

} // verus!
