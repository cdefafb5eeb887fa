//! What part of a document a viewer shows: the screen line at the top, the
//! focused cursor, and the arithmetic that keeps content on screen within
//! the scrolloff, relaxed near the ends of the document.

use std::ops::Range;
use vstd::prelude::*;
use vstd::string::*;
use crate::dimensions::Dimensions;
use crate::document::{DocMove, lines_below, lines_up_to, ordered_by_spec, ContentRange, Document};
use vstd::std_specs::cmp::{PartialEqSpec, PartialOrdSpec};
use crate::action::{Action, MovementMethod};
use crate::document::last_byte_index;
use crate::search::{JumpDirection, SearchDirection, SearchState};
use crate::document::at_or_before;
use crate::rendering::{AnsiColor, Attrs, Color, PreHighlightingStyledSegment, StyledSegment, Text, TextView, spaces_view, separated_parts};
use crate::text::{utf8, decimal, push_ascii, push_decimal, from_utf8_lossy, lossy_utf8};
use std::rc::Rc;

verus! {

/// The fewest columns line numbers take.
pub const MIN_LINE_NUMBER_WIDTH: usize = 4;

/// Keeps the focused part of a document on screen as the user moves.
pub struct DocumentViewer<D: Document> {
    doc: D,
    top_line: D::ScreenLine,
    current_focus: D::Cursor,
    dimensions: Dimensions,
    dimensions_are_too_small_to_show_content: bool,
    scrolloff_setting: usize,
    tailing_end_of_document: bool,
    last_render_drew_empty_lines_after_end_of_doc: bool,
    jump_distance: Option<usize>,
    search_state: Option<SearchState>,
}

/// Where a screen line shows in the viewport.
#[derive(Debug, Copy, Clone)]
pub enum PositionOfScreenLine {
    AboveTopLine,
    AtScreenIndex(usize),
    BelowBottomLine,
}

/// Where some content shows in the viewport.
#[derive(Debug, Copy, Clone)]
pub enum PositionOfContentInViewport {
    EntirelyWithin { start_index: usize, end_index: usize },
    StartsAbove { end_index: usize },
    EndsBelow { start_index: usize },
    StartsAboveAndEndsBelow,
}

/// How many screen lines there are before the start and after the end of
/// some content, as far as a bound; `None` where there are more.
#[derive(Debug, Copy, Clone)]
pub struct BoundedProximityToDocEnds {
    pub screen_lines_to_start_of_doc: Option<usize>,
    pub screen_lines_to_end_of_doc: Option<usize>,
}

/// The screen indexes, from `start` to `end`, at which some content may
/// start so that all of it shows.
#[derive(Debug, Copy, Clone)]
pub struct AcceptableStartScreenIndexesToShowEntireContentRange {
    pub start: usize,
    pub end: usize,
}

/// The line `k` lines away from `sl` by `step`, stopping where there is no
/// further line.
pub open spec fn walk_at_most<SL>(step: spec_fn(SL) -> Option<SL>, sl: SL, k: nat) -> SL
    decreases k,
{
    if k == 0 {
        sl
    } else {
        match step(sl) {
            Some(t) => walk_at_most(step, t, (k - 1) as nat),
            None => sl,
        }
    }
}

/// How many lines one can go from `sl` by `step`, as far as `k`.
pub open spec fn steps_at_most<SL>(step: spec_fn(SL) -> Option<SL>, sl: SL, k: nat) -> nat
    decreases k,
{
    if k == 0 {
        0
    } else {
        match step(sl) {
            Some(t) => steps_at_most(step, t, (k - 1) as nat) + 1,
            None => 0,
        }
    }
}

/// The smaller of two integers.
pub open spec fn min_int(a: int, b: int) -> int {
    if a < b {
        a
    } else {
        b
    }
}

/// The larger of two integers.
pub open spec fn max_int(a: int, b: int) -> int {
    if a < b {
        b
    } else {
        a
    }
}

/// The acceptable screen range for content `content` lines tall on a screen
/// `height` lines tall, keeping `scrolloff` lines from each edge: shrunk by
/// the scrolloff, relaxed where the start (`to_start` lines above) or end
/// (`to_end` lines below) of the document is near, then grown to fit the
/// content, first on the side with more room, then evenly (rounding up).
pub open spec fn acceptable_screen_range(
    height: int,
    scrolloff: int,
    content: int,
    to_start: Option<usize>,
    to_end: Option<usize>,
) -> (int, int) {
    let last_screen_index = height - 1;
    let first0 = scrolloff;
    let last0 = last_screen_index - scrolloff;
    let first1 = match to_start {
        Some(t) => min_int(first0, t as int),
        None => first0,
    };
    let last1 = match to_end {
        Some(t) => max_int(last0, last_screen_index - t),
        None => last0,
    };
    let range_height = last1 - first1 + 1;
    if content > range_height {
        let additional = content - range_height;
        let at_start = first1;
        let at_end = last_screen_index - last1;
        let diff = if at_start > at_end { at_start - at_end } else { at_end - at_start };
        let one_side = min_int(diff, additional);
        let additional2 = additional - one_side;
        let first2 = if at_start > at_end { first1 - one_side } else { first1 };
        let last2 = if at_end > at_start { last1 + one_side } else { last1 };
        let to_reclaim = (additional2 + 1) / 2;
        (first2 - to_reclaim, last2 + to_reclaim)
    } else {
        (first1, last1)
    }
}

/// The acceptable start indexes for the content: from the first acceptable
/// screen index to the last one that leaves room for the content below it,
/// never further down than the start of the document allows.
pub open spec fn acceptable_starts(
    height: int,
    scrolloff: int,
    content: int,
    to_start: Option<usize>,
    to_end: Option<usize>,
) -> (int, int) {
    let (first, last) = acceptable_screen_range(height, scrolloff, content, to_start, to_end);
    let start0 = first;
    let end0 = max_int(first, if last - (content - 1) > 0 { last - (content - 1) } else { 0 });
    match to_start {
        Some(t) => (min_int(start0, t as int), min_int(end0, t as int)),
        None => (start0, end0),
    }
}

impl<D: Document> DocumentViewer<D> {
    pub closed spec fn spec_doc(&self) -> D {
        self.doc
    }

    pub closed spec fn spec_current_focus(&self) -> D::Cursor {
        self.current_focus
    }

    pub closed spec fn spec_search_state(&self) -> Option<SearchState> {
        self.search_state
    }

    pub closed spec fn spec_top_line(&self) -> D::ScreenLine {
        self.top_line
    }

    pub closed spec fn spec_dimensions(&self) -> Dimensions {
        self.dimensions
    }

    pub closed spec fn spec_scrolloff_setting(&self) -> usize {
        self.scrolloff_setting
    }

    pub closed spec fn spec_tailing_end_of_document(&self) -> bool {
        self.tailing_end_of_document
    }

    pub closed spec fn spec_last_render_drew_empty_lines(&self) -> bool {
        self.last_render_drew_empty_lines_after_end_of_doc
    }

    pub closed spec fn spec_too_small(&self) -> bool {
        self.dimensions_are_too_small_to_show_content
    }

    pub closed spec fn spec_jump_distance(&self) -> Option<usize> {
        self.jump_distance
    }

    /// The scrolloff in effect: the setting, but at most half of the lines
    /// other than the focused one.
    pub open spec fn spec_effective_scrolloff(&self) -> int {
        min_int(self.spec_scrolloff_setting() as int, (self.spec_dimensions().height - 1) / 2)
    }

    /// The screen lines after `sl`, by the document.
    pub closed spec fn next_fn(&self) -> spec_fn(D::ScreenLine) -> Option<D::ScreenLine> {
        |t: D::ScreenLine| self.doc.spec_next_screen_line(t)
    }

    /// The screen lines before `sl`, by the document.
    pub closed spec fn prev_fn(&self) -> spec_fn(D::ScreenLine) -> Option<D::ScreenLine> {
        |t: D::ScreenLine| self.doc.spec_prev_screen_line(t)
    }

    /// A viewer of `doc` that starts with `first_line` at the top and
    /// `initial_cursor` focused, on a screen of `dimensions`; too small to
    /// show content where the screen has no lines.
    pub fn new(
        doc: D,
        first_line: D::ScreenLine,
        initial_cursor: D::Cursor,
        dimensions: Dimensions,
        scrolloff: usize,
    ) -> (v: Self)
        ensures
            v.spec_doc() == doc,
            v.spec_top_line() == first_line,
            v.spec_current_focus() == initial_cursor,
            v.spec_dimensions() == dimensions,
            v.spec_scrolloff_setting() == scrolloff,
            v.spec_too_small() == (dimensions.height == 0),
            !v.spec_tailing_end_of_document(),
            v.spec_last_render_drew_empty_lines(),
            v.spec_jump_distance() is None,
            v.spec_search_state() is None,
            v.wf(),
    {
        DocumentViewer {
            doc,
            top_line: first_line,
            current_focus: initial_cursor,
            dimensions,
            dimensions_are_too_small_to_show_content: dimensions.height == 0,
            scrolloff_setting: scrolloff,
            tailing_end_of_document: false,
            last_render_drew_empty_lines_after_end_of_doc: true,
            jump_distance: None,
            search_state: None,
        }
    }

    /// Sets how many lines to keep around the focus.
    pub fn set_scrolloff(&mut self, scrolloff: usize)
        ensures
            final(self).spec_scrolloff_setting() == scrolloff,
            final(self).spec_top_line() == old(self).spec_top_line(),
            final(self).spec_dimensions() == old(self).spec_dimensions(),
            final(self).spec_current_focus() == old(self).spec_current_focus(),
            final(self).spec_doc() == old(self).spec_doc(),
    {
        self.scrolloff_setting = scrolloff;
    }

    /// Whether the screen must be drawn again after data was appended: when
    /// following the end of the document, or when the last drawing showed
    /// empty lines after its end.
    pub fn should_draw_screen_after_appended_data(&self) -> (b: bool)
        ensures
            b == (self.spec_tailing_end_of_document() || self.spec_last_render_drew_empty_lines()),
    {
        self.tailing_end_of_document || self.last_render_drew_empty_lines_after_end_of_doc
    }

    /// Whether the screen is too small to show any content.
    pub fn dimensions_are_too_small_to_show_content(&self) -> (b: bool)
        ensures
            b == self.spec_too_small(),
    {
        self.dimensions_are_too_small_to_show_content
    }

    /// The screen lines the viewport shows, from the top: `None` for each
    /// row past the end of the document.
    pub fn viewport_lines(&self) -> (lines: Vec<Option<D::ScreenLine>>)
        ensures
            lines@.len() == self.spec_dimensions().height,
            self.spec_dimensions().height > 0 ==> (lines@[0] matches Some(t) && cloned(
                self.spec_top_line(),
                t,
            )),
            forall|k: int|
                1 <= k < lines@.len() ==> #[trigger] lines@[k] == lines_below(
                    self.next_fn(),
                    self.spec_top_line(),
                    k as nat,
                ),
    {
        let height = self.dimensions.height;
        let mut lines: Vec<Option<D::ScreenLine>> = Vec::new();
        if height == 0 {
            return lines;
        }
        let ghost next = self.next_fn();
        lines.push(Some(self.top_line.clone()));
        let mut upcoming = self.doc.next_screen_line(&self.top_line);
        proof {
            assert(lines_below(next, self.spec_top_line(), 1) == match next(self.spec_top_line()) {
                Some(t) => lines_below(next, t, 0),
                None => None,
            });
        }
        while lines.len() < height
            invariant
                next == self.next_fn(),
                height == self.spec_dimensions().height,
                1 <= lines@.len() <= height,
                lines@[0] matches Some(t) && cloned(self.spec_top_line(), t),
                upcoming == lines_below(next, self.spec_top_line(), lines@.len() as nat),
                forall|k: int|
                    1 <= k < lines@.len() ==> #[trigger] lines@[k] == lines_below(
                        next,
                        self.spec_top_line(),
                        k as nat,
                    ),
            decreases height - lines@.len(),
        {
            let ghost k = lines@.len() as nat;
            proof {
                lemma_lines_below_step(next, self.spec_top_line(), k);
            }
            match upcoming {
                Some(line) => {
                    let after = self.doc.next_screen_line(&line);
                    lines.push(Some(line));
                    upcoming = after;
                },
                None => {
                    lines.push(None);
                    upcoming = None;
                },
            }
        }
        lines
    }

    /// Scrolls the viewport down by `lines` screen lines, as far as the
    /// end of the document allows. Where the viewport moved, the focus is
    /// brought back within the scrolloff (`spec_focus_after_scroll`).
    pub fn scroll_viewport_down(&mut self, lines: usize)
        requires
            old(self).spec_dimensions().height >= 1,
        ensures
            lines_by_spec::<D::ScreenLine>() ==> *final(self) == old(self).spec_scroll(true, lines as nat),
            final(self).spec_top_line() == walk_at_most(old(self).next_fn(), old(self).spec_top_line(), lines as nat),
            final(self).next_fn() == old(self).next_fn(),
            steps_at_most(old(self).next_fn(), old(self).spec_top_line(), lines as nat) == 0 ==> *final(self)
                == *old(self),
            Self::only_top_and_focus_moved(*old(self), *final(self)),
            steps_at_most(old(self).next_fn(), old(self).spec_top_line(), lines as nat) > 0 && ordered_by_spec::<
                D::ScreenLine,
            >() && clone_is_exact::<D::ScreenLine>() ==> final(self).spec_current_focus()
                == old(self).with_top(final(self).spec_top_line()).spec_focus_after_scroll(),
    {
        if lines == 0 {
            return;
        }
        let first = self.doc.next_screen_line(&self.top_line);
        proof {
            assert(self.next_fn()(self.top_line) == first);
        }
        match first {
            None => {},
            Some(line) => {
                self.top_line = self.n_screen_lines_after_or_bottom_of_doc(line, lines - 1);
                self.maybe_update_focused_node_after_scroll();
            },
        }
    }

    /// Scrolls the viewport up by `lines` screen lines, as far as the start
    /// of the document allows; the focus is then moved as by
    /// `scroll_viewport_down`.
    pub fn scroll_viewport_up(&mut self, lines: usize)
        requires
            old(self).spec_dimensions().height >= 1,
        ensures
            lines_by_spec::<D::ScreenLine>() ==> *final(self) == old(self).spec_scroll(false, lines as nat),
            final(self).spec_top_line() == walk_at_most(old(self).prev_fn(), old(self).spec_top_line(), lines as nat),
            final(self).prev_fn() == old(self).prev_fn(),
            steps_at_most(old(self).prev_fn(), old(self).spec_top_line(), lines as nat) == 0 ==> *final(self)
                == *old(self),
            Self::only_top_and_focus_moved(*old(self), *final(self)),
            steps_at_most(old(self).prev_fn(), old(self).spec_top_line(), lines as nat) > 0 && ordered_by_spec::<
                D::ScreenLine,
            >() && clone_is_exact::<D::ScreenLine>() ==> final(self).spec_current_focus()
                == old(self).with_top(final(self).spec_top_line()).spec_focus_after_scroll(),
    {
        if lines == 0 {
            return;
        }
        let first = self.doc.prev_screen_line(&self.top_line);
        proof {
            assert(self.prev_fn()(self.top_line) == first);
        }
        match first {
            None => {},
            Some(line) => {
                self.top_line = self.n_screen_lines_before_or_top_of_doc(line, lines - 1);
                self.maybe_update_focused_node_after_scroll();
            },
        }
    }

    /// Scrolls down by `pages` screens.
    pub fn page_down(&mut self, pages: usize)
        requires
            old(self).spec_dimensions().height >= 1,
            old(self).spec_dimensions().height * pages <= usize::MAX,
        ensures
            lines_by_spec::<D::ScreenLine>() ==> *final(self) == old(self).spec_scroll(true, (old(self).spec_dimensions().height * pages) as nat),
            final(self).spec_top_line() == walk_at_most(
                old(self).next_fn(),
                old(self).spec_top_line(),
                (old(self).spec_dimensions().height * pages) as nat,
            ),
            Self::only_top_and_focus_moved(*old(self), *final(self)),
            steps_at_most(old(self).next_fn(), old(self).spec_top_line(), (old(self).spec_dimensions().height * pages) as nat)
                == 0 ==> *final(self) == *old(self),
            steps_at_most(old(self).next_fn(), old(self).spec_top_line(), (old(self).spec_dimensions().height * pages) as nat)
                > 0 && ordered_by_spec::<D::ScreenLine>() && clone_is_exact::<D::ScreenLine>()
                ==> final(self).spec_current_focus()
                == old(self).with_top(final(self).spec_top_line()).spec_focus_after_scroll(),
    {
        let lines = self.dimensions.height * pages;
        self.scroll_viewport_down(lines);
    }

    /// Scrolls up by `pages` screens.
    pub fn page_up(&mut self, pages: usize)
        requires
            old(self).spec_dimensions().height >= 1,
            old(self).spec_dimensions().height * pages <= usize::MAX,
        ensures
            lines_by_spec::<D::ScreenLine>() ==> *final(self) == old(self).spec_scroll(false, (old(self).spec_dimensions().height * pages) as nat),
            final(self).spec_top_line() == walk_at_most(
                old(self).prev_fn(),
                old(self).spec_top_line(),
                (old(self).spec_dimensions().height * pages) as nat,
            ),
            Self::only_top_and_focus_moved(*old(self), *final(self)),
            steps_at_most(old(self).prev_fn(), old(self).spec_top_line(), (old(self).spec_dimensions().height * pages) as nat)
                == 0 ==> *final(self) == *old(self),
            steps_at_most(old(self).prev_fn(), old(self).spec_top_line(), (old(self).spec_dimensions().height * pages) as nat)
                > 0 && ordered_by_spec::<D::ScreenLine>() && clone_is_exact::<D::ScreenLine>()
                ==> final(self).spec_current_focus()
                == old(self).with_top(final(self).spec_top_line()).spec_focus_after_scroll(),
    {
        let lines = self.dimensions.height * pages;
        self.scroll_viewport_up(lines);
    }

    /// The first and last screen indexes the focus may take within the
    /// scrolloff: from the very top where the top line is the first of the
    /// document.
    pub closed spec fn spec_indexes_within_scrolloff(&self) -> (int, int) {
        let top = self.spec_top_line();
        let d = self.spec_doc();
        let first = if d.spec_line_number(top) == 1 && (!d.spec_is_wrapped_line(top)
            || d.spec_is_start_of_wrapped_line(top)) {
            0
        } else {
            self.spec_effective_scrolloff()
        };
        (first, self.spec_dimensions().height - 1 - self.spec_effective_scrolloff())
    }

    /// The focus once it is brought back within the scrolloff after a scroll:
    /// the cursor of the first (or last) screen line it may take, when the
    /// focused content lies wholly above (or below) them; else the focus as
    /// it is.
    pub closed spec fn spec_focus_after_scroll(&self) -> D::Cursor {
        let (a, b) = self.spec_indexes_within_scrolloff();
        let first = walk_at_most(self.next_fn(), self.spec_top_line(), a as nat);
        let last = walk_at_most(self.next_fn(), self.spec_top_line(), b as nat);
        let focus = self.spec_current_focus();
        let range = self.spec_doc().spec_cursor_range(focus);
        if strictly_before(range.end, first) {
            self.spec_doc().spec_convert_screen_line_to_cursor(first, focus)
        } else if strictly_before(last, range.start) {
            self.spec_doc().spec_convert_screen_line_to_cursor(last, focus)
        } else {
            focus
        }
    }

    /// `self` noting whether the last rendering drew rows past the end.
    pub closed spec fn with_drew_empty_lines(self, b: bool) -> Self {
        DocumentViewer { last_render_drew_empty_lines_after_end_of_doc: b, ..self }
    }

    /// `self` with `top` as its top line.
    pub closed spec fn with_top(self, top: D::ScreenLine) -> Self {
        DocumentViewer { top_line: top, ..self }
    }

    /// Brings the focus back within the scrolloff after a scroll, as
    /// `spec_focus_after_scroll` tells where the order of screen lines
    /// follows its specification and clones are exact.
    fn maybe_update_focused_node_after_scroll(&mut self)
        requires
            old(self).spec_dimensions().height >= 1,
        ensures
            Self::only_top_and_focus_moved(*old(self), *final(self)),
            final(self).spec_top_line() == old(self).spec_top_line(),
            ordered_by_spec::<D::ScreenLine>() && clone_is_exact::<D::ScreenLine>()
                ==> final(self).spec_current_focus() == old(self).spec_focus_after_scroll(),
    {
        let (first_index, last_index) = self.screen_indexes_within_scrolloff();
        let first_acceptable = self.last_screen_line_at_or_before_screen_index(first_index);
        let last_acceptable = self.last_screen_line_at_or_before_screen_index(last_index);
        let focused_range = self.doc.cursor_range(&self.current_focus);
        if focused_range.end < first_acceptable {
            self.current_focus = self.doc.convert_screen_line_to_cursor(first_acceptable, &self.current_focus);
        } else if last_acceptable < focused_range.start {
            self.current_focus = self.doc.convert_screen_line_to_cursor(last_acceptable, &self.current_focus);
        }
    }

    /// The screen line at `screen_index`, or the last line of the document
    /// where that comes sooner.
    fn last_screen_line_at_or_before_screen_index(&self, screen_index: usize) -> (r: D::ScreenLine)
        ensures
            steps_at_most(self.next_fn(), self.spec_top_line(), screen_index as nat) == 0 ==> cloned(
                self.spec_top_line(),
                r,
            ),
            steps_at_most(self.next_fn(), self.spec_top_line(), screen_index as nat) > 0 ==> r
                == walk_at_most(self.next_fn(), self.spec_top_line(), screen_index as nat),
    {
        if screen_index == 0 {
            return self.top_line.clone();
        }
        let first = self.doc.next_screen_line(&self.top_line);
        proof {
            assert(self.next_fn()(self.top_line) == first);
        }
        match first {
            None => self.top_line.clone(),
            Some(line) => self.n_screen_lines_after_or_bottom_of_doc(line, screen_index - 1),
        }
    }

    /// Puts the start of the focused content at the top of the screen,
    /// below the scrolloff, as far as the start of the document allows.
    pub fn move_focused_elem_to_top(&mut self)
        requires
            old(self).spec_dimensions().height >= 1,
        ensures
            *final(self) == old(self).with_top(final(self).spec_top_line()),
            final(self).spec_top_line() == walk_at_most(
                old(self).prev_fn(),
                old(self).spec_doc().spec_cursor_range(old(self).spec_current_focus()).start,
                old(self).spec_effective_scrolloff() as nat,
            ),
            final(self).spec_current_focus() == old(self).spec_current_focus(),
            final(self).spec_doc() == old(self).spec_doc(),
            final(self).spec_dimensions() == old(self).spec_dimensions(),
    {
        let cursor_range = self.doc.cursor_range(&self.current_focus);
        let scrolloff = self.effective_scrolloff();
        self.top_line = self.n_screen_lines_before_or_top_of_doc(cursor_range.start, scrolloff);
    }

    /// Puts the end of the focused content at the bottom of the screen,
    /// above the scrolloff, as far as the start of the document allows.
    pub fn move_focused_elem_to_bottom(&mut self)
        requires
            old(self).spec_dimensions().height >= 1,
        ensures
            *final(self) == old(self).with_top(final(self).spec_top_line()),
            final(self).spec_top_line() == walk_at_most(
                old(self).prev_fn(),
                old(self).spec_doc().spec_cursor_range(old(self).spec_current_focus()).end,
                (old(self).spec_dimensions().height - 1 - old(self).spec_effective_scrolloff()) as nat,
            ),
            final(self).spec_current_focus() == old(self).spec_current_focus(),
            final(self).spec_doc() == old(self).spec_doc(),
            final(self).spec_dimensions() == old(self).spec_dimensions(),
    {
        let cursor_range = self.doc.cursor_range(&self.current_focus);
        let scrolloff = self.effective_scrolloff();
        let offset = (self.dimensions.height - 1) - scrolloff;
        self.top_line = self.n_screen_lines_before_or_top_of_doc(cursor_range.end, offset);
    }

    /// Puts the middle of the focused content at the middle of the screen:
    /// half the spare lines above it, rounded down, as far as the start of
    /// the document allows; content taller than the screen starts half its
    /// excess, rounded down, above the screen.
    pub fn move_focused_elem_to_center(&mut self)
        requires
            ({
                let range = old(self).spec_doc().spec_cursor_range(old(self).spec_current_focus());
                let h = old(self).spec_dimensions().height;
                range.num_screen_lines > h ==> lines_below(
                    old(self).next_fn(),
                    range.start,
                    ((range.num_screen_lines - h) / 2) as nat,
                ) is Some
            }),
        ensures
            *final(self) == old(self).with_top(final(self).spec_top_line()),
            ({
                let range = old(self).spec_doc().spec_cursor_range(old(self).spec_current_focus());
                let h = old(self).spec_dimensions().height;
                if range.num_screen_lines <= h {
                    final(self).spec_top_line() == walk_at_most(
                        old(self).prev_fn(),
                        range.start,
                        ((h - range.num_screen_lines) / 2) as nat,
                    )
                } else {
                    Some(final(self).spec_top_line()) == lines_below(
                        old(self).next_fn(),
                        range.start,
                        ((range.num_screen_lines - h) / 2) as nat,
                    )
                }
            }),
            final(self).spec_current_focus() == old(self).spec_current_focus(),
            final(self).spec_doc() == old(self).spec_doc(),
            final(self).spec_dimensions() == old(self).spec_dimensions(),
    {
        let viewport_height = self.dimensions.height;
        let cursor_range = self.doc.cursor_range(&self.current_focus);
        let cursor_height = cursor_range.num_screen_lines;
        if cursor_height <= viewport_height {
            let offset = (viewport_height - cursor_height) / 2;
            self.top_line = self.n_screen_lines_before_or_top_of_doc(cursor_range.start, offset);
        } else {
            let offset = (cursor_height - viewport_height) / 2;
            self.top_line = self.n_screen_lines_after(cursor_range.start, offset);
        }
    }

    /// The screen line `n` lines after `from`, which the document has.
    fn n_screen_lines_after(&self, from: D::ScreenLine, count: usize) -> (r: D::ScreenLine)
        requires
            lines_below(self.next_fn(), from, count as nat) is Some,
        ensures
            lines_below(self.next_fn(), from, count as nat) == Some(r),
    {
        let ghost next = self.next_fn();
        let mut screen_line = from;
        let mut n = count;
        while n > 0
            invariant
                next == self.next_fn(),
                lines_below(next, screen_line, n as nat) == lines_below(next, from, count as nat),
                lines_below(next, from, count as nat) is Some,
            decreases n,
        {
            let p = self.doc.next_screen_line(&screen_line);
            proof {
                assert(next(screen_line) == p);
            }
            screen_line = p.unwrap();
            n = n - 1;
        }
        screen_line
    }

    /// The document shown.
    pub fn doc(&self) -> (d: &D)
        ensures
            *d == self.spec_doc(),
    {
        &self.doc
    }

    /// The cursor in focus.
    pub fn current_focus(&self) -> (c: &D::Cursor)
        ensures
            *c == self.spec_current_focus(),
    {
        &self.current_focus
    }

    /// The search in progress, if one was started.
    pub fn search_state(&self) -> (s: &Option<SearchState>)
        ensures
            *s == self.spec_search_state(),
    {
        &self.search_state
    }

    /// The start indexes at which `content_range` may be shown, as
    /// `acceptable_starts` gives them for this screen and document.
    pub closed spec fn spec_acceptable_starts(&self, content_range: ContentRange<D::ScreenLine>) -> (int, int) {
        let h = self.spec_dimensions().height as int;
        let to_start = steps_at_most(self.prev_fn(), content_range.start, (h - 1) as nat);
        let to_end = steps_at_most(self.next_fn(), content_range.end, (h - 1) as nat);
        acceptable_starts(
            h,
            self.spec_effective_scrolloff(),
            content_range.num_screen_lines as int,
            Some(to_start as usize),
            Some(to_end as usize),
        )
    }

    /// The top line that puts the start of `content_range` at screen index
    /// `index`, as far as the start of the document allows.
    pub closed spec fn top_line_for(&self, content_range: ContentRange<D::ScreenLine>, index: int) -> D::ScreenLine {
        walk_at_most(self.prev_fn(), content_range.start, index as nat)
    }

    /// The top line that shows all of `content_range` within the scrolloff,
    /// where the ends of the document allow, moving the viewport as little as
    /// it can: content as tall as the screen or taller is shown from its
    /// start; the top line stays where it already shows the content so; it
    /// moves to the nearest acceptable top line when that is at most half a
    /// screen away; else the content goes in the middle of the acceptable
    /// places (when moving down, no further than puts the last line of the
    /// document at the bottom). Content of no lines leaves the top line, and
    /// a document that tells no last line has the content put in the middle:
    /// the original program takes neither case to arise and would stop on
    /// them.
    pub closed spec fn spec_visible_top(&self, content_range: ContentRange<D::ScreenLine>) -> D::ScreenLine {
        let h = self.spec_dimensions().height;
        let top = self.spec_top_line();
        if content_range.num_screen_lines >= h {
            content_range.start
        } else if content_range.num_screen_lines == 0 {
            top
        } else {
            let (s, e) = self.spec_acceptable_starts(content_range);
            let first = self.top_line_for(content_range, e);
            let last = self.top_line_for(content_range, s);
            let middle = self.top_line_for(content_range, s + (e - s) / 2);
            let max_move = (h / 2) as nat;
            if strictly_before(top, first) {
                if lines_up_to(self.prev_fn(), first, top, max_move) is None {
                    match self.spec_doc().spec_bottom_screen_line_and_cursor() {
                        Some((bottom, _)) => {
                            let bottom_top = walk_at_most(self.prev_fn(), bottom, (h - 1) as nat);
                            if strictly_before(bottom_top, middle) {
                                bottom_top
                            } else {
                                middle
                            }
                        },
                        None => middle,
                    }
                } else {
                    first
                }
            } else if strictly_before(last, top) {
                if lines_up_to(self.prev_fn(), top, last, max_move) is None {
                    middle
                } else {
                    last
                }
            } else {
                top
            }
        }
    }

    /// `b` is `a` with at most its top line changed.
    pub closed spec fn only_top_moved(a: Self, b: Self) -> bool {
        b == DocumentViewer { top_line: b.top_line, ..a }
    }

    /// `b` is `a` with at most its top line and focus changed.
    pub closed spec fn only_top_and_focus_moved(a: Self, b: Self) -> bool {
        b == DocumentViewer { top_line: b.top_line, current_focus: b.current_focus, ..a }
    }

    /// Moves the viewport so that all of `content_range` shows within the
    /// scrolloff, as `spec_visible_top` tells, where the order and `==` of
    /// screen lines follow their specifications and a clone of a screen line
    /// equals it (as for any type whose clone copies). Where only the clone
    /// is exact, the top line is one of the candidates `spec_visible_top`
    /// chooses among.
    pub fn update_so_content_range_is_visible(&mut self, content_range: ContentRange<D::ScreenLine>)
        requires
            old(self).spec_dimensions().height >= 1,
        ensures
            ordered_by_spec::<D::ScreenLine>() && <D::ScreenLine as PartialEqSpec>::obeys_eq_spec()
                && clone_is_exact::<D::ScreenLine>() ==> final(self).spec_top_line() == old(self).spec_visible_top(
                content_range,
            ),
            ({
                let h = old(self).spec_dimensions().height;
                let (s, e) = old(self).spec_acceptable_starts(content_range);
                let first = old(self).top_line_for(content_range, e);
                let last = old(self).top_line_for(content_range, s);
                let middle = old(self).top_line_for(content_range, s + (e - s) / 2);
                let bottom = old(self).spec_doc().spec_bottom_screen_line_and_cursor().unwrap().0;
                let top = final(self).spec_top_line();
                &&& content_range.num_screen_lines >= h ==> top == content_range.start
                &&& content_range.num_screen_lines == 0 ==> top == old(self).spec_top_line()
                &&& 0 < content_range.num_screen_lines < h && clone_is_exact::<D::ScreenLine>() ==> (top == old(
                    self,
                ).spec_top_line() || top == first
                    || top == last || top == middle || top == walk_at_most(
                    old(self).prev_fn(),
                    bottom,
                    (h - 1) as nat,
                ))
            }),
            Self::only_top_moved(*old(self), *final(self)),
    {
        if content_range.num_screen_lines >= self.dimensions.height {
            self.top_line = content_range.start;
            return;
        }
        if content_range.num_screen_lines == 0 {
            return;
        }
        let acceptable = self.calculate_acceptable_start_screen_indexes_to_show_entire_content_range(&content_range);
        let start_index = acceptable.start;
        let end_index = acceptable.end;
        let start1 = content_range.start.clone();
        let start2 = content_range.start.clone();
        let start3 = content_range.start.clone();
        assert(cloned(content_range.start, start1));
        assert(cloned(content_range.start, start2));
        assert(cloned(content_range.start, start3));
        let first_acceptable_top_line = self.n_screen_lines_before_or_top_of_doc(start1, end_index);
        let last_acceptable_top_line = self.n_screen_lines_before_or_top_of_doc(start2, start_index);
        let middle_acceptable_top_line = self.n_screen_lines_before_or_top_of_doc(
            start3,
            start_index + (end_index - start_index) / 2,
        );
        let max_move_before_snap = self.dimensions.height / 2;
        if self.top_line < first_acceptable_top_line {
            let diff = self.lines_up_within(&first_acceptable_top_line, &self.top_line, max_move_before_snap);
            if diff.is_none() {
                match self.doc.bottom_screen_line_and_cursor() {
                    Some((bottom_screen_line, _)) => {
                        let top_if_bottom_at_bottom = self.n_screen_lines_before_or_top_of_doc(
                            bottom_screen_line,
                            self.dimensions.height - 1,
                        );
                        if top_if_bottom_at_bottom < middle_acceptable_top_line {
                            self.top_line = top_if_bottom_at_bottom;
                        } else {
                            self.top_line = middle_acceptable_top_line;
                        }
                    },
                    None => {
                        self.top_line = middle_acceptable_top_line;
                    },
                }
            } else {
                self.top_line = first_acceptable_top_line;
            }
        } else if last_acceptable_top_line < self.top_line {
            let diff = self.lines_up_within(&self.top_line, &last_acceptable_top_line, max_move_before_snap);
            if diff.is_none() {
                self.top_line = middle_acceptable_top_line;
            } else {
                self.top_line = last_acceptable_top_line;
            }
        }
    }

    /// How many lines up from `a` one goes to reach `b`, if that is at most
    /// `max`.
    fn lines_up_within(&self, a: &D::ScreenLine, b: &D::ScreenLine, max: usize) -> (r: Option<usize>)
        ensures
            r matches Some(n) ==> n <= max,
            <D::ScreenLine as PartialEqSpec>::obeys_eq_spec() ==> (r is Some <==> lines_up_to(
                self.prev_fn(),
                *a,
                *b,
                max as nat,
            ) is Some),
            <D::ScreenLine as PartialEqSpec>::obeys_eq_spec() ==> (r matches Some(n) ==> lines_up_to(
                self.prev_fn(),
                *a,
                *b,
                max as nat,
            ) == Some(n as nat)),
    {
        let ghost prev = self.prev_fn();
        if *a == *b {
            return Some(0);
        }
        if max == 0 {
            return None;
        }
        let first = self.doc.prev_screen_line(a);
        proof {
            assert(prev(*a) == first);
        }
        let mut t = match first {
            Some(u) => u,
            None => {
                return None;
            },
        };
        let mut n: usize = 1;
        while n <= max
            invariant
                prev == self.prev_fn(),
                1 <= n <= max,
                <D::ScreenLine as PartialEqSpec>::obeys_eq_spec() ==> lines_up_to(prev, *a, *b, max as nat) == match lines_up_to(prev, t, *b, (max - n) as nat) {
                    Some(k) => Some((k + n) as nat),
                    None => None,
                },
            decreases max + 1 - n,
        {
            if t == *b {
                return Some(n);
            }
            if n == max {
                return None;
            }
            let p = self.doc.prev_screen_line(&t);
            proof {
                assert(prev(t) == p);
            }
            match p {
                Some(u) => {
                    t = u;
                },
                None => {
                    return None;
                },
            }
            n = n + 1;
        }
        None
    }

    /// Focuses the first cursor of the document, with its first line at the
    /// top of the screen.
    pub fn focus_top(&mut self)
        requires
            old(self).spec_doc().spec_top_screen_line_and_cursor() is Some,
        ensures
            *final(self) == old(self).spec_focus_top(),
            (final(self).spec_top_line(), final(self).spec_current_focus()) == old(
                self,
            ).spec_doc().spec_top_screen_line_and_cursor().unwrap(),
            final(self).spec_doc() == old(self).spec_doc(),
            final(self).spec_dimensions() == old(self).spec_dimensions(),
    {
        let (top_screen_line, cursor) = self.doc.top_screen_line_and_cursor().unwrap();
        self.top_line = top_screen_line;
        self.current_focus = cursor;
    }

    /// Focuses the last cursor of the document; the viewport moves down, if
    /// it must, so that the last line is at the bottom of the screen (or the
    /// first line of the document at the top, for a short document).
    pub fn focus_bottom(&mut self)
        requires
            old(self).spec_dimensions().height >= 1,
            old(self).spec_doc().spec_bottom_screen_line_and_cursor() is Some,
        ensures
            *final(self) == old(self).with_top(final(self).spec_top_line()).with_focus(final(self).spec_current_focus()),
            ordered_by_spec::<D::ScreenLine>() ==> *final(self) == old(self).spec_focus_bottom(),
            ({
                let (bottom, cursor) = old(self).spec_doc().spec_bottom_screen_line_and_cursor().unwrap();
                let potential = walk_at_most(
                    old(self).prev_fn(),
                    bottom,
                    (old(self).spec_dimensions().height - 1) as nat,
                );
                &&& final(self).spec_current_focus() == cursor
                &&& (final(self).spec_top_line() == old(self).spec_top_line() || final(self).spec_top_line()
                    == potential)
                &&& ordered_by_spec::<D::ScreenLine>() ==> final(self).spec_top_line() == (if strictly_before(
                    old(self).spec_top_line(),
                    potential,
                ) {
                    potential
                } else {
                    old(self).spec_top_line()
                })
            }),
            final(self).spec_doc() == old(self).spec_doc(),
            final(self).spec_dimensions() == old(self).spec_dimensions(),
    {
        let (bottom_screen_line, cursor) = self.doc.bottom_screen_line_and_cursor().unwrap();
        let potential_top_line = self.n_screen_lines_before_or_top_of_doc(
            bottom_screen_line,
            self.dimensions.height - 1,
        );
        if self.top_line < potential_top_line {
            self.top_line = potential_top_line;
        }
        self.current_focus = cursor;
    }

    /// `self` showing document `d`.
    pub closed spec fn with_doc(self, d: D) -> Self {
        DocumentViewer { doc: d, ..self }
    }

    /// `self` focused on `c`.
    pub closed spec fn with_focus(self, c: D::Cursor) -> Self {
        DocumentViewer { current_focus: c, ..self }
    }

    /// `self` with its top line moved as `spec_visible_top` tells for the
    /// focused content.
    pub open spec fn focus_made_visible(self) -> Self {
        self.with_top(self.spec_visible_top(self.spec_doc().spec_cursor_range(self.spec_current_focus())))
    }

    /// The viewer after the document moved the focus by `m`: where it moved,
    /// the new focus, shown as `spec_visible_top` tells.
    pub open spec fn spec_after_move(self, m: DocMove) -> Self {
        let (d, r) = self.spec_doc().spec_move(m, self.spec_current_focus());
        match r {
            None => self.with_doc(d),
            Some(c) => self.with_doc(d).with_focus(c).focus_made_visible(),
        }
    }

    /// The document and focus after up to `n` moves by `m`, stopping at the
    /// first that does not move.
    pub open spec fn spec_moves(d: D, c: D::Cursor, m: DocMove, n: nat) -> (D, D::Cursor)
        decreases n,
    {
        if n == 0 {
            (d, c)
        } else {
            let (d2, r) = d.spec_move(m, c);
            match r {
                None => (d2, c),
                Some(c2) => Self::spec_moves(d2, c2, m, (n - 1) as nat),
            }
        }
    }

    /// The viewer after up to `n` moves by `m`, the last focus shown.
    pub open spec fn spec_after_moves(self, m: DocMove, n: nat) -> Self {
        let (d, c) = Self::spec_moves(self.spec_doc(), self.spec_current_focus(), m, n);
        self.with_doc(d).with_focus(c).focus_made_visible()
    }

    /// Has the document move the focus by `m`.
    fn doc_move(&mut self, m: DocMove) -> (r: Option<D::Cursor>)
        ensures
            (final(self).spec_doc(), r) == old(self).spec_doc().spec_move(m, old(self).spec_current_focus()),
            *final(self) == old(self).with_doc(final(self).spec_doc()),
    {
        match m {
            DocMove::Down(n) => self.doc.move_cursor_down(n, &self.current_focus),
            DocMove::Up(n) => self.doc.move_cursor_up(n, &self.current_focus),
            DocMove::ExpandOrRightOrDown => self.doc.expand_or_move_cursor_right_or_down(&self.current_focus),
            DocMove::CollapseOrLeftOrUp => self.doc.collapse_or_move_cursor_left_or_up(&self.current_focus),
            DocMove::LeftOrUpWithoutCollapsing => self.doc.move_cursor_left_or_up_without_collapsing(&self.current_focus),
            DocMove::FirstSibling => self.doc.move_cursor_to_first_sibling(&self.current_focus),
            DocMove::LastSibling => self.doc.move_cursor_to_last_sibling(&self.current_focus),
            DocMove::NextSiblingOrDown => self.doc.move_cursor_to_next_sibling_or_down(&self.current_focus),
            DocMove::PrevSiblingOrUp => self.doc.move_cursor_to_prev_sibling_or_up(&self.current_focus),
            DocMove::NextIndentationChange => self.doc.move_cursor_to_next_indentation_change(&self.current_focus),
            DocMove::PrevIndentationChange => self.doc.move_cursor_to_prev_indentation_change(&self.current_focus),
            DocMove::CollapseNodeAndSiblings(depth) => self.doc.collapse_node_and_siblings(&self.current_focus, depth),
            DocMove::ExpandNodeAndSiblings(depth) => self.doc.expand_node_and_siblings(&self.current_focus, depth),
        }
    }

    /// Shows the focused content, as `spec_visible_top` tells.
    fn update_so_current_focus_is_visible(&mut self)
        requires
            old(self).spec_dimensions().height >= 1,
        ensures
            lines_by_spec::<D::ScreenLine>() ==> *final(self) == old(self).focus_made_visible(),
            Self::only_top_moved(*old(self), *final(self)),
    {
        let cursor_range = self.doc.cursor_range(&self.current_focus);
        self.update_so_content_range_is_visible(cursor_range);
    }

    /// Moves the focus by `m` where the document can, and shows it.
    fn move_and_show(&mut self, m: DocMove)
        requires
            old(self).spec_dimensions().height >= 1,
        ensures
            lines_by_spec::<D::ScreenLine>() ==> *final(self) == old(self).spec_after_move(m),
            final(self).spec_doc() == old(self).spec_doc().spec_move(m, old(self).spec_current_focus()).0,
            final(self).spec_current_focus() == match old(self).spec_doc().spec_move(
                m,
                old(self).spec_current_focus(),
            ).1 {
                Some(c) => c,
                None => old(self).spec_current_focus(),
            },
            Self::only_top_and_focus_moved(old(self).with_doc(final(self).spec_doc()), *final(self)),
    {
        if let Some(new_cursor) = self.doc_move(m) {
            self.current_focus = new_cursor;
            self.update_so_current_focus_is_visible();
        }
    }

    /// Moves the focus by `m` up to `n` times, stopping where it no longer
    /// moves, then shows it.
    fn move_n_times_and_show(&mut self, n: usize, m: DocMove)
        requires
            old(self).spec_dimensions().height >= 1,
        ensures
            lines_by_spec::<D::ScreenLine>() ==> *final(self) == old(self).spec_after_moves(m, n as nat),
            (final(self).spec_doc(), final(self).spec_current_focus()) == Self::spec_moves(
                old(self).spec_doc(),
                old(self).spec_current_focus(),
                m,
                n as nat,
            ),
            Self::only_top_and_focus_moved(old(self).with_doc(final(self).spec_doc()), *final(self)),
    {
        let ghost start = *self;
        let ghost target = Self::spec_moves(start.spec_doc(), start.spec_current_focus(), m, n as nat);
        let mut k = n;
        let mut done = false;
        while k > 0 && !done
            invariant
                self.spec_dimensions().height >= 1,
                !done ==> Self::spec_moves(self.spec_doc(), self.spec_current_focus(), m, k as nat) == target,
                done ==> (self.spec_doc(), self.spec_current_focus()) == target,
                k == 0 ==> (self.spec_doc(), self.spec_current_focus()) == target,
                *self == start.with_doc(self.spec_doc()).with_focus(self.spec_current_focus()),
            decreases k,
        {
            match self.doc_move(m) {
                None => {
                    done = true;
                },
                Some(c) => {
                    self.current_focus = c;
                },
            }
            k = k - 1;
        }
        self.update_so_current_focus_is_visible();
    }

    /// Where screen line `sl` shows, walking down from `cur`, the line at
    /// screen index `i`: at the first index where it is met, below the
    /// bottom where it is not met by the last row or the document ends.
    pub open spec fn spec_position_from(self, sl: D::ScreenLine, cur: D::ScreenLine, i: int) -> PositionOfScreenLine
        decreases self.spec_dimensions().height - i,
    {
        if i >= self.spec_dimensions().height || i < 0 {
            PositionOfScreenLine::BelowBottomLine
        } else if sl.eq_spec(&cur) {
            PositionOfScreenLine::AtScreenIndex(i as usize)
        } else {
            match self.next_fn()(cur) {
                None => PositionOfScreenLine::BelowBottomLine,
                Some(n) => self.spec_position_from(sl, n, i + 1),
            }
        }
    }

    /// Where screen line `sl` shows: above the top line, at a screen
    /// index, or below the bottom (also for a line the document does not
    /// reach).
    pub open spec fn spec_position_of_screen_line(self, sl: D::ScreenLine) -> PositionOfScreenLine {
        if strictly_before(sl, self.spec_top_line()) {
            PositionOfScreenLine::AboveTopLine
        } else {
            self.spec_position_from(sl, self.spec_top_line(), 0)
        }
    }

    /// Where content shows, from the positions of its first and last lines;
    /// content that lies wholly above or below the viewport, or whose end
    /// comes before its start, counts as covering it.
    pub open spec fn spec_position_of_content(self, r: ContentRange<D::ScreenLine>) -> PositionOfContentInViewport {
        match (self.spec_position_of_screen_line(r.start), self.spec_position_of_screen_line(r.end)) {
            (PositionOfScreenLine::AboveTopLine, PositionOfScreenLine::AtScreenIndex(e)) => {
                PositionOfContentInViewport::StartsAbove { end_index: e }
            },
            (PositionOfScreenLine::AtScreenIndex(s), PositionOfScreenLine::AtScreenIndex(e)) => {
                PositionOfContentInViewport::EntirelyWithin { start_index: s, end_index: e }
            },
            (PositionOfScreenLine::AtScreenIndex(s), PositionOfScreenLine::BelowBottomLine) => {
                PositionOfContentInViewport::EndsBelow { start_index: s }
            },
            _ => PositionOfContentInViewport::StartsAboveAndEndsBelow,
        }
    }

    /// Where `screen_line` shows in the viewport.
    fn position_of_screen_line(&self, screen_line: &D::ScreenLine) -> (p: PositionOfScreenLine)
        ensures
            lines_by_spec::<D::ScreenLine>() ==> p == self.spec_position_of_screen_line(*screen_line),
            p matches PositionOfScreenLine::AtScreenIndex(i) ==> i < self.spec_dimensions().height,
    {
        if *screen_line < self.top_line {
            return PositionOfScreenLine::AboveTopLine;
        }
        if self.dimensions.height == 0 {
            return PositionOfScreenLine::BelowBottomLine;
        }
        if *screen_line == self.top_line {
            return PositionOfScreenLine::AtScreenIndex(0);
        }
        let ghost sl = *screen_line;
        let first = self.doc.next_screen_line(&self.top_line);
        proof {
            assert(self.next_fn()(self.top_line) == first);
        }
        let mut cur = match first {
            None => {
                return PositionOfScreenLine::BelowBottomLine;
            },
            Some(c) => c,
        };
        let mut index: usize = 1;
        while index < self.dimensions.height
            invariant
                1 <= index <= self.spec_dimensions().height,
                lines_by_spec::<D::ScreenLine>() ==> self.spec_position_of_screen_line(sl) == self.spec_position_from(
                    sl,
                    cur,
                    index as int,
                ),
                sl == *screen_line,
            decreases self.spec_dimensions().height - index,
        {
            if *screen_line == cur {
                return PositionOfScreenLine::AtScreenIndex(index);
            }
            let n = self.doc.next_screen_line(&cur);
            proof {
                assert(self.next_fn()(cur) == n);
            }
            cur = match n {
                None => {
                    return PositionOfScreenLine::BelowBottomLine;
                },
                Some(c) => c,
            };
            index = index + 1;
        }
        PositionOfScreenLine::BelowBottomLine
    }

    /// Where `content_range` shows in the viewport.
    fn position_of_content_in_viewport(&self, content_range: &ContentRange<D::ScreenLine>) -> (p: PositionOfContentInViewport)
        ensures
            lines_by_spec::<D::ScreenLine>() ==> p == self.spec_position_of_content(*content_range),
            p matches PositionOfContentInViewport::StartsAbove { end_index } ==> end_index < self.spec_dimensions().height,
            p matches PositionOfContentInViewport::EndsBelow { start_index } ==> start_index < self.spec_dimensions().height,
            p matches PositionOfContentInViewport::EntirelyWithin { start_index, end_index } ==> start_index
                < self.spec_dimensions().height && end_index < self.spec_dimensions().height,
    {
        let start_position = self.position_of_screen_line(&content_range.start);
        let end_position = self.position_of_screen_line(&content_range.end);
        match (start_position, end_position) {
            (PositionOfScreenLine::AboveTopLine, PositionOfScreenLine::AtScreenIndex(end_index)) => {
                PositionOfContentInViewport::StartsAbove { end_index }
            },
            (PositionOfScreenLine::AtScreenIndex(start_index), PositionOfScreenLine::AtScreenIndex(end_index)) => {
                PositionOfContentInViewport::EntirelyWithin { start_index, end_index }
            },
            (PositionOfScreenLine::AtScreenIndex(start_index), PositionOfScreenLine::BelowBottomLine) => {
                PositionOfContentInViewport::EndsBelow { start_index }
            },
            _ => PositionOfContentInViewport::StartsAboveAndEndsBelow,
        }
    }

    /// `self` with `jump` as the jump distance kept.
    pub closed spec fn with_jump_distance(self, jump: Option<usize>) -> Self {
        DocumentViewer { jump_distance: jump, ..self }
    }

    /// How many lines a jump moves: the count given, else the one kept, else
    /// half the screen (at least one).
    pub open spec fn spec_jump_lines(self, n: Option<usize>) -> usize {
        match n {
            Some(k) => k,
            None => match self.spec_jump_distance() {
                Some(k) => k,
                None => max_int((self.spec_dimensions().height / 2) as int, 1) as usize,
            },
        }
    }

    /// How many lines a jump moves, keeping a count given for the next jumps.
    fn calculate_and_maybe_save_num_screen_lines_to_jump(&mut self, num_screen_lines: Option<usize>) -> (n: usize)
        ensures
            n == old(self).spec_jump_lines(num_screen_lines),
            *final(self) == (match num_screen_lines {
                Some(k) => old(self).with_jump_distance(Some(k)),
                None => *old(self),
            }),
    {
        if let Some(n) = num_screen_lines {
            self.jump_distance = Some(n);
            return n;
        }
        if let Some(n) = self.jump_distance {
            return n;
        }
        let half = self.dimensions.height / 2;
        if half > 1 {
            half
        } else {
            1
        }
    }

    /// The focus moved to the line at screen index `i`: converted from that
    /// line, or the last cursor of the document where it ends sooner.
    pub open spec fn spec_focus_at_index(self, i: int) -> D::Cursor {
        match lines_below(self.next_fn(), self.spec_top_line(), i as nat) {
            Some(sl) => self.spec_doc().spec_convert_screen_line_to_cursor(sl, self.spec_current_focus()),
            None => match self.spec_doc().spec_bottom_screen_line_and_cursor() {
                Some((_, c)) => c,
                None => self.spec_current_focus(),
            },
        }
    }

    /// The screen line at screen index `i`, if the document reaches it.
    fn screen_line_at_screen_index(&self, i: usize) -> (r: Option<D::ScreenLine>)
        ensures
            i > 0 ==> r == lines_below(self.next_fn(), self.spec_top_line(), i as nat),
            i == 0 ==> (r matches Some(t) && cloned(self.spec_top_line(), t)),
    {
        if i == 0 {
            return Some(self.top_line.clone());
        }
        let ghost next = self.next_fn();
        let first = self.doc.next_screen_line(&self.top_line);
        proof {
            assert(next(self.top_line) == first);
        }
        let mut cur = match first {
            Some(l) => l,
            None => {
                return None;
            },
        };
        let mut remaining = i - 1;
        while remaining > 0
            invariant
                next == self.next_fn(),
                lines_below(next, cur, remaining as nat) == lines_below(next, self.spec_top_line(), i as nat),
            decreases remaining,
        {
            let n = self.doc.next_screen_line(&cur);
            proof {
                assert(next(cur) == n);
            }
            match n {
                Some(l) => {
                    cur = l;
                },
                None => {
                    return None;
                },
            }
            remaining = remaining - 1;
        }
        Some(cur)
    }

    /// Moves the focus to the line at screen index `i`, or to the last
    /// cursor where the document ends before it.
    fn move_focus_to_screen_index_or_eof(&mut self, i: usize)
        ensures
            clone_is_exact::<D::ScreenLine>() ==> *final(self) == old(self).with_focus(old(self).spec_focus_at_index(i as int)),
            Self::only_top_and_focus_moved(*old(self), *final(self)),
            final(self).spec_top_line() == old(self).spec_top_line(),
    {
        match self.screen_line_at_screen_index(i) {
            None => {
                if let Some((_, c)) = self.doc.bottom_screen_line_and_cursor() {
                    self.current_focus = c;
                }
            },
            Some(sl) => {
                self.current_focus = self.doc.convert_screen_line_to_cursor(sl, &self.current_focus);
            },
        }
    }

    /// The screen index a downward jump keeps the focus at.
    pub open spec fn spec_jump_down_index(self) -> int {
        match self.spec_position_of_content(self.spec_doc().spec_cursor_range(self.spec_current_focus())) {
            PositionOfContentInViewport::StartsAbove { end_index } => end_index as int,
            PositionOfContentInViewport::EndsBelow { start_index } => start_index as int,
            PositionOfContentInViewport::StartsAboveAndEndsBelow => (self.spec_dimensions().height / 2) as int,
            PositionOfContentInViewport::EntirelyWithin { end_index, .. } => end_index as int,
        }
    }

    /// The screen index an upward jump keeps the focus at.
    pub open spec fn spec_jump_up_index(self) -> int {
        match self.spec_position_of_content(self.spec_doc().spec_cursor_range(self.spec_current_focus())) {
            PositionOfContentInViewport::StartsAbove { end_index } => end_index as int,
            PositionOfContentInViewport::EndsBelow { start_index } => start_index as int,
            PositionOfContentInViewport::StartsAboveAndEndsBelow => (self.spec_dimensions().height / 2) as int,
            PositionOfContentInViewport::EntirelyWithin { start_index, .. } => start_index as int,
        }
    }

    /// The viewer after a jump down by `n` lines (or the kept or default
    /// count): where the last line of the document is not on screen, the
    /// viewport moves down that many lines (not past the end) and the focus
    /// keeps its screen index; else the focus moves down that many lines on
    /// screen (at most to the last row).
    pub open spec fn spec_jump_down(self, n: Option<usize>) -> Self {
        let h = self.spec_dimensions().height;
        let fi = self.spec_jump_down_index();
        let lines = self.spec_jump_lines(n);
        let v = match n {
            Some(k) => self.with_jump_distance(Some(k)),
            None => self,
        };
        match lines_below(self.next_fn(), self.spec_top_line(), (h - 1) as nat) {
            Some(last) if self.next_fn()(last) is Some => {
                let new_last = walk_at_most(self.next_fn(), last, lines as nat);
                let w = v.with_top(walk_at_most(self.prev_fn(), new_last, (h - 1) as nat));
                w.with_focus(w.spec_focus_at_index(fi))
            },
            _ => v.with_focus(v.spec_focus_at_index(min_int(fi + lines, h - 1))),
        }
    }

    /// The viewer after a jump up by `n` lines (or the kept or default
    /// count): the viewport moves up that many lines (not past the start)
    /// and the focus keeps its screen index; at the start of the document
    /// the focus moves up that many lines on screen instead.
    pub open spec fn spec_jump_up(self, n: Option<usize>) -> Self {
        let fi = self.spec_jump_up_index();
        let lines = self.spec_jump_lines(n);
        let v = match n {
            Some(k) => self.with_jump_distance(Some(k)),
            None => self,
        };
        if steps_at_most(self.prev_fn(), self.spec_top_line(), lines as nat) == 0 {
            v.with_focus(v.spec_focus_at_index(if fi > lines { fi - lines } else { 0 }))
        } else {
            let w = v.with_top(walk_at_most(self.prev_fn(), self.spec_top_line(), lines as nat));
            w.with_focus(w.spec_focus_at_index(fi))
        }
    }

    /// Jumps down, as `spec_jump_down` tells.
    pub fn jump_down(&mut self, num_screen_lines: Option<usize>)
        requires
            old(self).spec_dimensions().height >= 1,
        ensures
            *final(self) == old(self).with_top(final(self).spec_top_line()).with_focus(final(self).spec_current_focus()).with_jump_distance(final(self).spec_jump_distance()),
            lines_by_spec::<D::ScreenLine>() ==> *final(self) == old(self).spec_jump_down(num_screen_lines),
    {
        let cursor_range = self.doc.cursor_range(&self.current_focus);
        let focus_index = match self.position_of_content_in_viewport(&cursor_range) {
            PositionOfContentInViewport::StartsAbove { end_index } => end_index,
            PositionOfContentInViewport::EndsBelow { start_index } => start_index,
            PositionOfContentInViewport::StartsAboveAndEndsBelow => self.dimensions.height / 2,
            PositionOfContentInViewport::EntirelyWithin { end_index, .. } => end_index,
        };
        let ghost old_self = *self;
        let lines_to_move = self.calculate_and_maybe_save_num_screen_lines_to_jump(num_screen_lines);
        let height = self.dimensions.height;
        let last_screen_line = self.screen_line_at_screen_index(height - 1);
        let not_last_in_doc = match last_screen_line {
            None => None,
            Some(l) => {
                let n = self.doc.next_screen_line(&l);
                proof {
                    assert(self.next_fn()(l) == n);
                }
                if n.is_some() {
                    Some(l)
                } else {
                    None
                }
            },
        };
        match not_last_in_doc {
            Some(last) => {
                let new_last = self.n_screen_lines_after_or_bottom_of_doc(last, lines_to_move);
                self.top_line = self.n_screen_lines_before_or_top_of_doc(new_last, height - 1);
                self.move_focus_to_screen_index_or_eof(focus_index);
            },
            None => {
                let target = if lines_to_move >= height - 1 - focus_index {
                    height - 1
                } else {
                    focus_index + lines_to_move
                };
                self.move_focus_to_screen_index_or_eof(target);
            },
        }
    }

    /// Jumps up, as `spec_jump_up` tells.
    pub fn jump_up(&mut self, num_screen_lines: Option<usize>)
        requires
            old(self).spec_dimensions().height >= 1,
        ensures
            *final(self) == old(self).with_top(final(self).spec_top_line()).with_focus(final(self).spec_current_focus()).with_jump_distance(final(self).spec_jump_distance()),
            lines_by_spec::<D::ScreenLine>() ==> *final(self) == old(self).spec_jump_up(num_screen_lines),
    {
        let cursor_range = self.doc.cursor_range(&self.current_focus);
        let focus_index = match self.position_of_content_in_viewport(&cursor_range) {
            PositionOfContentInViewport::StartsAbove { end_index } => end_index,
            PositionOfContentInViewport::EndsBelow { start_index } => start_index,
            PositionOfContentInViewport::StartsAboveAndEndsBelow => self.dimensions.height / 2,
            PositionOfContentInViewport::EntirelyWithin { start_index, .. } => start_index,
        };
        let lines_to_move = self.calculate_and_maybe_save_num_screen_lines_to_jump(num_screen_lines);
        let first = if lines_to_move == 0 {
            None
        } else {
            self.doc.prev_screen_line(&self.top_line)
        };
        proof {
            assert(lines_to_move > 0 ==> self.prev_fn()(self.top_line) == first);
        }
        match first {
            None => {
                let target = if focus_index > lines_to_move {
                    focus_index - lines_to_move
                } else {
                    0
                };
                self.move_focus_to_screen_index_or_eof(target);
            },
            Some(line) => {
                self.top_line = self.n_screen_lines_before_or_top_of_doc(line, lines_to_move - 1);
                self.move_focus_to_screen_index_or_eof(focus_index);
            },
        }
    }

    /// The viewer after a move by `m` that may expand or collapse nodes,
    /// which makes every earlier screen line stale: where the focus moved,
    /// it is shown; where it stayed, the start of its content keeps its
    /// place relative to the top of the screen (as far as the document
    /// allows), and it is then shown.
    pub open spec fn spec_keep_start(self, m: DocMove) -> Self {
        let r0 = self.spec_doc().spec_cursor_range(self.spec_current_focus());
        let (n, before) = match self.spec_position_of_content(r0) {
            PositionOfContentInViewport::EntirelyWithin { start_index, .. } => (start_index as nat, true),
            PositionOfContentInViewport::EndsBelow { start_index } => (start_index as nat, true),
            _ => (
                match lines_up_to(self.prev_fn(), self.spec_top_line(), r0.start, usize::MAX as nat) {
                    Some(k) => k,
                    None => 0,
                },
                false,
            ),
        };
        let (d, r) = self.spec_doc().spec_move(m, self.spec_current_focus());
        match r {
            None => self.with_doc(d),
            Some(c) => if !c.eq_spec(&self.spec_current_focus()) {
                self.with_doc(d).with_focus(c).focus_made_visible()
            } else {
                let v = self.with_doc(d);
                let start = d.spec_cursor_range(self.spec_current_focus()).start;
                let t = if before {
                    walk_at_most(v.prev_fn(), start, n)
                } else {
                    walk_at_most(v.next_fn(), start, n)
                };
                v.with_top(t).focus_made_visible()
            },
        }
    }

    /// Moves by `m`, which may expand or collapse nodes, as
    /// `spec_keep_start` tells.
    fn keep_start_of_current_focus_in_same_spot(&mut self, m: DocMove)
        requires
            old(self).spec_dimensions().height >= 1,
        ensures
            lines_by_spec::<D::ScreenLine>() && <D::Cursor as PartialEqSpec>::obeys_eq_spec() ==> *final(self)
                == old(self).spec_keep_start(m),
            Self::only_top_and_focus_moved(old(self).with_doc(final(self).spec_doc()), *final(self)),
            final(self).spec_doc() == old(self).spec_doc().spec_move(m, old(self).spec_current_focus()).0,
    {
        let old_cursor_range = self.doc.cursor_range(&self.current_focus);
        let position = self.position_of_content_in_viewport(&old_cursor_range);
        let (n, before) = match position {
            PositionOfContentInViewport::EntirelyWithin { start_index, .. } => (start_index, true),
            PositionOfContentInViewport::EndsBelow { start_index } => (start_index, true),
            _ => {
                let k = match self.lines_up_within(&self.top_line, &old_cursor_range.start, usize::MAX) {
                    Some(k) => k,
                    None => 0,
                };
                (k, false)
            },
        };
        let new_cursor = match self.doc_move(m) {
            None => {
                return;
            },
            Some(c) => c,
        };
        if new_cursor != self.current_focus {
            self.current_focus = new_cursor;
            self.update_so_current_focus_is_visible();
            return;
        }
        let new_cursor_range = self.doc.cursor_range(&self.current_focus);
        if before {
            self.top_line = self.n_screen_lines_before_or_top_of_doc(new_cursor_range.start, n);
        } else {
            self.top_line = self.n_screen_lines_after_or_bottom_of_doc(new_cursor_range.start, n);
        }
        self.update_so_current_focus_is_visible();
    }

    /// The viewer after focusing the first visible cursor on the line at
    /// `index` or before it, shown.
    pub open spec fn spec_move_to_line_index(self, index: usize) -> Self {
        match self.spec_doc().spec_first_visible_cursor_at_or_before_line_index(index) {
            Some(c) => self.with_focus(c).focus_made_visible(),
            None => self,
        }
    }

    /// Focuses the line at `index` (from 0), or the last before it that
    /// shows, as `spec_move_to_line_index` tells.
    fn move_to_line_index(&mut self, index: usize)
        requires
            old(self).spec_dimensions().height >= 1,
        ensures
            lines_by_spec::<D::ScreenLine>() ==> *final(self) == old(self).spec_move_to_line_index(index),
            Self::only_top_and_focus_moved(*old(self), *final(self)),
    {
        if let Some(new_cursor) = self.doc.first_visible_cursor_at_or_before_line_index(index) {
            self.current_focus = new_cursor;
            self.update_so_current_focus_is_visible();
        }
    }

    /// The search in progress, if any, is well formed.
    pub open spec fn search_wf(self) -> bool {
        self.spec_search_state() matches Some(st) ==> st.wf()
    }

    /// `self` with `st` as its search.
    pub closed spec fn with_search(self, st: Option<SearchState>) -> Self {
        DocumentViewer { search_state: st, ..self }
    }

    /// The screen lines that show the bytes of `range`: from the line of its
    /// first byte to that of its last, and how many lines that is (one where
    /// the last line does not come after the first).
    pub open spec fn spec_visible_content_range(self, range: Range<usize>) -> ContentRange<D::ScreenLine> {
        let start = self.spec_doc().spec_visible_screen_line(range.start);
        let end = self.spec_doc().spec_visible_screen_line(last_byte_index(range));
        let num = match lines_up_to(self.prev_fn(), end, start, (usize::MAX - 1) as nat) {
            Some(k) => (k + 1) as usize,
            None => 1usize,
        };
        ContentRange { start, end, num_screen_lines: num }
    }

    /// The cursor a jump to the match at `m` focuses, and the content to
    /// show: the match itself where its cursor shows, else the visible
    /// cursor (such as a collapsed container) that hides it.
    pub open spec fn spec_match_target(self, m: Range<usize>) -> (D::Cursor, ContentRange<D::ScreenLine>) {
        let mc = self.spec_doc().spec_cursor_at(m.start);
        let cv = self.spec_doc().spec_closest_visible_cursor(mc);
        if mc.eq_spec(&cv) {
            (mc, self.spec_visible_content_range(m))
        } else {
            (cv, self.spec_doc().spec_cursor_range(cv))
        }
    }

    /// The screen lines of the bytes of `range`, as
    /// `spec_visible_content_range` tells.
    fn visible_content_range(&self, range: Range<usize>) -> (r: ContentRange<D::ScreenLine>)
        ensures
            <D::ScreenLine as PartialEqSpec>::obeys_eq_spec() ==> r == self.spec_visible_content_range(range),
    {
        let end_index = if range.end >= 1 && range.end - 1 > range.start {
            range.end - 1
        } else {
            range.start
        };
        let start = self.doc.raw_byte_index_to_visible_screen_line(range.start);
        let end = self.doc.raw_byte_index_to_visible_screen_line(end_index);
        let num_screen_lines = match self.lines_up_within(&end, &start, usize::MAX - 1) {
            Some(k) => k + 1,
            None => 1,
        };
        ContentRange { start, end, num_screen_lines }
    }

    /// The focus and content to show for a jump to the match at `m`.
    fn match_target(&self, m: Range<usize>) -> (r: (D::Cursor, ContentRange<D::ScreenLine>))
        ensures
            <D::ScreenLine as PartialEqSpec>::obeys_eq_spec() && <D::Cursor as PartialEqSpec>::obeys_eq_spec()
                ==> r == self.spec_match_target(m),
    {
        let match_cursor = self.doc.raw_byte_index_to_cursor(m.start);
        let closest_visible_cursor = self.doc.closest_visible_cursor(&match_cursor);
        if match_cursor == closest_visible_cursor {
            let range = self.visible_content_range(m);
            (match_cursor, range)
        } else {
            let range = self.doc.cursor_range(&closest_visible_cursor);
            (closest_visible_cursor, range)
        }
    }

    /// Looks for matches in data that came since the last search.
    fn check_for_more_search_matches(&mut self)
        requires
            old(self).search_wf(),
        ensures
            final(self).search_wf(),
            *final(self) == old(self).with_search(final(self).spec_search_state()),
            old(self).spec_search_state() is None ==> final(self).spec_search_state() is None,
            old(self).spec_search_state() matches Some(a) ==> (final(self).spec_search_state() matches Some(b)
                && b.spec_search_input() == a.spec_search_input() && b.spec_direction() == a.spec_direction()
                && b.spec_should_show_matches() == a.spec_should_show_matches()),
    {
        let mut taken: Option<SearchState> = None;
        std::mem::swap(&mut taken, &mut self.search_state);
        if let Some(mut st) = taken {
            let haystack = self.doc.raw_bytes_for_searching();
            if haystack.len() >= st.searched_len() {
                st.find_additional_matches(haystack);
            }
            self.search_state = Some(st);
        }
    }

    /// The screen lines of the last match jumped to, or of the focus where
    /// there was none: what a scroll to the next match keeps in place.
    pub open spec fn spec_last_match_or_focus_range(self) -> ContentRange<D::ScreenLine> {
        match self.spec_search_state() {
            Some(st) => match st.spec_last_jump() {
                Some(lj) => {
                    let pair = st.spec_matches()[lj.match_jumped_to as int];
                    self.spec_visible_content_range(Range { start: pair.0, end: pair.1 })
                },
                None => self.spec_doc().spec_cursor_range(self.spec_current_focus()),
            },
            None => self.spec_doc().spec_cursor_range(self.spec_current_focus()),
        }
    }

    /// The top line a scroll to the next match by `ScrollViewport` gives:
    /// the match, or the focus before it (`current`), keeps its place on
    /// the screen: the same lines where the sizes agree, else the centres;
    /// where it showed only in part, the end (or start) that showed.
    pub open spec fn spec_scroll_to_match_top(
        self,
        current: ContentRange<D::ScreenLine>,
        target: ContentRange<D::ScreenLine>,
    ) -> D::ScreenLine {
        let center = walk_at_most(
            self.next_fn(),
            target.start,
            (if target.num_screen_lines == 0 { 0 } else { (target.num_screen_lines - 1) / 2 }) as nat,
        );
        let (line, index) = match self.spec_position_of_content(current) {
            PositionOfContentInViewport::EntirelyWithin { start_index, end_index } => {
                if end_index >= start_index && end_index - start_index + 1 == target.num_screen_lines {
                    (target.start, start_index as int)
                } else {
                    (center, start_index + if end_index >= start_index { (end_index - start_index) / 2 } else { 0 })
                }
            },
            PositionOfContentInViewport::StartsAbove { end_index } => (target.end, end_index as int),
            PositionOfContentInViewport::EndsBelow { start_index } => (target.start, start_index as int),
            PositionOfContentInViewport::StartsAboveAndEndsBelow => (
                center,
                (self.spec_dimensions().height / 2) as int,
            ),
        };
        walk_at_most(self.prev_fn(), line, index as nat)
    }

    /// Jumps `jumps` search matches in `jump_direction`, after looking for
    /// matches in data that came since: `MoveCursor` focuses the match (or
    /// the visible cursor that hides it) and shows it as
    /// `update_so_content_range_is_visible` does; `ScrollViewport` focuses
    /// it too but keeps the match on the spot of the last one (or of the
    /// focus), as `spec_scroll_to_match_top` tells. Where no match is left
    /// to jump to, only the new matches are taken in.
    pub fn move_to_search_match(&mut self, movement_method: MovementMethod, jump_direction: JumpDirection, jumps: usize)
        requires
            old(self).spec_dimensions().height >= 1,
            old(self).search_wf(),
            old(self).spec_search_state() is Some,
            0 < jumps < isize::MAX / 2,
        ensures
            Self::same_settings(*old(self), *final(self)),
            final(self).search_wf(),
            final(self).spec_doc() == old(self).spec_doc(),
            final(self).spec_dimensions() == old(self).spec_dimensions(),
            final(self).spec_search_state() matches Some(st) && st.spec_search_input() == old(
                self,
            ).spec_search_state().unwrap().spec_search_input(),
            ({
                let st = final(self).spec_search_state().unwrap();
                0 < st.spec_matches().len() < isize::MAX / 2 ==> ({
                    let lj = st.spec_last_jump().unwrap();
                    let pair = st.spec_matches()[lj.match_jumped_to as int];
                    let m = Range { start: pair.0, end: pair.1 };
                    let pre = old(self).with_search(Some(st));
                    let (focus, range) = pre.spec_match_target(m);
                    &&& st.spec_should_show_matches()
                    &&& st.spec_last_jump() is Some
                    &&& lj.match_jumped_to < st.spec_matches().len()
                    &&& (lines_by_spec::<D::ScreenLine>() && <D::Cursor as PartialEqSpec>::obeys_eq_spec()
                        ==> final(self).spec_current_focus() == focus)
                    &&& (lines_by_spec::<D::ScreenLine>() && <D::Cursor as PartialEqSpec>::obeys_eq_spec()
                        && movement_method is MoveCursor ==> final(self).spec_top_line() == pre.with_focus(
                        focus,
                    ).spec_visible_top(range))
                    &&& (lines_by_spec::<D::ScreenLine>() && <D::Cursor as PartialEqSpec>::obeys_eq_spec()
                        && movement_method is ScrollViewport ==> final(self).spec_top_line()
                        == old(self).spec_scroll_to_match_top(old(self).spec_last_match_or_focus_range(), range))
                })
            }),
    {
        let current_range = match movement_method {
            MovementMethod::MoveCursor => None,
            MovementMethod::ScrollViewport => {
                let last = match &self.search_state {
                    Some(st) => st.last_match_range(),
                    None => None,
                };
                match last {
                    None => Some(self.doc.cursor_range(&self.current_focus)),
                    Some(r) => Some(self.visible_content_range(r)),
                }
            },
        };
        let position = match &current_range {
            None => None,
            Some(current) => Some(self.position_of_content_in_viewport(current)),
        };
        self.check_for_more_search_matches();
        let mut taken: Option<SearchState> = None;
        std::mem::swap(&mut taken, &mut self.search_state);
        let mut st = match taken {
            Some(st) => st,
            None => {
                return;
            },
        };
        let n = st.num_matches();
        if n == 0 || n >= (isize::MAX / 2) as usize {
            self.search_state = Some(st);
            return;
        }
        let doc = &self.doc;
        let current_focus = &self.current_focus;
        let cursor_will_move = |match_range: Range<usize>| -> (b: bool)
            {
                let new_cursor = doc.raw_byte_index_to_visible_cursor(match_range.start);
                new_cursor != *current_focus
            };
        let is_match_visible = |match_range: Range<usize>| -> (b: bool)
            { doc.is_raw_byte_range_visible(match_range) };
        let current_focused_range = self.doc.raw_byte_range_of_cursor(&self.current_focus);
        let match_byte_range = st.jump_to_next_match(
            current_focused_range,
            jump_direction,
            jumps,
            &cursor_will_move,
            &is_match_visible,
        );
        self.search_state = Some(st);
        let (new_focus, content_range) = self.match_target(match_byte_range);
        match current_range {
            None => {
                assert(movement_method is MoveCursor);
                self.current_focus = new_focus;
                self.update_so_content_range_is_visible(content_range);
            },
            Some(current) => {
                let position = match position {
                    Some(p) => p,
                    None => PositionOfContentInViewport::StartsAboveAndEndsBelow,
                };
                let center_offset = if content_range.num_screen_lines == 0 {
                    0
                } else {
                    (content_range.num_screen_lines - 1) / 2
                };
                let (ref_screen_line, at_screen_index) = match position {
                    PositionOfContentInViewport::EntirelyWithin { start_index, end_index } => {
                        if end_index >= start_index && end_index - start_index + 1 == content_range.num_screen_lines {
                            (content_range.start, start_index)
                        } else {
                            let half = if end_index >= start_index { (end_index - start_index) / 2 } else { 0 };
                            let center = self.n_screen_lines_after_or_bottom_of_doc(content_range.start, center_offset);
                            (center, start_index + half)
                        }
                    },
                    PositionOfContentInViewport::StartsAbove { end_index } => (content_range.end, end_index),
                    PositionOfContentInViewport::EndsBelow { start_index } => (content_range.start, start_index),
                    PositionOfContentInViewport::StartsAboveAndEndsBelow => {
                        let center = self.n_screen_lines_after_or_bottom_of_doc(content_range.start, center_offset);
                        (center, self.dimensions.height / 2)
                    },
                };
                self.current_focus = new_focus;
                self.top_line = self.n_screen_lines_before_or_top_of_doc(ref_screen_line, at_screen_index);
                proof {
                    if lines_by_spec::<D::ScreenLine>() && <D::Cursor as PartialEqSpec>::obeys_eq_spec() {
                        assert(self.spec_top_line() == old(self).spec_scroll_to_match_top(current, content_range));
                    }
                }
            },
        }
    }

    /// The viewer after scrolling `lines` lines down (or up): the top line
    /// moved as far as the document allows and, where it moved, the focus
    /// brought back within the scrolloff.
    pub open spec fn spec_scroll(self, down: bool, lines: nat) -> Self {
        let step = if down { self.next_fn() } else { self.prev_fn() };
        if steps_at_most(step, self.spec_top_line(), lines) == 0 {
            self
        } else {
            let v = self.with_top(walk_at_most(step, self.spec_top_line(), lines));
            v.with_focus(v.spec_focus_after_scroll())
        }
    }

    /// The viewer focused on the first cursor of the document, its first
    /// line at the top.
    pub open spec fn spec_focus_top(self) -> Self {
        match self.spec_doc().spec_top_screen_line_and_cursor() {
            Some((l, c)) => self.with_top(l).with_focus(c),
            None => self,
        }
    }

    /// The viewer focused on the last cursor of the document, moved down
    /// where it must so that the last line is at the bottom.
    pub open spec fn spec_focus_bottom(self) -> Self {
        match self.spec_doc().spec_bottom_screen_line_and_cursor() {
            Some((bottom, c)) => {
                let potential = walk_at_most(
                    self.prev_fn(),
                    bottom,
                    (self.spec_dimensions().height - 1) as nat,
                );
                let top = if strictly_before(self.spec_top_line(), potential) {
                    potential
                } else {
                    self.spec_top_line()
                };
                self.with_top(top).with_focus(c)
            },
            None => self,
        }
    }

    /// The viewer can take actions: it has lines unless it is too small to
    /// show content, and its search is well formed.
    pub open spec fn wf(self) -> bool {
        &&& (self.spec_too_small() || self.spec_dimensions().height >= 1)
        &&& self.search_wf()
    }

    /// The top line that puts the focused content in the middle of the
    /// screen (see `move_focused_elem_to_center`).
    pub open spec fn spec_center_top(self) -> D::ScreenLine {
        let range = self.spec_doc().spec_cursor_range(self.spec_current_focus());
        let h = self.spec_dimensions().height;
        if range.num_screen_lines <= h {
            walk_at_most(self.prev_fn(), range.start, ((h - range.num_screen_lines) / 2) as nat)
        } else {
            lines_below(self.next_fn(), range.start, ((range.num_screen_lines - h) / 2) as nat).unwrap()
        }
    }

    /// The viewer after the part of `action` that moves the focus, the
    /// document and the viewport (for every action but a move to a search
    /// match, which the search decides).
    #[verifier::opaque]
    pub open spec fn spec_act(self, action: Action) -> Self {
        let h = self.spec_dimensions().height;
        let range = self.spec_doc().spec_cursor_range(self.spec_current_focus());
        match action {
            Action::NoOp => self,
            Action::MoveCursorDown(n) => self.spec_after_move(DocMove::Down(n)),
            Action::MoveCursorUp(n) => self.spec_after_move(DocMove::Up(n)),
            Action::ExpandOrMoveCursorRightOrDown => self.spec_keep_start(DocMove::ExpandOrRightOrDown),
            Action::CollapseOrMoveCursorLeftOrUp => self.spec_keep_start(DocMove::CollapseOrLeftOrUp),
            Action::MoveCursorLeftOrUpWithoutCollapsing => self.spec_after_move(DocMove::LeftOrUpWithoutCollapsing),
            Action::MoveCursorToFirstSibling => self.spec_after_move(DocMove::FirstSibling),
            Action::MoveCursorToLastSibling => self.spec_after_move(DocMove::LastSibling),
            Action::MoveCursorToNextSiblingOrDown(n) => self.spec_after_moves(DocMove::NextSiblingOrDown, n as nat),
            Action::MoveCursorToPrevSiblingOrUp(n) => self.spec_after_moves(DocMove::PrevSiblingOrUp, n as nat),
            Action::MoveCursorToNextIndentationChange(n) => self.spec_after_moves(
                DocMove::NextIndentationChange,
                n as nat,
            ),
            Action::MoveCursorToPrevIndentationChange(n) => self.spec_after_moves(
                DocMove::PrevIndentationChange,
                n as nat,
            ),
            Action::CollapseNodeAndSiblings(d) => self.spec_keep_start(DocMove::CollapseNodeAndSiblings(d)),
            Action::ExpandNodeAndSiblings(d) => self.spec_keep_start(DocMove::ExpandNodeAndSiblings(d)),
            Action::ScrollViewportDown(n) => self.spec_scroll(true, n as nat),
            Action::ScrollViewportUp(n) => self.spec_scroll(false, n as nat),
            Action::PageDown(n) => self.spec_scroll(true, (h * n) as nat),
            Action::PageUp(n) => self.spec_scroll(false, (h * n) as nat),
            Action::JumpDown(n) => self.spec_jump_down(n),
            Action::JumpUp(n) => self.spec_jump_up(n),
            Action::MoveToSearchMatch(_, _, _) => self,
            Action::FocusTop => self.spec_focus_top(),
            Action::FocusBottom => self.spec_focus_bottom(),
            Action::MoveToLineNumber(n) => self.spec_move_to_line_index((n - 1) as usize),
            Action::MoveFocusedElemToTop => self.with_top(
                walk_at_most(self.prev_fn(), range.start, self.spec_effective_scrolloff() as nat),
            ),
            Action::MoveFocusedElemToCenter => self.with_top(self.spec_center_top()),
            Action::MoveFocusedElemToBottom => self.with_top(
                walk_at_most(self.prev_fn(), range.end, (h - 1 - self.spec_effective_scrolloff()) as nat),
            ),
        }
    }

    /// Paging moves the viewport a screen at a time: paging down (up) `n`
    /// pages leaves the viewer as scrolling down (up) `n` times the screen
    /// height does, and the top line moves on by that many lines, or as far
    /// as the document goes. Scrolling by `n` lines moves the top line by
    /// `n` lines, or as far as the document goes.
    pub proof fn law_paging_scrolls_whole_screens(self, n: usize)
        requires
            self.spec_dimensions().height * n <= usize::MAX,
        ensures
            ({
                let lines = (self.spec_dimensions().height * n) as usize;
                &&& self.spec_act(Action::PageDown(n)) == self.spec_act(Action::ScrollViewportDown(lines))
                &&& self.spec_act(Action::PageUp(n)) == self.spec_act(Action::ScrollViewportUp(lines))
                &&& self.spec_act(Action::PageDown(n)).spec_top_line() == walk_at_most(
                    self.next_fn(),
                    self.spec_top_line(),
                    lines as nat,
                )
                &&& self.spec_act(Action::PageUp(n)).spec_top_line() == walk_at_most(
                    self.prev_fn(),
                    self.spec_top_line(),
                    lines as nat,
                )
                &&& self.spec_act(Action::ScrollViewportDown(n)).spec_top_line() == walk_at_most(
                    self.next_fn(),
                    self.spec_top_line(),
                    n as nat,
                )
                &&& self.spec_act(Action::ScrollViewportUp(n)).spec_top_line() == walk_at_most(
                    self.prev_fn(),
                    self.spec_top_line(),
                    n as nat,
                )
            }),
    {
        let lines = (self.spec_dimensions().height * n) as usize;
        let t = self.spec_top_line();
        assert(self.spec_act(Action::PageDown(n)) == self.spec_scroll(true, lines as nat)) by {
            reveal(DocumentViewer::spec_act);
        }
        assert(self.spec_act(Action::PageUp(n)) == self.spec_scroll(false, lines as nat)) by {
            reveal(DocumentViewer::spec_act);
        }
        assert(self.spec_act(Action::ScrollViewportDown(lines)) == self.spec_scroll(true, lines as nat)) by {
            reveal(DocumentViewer::spec_act);
        }
        assert(self.spec_act(Action::ScrollViewportUp(lines)) == self.spec_scroll(false, lines as nat)) by {
            reveal(DocumentViewer::spec_act);
        }
        assert(self.spec_act(Action::ScrollViewportDown(n)) == self.spec_scroll(true, n as nat)) by {
            reveal(DocumentViewer::spec_act);
        }
        assert(self.spec_act(Action::ScrollViewportUp(n)) == self.spec_scroll(false, n as nat)) by {
            reveal(DocumentViewer::spec_act);
        }
        assert(steps_at_most(self.next_fn(), t, lines as nat) == 0 ==> walk_at_most(self.next_fn(), t, lines as nat) == t);
        assert(steps_at_most(self.prev_fn(), t, lines as nat) == 0 ==> walk_at_most(self.prev_fn(), t, lines as nat) == t);
        assert(steps_at_most(self.next_fn(), t, n as nat) == 0 ==> walk_at_most(self.next_fn(), t, n as nat) == t);
        assert(steps_at_most(self.prev_fn(), t, n as nat) == 0 ==> walk_at_most(self.prev_fn(), t, n as nat) == t);
    }

    /// What `action` asks that the viewer can do, as the original program
    /// only ever asks it: counts of jumps and line numbers that are not
    /// zero, a search to move in, pages that can be counted in lines, a
    /// document with a first and last line, and, to centre content taller
    /// than the screen, the lines below its start.
    pub open spec fn action_ok(self, action: Action) -> bool {
        let range = self.spec_doc().spec_cursor_range(self.spec_current_focus());
        let h = self.spec_dimensions().height;
        match action {
            Action::JumpDown(Some(k)) => k > 0,
            Action::JumpUp(Some(k)) => k > 0,
            Action::MoveToLineNumber(n) => n > 0,
            Action::MoveToSearchMatch(_, _, j) => self.spec_search_state() is Some && 0 < j < isize::MAX / 2,
            Action::PageDown(n) => h * n <= usize::MAX,
            Action::PageUp(n) => h * n <= usize::MAX,
            Action::FocusTop => self.spec_doc().spec_top_screen_line_and_cursor() is Some,
            Action::FocusBottom => self.spec_doc().spec_bottom_screen_line_and_cursor() is Some,
            Action::MoveFocusedElemToCenter => range.num_screen_lines > h ==> lines_below(
                self.next_fn(),
                range.start,
                ((range.num_screen_lines - h) / 2) as nat,
            ) is Some,
            _ => true,
        }
    }

    /// The visible cursor at the last search match jumped to, if any.
    pub open spec fn spec_cursor_at_last_match(self) -> Option<D::Cursor> {
        match self.spec_search_state() {
            Some(st) => match st.spec_last_jump() {
                Some(lj) => Some(self.spec_doc().spec_visible_cursor(st.spec_matches()[lj.match_jumped_to as int].0)),
                None => None,
            },
            None => None,
        }
    }

    fn closest_visible_cursor_to_last_search_match(&self) -> (r: Option<D::Cursor>)
        requires
            self.search_wf(),
        ensures
            r == self.spec_cursor_at_last_match(),
    {
        let m = match &self.search_state {
            Some(st) => st.last_match_range(),
            None => None,
        };
        match m {
            Some(range) => Some(self.doc.raw_byte_index_to_visible_cursor(range.start)),
            None => None,
        }
    }

    /// `a` and `b` agree on everything but the document, the viewport, the
    /// focus and the jump distance.
    pub closed spec fn same_settings(a: Self, b: Self) -> bool {
        &&& b.dimensions == a.dimensions
        &&& b.dimensions_are_too_small_to_show_content == a.dimensions_are_too_small_to_show_content
        &&& b.scrolloff_setting == a.scrolloff_setting
        &&& b.tailing_end_of_document == a.tailing_end_of_document
        &&& b.last_render_drew_empty_lines_after_end_of_doc == a.last_render_drew_empty_lines_after_end_of_doc
    }

    /// The part of `do_action` that the action itself does.
    #[verifier::spinoff_prover]
    #[verifier::rlimit(60)]
    fn act(&mut self, action: Action)
        requires
            old(self).wf(),
            !old(self).spec_too_small(),
            old(self).action_ok(action),
        ensures
            final(self).search_wf(),
            Self::same_settings(*old(self), *final(self)),
            !(action is MoveToSearchMatch) ==> final(self).spec_search_state() == old(self).spec_search_state(),
            !(action is MoveToSearchMatch) && lines_by_spec::<D::ScreenLine>() && <D::Cursor as PartialEqSpec>::obeys_eq_spec()
                ==> *final(self) == old(self).spec_act(action),
    {
        proof {
            reveal(DocumentViewer::spec_act);
        }
        match action {
            Action::NoOp => {},
            Action::MoveCursorDown(n) => self.move_and_show(DocMove::Down(n)),
            Action::MoveCursorUp(n) => self.move_and_show(DocMove::Up(n)),
            Action::ExpandOrMoveCursorRightOrDown => self.keep_start_of_current_focus_in_same_spot(
                DocMove::ExpandOrRightOrDown,
            ),
            Action::CollapseOrMoveCursorLeftOrUp => self.keep_start_of_current_focus_in_same_spot(
                DocMove::CollapseOrLeftOrUp,
            ),
            Action::MoveCursorLeftOrUpWithoutCollapsing => self.move_and_show(DocMove::LeftOrUpWithoutCollapsing),
            Action::MoveCursorToFirstSibling => self.move_and_show(DocMove::FirstSibling),
            Action::MoveCursorToLastSibling => self.move_and_show(DocMove::LastSibling),
            Action::MoveCursorToNextSiblingOrDown(n) => self.move_n_times_and_show(n, DocMove::NextSiblingOrDown),
            Action::MoveCursorToPrevSiblingOrUp(n) => self.move_n_times_and_show(n, DocMove::PrevSiblingOrUp),
            Action::MoveCursorToNextIndentationChange(n) => self.move_n_times_and_show(
                n,
                DocMove::NextIndentationChange,
            ),
            Action::MoveCursorToPrevIndentationChange(n) => self.move_n_times_and_show(
                n,
                DocMove::PrevIndentationChange,
            ),
            Action::CollapseNodeAndSiblings(depth) => self.keep_start_of_current_focus_in_same_spot(
                DocMove::CollapseNodeAndSiblings(depth),
            ),
            Action::ExpandNodeAndSiblings(depth) => self.keep_start_of_current_focus_in_same_spot(
                DocMove::ExpandNodeAndSiblings(depth),
            ),
            Action::ScrollViewportDown(n) => self.scroll_viewport_down(n),
            Action::ScrollViewportUp(n) => self.scroll_viewport_up(n),
            Action::PageDown(n) => self.page_down(n),
            Action::PageUp(n) => self.page_up(n),
            Action::JumpDown(n) => self.jump_down(n),
            Action::JumpUp(n) => self.jump_up(n),
            Action::MoveToSearchMatch(movement_method, jump_direction, n) => {
                self.move_to_search_match(movement_method, jump_direction, n);
            },
            Action::FocusTop => self.focus_top(),
            Action::FocusBottom => self.focus_bottom(),
            Action::MoveToLineNumber(n) => self.move_to_line_index(n - 1),
            Action::MoveFocusedElemToTop => self.move_focused_elem_to_top(),
            Action::MoveFocusedElemToCenter => self.move_focused_elem_to_center(),
            Action::MoveFocusedElemToBottom => self.move_focused_elem_to_bottom(),
        }
    }

    /// Does what `action` asks: moves the focus, expands or collapses
    /// nodes, scrolls, jumps, or moves to a search match (nothing where the
    /// screen is too small to show content). Then a move that left the
    /// focus elsewhere, or that moved it on purpose, makes the document
    /// forget the depth kept for sibling moves (unless it was such a move);
    /// a move of the focus other than a jump to a match stops the search,
    /// and one that leaves the focus but changes which cursor the last match
    /// shows in forgets the last jump; focusing the bottom starts following
    /// the end of the document, and moving the focus stops it.
    #[verifier::spinoff_prover]
    #[verifier::rlimit(60)]
    pub fn do_action(&mut self, action: Action)
        requires
            old(self).wf(),
            !old(self).spec_too_small() ==> old(self).action_ok(action),
        ensures
            final(self).wf(),
            old(self).spec_too_small() ==> *final(self) == *old(self),
            !old(self).spec_too_small() && !(action is MoveToSearchMatch) && lines_by_spec::<D::ScreenLine>()
                && <D::Cursor as PartialEqSpec>::obeys_eq_spec() && clone_is_exact::<D::Cursor>() ==> ({
                let a = old(self).spec_act(action);
                &&& final(self).spec_top_line() == a.spec_top_line()
                &&& final(self).spec_current_focus() == a.spec_current_focus()
                &&& final(self).spec_jump_distance() == a.spec_jump_distance()
                &&& final(self).spec_dimensions() == a.spec_dimensions()
                &&& final(self).spec_doc() == (if !(action is MoveCursorToNextSiblingOrDown
                    || action is MoveCursorToPrevSiblingOrUp) && (
                !old(self).spec_current_focus().eq_spec(&a.spec_current_focus())
                    || action.spec_is_intentionally_moving_cursor()) {
                    a.spec_doc().spec_cleared_sibling_nav_state()
                } else {
                    a.spec_doc()
                })
            }),
            !old(self).spec_too_small() && <D::Cursor as PartialEqSpec>::obeys_eq_spec() && clone_is_exact::<
                D::Cursor,
            >() ==> final(self).spec_tailing_end_of_document() == (action is FocusBottom || (old(
                self,
            ).spec_tailing_end_of_document() && old(self).spec_current_focus().eq_spec(
                &final(self).spec_current_focus(),
            ))),
            !old(self).spec_too_small() && !(action is MoveToSearchMatch) && <D::Cursor as PartialEqSpec>::obeys_eq_spec()
                && clone_is_exact::<D::Cursor>() && !old(self).spec_current_focus().eq_spec(
                &final(self).spec_current_focus(),
            ) ==> (final(self).spec_search_state() matches Some(st) ==> st.spec_last_jump() is None
                && !st.spec_should_show_matches()),
    {
        if self.dimensions_are_too_small_to_show_content {
            return;
        }
        let prev_cursor = self.current_focus.clone();
        assert(cloned(self.current_focus, prev_cursor));
        let prev_closest = self.closest_visible_cursor_to_last_search_match();
        let intentionally_moving_cursor = action.is_intentionally_moving_cursor();
        let moving_to_adjacent_sibling = action.is_moving_to_adjacent_sibling();
        let jumped_to_search_match = action.is_move_to_search_match();
        let focused_bottom = action.is_focus_bottom();
        self.act(action);
        let ghost acted = *self;
        let cursor_moved = prev_cursor != self.current_focus;
        if !moving_to_adjacent_sibling {
            if cursor_moved || intentionally_moving_cursor {
                self.doc.clear_adjacent_sibling_nav_state();
            }
        }
        let new_closest = self.closest_visible_cursor_to_last_search_match();
        let closest_changed = match (&prev_closest, &new_closest) {
            (None, None) => false,
            (Some(a), Some(b)) => *a != *b,
            _ => true,
        };
        let mut taken: Option<SearchState> = None;
        std::mem::swap(&mut taken, &mut self.search_state);
        if let Some(mut st) = taken {
            if !jumped_to_search_match {
                if cursor_moved {
                    st.stop_searching();
                } else if closest_changed {
                    st.clear_last_jump_but_keep_showing_matches();
                }
            }
            self.search_state = Some(st);
        }
        if focused_bottom {
            self.tailing_end_of_document = true;
        } else if cursor_moved {
            self.tailing_end_of_document = false;
        }
    }

    /// Starts a search for `input` over the document's text, in
    /// `direction`: an empty input is refused; an input that makes no
    /// pattern gives that error; else the search replaces any before it.
    pub fn initialize_search(&mut self, input: String, direction: SearchDirection) -> (r: Result<(), String>)
        requires
            old(self).search_wf(),
        ensures
            final(self).search_wf(),
            input@.len() == 0 ==> (r matches Err(e) && e@ == "Cannot initialize search with empty string"@)
                && *final(self) == *old(self),
            input@.len() > 0 && r is Err ==> *final(self) == *old(self),
            r is Ok ==> (final(self).spec_search_state() matches Some(st) && st.spec_search_input() == input@
                && st.spec_direction() == direction && st.spec_last_jump() is None
                && !st.spec_should_show_matches()),
            *final(self) == old(self).with_search(final(self).spec_search_state()),
    {
        if input.as_str().unicode_len() == 0 {
            return Err("Cannot initialize search with empty string".to_string());
        }
        let haystack = self.doc.raw_bytes_for_searching();
        let st = SearchState::new(input, haystack, direction, D::inverted_paired_delimiters_for_search_input());
        match st {
            Ok(st) => {
                self.search_state = Some(st);
                Ok(())
            },
            Err(e) => Err(e),
        }
    }

    /// Sets the direction of the search in progress, if any.
    pub fn set_search_direction(&mut self, direction: SearchDirection)
        requires
            old(self).search_wf(),
        ensures
            final(self).search_wf(),
            *final(self) == old(self).with_search(final(self).spec_search_state()),
            old(self).spec_search_state() is None ==> final(self).spec_search_state() is None,
            old(self).spec_search_state() matches Some(a) ==> (final(self).spec_search_state() matches Some(b)
                && b.spec_direction() == direction && b.spec_matches() == a.spec_matches()
                && b.spec_last_jump() == a.spec_last_jump() && b.spec_search_input() == a.spec_search_input()
                && b.spec_should_show_matches() == a.spec_should_show_matches()),
    {
        let mut taken: Option<SearchState> = None;
        std::mem::swap(&mut taken, &mut self.search_state);
        if let Some(mut st) = taken {
            st.set_search_direction(direction);
            self.search_state = Some(st);
        }
    }

    /// The search matches a rendering highlights: those of a search whose
    /// matches show.
    pub open spec fn spec_shown_matches(self) -> Seq<Range<usize>> {
        match self.spec_search_state() {
            Some(st) => if st.spec_should_show_matches() {
                st.spec_matches().map_values(|p: (usize, usize)| Range { start: p.0, end: p.1 })
            } else {
                Seq::empty()
            },
            None => Seq::empty(),
        }
    }

    /// Screen line `sl` is in the focused content, by the order of lines.
    pub open spec fn spec_focused_line(self, sl: D::ScreenLine) -> bool {
        let r = self.spec_doc().spec_cursor_range(self.spec_current_focus());
        at_or_before(r.start, sl) && at_or_before(sl, r.end)
    }

    /// The search matches to highlight.
    fn shown_match_ranges(&self) -> (r: &[Range<usize>])
        ensures
            r@ == self.spec_shown_matches(),
    {
        let empty: &[Range<usize>] = &[];
        match &self.search_state {
            None => {
                assert(empty@ =~= Seq::<Range<usize>>::empty());
                empty
            },
            Some(st) => if st.should_show_matches() {
                let r = st.search_match_ranges();
                proof {
                    let m = st.spec_matches();
                    assert forall|i: int| 0 <= i < r@.len() implies r@[i] == m.map_values(
                        |p: (usize, usize)| Range { start: p.0, end: p.1 },
                    )[i] by {
                        assert(r@.map_values(|m: Range<usize>| crate::search::range_pair(m))[i] == m[i]);
                    }
                    assert(r@ =~= m.map_values(|p: (usize, usize)| Range { start: p.0, end: p.1 }));
                }
                r
            } else {
                assert(empty@ =~= Seq::<Range<usize>>::empty());
                empty
            },
        }
    }

    /// Row `k` of a rendering of `self`, with line numbers `w` columns wide
    /// and `ms` highlighted: past the end of the document a dimmed `~`; else
    /// the line number (yellow on the focused content, else dimmed; blank
    /// where the line above has the same number), a dimmed space, and the
    /// document's rendering of the line with the matches highlighted, or its
    /// debug text (inverted on the focused content) where it has none.
    pub open spec fn row_rendered(
        self,
        k: int,
        row: Seq<StyledSegment>,
        ms: Seq<Range<usize>>,
        w: usize,
    ) -> bool {
        let dimmed = Attrs { dimmed: true, ..Attrs::spec_new(Color::Default, Color::Default) };
        match lines_below(self.next_fn(), self.spec_top_line(), k as nat) {
            None => row.len() == 1 && row[0].attrs == dimmed && row[0].content.view_of() == TextView::Fixed("~"@),
            Some(sl) => {
                let n = self.spec_doc().spec_line_number(sl);
                let repeated = k > 0 && (lines_below(self.next_fn(), self.spec_top_line(), (k - 1) as nat) matches Some(
                    p,
                ) && self.spec_doc().spec_line_number(p) == n);
                let focused = self.spec_focused_line(sl);
                let default = Attrs::spec_new(Color::Default, Color::Default);
                &&& row.len() >= 2
                &&& ordered_by_spec::<D::ScreenLine>() ==> row[0].attrs == (if focused {
                    Attrs::spec_new(Color::Ansi(AnsiColor::Yellow), Color::Default)
                } else {
                    dimmed
                })
                &&& !(row[0].content is SourceRange)
                &&& row[0].content.spec_bytes(Seq::empty()) == (if repeated {
                    Seq::new(w as nat, |i: int| 32u8)
                } else {
                    padded_decimal(n as nat, w as nat)
                })
                &&& row[1].attrs == dimmed && row[1].content.view_of() == spaces_view(1)
                &&& match self.spec_doc().spec_render_screen_line(sl, self.spec_current_focus()) {
                    Some(segs) => row.subrange(2, row.len() as int).map_values(|s: StyledSegment| seg_view(s))
                        == highlight_all(segs@, ms),
                    None => {
                        let t = lossy_utf8(self.spec_doc().spec_debug_text_content(sl, self.spec_current_focus())@);
                        &&& row.len() == 3
                        &&& row[2].content.view_of() == TextView::Owned(t, Range { start: 0, end: utf8(t).len() as usize })
                        &&& ordered_by_spec::<D::ScreenLine>() ==> row[2].attrs == (if focused {
                            Attrs { inverted: true, ..default }
                        } else {
                            default
                        })
                    },
                }
            },
        }
    }

    /// Draws the viewport: one row per screen row (see `row_rendered`), with
    /// line numbers as wide as the largest, at least four columns, and the
    /// matches of a search that shows highlighted; notes whether rows past
    /// the end of the document were drawn. Also hands back the document's
    /// text for searching.
    pub fn render(&mut self) -> (r: (Vec<Vec<StyledSegment>>, &[u8]))
        requires
            !old(self).spec_too_small(),
            old(self).wf(),
            old(self).spec_doc().spec_num_lines() > 0,
        ensures
            r.0@.len() == old(self).spec_dimensions().height,
            clone_is_exact::<D::ScreenLine>() ==> forall|k: int|
                0 <= k < r.0@.len() ==> old(self).row_rendered(
                    k,
                    #[trigger] r.0@[k]@,
                    old(self).spec_shown_matches(),
                    max_int(num_digits(old(self).spec_doc().spec_num_lines() as nat) as int, MIN_LINE_NUMBER_WIDTH as int) as usize,
                ),
            clone_is_exact::<D::ScreenLine>() ==> final(self).spec_last_render_drew_empty_lines() == (lines_below(
                old(self).next_fn(),
                old(self).spec_top_line(),
                (old(self).spec_dimensions().height - 1) as nat,
            ) is None),
            *final(self) == old(self).with_drew_empty_lines(final(self).spec_last_render_drew_empty_lines()),
    {
        let ghost start = *self;
        let w = Self::width_of_line_numbers(self.doc.num_lines());
        let height = self.dimensions.height;
        let dimmed = Attrs { dimmed: true, ..Attrs::const_default() };
        let focused_attrs = Attrs::from_ansi_fg(AnsiColor::Yellow);
        let ranges = self.shown_match_ranges();
        let mut rows: Vec<Vec<StyledSegment>> = Vec::new();
        let mut upcoming: Option<D::ScreenLine> = Some(self.top_line.clone());
        let mut prev_number: usize = 0;
        let mut drew_empty = false;
        let ghost next = self.next_fn();
        while rows.len() < height
            invariant
                *self == start,
                next == self.next_fn(),
                height == self.spec_dimensions().height,
                rows@.len() <= height,
                ranges@ == self.spec_shown_matches(),
                w == max_int(num_digits(self.spec_doc().spec_num_lines() as nat) as int, MIN_LINE_NUMBER_WIDTH as int),
                dimmed == (Attrs { dimmed: true, ..Attrs::spec_new(Color::Default, Color::Default) }),
                focused_attrs == Attrs::spec_new(Color::Ansi(AnsiColor::Yellow), Color::Default),
                rows@.len() == 0 ==> (upcoming matches Some(t) && cloned(self.spec_top_line(), t)),
                clone_is_exact::<D::ScreenLine>() ==> upcoming == lines_below(next, self.spec_top_line(), rows@.len() as nat),
                rows@.len() > 0 && clone_is_exact::<D::ScreenLine>() ==> (lines_below(
                    next,
                    self.spec_top_line(),
                    (rows@.len() - 1) as nat,
                ) matches Some(p) ==> prev_number == self.spec_doc().spec_line_number(p)),
                clone_is_exact::<D::ScreenLine>() ==> drew_empty == (exists|j: int|
                    0 <= j < rows@.len() && #[trigger] lines_below(next, self.spec_top_line(), j as nat) is None),
                clone_is_exact::<D::ScreenLine>() ==> forall|k: int|
                    0 <= k < rows@.len() ==> self.row_rendered(k, #[trigger] rows@[k]@, ranges@, w),
            decreases height - rows@.len(),
        {
            let k = rows.len();
            proof {
                lemma_lines_below_next(next, self.spec_top_line(), k as nat);
            }
            match upcoming {
                None => {
                    let mut row: Vec<StyledSegment> = Vec::new();
                    row.push(StyledSegment { attrs: dimmed, content: Text::Static("~") });
                    rows.push(row);
                    drew_empty = true;
                    upcoming = None;
                    proof {
                        if clone_is_exact::<D::ScreenLine>() {
                            assert(self.row_rendered(k as int, rows@[k as int]@, ranges@, w));
                        }
                    }
                },
                Some(screen_line) => {
                    proof {
                        if k > 0 {
                            lemma_lines_below_next(next, self.spec_top_line(), (k - 1) as nat);
                        }
                    }
                    let n = self.doc.line_number(&screen_line);
                    let focused = self.doc.does_screen_line_intersect_cursor(&screen_line, &self.current_focus);
                    let number_attrs = if focused { focused_attrs } else { dimmed };
                    let repeated = k > 0 && n == prev_number;
                    let number_text = if repeated {
                        Text::spaces(w)
                    } else {
                        Text::full_string(Rc::new(format_line_number(n, w)))
                    };
                    let mut row: Vec<StyledSegment> = Vec::new();
                    row.push(StyledSegment { attrs: number_attrs, content: number_text });
                    row.push(StyledSegment { attrs: dimmed, content: Text::spaces(1) });
                    match self.doc.render_screen_line(&screen_line, &self.current_focus) {
                        Some(segments) => {
                            let ghost segs = segments@;
                            let highlighted = highlight_segments(segments, ranges);
                            let ghost hv = highlighted@;
                            let ghost before = row@;
                            append_segments(&mut row, highlighted);
                            proof {
                                assert(before.len() == 2);
                                assert(row@.subrange(2, row@.len() as int) =~= hv);
                                assert(row@.subrange(2, row@.len() as int).map_values(|s: StyledSegment| seg_view(s))
                                    == highlight_all(segs, ranges@));
                            }
                        },
                        None => {
                            let fallback = self.doc.debug_text_content(&screen_line, &self.current_focus);
                            let text = from_utf8_lossy(fallback.as_slice());
                            let attrs = if focused {
                                Attrs::const_default().invert()
                            } else {
                                Attrs::const_default()
                            };
                            row.push(StyledSegment { attrs, content: Text::full_string(Rc::new(text)) });
                        },
                    }
                    let after = self.doc.next_screen_line(&screen_line);
                    let ghost row_view = row@;
                    rows.push(row);
                    prev_number = n;
                    upcoming = after;
                    proof {
                        if clone_is_exact::<D::ScreenLine>() {
                            assert(rows@[k as int]@ == row_view);
                            assert(lines_below(next, self.spec_top_line(), k as nat) == Some(screen_line));
                            assert(row_view[0].content.spec_bytes(Seq::empty()) == (if repeated {
                                Seq::new(w as nat, |i: int| 32u8)
                            } else {
                                padded_decimal(n as nat, w as nat)
                            }));
                            assert(self.row_rendered(k as int, row_view, ranges@, w));
                        }
                    }
                },
            }
        }
        self.last_render_drew_empty_lines_after_end_of_doc = drew_empty;
        proof {
            lemma_empty_rows_end(next, start.spec_top_line(), height as nat);
        }
        (rows, self.doc.raw_bytes_for_searching())
    }

    /// The text under the focus to search for, as the document gives it.
    pub fn get_search_input_under_cursor(&self) -> (r: Option<String>)
        ensures
            r == self.spec_doc().spec_search_input_under_cursor(self.spec_current_focus()),
    {
        self.doc.get_search_input_under_cursor(&self.current_focus)
    }

    /// `self` with `b` as whether the screen is too small for content.
    pub closed spec fn with_too_small(self, b: bool) -> Self {
        DocumentViewer { dimensions_are_too_small_to_show_content: b, ..self }
    }

    /// The viewer laid out again on a screen of the same size: too small to
    /// show content where it has no rows or no columns left beside the line
    /// numbers; else showing the focused content.
    pub open spec fn spec_laid_out_again(self) -> Self {
        let d = self.spec_dimensions();
        let n = self.spec_doc().spec_num_lines();
        let w = max_int(num_digits(n as nat) as int, MIN_LINE_NUMBER_WIDTH as int);
        if d.height == 0 || !(d.width > w + 1) {
            self.with_too_small(true)
        } else {
            self.with_too_small(false).focus_made_visible()
        }
    }

    /// The viewer following the end of the document where it does (on a
    /// screen with at least one row and a document with a last line).
    pub open spec fn spec_followed_to_end(self) -> Self {
        if self.spec_tailing_end_of_document() && self.spec_dimensions().height >= 1
            && self.spec_doc().spec_bottom_screen_line_and_cursor() is Some {
            self.spec_focus_bottom()
        } else {
            self
        }
    }

    /// The viewer once the document has more data: following the end of the
    /// document where it does, then laid out again.
    pub open spec fn spec_after_more_data(self) -> Self {
        self.spec_followed_to_end().spec_laid_out_again()
    }

    /// Lays the viewer out again on a screen of the same size.
    fn lay_out_again(&mut self)
        requires
            old(self).spec_doc().spec_num_lines() > 0,
        ensures
            lines_by_spec::<D::ScreenLine>() ==> *final(self) == old(self).spec_laid_out_again(),
            *final(self) == old(self).with_too_small(final(self).spec_too_small()).with_top(final(self).spec_top_line()),
            final(self).spec_too_small() == old(self).spec_laid_out_again().spec_too_small(),
    {
        if self.dimensions.height == 0 {
            self.dimensions_are_too_small_to_show_content = true;
            return;
        }
        let n = self.doc.num_lines();
        match Self::available_width_for_doc_content(self.dimensions.width, n) {
            None => {
                self.dimensions_are_too_small_to_show_content = true;
            },
            Some(_) => {
                self.dimensions_are_too_small_to_show_content = false;
                self.update_so_current_focus_is_visible();
            },
        }
    }

    /// Focuses the end of the document where the viewer follows it.
    fn follow_end_of_document(&mut self)
        ensures
            lines_by_spec::<D::ScreenLine>() ==> *final(self) == old(self).spec_followed_to_end(),
            *final(self) == old(self).with_top(final(self).spec_top_line()).with_focus(final(self).spec_current_focus()),
    {
        if self.tailing_end_of_document {
            if self.dimensions.height >= 1 {
                if self.doc.bottom_screen_line_and_cursor().is_some() {
                    self.focus_bottom();
                }
            }
        }
    }

    /// What follows new data: following the end, a new layout (the line
    /// numbers may be wider), and new search matches where they show. The
    /// layout and the search touch different parts of the viewer.
    fn update_after_receiving_more_data(&mut self)
        requires
            old(self).search_wf(),
            old(self).spec_doc().spec_num_lines() > 0,
        ensures
            final(self).search_wf(),
            lines_by_spec::<D::ScreenLine>() ==> final(self).spec_top_line() == old(self).spec_after_more_data().spec_top_line()
                && final(self).spec_current_focus() == old(self).spec_after_more_data().spec_current_focus()
                && final(self).spec_too_small() == old(self).spec_after_more_data().spec_too_small(),
            final(self).spec_doc() == old(self).spec_doc(),
            final(self).spec_dimensions() == old(self).spec_dimensions(),
    {
        self.follow_end_of_document();
        self.lay_out_again();
        let showing = match &self.search_state {
            Some(st) => st.should_show_matches(),
            None => false,
        };
        if showing {
            self.check_for_more_search_matches();
        }
    }

    /// Appends data to the document and brings the viewer up to date (see
    /// `spec_after_more_data`); new search matches are looked for where
    /// matches show.
    pub fn append_document_data(&mut self, data: &[u8])
        requires
            old(self).search_wf(),
            old(self).spec_doc().spec_appended(data).spec_num_lines() > 0,
        ensures
            final(self).search_wf(),
            final(self).spec_doc() == old(self).spec_doc().spec_appended(data),
            lines_by_spec::<D::ScreenLine>() ==> final(self).spec_top_line() == old(self).with_doc(
                old(self).spec_doc().spec_appended(data),
            ).spec_after_more_data().spec_top_line() && final(self).spec_current_focus() == old(self).with_doc(
                old(self).spec_doc().spec_appended(data),
            ).spec_after_more_data().spec_current_focus() && final(self).spec_too_small() == old(self).with_doc(
                old(self).spec_doc().spec_appended(data),
            ).spec_after_more_data().spec_too_small(),
    {
        self.doc.append(data);
        self.update_after_receiving_more_data();
    }

    /// Tells the document its input ended and brings the viewer up to date.
    pub fn document_eof(&mut self)
        requires
            old(self).search_wf(),
            old(self).spec_doc().spec_at_eof().spec_num_lines() > 0,
        ensures
            final(self).search_wf(),
            final(self).spec_doc() == old(self).spec_doc().spec_at_eof(),
            lines_by_spec::<D::ScreenLine>() ==> final(self).spec_top_line() == old(self).with_doc(
                old(self).spec_doc().spec_at_eof(),
            ).spec_after_more_data().spec_top_line() && final(self).spec_current_focus() == old(self).with_doc(
                old(self).spec_doc().spec_at_eof(),
            ).spec_after_more_data().spec_current_focus() && final(self).spec_too_small() == old(self).with_doc(
                old(self).spec_doc().spec_at_eof(),
            ).spec_after_more_data().spec_too_small(),
    {
        self.doc.eof();
        self.update_after_receiving_more_data();
    }

    /// Whether a search was started.
    pub fn has_initialized_search_state(&self) -> (b: bool)
        ensures
            b == self.spec_search_state() is Some,
    {
        self.search_state.is_some()
    }

    /// The scrolloff in effect: the setting, capped at half the lines other
    /// than the focused one.
    fn effective_scrolloff(&self) -> (s: usize)
        requires
            self.spec_dimensions().height >= 1,
        ensures
            s == self.spec_effective_scrolloff(),
    {
        let half = (self.dimensions.height - 1) / 2;
        if self.scrolloff_setting < half {
            self.scrolloff_setting
        } else {
            half
        }
    }

    /// The screen line `n` lines before `screen_line`, or the first line of
    /// the document if that comes sooner.
    fn n_screen_lines_before_or_top_of_doc(&self, from: D::ScreenLine, count: usize) -> (r: D::ScreenLine)
        ensures
            r == walk_at_most(self.prev_fn(), from, count as nat),
    {
        let ghost prev = self.prev_fn();
        let mut screen_line = from;
        let mut n = count;
        let ghost target = walk_at_most(prev, screen_line, n as nat);
        while n > 0
            invariant
                prev == self.prev_fn(),
                target == walk_at_most(self.prev_fn(), from, count as nat),
                walk_at_most(prev, screen_line, n as nat) == target,
            decreases n,
        {
            let p = self.doc.prev_screen_line(&screen_line);
            proof {
                assert(prev(screen_line) == p);
            }
            match p {
                Some(p) => {
                    screen_line = p;
                },
                None => {
                    return screen_line;
                },
            }
            n = n - 1;
        }
        screen_line
    }

    /// The screen line `n` lines after `screen_line`, or the last line of
    /// the document if that comes sooner.
    fn n_screen_lines_after_or_bottom_of_doc(&self, from: D::ScreenLine, count: usize) -> (r: D::ScreenLine)
        ensures
            r == walk_at_most(self.next_fn(), from, count as nat),
    {
        let ghost next = self.next_fn();
        let mut screen_line = from;
        let mut n = count;
        let ghost target = walk_at_most(next, screen_line, n as nat);
        while n > 0
            invariant
                next == self.next_fn(),
                target == walk_at_most(self.next_fn(), from, count as nat),
                walk_at_most(next, screen_line, n as nat) == target,
            decreases n,
        {
            let p = self.doc.next_screen_line(&screen_line);
            proof {
                assert(next(screen_line) == p);
            }
            match p {
                Some(p) => {
                    screen_line = p;
                },
                None => {
                    return screen_line;
                },
            }
            n = n - 1;
        }
        screen_line
    }

    /// How many screen lines the document has before the start and after
    /// the end of `content_range`, counted as far as `bound`.
    fn bounded_proximity_to_doc_ends(
        &self,
        content_range: &ContentRange<D::ScreenLine>,
        bound: usize,
    ) -> (r: BoundedProximityToDocEnds)
        ensures
            r.screen_lines_to_start_of_doc == Some(
                steps_at_most(self.prev_fn(), content_range.start, bound as nat) as usize,
            ),
            r.screen_lines_to_end_of_doc == Some(
                steps_at_most(self.next_fn(), content_range.end, bound as nat) as usize,
            ),
            steps_at_most(self.prev_fn(), content_range.start, bound as nat) <= bound,
            steps_at_most(self.next_fn(), content_range.end, bound as nat) <= bound,
    {
        let before = self.count_steps(&content_range.start, bound, true);
        let after = self.count_steps(&content_range.end, bound, false);
        BoundedProximityToDocEnds {
            screen_lines_to_start_of_doc: Some(before),
            screen_lines_to_end_of_doc: Some(after),
        }
    }

    /// How many lines one can go from `from`, up or down, as far as `bound`.
    fn count_steps(&self, from: &D::ScreenLine, bound: usize, up: bool) -> (n: usize)
        ensures
            n == steps_at_most(if up { self.prev_fn() } else { self.next_fn() }, *from, bound as nat),
            n <= bound,
    {
        let ghost step = if up { self.prev_fn() } else { self.next_fn() };
        if bound == 0 {
            return 0;
        }
        let first = if up {
            self.doc.prev_screen_line(from)
        } else {
            self.doc.next_screen_line(from)
        };
        let mut line = match first {
            Some(l) => l,
            None => {
                return 0;
            },
        };
        let mut count: usize = 1;
        proof {
            lemma_steps_bound(step, line, (bound - 1) as nat);
        }
        while count < bound
            invariant
                step == (if up { self.prev_fn() } else { self.next_fn() }),
                1 <= count <= bound,
                steps_at_most(step, *from, bound as nat) == count + steps_at_most(
                    step,
                    line,
                    (bound - count) as nat,
                ),
            decreases bound - count,
        {
            let next = if up {
                self.doc.prev_screen_line(&line)
            } else {
                self.doc.next_screen_line(&line)
            };
            match next {
                Some(l) => {
                    line = l;
                },
                None => {
                    return count;
                },
            }
            count = count + 1;
        }
        proof {
            lemma_steps_bound(step, *from, bound as nat);
        }
        count
    }

    /// The screen indexes at which content may start so that all of it
    /// shows within the scrolloff, where the ends of the document allow,
    /// for content of fewer lines than the screen.
    #[verifier::spinoff_prover]
    #[verifier::rlimit(60)]
    pub fn calculate_acceptable_start_screen_indexes_to_show_entire_content_range(
        &self,
        content_range: &ContentRange<D::ScreenLine>,
    ) -> (r: AcceptableStartScreenIndexesToShowEntireContentRange)
        requires
            1 <= content_range.num_screen_lines < self.spec_dimensions().height,
        ensures
            ({
                let h = self.spec_dimensions().height as int;
                let to_start = steps_at_most(self.prev_fn(), content_range.start, (h - 1) as nat);
                let to_end = steps_at_most(self.next_fn(), content_range.end, (h - 1) as nat);
                (r.start as int, r.end as int) == acceptable_starts(
                    h,
                    self.spec_effective_scrolloff(),
                    content_range.num_screen_lines as int,
                    Some(to_start as usize),
                    Some(to_end as usize),
                ) && r.start <= r.end && r.end + content_range.num_screen_lines - 1 <= h - 1 && r.end
                    <= to_start
            }),
    {
        let height = self.dimensions.height;
        let proximity = self.bounded_proximity_to_doc_ends(content_range, height - 1);
        let scrolloff = self.effective_scrolloff();
        let lines_to_start = match proximity.screen_lines_to_start_of_doc {
            Some(n) => n,
            None => height - 1,
        };
        let lines_to_end = match proximity.screen_lines_to_end_of_doc {
            Some(n) => n,
            None => height - 1,
        };
        let (first, last) = acceptable_range_on_screen(
            height,
            scrolloff,
            content_range.num_screen_lines,
            lines_to_start,
            lines_to_end,
        );
        let mut start = first;
        let below = if last > content_range.num_screen_lines - 1 {
            last - (content_range.num_screen_lines - 1)
        } else {
            0
        };
        let mut end = if first > below {
            first
        } else {
            below
        };
        if lines_to_start < start {
            start = lines_to_start;
        }
        if lines_to_start < end {
            end = lines_to_start;
        }
        AcceptableStartScreenIndexesToShowEntireContentRange { start, end }
    }

    /// The range of screen indexes the focus may take within the scrolloff:
    /// from the top where the top line is the first of the document.
    fn screen_indexes_within_scrolloff(&self) -> (r: (usize, usize))
        requires
            self.spec_dimensions().height >= 1,
        ensures
            r.0 == (if self.spec_doc().spec_line_number(self.spec_top_line()) == 1 && (!self.spec_doc().spec_is_wrapped_line(
                self.spec_top_line(),
            ) || self.spec_doc().spec_is_start_of_wrapped_line(self.spec_top_line())) {
                0
            } else {
                self.spec_effective_scrolloff()
            }),
            r.1 == self.spec_dimensions().height - 1 - self.spec_effective_scrolloff(),
    {
        let scrolloff = self.effective_scrolloff();
        let first = if self.doc.is_first_screen_line_of_document(&self.top_line) {
            0
        } else {
            scrolloff
        };
        let last = (self.dimensions.height - 1) - scrolloff;
        (first, last)
    }

    /// The columns that line numbers take for a document of `num_doc_lines`
    /// lines: the digits of the largest number, but at least four.
    pub fn width_of_line_numbers(num_doc_lines: usize) -> (w: usize)
        requires
            num_doc_lines > 0,
        ensures
            w == max_int(num_digits(num_doc_lines as nat) as int, MIN_LINE_NUMBER_WIDTH as int),
    {
        let mut digits: usize = 1;
        let mut rest = num_doc_lines / 10;
        proof {
            lemma_num_digits_bound(num_doc_lines as nat);
            assert(num_digits(num_doc_lines as nat) == 1 + num_digits((num_doc_lines / 10) as nat)
                || num_doc_lines < 10);
        }
        while rest > 0
            invariant
                num_digits(num_doc_lines as nat) <= 20,
                1 <= digits <= 20,
                num_digits(num_doc_lines as nat) == digits + num_digits(rest as nat) - (if rest == 0 {
                    1int
                } else {
                    0
                }),
                rest <= num_doc_lines,
            decreases rest,
        {
            proof {
                assert(num_digits(rest as nat) >= 1);
                assert(num_digits(rest as nat) == 1 + num_digits((rest / 10) as nat) || rest < 10);
            }
            digits = digits + 1;
            rest = rest / 10;
        }
        if digits > MIN_LINE_NUMBER_WIDTH {
            digits
        } else {
            MIN_LINE_NUMBER_WIDTH
        }
    }

    /// The columns left for the document beside the line numbers and a
    /// space, if any.
    pub fn available_width_for_doc_content(width: usize, num_doc_lines: usize) -> (r: Option<usize>)
        requires
            num_doc_lines > 0,
        ensures
            ({
                let w = max_int(num_digits(num_doc_lines as nat) as int, MIN_LINE_NUMBER_WIDTH as int);
                if width > w + 1 {
                    r == Some((width - w - 1) as usize)
                } else {
                    r is None
                }
            }),
    {
        let w = Self::width_of_line_numbers(num_doc_lines);
        proof {
            lemma_num_digits_bound(num_doc_lines as nat);
        }
        if width > w + 1 {
            Some(width - (w + 1))
        } else {
            None
        }
    }
}

/// The acceptable screen range for content of `content` lines on a screen
/// of `height` lines, as `acceptable_screen_range` states it, for content
/// shorter than the screen and a scrolloff of at most half the other lines.
#[verifier::spinoff_prover]
#[verifier::rlimit(50)]
fn acceptable_range_on_screen(
    height: usize,
    scrolloff: usize,
    content: usize,
    to_start: usize,
    to_end: usize,
) -> (r: (usize, usize))
    requires
        1 <= content < height,
        scrolloff <= (height - 1) / 2,
    ensures
        (r.0 as int, r.1 as int) == acceptable_screen_range(
            height as int,
            scrolloff as int,
            content as int,
            Some(to_start),
            Some(to_end),
        ),
        r.0 <= r.1 <= height - 1,
        r.1 - r.0 + 1 >= content,
{
    let last_screen_index = height - 1;
    let first1 = if to_start < scrolloff {
        to_start
    } else {
        scrolloff
    };
    let last0 = last_screen_index - scrolloff;
    let last1 = if to_end < scrolloff {
        last_screen_index - to_end
    } else {
        last0
    };
    assert(last_screen_index - to_end > last0 <==> to_end < scrolloff);
    assert(first1 <= last1);
    let range_height = last1 - first1 + 1;
    if content > range_height {
        let additional = content - range_height;
        let at_start = first1;
        let at_end = last_screen_index - last1;
        assert(at_start + at_end + range_height == height);
        let diff = if at_start > at_end {
            at_start - at_end
        } else {
            at_end - at_start
        };
        let one_side = if diff < additional {
            diff
        } else {
            additional
        };
        let additional2 = additional - one_side;
        let first2 = if at_start > at_end {
            first1 - one_side
        } else {
            first1
        };
        let last2 = if at_end > at_start {
            last1 + one_side
        } else {
            last1
        };
        let to_reclaim = additional2 / 2 + additional2 % 2;
        assert(to_reclaim == (additional2 + 1) / 2);
        assert(additional2 > 0 ==> first2 == last_screen_index - last2);
        assert(to_reclaim <= first2);
        (first2 - to_reclaim, last2 + to_reclaim)
    } else {
        (first1, last1)
    }
}

/// The order, `==` and clone of screen lines follow their specifications,
/// as they do for any type with a derived or copying implementation.
pub open spec fn lines_by_spec<T: PartialOrd + Clone>() -> bool {
    &&& ordered_by_spec::<T>()
    &&& <T as PartialEqSpec>::obeys_eq_spec()
    &&& clone_is_exact::<T>()
}

/// `a` comes strictly before `b` by their order.
pub open spec fn strictly_before<T: PartialOrd>(a: T, b: T) -> bool {
    a.partial_cmp_spec(&b) == Some(std::cmp::Ordering::Less)
}

/// One more line down is the line after the last one, if both exist.
proof fn lemma_lines_below_next<SL>(next: spec_fn(SL) -> Option<SL>, sl: SL, k: nat)
    ensures
        lines_below(next, sl, k + 1) == match lines_below(next, sl, k) {
            Some(t) => next(t),
            None => None,
        },
{
    lemma_lines_below_step(next, sl, k);
}

/// Once the document ends, every later row is past it too.
proof fn lemma_empty_rows_end<SL>(next: spec_fn(SL) -> Option<SL>, sl: SL, h: nat)
    ensures
        h > 0 ==> ((exists|j: int| 0 <= j < h && #[trigger] lines_below(next, sl, j as nat) is None) == (lines_below(
            next,
            sl,
            (h - 1) as nat,
        ) is None)),
    decreases h,
{
    if h > 1 {
        lemma_empty_rows_end(next, sl, (h - 1) as nat);
        lemma_lines_below_step(next, sl, (h - 2) as nat);
    }
}

/// Every clone of a `T` equals the value it was cloned from.
pub open spec fn clone_is_exact<T: Clone>() -> bool {
    forall|a: T, b: T| #[trigger] cloned(a, b) ==> a == b
}

/// The decimal digits of `n`, after spaces that make it `w` wide when it is
/// shorter.
pub open spec fn padded_decimal(n: nat, w: nat) -> Seq<u8> {
    let d = decimal(n);
    Seq::new(if d.len() < w { (w - d.len()) as nat } else { 0 }, |i: int| 32u8) + d
}

/// A styled segment as its style and a view of its text.
pub open spec fn seg_view(s: StyledSegment) -> (Attrs, TextView) {
    (s.attrs, s.content.view_of())
}

/// A segment with the parts of it that lie in matches `ms` in its
/// search-match style (see `highlight_search_matches`).
pub open spec fn highlighted(seg: PreHighlightingStyledSegment, ms: Seq<Range<usize>>) -> Seq<(Attrs, TextView)> {
    match seg.content {
        Text::SourceRange(range) => {
            let parts = separated_parts(ms, 0, range.start as int, range.end as int);
            Seq::new(
                parts.len(),
                |i: int|
                    (
                        if parts[i].2 {
                            seg.search_match_attrs
                        } else {
                            seg.attrs
                        },
                        TextView::Source(Range { start: parts[i].0 as usize, end: parts[i].1 as usize }),
                    ),
            )
        },
        _ => seq![(seg.attrs, seg.content.view_of())],
    }
}

/// Segments one after another, each highlighted.
pub open spec fn highlight_all(segs: Seq<PreHighlightingStyledSegment>, ms: Seq<Range<usize>>) -> Seq<(Attrs, TextView)>
    decreases segs.len(),
{
    if segs.len() == 0 {
        Seq::empty()
    } else {
        highlight_all(segs.drop_last(), ms) + highlighted(segs.last(), ms)
    }
}

/// The line number `n`, right-aligned in `w` columns.
fn format_line_number(n: usize, w: usize) -> (s: String)
    ensures
        utf8(s@) == padded_decimal(n as nat, w as nat),
{
    let mut digits: usize = 1;
    let mut rest = n / 10;
    proof {
        lemma_decimal_len(n as nat);
    }
    while rest > 0
        invariant
            decimal(n as nat).len() == digits + (if rest == 0 { 0 } else { decimal(rest as nat).len() }),
            digits <= 20,
            decimal(n as nat).len() <= 20,
        decreases rest,
    {
        proof {
            lemma_decimal_len(rest as nat);
        }
        digits = digits + 1;
        rest = rest / 10;
    }
    let mut s = String::new();
    let pad = if digits < w { w - digits } else { 0 };
    let mut i: usize = 0;
    proof {
        assert(utf8(s@) =~= Seq::<u8>::empty());
    }
    while i < pad
        invariant
            i <= pad,
            utf8(s@) == Seq::new(i as nat, |k: int| 32u8),
        decreases pad - i,
    {
        push_ascii(&mut s, 32);
        i = i + 1;
        assert(utf8(s@) =~= Seq::new(i as nat, |k: int| 32u8));
    }
    push_decimal(&mut s, n);
    proof {
        assert(utf8(s@) =~= padded_decimal(n as nat, w as nat));
    }
    s
}

/// The digits of `n` are one more than those of `n / 10` when it has
/// more than one, and at most twenty for a machine word.
proof fn lemma_decimal_len(n: nat)
    ensures
        n >= 10 ==> decimal(n).len() == decimal(n / 10).len() + 1,
        n < 10 ==> decimal(n).len() == 1,
        decimal(n).len() == num_digits(n),
        n <= usize::MAX ==> decimal(n).len() <= 20,
    decreases n,
{
    if n >= 10 {
        lemma_decimal_len(n / 10);
    }
    if n <= usize::MAX {
        lemma_num_digits_bound(n);
    }
}

/// Every segment highlighted, in order.
fn highlight_segments(segments: Vec<PreHighlightingStyledSegment>, ms: &[Range<usize>]) -> (r: Vec<StyledSegment>)
    ensures
        r@.map_values(|s: StyledSegment| seg_view(s)) == highlight_all(segments@, ms@),
{
    let ghost all = segments@;
    let mut out: Vec<StyledSegment> = Vec::new();
    let mut rest = segments;
    let ghost done: Seq<PreHighlightingStyledSegment> = Seq::empty();
    proof {
        assert(out@.map_values(|s: StyledSegment| seg_view(s)) =~= highlight_all(done, ms@));
        assert(done + rest@ =~= all);
    }
    while rest.len() > 0
        invariant
            done + rest@ == all,
            out@.map_values(|s: StyledSegment| seg_view(s)) == highlight_all(done, ms@),
        decreases rest@.len(),
    {
        let ghost before = rest@;
        let seg = rest.remove(0);
        proof {
            assert(done.push(seg) + rest@ =~= all);
        }
        let parts = seg.highlight_search_matches(ms);
        proof {
            lemma_highlighted(seg, ms@, parts@);
            assert(done.push(seg).drop_last() =~= done);
        }
        let ghost out_before = out@;
        append_segments(&mut out, parts);
        proof {
            assert(out@.map_values(|s: StyledSegment| seg_view(s)) =~= out_before.map_values(
                |s: StyledSegment| seg_view(s),
            ) + parts@.map_values(|s: StyledSegment| seg_view(s)));
            done = done.push(seg);
        }
    }
    proof {
        assert(done =~= all);
    }
    out
}

/// What `highlight_search_matches` gives is `highlighted`.
proof fn lemma_highlighted(seg: PreHighlightingStyledSegment, ms: Seq<Range<usize>>, r: Seq<StyledSegment>)
    requires
        match seg.content {
            Text::SourceRange(range) => {
                let parts = separated_parts(ms, 0, range.start as int, range.end as int);
                &&& r.len() == parts.len()
                &&& forall|i: int|
                    0 <= i < parts.len() ==> (#[trigger] r[i]).attrs == (if parts[i].2 {
                        seg.search_match_attrs
                    } else {
                        seg.attrs
                    }) && r[i].content == Text::SourceRange(
                        Range { start: parts[i].0 as usize, end: parts[i].1 as usize },
                    )
            },
            _ => r.len() == 1 && r[0].attrs == seg.attrs && r[0].content == seg.content,
        },
    ensures
        r.map_values(|s: StyledSegment| seg_view(s)) == highlighted(seg, ms),
{
    assert(r.map_values(|s: StyledSegment| seg_view(s)) =~= highlighted(seg, ms));
}

/// Appends `more` to `row`.
fn append_segments(row: &mut Vec<StyledSegment>, more: Vec<StyledSegment>)
    ensures
        final(row)@ == old(row)@ + more@,
{
    let mut more = more;
    row.append(&mut more);
}

/// The number of decimal digits of `n`, which is at least one.
pub open spec fn num_digits(n: nat) -> nat
    decreases n,
{
    if n < 10 {
        1
    } else {
        1 + num_digits(n / 10)
    }
}

/// A number that fits in a `usize` has at most twenty digits.
proof fn lemma_num_digits_bound(n: nat)
    requires
        n <= usize::MAX,
    ensures
        num_digits(n) <= 20,
{
    assert(usize::MAX <= 18446744073709551615nat);
    lemma_num_digits_pow(n);
}

/// Each division by ten takes away one digit.
proof fn lemma_num_digits_pow(n: nat)
    requires
        n <= 18446744073709551615nat,
    ensures
        num_digits(n) <= 20,
{
    reveal_with_fuel(num_digits, 21);
    assert(n / 10 / 10 / 10 / 10 / 10 / 10 / 10 / 10 / 10 / 10 / 10 / 10 / 10 / 10 / 10 / 10 / 10 / 10 / 10 / 10 == 0)
        by (nonlinear_arith)
        requires
            n <= 18446744073709551615nat,
    ;
}

/// One more line down is the line after the last one, if both exist.
proof fn lemma_lines_below_step<SL>(next: spec_fn(SL) -> Option<SL>, sl: SL, k: nat)
    ensures
        lines_below(next, sl, k + 1) == match lines_below(next, sl, k) {
            Some(t) => next(t),
            None => None,
        },
    decreases k,
{
    if k > 0 {
        match next(sl) {
            Some(t) => lemma_lines_below_step(next, t, (k - 1) as nat),
            None => {},
        }
    } else {
        match next(sl) {
            Some(t) => {
                assert(lines_below(next, t, 0) == Some(t));
            },
            None => {},
        }
    }
}

/// Counting steps from a line never goes past the bound.
proof fn lemma_steps_bound<SL>(step: spec_fn(SL) -> Option<SL>, sl: SL, k: nat)
    ensures
        steps_at_most(step, sl, k) <= k,
    decreases k,
{
    if k > 0 {
        if let Some(t) = step(sl) {
            lemma_steps_bound(step, t, (k - 1) as nat);
        }
    }
}

} // verus!
