use jless::dimensions::Dimensions;
use jless::document::{ContentRange, DocMove, Document};
use jless::document_viewer::DocumentViewer;
use jless::action::{Action, MovementMethod};
use jless::rendering::{AnsiColor, Attrs, PreHighlightingStyledSegment, Text};
use jless::search::{JumpDirection, SearchDirection};
use std::ops::Range;

/// A plain text document whose lines wrap at `width` columns: screen line
/// `k` is `screen_lines[k]`, a (line, first column, last piece) triple; the
/// cursor is the index of a line.
#[derive(Clone)]
struct WrapDoc {
    bytes: Vec<u8>,
    lines: Vec<(usize, usize)>,
    screen_lines: Vec<(usize, usize, bool)>,
    line_bytes: Vec<(usize, usize)>,
    width: usize,
}

impl WrapDoc {
    fn from_text(contents: &[u8], width: usize) -> WrapDoc {
        let mut lines = Vec::new();
        let mut screen_lines = Vec::new();
        let mut line_bytes = Vec::new();
        let mut start = 0;
        for (i, b) in contents.iter().enumerate() {
            if *b == b'\n' {
                let len = i - start;
                let line = lines.len();
                let pieces = if len == 0 { 1 } else { (len + width - 1) / width };
                let first_screen_line = screen_lines.len();
                for p in 0..pieces {
                    screen_lines.push((line, p * width, p + 1 == pieces));
                }
                lines.push((first_screen_line, screen_lines.len() - 1));
                line_bytes.push((start, i));
                start = i + 1;
            }
        }
        WrapDoc { bytes: contents.to_vec(), lines, screen_lines, line_bytes, width }
    }
}

impl Document for WrapDoc {
    type ScreenLine = usize;
    type Cursor = usize;

    fn spec_next_screen_line(&self, sl: usize) -> Option<usize> {
        self.next_screen_line(&sl)
    }
    fn spec_prev_screen_line(&self, sl: usize) -> Option<usize> {
        self.prev_screen_line(&sl)
    }
    fn spec_line_number(&self, sl: usize) -> usize {
        self.line_number(&sl)
    }
    fn spec_is_wrapped_line(&self, sl: usize) -> bool {
        self.is_wrapped_line(&sl)
    }
    fn spec_is_start_of_wrapped_line(&self, sl: usize) -> bool {
        self.is_start_of_wrapped_line(&sl)
    }
    fn spec_cursor_range(&self, cursor: usize) -> ContentRange<usize> {
        self.cursor_range(&cursor)
    }
    fn spec_visible_screen_line(&self, index: usize) -> usize {
        self.raw_byte_index_to_visible_screen_line(index)
    }
    fn spec_move(&self, m: DocMove, cursor: usize) -> (Self, Option<usize>) {
        let mut d = self.clone();
        let r = match m {
            DocMove::Down(n) => d.move_cursor_down(n, &cursor),
            DocMove::Up(n) => d.move_cursor_up(n, &cursor),
            DocMove::ExpandOrRightOrDown => d.expand_or_move_cursor_right_or_down(&cursor),
            DocMove::CollapseOrLeftOrUp => d.collapse_or_move_cursor_left_or_up(&cursor),
            DocMove::LeftOrUpWithoutCollapsing => d.move_cursor_left_or_up_without_collapsing(&cursor),
            DocMove::FirstSibling => d.move_cursor_to_first_sibling(&cursor),
            DocMove::LastSibling => d.move_cursor_to_last_sibling(&cursor),
            DocMove::NextSiblingOrDown => d.move_cursor_to_next_sibling_or_down(&cursor),
            DocMove::PrevSiblingOrUp => d.move_cursor_to_prev_sibling_or_up(&cursor),
            DocMove::NextIndentationChange => d.move_cursor_to_next_indentation_change(&cursor),
            DocMove::PrevIndentationChange => d.move_cursor_to_prev_indentation_change(&cursor),
            DocMove::CollapseNodeAndSiblings(depth) => d.collapse_node_and_siblings(&cursor, depth),
            DocMove::ExpandNodeAndSiblings(depth) => d.expand_node_and_siblings(&cursor, depth),
        };
        (d, r)
    }
    fn spec_render_screen_line(&self, sl: usize, cursor: usize) -> Option<Vec<PreHighlightingStyledSegment>> {
        self.render_screen_line(&sl, &cursor)
    }
    fn spec_debug_text_content(&self, sl: usize, cursor: usize) -> Vec<u8> {
        self.debug_text_content(&sl, &cursor)
    }
    fn spec_search_input_under_cursor(&self, cursor: usize) -> Option<String> {
        self.get_search_input_under_cursor(&cursor)
    }
    fn spec_appended(&self, data: &[u8]) -> Self {
        let mut d = self.clone();
        d.append(data);
        d
    }
    fn spec_at_eof(&self) -> Self {
        let mut d = self.clone();
        d.eof();
        d
    }
    fn spec_cleared_sibling_nav_state(&self) -> Self {
        self.clone()
    }
    fn spec_num_lines(&self) -> usize {
        self.num_lines()
    }
    fn spec_first_visible_cursor_at_or_before_line_index(&self, index: usize) -> Option<usize> {
        self.first_visible_cursor_at_or_before_line_index(index)
    }
    fn spec_visible_cursor(&self, index: usize) -> usize {
        self.raw_byte_index_to_visible_cursor(index)
    }
    fn spec_cursor_at(&self, index: usize) -> usize {
        self.raw_byte_index_to_cursor(index)
    }
    fn spec_closest_visible_cursor(&self, cursor: usize) -> usize {
        self.closest_visible_cursor(&cursor)
    }
    fn spec_byte_range_of_cursor(&self, cursor: usize) -> Range<usize> {
        self.raw_byte_range_of_cursor(&cursor)
    }
    fn spec_is_range_visible(&self, range: Range<usize>) -> bool {
        self.is_raw_byte_range_visible(range)
    }
    fn spec_convert_screen_line_to_cursor(&self, sl: usize, prev_cursor: usize) -> usize {
        self.convert_screen_line_to_cursor(sl, &prev_cursor)
    }
    fn spec_top_screen_line_and_cursor(&self) -> Option<(usize, usize)> {
        self.top_screen_line_and_cursor()
    }
    fn spec_bottom_screen_line_and_cursor(&self) -> Option<(usize, usize)> {
        self.bottom_screen_line_and_cursor()
    }

    fn new(_width: usize) -> Self {
        WrapDoc::from_text(b"", 1)
    }
    fn width(&self) -> usize {
        1
    }
    fn resize(&mut self, _new_width: usize) {}
    fn append(&mut self, data: &[u8]) {
        let mut bytes = self.bytes.clone();
        bytes.extend_from_slice(data);
        *self = WrapDoc::from_text(&bytes, self.width);
    }
    fn eof(&mut self) {}
    fn top_screen_line_and_cursor(&self) -> Option<(usize, usize)> {
        if self.screen_lines.is_empty() { None } else { Some((0, 0)) }
    }
    fn bottom_screen_line_and_cursor(&self) -> Option<(usize, usize)> {
        if self.screen_lines.is_empty() {
            None
        } else {
            Some((self.screen_lines.len() - 1, self.lines.len() - 1))
        }
    }
    fn next_screen_line(&self, screen_line: &usize) -> Option<usize> {
        if *screen_line + 1 < self.screen_lines.len() { Some(*screen_line + 1) } else { None }
    }
    fn prev_screen_line(&self, screen_line: &usize) -> Option<usize> {
        if *screen_line > 0 { Some(*screen_line - 1) } else { None }
    }
    fn line_number(&self, screen_line: &usize) -> usize {
        self.screen_lines[*screen_line].0 + 1
    }
    fn is_wrapped_line(&self, screen_line: &usize) -> bool {
        let (line, _, _) = self.screen_lines[*screen_line];
        self.lines[line].0 != self.lines[line].1
    }
    fn is_start_of_wrapped_line(&self, screen_line: &usize) -> bool {
        self.is_wrapped_line(screen_line) && self.screen_lines[*screen_line].1 == 0
    }
    fn is_end_of_wrapped_line(&self, screen_line: &usize) -> bool {
        self.is_wrapped_line(screen_line) && self.screen_lines[*screen_line].2
    }
    fn is_after_start_of_wrapped_line(&self, screen_line: &usize) -> bool {
        self.screen_lines[*screen_line].1 > 0
    }
    fn is_before_end_of_wrapped_line(&self, screen_line: &usize) -> bool {
        !self.screen_lines[*screen_line].2
    }
    fn cursor_range(&self, cursor: &usize) -> ContentRange<usize> {
        let (start, end) = self.lines[*cursor];
        ContentRange { start, end, num_screen_lines: end - start + 1 }
    }
    fn convert_screen_line_to_cursor(&self, screen_line: usize, _prev_cursor: &usize) -> usize {
        self.screen_lines[screen_line].0
    }
    fn move_cursor_down(&mut self, lines: usize, cursor: &usize) -> Option<usize> {
        if *cursor + 1 < self.lines.len() {
            Some((*cursor + lines).min(self.lines.len() - 1))
        } else {
            None
        }
    }
    fn move_cursor_up(&mut self, lines: usize, cursor: &usize) -> Option<usize> {
        if *cursor > 0 { Some(cursor.saturating_sub(lines)) } else { None }
    }
    fn expand_or_move_cursor_right_or_down(&mut self, _cursor: &usize) -> Option<usize> {
        None
    }
    fn collapse_or_move_cursor_left_or_up(&mut self, _cursor: &usize) -> Option<usize> {
        None
    }
    fn move_cursor_left_or_up_without_collapsing(&mut self, _cursor: &usize) -> Option<usize> {
        None
    }
    fn move_cursor_to_first_sibling(&mut self, _cursor: &usize) -> Option<usize> {
        None
    }
    fn move_cursor_to_last_sibling(&mut self, _cursor: &usize) -> Option<usize> {
        None
    }
    fn collapse_node_and_siblings(&mut self, _cursor: &usize, _depth: Option<usize>) -> Option<usize> {
        None
    }
    fn expand_node_and_siblings(&mut self, _cursor: &usize, _depth: Option<usize>) -> Option<usize> {
        None
    }
    fn move_cursor_to_next_sibling_or_down(&mut self, _cursor: &usize) -> Option<usize> {
        None
    }
    fn move_cursor_to_prev_sibling_or_up(&mut self, _cursor: &usize) -> Option<usize> {
        None
    }
    fn move_cursor_to_next_indentation_change(&mut self, _cursor: &usize) -> Option<usize> {
        None
    }
    fn move_cursor_to_prev_indentation_change(&mut self, _cursor: &usize) -> Option<usize> {
        None
    }
    fn clear_adjacent_sibling_nav_state(&mut self) {}
    fn get_search_input_under_cursor(&self, cursor: &usize) -> Option<String> {
        Some(format!("line{}", cursor))
    }
    fn num_lines(&self) -> usize {
        self.lines.len()
    }
    fn first_visible_cursor_at_or_before_line_index(&self, index: usize) -> Option<usize> {
        if self.lines.is_empty() { None } else { Some(index.min(self.lines.len() - 1)) }
    }
    fn raw_byte_index_to_visible_cursor(&self, index: usize) -> usize {
        self.raw_byte_index_to_cursor(index)
    }
    fn raw_bytes_for_searching(&self) -> &[u8] {
        &self.bytes
    }
    fn raw_byte_range_of_cursor(&self, cursor: &usize) -> Range<usize> {
        self.line_bytes[*cursor].0..self.line_bytes[*cursor].1
    }
    fn raw_byte_index_to_cursor(&self, index: usize) -> usize {
        self.line_bytes.iter().position(|(_, e)| index <= *e).unwrap_or(self.lines.len() - 1)
    }
    fn raw_byte_index_to_visible_screen_line(&self, index: usize) -> usize {
        let line = self.raw_byte_index_to_cursor(index);
        let column = index.saturating_sub(self.line_bytes[line].0);
        (self.lines[line].0 + column / self.width).min(self.lines[line].1)
    }
    fn is_raw_byte_range_visible(&self, _range: Range<usize>) -> bool {
        true
    }
    fn closest_visible_cursor(&self, cursor: &usize) -> usize {
        *cursor
    }
    fn debug_text_content(&self, _screen_line: &usize, _cursor: &usize) -> Vec<u8> {
        Vec::new()
    }
    fn render_screen_line(&self, screen_line: &usize, _cursor: &usize) -> Option<Vec<PreHighlightingStyledSegment>> {
        let (line, column, _) = self.screen_lines[*screen_line];
        let (start, end) = self.line_bytes[line];
        let from = start + column;
        let to = (from + self.width).min(end);
        Some(vec![PreHighlightingStyledSegment {
            attrs: Attrs::default(),
            search_match_attrs: Attrs::default().invert(),
            content: Text::SourceRange(from..to),
        }])
    }
}

fn init(contents: &[u8], width: usize, height: usize, scrolloff: usize) -> DocumentViewer<WrapDoc> {
    DocumentViewer::new(WrapDoc::from_text(contents, width), 0, 0, Dimensions { width: 5 + width, height }, scrolloff)
}

/// The line number of the top screen line, whether that screen line
/// continues a wrapped line, and the number of the focused line.
fn state(v: &DocumentViewer<WrapDoc>) -> (usize, bool, usize) {
    let top = v.viewport_lines()[0].unwrap();
    (v.doc().line_number(&top), v.doc().is_after_start_of_wrapped_line(&top), *v.current_focus() + 1)
}

#[test]
fn test_scroll_up_and_down() {
    let mut viewer = init(b"aaa\nbb\ncccc\ndddddd\neeeeeee\nff\nggggg\nhh\ni\n", 4, 5, 1);
    assert_eq!(state(&viewer), (1, false, 1));
    viewer.scroll_viewport_down(1);
    assert_eq!(state(&viewer), (2, false, 3));
    viewer.scroll_viewport_down(1);
    assert_eq!(state(&viewer), (3, false, 4));
    viewer.scroll_viewport_down(1);
    assert_eq!(state(&viewer), (4, false, 4));
    viewer.scroll_viewport_down(1);
    assert_eq!(state(&viewer), (4, true, 5));
    viewer.scroll_viewport_down(10);
    assert_eq!(state(&viewer), (9, false, 9));
    assert_eq!(viewer.viewport_lines()[1], None);

    viewer.scroll_viewport_up(4);
    assert_eq!(state(&viewer), (6, false, 8));
    viewer.scroll_viewport_up(1);
    assert_eq!(state(&viewer), (5, true, 7));
    viewer.scroll_viewport_up(1);
    assert_eq!(state(&viewer), (5, false, 7));
    viewer.scroll_viewport_up(1);
    assert_eq!(state(&viewer), (4, true, 6));
    viewer.scroll_viewport_up(10);
    assert_eq!(state(&viewer), (1, false, 4));
}

#[test]
fn test_page_up_and_down() {
    let mut viewer = init(b"a\nb\nc\nd\ne\nf\ng\nh\ni\nj\nk\n", 1, 3, 1);
    viewer.page_down(1);
    assert_eq!(state(&viewer), (4, false, 5));
    viewer.page_down(2);
    assert_eq!(state(&viewer), (10, false, 11));
    viewer.page_down(1);
    assert_eq!(state(&viewer), (11, false, 11));

    viewer.page_up(1);
    assert_eq!(state(&viewer), (8, false, 9));
    viewer.page_up(2);
    assert_eq!(state(&viewer), (2, false, 3));
    viewer.page_up(1);
    assert_eq!(state(&viewer), (1, false, 2));
}

#[test]
fn focus_bottom_keeps_a_visible_end_in_place() {
    // From the original's focus test: the last line, wrapped over two
    // screen lines, ends at the bottom; when it already shows, the viewport
    // stays.
    let mut viewer = init(b"a\nb\nc\nd\ne\nffff\n", 2, 5, 1);
    viewer.focus_bottom();
    assert_eq!(state(&viewer), (3, false, 6));
    viewer.scroll_viewport_down(1);
    viewer.focus_bottom();
    assert_eq!(state(&viewer), (4, false, 6));
    viewer.focus_top();
    assert_eq!(state(&viewer), (1, false, 1));
}

fn acceptable_screen_indexes(viewer: &DocumentViewer<WrapDoc>, line: usize) -> (usize, usize) {
    let cursor_range = viewer.doc().cursor_range(&line);
    let r = viewer.calculate_acceptable_start_screen_indexes_to_show_entire_content_range(&cursor_range);
    (r.start, r.end)
}

#[test]
fn test_acceptable_start_screen_indexes() {
    let mut viewer = init(b"a\nbbbb\nc\nd\ne\nf\ng\n", 1, 10, 0);
    // Line 2 takes screen lines 1 to 4.
    assert_eq!(acceptable_screen_indexes(&viewer, 1), (0, 1));
    viewer.set_scrolloff(3);
    assert_eq!(acceptable_screen_indexes(&viewer, 1), (1, 1));
    let viewer = init(b"a\nbbbbbbbb\nc\nd\ne\nf\n", 1, 10, 4);
    assert_eq!(acceptable_screen_indexes(&viewer, 1), (1, 1));
}

#[test]
fn test_render() {
    let mut viewer = init(b"aaa\nbb\ncccc\ndddddd\ne\n", 4, 7, 0);
    let (rows, source) = viewer.render();
    let source = source.to_vec();
    assert_eq!(rows.len(), 7);
    let numbers: Vec<Vec<u8>> = rows[..6].iter().map(|r| r[0].content.as_bytes(&source).to_vec()).collect();
    assert_eq!(numbers, vec![b"   1".to_vec(), b"   2".to_vec(), b"   3".to_vec(), b"   4".to_vec(), b"    ".to_vec(), b"   5".to_vec()]);
    assert_eq!(rows[0][0].attrs, Attrs::from_ansi_fg(AnsiColor::Yellow));
    let dimmed = Attrs { dimmed: true, ..Attrs::default() };
    assert_eq!(rows[1][0].attrs, dimmed);
    for row in &rows[..6] {
        assert_eq!(row[1].attrs, dimmed);
        assert_eq!(row[1].content.as_bytes(&source), b" ");
    }
    assert_eq!(rows[3][2].content.as_bytes(&source), b"dddd");
    assert_eq!(rows[4][2].content.as_bytes(&source), b"dd");
    assert_eq!(rows[6].len(), 1);
    assert_eq!(rows[6][0].content.as_bytes(&source), b"~");
    assert_eq!(rows[6][0].attrs, dimmed);
    assert!(viewer.should_draw_screen_after_appended_data());
}

#[test]
fn actions_do_nothing_on_a_screen_too_small() {
    let mut viewer = init(b"a\nb\nc\n", 1, 0, 0);
    viewer.do_action(Action::MoveCursorDown(1));
    viewer.do_action(Action::FocusBottom);
    assert_eq!(*viewer.current_focus(), 0);
    assert!(!viewer.should_draw_screen_after_appended_data() || viewer.dimensions_are_too_small_to_show_content());
}

#[test]
fn focusing_the_bottom_follows_the_end_until_the_focus_moves() {
    let mut viewer = init(b"a\nb\nc\nd\ne\nf\ng\n", 1, 3, 0);
    let (_, _) = viewer.render();
    assert!(!viewer.should_draw_screen_after_appended_data());
    viewer.do_action(Action::FocusBottom);
    assert_eq!(*viewer.current_focus(), 6);
    assert!(viewer.should_draw_screen_after_appended_data());
    viewer.do_action(Action::ScrollViewportUp(0));
    assert!(viewer.should_draw_screen_after_appended_data());
    viewer.do_action(Action::MoveCursorUp(2));
    assert_eq!(*viewer.current_focus(), 4);
    assert!(!viewer.should_draw_screen_after_appended_data());
}

#[test]
fn moving_the_cursor_keeps_it_within_the_scrolloff() {
    let mut viewer = init(b"a\nb\nc\nd\ne\nf\ng\nh\ni\nj\n", 1, 5, 1);
    viewer.do_action(Action::MoveCursorDown(3));
    assert_eq!(state(&viewer), (1, false, 4));
    viewer.do_action(Action::MoveCursorDown(1));
    assert_eq!(state(&viewer), (2, false, 5));
    viewer.do_action(Action::MoveCursorDown(100));
    assert_eq!(state(&viewer), (6, false, 10));
    viewer.do_action(Action::MoveCursorUp(3));
    assert_eq!(state(&viewer), (6, false, 7));
    viewer.do_action(Action::MoveCursorUp(1));
    assert_eq!(state(&viewer), (5, false, 6));
}

#[test]
fn jumping_moves_the_viewport_and_keeps_the_focus_in_place() {
    let mut viewer = init(b"a\nb\nc\nd\ne\nf\ng\nh\ni\nj\nk\nl\n", 1, 4, 0);
    // Half the screen: two lines.
    viewer.do_action(Action::JumpDown(None));
    assert_eq!(state(&viewer), (3, false, 3));
    viewer.do_action(Action::JumpDown(Some(5)));
    assert_eq!(state(&viewer), (8, false, 8));
    // The count is kept.
    viewer.do_action(Action::JumpDown(None));
    assert_eq!(state(&viewer), (9, false, 9));
    // At the end the focus moves instead.
    viewer.do_action(Action::JumpDown(None));
    assert_eq!(state(&viewer), (9, false, 12));
    viewer.do_action(Action::JumpUp(Some(3)));
    assert_eq!(state(&viewer), (6, false, 9));
    viewer.do_action(Action::JumpUp(None));
    assert_eq!(state(&viewer), (3, false, 6));
    viewer.do_action(Action::JumpUp(None));
    assert_eq!(state(&viewer), (1, false, 4));
    viewer.do_action(Action::JumpUp(None));
    assert_eq!(state(&viewer), (1, false, 1));
}

#[test]
fn moving_to_a_line_number() {
    let mut viewer = init(b"a\nb\nc\nd\ne\nf\ng\nh\ni\nj\nk\n", 1, 5, 1);
    viewer.do_action(Action::MoveToLineNumber(6));
    assert_eq!(*viewer.current_focus() + 1, 6);
    viewer.do_action(Action::MoveToLineNumber(100));
    assert_eq!(*viewer.current_focus() + 1, 11);
    assert_eq!(state(&viewer).0, 7);
    viewer.do_action(Action::MoveToLineNumber(1));
    assert_eq!(state(&viewer), (1, false, 1));
}

#[test]
fn searching_moves_the_focus_from_match_to_match() {
    let mut viewer = init(b"a\nb\nc\nb\na\n", 1, 3, 0);
    assert_eq!(viewer.initialize_search(String::new(), SearchDirection::Forward), Err("Cannot initialize search with empty string".to_string()));
    assert!(!viewer.has_initialized_search_state());
    assert_eq!(viewer.initialize_search("b".to_string(), SearchDirection::Forward), Ok(()));
    assert_eq!(viewer.search_state().as_ref().unwrap().num_matches(), 2);
    viewer.do_action(Action::MoveToSearchMatch(MovementMethod::MoveCursor, JumpDirection::Next, 1));
    assert_eq!(*viewer.current_focus(), 1);
    assert!(viewer.search_state().as_ref().unwrap().should_show_matches());
    viewer.do_action(Action::MoveToSearchMatch(MovementMethod::MoveCursor, JumpDirection::Next, 1));
    assert_eq!(*viewer.current_focus(), 3);
    // Moving the cursor otherwise stops showing the matches.
    viewer.do_action(Action::MoveCursorUp(1));
    assert!(!viewer.search_state().as_ref().unwrap().should_show_matches());
}

#[test]
fn rendering_highlights_the_matches_shown() {
    let mut viewer = init(b"ab\nb\n", 2, 2, 0);
    viewer.initialize_search("b".to_string(), SearchDirection::Forward).unwrap();
    viewer.do_action(Action::MoveToSearchMatch(MovementMethod::MoveCursor, JumpDirection::Next, 1));
    let (rows, source) = viewer.render();
    let source = source.to_vec();
    assert_eq!(rows[0].len(), 4);
    assert_eq!(rows[0][2].content.as_bytes(&source), b"a");
    assert_eq!(rows[0][2].attrs, Attrs::default());
    assert_eq!(rows[0][3].content.as_bytes(&source), b"b");
    assert_eq!(rows[0][3].attrs, Attrs::default().invert());
}

#[test]
fn the_search_input_under_the_cursor_comes_from_the_document() {
    let viewer = init(b"a\nb\n", 1, 2, 0);
    assert_eq!(viewer.get_search_input_under_cursor(), Some("line0".to_string()));
}

#[test]
fn a_viewer_at_the_end_follows_appended_data() {
    let mut viewer = init(b"a\nb\nc\n", 1, 2, 0);
    viewer.do_action(Action::FocusBottom);
    assert_eq!(state(&viewer), (2, false, 3));
    viewer.append_document_data(b"d\ne\n");
    assert_eq!(state(&viewer), (4, false, 5));
    assert!(viewer.should_draw_screen_after_appended_data());
    viewer.document_eof();
    assert_eq!(state(&viewer), (4, false, 5));
}

#[test]
fn a_viewer_away_from_the_end_stays_where_it_is_when_data_comes() {
    let mut viewer = init(b"a\nb\nc\n", 1, 2, 0);
    viewer.append_document_data(b"d\ne\n");
    assert_eq!(state(&viewer), (1, false, 1));
    assert_eq!(viewer.doc().num_lines(), 5);
}
