use jless::document::{ContentRange, DocMove, Document};
use jless::dimensions::Dimensions;
use jless::document_viewer::DocumentViewer;
use jless::rendering::PreHighlightingStyledSegment;
use std::ops::Range;

/// A document of `lines` screen lines, each ten bytes long; line `k` is
/// numbered `k / 2 + 1`, every document line being wrapped over two screen
/// lines; cursor `c` covers screen lines `c` and `c + 1`.
#[derive(Clone)]
struct TwoLineDoc {
    lines: usize,
    bytes: Vec<u8>,
}

impl Document for TwoLineDoc {
    type ScreenLine = usize;
    type Cursor = usize;

    fn spec_next_screen_line(&self, sl: usize) -> Option<usize> {
        self.next_screen_line(&sl)
    }
    fn spec_prev_screen_line(&self, sl: usize) -> Option<usize> {
        self.prev_screen_line(&sl)
    }
    fn spec_line_number(&self, sl: usize) -> usize {
        self.line_number(&sl)
    }
    fn spec_is_wrapped_line(&self, sl: usize) -> bool {
        self.is_wrapped_line(&sl)
    }
    fn spec_is_start_of_wrapped_line(&self, sl: usize) -> bool {
        self.is_start_of_wrapped_line(&sl)
    }
    fn spec_cursor_range(&self, cursor: usize) -> ContentRange<usize> {
        self.cursor_range(&cursor)
    }
    fn spec_visible_screen_line(&self, index: usize) -> usize {
        self.raw_byte_index_to_visible_screen_line(index)
    }
    fn spec_move(&self, m: DocMove, cursor: usize) -> (Self, Option<usize>) {
        let mut d = self.clone();
        let r = match m {
            DocMove::Down(n) => d.move_cursor_down(n, &cursor),
            DocMove::Up(n) => d.move_cursor_up(n, &cursor),
            DocMove::ExpandOrRightOrDown => d.expand_or_move_cursor_right_or_down(&cursor),
            DocMove::CollapseOrLeftOrUp => d.collapse_or_move_cursor_left_or_up(&cursor),
            DocMove::LeftOrUpWithoutCollapsing => d.move_cursor_left_or_up_without_collapsing(&cursor),
            DocMove::FirstSibling => d.move_cursor_to_first_sibling(&cursor),
            DocMove::LastSibling => d.move_cursor_to_last_sibling(&cursor),
            DocMove::NextSiblingOrDown => d.move_cursor_to_next_sibling_or_down(&cursor),
            DocMove::PrevSiblingOrUp => d.move_cursor_to_prev_sibling_or_up(&cursor),
            DocMove::NextIndentationChange => d.move_cursor_to_next_indentation_change(&cursor),
            DocMove::PrevIndentationChange => d.move_cursor_to_prev_indentation_change(&cursor),
            DocMove::CollapseNodeAndSiblings(depth) => d.collapse_node_and_siblings(&cursor, depth),
            DocMove::ExpandNodeAndSiblings(depth) => d.expand_node_and_siblings(&cursor, depth),
        };
        (d, r)
    }
    fn spec_render_screen_line(&self, sl: usize, cursor: usize) -> Option<Vec<PreHighlightingStyledSegment>> {
        self.render_screen_line(&sl, &cursor)
    }
    fn spec_debug_text_content(&self, sl: usize, cursor: usize) -> Vec<u8> {
        self.debug_text_content(&sl, &cursor)
    }
    fn spec_search_input_under_cursor(&self, cursor: usize) -> Option<String> {
        self.get_search_input_under_cursor(&cursor)
    }
    fn spec_appended(&self, data: &[u8]) -> Self {
        let mut d = self.clone();
        d.append(data);
        d
    }
    fn spec_at_eof(&self) -> Self {
        let mut d = self.clone();
        d.eof();
        d
    }
    fn spec_cleared_sibling_nav_state(&self) -> Self {
        self.clone()
    }
    fn spec_num_lines(&self) -> usize {
        self.num_lines()
    }
    fn spec_first_visible_cursor_at_or_before_line_index(&self, index: usize) -> Option<usize> {
        self.first_visible_cursor_at_or_before_line_index(index)
    }
    fn spec_visible_cursor(&self, index: usize) -> usize {
        self.raw_byte_index_to_visible_cursor(index)
    }
    fn spec_cursor_at(&self, index: usize) -> usize {
        self.raw_byte_index_to_cursor(index)
    }
    fn spec_closest_visible_cursor(&self, cursor: usize) -> usize {
        self.closest_visible_cursor(&cursor)
    }
    fn spec_byte_range_of_cursor(&self, cursor: usize) -> Range<usize> {
        self.raw_byte_range_of_cursor(&cursor)
    }
    fn spec_is_range_visible(&self, range: Range<usize>) -> bool {
        self.is_raw_byte_range_visible(range)
    }
    fn spec_convert_screen_line_to_cursor(&self, sl: usize, prev_cursor: usize) -> usize {
        self.convert_screen_line_to_cursor(sl, &prev_cursor)
    }
    fn spec_top_screen_line_and_cursor(&self) -> Option<(usize, usize)> {
        self.top_screen_line_and_cursor()
    }
    fn spec_bottom_screen_line_and_cursor(&self) -> Option<(usize, usize)> {
        self.bottom_screen_line_and_cursor()
    }

    fn new(width: usize) -> Self {
        TwoLineDoc { lines: width, bytes: vec![b'x'; width * 10] }
    }
    fn width(&self) -> usize {
        80
    }
    fn resize(&mut self, _new_width: usize) {}
    fn append(&mut self, data: &[u8]) {
        self.bytes.extend_from_slice(data);
    }
    fn eof(&mut self) {}
    fn top_screen_line_and_cursor(&self) -> Option<(usize, usize)> {
        Some((0, 0))
    }
    fn bottom_screen_line_and_cursor(&self) -> Option<(usize, usize)> {
        Some((self.lines - 1, self.lines - 1))
    }
    fn next_screen_line(&self, screen_line: &usize) -> Option<usize> {
        if *screen_line + 1 < self.lines {
            Some(*screen_line + 1)
        } else {
            None
        }
    }
    fn prev_screen_line(&self, screen_line: &usize) -> Option<usize> {
        if *screen_line > 0 {
            Some(*screen_line - 1)
        } else {
            None
        }
    }
    fn line_number(&self, screen_line: &usize) -> usize {
        *screen_line / 2 + 1
    }
    fn is_wrapped_line(&self, _screen_line: &usize) -> bool {
        true
    }
    fn is_start_of_wrapped_line(&self, screen_line: &usize) -> bool {
        *screen_line % 2 == 0
    }
    fn is_end_of_wrapped_line(&self, screen_line: &usize) -> bool {
        *screen_line % 2 == 1
    }
    fn is_after_start_of_wrapped_line(&self, screen_line: &usize) -> bool {
        *screen_line % 2 == 1
    }
    fn is_before_end_of_wrapped_line(&self, screen_line: &usize) -> bool {
        *screen_line % 2 == 0
    }
    fn cursor_range(&self, cursor: &usize) -> ContentRange<usize> {
        ContentRange { start: *cursor, end: *cursor + 1, num_screen_lines: 2 }
    }
    fn convert_screen_line_to_cursor(&self, screen_line: usize, _prev_cursor: &usize) -> usize {
        screen_line
    }
    fn move_cursor_down(&mut self, _lines: usize, _cursor: &usize) -> Option<usize> {
        None
    }
    fn move_cursor_up(&mut self, _lines: usize, _cursor: &usize) -> Option<usize> {
        None
    }
    fn expand_or_move_cursor_right_or_down(&mut self, _cursor: &usize) -> Option<usize> {
        None
    }
    fn collapse_or_move_cursor_left_or_up(&mut self, _cursor: &usize) -> Option<usize> {
        None
    }
    fn move_cursor_left_or_up_without_collapsing(&mut self, _cursor: &usize) -> Option<usize> {
        None
    }
    fn move_cursor_to_first_sibling(&mut self, _cursor: &usize) -> Option<usize> {
        None
    }
    fn move_cursor_to_last_sibling(&mut self, _cursor: &usize) -> Option<usize> {
        None
    }
    fn collapse_node_and_siblings(&mut self, _cursor: &usize, _depth: Option<usize>) -> Option<usize> {
        None
    }
    fn expand_node_and_siblings(&mut self, _cursor: &usize, _depth: Option<usize>) -> Option<usize> {
        None
    }
    fn move_cursor_to_next_sibling_or_down(&mut self, _cursor: &usize) -> Option<usize> {
        None
    }
    fn move_cursor_to_prev_sibling_or_up(&mut self, _cursor: &usize) -> Option<usize> {
        None
    }
    fn move_cursor_to_next_indentation_change(&mut self, _cursor: &usize) -> Option<usize> {
        None
    }
    fn move_cursor_to_prev_indentation_change(&mut self, _cursor: &usize) -> Option<usize> {
        None
    }
    fn clear_adjacent_sibling_nav_state(&mut self) {}
    fn get_search_input_under_cursor(&self, cursor: &usize) -> Option<String> {
        Some(format!("line{}", cursor))
    }
    fn num_lines(&self) -> usize {
        self.lines / 2
    }
    fn first_visible_cursor_at_or_before_line_index(&self, index: usize) -> Option<usize> {
        if index < self.lines / 2 { Some(2 * index) } else if self.lines >= 2 { Some(self.lines - 2) } else { None }
    }
    fn raw_byte_index_to_visible_cursor(&self, index: usize) -> usize {
        index / 10
    }
    fn raw_bytes_for_searching(&self) -> &[u8] {
        &self.bytes
    }
    fn raw_byte_range_of_cursor(&self, cursor: &usize) -> Range<usize> {
        *cursor * 10..*cursor * 10 + 20
    }
    fn raw_byte_index_to_cursor(&self, index: usize) -> usize {
        index / 10
    }
    fn raw_byte_index_to_visible_screen_line(&self, index: usize) -> usize {
        index / 10
    }
    fn is_raw_byte_range_visible(&self, _range: Range<usize>) -> bool {
        true
    }
    fn closest_visible_cursor(&self, cursor: &usize) -> usize {
        *cursor
    }
    fn debug_text_content(&self, _screen_line: &usize, _cursor: &usize) -> Vec<u8> {
        Vec::new()
    }
    fn render_screen_line(&self, _screen_line: &usize, _cursor: &usize) -> Option<Vec<PreHighlightingStyledSegment>> {
        None
    }
}

#[test]
fn first_screen_line_is_the_start_of_line_one() {
    let doc = TwoLineDoc::new(10);
    assert!(doc.is_first_screen_line_of_document(&0));
    assert!(!doc.is_first_screen_line_of_document(&1));
    assert!(!doc.is_first_screen_line_of_document(&2));
}

#[test]
fn cursor_covers_its_screen_lines() {
    let doc = TwoLineDoc::new(10);
    assert!(!doc.does_screen_line_intersect_cursor(&2, &3));
    assert!(doc.does_screen_line_intersect_cursor(&3, &3));
    assert!(doc.does_screen_line_intersect_cursor(&4, &3));
    assert!(!doc.does_screen_line_intersect_cursor(&5, &3));
}

#[test]
fn center_of_short_ranges_is_their_start() {
    let doc = TwoLineDoc::new(10);
    assert_eq!(doc.center_of_content_range(&ContentRange { start: 4, end: 4, num_screen_lines: 1 }), 4);
    assert_eq!(doc.center_of_content_range(&ContentRange { start: 4, end: 5, num_screen_lines: 2 }), 4);
}

#[test]
fn center_of_longer_ranges_is_halfway_down() {
    let doc = TwoLineDoc::new(10);
    assert_eq!(doc.center_of_content_range(&ContentRange { start: 4, end: 8, num_screen_lines: 5 }), 6);
    assert_eq!(doc.center_of_content_range(&ContentRange { start: 1, end: 6, num_screen_lines: 6 }), 3);
}

#[test]
fn diff_counts_lines_up() {
    let doc = TwoLineDoc::new(10);
    assert_eq!(doc.diff_screen_lines(&7, &7), 0);
    assert_eq!(doc.diff_screen_lines(&7, &2), 5);
    assert_eq!(doc.diff_screen_lines(&9, &0), 9);
}

#[test]
fn byte_ranges_map_to_screen_lines() {
    let doc = TwoLineDoc::new(10);
    let r = doc.raw_byte_range_to_visible_content_range(15..42);
    assert_eq!((r.start, r.end, r.num_screen_lines), (1, 4, 4));
    // An empty range uses its start for both ends.
    let r = doc.raw_byte_range_to_visible_content_range(25..25);
    assert_eq!((r.start, r.end, r.num_screen_lines), (2, 2, 1));
    // So does an empty range at the start of the document.
    let r = doc.raw_byte_range_to_visible_content_range(0..0);
    assert_eq!((r.start, r.end, r.num_screen_lines), (0, 0, 1));
    // A range that ends right after a line's last byte stays on that line.
    let r = doc.raw_byte_range_to_visible_content_range(10..20);
    assert_eq!((r.start, r.end, r.num_screen_lines), (1, 1, 1));
}

#[test]
fn no_delimiters_are_inverted_by_default() {
    let d = TwoLineDoc::inverted_paired_delimiters_for_search_input();
    assert!(!d.square_brackets && !d.curly_braces && !d.parentheses);
}

fn viewer(lines: usize, height: usize, top: usize, focus: usize, scrolloff: usize) -> DocumentViewer<TwoLineDoc> {
    DocumentViewer::new(TwoLineDoc::new(lines), top, focus, Dimensions { width: 80, height }, scrolloff)
}

fn top_line(v: &DocumentViewer<TwoLineDoc>) -> usize {
    v.viewport_lines()[0].unwrap()
}

#[test]
fn a_new_viewer_starts_where_it_is_told() {
    let v = viewer(10, 4, 2, 3, 1);
    assert_eq!(*v.current_focus(), 3);
    assert_eq!(v.viewport_lines(), vec![Some(2), Some(3), Some(4), Some(5)]);
    assert!(!v.dimensions_are_too_small_to_show_content());
    assert!(v.should_draw_screen_after_appended_data());
    assert!(!v.has_initialized_search_state());
    assert!(v.search_state().is_none());
    assert_eq!(v.doc().raw_bytes_for_searching().len(), 100);
}

#[test]
fn a_screen_without_lines_is_too_small() {
    let v = viewer(10, 0, 0, 0, 1);
    assert!(v.dimensions_are_too_small_to_show_content());
    assert!(v.viewport_lines().is_empty());
}

#[test]
fn rows_past_the_end_of_the_document_are_empty() {
    let v = viewer(5, 4, 3, 3, 0);
    assert_eq!(v.viewport_lines(), vec![Some(3), Some(4), None, None]);
}

#[test]
fn scrolling_stops_at_the_ends_of_the_document() {
    let mut v = viewer(10, 4, 2, 4, 1);
    v.scroll_viewport_down(3);
    assert_eq!(top_line(&v), 5);
    v.scroll_viewport_down(100);
    assert_eq!(top_line(&v), 9);
    v.scroll_viewport_up(4);
    assert_eq!(top_line(&v), 5);
    v.scroll_viewport_up(100);
    assert_eq!(top_line(&v), 0);
}

#[test]
fn scrolling_keeps_the_focus_on_screen() {
    // Screen of four lines with a scrolloff of one: the focus may take
    // screen indexes 1 to 2 (0 to 2 at the top of the document).
    let mut v = viewer(20, 4, 0, 0, 1);
    v.scroll_viewport_down(5);
    assert_eq!(top_line(&v), 5);
    assert_eq!(*v.current_focus(), 6);
    v.scroll_viewport_up(3);
    assert_eq!(top_line(&v), 2);
    assert_eq!(*v.current_focus(), 4);
}

#[test]
fn scrolling_by_nothing_changes_nothing() {
    let mut v = viewer(10, 4, 0, 0, 1);
    v.scroll_viewport_up(3);
    assert_eq!(top_line(&v), 0);
    assert_eq!(*v.current_focus(), 0);
}

#[test]
fn paging_moves_by_whole_screens() {
    let mut v = viewer(30, 4, 0, 0, 1);
    v.page_down(2);
    assert_eq!(top_line(&v), 8);
    v.page_up(1);
    assert_eq!(top_line(&v), 4);
}

#[test]
fn the_focused_element_can_be_moved_on_screen() {
    // Cursor 10 covers screen lines 10 and 11.
    let mut v = viewer(30, 8, 0, 10, 2);
    v.move_focused_elem_to_top();
    assert_eq!(top_line(&v), 8);
    v.move_focused_elem_to_bottom();
    // The end (line 11) lands on screen index 8 - 1 - 2 = 5.
    assert_eq!(top_line(&v), 6);
    v.move_focused_elem_to_center();
    // (8 - 2) / 2 = 3 lines above the start.
    assert_eq!(top_line(&v), 7);
    assert_eq!(*v.current_focus(), 10);
}

#[test]
fn moving_to_the_top_stops_at_the_start_of_the_document() {
    let mut v = viewer(30, 8, 5, 1, 3);
    v.move_focused_elem_to_top();
    assert_eq!(top_line(&v), 0);
}

#[test]
fn the_scrolloff_can_be_changed() {
    let mut v = viewer(30, 8, 0, 10, 0);
    v.move_focused_elem_to_top();
    assert_eq!(top_line(&v), 10);
    v.set_scrolloff(2);
    v.move_focused_elem_to_top();
    assert_eq!(top_line(&v), 8);
    // The scrolloff is capped at half the other lines: (8 - 1) / 2 = 3.
    v.set_scrolloff(100);
    v.move_focused_elem_to_top();
    assert_eq!(top_line(&v), 7);
}

fn one_line(sl: usize) -> ContentRange<usize> {
    ContentRange { start: sl, end: sl, num_screen_lines: 1 }
}

#[test]
fn far_content_is_shown_in_the_middle_of_the_acceptable_places() {
    // Height 8, scrolloff 2: a line may start at screen indexes 2 to 5.
    let mut v = viewer(30, 8, 0, 0, 2);
    v.update_so_content_range_is_visible(one_line(20));
    assert_eq!(top_line(&v), 17);
}

#[test]
fn content_already_in_place_does_not_move_the_viewport() {
    let mut v = viewer(30, 8, 17, 0, 2);
    v.update_so_content_range_is_visible(one_line(21));
    assert_eq!(top_line(&v), 17);
}

#[test]
fn near_content_moves_the_viewport_as_little_as_it_can() {
    let mut v = viewer(30, 8, 17, 0, 2);
    v.update_so_content_range_is_visible(one_line(24));
    assert_eq!(top_line(&v), 19);
    let mut v = viewer(30, 8, 7, 0, 2);
    v.update_so_content_range_is_visible(one_line(5));
    assert_eq!(top_line(&v), 3);
}

#[test]
fn far_content_above_is_shown_in_the_middle() {
    let mut v = viewer(30, 8, 19, 0, 2);
    v.update_so_content_range_is_visible(one_line(10));
    assert_eq!(top_line(&v), 7);
}

#[test]
fn the_viewport_does_not_show_past_the_end_when_it_need_not() {
    let mut v = viewer(30, 8, 3, 0, 2);
    v.update_so_content_range_is_visible(one_line(29));
    assert_eq!(top_line(&v), 22);
}

#[test]
fn tall_content_is_shown_from_its_start() {
    let mut v = viewer(30, 8, 0, 0, 2);
    v.update_so_content_range_is_visible(ContentRange { start: 12, end: 21, num_screen_lines: 10 });
    assert_eq!(top_line(&v), 12);
}

#[test]
fn focusing_the_top_and_the_bottom() {
    let mut v = viewer(30, 8, 10, 12, 2);
    v.focus_bottom();
    assert_eq!(*v.current_focus(), 29);
    assert_eq!(top_line(&v), 22);
    v.focus_top();
    assert_eq!(*v.current_focus(), 0);
    assert_eq!(top_line(&v), 0);
    // When the end already shows, the viewport stays.
    let mut v = viewer(30, 8, 25, 26, 2);
    v.focus_bottom();
    assert_eq!(top_line(&v), 25);
    assert_eq!(*v.current_focus(), 29);
}

#[test]
fn line_numbers_take_at_least_four_columns() {
    assert_eq!(DocumentViewer::<TwoLineDoc>::width_of_line_numbers(1), 4);
    assert_eq!(DocumentViewer::<TwoLineDoc>::width_of_line_numbers(9999), 4);
    assert_eq!(DocumentViewer::<TwoLineDoc>::width_of_line_numbers(10000), 5);
    assert_eq!(DocumentViewer::<TwoLineDoc>::width_of_line_numbers(123456), 6);
    assert_eq!(DocumentViewer::<TwoLineDoc>::width_of_line_numbers(usize::MAX), 20);
}

#[test]
fn the_document_gets_the_columns_beside_the_line_numbers() {
    assert_eq!(DocumentViewer::<TwoLineDoc>::available_width_for_doc_content(80, 100), Some(75));
    assert_eq!(DocumentViewer::<TwoLineDoc>::available_width_for_doc_content(6, 100), Some(1));
    assert_eq!(DocumentViewer::<TwoLineDoc>::available_width_for_doc_content(5, 100), None);
    assert_eq!(DocumentViewer::<TwoLineDoc>::available_width_for_doc_content(80, 123456), Some(73));
}
