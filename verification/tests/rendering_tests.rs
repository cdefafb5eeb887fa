use std::collections::HashMap;
use std::fmt::Write;
use std::ops::Range;
use std::rc::Rc;

use jless::rendering::{
    separate_highlighted_and_unhighlighted_ranges, AnsiColor, Attrs, Color, Compositor, Fragment,
    PreHighlightingStyledSegment, StyledSegment, Text, TokenColorScheme,
};
use unicode_width::UnicodeWidthStr;

fn print_composited_line<SR>(line: &Vec<Fragment<SR>>, content: &[u8]) -> String {
    let mut s = String::new();
    for fragment in line.iter() {
        s.push_str(fragment.text.as_str(content));
    }
    s
}

fn print_composited_lines<SR>(lines: &Vec<Vec<Fragment<SR>>>, doc_width: usize, content: &[u8]) -> String {
    let mut s = String::new();
    for line in lines.iter() {
        let line = print_composited_line(line, content);
        let line_width = UnicodeWidthStr::width(line.as_str());
        let line = line.replace("\u{200b}", "<ZWSP>");
        let num_spaces = doc_width.saturating_sub(line_width);
        s.push_str(&format!("|{}{:num_spaces$}|\n", line, "", num_spaces = num_spaces));
    }
    s
}

fn availability<SR: Copy>(c: &Compositor<'_, SR>) -> String {
    format!(
        "remaining: {}, reserved: {}",
        c.remaining_space(),
        c.reserved_space()
            .map(|r| r.to_string())
            .unwrap_or("-".to_string()),
    )
}

fn compositor(doc: &'static [u8], width: usize) -> Compositor<'static, ()> {
    Compositor::new(doc, width)
}

#[test]
fn test_basic_compositor() {
    let doc: &'static [u8] = b"abcdefghijklmnopqrstuvwxyz";
    let mut c = compositor(doc, 5);

    c.append_text(Text::SourceRange(0..3), ());
    c.append_text(Text::Static("111222333"), ());
    c.append_text(Text::SourceRange(23..26), ());
    c.append_text(Text::String((Rc::new(".---.".to_string()), 1..4)), ());

    assert_eq!(
        print_composited_lines(c.lines(), 5, doc),
        "|abc11|\n|12223|\n|33xyz|\n|---  |\n"
    );
}

#[test]
fn test_compositor_with_wide_chars() {
    let mut c = compositor(b"", 5);

    c.append_text(Text::Static("1🦀45a"), ());
    c.append_text(Text::Static("bcd👀34"), ());
    c.append_text(Text::Static("5\u{200b}abc"), ());

    // Eyes get pushed to next line because not enough room; ZWSP gets appened
    // to the current line because it has 0 width.
    assert_eq!(
        print_composited_lines(c.lines(), 5, b""),
        "|1🦀45|\n|abcd |\n|👀345<ZWSP>|\n|abc  |\n"
    );
}

#[test]
fn test_compositor_with_single_col() {
    let mut c = compositor(b"", 1);
    c.append_text(Text::Static("a🦀b"), ());

    // Wide characters get replaced with an ellipsis when there's only
    // a single column.
    assert_eq!(print_composited_lines(c.lines(), 1, b""), "|a|\n|…|\n|b|\n");
}

#[test]
fn test_compositor_min_size_to_show_strings() {
    let f = Compositor::<()>::min_space_needed_to_show_str;
    assert_eq!(f(""), 0);
    assert_eq!(f("a"), 1);
    assert_eq!(f("abc"), 2);
    assert_eq!(f("🦀"), 2);
    assert_eq!(f("🦀abc"), 3);
    assert_eq!(f("\u{200b}abc"), 2);
}

#[test]
fn test_compositor_reservations() {
    let mut c = compositor(b"", 11);
    c.append_text(Text::Static("1"), ());
    assert!(!c.start_reserving_space(11));
    assert!(c.start_reserving_space(5));

    assert!(!c.reserve_more_space(6));
    assert!(c.reserve_more_space(5));
    c.give_back_reserved_space(1);

    assert!(!c.try_append_text(Text::Static("abc"), false, (), 0));
    c.give_back_reserved_space(1);
    assert!(c.try_append_text(Text::Static("abc"), false, (), 0));

    assert_eq!(print_composited_lines(c.lines(), 11, b""), "|1a…        |\n");
    assert_eq!(availability(&c), "remaining: 8, reserved: 8");

    c.give_back_reserved_space(1);
    assert!(!c.try_append_text(Text::Static("🦀"), false, (), 0));
    // With the one free space, and the one reclaimed space, now it can print it.
    assert!(c.try_append_text(Text::Static("🦀"), false, (), 1));

    assert_eq!(print_composited_lines(c.lines(), 11, b""), "|1a…🦀      |\n");
    assert_eq!(availability(&c), "remaining: 6, reserved: 6");

    c.give_back_reserved_space(2);
    assert_eq!(availability(&c), "remaining: 6, reserved: 4");

    assert!(c.try_append_text(Text::Static("ab"), false, (), 1));

    assert_eq!(print_composited_lines(c.lines(), 11, b""), "|1a…🦀ab    |\n");
    assert_eq!(availability(&c), "remaining: 4, reserved: 3");

    c.append_reserved_text(Text::Static("x"), ());

    assert_eq!(print_composited_lines(c.lines(), 11, b""), "|1a…🦀abx   |\n");
    assert_eq!(availability(&c), "remaining: 3, reserved: 2");
}

#[test]
fn test_compositor_delimited_content() {
    let mut c = compositor(b"", 10);
    assert!(c.start_reserving_space(7));
    assert!(!c.try_append_text(Text::Static("'123'"), true, (), 0));

    c.give_back_reserved_space(1);
    assert!(c.try_append_text(Text::Static("'123'"), true, (), 0));

    assert_eq!(print_composited_lines(c.lines(), 10, b""), "|'1…'      |\n");
    assert_eq!(availability(&c), "remaining: 6, reserved: 6");

    assert!(c.try_append_text(Text::Static("()"), true, (), 2));

    assert_eq!(print_composited_lines(c.lines(), 10, b""), "|'1…'()    |\n");
    assert_eq!(availability(&c), "remaining: 4, reserved: 4");

    c.give_back_reserved_space(2);
    assert!(!c.try_append_text(Text::Static("[🦀]"), true, (), 1));
    assert!(c.try_append_text(Text::Static("[🦀]"), true, (), 2));

    assert_eq!(print_composited_lines(c.lines(), 10, b""), "|'1…'()[🦀]|\n");
    assert_eq!(availability(&c), "remaining: 0, reserved: 0");
}

fn separated(r: &Range<usize>, matches: &[Range<usize>]) -> String {
    separate_highlighted_and_unhighlighted_ranges(r, matches)
        .into_iter()
        .map(|(r, b)| {
            format!(
                "{}: {:?}",
                if b { "  highlighted" } else { "unhighlighted" },
                r,
            )
        })
        .collect::<Vec<_>>()
        .join("\n")
}

#[test]
fn test_separate_highlighted_and_unhighlighted_ranges() {
    let f = separated;
    let search_matches = vec![10..20, 30..40, 40..40, 40..40, 50..50, 50..60, 70..70];

    assert_eq!(
        f(&(0..35), &search_matches),
        "unhighlighted: 0..10\n  highlighted: 10..20\nunhighlighted: 20..30\n  highlighted: 30..35"
    );
    assert_eq!(f(&(30..40), &search_matches), "  highlighted: 30..40");
    assert_eq!(
        f(&(30..45), &search_matches),
        "  highlighted: 30..40\nunhighlighted: 40..45"
    );
    assert_eq!(
        f(&(35..45), &search_matches),
        "  highlighted: 35..40\nunhighlighted: 40..45"
    );
    assert_eq!(f(&(40..45), &search_matches), "unhighlighted: 40..45");
    assert_eq!(
        f(&(40..55), &search_matches),
        "unhighlighted: 40..50\n  highlighted: 50..55"
    );
    assert_eq!(
        f(&(50..65), &search_matches),
        "  highlighted: 50..60\nunhighlighted: 60..65"
    );
    assert_eq!(
        f(&(65..75), &search_matches),
        "unhighlighted: 65..70\nunhighlighted: 70..75"
    );
    assert_eq!(f(&(70..70), &search_matches), "");
}

fn build_style_map(token_styles: Vec<(TokenColorScheme, &'static str)>) -> HashMap<Attrs, String> {
    let mut map = HashMap::new();
    for (token_style, style_name) in token_styles.into_iter() {
        let normal = format!("{}", style_name);
        let focused = format!("{} (focused)", style_name);
        if let Some(prev_name) = map.insert(token_style.normal, normal) {
            panic!("{} conflicts with {} in style map", style_name, prev_name);
        }
        if let Some(prev_name) = map.insert(token_style.focused, focused) {
            panic!("{} conflicts with {} in style map", style_name, prev_name);
        }
    }
    map
}

fn dump_segments(
    segments: Vec<PreHighlightingStyledSegment>,
    content: &[u8],
    style_map: &HashMap<Attrs, String>,
) -> String {
    let mut text_line = "text: ".to_string();
    let mut key_line = "      ".to_string();
    let mut segment_styles = vec![];

    for (i, segment) in segments.into_iter().enumerate() {
        let style_name = match style_map.get(&segment.attrs) {
            None => format!("??? ({:?})", segment.attrs),
            Some(style_name) => style_name.clone(),
        };

        let segment_text = String::from_utf8_lossy(segment.content.as_bytes(content)).to_string();
        let segment_width = UnicodeWidthStr::width(segment_text.as_str());
        let segment_key = char::from_digit(i as u32, 36).unwrap();
        let segment_kind = match segment.content {
            Text::SourceRange(range) => format!("range({:?})", range),
            Text::String((_, range)) => format!("string({:?})", range),
            Text::Static(_) => "static".to_string(),
        };

        if segment_width == 0 {
            continue;
        }

        let _ = text_line.write_str(&segment_text);
        let _ = key_line.write_char(segment_key);
        for _ in 0..(segment_width - 1) {
            let _ = key_line.write_char('.');
        }

        segment_styles.push(format!("{}: {:<25} : {}", segment_key, style_name, segment_kind));
    }

    let segment_styles = segment_styles.join("\n");

    format!("{}\n{}\n{}", text_line, key_line, segment_styles)
}

#[test]
fn test_dump_segments() {
    let default = Attrs::default();
    let inverted = default.invert();
    let red = Attrs::from_ansi_fg(AnsiColor::Red);
    let blue = Attrs::from_ansi_fg(AnsiColor::Blue);

    let normal_token = TokenColorScheme {
        normal: default,
        focused: inverted,
        search_match: default,
        focused_search_match: default,
    };

    let color_token = TokenColorScheme {
        normal: red,
        focused: blue,
        search_match: default,
        focused_search_match: default,
    };

    let style_map = build_style_map(vec![(normal_token, "default"), (color_token, "color")]);

    let dumped = dump_segments(
        vec![
            PreHighlightingStyledSegment {
                attrs: normal_token.normal,
                search_match_attrs: default,
                content: Text::SourceRange(0..6),
            },
            PreHighlightingStyledSegment {
                attrs: normal_token.focused,
                search_match_attrs: default,
                content: Text::spaces(5),
            },
            PreHighlightingStyledSegment {
                attrs: color_token.normal,
                search_match_attrs: default,
                content: Text::SourceRange(6..11),
            },
            PreHighlightingStyledSegment {
                attrs: normal_token.focused,
                search_match_attrs: default,
                content: Text::spaces(1),
            },
            PreHighlightingStyledSegment {
                attrs: color_token.focused,
                search_match_attrs: default,
                content: Text::String((Rc::new("🦀".to_string()), 0.."🦀".len())),
            },
        ],
        b"hello,world",
        &style_map,
    );

    assert_eq!(
        dumped,
        "text: hello,     world 🦀\n      0.....1....2....34.\n0: default                   : range(0..6)\n1: default (focused)         : static\n2: color                     : range(6..11)\n3: default (focused)         : static\n4: color (focused)           : string(0..4)"
    );
}

// Further scenarios.

#[test]
fn compositor_spaces_fill_lines() {
    let mut c = compositor(b"", 3);
    c.append_spaces(7, ());
    assert_eq!(print_composited_lines(c.lines(), 3, b""), "|   |\n|   |\n|   |\n");
    assert_eq!(c.lines()[2].len(), 1);
    assert_eq!(availability(&c), "remaining: 2, reserved: -");
}

#[test]
fn compositor_long_spaces_are_owned() {
    assert!(matches!(Text::spaces(2000), Text::String((_, ref r)) if *r == (0..2000)));
    assert!(matches!(Text::spaces(3), Text::Static("   ")));
    assert_eq!(Text::spaces(0).len(), 0);
}

#[test]
fn compositor_finish_gives_lines() {
    let mut c = compositor(b"", 4);
    c.append_text(Text::Static("abcdef"), ());
    let lines = c.finish();
    assert_eq!(lines.len(), 2);
    assert_eq!(lines[0].len(), 1);
    assert_eq!(lines[0][0].width, 4);
    assert_eq!(lines[1][0].width, 2);
}

#[test]
fn try_append_reserved_text_needs_room() {
    let mut c = compositor(b"", 10);
    assert!(c.start_reserving_space(1));
    assert!(!c.try_append_reserved_text(Text::Static("🦀"), ()));
    assert_eq!(availability(&c), "remaining: 10, reserved: 1");
    assert!(c.try_append_reserved_text(Text::Static("x"), ()));
    assert_eq!(availability(&c), "remaining: 9, reserved: 0");
}

#[test]
fn min_space_for_delimited_content() {
    let c = compositor(b"\"hello\"", 10);
    assert_eq!(c.min_space_needed_to_show_actual_content(&Text::SourceRange(0..7), true), 4);
    assert_eq!(c.min_space_needed_to_show_actual_content(&Text::SourceRange(0..7), false), 2);
    assert_eq!(c.min_space_needed_to_show_actual_content(&Text::SourceRange(0..2), true), 2);
}

#[test]
fn highlight_search_matches_splits_source_ranges() {
    let plain = Attrs::default();
    let hit = Attrs::from_ansi_fg(AnsiColor::Green);
    let segment = PreHighlightingStyledSegment {
        attrs: plain,
        search_match_attrs: hit,
        content: Text::SourceRange(0..10),
    };
    let styled: Vec<StyledSegment> = segment.highlight_search_matches(&[2..4, 8..12]);
    let parts: Vec<(String, bool)> = styled
        .iter()
        .map(|s| {
            let r = match &s.content {
                Text::SourceRange(r) => format!("{:?}", r),
                _ => "other".to_string(),
            };
            (r, s.attrs == hit)
        })
        .collect();
    assert_eq!(
        parts,
        vec![
            ("0..2".to_string(), false),
            ("2..4".to_string(), true),
            ("4..8".to_string(), false),
            ("8..10".to_string(), true),
        ]
    );

    let segment = PreHighlightingStyledSegment {
        attrs: plain,
        search_match_attrs: hit,
        content: Text::Static("abc"),
    };
    let styled = segment.highlight_search_matches(&[0..3]);
    assert_eq!(styled.len(), 1);
    assert!(styled[0].attrs == plain);
}

#[test]
fn attrs_constructors() {
    let a = Attrs::new_bold(Color::Ansi(AnsiColor::Red), Color::Default);
    assert!(a.bold && !a.inverted && !a.dimmed);
    assert!(Attrs::from_fg(Color::Rgb256(3)) == Attrs::new(Color::Rgb256(3), Color::Default));
    assert!(Attrs::default().invert().invert() == Attrs::default());
}

#[test]
fn compositor_lines_never_exceed_width() {
    for width in 1..7 {
        let mut c = compositor(b"{\"key\": \"value \xf0\x9f\xa6\x80\"}", width);
        c.append_text(Text::SourceRange(0..21), ());
        c.append_text(Text::Static("👀a\u{200b}bc"), ());
        c.append_spaces(3, ());
        let remaining = c.remaining_space();
        let lines = c.finish();
        for line in lines.iter() {
            let used: usize = line.iter().map(|f| f.width).sum();
            assert!(used <= width);
        }
        let last: usize = lines.last().unwrap().iter().map(|f| f.width).sum();
        assert_eq!(last + remaining, width);
    }
}

#[test]
fn separated_parts_cover_the_range() {
    let matches = vec![3..5, 5..5, 8..20];
    let parts = separate_highlighted_and_unhighlighted_ranges(&(0..10), &matches);
    let mut pos = 0;
    for (r, highlighted) in parts.iter() {
        assert_eq!(r.start, pos);
        assert!(r.start < r.end);
        if *highlighted {
            assert!(matches.iter().any(|m| m.start <= r.start && r.end <= m.end));
        }
        pos = r.end;
    }
    assert_eq!(pos, 10);
}

#[test]
fn sub_ranges_of_text() {
    let t = Text::SourceRange(10..20);
    match t.sub_range(2..5) {
        Text::SourceRange(r) => assert_eq!(r, 12..15),
        _ => panic!("expected a source range"),
    }
    match t.sub_range(5..30) {
        Text::SourceRange(r) => assert_eq!(r, 15..20),
        _ => panic!("expected a source range"),
    }
    match t.sub_range_from(4) {
        Text::SourceRange(r) => assert_eq!(r, 14..20),
        _ => panic!("expected a source range"),
    }
    match Text::Static("hello").sub_range_from(1) {
        Text::Static(s) => assert_eq!(s, "ello"),
        _ => panic!("expected a static string"),
    }
}
