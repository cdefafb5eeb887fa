use std::ops::Range;

use jless::search::{
    escape_literal, escape_literal_and_maybe_add_word_boundaries,
    extract_regex_input_and_case_sensitivity, invert_paired_delimiters, HighlightKind,
    InvertedPairedDelimeters, JumpDirection, SearchDirection, SearchMatchHighlighter, SearchState,
};

#[test]
fn test_extract_regex_input_and_case_sensitivity() {
    let tests = vec![
        ("abc", ("abc", false)),
        ("Abc", ("Abc", true)),
        ("abc/", ("abc", false)),
        ("abc/s", ("abc", true)),
        ("abc/s/", ("abc/s", false)),
    ];

    for (input, search_term_and_case_sensitivity) in tests.into_iter() {
        assert_eq!(
            search_term_and_case_sensitivity,
            extract_regex_input_and_case_sensitivity(input),
        );
    }
}

#[test]
fn test_invert_paired_delimiter_escaping() {
    let json_inverted_paired_delimiters = InvertedPairedDelimeters {
        square_brackets: true,
        curly_braces: true,
        parentheses: false,
    };

    let json_tests = vec![
        (r"[]", r"\[\]"),
        (r"{}", r"\{\}"),
        (r"()", r"()"),
        (r"\[abc\]", r"[abc]"),
        (r"\{1,3\}", r"{1,3}"),
        (r"(\[[]\])", r"([\[\]])"),
        (r"\\[ \\\[", r"\\\[ \\["),
    ];

    for (before, after) in json_tests.into_iter() {
        assert_eq!(
            after,
            invert_paired_delimiters(before, json_inverted_paired_delimiters)
        );
    }

    let sexp_inverted_paired_delimiters = InvertedPairedDelimeters {
        square_brackets: false,
        curly_braces: false,
        parentheses: true,
    };

    let sexp_tests = vec![
        (r"[]", r"[]"),
        (r"{}", r"{}"),
        (r"()", r"\(\)"),
        (r"((a 1))", r"\(\(a 1\)\)"),
        (r"\(\[\]|\{\}\)", r"(\[\]|\{\})"),
        (r"\\( \\\(", r"\\\( \\("),
    ];

    for (before, after) in sexp_tests.into_iter() {
        assert_eq!(
            after,
            invert_paired_delimiters(before, sexp_inverted_paired_delimiters)
        );
    }
}

#[test]
fn test_escape_literals() {
    let json_inverted_paired_delimiters = InvertedPairedDelimeters {
        square_brackets: true,
        curly_braces: true,
        parentheses: false,
    };

    let json_tests = vec![
        (r"a\b", r"a\\b"),
        (r"[]", r"[]"),
        (r"{}", r"{}"),
        (r"()", r"\(\)"),
        (r"\[abc\]", r"\\[abc\\]"),
        (r"\{1,3\}", r"\\{1,3\\}"),
        (r"\(.\)", r"\\\(\.\\\)"),
    ];

    for (before, after) in json_tests.into_iter() {
        assert_eq!(
            after,
            escape_literal(before, json_inverted_paired_delimiters)
        );
    }

    let sexp_inverted_paired_delimiters = InvertedPairedDelimeters {
        square_brackets: false,
        curly_braces: false,
        parentheses: true,
    };

    let sexp_tests = vec![
        (r"a\b", r"a\\b"),
        (r"[]", r"\[\]"),
        (r"{}", r"\{\}"),
        (r"()", r"()"),
        (r"\[abc\]", r"\\\[abc\\\]"),
        (r"\{1,3\}", r"\\\{1,3\\\}"),
        (r"\(.\)", r"\\(\.\\)"),
    ];

    for (before, after) in sexp_tests.into_iter() {
        assert_eq!(
            after,
            escape_literal(before, sexp_inverted_paired_delimiters)
        );
    }
}

#[test]
fn escape_literals_and_add_word_boundaries() {
    let inverted_paired_delimiters = InvertedPairedDelimeters {
        square_brackets: true,
        curly_braces: true,
        parentheses: false,
    };

    let tests = vec![
        (r"abc", r"\<abc\>"),
        (r"[abc", r"[abc\>"),
        (r"abc]", r"\<abc]"),
        (r"(abc)", r"\(abc\)"),
    ];

    for (before, after) in tests.into_iter() {
        assert_eq!(
            after,
            escape_literal_and_maybe_add_word_boundaries(before, inverted_paired_delimiters,),
        );
    }
}

#[test]
fn test_cycle_match() {
    fn check(start: usize, delta: isize, num_matches: usize) -> (usize, bool) {
        SearchState::cycle_match_impl(start, delta, num_matches)
    }

    assert_eq!(check(0, 0, 10), (0, false));
    assert_eq!(check(0, 5, 10), (5, false));
    assert_eq!(check(0, 15, 10), (5, true));
    assert_eq!(check(5, 3, 10), (8, false));
    assert_eq!(check(7, 3, 10), (0, true));
    assert_eq!(check(7, 20, 10), (7, true));

    assert_eq!(check(9, -5, 10), (4, false));
    assert_eq!(check(9, -15, 10), (4, true));
    assert_eq!(check(5, -3, 10), (2, false));
    assert_eq!(check(1, -3, 10), (8, true));
    assert_eq!(check(7, -20, 10), (7, true));
}

/// Jumps forward `jumps` matches from the start of the input, so that the
/// search remembers a jump to a match.
fn jump_from_start(search_state: &mut SearchState, jumps: usize) -> Range<usize> {
    search_state.jump_to_next_match(0..0, JumpDirection::Next, jumps, &|_| true, &|_| true)
}

#[test]
fn test_find_additional_matches() {
    let mut search_state = SearchState::new(
        "abc abc".to_string(),
        b"-abc abc abc",
        SearchDirection::Forward,
        InvertedPairedDelimeters::default(),
    )
    .unwrap();

    assert_eq!(search_state.search_match_ranges().to_vec(), vec![1..8]);

    jump_from_start(&mut search_state, 1);
    assert_eq!(search_state.last_jump().unwrap().match_jumped_to, 0);
    assert!(!search_state.last_jump().unwrap().just_wrapped);

    search_state.find_additional_matches(b"-abc abc abc abc");
    assert_eq!(search_state.search_match_ranges().to_vec(), vec![1..8, 9..16]);

    assert!(search_state.last_jump().is_some());
}

#[test]
fn test_find_additional_matches_last_match_is_removed() {
    let mut search_state = SearchState::new(
        r"abc\b".to_string(),
        b"-abc abc",
        SearchDirection::Forward,
        InvertedPairedDelimeters::default(),
    )
    .unwrap();

    assert_eq!(search_state.search_match_ranges().to_vec(), vec![1..4, 5..8]);

    jump_from_start(&mut search_state, 2);
    assert_eq!(search_state.last_jump().unwrap().match_jumped_to, 1);
    assert!(!search_state.last_jump().unwrap().just_wrapped);

    search_state.find_additional_matches(b"-abc abcdef");
    assert_eq!(search_state.search_match_ranges().to_vec(), vec![1..4]);
    assert!(search_state.last_jump().is_none());
}

#[test]
fn test_find_additional_matches_last_match_is_updated() {
    let mut search_state = SearchState::new(
        r"abc\b".to_string(),
        b"-abc abc",
        SearchDirection::Forward,
        InvertedPairedDelimeters::default(),
    )
    .unwrap();

    assert_eq!(search_state.search_match_ranges().to_vec(), vec![1..4, 5..8]);

    jump_from_start(&mut search_state, 2);
    assert_eq!(search_state.last_jump().unwrap().match_jumped_to, 1);
    assert!(!search_state.last_jump().unwrap().just_wrapped);

    search_state.find_additional_matches(b"-abc abcdef abc");
    assert_eq!(search_state.search_match_ranges().to_vec(), vec![1..4, 12..15]);
    assert!(search_state.last_jump().is_none());
}

fn highlighted(highlighter: &mut SearchMatchHighlighter<'_>, range: Range<usize>) -> String {
    highlighter
        .highlight(range)
        .into_iter()
        .map(|(r, b)| {
            let prefix = match b {
                HighlightKind::CurrentMatch => "current match",
                HighlightKind::OtherMatch => "  other match",
                HighlightKind::NotAMatch => " not matching",
            };
            format!("{}: {:?}", prefix, r)
        })
        .collect::<Vec<_>>()
        .join("\n")
}

#[test]
fn test_match_highlighter() {
    let search_matches = vec![10..20, 30..40, 40..40, 40..40, 50..50, 50..60, 70..70];
    let mut highlighter = SearchMatchHighlighter::new(&search_matches, Some(1));
    let f = highlighted;

    assert_eq!(
        f(&mut highlighter, 0..31),
        " not matching: 0..10\n  other match: 10..20\n not matching: 20..30\ncurrent match: 30..31"
    );

    // Backtrack
    assert_eq!(f(&mut highlighter, 32..33), "current match: 32..33");
    assert_eq!(f(&mut highlighter, 33..36), "current match: 33..36");
    assert_eq!(f(&mut highlighter, 37..40), "current match: 37..40");

    // Backtrack
    assert_eq!(f(&mut highlighter, 30..40), "current match: 30..40");
    assert_eq!(f(&mut highlighter, 40..45), " not matching: 40..45");

    assert_eq!(
        f(&mut highlighter, 30..45),
        "current match: 30..40\n not matching: 40..45"
    );
    assert_eq!(
        f(&mut highlighter, 35..45),
        "current match: 35..40\n not matching: 40..45"
    );
    assert_eq!(f(&mut highlighter, 40..45), " not matching: 40..45");
    assert_eq!(
        f(&mut highlighter, 40..55),
        " not matching: 40..50\n  other match: 50..55"
    );
    assert_eq!(
        f(&mut highlighter, 50..65),
        "  other match: 50..60\n not matching: 60..65"
    );
    assert_eq!(
        f(&mut highlighter, 65..75),
        " not matching: 65..70\n not matching: 70..75"
    );
    assert_eq!(f(&mut highlighter, 70..70), "");

    // One more backtrack for good measure
    assert_eq!(
        f(&mut highlighter, 0..75),
        " not matching: 0..10\n  other match: 10..20\n not matching: 20..30\ncurrent match: 30..40\n not matching: 40..50\n  other match: 50..60\n not matching: 60..70\n not matching: 70..75"
    );

    let search_matches = vec![10..15, 20..25, 30..35, 40..45, 50..55, 60..65];
    let mut highlighter = SearchMatchHighlighter::new(&search_matches, None);

    assert_eq!(
        f(&mut highlighter, 0..18),
        " not matching: 0..10\n  other match: 10..15\n not matching: 15..18"
    );

    // Jump ahead one match
    assert_eq!(f(&mut highlighter, 26..28), " not matching: 26..28");
    assert_eq!(
        f(&mut highlighter, 29..38),
        " not matching: 29..30\n  other match: 30..35\n not matching: 35..38"
    );

    // Jump ahead multiple matches
    assert_eq!(f(&mut highlighter, 26..28), " not matching: 26..28");
    assert_eq!(
        f(&mut highlighter, 58..68),
        " not matching: 58..60\n  other match: 60..65\n not matching: 65..68"
    );
}

#[test]
fn highlighted_parts_tile_each_range() {
    // Scenario for the law that highlighting tiles the range: every position
    // gets exactly one part, and match parts lie inside matches.
    let search_matches = vec![2..4, 4..4, 6..9, 12..20];
    let mut highlighter = SearchMatchHighlighter::new(&search_matches, Some(2));
    for range in [0..3, 3..10, 10..25, 5..7, 0..25, 8..8] {
        let parts = highlighter.highlight(range.clone());
        let mut pos = range.start;
        for (part, kind) in parts.iter() {
            assert_eq!(part.start, pos);
            assert!(part.start < part.end);
            if !matches!(kind, jless::search::HighlightKind::NotAMatch) {
                assert!(search_matches.iter().any(|m| m.start <= part.start && part.end <= m.end));
            }
            pos = part.end;
        }
        assert_eq!(pos, range.end);
    }
}

#[test]
fn highlighting_inside_a_match_that_started_earlier() {
    let search_matches = vec![0..1, 2..3, 5..20];
    let mut highlighter = SearchMatchHighlighter::new(&search_matches, Some(2));
    let parts = highlighter.highlight(10..15);
    assert_eq!(parts.len(), 1);
    assert_eq!(parts[0].0, 10..15);
    assert!(matches!(parts[0].1, jless::search::HighlightKind::CurrentMatch));
}

#[test]
fn a_jump_skips_to_a_match_that_shows() {
    let mut search_state = SearchState::new(
        "x".to_string(),
        b"x-x-x-x",
        SearchDirection::Forward,
        InvertedPairedDelimeters::default(),
    )
    .unwrap();
    assert_eq!(search_state.num_matches(), 4);
    // Only the third match would show; the cursor never moves.
    let r = search_state.jump_to_next_match(0..0, JumpDirection::Next, 1, &|_| false, &|m: Range<usize>| m.start == 4);
    assert_eq!(r, 4..5);
    assert_eq!(search_state.last_jump().unwrap().match_jumped_to, 2);
    // From there on it goes round to the same match.
    let r = search_state.jump_to_next_match(0..0, JumpDirection::Next, 1, &|_| false, &|m: Range<usize>| m.start == 4);
    assert_eq!(r, 4..5);
    // When nothing shows, the jump stays at the first match tried.
    let r = search_state.jump_to_next_match(0..0, JumpDirection::Next, 1, &|_| false, &|_| false);
    assert_eq!(r, 6..7);
}
