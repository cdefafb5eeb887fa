use jless::jsonstringunescaper::{safe_unescape_json_string, unsafe_unescape_json_string};

fn check(escaped: &str, expected_unescaped: &str) {
    let unescaped = match safe_unescape_json_string(escaped) {
        Ok(s) => s,
        Err(err) => format!("ERR: {}", err.message()),
    };

    assert_eq!(expected_unescaped, &unescaped);
}

fn check_unsafe(escaped: &str, expected_unescaped: &str) {
    let unescaped = match unsafe_unescape_json_string(escaped) {
        Ok(s) => s,
        Err(err) => format!("ERR: {}", err.message()),
    };

    assert_eq!(expected_unescaped, &unescaped);
}

#[test]
fn test_unescape_json_string() {
    // Ok
    check("abc", "abc");
    check("abc \\\\ \\\"", "abc \\ \"");
    check("abc \\n \\t \\r", "abc \n \t \r");
    check("€ \\u20AC", "€ \u{20AC}");
    check("𐐷 \\uD801\\uDC37", "𐐷 \u{10437}");

    // Control characters are escaped
    check("12x\\b34", "12x\\b34");
    check(
        "\\u0000 | \\u001f | \\u0020 | \\u007e | \\u007f | \\u0080 | \\u009F | \\u00a0",
        "\\u0000 | \\u001f | \u{0020} | \u{007e} | \\u007f | \\u0080 | \\u009F | \u{00a0}",
    );

    // But not if unsafe is called
    check_unsafe("12x\\b34", "12x\x0834");
    check_unsafe(
        "\\u0000 | \\u001f | \\u0020 | \\u007e | \\u007f | \\u0080 | \\u009F | \\u00a0",
        "\x00 | \x1f | \u{0020} | \u{007e} | \x7f | \u{0080} | \u{009F} | \u{00a0}",
    );

    // Non-ASCII unescaped control codes also get escaped
    check("12 \u{0080} 34", "12 \\u0080 34");

    // But not if unsafe is called
    check_unsafe("12 \u{0080} 34", "12 \u{0080} 34");

    // Errors; make sure index is computed properly.
    check(
        "abc 𐐷 \\uD801\\uDC37 \\uD801",
        // "abc 𐐷 \uD801\uDC37 \uD801"
        // 0 2 4 6 8 0 2 4 6 8 0 2 4 6
        "ERR: unescaping error at char 26: high surrogate \"\\uD801\" not followed by low surrogate",
    );

    check(
        "abc 𐐷 \\uD801\\uDC37 \\uDC37",
        // "abc 𐐷 \uD801\uDC37 \uDC37"
        // 0 2 4 6 8 0 2 4 6 8 0 2 4 6
        "ERR: unescaping error at char 20: unexpected low surrogate \"\\uDC37\"",
    );
}
