use jless::action::Action;
use jless::bsonparser;
use jless::clip::{command_outcome, ClipProvider, CommandExit};
use jless::clipboard::{default_access_method, AccessMethod};
use jless::richformatter::{Color as RichColor, RichFormatter};
use jless::dimensions::Dimensions;
use jless::flatjson::{parse_top_level_json, NIL};
use jless::jsonparser::parse;
use jless::jsontokenizer::{next_token, token_at_position, JsonToken};
use jless::jsonstringunescaper::safe_unescape_json_string;
use jless::lineprinter::DelimiterPair;
use jless::messages::MessageSeverity;
use jless::options::{DataFormat, Mode, Opt};
use jless::rendering::{AnsiColor, Attrs, Color};

#[test]
fn test_bson_input_conversion() {
    // BSON for `{"hello": "world"}`
    let bson_bytes: Vec<u8> = vec![
        0x16, 0x00, 0x00, 0x00, 0x02, b'h', b'e', b'l', b'l', b'o', 0x00, 0x06, 0x00, 0x00, 0x00,
        b'w', b'o', b'r', b'l', b'd', 0x00, 0x00,
    ];

    let json_string = bsonparser::parse(&bson_bytes).unwrap();

    let expected_json = "{\n  \"hello\": \"world\"\n}";

    assert_eq!(json_string.trim(), expected_json.trim());
}

#[test]
fn bson_rejects_truncated_input() {
    assert!(bsonparser::parse(&[0x16, 0x00]).is_err());
}

#[test]
fn tokenizer_takes_longest_token() {
    let bytes = b"  true, -1.5e3 \"a\\\"b\"\n";
    assert_eq!(next_token(bytes, 0), Some((JsonToken::True, 2, 6)));
    assert_eq!(token_at_position(bytes, 6), Some((JsonToken::Comma, 7)));
    assert_eq!(next_token(bytes, 7), Some((JsonToken::Number, 8, 14)));
    assert_eq!(next_token(bytes, 14), Some((JsonToken::String, 15, 21)));
    assert_eq!(next_token(bytes, 21), Some((JsonToken::Newline, 21, 22)));
    assert_eq!(next_token(bytes, 22), None);
    assert_eq!(token_at_position(b"nul", 0), None);
}

#[test]
fn parse_error_messages() {
    assert_eq!(parse(String::new()).unwrap_err(), "Unexpected EOF");
    assert_eq!(parse("[1 2]".to_string()).unwrap_err(), "Unexpected token: Ok(Number)");
    assert_eq!(parse("]".to_string()).unwrap_err(), "Unexpected character: 0..1");
    assert_eq!(parse("[1".to_string()).unwrap_err(), "Unexpected EOF");
}

#[test]
fn parse_pretty_prints_on_one_line_and_tracks_depth() {
    let (rows, text, depth) = parse("{\"a\": [1, {\"b\": null}]}".to_string()).unwrap();
    assert_eq!(text, "{ \"a\": [1, { \"b\": null }] }");
    assert_eq!(depth, 3);
    assert_eq!(rows.len(), 8);
}

#[test]
fn unescape_error_for_bad_low_surrogate() {
    let err = safe_unescape_json_string("\\uD801x").unwrap_err();
    assert_eq!(
        err.message(),
        "unescaping error at char 7: high surrogate \"\\uD801\" not followed by low surrogate"
    );
}

#[test]
fn toggling_twice_restores_collapsed_state() {
    let mut fj = parse_top_level_json("[[1], {\"a\": 2}]".to_owned()).unwrap();
    let before: Vec<bool> = fj.0.iter().map(|r| r.is_collapsed()).collect();
    fj.toggle_collapsed(1);
    assert!(fj.0[1].is_collapsed());
    assert!(fj.0[3].is_collapsed());
    fj.toggle_collapsed(1);
    let after: Vec<bool> = fj.0.iter().map(|r| r.is_collapsed()).collect();
    assert_eq!(before, after);
}

#[test]
fn next_then_prev_visible_row_returns() {
    let mut fj = parse_top_level_json("[[1, 2], 3]".to_owned()).unwrap();
    fj.collapse(1);
    assert_eq!(fj.next_visible_row(0).to_usize(), 1);
    assert_eq!(fj.prev_visible_row(1).to_usize(), 0);
    assert_eq!(fj.next_visible_row(1).to_usize(), 5);
    assert_eq!(fj.prev_visible_row(5).to_usize(), 1);
    assert_eq!(fj.next_visible_row(6).to_usize(), NIL);
}

#[test]
fn clip_outcomes() {
    assert!(command_outcome(Ok(CommandExit { code: Some(0), success: true })).is_ok());
    assert_eq!(
        command_outcome(Ok(CommandExit { code: Some(3), success: false }))
            .unwrap_err()
            .message(),
        "Command failed with status code 3"
    );
    assert_eq!(
        command_outcome(Ok(CommandExit { code: Some(-2), success: false }))
            .unwrap_err()
            .message(),
        "Command failed with status code -2"
    );
    assert_eq!(
        command_outcome(Ok(CommandExit { code: None, success: false }))
            .unwrap_err()
            .message(),
        "Command terminated by signal"
    );
    assert_eq!(
        command_outcome(Err("no such file".to_string())).unwrap_err().0,
        "no such file"
    );
}

#[test]
fn clip_copy_hands_content_to_the_command() {
    let mut provider = ClipProvider::CommandClipboard("cat > /dev/null".to_string());
    let mut seen = (String::new(), String::new());
    let r = provider.copy("data".to_string(), |cmd: &str, content: String| {
        seen = (cmd.to_string(), content);
        Ok(CommandExit { code: Some(1), success: false })
    });
    assert_eq!(seen, ("cat > /dev/null".to_string(), "data".to_string()));
    assert_eq!(r.unwrap_err().message(), "Command failed with status code 1");
}

#[test]
fn data_format_prefers_json() {
    let mut opt = Opt {
        input: None,
        mode: Mode::Data,
        show_line_numbers: true,
        _show_line_numbers_hidden: false,
        show_relative_line_numbers: false,
        _show_relative_line_numbers_hidden: false,
        scrolloff: 3,
        clipboard_command: None,
        json: false,
        yaml: false,
    };
    assert_eq!(opt.data_format(), None);
    opt.yaml = true;
    assert_eq!(opt.data_format(), Some(DataFormat::Yaml));
    opt.json = true;
    assert_eq!(opt.data_format(), Some(DataFormat::Json));
}

#[test]
fn message_severity_colors() {
    assert!(MessageSeverity::Info.attrs() == Attrs::from_ansi_fg(AnsiColor::White));
    assert!(MessageSeverity::Warn.attrs() == Attrs::from_ansi_fg(AnsiColor::Yellow));
    assert!(MessageSeverity::Error.attrs() == Attrs::new(Color::Ansi(AnsiColor::Red), Color::Default));
}

#[test]
fn actions_that_move_the_cursor() {
    assert!(Action::MoveCursorDown(1).is_intentionally_moving_cursor());
    assert!(Action::FocusTop.is_intentionally_moving_cursor());
    assert!(!Action::PageDown(1).is_intentionally_moving_cursor());
    assert!(Action::MoveCursorToNextSiblingOrDown(2).is_moving_to_adjacent_sibling());
    assert!(!Action::MoveCursorDown(2).is_moving_to_adjacent_sibling());
}

#[test]
fn clipboard_commands() {
    assert_eq!(AccessMethod::Xclip.cmd(), "xclip");
    assert_eq!(AccessMethod::Xclip.args(), vec!["-selection", "clipboard"]);
    assert_eq!(AccessMethod::Wlcopy.cmd(), "wl-copy");
    assert!(AccessMethod::Pbcopy.args().is_empty());
}

#[test]
fn default_dimensions() {
    let d = Dimensions::default();
    assert_eq!((d.width, d.height), (80, 24));
}

struct NoFormatting {}

impl RichFormatter for NoFormatting {
    fn fg_color_outcome<W: std::fmt::Write>(&self, buf: W, color: RichColor) -> (std::fmt::Result, W) {
        let mut b = buf;
        let r = self.fg_color(&mut b, color);
        (r, b)
    }
    fn bg_color_outcome<W: std::fmt::Write>(&self, buf: W, color: RichColor) -> (std::fmt::Result, W) {
        let mut b = buf;
        let r = self.bg_color(&mut b, color);
        (r, b)
    }
    fn position_cursor<W: std::fmt::Write>(&self, _buf: &mut W, _col: u16) -> std::fmt::Result {
        Ok(())
    }
    fn fg_color<W: std::fmt::Write>(&self, buf: &mut W, color: RichColor) -> std::fmt::Result {
        buf.write_str(&format!("<fg {:?}>", color))
    }
    fn bg_color<W: std::fmt::Write>(&self, buf: &mut W, color: RichColor) -> std::fmt::Result {
        buf.write_str(&format!("<bg {:?}>", color))
    }
    fn bold<W: std::fmt::Write>(&self, _buf: &mut W) -> std::fmt::Result {
        Ok(())
    }
    fn reset_style<W: std::fmt::Write>(&self, _buf: &mut W) -> std::fmt::Result {
        Ok(())
    }
}

#[test]
fn maybe_colors_write_only_given_colors() {
    let f = NoFormatting {};
    let mut buf = String::new();
    f.maybe_fg_color(&mut buf, None).unwrap();
    f.maybe_bg_color(&mut buf, None).unwrap();
    assert_eq!(buf, "");
    f.maybe_fg_color(&mut buf, Some(RichColor::Red)).unwrap();
    f.maybe_bg_color(&mut buf, Some(RichColor::LightBlue)).unwrap();
    assert_eq!(buf, "<fg Red><bg LightBlue>");
}

#[test]
fn default_clipboard_by_platform() {
    assert!(matches!(default_access_method(true, true, None), Some(AccessMethod::Pbcopy)));
    assert!(matches!(
        default_access_method(false, true, Some("wayland-0".to_string())),
        Some(AccessMethod::Wlcopy)
    ));
    assert!(matches!(default_access_method(false, true, Some(String::new())), Some(AccessMethod::Xclip)));
    assert!(matches!(default_access_method(false, true, None), Some(AccessMethod::Xclip)));
    assert!(default_access_method(false, false, None).is_none());
}

#[test]
fn delimiter_pairs() {
    assert_eq!((DelimiterPair::NoDelimiter.left(), DelimiterPair::NoDelimiter.right()), ("", ""));
    assert_eq!((DelimiterPair::Quote.left(), DelimiterPair::Quote.right()), ("\"", "\""));
    assert_eq!((DelimiterPair::Square.left(), DelimiterPair::Square.right()), ("[", "]"));
    assert_eq!(DelimiterPair::NoDelimiter.width(), 0);
    assert_eq!(DelimiterPair::Square.width(), 2);
}
