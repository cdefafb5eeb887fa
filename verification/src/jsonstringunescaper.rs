//! Unescaping of the contents of JSON string literals.
//!
//! The only characters that may follow a backslash are the single-character
//! escapes `"\/bfnrt` and `u` with four hexadecimal digits. A `\u` escape
//! stands for a UTF-16 code unit: a character of the Basic Multilingual Plane
//! or half of a surrogate pair, whose two halves together stand for a
//! character from U+010000 to U+10FFFF.

use vstd::prelude::*;
use vstd::std_specs::iter::IteratorSpec;
use std::str::Chars;
use crate::text::{push_char, push_str, push_decimal, push_ascii_bytes, utf8};

verus! {

/// Which half of a surrogate pair stood alone.
#[derive(Debug, Clone, Copy, PartialEq, Eq, Structural)]
pub enum UnicodeError {
    UnexpectedLowSurrogate,
    UnmatchedHighSurrogate,
}

/// A `\u` escape that stands for half of a surrogate pair without the other.
#[derive(Debug)]
pub struct UnescapeError {
    pub index: usize,
    pub codepoint_chars: [u8; 4],
    pub error: UnicodeError,
}

/// A Unicode control character: U+0000 to U+001F or U+007F to U+009F.
pub open spec fn is_control_char(c: char) -> bool {
    (c as u32) <= 0x1F || (0x7F <= (c as u32) && (c as u32) <= 0x9F)
}

/// `[0-9a-fA-F]`
pub open spec fn is_hex_char(c: char) -> bool {
    ('0' <= c && c <= '9') || ('a' <= c && c <= 'f') || ('A' <= c && c <= 'F')
}

/// The value of a hexadecimal digit.
pub open spec fn hex_value(c: char) -> int {
    if '0' <= c && c <= '9' {
        (c as int) - 48
    } else if 'a' <= c && c <= 'f' {
        (c as int) - 97 + 10
    } else {
        (c as int) - 65 + 10
    }
}

/// The UTF-16 code unit written by the four hexadecimal digits at `i`.
pub open spec fn code_unit_at(cs: Seq<char>, i: int) -> int {
    hex_value(cs[i]) * 0x1000 + hex_value(cs[i + 1]) * 0x100 + hex_value(cs[i + 2]) * 0x10
        + hex_value(cs[i + 3])
}

/// A `\u` escape with four hexadecimal digits starts at `i`.
pub open spec fn unicode_escape_at(cs: Seq<char>, i: int) -> bool {
    &&& 0 <= i && i + 6 <= cs.len()
    &&& cs[i] == '\\'
    &&& cs[i + 1] == 'u'
    &&& is_hex_char(cs[i + 2])
    &&& is_hex_char(cs[i + 3])
    &&& is_hex_char(cs[i + 4])
    &&& is_hex_char(cs[i + 5])
}

/// One of the characters that may follow a backslash on their own.
pub open spec fn is_simple_escape_char(c: char) -> bool {
    c == '"' || c == '\\' || c == '/' || c == 'b' || c == 'f' || c == 'n' || c == 'r' || c == 't'
}

/// From `i` on, every backslash starts a valid escape.
pub open spec fn escapes_valid_from(cs: Seq<char>, i: int) -> bool
    decreases cs.len() - i,
{
    if i < 0 || i >= cs.len() {
        true
    } else if cs[i] != '\\' {
        escapes_valid_from(cs, i + 1)
    } else if i + 1 < cs.len() && is_simple_escape_char(cs[i + 1]) {
        escapes_valid_from(cs, i + 2)
    } else if unicode_escape_at(cs, i) {
        escapes_valid_from(cs, i + 6)
    } else {
        false
    }
}

/// The text is the inside of a syntactically valid JSON string literal, as
/// far as its escapes go.
pub open spec fn escapes_valid(cs: Seq<char>) -> bool {
    escapes_valid_from(cs, 0)
}

/// An uppercase hexadecimal digit.
pub open spec fn upper_hex_digit(n: int) -> char {
    if n < 10 {
        (48 + n) as char
    } else {
        (55 + n) as char
    }
}

/// How an unescaped character is written: as itself, or, for a control
/// character when those stay escaped, as `\u00` and two uppercase digits.
pub open spec fn write_char(c: char, escape_control: bool) -> Seq<char> {
    if escape_control && is_control_char(c) {
        seq!['\\', 'u', '0', '0', upper_hex_digit((c as int) / 16), upper_hex_digit((c as int) % 16)]
    } else {
        seq![c]
    }
}

/// The character a single-character escape stands for, as it is written.
pub open spec fn simple_escape(e: char, escape_control: bool) -> Seq<char> {
    if e == 'b' {
        if escape_control {
            seq!['\\', 'b']
        } else {
            seq![8u8 as char]
        }
    } else if e == 'f' {
        seq![12u8 as char]
    } else if e == 'n' {
        seq!['\n']
    } else if e == 'r' {
        seq!['\r']
    } else if e == 't' {
        seq!['\t']
    } else {
        seq![e]
    }
}

/// Unescaping a backslash and one of the single characters that may follow
/// it gives the one character that RFC 8259 says the pair stands for, then
/// the unescaping of the rest: `\"` a quotation mark, `\\` a backslash,
/// `\/` a solidus, `\b` backspace (U+0008), `\f` form feed (U+000C), `\n`
/// line feed, `\r` carriage return and `\t` tab. The one exception: with
/// control characters kept escaped, `\b` stays as it was written.
pub proof fn law_simple_escape_gives_its_character(cs: Seq<char>, i: int, escape_control: bool)
    requires
        0 <= i,
        i + 1 < cs.len(),
        cs[i] == '\\',
        is_simple_escape_char(cs[i + 1]),
    ensures
        ({
            let e = cs[i + 1];
            let piece: Seq<char> = if escape_control && e == 'b' {
                seq!['\\', 'b']
            } else {
                seq![
                    if e == 'b' {
                        0x08u8 as char
                    } else if e == 'f' {
                        0x0Cu8 as char
                    } else if e == 'n' {
                        0x0Au8 as char
                    } else if e == 'r' {
                        0x0Du8 as char
                    } else if e == 't' {
                        0x09u8 as char
                    } else if e == '/' {
                        0x2Fu8 as char
                    } else if e == '"' {
                        0x22u8 as char
                    } else {
                        0x5Cu8 as char
                    },
                ]
            };
            unescape_from(cs, i, escape_control) == prepend(piece, unescape_from(cs, i + 2, escape_control))
        }),
{
}

/// A character that is no backslash comes out as itself (unless it is a
/// control character kept escaped), followed by the unescaping of the rest;
/// a `\u` escape of four hexadecimal digits that names no surrogate comes
/// out as the character with that code (unless it is a control character
/// kept escaped, which stays as written).
pub proof fn law_plain_and_unicode_characters(cs: Seq<char>, i: int, escape_control: bool)
    requires
        0 <= i < cs.len(),
    ensures
        cs[i] != '\\' && !(escape_control && is_control_char(cs[i])) ==> unescape_from(cs, i, escape_control)
            == prepend(seq![cs[i]], unescape_from(cs, i + 1, escape_control)),
        unicode_escape_at(cs, i) && !(0xD800 <= code_unit_at(cs, i + 2) <= 0xDFFF) ==> ({
            let c = code_unit_at(cs, i + 2) as char;
            let piece = if escape_control && is_control_char(c) {
                cs.subrange(i, i + 6)
            } else {
                seq![c]
            };
            unescape_from(cs, i, escape_control) == prepend(piece, unescape_from(cs, i + 6, escape_control))
        }),
{
}

/// Outside the kept-escaped `\b`, unescaping a single-character escape
/// leaves no backslash behind unless the escape was `\\` itself: what comes
/// out for the pair is one character, and it is a backslash only for `\\`.
pub proof fn law_simple_escape_leaves_no_backslash(cs: Seq<char>, i: int, escape_control: bool)
    requires
        0 <= i,
        i + 1 < cs.len(),
        cs[i] == '\\',
        is_simple_escape_char(cs[i + 1]),
        !(escape_control && cs[i + 1] == 'b'),
        unescape_from(cs, i, escape_control) is Ok,
    ensures
        unescape_from(cs, i + 2, escape_control) is Ok,
        ({
            let out = unescape_from(cs, i, escape_control)->Ok_0;
            let rest = unescape_from(cs, i + 2, escape_control)->Ok_0;
            &&& out.len() == rest.len() + 1
            &&& out.subrange(1, out.len() as int) == rest
            &&& (out[0] == '\\' <==> cs[i + 1] == '\\')
        }),
{
    law_simple_escape_gives_its_character(cs, i, escape_control);
    let out = unescape_from(cs, i, escape_control)->Ok_0;
    let rest = unescape_from(cs, i + 2, escape_control)->Ok_0;
    assert(out.subrange(1, out.len() as int) =~= rest);
}

/// Where and why unescaping failed: the character count at which it was
/// noticed, the position of the four digits of the offending escape, and
/// whether a low surrogate came first.
pub struct UnescapeFailure {
    pub index: int,
    pub digits_at: int,
    pub low_first: bool,
}

/// `piece` in front of what `r` holds, if it holds text.
pub open spec fn prepend(piece: Seq<char>, r: Result<Seq<char>, UnescapeFailure>) -> Result<
    Seq<char>,
    UnescapeFailure,
> {
    match r {
        Ok(rest) => Ok(piece + rest),
        Err(f) => Err(f),
    }
}

/// Unescapes the characters from `i` on.
pub open spec fn unescape_from(cs: Seq<char>, i: int, escape_control: bool) -> Result<
    Seq<char>,
    UnescapeFailure,
>
    decreases cs.len() - i,
{
    if i < 0 || i >= cs.len() {
        Ok(Seq::empty())
    } else if cs[i] != '\\' {
        prepend(write_char(cs[i], escape_control), unescape_from(cs, i + 1, escape_control))
    } else if i + 1 < cs.len() && cs[i + 1] != 'u' {
        prepend(simple_escape(cs[i + 1], escape_control), unescape_from(cs, i + 2, escape_control))
    } else if i + 6 > cs.len() {
        // A truncated escape, which valid input does not hold.
        Ok(Seq::empty())
    } else {
        let u = code_unit_at(cs, i + 2);
        if 0xDC00 <= u <= 0xDFFF {
            Err(UnescapeFailure { index: i + 1, digits_at: i + 2, low_first: true })
        } else if 0xD800 <= u <= 0xDBFF {
            if i + 12 <= cs.len() && cs[i + 6] == '\\' && cs[i + 7] == 'u' {
                let l = code_unit_at(cs, i + 8);
                if 0xDC00 <= l <= 0xDFFF {
                    let c = ((u - 0xD800) * 0x400 + (l - 0xDC00) + 0x10000) as char;
                    prepend(seq![c], unescape_from(cs, i + 12, escape_control))
                } else {
                    Err(UnescapeFailure { index: i + 13, digits_at: i + 2, low_first: false })
                }
            } else {
                Err(UnescapeFailure { index: i + 7, digits_at: i + 2, low_first: false })
            }
        } else {
            let c = u as char;
            let piece = if escape_control && is_control_char(c) {
                cs.subrange(i, i + 6)
            } else {
                seq![c]
            };
            prepend(piece, unescape_from(cs, i + 6, escape_control))
        }
    }
}

impl UnescapeError {
    /// This error is the failure `f` met in `cs`.
    pub open spec fn describes(self, cs: Seq<char>, f: UnescapeFailure) -> bool {
        &&& self.index == f.index
        &&& self.codepoint_chars@ == cs.subrange(f.digits_at, f.digits_at + 4).map_values(
            |c: char| c as u8,
        )
        &&& (self.error == UnicodeError::UnexpectedLowSurrogate) == f.low_first
    }
}

/// `char::from_u32`: the character whose code point is `n`, where `n` is a
/// Unicode scalar value (at most U+10FFFF and no surrogate), and none
/// otherwise.
#[verifier::external_body]
fn char_from_u32(n: u32) -> (r: Option<char>)
    ensures
        (n <= 0xD7FF || (0xE000 <= n && n <= 0x10FFFF)) ==> r == Some(n as char),
        !(n <= 0xD7FF || (0xE000 <= n && n <= 0x10FFFF)) ==> r is None,
{
    char::from_u32(n)
}

/// The next character of `chars`, if any.
pub(crate) fn next_char(chars: &mut Chars<'_>) -> (r: Option<char>)
    ensures
        (*old(chars)).remaining().len() > 0 ==> r == Some((*old(chars)).remaining()[0])
            && (*final(chars)).remaining() == (*old(chars)).remaining().drop_first(),
        (*old(chars)).remaining().len() == 0 ==> r is None && (*final(chars)).remaining()
            == (*old(chars)).remaining(),
{
    chars.next()
}

fn is_control(ch: char) -> (b: bool)
    ensures
        b == is_control_char(ch),
{
    let n = ch as u32;
    n <= 0x1F || (0x7F <= n && n <= 0x9F)
}

fn hex_char_to_int(ch: char) -> (v: u16)
    requires
        is_hex_char(ch),
    ensures
        v == hex_value(ch),
        v < 16,
{
    if '0' <= ch && ch <= '9' {
        (ch as u16) - 48
    } else if 'a' <= ch && ch <= 'f' {
        (ch as u16) - 97 + 10
    } else {
        (ch as u16) - 65 + 10
    }
}

/// Reads four hexadecimal digits: the code unit they write, and the digits.
fn parse_codepoint_from_chars(chars: &mut Chars<'_>) -> (r: (u16, [u8; 4]))
    requires
        (*old(chars)).remaining().len() >= 4,
        is_hex_char((*old(chars)).remaining()[0]),
        is_hex_char((*old(chars)).remaining()[1]),
        is_hex_char((*old(chars)).remaining()[2]),
        is_hex_char((*old(chars)).remaining()[3]),
    ensures
        (*final(chars)).remaining() == (*old(chars)).remaining().subrange(
            4,
            (*old(chars)).remaining().len() as int,
        ),
        r.0 == code_unit_at((*old(chars)).remaining(), 0),
        r.1@ == (*old(chars)).remaining().subrange(0, 4).map_values(|c: char| c as u8),
{
    let ghost rem = (*chars).remaining();
    let c0 = next_char(chars).unwrap();
    assert((*chars).remaining() =~= rem.subrange(1, rem.len() as int));
    let c1 = next_char(chars).unwrap();
    assert((*chars).remaining() =~= rem.subrange(2, rem.len() as int));
    let c2 = next_char(chars).unwrap();
    assert((*chars).remaining() =~= rem.subrange(3, rem.len() as int));
    let c3 = next_char(chars).unwrap();
    assert(c0 == rem[0] && c1 == rem[1] && c2 == rem[2] && c3 == rem[3]);
    let digits: [u8; 4] = [c0 as u8, c1 as u8, c2 as u8, c3 as u8];
    let codepoint = hex_char_to_int(c0) * 0x1000 + hex_char_to_int(c1) * 0x100 + hex_char_to_int(
        c2,
    ) * 0x10 + hex_char_to_int(c3);
    assert((*chars).remaining() =~= rem.subrange(4, rem.len() as int));
    assert(digits@ =~= rem.subrange(0, 4).map_values(|c: char| c as u8));
    (codepoint, digits)
}

/// The uppercase hexadecimal digit for `n`, below sixteen.
fn upper_hex(n: u32) -> (c: char)
    requires
        n < 16,
    ensures
        c == upper_hex_digit(n as int),
{
    if n < 10 {
        ((48 + n) as u8) as char
    } else {
        ((55 + n) as u8) as char
    }
}

/// Appends `c` to `buf` as `write_char` writes it.
fn write_unescaped(buf: &mut String, c: char, escape_control_characters: bool)
    ensures
        final(buf)@ == old(buf)@ + write_char(c, escape_control_characters),
{
    if escape_control_characters && is_control(c) {
        let n = c as u32;
        push_str(buf, "\\u00");
        push_char(buf, upper_hex(n / 16));
        push_char(buf, upper_hex(n % 16));
        proof {
            reveal_strlit("\\u00");
        }
        assert(buf@ =~= old(buf)@ + write_char(c, escape_control_characters));
    } else {
        push_char(buf, c);
        assert(buf@ =~= old(buf)@ + write_char(c, escape_control_characters));
    }
}

proof fn lemma_prepend_prepend(a: Seq<char>, b: Seq<char>, r: Result<Seq<char>, UnescapeFailure>)
    ensures
        prepend(a, prepend(b, r)) == prepend(a + b, r),
{
    if let Ok(rest) = r {
        assert(a + (b + rest) =~= (a + b) + rest);
    }
}

enum DecodedCodepoint {
    Char(char),
    LowSurrogate(u16),
    HighSurrogate(u16),
}

/// Interprets a code unit as a character of the Basic Multilingual Plane or
/// as half of a surrogate pair, with the offset of its half removed.
fn decode_codepoint(codepoint: u16) -> (d: DecodedCodepoint)
    ensures
        match d {
            DecodedCodepoint::HighSurrogate(h) => 0xD800 <= codepoint <= 0xDBFF && h == codepoint
                - 0xD800,
            DecodedCodepoint::LowSurrogate(l) => 0xDC00 <= codepoint <= 0xDFFF && l == codepoint
                - 0xDC00,
            DecodedCodepoint::Char(c) => !(0xD800 <= codepoint <= 0xDFFF) && c == (codepoint as u32) as char,
        },
{
    if 0xD800 <= codepoint && codepoint <= 0xDBFF {
        DecodedCodepoint::HighSurrogate(codepoint - 0xD800)
    } else if 0xDC00 <= codepoint && codepoint <= 0xDFFF {
        DecodedCodepoint::LowSurrogate(codepoint - 0xDC00)
    } else {
        DecodedCodepoint::Char(char_from_u32(codepoint as u32).unwrap())
    }
}

/// Unescapes the escape whose backslash was the character before `index`
/// (counting from one), from the characters `chars` has left.
fn unescape_escape(
    chars: &mut Chars<'_>,
    out: &mut String,
    index: usize,
    escape_control_characters: bool,
    Ghost(cs): Ghost<Seq<char>>,
) -> (r: Result<usize, UnescapeError>)
    requires
        2 <= index <= cs.len(),
        cs[index - 2] == '\\',
        (*old(chars)).remaining() == cs.subrange(index - 1, cs.len() as int),
        escapes_valid_from(cs, index - 2),
        cs.len() < usize::MAX - 16,
    ensures
        match r {
            Ok(j) => {
                &&& index < j <= cs.len() + 1
                &&& (*final(chars)).remaining() == cs.subrange(j - 1, cs.len() as int)
                &&& escapes_valid_from(cs, j - 1)
                &&& prepend(old(out)@, unescape_from(cs, index - 2, escape_control_characters))
                    == prepend(final(out)@, unescape_from(cs, j - 1, escape_control_characters))
            },
            Err(e) => unescape_from(cs, index - 2, escape_control_characters) matches Err(f)
                && e.describes(cs, f),
        },
{
    let ghost i = index - 2;
    let ghost esc = escape_control_characters;
    let mut index = index;
    let escaped = next_char(chars).unwrap();
    index = index + 1;
    assert((*chars).remaining() =~= cs.subrange(index - 1, cs.len() as int));
    if escaped != 'u' {
        proof {
            assert(is_simple_escape_char(escaped));
            lemma_prepend_prepend(old(out)@, simple_escape(escaped, esc), unescape_from(cs, i + 2, esc));
        }
        match escaped {
            '"' => push_char(out, '"'),
            '\\' => push_char(out, '\\'),
            '/' => push_char(out, '/'),
            'b' => {
                if escape_control_characters {
                    push_char(out, '\\');
                    push_char(out, 'b');
                } else {
                    push_char(out, 8u8 as char);
                }
            },
            'f' => push_char(out, 12u8 as char),
            'n' => push_char(out, '\n'),
            'r' => push_char(out, '\r'),
            't' => push_char(out, '\t'),
            _ => {},
        }
        assert(out@ =~= old(out)@ + simple_escape(escaped, esc));
        return Ok(index);
    }
    unescape_unicode(chars, out, index, escape_control_characters, Ghost(cs))
}

/// Unescapes a `\u` escape whose `u` was the character before `index`
/// (counting from one), from the characters `chars` has left.
#[verifier::rlimit(40)]
fn unescape_unicode(
    chars: &mut Chars<'_>,
    out: &mut String,
    index: usize,
    escape_control_characters: bool,
    Ghost(cs): Ghost<Seq<char>>,
) -> (r: Result<usize, UnescapeError>)
    requires
        3 <= index <= cs.len(),
        cs[index - 3] == '\\',
        cs[index - 2] == 'u',
        (*old(chars)).remaining() == cs.subrange(index - 1, cs.len() as int),
        escapes_valid_from(cs, index - 3),
        cs.len() < usize::MAX - 16,
    ensures
        match r {
            Ok(j) => {
                &&& index < j <= cs.len() + 1
                &&& (*final(chars)).remaining() == cs.subrange(j - 1, cs.len() as int)
                &&& escapes_valid_from(cs, j - 1)
                &&& prepend(old(out)@, unescape_from(cs, index - 3, escape_control_characters))
                    == prepend(final(out)@, unescape_from(cs, j - 1, escape_control_characters))
            },
            Err(e) => unescape_from(cs, index - 3, escape_control_characters) matches Err(f)
                && e.describes(cs, f),
        },
{
    let ghost i = index - 3;
    let ghost esc = escape_control_characters;
    let mut index = index;
    proof {
        assert(unicode_escape_at(cs, i));
        assert((*chars).remaining()[0] == cs[i + 2]);
        assert((*chars).remaining()[1] == cs[i + 3]);
        assert((*chars).remaining()[2] == cs[i + 4]);
        assert((*chars).remaining()[3] == cs[i + 5]);
    }
    let ghost rem = (*chars).remaining();
    let (codepoint, codepoint_chars) = parse_codepoint_from_chars(chars);
    index = index + 4;
    proof {
        assert(rem.subrange(0, 4) =~= cs.subrange(i + 2, i + 6));
        assert(code_unit_at(rem, 0) == code_unit_at(cs, i + 2));
        assert((*chars).remaining() =~= cs.subrange(i + 6, cs.len() as int));
    }
    match decode_codepoint(codepoint) {
        DecodedCodepoint::Char(ch) => {
            if escape_control_characters && is_control(ch) {
                push_char(out, '\\');
                push_char(out, 'u');
                push_char(out, codepoint_chars[0] as char);
                push_char(out, codepoint_chars[1] as char);
                push_char(out, codepoint_chars[2] as char);
                push_char(out, codepoint_chars[3] as char);
                proof {
                    assert(out@ =~= old(out)@ + cs.subrange(i, i + 6));
                }
            } else {
                push_char(out, ch);
            }
            proof {
                let piece = if esc && is_control_char(ch) {
                    cs.subrange(i, i + 6)
                } else {
                    seq![ch]
                };
                assert(out@ =~= old(out)@ + piece);
                lemma_prepend_prepend(old(out)@, piece, unescape_from(cs, i + 6, esc));
            }
            Ok(index)
        },
        DecodedCodepoint::LowSurrogate(_) => Err(
            UnescapeError {
                index: index - 6,
                codepoint_chars,
                error: UnicodeError::UnexpectedLowSurrogate,
            },
        ),
        DecodedCodepoint::HighSurrogate(hs) => {
            let ghost rem2 = (*chars).remaining();
            let a = next_char(chars);
            let b = next_char(chars);
            match (a, b) {
                (Some('\\'), Some('u')) => {
                    index = index + 2;
                    proof {
                        assert(cs[i + 6] == '\\' && cs[i + 7] == 'u');
                        assert(escapes_valid_from(cs, i + 6));
                        assert(unicode_escape_at(cs, i + 6));
                        assert((*chars).remaining() =~= cs.subrange(i + 8, cs.len() as int));
                    }
                    let ghost rem3 = (*chars).remaining();
                    let (codepoint2, _) = parse_codepoint_from_chars(chars);
                    index = index + 4;
                    proof {
                        assert(code_unit_at(rem3, 0) == code_unit_at(cs, i + 8));
                        assert((*chars).remaining() =~= cs.subrange(i + 12, cs.len() as int));
                    }
                    match decode_codepoint(codepoint2) {
                        DecodedCodepoint::LowSurrogate(ls) => {
                            let c = (hs as u32) * 0x400 + (ls as u32) + 0x10000;
                            push_char(out, char_from_u32(c).unwrap());
                            proof {
                                let ch = c as char;
                                assert(out@ =~= old(out)@ + seq![ch]);
                                lemma_prepend_prepend(old(out)@, seq![ch], unescape_from(cs, i + 12, esc));
                            }
                            Ok(index)
                        },
                        _ => Err(
                            UnescapeError {
                                index,
                                codepoint_chars,
                                error: UnicodeError::UnmatchedHighSurrogate,
                            },
                        ),
                    }
                },
                _ => Err(
                    UnescapeError { index, codepoint_chars, error: UnicodeError::UnmatchedHighSurrogate },
                ),
            }
        },
    }
}

// Unescapes a syntactically valid JSON string; control characters stay
// escaped when `escape_control_characters` holds.
#[verifier::rlimit(40)]
fn unescape_json_string(s: &str, escape_control_characters: bool) -> (r: Result<String, UnescapeError>)
    requires
        escapes_valid(s@),
        s@.len() < usize::MAX - 16,
    ensures
        match unescape_from(s@, 0, escape_control_characters) {
            Ok(t) => r matches Ok(out) && out@ == t,
            Err(f) => r matches Err(e) && e.describes(s@, f),
        },
{
    let ghost cs = s@;
    let ghost esc = escape_control_characters;
    let mut chars = s.chars();
    let mut unescaped = String::new();
    let mut index: usize = 1;
    proof {
        assert(chars.remaining() == cs);
        assert(cs.subrange(0, cs.len() as int) =~= cs);
        assert(prepend(unescaped@, unescape_from(cs, 0, esc)) == unescape_from(cs, 0, esc)) by {
            if let Ok(t) = unescape_from(cs, 0, esc) {
                assert(unescaped@ + t =~= t);
            }
        }
    }
    loop
        invariant
            1 <= index <= cs.len() + 1,
            chars.remaining() == cs.subrange(index - 1, cs.len() as int),
            escapes_valid_from(cs, index - 1),
            unescape_from(cs, 0, esc) == prepend(unescaped@, unescape_from(cs, index - 1, esc)),
            cs.len() < usize::MAX - 16,
            esc == escape_control_characters,
            cs == s@,
        decreases cs.len() + 1 - index,
    {
        let ch = match next_char(&mut chars) {
            None => {
                proof {
                    assert(index - 1 == cs.len());
                    assert(unescape_from(cs, index - 1, esc) == Ok::<Seq<char>, UnescapeFailure>(Seq::empty()));
                    assert(unescaped@ + Seq::<char>::empty() =~= unescaped@);
                }
                return Ok(unescaped);
            },
            Some(c) => c,
        };
        let ghost i = index - 1;
        let ghost before = unescaped@;
        index = index + 1;
        if ch != '\\' {
            write_unescaped(&mut unescaped, ch, escape_control_characters);
            proof {
                lemma_prepend_prepend(before, write_char(ch, esc), unescape_from(cs, i + 1, esc));
                assert(chars.remaining() =~= cs.subrange(index - 1, cs.len() as int));
            }
        } else {
            assert(chars.remaining() =~= cs.subrange(index - 1, cs.len() as int));
            match unescape_escape(&mut chars, &mut unescaped, index, escape_control_characters, Ghost(cs)) {
                Ok(j) => {
                    index = j;
                },
                Err(e) => {
                    proof {
                        let f = unescape_from(cs, i, esc)->Err_0;
                        assert(unescape_from(cs, 0, esc) == Err::<Seq<char>, UnescapeFailure>(f));
                    }
                    return Err(e);
                },
            }
        }
    }
}

/// Unescapes a syntactically valid JSON string into a valid UTF-8 string, but
/// leaves control characters escaped.
pub fn safe_unescape_json_string(s: &str) -> (r: Result<String, UnescapeError>)
    requires
        escapes_valid(s@),
        s@.len() < usize::MAX - 16,
    ensures
        match unescape_from(s@, 0, true) {
            Ok(t) => r matches Ok(out) && out@ == t,
            Err(f) => r matches Err(e) && e.describes(s@, f),
        },
{
    unescape_json_string(s, true)
}

/// Unescapes a syntactically valid JSON string into a valid UTF-8 string,
/// control characters included.
pub fn unsafe_unescape_json_string(s: &str) -> (r: Result<String, UnescapeError>)
    requires
        escapes_valid(s@),
        s@.len() < usize::MAX - 16,
    ensures
        match unescape_from(s@, 0, false) {
            Ok(t) => r matches Ok(out) && out@ == t,
            Err(f) => r matches Err(e) && e.describes(s@, f),
        },
{
    unescape_json_string(s, false)
}

impl UnescapeError {
    /// The message that reports this error.
    pub open spec fn spec_message(self) -> Seq<u8> {
        let head = utf8("unescaping error at char "@) + crate::text::decimal(self.index as nat) + utf8(
            ": "@,
        );
        match self.error {
            UnicodeError::UnexpectedLowSurrogate => head + utf8("unexpected low surrogate \"\\u"@)
                + self.codepoint_chars@ + utf8("\""@),
            UnicodeError::UnmatchedHighSurrogate => head + utf8("high surrogate \"\\u"@)
                + self.codepoint_chars@ + utf8("\" not followed by low surrogate"@),
        }
    }

    /// The message that reports this error.
    pub fn message(&self) -> (m: String)
        requires
            forall|k: int| 0 <= k < 4 ==> self.codepoint_chars@[k] < 128,
        ensures
            utf8(m@) == self.spec_message(),
    {
        let mut m = String::new();
        proof {
            assert(utf8(m@) =~= Seq::<u8>::empty());
        }
        push_str(&mut m, "unescaping error at char ");
        push_decimal(&mut m, self.index);
        push_str(&mut m, ": ");
        match self.error {
            UnicodeError::UnexpectedLowSurrogate => push_str(&mut m, "unexpected low surrogate \"\\u"),
            UnicodeError::UnmatchedHighSurrogate => push_str(&mut m, "high surrogate \"\\u"),
        }
        push_ascii_bytes(&mut m, &self.codepoint_chars);
        match self.error {
            UnicodeError::UnexpectedLowSurrogate => push_str(&mut m, "\""),
            UnicodeError::UnmatchedHighSurrogate => push_str(&mut m, "\" not followed by low surrogate"),
        }
        m
    }
}

} // verus!
