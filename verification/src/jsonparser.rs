//! A recursive-descent JSON parser that flattens the input into rows and a
//! single-line pretty printed copy of it.
//!
//! The grammar is lenient in two ways: arrays and objects may end with a
//! trailing comma, and once a complete top-level value has been read, text
//! that no token can start ends the input.

use vstd::prelude::*;
use vstd::utf8::*;
use crate::flatjson::{ContainerType, FlatJson, OptionIndex, Row, Value};
use crate::jsontokenizer::{JsonToken, next_token, spec_next_token, skip_blanks, token_at};
use crate::text::{utf8, push_ascii, push_ascii_bytes, push_str, substring, push_decimal, lemma_ascii_boundaries};
use std::ops::Range;

verus! {

/// Why an input is no JSON.
#[derive(Debug, Clone, Copy, PartialEq, Eq)]
pub enum ParseError {
    /// The input ended, or no token could start, where a value was needed.
    UnexpectedEof,
    /// A token of the wrong kind, or none, where a separator or key was needed.
    UnexpectedToken(Option<JsonToken>),
    /// A closing bracket, colon or comma, at these bytes, where a value was needed.
    UnexpectedCharacter(usize, usize),
}

/// The name of a token kind, as `Debug` writes it.
pub open spec fn token_name(t: JsonToken) -> Seq<char> {
    match t {
        JsonToken::OpenCurly => "OpenCurly"@,
        JsonToken::CloseCurly => "CloseCurly"@,
        JsonToken::OpenSquare => "OpenSquare"@,
        JsonToken::CloseSquare => "CloseSquare"@,
        JsonToken::Colon => "Colon"@,
        JsonToken::Comma => "Comma"@,
        JsonToken::Null => "Null"@,
        JsonToken::True => "True"@,
        JsonToken::False => "False"@,
        JsonToken::Number => "Number"@,
        JsonToken::String => "String"@,
        JsonToken::Newline => "Newline"@,
        JsonToken::Whitespace => "Whitespace"@,
    }
}

impl ParseError {
    /// The message that reports this error.
    pub open spec fn spec_message(self) -> Seq<u8> {
        match self {
            ParseError::UnexpectedEof => utf8("Unexpected EOF"@),
            ParseError::UnexpectedToken(Some(t)) => utf8("Unexpected token: Ok("@) + utf8(
                token_name(t),
            ) + utf8(")"@),
            ParseError::UnexpectedToken(None) => utf8("Unexpected token: Err(\"Unexpected EOF\")"@),
            ParseError::UnexpectedCharacter(s, e) => utf8("Unexpected character: "@) + crate::text::decimal(
                s as nat,
            ) + utf8(".."@) + crate::text::decimal(e as nat),
        }
    }
}

/// The first position at or after `p` that holds no blank and no line feed.
pub open spec fn skip_ws(b: Seq<u8>, p: int) -> int
    decreases b.len() - p,
{
    if 0 <= p < b.len() && (b[p] == 32 || b[p] == 9 || b[p] == 13 || b[p] == 10) {
        skip_ws(b, p + 1)
    } else {
        p
    }
}

/// Skipping moves forward and stays within the input, and leaves a position
/// at which no blank is to skip and no line feed starts.
pub proof fn lemma_skip_ws(b: Seq<u8>, p: int)
    requires
        0 <= p <= b.len(),
    ensures
        p <= skip_ws(b, p) <= b.len(),
        skip_blanks(b, skip_ws(b, p)) == skip_ws(b, p),
        !(token_at(b, skip_ws(b, p)) matches Some((JsonToken::Newline, _))),
    decreases b.len() - p,
{
    if p < b.len() && (b[p] == 32 || b[p] == 9 || b[p] == 13 || b[p] == 10) {
        lemma_skip_ws(b, p + 1);
    }
}

/// What the parser has built so far, and where it stands in the input.
pub struct ParseState {
    pub pos: int,
    pub rows: Seq<Row>,
    pub text: Seq<u8>,
    pub parents: Seq<usize>,
    pub max_depth: int,
}

/// The state before anything is read.
pub open spec fn initial_state() -> ParseState {
    ParseState { pos: 0, rows: Seq::empty(), text: Seq::empty(), parents: Seq::empty(), max_depth: 0 }
}

/// `s` moved on to `p`.
pub open spec fn at(s: ParseState, p: int) -> ParseState {
    ParseState { pos: p, ..s }
}

/// `s` with `piece` appended to the pretty printed text.
pub open spec fn emit(s: ParseState, piece: Seq<u8>) -> ParseState {
    ParseState { text: s.text + piece, ..s }
}

/// `s` with row `i` replaced by `r`.
pub open spec fn set_row(s: ParseState, i: int, r: Row) -> ParseState {
    ParseState { rows: s.rows.update(i, r), ..s }
}

/// A new row for `value`, a child of the innermost open container, whose text
/// starts where the pretty printed text ends now; its range is one byte long
/// until the caller sets its end.
pub open spec fn new_row(s: ParseState, value: Value) -> Row {
    Row {
        parent: if s.parents.len() == 0 {
            OptionIndex::Nil
        } else {
            OptionIndex::Index(s.parents.last())
        },
        prev_sibling: OptionIndex::Nil,
        next_sibling: OptionIndex::Nil,
        depth: s.parents.len() as usize,
        index_in_parent: 0,
        range: Range { start: s.text.len() as usize, end: (s.text.len() + 1) as usize },
        key_range: None,
        value,
    }
}

/// `s` with a new row for `value` appended.
pub open spec fn create_row(s: ParseState, value: Value) -> ParseState {
    ParseState { rows: s.rows.push(new_row(s, value)), ..s }
}

/// Row `r` whose range now ends at `end`.
pub open spec fn with_end(r: Row, end: int) -> Row {
    Row { range: Range { start: r.range.start, end: end as usize }, ..r }
}

/// An opening of a container with its first child set.
pub open spec fn with_first_child(v: Value, child: usize) -> Value {
    match v {
        Value::OpenContainer { container_type, collapsed, close_index, .. } => Value::OpenContainer {
            container_type,
            collapsed,
            first_child: child,
            close_index,
        },
        _ => v,
    }
}

/// An opening of a container with its closing row set.
pub open spec fn with_close_index(v: Value, close: usize) -> Value {
    match v {
        Value::OpenContainer { container_type, collapsed, first_child, .. } => Value::OpenContainer {
            container_type,
            collapsed,
            first_child,
            close_index: close,
        },
        _ => v,
    }
}

/// Links `child`, the `n`-th child of the container opened at `open`, to the
/// container and to its previous sibling `prev`.
pub open spec fn link_child(
    rows: Seq<Row>,
    open: int,
    child: int,
    prev: OptionIndex,
    n: int,
) -> Seq<Row> {
    let r1 = if n == 0 {
        rows.update(open, Row { value: with_first_child(rows[open].value, child as usize), ..rows[open] })
    } else {
        rows
    };
    let r2 = r1.update(child, Row { prev_sibling: prev, index_in_parent: n as usize, ..r1[child] });
    match prev {
        OptionIndex::Index(p) => r2.update(
            p as int,
            Row { next_sibling: OptionIndex::Index(child as usize), ..r2[p as int] },
        ),
        OptionIndex::Nil => r2,
    }
}

/// A primitive value whose token spans `ts..te`: its row, and its text copied.
pub open spec fn primitive(b: Seq<u8>, s: ParseState, value: Value, ts: int, te: int) -> (
    ParseState,
    usize,
) {
    let i = s.rows.len();
    let s1 = create_row(at(s, te), value);
    let s2 = set_row(s1, i as int, with_end(s1.rows[i as int], s.text.len() + (te - ts)));
    (emit(s2, b.subrange(ts, te)), i as usize)
}

/// Closes the container opened at row `open` after `n` children, the last of
/// which is `last`.
pub open spec fn close_container(
    s: ParseState,
    ct: ContainerType,
    open: int,
    last: OptionIndex,
    n: int,
) -> ParseState {
    let s1 = ParseState { parents: s.parents.drop_last(), ..s };
    let closing: u8 = if ct == ContainerType::Array { 93 } else { 125 };
    if n == 0 {
        let r = s1.rows[open];
        let empty = if ct == ContainerType::Array { Value::EmptyArray } else { Value::EmptyObject };
        emit(
            set_row(s1, open, Row { value: empty, ..with_end(r, r.range.start + 2) }),
            seq![closing],
        )
    } else {
        let s2 = if ct == ContainerType::Array { s1 } else { emit(s1, seq![32u8]) };
        let c = s2.rows.len();
        let s3 = create_row(
            s2,
            Value::CloseContainer {
                container_type: ct,
                collapsed: false,
                last_child: last->Index_0,
                open_index: open as usize,
            },
        );
        let r = s3.rows[open];
        emit(
            set_row(
                s3,
                open,
                Row { value: with_close_index(r.value, c as usize), ..with_end(r, s3.text.len() + 1int) },
            ),
            seq![closing],
        )
    }
}

/// Parses one value at `s.pos`: its first row, or why it is no value.
pub open spec fn parse_value(b: Seq<u8>, s: ParseState) -> Result<(ParseState, usize), ParseError>
    decreases b.len() - s.pos, 1int,
{
    let p = skip_ws(b, s.pos);
    let s1 = ParseState {
        pos: p,
        max_depth: if s.max_depth < s.parents.len() { s.parents.len() as int } else { s.max_depth },
        ..s
    };
    match spec_next_token(b, p) {
        None => Err(ParseError::UnexpectedEof),
        Some((t, ts, te)) => {
            if !(s.pos <= p <= ts < te <= b.len()) {
                Err(ParseError::UnexpectedEof)
            } else {
                match t {
                    JsonToken::OpenSquare => open_container(b, s1, ContainerType::Array, te),
                    JsonToken::OpenCurly => open_container(b, s1, ContainerType::Object, te),
                    JsonToken::Null => Ok(primitive(b, s1, Value::Null, ts, te)),
                    JsonToken::True => Ok(primitive(b, s1, Value::Boolean, ts, te)),
                    JsonToken::False => Ok(primitive(b, s1, Value::Boolean, ts, te)),
                    JsonToken::Number => Ok(primitive(b, s1, Value::Number, ts, te)),
                    JsonToken::String => Ok(primitive(b, s1, Value::String, ts, te)),
                    _ => Err(ParseError::UnexpectedCharacter(ts as usize, te as usize)),
                }
            }
        },
    }
}

/// Parses an array or object whose opening bracket ends at `after`.
pub open spec fn open_container(b: Seq<u8>, s: ParseState, ct: ContainerType, after: int) -> Result<
    (ParseState, usize),
    ParseError,
>
    decreases b.len() - s.pos, 0int,
{
    if !(0 <= s.pos < after <= b.len()) {
        Err(ParseError::UnexpectedEof)
    } else {
        let open = s.rows.len();
        let s1 = create_row(
            s,
            Value::OpenContainer { container_type: ct, collapsed: false, first_child: 0, close_index: 0 },
        );
        let opening: u8 = if ct == ContainerType::Array { 91 } else { 123 };
        let s2 = ParseState {
            parents: s1.parents.push(open as usize),
            ..emit(at(s1, skip_ws(b, after)), seq![opening])
        };
        proof {
            lemma_skip_ws(b, after);
        }
        match container_items(b, s2, ct, open as int, OptionIndex::Nil, 0) {
            Err(e) => Err(e),
            Ok((s3, last, n)) => Ok((close_container(s3, ct, open as int, last, n), open as usize)),
        }
    }
}

/// The closing token of a container type.
pub open spec fn closing_token(ct: ContainerType) -> JsonToken {
    if ct == ContainerType::Array {
        JsonToken::CloseSquare
    } else {
        JsonToken::CloseCurly
    }
}

/// Reads the separator before the `n`-th child of a container: a comma is
/// consumed, a closing bracket is left for the caller; none is needed before
/// the first child.
pub open spec fn separator(b: Seq<u8>, s: ParseState, ct: ContainerType, n: int) -> Result<
    ParseState,
    ParseError,
> {
    if n == 0 {
        Ok(s)
    } else {
        match spec_next_token(b, s.pos) {
            None => Err(ParseError::UnexpectedEof),
            Some((t, ts, te)) => if t == JsonToken::Comma {
                Ok(at(s, skip_ws(b, te)))
            } else if t == closing_token(ct) {
                Ok(s)
            } else {
                Err(ParseError::UnexpectedToken(Some(t)))
            },
        }
    }
}

/// What precedes the `n`-th child, whose first token `t` spans `ts..te`, in
/// the pretty printed text, and for an object the member's key and colon.
pub open spec fn member_start(
    b: Seq<u8>,
    s: ParseState,
    ct: ContainerType,
    n: int,
    t: JsonToken,
    ts: int,
    te: int,
) -> Result<(ParseState, Option<Range<usize>>), ParseError> {
    let s1 = if n != 0 {
        emit(s, seq![44u8, 32])
    } else if ct == ContainerType::Object {
        emit(s, seq![32u8])
    } else {
        s
    };
    if ct == ContainerType::Array {
        Ok((s1, None))
    } else {
        object_key(b, s1, t, ts, te)
    }
}

/// The state after the `n`-th child of the container opened at `open`, whose
/// first row is `child`: its key set, whitespace skipped, and the child linked.
pub open spec fn after_child(
    b: Seq<u8>,
    s: ParseState,
    key: Option<Range<usize>>,
    open: int,
    child: int,
    prev: OptionIndex,
    n: int,
) -> ParseState {
    let s1 = match key {
        Some(k) => set_row(s, child, Row { key_range: Some(k), ..s.rows[child] }),
        None => s,
    };
    ParseState { pos: skip_ws(b, s1.pos), rows: link_child(s1.rows, open, child, prev, n), ..s1 }
}

/// Parses the children of the container opened at row `open`, from the
/// `n`-th on; `prev` is the child before. Ends after the closing bracket,
/// with the last child and the number of children.
pub open spec fn container_items(
    b: Seq<u8>,
    s: ParseState,
    ct: ContainerType,
    open: int,
    prev: OptionIndex,
    n: int,
) -> Result<(ParseState, OptionIndex, int), ParseError>
    decreases b.len() - s.pos, 2int,
{
    match separator(b, s, ct, n) {
        Err(e) => Err(e),
        Ok(s1) => if !(0 <= s.pos <= s1.pos <= b.len()) {
            Err(ParseError::UnexpectedEof)
        } else {
            match spec_next_token(b, s1.pos) {
                None => Err(ParseError::UnexpectedEof),
                Some((t, ts, te)) => if t == closing_token(ct) {
                    Ok((at(s1, te), prev, n))
                } else {
                    match member_start(b, s1, ct, n, t, ts, te) {
                        Err(e) => Err(e),
                        Ok((s3, key)) => if !(s1.pos <= s3.pos <= b.len()) {
                            Err(ParseError::UnexpectedEof)
                        } else {
                            match parse_value(b, s3) {
                                Err(e) => Err(e),
                                Ok((s4, child)) => if !(s.pos < s4.pos <= b.len()) {
                                    Err(ParseError::UnexpectedEof)
                                } else {
                                    proof {
                                        lemma_skip_ws(b, s4.pos);
                                    }
                                    container_items(
                                        b,
                                        after_child(b, s4, key, open, child as int, prev, n),
                                        ct,
                                        open,
                                        OptionIndex::Index(child),
                                        n + 1,
                                    )
                                },
                            }
                        },
                    }
                },
            }
        },
    }
}

/// Reads the key of an object member, whose token `t` spans `ts..te`, and the
/// colon after it.
pub open spec fn object_key(b: Seq<u8>, s: ParseState, t: JsonToken, ts: int, te: int) -> Result<
    (ParseState, Option<Range<usize>>),
    ParseError,
> {
    if t != JsonToken::String {
        Err(ParseError::UnexpectedToken(Some(t)))
    } else {
        let start = s.text.len();
        let key = Range { start: start as usize, end: (start + (te - ts)) as usize };
        let s1 = emit(at(s, skip_ws(b, te)), b.subrange(ts, te));
        match spec_next_token(b, s1.pos) {
            None => Err(ParseError::UnexpectedEof),
            Some((t2, ts2, te2)) => if t2 != JsonToken::Colon {
                Err(ParseError::UnexpectedToken(Some(t2)))
            } else {
                Ok((emit(at(s1, skip_ws(b, te2)), seq![58u8, 32]), Some(key)))
            },
        }
    }
}

/// Parses the values after the first top-level one; `prev` is the last value
/// read so far and `n` its position among the top-level values.
pub open spec fn top_level_items(b: Seq<u8>, s: ParseState, prev: usize, n: int) -> Result<
    ParseState,
    ParseError,
>
    decreases b.len() - s.pos,
{
    if !(0 <= s.pos <= b.len()) {
        Err(ParseError::UnexpectedEof)
    } else {
        let p = skip_ws(b, s.pos);
        match spec_next_token(b, p) {
            None => Ok(at(s, p)),
            Some(_) => match parse_value(b, emit(at(s, p), seq![10u8])) {
                Err(e) => Err(e),
                Ok((s1, next)) => {
                    if !(s.pos < s1.pos <= b.len()) {
                        Err(ParseError::UnexpectedEof)
                    } else {
                        let r1 = s1.rows.update(
                            next as int,
                            Row {
                                prev_sibling: OptionIndex::Index(prev),
                                index_in_parent: (n + 1) as usize,
                                ..s1.rows[next as int]
                            },
                        );
                        let r2 = r1.update(
                            prev as int,
                            Row { next_sibling: OptionIndex::Index(next), ..r1[prev as int] },
                        );
                        top_level_items(b, ParseState { rows: r2, ..s1 }, next, n + 1)
                    }
                },
            },
        }
    }
}

/// Parses a whole input: one or more top-level values, separated by
/// whitespace.
pub open spec fn spec_parse(b: Seq<u8>) -> Result<ParseState, ParseError> {
    match parse_value(b, initial_state()) {
        Err(e) => Err(e),
        Ok((s, first)) => top_level_items(b, s, first, 0),
    }
}

pub proof fn lemma_skip_blanks(b: Seq<u8>, p: int)
    requires
        0 <= p <= b.len(),
    ensures
        p <= skip_blanks(b, p) <= b.len(),
    decreases b.len() - p,
{
    if p < b.len() && crate::jsontokenizer::is_blank(b[p]) {
        lemma_skip_blanks(b, p + 1);
    }
}

proof fn lemma_digits_end_last(b: Seq<u8>, p: int)
    requires
        1 <= p <= b.len(),
        crate::jsontokenizer::is_digit(b[p - 1]),
    ensures
        p <= crate::jsontokenizer::digits_end(b, p) <= b.len(),
        crate::jsontokenizer::is_digit(b[crate::jsontokenizer::digits_end(b, p) - 1]),
    decreases b.len() - p,
{
    if p < b.len() && crate::jsontokenizer::is_digit(b[p]) {
        lemma_digits_end_last(b, p + 1);
    }
}

proof fn lemma_string_end_last(b: Seq<u8>, p: int)
    requires
        0 <= p,
    ensures
        crate::jsontokenizer::string_end(b, p) matches Some(e) ==> p < e <= b.len() && b[e - 1]
            == 34,
    decreases b.len() - p,
{
    if 0 <= p < b.len() && b[p] != 34 {
        if b[p] == 92 {
            if p + 2 <= b.len() {
                lemma_string_end_last(b, p + 2);
            }
            if p + 6 <= b.len() {
                lemma_string_end_last(b, p + 6);
            }
        } else {
            lemma_string_end_last(b, p + 1);
        }
    }
}

/// A token starts and ends with an ASCII byte; a string token is at least two
/// bytes long.
pub proof fn lemma_token_ascii(b: Seq<u8>, p: int)
    requires
        0 <= p,
    ensures
        token_at(b, p) matches Some((t, e)) ==> p < e <= b.len() && b[p] < 128 && b[e - 1] < 128
            && (t == JsonToken::String ==> p + 2 <= e),
{
    if token_at(b, p) is Some {
        let c = b[p];
        if c == 110 || c == 116 || c == 102 {
            if let Some((t, e)) = token_at(b, p) {
                assert(b.subrange(p, e)[e - p - 1] == b[e - 1]);
            }
        } else if c == 34 {
            lemma_string_end_last(b, p + 1);
        } else if c == 45 || crate::jsontokenizer::is_digit(c) {
            let q = if b[p] == 45 { p + 1 } else { p };
            let r = if b[q] == 48 { q + 1 } else { crate::jsontokenizer::digits_end(b, q + 1) };
            if b[q] != 48 {
                lemma_digits_end_last(b, q + 1);
            }
            if r + 1 < b.len() && b[r] == 46 && crate::jsontokenizer::is_digit(b[r + 1]) {
                lemma_digits_end_last(b, r + 2);
            }
            let f = if r + 1 < b.len() && b[r] == 46 && crate::jsontokenizer::is_digit(b[r + 1]) {
                crate::jsontokenizer::digits_end(b, r + 2)
            } else {
                r
            };
            let g = if f + 1 < b.len() && (b[f + 1] == 43 || b[f + 1] == 45) { f + 2 } else { f + 1 };
            if f < b.len() && (b[f] == 101 || b[f] == 69) && g < b.len() && crate::jsontokenizer::is_digit(b[g]) {
                lemma_digits_end_last(b, g + 1);
            }
        }
    }
}

/// The token that closes a container type.
fn closing_token_of(ct: ContainerType) -> (t: JsonToken)
    ensures
        t == closing_token(ct),
{
    match ct {
        ContainerType::Array => JsonToken::CloseSquare,
        ContainerType::Object => JsonToken::CloseCurly,
    }
}

/// The characters of a token kind's name, as `Debug` writes it.
fn token_name_str(t: JsonToken) -> (s: &'static str)
    ensures
        s@ == token_name(t),
{
    match t {
        JsonToken::OpenCurly => "OpenCurly",
        JsonToken::CloseCurly => "CloseCurly",
        JsonToken::OpenSquare => "OpenSquare",
        JsonToken::CloseSquare => "CloseSquare",
        JsonToken::Colon => "Colon",
        JsonToken::Comma => "Comma",
        JsonToken::Null => "Null",
        JsonToken::True => "True",
        JsonToken::False => "False",
        JsonToken::Number => "Number",
        JsonToken::String => "String",
        JsonToken::Newline => "Newline",
        JsonToken::Whitespace => "Whitespace",
    }
}

impl ParseError {
    /// The message that reports this error.
    pub fn message(&self) -> (m: String)
        ensures
            utf8(m@) == self.spec_message(),
    {
        match self {
            ParseError::UnexpectedEof => String::from_str("Unexpected EOF"),
            ParseError::UnexpectedToken(Some(t)) => {
                let mut m = String::from_str("Unexpected token: Ok(");
                push_str(&mut m, token_name_str(*t));
                push_str(&mut m, ")");
                m
            },
            ParseError::UnexpectedToken(None) => String::from_str(
                "Unexpected token: Err(\"Unexpected EOF\")",
            ),
            ParseError::UnexpectedCharacter(s, e) => {
                let mut m = String::from_str("Unexpected character: ");
                push_decimal(&mut m, *s);
                push_str(&mut m, "..");
                push_decimal(&mut m, *e);
                m
            },
        }
    }
}

struct JsonParser<'a> {
    input: &'a str,
    bytes: &'a [u8],
    pos: usize,
    rows: Vec<Row>,
    pretty_printed: String,
    parents: Vec<usize>,
    max_depth: usize,
}

impl<'a> JsonParser<'a> {
    spec fn state(&self) -> ParseState {
        ParseState {
            pos: self.pos as int,
            rows: self.rows@,
            text: utf8(self.pretty_printed@),
            parents: self.parents@,
            max_depth: self.max_depth as int,
        }
    }

    /// The input is the text read, and the sizes stay small enough for the
    /// arithmetic of the parser; the pretty printed text may exceed three bytes
    /// per byte read by `slack`.
    spec fn bounded(&self, slack: int) -> bool {
        &&& self.bytes@ == utf8(self.input@)
        &&& self.bytes@.len() <= usize::MAX / 4
        &&& self.pos <= self.bytes@.len()
        &&& self.rows@.len() <= self.pos
        &&& self.parents@.len() <= self.rows@.len()
        &&& utf8(self.pretty_printed@).len() <= 3 * self.pos + slack
    }

    spec fn same_input(&self, other: &Self) -> bool {
        self.input == other.input && self.bytes == other.bytes
    }

    fn text_len(&self) -> (n: usize)
        requires
            utf8(self.pretty_printed@).len() <= usize::MAX,
        ensures
            n == utf8(self.pretty_printed@).len(),
    {
        self.pretty_printed.as_str().len()
    }

    fn peek(&self) -> (r: Option<(JsonToken, usize, usize)>)
        requires
            self.pos <= self.bytes@.len(),
        ensures
            r == match spec_next_token(self.bytes@, self.pos as int) {
                Some((t, s, e)) => Some((t, s as usize, e as usize)),
                None => None,
            },
            r matches Some((_, s, e)) ==> self.pos <= s < e <= self.bytes@.len(),
            spec_next_token(self.bytes@, self.pos as int) matches Some((t, s, e)) ==> self.pos <= s
                < e <= self.bytes@.len(),
    {
        proof {
            lemma_skip_blanks(self.bytes@, self.pos as int);
            lemma_token_ascii(self.bytes@, skip_blanks(self.bytes@, self.pos as int));
        }
        next_token(self.bytes, self.pos)
    }

    fn consume_whitespace(&mut self)
        requires
            old(self).pos <= old(self).bytes@.len(),
        ensures
            final(self).state() == at(
                old(self).state(),
                skip_ws(old(self).bytes@, old(self).pos as int),
            ),
            final(self).same_input(old(self)),
            old(self).pos <= final(self).pos <= final(self).bytes@.len(),
    {
        let ghost start = self.pos as int;
        proof {
            lemma_skip_ws(self.bytes@, start);
        }
        while self.pos < self.bytes.len() && (self.bytes[self.pos] == 32 || self.bytes[self.pos]
            == 9 || self.bytes[self.pos] == 13 || self.bytes[self.pos] == 10)
            invariant
                self.same_input(old(self)),
                self.state() == at(old(self).state(), self.pos as int),
                start <= self.pos <= self.bytes@.len(),
                skip_ws(self.bytes@, self.pos as int) == skip_ws(self.bytes@, start),
            decreases self.bytes@.len() - self.pos,
        {
            self.pos = self.pos + 1;
        }
    }

    fn create_row(&mut self, value: Value) -> (i: usize)
        requires
            utf8(old(self).pretty_printed@).len() < usize::MAX,
            old(self).rows@.len() < usize::MAX,
        ensures
            final(self).state() == create_row(old(self).state(), value),
            final(self).same_input(old(self)),
            i == old(self).rows@.len(),
    {
        let index = self.rows.len();
        let parent = if self.parents.len() == 0 {
            OptionIndex::Nil
        } else {
            OptionIndex::Index(self.parents[self.parents.len() - 1])
        };
        let range_start = self.text_len();
        self.rows.push(
            Row {
                parent,
                prev_sibling: OptionIndex::Nil,
                next_sibling: OptionIndex::Nil,
                depth: self.parents.len(),
                index_in_parent: 0,
                range: range_start..range_start + 1,
                key_range: None,
                value,
            },
        );
        index
    }

    /// Appends the input bytes `ts..te` of a token to the pretty printed text.
    fn copy_token(&mut self, ts: usize, te: usize)
        requires
            old(self).bytes@ == utf8(old(self).input@),
            ts < te <= old(self).bytes@.len(),
            token_at(old(self).bytes@, ts as int) == Some((JsonToken::String, te as int))
                || token_at(old(self).bytes@, ts as int) == Some((JsonToken::Number, te as int))
                || token_at(old(self).bytes@, ts as int) == Some((JsonToken::Null, te as int))
                || token_at(old(self).bytes@, ts as int) == Some((JsonToken::True, te as int))
                || token_at(old(self).bytes@, ts as int) == Some((JsonToken::False, te as int)),
        ensures
            final(self).state() == emit(
                old(self).state(),
                old(self).bytes@.subrange(ts as int, te as int),
            ),
            final(self).same_input(old(self)),
    {
        proof {
            let b = self.bytes@;
            encode_utf8_valid_utf8(self.input@);
            lemma_token_ascii(b, ts as int);
            lemma_ascii_boundaries(b, ts as int);
            lemma_ascii_boundaries(b, te - 1);
        }
        let piece = substring(self.input, ts, te);
        push_str(&mut self.pretty_printed, piece);
    }

    fn parse_primitive(&mut self, value: Value, ts: usize, te: usize) -> (i: usize)
        requires
            old(self).bounded(1),
            old(self).pos <= ts < te <= old(self).bytes@.len(),
            token_at(old(self).bytes@, ts as int) == Some((JsonToken::String, te as int))
                || token_at(old(self).bytes@, ts as int) == Some((JsonToken::Number, te as int))
                || token_at(old(self).bytes@, ts as int) == Some((JsonToken::Null, te as int))
                || token_at(old(self).bytes@, ts as int) == Some((JsonToken::True, te as int))
                || token_at(old(self).bytes@, ts as int) == Some((JsonToken::False, te as int)),
        ensures
            (final(self).state(), i) == primitive(
                old(self).bytes@,
                old(self).state(),
                value,
                ts as int,
                te as int,
            ),
            final(self).same_input(old(self)),
            final(self).bounded(0),
            final(self).pos == te,
    {
        self.pos = te;
        let i = self.create_row(value);
        let start = self.rows[i].range.start;
        self.rows[i].range.end = start + (te - ts);
        self.copy_token(ts, te);
        i
    }

    /// The rows before `n` are as in `old`, and the pretty printed text of
    /// `old` is a prefix of that of `self`.
    spec fn extends(&self, old: &Self, n: int) -> bool {
        &&& n <= old.rows@.len() <= self.rows@.len()
        &&& forall|i: int| 0 <= i < n ==> #[trigger] self.rows@[i] == old.rows@[i]
        &&& utf8(old.pretty_printed@).len() <= utf8(self.pretty_printed@).len()
    }

    fn parse_elem(&mut self) -> (r: Result<usize, ParseError>)
        requires
            old(self).bounded(1),
        ensures
            final(self).same_input(old(self)),
            match parse_value(old(self).bytes@, old(self).state()) {
                Ok((s, i)) => {
                    &&& r == Ok::<usize, ParseError>(i)
                    &&& final(self).state() == s
                    &&& final(self).bounded(0)
                    &&& old(self).pos < final(self).pos
                    &&& final(self).parents@ == old(self).parents@
                    &&& final(self).extends(old(self), old(self).rows@.len() as int)
                    &&& i == old(self).rows@.len()
                    &&& i < final(self).rows@.len()
                },
                Err(e) => r == Err::<usize, ParseError>(e),
            },
        decreases old(self).bytes@.len() - old(self).pos, 2int,
    {
        let ghost b = self.bytes@;
        let ghost start = self.pos as int;
        proof {
            lemma_skip_ws(b, start);
        }
        self.consume_whitespace();
        if self.max_depth < self.parents.len() {
            self.max_depth = self.parents.len();
        }
        match self.peek() {
            None => Err(ParseError::UnexpectedEof),
            Some((t, ts, te)) => {
                proof {
                    encode_utf8_valid_utf8(self.input@);
                    lemma_token_ascii(b, ts as int);
                }
                match t {
                    JsonToken::OpenSquare => self.parse_array(te),
                    JsonToken::OpenCurly => self.parse_object(te),
                    JsonToken::Null => Ok(self.parse_primitive(Value::Null, ts, te)),
                    JsonToken::True => Ok(self.parse_primitive(Value::Boolean, ts, te)),
                    JsonToken::False => Ok(self.parse_primitive(Value::Boolean, ts, te)),
                    JsonToken::Number => Ok(self.parse_primitive(Value::Number, ts, te)),
                    JsonToken::String => Ok(self.parse_primitive(Value::String, ts, te)),
                    _ => Err(ParseError::UnexpectedCharacter(ts, te)),
                }
            },
        }
    }

    fn parse_array(&mut self, after: usize) -> (r: Result<usize, ParseError>)
        requires
            old(self).bounded(1),
            old(self).pos < after <= old(self).bytes@.len(),
        ensures
            final(self).same_input(old(self)),
            match open_container(old(self).bytes@, old(self).state(), ContainerType::Array, after as int) {
                Ok((s, i)) => {
                    &&& r == Ok::<usize, ParseError>(i)
                    &&& final(self).state() == s
                    &&& final(self).bounded(0)
                    &&& after <= final(self).pos
                    &&& final(self).parents@ == old(self).parents@
                    &&& final(self).extends(old(self), old(self).rows@.len() as int)
                    &&& i == old(self).rows@.len()
                    &&& i < final(self).rows@.len()
                },
                Err(e) => r == Err::<usize, ParseError>(e),
            },
        decreases old(self).bytes@.len() - old(self).pos, 1int,
    {
        self.parse_container(ContainerType::Array, after)
    }

    fn parse_object(&mut self, after: usize) -> (r: Result<usize, ParseError>)
        requires
            old(self).bounded(1),
            old(self).pos < after <= old(self).bytes@.len(),
        ensures
            final(self).same_input(old(self)),
            match open_container(old(self).bytes@, old(self).state(), ContainerType::Object, after as int) {
                Ok((s, i)) => {
                    &&& r == Ok::<usize, ParseError>(i)
                    &&& final(self).state() == s
                    &&& final(self).bounded(0)
                    &&& after <= final(self).pos
                    &&& final(self).parents@ == old(self).parents@
                    &&& final(self).extends(old(self), old(self).rows@.len() as int)
                    &&& i == old(self).rows@.len()
                    &&& i < final(self).rows@.len()
                },
                Err(e) => r == Err::<usize, ParseError>(e),
            },
        decreases old(self).bytes@.len() - old(self).pos, 1int,
    {
        self.parse_container(ContainerType::Object, after)
    }

    #[verifier::rlimit(40)]
    fn parse_container(&mut self, ct: ContainerType, after: usize) -> (r: Result<usize, ParseError>)
        requires
            old(self).bounded(1),
            old(self).pos < after <= old(self).bytes@.len(),
        ensures
            final(self).same_input(old(self)),
            match open_container(old(self).bytes@, old(self).state(), ct, after as int) {
                Ok((s, i)) => {
                    &&& r == Ok::<usize, ParseError>(i)
                    &&& final(self).state() == s
                    &&& final(self).bounded(0)
                    &&& after <= final(self).pos
                    &&& final(self).parents@ == old(self).parents@
                    &&& final(self).extends(old(self), old(self).rows@.len() as int)
                    &&& i == old(self).rows@.len()
                    &&& i < final(self).rows@.len()
                },
                Err(e) => r == Err::<usize, ParseError>(e),
            },
        decreases old(self).bytes@.len() - old(self).pos, 0int,
    {
        let ghost b = self.bytes@;
        let open = self.create_row(
            Value::OpenContainer { container_type: ct, collapsed: false, first_child: 0, close_index: 0 },
        );
        let open_start = self.rows[open].range.start;
        let ghost s1 = self.state();
        self.parents.push(open);
        let opening = ct.open_byte();
        push_ascii(&mut self.pretty_printed, opening);
        proof {
            let expected: u8 = if ct == ContainerType::Array { 91 } else { 123 };
            assert(opening == expected);
            assert(utf8(self.pretty_printed@) =~= s1.text + seq![expected]);
        }
        self.pos = after;
        proof {
            lemma_skip_ws(b, after as int);
        }
        self.consume_whitespace();
        let ghost s2 = self.state();
        proof {
            let expected: u8 = if ct == ContainerType::Array { 91 } else { 123 };
            assert(s2 == ParseState {
                parents: s1.parents.push(open as usize),
                ..emit(at(s1, skip_ws(b, after as int)), seq![expected])
            });
            assert(open_container(b, old(self).state(), ct, after as int) == match container_items(
                b,
                s2,
                ct,
                open as int,
                OptionIndex::Nil,
                0,
            ) {
                Err(e) => Err(e),
                Ok((s3, last, k)) => Ok((close_container(s3, ct, open as int, last, k), open)),
            });
        }
        let close = match ct {
            ContainerType::Array => JsonToken::CloseSquare,
            ContainerType::Object => JsonToken::CloseCurly,
        };
        let mut prev = OptionIndex::Nil;
        let mut n: usize = 0;
        loop
            invariant_except_break
                container_items(b, self.state(), ct, open as int, prev, n as int) == container_items(
                    b,
                    s2,
                    ct,
                    open as int,
                    OptionIndex::Nil,
                    0,
                ),
                self.bounded(0),
            invariant
                open_container(b, old(self).state(), ct, after as int) == match container_items(
                    b,
                    s2,
                    ct,
                    open as int,
                    OptionIndex::Nil,
                    0,
                ) {
                    Err(e) => Err(e),
                    Ok((s3, last, k)) => Ok((close_container(s3, ct, open as int, last, k), open)),
                },
                self.same_input(old(self)),
                b == self.bytes@,
                b.len() <= usize::MAX / 4,
                self.bytes@ == utf8(self.input@),
                self.pos <= b.len(),
                self.parents@.len() <= self.rows@.len(),
                close == closing_token(ct),
                open == old(self).rows@.len(),
                open < self.rows@.len(),
                self.rows@[open as int].range.start == open_start,
                open_start <= utf8(self.pretty_printed@).len(),
                n <= self.rows@.len(),
                n > 0 ==> prev is Index,
                prev matches OptionIndex::Index(p) ==> open < p < self.rows@.len(),
                old(self).pos < after <= self.pos,
                self.parents@ == old(self).parents@.push(open),
                self.extends(old(self), old(self).rows@.len() as int),
            ensures
                container_items(b, s2, ct, open as int, OptionIndex::Nil, 0) == Ok::<
                    (ParseState, OptionIndex, int),
                    ParseError,
                >((self.state(), prev, n as int)),
                utf8(self.pretty_printed@).len() + 3 <= 3 * self.pos,
                self.rows@.len() < self.pos,
            decreases self.bytes@.len() - self.pos,
        {
            match self.container_step(ct, open, prev, n) {
                Err(e) => {
                    return Err(e);
                },
                Ok(None) => {
                    break ;
                },
                Ok(Some(child)) => {
                    n = n + 1;
                    prev = OptionIndex::Index(child);
                },
            }
        }
        self.close_container(ct, open, prev, n);
        Ok(open)
    }

    /// One step of reading the children of the container opened at `open`:
    /// `None` once its closing bracket is read, or the first row of the
    /// next child.
    #[verifier::rlimit(50)]
    fn container_step(&mut self, ct: ContainerType, open: usize, prev: OptionIndex, n: usize) -> (r:
        Result<Option<usize>, ParseError>)
        requires
            old(self).bounded(0),
            open < old(self).rows@.len(),
            n <= old(self).rows@.len(),
            prev matches OptionIndex::Index(p) ==> open < p < old(self).rows@.len(),
        ensures
            final(self).same_input(old(self)),
            match r {
                Err(e) => container_items(
                    old(self).bytes@,
                    old(self).state(),
                    ct,
                    open as int,
                    prev,
                    n as int,
                ) == Err::<(ParseState, OptionIndex, int), ParseError>(e),
                Ok(None) => {
                    &&& container_items(
                        old(self).bytes@,
                        old(self).state(),
                        ct,
                        open as int,
                        prev,
                        n as int,
                    ) == Ok::<(ParseState, OptionIndex, int), ParseError>(
                        (final(self).state(), prev, n as int),
                    )
                    &&& utf8(final(self).pretty_printed@).len() + 3 <= 3 * final(self).pos
                    &&& final(self).rows@.len() < final(self).pos
                    &&& final(self).pos <= final(self).bytes@.len()
                    &&& final(self).rows@ == old(self).rows@
                    &&& final(self).parents@ == old(self).parents@
                    &&& utf8(final(self).pretty_printed@) == utf8(old(self).pretty_printed@)
                    &&& old(self).pos <= final(self).pos
                },
                Ok(Some(child)) => {
                    &&& container_items(
                        old(self).bytes@,
                        final(self).state(),
                        ct,
                        open as int,
                        OptionIndex::Index(child),
                        n + 1,
                    ) == container_items(
                        old(self).bytes@,
                        old(self).state(),
                        ct,
                        open as int,
                        prev,
                        n as int,
                    )
                    &&& final(self).bounded(0)
                    &&& old(self).pos < final(self).pos
                    &&& open < child < final(self).rows@.len()
                    &&& n + 1 <= final(self).rows@.len()
                    &&& final(self).parents@ == old(self).parents@
                    &&& final(self).rows@[open as int].range == old(self).rows@[open as int].range
                    &&& forall|i: int|
                        0 <= i < open ==> #[trigger] final(self).rows@[i] == old(self).rows@[i]
                    &&& utf8(old(self).pretty_printed@).len() <= utf8(
                        final(self).pretty_printed@,
                    ).len()
                },
            },
        decreases old(self).bytes@.len() - old(self).pos, 3int,
    {
        let ghost b = self.bytes@;
        let ghost s0 = self.state();
        match self.separator(ct, n) {
            Ok(()) => {},
            Err(e) => {
                return Err(e);
            },
        }
        let (t, ts, te) = match self.peek() {
            None => {
                return Err(ParseError::UnexpectedEof);
            },
            Some(x) => x,
        };
        if t == closing_token_of(ct) {
            self.pos = te;
            return Ok(None);
        }
        let key = match self.member_start(ct, n, t, ts, te) {
            Ok(k) => k,
            Err(e) => {
                return Err(e);
            },
        };
        let child = match self.parse_elem() {
            Ok(c) => c,
            Err(e) => {
                return Err(e);
            },
        };
        self.finish_child(key, open, child, prev, n);
        Ok(Some(child))
    }

    fn separator(&mut self, ct: ContainerType, n: usize) -> (r: Result<(), ParseError>)
        requires
            old(self).bounded(0),
        ensures
            final(self).same_input(old(self)),
            match separator(old(self).bytes@, old(self).state(), ct, n as int) {
                Ok(s) => {
                    &&& r is Ok
                    &&& final(self).state() == s
                    &&& final(self).bounded(0)
                    &&& old(self).pos <= final(self).pos
                    &&& (n != 0 ==> old(self).pos < final(self).pos || (spec_next_token(
                        final(self).bytes@,
                        final(self).pos as int,
                    ) matches Some((t, _, _)) && t == closing_token(ct)))
                },
                Err(e) => r == Err::<(), ParseError>(e),
            },
    {
        if n != 0 {
            match self.peek() {
                None => {
                    return Err(ParseError::UnexpectedEof);
                },
                Some((t, ts, te)) => {
                    if t == JsonToken::Comma {
                        proof {
                            lemma_skip_ws(self.bytes@, te as int);
                        }
                        self.pos = te;
                        self.consume_whitespace();
                    } else if t == closing_token_of(ct) {
                    } else {
                        return Err(ParseError::UnexpectedToken(Some(t)));
                    }
                },
            }
        }
        Ok(())
    }

    fn member_start(&mut self, ct: ContainerType, n: usize, t: JsonToken, ts: usize, te: usize) -> (r:
        Result<Option<Range<usize>>, ParseError>)
        requires
            old(self).bounded(0),
            n != 0 ==> utf8(old(self).pretty_printed@).len() + 3 <= 3 * old(self).pos,
            spec_next_token(old(self).bytes@, old(self).pos as int) == Some((t, ts as int, te as int)),
            old(self).pos <= ts < te <= old(self).bytes@.len(),
        ensures
            final(self).same_input(old(self)),
            match member_start(old(self).bytes@, old(self).state(), ct, n as int, t, ts as int, te as int) {
                Ok((s, key)) => {
                    &&& r == Ok::<Option<Range<usize>>, ParseError>(key)
                    &&& final(self).state() == s
                    &&& final(self).bounded(1)
                    &&& old(self).pos <= final(self).pos
                },
                Err(e) => r == Err::<Option<Range<usize>>, ParseError>(e),
            },
    {
        let ghost s0 = self.state();
        if n != 0 {
            let sep: [u8; 2] = [44, 32];
            push_ascii_bytes(&mut self.pretty_printed, &sep);
            assert(sep@ =~= seq![44u8, 32]);
        } else if ct == ContainerType::Object {
            push_ascii(&mut self.pretty_printed, 32);
            assert(utf8(self.pretty_printed@) =~= s0.text + seq![32u8]);
        }
        if ct == ContainerType::Array {
            Ok(None)
        } else {
            match self.object_key(t, ts, te) {
                Ok(k) => Ok(Some(k)),
                Err(e) => Err(e),
            }
        }
    }

    fn finish_child(
        &mut self,
        key: Option<Range<usize>>,
        open: usize,
        child: usize,
        prev: OptionIndex,
        n: usize,
    )
        requires
            open < child < old(self).rows@.len(),
            prev matches OptionIndex::Index(p) ==> open < p < old(self).rows@.len(),
            old(self).pos <= old(self).bytes@.len(),
        ensures
            final(self).state() == after_child(
                old(self).bytes@,
                old(self).state(),
                key,
                open as int,
                child as int,
                prev,
                n as int,
            ),
            final(self).same_input(old(self)),
            old(self).pos <= final(self).pos <= final(self).bytes@.len(),
            final(self).rows@[open as int].range == old(self).rows@[open as int].range,
            forall|i: int|
                0 <= i < open ==> #[trigger] final(self).rows@[i] == old(self).rows@[i],
    {
        let ghost s0 = self.state();
        if let Some(k) = key {
            self.rows[child].key_range = Some(k);
            assert(self.rows@ =~= s0.rows.update(
                child as int,
                Row { key_range: Some(k), ..s0.rows[child as int] },
            ));
        }
        proof {
            lemma_skip_ws(self.bytes@, self.pos as int);
        }
        self.consume_whitespace();
        self.link_child(open, child, prev, n);
    }

    fn object_key(&mut self, t: JsonToken, ts: usize, te: usize) -> (r: Result<Range<usize>, ParseError>)
        requires
            old(self).bounded(1),
            spec_next_token(old(self).bytes@, old(self).pos as int) == Some((t, ts as int, te as int)),
            old(self).pos <= ts < te <= old(self).bytes@.len(),
        ensures
            final(self).same_input(old(self)),
            match object_key(old(self).bytes@, old(self).state(), t, ts as int, te as int) {
                Ok((s, key)) => {
                    &&& r matches Ok(k) && key == Some(k)
                    &&& final(self).state() == s
                    &&& final(self).bounded(0)
                    &&& old(self).pos < final(self).pos
                    &&& final(self).rows@ == old(self).rows@
                    &&& final(self).parents@ == old(self).parents@
                    &&& utf8(old(self).pretty_printed@).len() <= utf8(final(self).pretty_printed@).len()
                },
                Err(e) => r == Err::<Range<usize>, ParseError>(e),
            },
    {
        let ghost b = self.bytes@;
        if t != JsonToken::String {
            return Err(ParseError::UnexpectedToken(Some(t)));
        }
        proof {
            lemma_token_ascii(b, ts as int);
            lemma_skip_ws(b, te as int);
        }
        let start = self.text_len();
        let key = start..start + (te - ts);
        self.pos = te;
        self.consume_whitespace();
        self.copy_token(ts, te);
        match self.peek() {
            None => Err(ParseError::UnexpectedEof),
            Some((t2, ts2, te2)) => {
                if t2 != JsonToken::Colon {
                    Err(ParseError::UnexpectedToken(Some(t2)))
                } else {
                    proof {
                        lemma_skip_ws(b, te2 as int);
                    }
                    self.pos = te2;
                    self.consume_whitespace();
                    let sep: [u8; 2] = [58, 32];
                    push_ascii_bytes(&mut self.pretty_printed, &sep);
                    Ok(key)
                }
            },
        }
    }

    fn link_child(&mut self, open: usize, child: usize, prev: OptionIndex, n: usize)
        requires
            open < old(self).rows@.len(),
            child < old(self).rows@.len(),
            prev matches OptionIndex::Index(p) ==> p < old(self).rows@.len(),
        ensures
            final(self).state() == (ParseState {
                rows: link_child(old(self).rows@, open as int, child as int, prev, n as int),
                ..old(self).state()
            }),
            final(self).same_input(old(self)),
    {
        let ghost r0 = self.rows@;
        if n == 0 {
            let v = self.rows[open].value;
            if let Value::OpenContainer { container_type, collapsed, close_index, .. } = v {
                self.rows[open].value = Value::OpenContainer {
                    container_type,
                    collapsed,
                    first_child: child,
                    close_index,
                };
            }
            assert(self.rows@ =~= r0.update(
                open as int,
                Row { value: with_first_child(r0[open as int].value, child), ..r0[open as int] },
            ));
        }
        let ghost r1 = self.rows@;
        self.rows[child].prev_sibling = prev;
        self.rows[child].index_in_parent = n;
        assert(self.rows@ =~= r1.update(
            child as int,
            Row { prev_sibling: prev, index_in_parent: n, ..r1[child as int] },
        ));
        let ghost r2 = self.rows@;
        if let OptionIndex::Index(p) = prev {
            self.rows[p].next_sibling = OptionIndex::Index(child);
            assert(self.rows@ =~= r2.update(
                p as int,
                Row { next_sibling: OptionIndex::Index(child), ..r2[p as int] },
            ));
        }
    }

    fn close_container(&mut self, ct: ContainerType, open: usize, last: OptionIndex, n: usize)
        requires
            old(self).bounded(0),
            open < old(self).rows@.len(),
            old(self).parents@.len() > 0,
            old(self).rows@[open as int].range.start <= utf8(old(self).pretty_printed@).len(),
            n > 0 ==> last is Index,
            utf8(old(self).pretty_printed@).len() + 3 <= 3 * old(self).pos,
            old(self).rows@.len() < old(self).pos,
        ensures
            final(self).state() == close_container(old(self).state(), ct, open as int, last, n as int),
            final(self).same_input(old(self)),
            final(self).bounded(0),
            utf8(old(self).pretty_printed@).len() <= utf8(final(self).pretty_printed@).len(),
            forall|i: int|
                0 <= i < open ==> #[trigger] final(self).rows@[i] == old(self).rows@[i],
    {
        let ghost s0 = self.state();
        self.parents.pop();
        let ghost s1 = ParseState { parents: s0.parents.drop_last(), ..s0 };
        assert(self.state() == s1);
        if n == 0 {
            let ghost r = s1.rows[open as int];
            let start = self.rows[open].range.start;
            self.rows[open].value = match ct {
                ContainerType::Array => Value::EmptyArray,
                ContainerType::Object => Value::EmptyObject,
            };
            self.rows[open].range.end = start + 2;
            let ghost empty = if ct == ContainerType::Array {
                Value::EmptyArray
            } else {
                Value::EmptyObject
            };
            assert(self.rows@ =~= s1.rows.update(
                open as int,
                Row { value: empty, ..with_end(r, r.range.start + 2) },
            ));
        } else {
            if ct == ContainerType::Object {
                push_ascii(&mut self.pretty_printed, 32);
            }
            let ghost s2 = self.state();
            assert(s2.text =~= (if ct == ContainerType::Array { s1 } else { emit(s1, seq![32u8]) }).text);
            let c = self.create_row(
                Value::CloseContainer {
                    container_type: ct,
                    collapsed: false,
                    last_child: last.unwrap(),
                    open_index: open,
                },
            );
            let ghost s3 = self.state();
            let ghost r = s3.rows[open as int];
            let end = self.text_len() + 1;
            let v = self.rows[open].value;
            if let Value::OpenContainer { container_type, collapsed, first_child, .. } = v {
                self.rows[open].value = Value::OpenContainer {
                    container_type,
                    collapsed,
                    first_child,
                    close_index: c,
                };
            }
            self.rows[open].range.end = end;
            assert(self.rows@ =~= s3.rows.update(
                open as int,
                Row { value: with_close_index(r.value, c as usize), ..with_end(r, s3.text.len() + 1int) },
            ));
        }
        let ghost s4 = self.state();
        let closing = ct.close_byte();
        push_ascii(&mut self.pretty_printed, closing);
        assert(utf8(self.pretty_printed@) =~= s4.text + seq![closing]);
    }

    fn top_level_step(&mut self, prev: usize, n: usize) -> (r: Result<Option<usize>, ParseError>)
        requires
            old(self).bounded(0),
            prev < old(self).rows@.len(),
            n <= old(self).rows@.len(),
        ensures
            final(self).same_input(old(self)),
            match r {
                Err(e) => top_level_items(old(self).bytes@, old(self).state(), prev, n as int) == Err::<
                    ParseState,
                    ParseError,
                >(e),
                Ok(None) => top_level_items(old(self).bytes@, old(self).state(), prev, n as int)
                    == Ok::<ParseState, ParseError>(final(self).state()),
                Ok(Some(next)) => {
                    &&& top_level_items(old(self).bytes@, final(self).state(), next, n + 1)
                        == top_level_items(old(self).bytes@, old(self).state(), prev, n as int)
                    &&& final(self).bounded(0)
                    &&& old(self).pos < final(self).pos
                    &&& next < final(self).rows@.len()
                    &&& n + 1 <= final(self).rows@.len()
                },
            },
    {
        let ghost b = self.bytes@;
        proof {
            lemma_skip_ws(b, self.pos as int);
        }
        self.consume_whitespace();
        if self.peek().is_none() {
            return Ok(None);
        }
        let ghost s1 = self.state();
        push_ascii(&mut self.pretty_printed, 10);
        assert(utf8(self.pretty_printed@) =~= s1.text + seq![10u8]);
        let next = match self.parse_elem() {
            Ok(i) => i,
            Err(e) => {
                return Err(e);
            },
        };
        let ghost r0 = self.rows@;
        self.rows[next].prev_sibling = OptionIndex::Index(prev);
        self.rows[next].index_in_parent = n + 1;
        let ghost r1 = r0.update(
            next as int,
            Row {
                prev_sibling: OptionIndex::Index(prev),
                index_in_parent: (n + 1) as usize,
                ..r0[next as int]
            },
        );
        assert(self.rows@ =~= r1);
        self.rows[prev].next_sibling = OptionIndex::Index(next);
        assert(self.rows@ =~= r1.update(
            prev as int,
            Row { next_sibling: OptionIndex::Index(next), ..r1[prev as int] },
        ));
        Ok(Some(next))
    }

    fn parse_top_level_json(&mut self) -> (r: Result<(), ParseError>)
        requires
            old(self).state() == initial_state(),
            old(self).bytes@ == utf8(old(self).input@),
            old(self).bytes@.len() <= usize::MAX / 4,
        ensures
            final(self).same_input(old(self)),
            match spec_parse(old(self).bytes@) {
                Ok(s) => r is Ok && final(self).state() == s,
                Err(e) => r == Err::<(), ParseError>(e),
            },
    {
        let ghost b = self.bytes@;
        let first = match self.parse_elem() {
            Ok(i) => i,
            Err(e) => {
                return Err(e);
            },
        };
        let ghost s1 = self.state();
        let mut prev = first;
        let mut n: usize = 0;
        loop
            invariant_except_break
                top_level_items(b, self.state(), prev, n as int) == top_level_items(b, s1, first, 0),
                self.bounded(0),
                prev < self.rows@.len(),
                n <= self.rows@.len(),
            invariant
                spec_parse(b) == top_level_items(b, s1, first, 0),
                self.same_input(old(self)),
                b == self.bytes@,
            ensures
                top_level_items(b, s1, first, 0) == Ok::<ParseState, ParseError>(self.state()),
            decreases self.bytes@.len() - self.pos,
        {
            match self.top_level_step(prev, n) {
                Err(e) => {
                    return Err(e);
                },
                Ok(None) => {
                    break ;
                },
                Ok(Some(next)) => {
                    n = n + 1;
                    prev = next;
                },
            }
        }
        Ok(())
    }
}

/// Parses JSON text into its rows, its single-line pretty printed form and
/// the greatest nesting depth of its values.
pub fn parse(json: String) -> (r: Result<(Vec<Row>, String, usize), String>)
    requires
        utf8(json@).len() <= usize::MAX / 4,
    ensures
        match spec_parse(utf8(json@)) {
            Ok(s) => r matches Ok((rows, text, depth)) && rows@ == s.rows && utf8(text@) == s.text
                && depth == s.max_depth,
            Err(e) => r matches Err(m) && utf8(m@) == e.spec_message(),
        },
        r matches Ok((rows, text, depth)) ==> ({
            let fj = FlatJson(rows, text, depth);
            &&& fj.wf()
            &&& fj.depths_follow_parents()
            &&& fj.rows_start_in_order()
            &&& fj.depth_is_greatest()
        }),
{
    proof {
        vstd::utf8::encode_utf8_valid_utf8(json@);
        crate::wellformed::lemma_spec_parse_sound(utf8(json@));
    }
    let input = json.as_str();
    let bytes = input.as_bytes();
    let mut parser = JsonParser {
        input,
        bytes,
        pos: 0,
        rows: Vec::new(),
        pretty_printed: String::new(),
        parents: Vec::new(),
        max_depth: 0,
    };
    proof {
        assert(utf8(parser.pretty_printed@) =~= Seq::<u8>::empty());
        assert(parser.state() == initial_state());
    }
    match parser.parse_top_level_json() {
        Ok(()) => {
            proof {
                if let Ok(st) = spec_parse(utf8(json@)) {
                    crate::wellformed::lemma_sound_document_wf(
                        utf8(json@),
                        st,
                        FlatJson(parser.rows, parser.pretty_printed, parser.max_depth),
                    );
                }
            }
            Ok((parser.rows, parser.pretty_printed, parser.max_depth))
        },
        Err(e) => Err(e.message()),
    }
}

} // verus!
