//! A basic JSON tokenizer over the UTF-8 bytes of the input.
//!
//! Blanks (space, tab, carriage return) between tokens are skipped; a line
//! feed is a token of its own so that newline-delimited JSON can be told
//! apart. Where several tokens could start at a position, the longest one is
//! taken, as a regular-expression lexer does.

use vstd::prelude::*;

verus! {

#[derive(Debug, Clone, Copy, PartialEq, Eq, Structural)]
pub enum JsonToken {
    OpenCurly,
    CloseCurly,
    OpenSquare,
    CloseSquare,
    Colon,
    Comma,
    Null,
    True,
    False,
    Number,
    String,
    Newline,
    Whitespace,
}

/// Space, tab or carriage return.
pub open spec fn is_blank(c: u8) -> bool {
    c == 32 || c == 9 || c == 13
}

/// `[0-9]`
pub open spec fn is_digit(c: u8) -> bool {
    48 <= c <= 57
}

/// `[0-9a-fA-F]`
pub open spec fn is_hex_digit(c: u8) -> bool {
    is_digit(c) || (97 <= c <= 102) || (65 <= c <= 70)
}

/// One of `"\/bfnrt`, the characters that may follow a backslash on their own.
pub open spec fn is_simple_escape(c: u8) -> bool {
    c == 34 || c == 92 || c == 47 || c == 98 || c == 102 || c == 110 || c == 114 || c == 116
}

/// The first position at or after `p` that holds no blank.
pub open spec fn skip_blanks(b: Seq<u8>, p: int) -> int
    decreases b.len() - p,
{
    if 0 <= p < b.len() && is_blank(b[p]) {
        skip_blanks(b, p + 1)
    } else {
        p
    }
}

/// The first position at or after `p` that holds no digit.
pub open spec fn digits_end(b: Seq<u8>, p: int) -> int
    decreases b.len() - p,
{
    if 0 <= p < b.len() && is_digit(b[p]) {
        digits_end(b, p + 1)
    } else {
        p
    }
}

/// The end of the longest match of `-?(0|[1-9][0-9]*)(\.[0-9]+)?([eE][-+]?[0-9]+)?`
/// that starts at `p`, if any.
pub open spec fn number_end(b: Seq<u8>, p: int) -> Option<int> {
    let q = if 0 <= p < b.len() && b[p] == 45 { p + 1 } else { p };
    if !(0 <= q < b.len() && is_digit(b[q])) {
        None
    } else {
        let r = if b[q] == 48 { q + 1 } else { digits_end(b, q + 1) };
        let f = if r + 1 < b.len() && b[r] == 46 && is_digit(b[r + 1]) {
            digits_end(b, r + 2)
        } else {
            r
        };
        let g = if f + 1 < b.len() && (b[f + 1] == 43 || b[f + 1] == 45) { f + 2 } else { f + 1 };
        if f < b.len() && (b[f] == 101 || b[f] == 69) && g < b.len() && is_digit(b[g]) {
            Some(digits_end(b, g + 1))
        } else {
            Some(f)
        }
    }
}

/// The end of a string literal whose opening quote lies just before `p`: the
/// position after its closing quote, if the literal is complete and valid.
pub open spec fn string_end(b: Seq<u8>, p: int) -> Option<int>
    decreases b.len() - p,
{
    if !(0 <= p < b.len()) {
        None
    } else if b[p] == 34 {
        Some(p + 1)
    } else if b[p] == 92 {
        if p + 1 < b.len() && is_simple_escape(b[p + 1]) {
            string_end(b, p + 2)
        } else if p + 5 < b.len() && b[p + 1] == 117 && is_hex_digit(b[p + 2]) && is_hex_digit(
            b[p + 3],
        ) && is_hex_digit(b[p + 4]) && is_hex_digit(b[p + 5]) {
            string_end(b, p + 6)
        } else {
            None
        }
    } else if b[p] < 32 {
        None
    } else {
        string_end(b, p + 1)
    }
}

/// The bytes of `word` stand at `p`.
pub open spec fn word_at(b: Seq<u8>, p: int, word: Seq<u8>) -> bool {
    0 <= p && p + word.len() <= b.len() && b.subrange(p, p + word.len()) == word
}

/// The token that starts exactly at `p`, with the position after it.
pub open spec fn token_at(b: Seq<u8>, p: int) -> Option<(JsonToken, int)> {
    if !(0 <= p < b.len()) {
        None
    } else {
        let c = b[p];
        if c == 123 {
            Some((JsonToken::OpenCurly, p + 1))
        } else if c == 125 {
            Some((JsonToken::CloseCurly, p + 1))
        } else if c == 91 {
            Some((JsonToken::OpenSquare, p + 1))
        } else if c == 93 {
            Some((JsonToken::CloseSquare, p + 1))
        } else if c == 58 {
            Some((JsonToken::Colon, p + 1))
        } else if c == 44 {
            Some((JsonToken::Comma, p + 1))
        } else if c == 10 {
            Some((JsonToken::Newline, p + 1))
        } else if c == 110 {
            if word_at(b, p, seq![110u8, 117, 108, 108]) {
                Some((JsonToken::Null, p + 4))
            } else {
                None
            }
        } else if c == 116 {
            if word_at(b, p, seq![116u8, 114, 117, 101]) {
                Some((JsonToken::True, p + 4))
            } else {
                None
            }
        } else if c == 102 {
            if word_at(b, p, seq![102u8, 97, 108, 115, 101]) {
                Some((JsonToken::False, p + 5))
            } else {
                None
            }
        } else if c == 34 {
            match string_end(b, p + 1) {
                Some(e) => Some((JsonToken::String, e)),
                None => None,
            }
        } else if c == 45 || is_digit(c) {
            match number_end(b, p) {
                Some(e) => Some((JsonToken::Number, e)),
                None => None,
            }
        } else {
            None
        }
    }
}

/// The next token at or after `p`, once blanks are skipped: its kind, start
/// and end. `None` where the input ends or no token can start.
pub open spec fn spec_next_token(b: Seq<u8>, p: int) -> Option<(JsonToken, int, int)> {
    let s = skip_blanks(b, p);
    match token_at(b, s) {
        Some((t, e)) => Some((t, s, e)),
        None => None,
    }
}

/// An optional position as a machine-sized one.
pub open spec fn opt_pos(o: Option<int>) -> Option<usize> {
    match o {
        Some(e) => Some(e as usize),
        None => None,
    }
}

proof fn lemma_digits_end_bounds(b: Seq<u8>, p: int)
    requires
        0 <= p <= b.len(),
    ensures
        p <= digits_end(b, p) <= b.len(),
    decreases b.len() - p,
{
    if p < b.len() && is_digit(b[p]) {
        lemma_digits_end_bounds(b, p + 1);
    }
}

proof fn lemma_string_end_bounds(b: Seq<u8>, p: int)
    requires
        0 <= p,
    ensures
        string_end(b, p) matches Some(e) ==> p < e <= b.len() && b[e - 1] == 34,
    decreases b.len() - p,
{
    if 0 <= p < b.len() && b[p] != 34 {
        if b[p] == 92 {
            if p + 2 <= b.len() {
                lemma_string_end_bounds(b, p + 2);
            }
            if p + 6 <= b.len() {
                lemma_string_end_bounds(b, p + 6);
            }
        } else {
            lemma_string_end_bounds(b, p + 1);
        }
    }
}

fn scan_digits(bytes: &[u8], p: usize) -> (r: usize)
    requires
        p <= bytes@.len(),
    ensures
        r == digits_end(bytes@, p as int),
    decreases bytes@.len() - p,
{
    if p < bytes.len() && 48 <= bytes[p] && bytes[p] <= 57 {
        scan_digits(bytes, p + 1)
    } else {
        p
    }
}

fn scan_number(bytes: &[u8], p: usize) -> (r: Option<usize>)
    requires
        p < bytes@.len(),
    ensures
        r == opt_pos(number_end(bytes@, p as int)),
        r matches Some(e) ==> p < e <= bytes@.len(),
{
    let len = bytes.len();
    let q = if bytes[p] == 45 { p + 1 } else { p };
    if !(q < len && 48 <= bytes[q] && bytes[q] <= 57) {
        return None;
    }
    let r = if bytes[q] == 48 { q + 1 } else { scan_digits(bytes, q + 1) };
    proof {
        lemma_digits_end_bounds(bytes@, q + 1);
    }
    let f = if r < len && len - r > 1 && bytes[r] == 46 && 48 <= bytes[r + 1] && bytes[r + 1] <= 57 {
        proof {
            lemma_digits_end_bounds(bytes@, r + 2);
        }
        scan_digits(bytes, r + 2)
    } else {
        r
    };
    if f < len && (bytes[f] == 101 || bytes[f] == 69) {
        let g = if len - f > 1 && (bytes[f + 1] == 43 || bytes[f + 1] == 45) {
            f + 2
        } else {
            f + 1
        };
        if g < len && 48 <= bytes[g] && bytes[g] <= 57 {
            proof {
                lemma_digits_end_bounds(bytes@, g + 1);
            }
            return Some(scan_digits(bytes, g + 1));
        }
    }
    Some(f)
}

fn is_hex(c: u8) -> (b: bool)
    ensures
        b == is_hex_digit(c),
{
    (48 <= c && c <= 57) || (97 <= c && c <= 102) || (65 <= c && c <= 70)
}

fn scan_string(bytes: &[u8], p: usize) -> (r: Option<usize>)
    requires
        p <= bytes@.len(),
    ensures
        r == opt_pos(string_end(bytes@, p as int)),
    decreases bytes@.len() - p,
{
    proof {
        lemma_string_end_bounds(bytes@, p as int);
    }
    if p >= bytes.len() {
        None
    } else if bytes[p] == 34 {
        Some(p + 1)
    } else if bytes[p] == 92 {
        if bytes.len() - p > 1 && (bytes[p + 1] == 34 || bytes[p + 1] == 92 || bytes[p + 1] == 47
            || bytes[p + 1] == 98 || bytes[p + 1] == 102 || bytes[p + 1] == 110 || bytes[p + 1]
            == 114 || bytes[p + 1] == 116) {
            scan_string(bytes, p + 2)
        } else if bytes.len() - p > 5 && bytes[p + 1] == 117 && is_hex(bytes[p + 2]) && is_hex(
            bytes[p + 3],
        ) && is_hex(bytes[p + 4]) && is_hex(bytes[p + 5]) {
            scan_string(bytes, p + 6)
        } else {
            None
        }
    } else if bytes[p] < 32 {
        None
    } else {
        scan_string(bytes, p + 1)
    }
}

fn word_matches(bytes: &[u8], p: usize, word: &[u8]) -> (r: bool)
    requires
        p <= bytes@.len(),
    ensures
        r == word_at(bytes@, p as int, word@),
{
    if word.len() > bytes.len() - p {
        return false;
    }
    let mut i: usize = 0;
    while i < word.len()
        invariant
            i <= word@.len(),
            p + word@.len() <= bytes@.len(),
            bytes@.len() <= usize::MAX,
            forall|k: int| 0 <= k < i ==> bytes@[p + k] == word@[k],
        decreases word@.len() - i,
    {
        if bytes[p + i] != word[i] {
            assert(bytes@.subrange(p as int, p + word@.len())[i as int] != word@[i as int]);
            return false;
        }
        i = i + 1;
    }
    assert(bytes@.subrange(p as int, p + word@.len()) =~= word@);
    true
}

/// The token that starts exactly at `p`, with the position after it.
pub fn token_at_position(bytes: &[u8], p: usize) -> (r: Option<(JsonToken, usize)>)
    requires
        p <= bytes@.len(),
    ensures
        r == match token_at(bytes@, p as int) {
            Some((t, e)) => Some((t, e as usize)),
            None => None,
        },
        r matches Some((_, e)) ==> p < e <= bytes@.len(),
{
    if p >= bytes.len() {
        return None;
    }
    let c = bytes[p];
    if c == 123 {
        Some((JsonToken::OpenCurly, p + 1))
    } else if c == 125 {
        Some((JsonToken::CloseCurly, p + 1))
    } else if c == 91 {
        Some((JsonToken::OpenSquare, p + 1))
    } else if c == 93 {
        Some((JsonToken::CloseSquare, p + 1))
    } else if c == 58 {
        Some((JsonToken::Colon, p + 1))
    } else if c == 44 {
        Some((JsonToken::Comma, p + 1))
    } else if c == 10 {
        Some((JsonToken::Newline, p + 1))
    } else if c == 110 {
        let word: [u8; 4] = [110, 117, 108, 108];
        assert(word@ =~= seq![110u8, 117, 108, 108]);
        if word_matches(bytes, p, &word) {
            Some((JsonToken::Null, p + 4))
        } else {
            None
        }
    } else if c == 116 {
        let word: [u8; 4] = [116, 114, 117, 101];
        assert(word@ =~= seq![116u8, 114, 117, 101]);
        if word_matches(bytes, p, &word) {
            Some((JsonToken::True, p + 4))
        } else {
            None
        }
    } else if c == 102 {
        let word: [u8; 5] = [102, 97, 108, 115, 101];
        assert(word@ =~= seq![102u8, 97, 108, 115, 101]);
        if word_matches(bytes, p, &word) {
            Some((JsonToken::False, p + 5))
        } else {
            None
        }
    } else if c == 34 {
        proof {
            lemma_string_end_bounds(bytes@, p + 1);
        }
        match scan_string(bytes, p + 1) {
            Some(e) => Some((JsonToken::String, e)),
            None => None,
        }
    } else if c == 45 || (48 <= c && c <= 57) {
        match scan_number(bytes, p) {
            Some(e) => Some((JsonToken::Number, e)),
            None => None,
        }
    } else {
        None
    }
}

/// The next token at or after `p`, once blanks are skipped: its kind, start
/// and end. `None` where the input ends or no token can start.
pub fn next_token(bytes: &[u8], p: usize) -> (r: Option<(JsonToken, usize, usize)>)
    requires
        p <= bytes@.len(),
    ensures
        r == match spec_next_token(bytes@, p as int) {
            Some((t, s, e)) => Some((t, s as usize, e as usize)),
            None => None,
        },
        r matches Some((_, s, e)) ==> p <= s < e <= bytes@.len(),
{
    let mut s = p;
    while s < bytes.len() && (bytes[s] == 32 || bytes[s] == 9 || bytes[s] == 13)
        invariant
            p <= s <= bytes@.len(),
            skip_blanks(bytes@, s as int) == skip_blanks(bytes@, p as int),
        decreases bytes@.len() - s,
    {
        s = s + 1;
    }
    match token_at_position(bytes, s) {
        Some((t, e)) => Some((t, s, e)),
        None => None,
    }
}

} // verus!
