//! Pieces of line printing that decide how labels of rows are delimited.

use vstd::prelude::*;

verus! {

/// `[_$a-zA-Z]`
pub open spec fn is_js_identifier_start(b: u8) -> bool {
    b == 95 || b == 36 || (97 <= b <= 122) || (65 <= b <= 90)
}

/// `[_$a-zA-Z0-9]`
pub open spec fn is_js_identifier_char(b: u8) -> bool {
    is_js_identifier_start(b) || (48 <= b <= 57)
}

/// The whole text matches `^[_$a-zA-Z][_$a-zA-Z0-9]*$`.
pub open spec fn spec_is_js_identifier(s: Seq<u8>) -> bool {
    &&& s.len() > 0
    &&& is_js_identifier_start(s[0])
    &&& forall|i: int| 1 <= i < s.len() ==> is_js_identifier_char(#[trigger] s[i])
}

/// Whether the UTF-8 text `s` is a JavaScript identifier that can be written
/// without quotes.
pub fn is_js_identifier(s: &[u8]) -> (b: bool)
    ensures
        b == spec_is_js_identifier(s@),
{
    if s.len() == 0 {
        return false;
    }
    let c = s[0];
    if !(c == 95 || c == 36 || (97 <= c && c <= 122) || (65 <= c && c <= 90)) {
        return false;
    }
    let mut i: usize = 1;
    while i < s.len()
        invariant
            1 <= i <= s@.len(),
            forall|k: int| 1 <= k < i ==> is_js_identifier_char(#[trigger] s@[k]),
        decreases s@.len() - i,
    {
        let c = s[i];
        if !(c == 95 || c == 36 || (97 <= c && c <= 122) || (65 <= c && c <= 90) || (
        48 <= c && c <= 57)) {
            return false;
        }
        i = i + 1;
    }
    true
}


/// The line number to show for a line: its number, its distance from the
/// focused line, and the columns line numbers take.
#[derive(Copy, Clone)]
pub struct LineNumber {
    pub absolute: Option<usize>,
    pub relative: Option<usize>,
    pub max_width: isize,
}

/// The characters a label is put between: none, quotes (for a key that is
/// not an identifier) or square brackets (for an array index).
#[derive(Debug, Copy, Clone, PartialEq, Eq, Structural)]
pub enum DelimiterPair {
    NoDelimiter,
    Quote,
    Square,
}

impl DelimiterPair {
    /// The opening character, if any.
    pub fn left(&self) -> (s: &'static str)
        ensures
            s@ == match *self {
                DelimiterPair::NoDelimiter => ""@,
                DelimiterPair::Quote => "\""@,
                DelimiterPair::Square => "["@,
            },
    {
        match self {
            DelimiterPair::NoDelimiter => "",
            DelimiterPair::Quote => "\"",
            DelimiterPair::Square => "[",
        }
    }

    /// The closing character, if any.
    pub fn right(&self) -> (s: &'static str)
        ensures
            s@ == match *self {
                DelimiterPair::NoDelimiter => ""@,
                DelimiterPair::Quote => "\""@,
                DelimiterPair::Square => "]"@,
            },
    {
        match self {
            DelimiterPair::NoDelimiter => "",
            DelimiterPair::Quote => "\"",
            DelimiterPair::Square => "]",
        }
    }

    /// The columns the two characters take.
    pub fn width(&self) -> (w: isize)
        ensures
            w == if *self == DelimiterPair::NoDelimiter { 0isize } else { 2isize },
    {
        match self {
            DelimiterPair::NoDelimiter => 0,
            _ => 2,
        }
    }
}

} // verus!
