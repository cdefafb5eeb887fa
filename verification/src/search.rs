//! Searching the pretty printed document with regular expressions: turning
//! what the user typed into a regex, and moving between matches.

use vstd::prelude::*;
use vstd::utf8::*;
use vstd::string::*;
use vstd::std_specs::iter::IteratorSpec;
use std::ops::Range;
use crate::text::{utf8, push_ascii, push_str, substring, lemma_ascii_boundaries};

verus! {

#[derive(PartialEq, Eq, Debug, Copy, Clone, Structural)]
pub enum SearchDirection {
    Forward,
    Reverse,
}

impl SearchDirection {
    /// The prompt that starts a search in this direction.
    pub fn prompt_str(&self) -> (s: &'static str)
        ensures
            s@ == (if *self == SearchDirection::Forward {
                "/"@
            } else {
                "?"@
            }),
    {
        match self {
            SearchDirection::Forward => "/",
            SearchDirection::Reverse => "?",
        }
    }

    /// One step through the matches in this direction.
    fn signed_jump_size(&self) -> (n: isize)
        ensures
            n == (if *self == SearchDirection::Forward {
                1int
            } else {
                -1int
            }),
    {
        match self {
            SearchDirection::Forward => 1,
            SearchDirection::Reverse => -1,
        }
    }
}

#[derive(PartialEq, Eq, Debug, Copy, Clone, Structural)]
pub enum JumpDirection {
    Next,
    Prev,
}

#[derive(Clone, Copy, Debug)]
pub struct LastJump {
    pub match_jumped_to: usize,
    /// Needed to show 'W' next to the current match number.
    pub just_wrapped: bool,
}

/// Which paired delimiters stand for themselves in a search, and need a
/// backslash to have their regex meaning.
#[derive(Debug, Copy, Clone)]
pub struct InvertedPairedDelimeters {
    pub square_brackets: bool,
    pub curly_braces: bool,
    pub parentheses: bool,
}

impl Default for InvertedPairedDelimeters {
    fn default() -> (d: Self)
        ensures
            !d.square_brackets && !d.curly_braces && !d.parentheses,
    {
        InvertedPairedDelimeters { square_brackets: false, curly_braces: false, parentheses: false }
    }
}

/// One of `[]{}()`.
pub open spec fn is_paired_delimiter(c: u8) -> bool {
    c == 91 || c == 93 || c == 123 || c == 125 || c == 40 || c == 41
}

/// The delimiter `c` is inverted.
pub open spec fn is_inverted(c: u8, inverted: InvertedPairedDelimeters) -> bool {
    if c == 91 || c == 93 {
        inverted.square_brackets
    } else if c == 123 || c == 125 {
        inverted.curly_braces
    } else {
        inverted.parentheses
    }
}

/// What the term at `i` becomes, and how many bytes it spans: an escaped
/// backslash stays; an escaped or bare paired delimiter loses or gains its
/// backslash when it is inverted; any other byte stays.
pub open spec fn invert_term(bs: Seq<u8>, i: int, inverted: InvertedPairedDelimeters) -> (
    Seq<u8>,
    int,
) {
    let c = bs[i];
    if c == 92 && i + 1 < bs.len() && bs[i + 1] == 92 {
        (seq![92u8, 92], 2)
    } else if c == 92 && i + 1 < bs.len() && is_paired_delimiter(bs[i + 1]) {
        if is_inverted(bs[i + 1], inverted) {
            (seq![bs[i + 1]], 2)
        } else {
            (seq![92u8, bs[i + 1]], 2)
        }
    } else if is_paired_delimiter(c) {
        if is_inverted(c, inverted) {
            (seq![92u8, c], 1)
        } else {
            (seq![c], 1)
        }
    } else {
        (seq![c], 1)
    }
}

/// `bs` from `i` on with its paired delimiters inverted.
pub open spec fn invert_from(bs: Seq<u8>, i: int, inverted: InvertedPairedDelimeters) -> Seq<u8>
    decreases bs.len() - i,
{
    if i < 0 || i >= bs.len() {
        Seq::empty()
    } else {
        let (piece, n) = invert_term(bs, i, inverted);
        piece + invert_from(bs, i + n, inverted)
    }
}

/// The term at `i` is one byte that stays as it is.
pub open spec fn is_plain_term(bs: Seq<u8>, i: int) -> bool {
    bs[i] != 92 && !is_paired_delimiter(bs[i]) || (bs[i] == 92 && !(i + 1 < bs.len() && (bs[i + 1]
        == 92 || is_paired_delimiter(bs[i + 1]))))
}

proof fn lemma_invert_plain_run(bs: Seq<u8>, a: int, b: int, inverted: InvertedPairedDelimeters)
    requires
        0 <= a <= b <= bs.len(),
        forall|k: int| a <= k < b ==> #[trigger] is_plain_term(bs, k),
    ensures
        invert_from(bs, a, inverted) == bs.subrange(a, b) + invert_from(bs, b, inverted),
    decreases b - a,
{
    if a < b {
        lemma_invert_plain_run(bs, a + 1, b, inverted);
        assert(is_plain_term(bs, a));
        assert(bs.subrange(a, b) =~= seq![bs[a]] + bs.subrange(a + 1, b));
    } else {
        assert(bs.subrange(a, b) =~= Seq::<u8>::empty());
    }
}

/// Appends what the term at `i`, an escaped backslash or a paired delimiter,
/// escaped or bare, becomes; returns how many bytes it spans.
fn push_inverted_term(out: &mut String, bytes: &[u8], i: usize, inverted: InvertedPairedDelimeters) -> (width:
    usize)
    requires
        i < bytes@.len(),
        !is_plain_term(bytes@, i as int),
    ensures
        (width as int) == invert_term(bytes@, i as int, inverted).1,
        utf8(final(out)@) == utf8(old(out)@) + invert_term(bytes@, i as int, inverted).0,
        i + width <= bytes@.len(),
        bytes@[i + width - 1] < 128,
{
    let c = bytes[i];
    let escaped_special = c == 92 && i + 1 < bytes.len() && (bytes[i + 1] == 92 || bytes[i + 1]
        == 91 || bytes[i + 1] == 93 || bytes[i + 1] == 123 || bytes[i + 1] == 125 || bytes[i + 1]
        == 40 || bytes[i + 1] == 41);
    if escaped_special {
        let d = bytes[i + 1];
        if d == 92 {
            push_ascii(out, 92);
            push_ascii(out, 92);
        } else {
            let inv = if d == 91 || d == 93 {
                inverted.square_brackets
            } else if d == 123 || d == 125 {
                inverted.curly_braces
            } else {
                inverted.parentheses
            };
            if !inv {
                push_ascii(out, 92);
            }
            push_ascii(out, d);
        }
        assert(utf8(out@) =~= utf8(old(out)@) + invert_term(bytes@, i as int, inverted).0);
        2
    } else {
        let inv = if c == 91 || c == 93 {
            inverted.square_brackets
        } else if c == 123 || c == 125 {
            inverted.curly_braces
        } else {
            inverted.parentheses
        };
        if inv {
            push_ascii(out, 92);
        }
        push_ascii(out, c);
        assert(utf8(out@) =~= utf8(old(out)@) + invert_term(bytes@, i as int, inverted).0);
        1
    }
}

/// Gives paired delimiters their usual regex meaning or takes it away, as
/// `inverted` says: an inverted delimiter matches itself when bare and has its
/// regex meaning when escaped, and escaped backslashes stay as they are.
pub fn invert_paired_delimiters(regex: &str, inverted: InvertedPairedDelimeters) -> (r: String)
    ensures
        utf8(r@) == invert_from(utf8(regex@), 0, inverted),
{
    let bytes = regex.as_bytes();
    let ghost bs = bytes@;
    let mut out = String::new();
    let mut run_start: usize = 0;
    let mut i: usize = 0;
    proof {
        encode_utf8_valid_utf8(regex@);
        assert(utf8(out@) =~= Seq::<u8>::empty());
    }
    while i < bytes.len()
        invariant
            bs == bytes@,
            bs == utf8(regex@),
            valid_utf8(bs),
            run_start <= i <= bs.len(),
            run_start == 0 || bs[run_start - 1] < 128,
            forall|k: int| run_start <= k < i ==> #[trigger] is_plain_term(bs, k),
            invert_from(bs, 0, inverted) == utf8(out@) + invert_from(bs, run_start as int, inverted),
        decreases bs.len() - i,
    {
        let c = bytes[i];
        let escaped_special = c == 92 && i + 1 < bytes.len() && (bytes[i + 1] == 92 || bytes[i + 1]
            == 91 || bytes[i + 1] == 93 || bytes[i + 1] == 123 || bytes[i + 1] == 125 || bytes[i
            + 1] == 40 || bytes[i + 1] == 41);
        let bare_delimiter = c == 91 || c == 93 || c == 123 || c == 125 || c == 40 || c == 41;
        if !escaped_special && !bare_delimiter {
            i = i + 1;
        } else {
            proof {
                lemma_invert_plain_run(bs, run_start as int, i as int, inverted);
                lemma_ascii_boundaries(bs, i as int);
                if run_start > 0 {
                    lemma_ascii_boundaries(bs, run_start - 1);
                } else {
                    is_char_boundary_start_end_of_seq(bs);
                }
            }
            let run = substring(regex, run_start, i);
            push_str(&mut out, run);
            let ghost after_run = utf8(out@);
            let width = push_inverted_term(&mut out, bytes, i, inverted);
            proof {
                let (piece, n) = invert_term(bs, i as int, inverted);
                assert(invert_from(bs, i as int, inverted) == piece + invert_from(bs, i + n, inverted));
                assert(utf8(out@) + invert_from(bs, i + width, inverted) =~= after_run + invert_from(
                    bs,
                    i as int,
                    inverted,
                ));
            }
            i = i + width;
            run_start = i;
        }
    }
    proof {
        lemma_invert_plain_run(bs, run_start as int, i as int, inverted);
        is_char_boundary_start_end_of_seq(bs);
        if run_start > 0 {
            lemma_ascii_boundaries(bs, run_start - 1);
        }
    }
    let run = substring(regex, run_start, i);
    push_str(&mut out, run);
    proof {
        assert(invert_from(bs, i as int, inverted) =~= Seq::<u8>::empty());
        assert(utf8(out@) =~= invert_from(bs, 0, inverted));
    }
    out
}

/// A character with a meaning of its own in a regex.
pub open spec fn is_meta_character(c: char) -> bool {
    c == '\\' || c == '.' || c == '+' || c == '*' || c == '?' || c == '(' || c == ')' || c == '|'
        || c == '[' || c == ']' || c == '{' || c == '}' || c == '^' || c == '$' || c == '#' || c
        == '&' || c == '-' || c == '~'
}

/// `cs` with a backslash before every meta character.
pub open spec fn regex_escaped(cs: Seq<char>) -> Seq<char>
    decreases cs.len(),
{
    if cs.len() == 0 {
        Seq::empty()
    } else {
        let c = cs.last();
        regex_escaped(cs.drop_last()) + if is_meta_character(c) {
            seq!['\\', c]
        } else {
            seq![c]
        }
    }
}

/// `regex::escape`: the text with a backslash put before each of its meta
/// characters (those of `is_meta_character`), so that it matches itself
/// literally.
#[verifier::external_body]
fn regex_escape(text: &str) -> (r: String)
    ensures
        r@ == regex_escaped(text@),
{
    regex::escape(text)
}

/// Whether the regex class `\w`, which the regex crate takes from the
/// Unicode word character tables, holds character `c`.
pub uninterp spec fn is_word_character(c: char) -> bool;

/// `regex::Regex::is_match` with the pattern `\A\w\z`, on the text of the
/// one character `c`: whether `\w` holds it.
#[verifier::external_body]
fn regex_is_word_character(c: char) -> (b: bool)
    ensures
        b == is_word_character(c),
{
    let mut buf = [0u8; 4];
    regex::Regex::new(r"\A\w\z").unwrap().is_match(c.encode_utf8(&mut buf))
}

/// `cs` holds one of the letters `A` to `Z`.
pub open spec fn has_ascii_upper(cs: Seq<char>) -> bool {
    exists|i: int| 0 <= i < cs.len() && 'A' <= #[trigger] cs[i] && cs[i] <= 'Z'
}

/// `regex::Regex::is_match` with the pattern `[[:upper:]]`, the ASCII class of
/// the letters `A` to `Z`: whether `s` holds one of them.
#[verifier::external_body]
fn regex_has_upper(s: &str) -> (b: bool)
    ensures
        b == has_ascii_upper(s@),
{
    regex::Regex::new("[[:upper:]]").unwrap().is_match(s)
}

/// Escapes the meta characters of `text`, then inverts its paired delimiters,
/// so that what the user typed is searched for literally.
pub fn escape_literal(text: &str, inverted: InvertedPairedDelimeters) -> (r: String)
    ensures
        utf8(r@) == invert_from(utf8(regex_escaped(text@)), 0, inverted),
{
    let escaped = regex_escape(text);
    invert_paired_delimiters(escaped.as_str(), inverted)
}

/// What `escape_literal` makes of `text`, as characters.
pub open spec fn spec_escaped_literal(text: Seq<char>, inverted: InvertedPairedDelimeters) -> Seq<
    char,
> {
    decode_utf8(invert_from(utf8(regex_escaped(text)), 0, inverted))
}

/// Creates a regex that will match the literal text passed in as a "word",
/// adding the word boundaries `\<` and `\>` unless the text starts or ends
/// with a non-word character.
pub fn escape_literal_and_maybe_add_word_boundaries(
    text: &str,
    inverted: InvertedPairedDelimeters,
) -> (r: String)
    ensures
        ({
            let e = spec_escaped_literal(text@, inverted);
            r@ == (if e.len() > 0 && is_word_character(e[0]) {
                "\\<"@
            } else {
                Seq::empty()
            }) + e + (if e.len() > 0 && is_word_character(e.last()) {
                "\\>"@
            } else {
                Seq::empty()
            })
        }),
{
    let escaped = escape_literal(text, inverted);
    let e = escaped.as_str();
    proof {
        encode_utf8_decode_utf8(e@);
    }
    let n = e.unicode_len();
    let add_start_boundary = n > 0 && regex_is_word_character(e.get_char(0));
    let add_end_boundary = n > 0 && regex_is_word_character(e.get_char(n - 1));
    let mut out = String::new();
    if add_start_boundary {
        push_str(&mut out, "\\<");
    }
    push_str(&mut out, e);
    if add_end_boundary {
        push_str(&mut out, "\\>");
    }
    proof {
        let ee = spec_escaped_literal(text@, inverted);
        assert(e@ == ee);
        assert(out@ =~= (if ee.len() > 0 && is_word_character(ee[0]) {
            "\\<"@
        } else {
            Seq::empty()
        }) + ee + (if ee.len() > 0 && is_word_character(ee.last()) {
            "\\>"@
        } else {
            Seq::empty()
        }));
    }
    out
}

/// The search term without a trailing `/` or `/s`, and whether `/s` asked for
/// a case-sensitive search.
pub open spec fn spec_regex_input(bs: Seq<u8>) -> (Seq<u8>, bool) {
    let n = bs.len() as int;
    if n >= 1 && bs[n - 1] == 47 {
        (bs.subrange(0, n - 1), false)
    } else if n >= 2 && bs[n - 2] == 47 && bs[n - 1] == 115 {
        (bs.subrange(0, n - 2), true)
    } else {
        (bs, false)
    }
}

/// Searches are "smart case": case-sensitive if the input holds an uppercase
/// letter, and case-insensitive otherwise. `/s` at the end forces a
/// case-sensitive search; `/` alone at the end is ignored, as in vim.
pub fn extract_regex_input_and_case_sensitivity(search_input: &str) -> (r: (&str, bool))
    ensures
        utf8(r.0@) == spec_regex_input(utf8(search_input@)).0,
        r.1 == (spec_regex_input(utf8(search_input@)).1 || has_ascii_upper(r.0@)),
{
    let bytes = search_input.as_bytes();
    let n = bytes.len();
    proof {
        encode_utf8_valid_utf8(search_input@);
        is_char_boundary_start_end_of_seq(bytes@);
    }
    let (regex_input, case_sensitive_specified) = if n >= 1 && bytes[n - 1] == 47 {
        proof {
            lemma_ascii_boundaries(bytes@, n - 1);
        }
        (substring(search_input, 0, n - 1), false)
    } else if n >= 2 && bytes[n - 2] == 47 && bytes[n - 1] == 115 {
        proof {
            lemma_ascii_boundaries(bytes@, n - 2);
        }
        (substring(search_input, 0, n - 2), true)
    } else {
        (search_input, false)
    };
    let case_sensitive = if case_sensitive_specified {
        true
    } else {
        regex_has_upper(regex_input)
    };
    (regex_input, case_sensitive)
}

/// Where moving `delta` matches from match `start` lands among `num`
/// matches, going round at either end.
pub open spec fn spec_cycle_index(start: int, delta: int, num: int) -> int {
    (start + delta) % num
}

/// Whether moving `delta` matches from `start` to `new` went round an end.
pub open spec fn spec_cycle_wrapped(start: int, delta: int, num: int, new: int) -> bool {
    if delta == 0 {
        false
    } else if delta > 0 {
        num <= delta || new < start
    } else {
        num <= -delta || start < new
    }
}

proof fn lemma_negative_mod(s: int, m: int)
    requires
        s < 0,
        m > 0,
    ensures
        s % m == (if (-s) % m == 0 {
            0
        } else {
            m - (-s) % m
        }),
{
    let t = (-s) % m;
    let q = (-s) / m;
    assert(-s == q * m + t && 0 <= t < m) by (nonlinear_arith)
        requires
            m > 0,
            t == (-s) % m,
            q == (-s) / m,
    ;
    if t == 0 {
        assert(s == (-q) * m) by (nonlinear_arith)
            requires
                -s == q * m,
        ;
        vstd::arithmetic::div_mod::lemma_fundamental_div_mod_converse(s, m, -q, 0);
    } else {
        assert(s == (-q - 1) * m + (m - t)) by (nonlinear_arith)
            requires
                -s == q * m + t,
        ;
        vstd::arithmetic::div_mod::lemma_fundamental_div_mod_converse(s, m, -q - 1, m - t);
    }
}

/// What building a byte regex from `pattern` gives: nothing when it
/// compiles, the compiler's message when it does not.
pub uninterp spec fn regex_build_result(pattern: Seq<char>, case_insensitive: bool) -> Result<
    (),
    Seq<char>,
>;

/// `regex::bytes::RegexBuilder::build` on `pattern`, case-insensitive as
/// asked: the message of the error when the pattern does not compile.
#[verifier::external_body]
fn regex_build(pattern: &str, case_insensitive: bool) -> (r: Result<(), String>)
    ensures
        match regex_build_result(pattern@, case_insensitive) {
            Ok(()) => r is Ok,
            Err(m) => r matches Err(e) && e@ == m,
        },
{
    match regex::bytes::RegexBuilder::new(pattern).case_insensitive(case_insensitive).build() {
        Ok(_) => Ok(()),
        Err(err) => Err(err.to_string()),
    }
}

/// The matches, as start and end offsets, that the compiled `pattern` finds
/// in `haystack` from its start.
pub uninterp spec fn regex_find_all(pattern: Seq<char>, case_insensitive: bool, haystack: Seq<u8>) -> Seq<
    (usize, usize),
>;

/// `regex::bytes::Regex::find_iter` of the compiled `pattern` over the whole
/// haystack: every match, as a range of offsets within it, each one ending
/// by the start of the next (the iterator gives successive non-overlapping
/// matches).
#[verifier::external_body]
fn regex_find_iter(pattern: &str, case_insensitive: bool, haystack: &[u8]) -> (v: Vec<Range<usize>>)
    requires
        regex_build_result(pattern@, case_insensitive) is Ok,
    ensures
        v@.len() == regex_find_all(pattern@, case_insensitive, haystack@).len(),
        forall|i: int|
            0 <= i < v@.len() ==> (#[trigger] v@[i]).start == regex_find_all(
                pattern@,
                case_insensitive,
                haystack@,
            )[i].0 && v@[i].end == regex_find_all(pattern@, case_insensitive, haystack@)[i].1,
        forall|i: int| 0 <= i < v@.len() ==> (#[trigger] v@[i]).start <= v@[i].end <= haystack@.len(),
        forall|i: int| 0 <= i < v@.len() - 1 ==> (#[trigger] v@[i]).end <= v@[i + 1].start,
{
    let re = regex::bytes::RegexBuilder::new(pattern).case_insensitive(case_insensitive).build().unwrap();
    re.find_iter(haystack).map(|m| m.range()).collect()
}

/// The first match, as start and end offsets, that the compiled `pattern`
/// finds in `haystack` when it starts searching at `start`.
pub uninterp spec fn regex_find_from(
    pattern: Seq<char>,
    case_insensitive: bool,
    haystack: Seq<u8>,
    start: usize,
) -> Option<(usize, usize)>;

/// `regex::bytes::Regex::find_at` of the compiled `pattern`: the first match
/// at or after `start`, with what comes before `start` as context.
#[verifier::external_body]
fn regex_find_at(pattern: &str, case_insensitive: bool, haystack: &[u8], start: usize) -> (r: Option<
    Range<usize>,
>)
    requires
        regex_build_result(pattern@, case_insensitive) is Ok,
        start <= haystack@.len(),
    ensures
        match regex_find_from(pattern@, case_insensitive, haystack@, start) {
            Some((s, e)) => r matches Some(m) && m.start == s && m.end == e,
            None => r is None,
        },
        r matches Some(m) ==> start <= m.start <= m.end <= haystack@.len(),
{
    let re = regex::bytes::RegexBuilder::new(pattern).case_insensitive(case_insensitive).build().unwrap();
    re.find_at(haystack, start).map(|m| m.range())
}

/// `s` with every line feed replaced by a space.
pub open spec fn newlines_to_spaces(s: Seq<char>) -> Seq<char> {
    s.map_values(|c: char| if c == '\n' { ' ' } else { c })
}

fn replace_newlines(s: &str) -> (r: String)
    ensures
        r@ == newlines_to_spaces(s@),
{
    let mut out = String::new();
    let mut chars = s.chars();
    let ghost cs = s@;
    let ghost mut i: int = 0;
    proof {
        assert(chars.remaining() == cs);
        assert(cs.subrange(0, cs.len() as int) =~= cs);
    }
    loop
        invariant
            0 <= i <= cs.len(),
            chars.remaining() == cs.subrange(i, cs.len() as int),
            out@ == newlines_to_spaces(cs.subrange(0, i)),
            cs == s@,
        decreases cs.len() - i,
    {
        match crate::jsonstringunescaper::next_char(&mut chars) {
            None => {
                assert(cs.subrange(0, i) =~= cs);
                return out;
            },
            Some(c) => {
                crate::text::push_char(&mut out, if c == '\n' { ' ' } else { c });
                proof {
                    assert(cs.subrange(0, i + 1) =~= cs.subrange(0, i).push(c));
                    assert(out@ =~= newlines_to_spaces(cs.subrange(0, i + 1)));
                    i = i + 1;
                    assert(chars.remaining() =~= cs.subrange(i, cs.len() as int));
                }
            },
        }
    }
}

/// The first of `ranges` from index `i` on that starts at or after `x`.
pub open spec fn first_starting_at_or_after(ranges: Seq<Range<usize>>, x: usize, i: int) -> Option<int>
    decreases ranges.len() - i,
{
    if i < 0 || i >= ranges.len() {
        None
    } else if ranges[i].start >= x {
        Some(i)
    } else {
        first_starting_at_or_after(ranges, x, i + 1)
    }
}

/// The last of `ranges` before index `i` that ends at or before `x`.
pub open spec fn last_ending_at_or_before(ranges: Seq<Range<usize>>, x: usize, i: int) -> Option<int>
    decreases i,
{
    if i <= 0 || i > ranges.len() {
        None
    } else if ranges[i - 1].end <= x {
        Some(i - 1)
    } else {
        last_ending_at_or_before(ranges, x, i - 1)
    }
}

/// The first of `ranges` from index `i` on that ends after `x`.
pub open spec fn first_ending_after(ranges: Seq<Range<usize>>, x: usize, i: int) -> Option<int>
    decreases ranges.len() - i,
{
    if i < 0 || i >= ranges.len() {
        None
    } else if ranges[i].end > x {
        Some(i)
    } else {
        first_ending_after(ranges, x, i + 1)
    }
}

/// The index of the first of `ranges` that ends after `x`.
fn index_of_first_elem_ending_after(ranges: &[Range<usize>], x: usize) -> (r: Option<usize>)
    ensures
        match first_ending_after(ranges@, x, 0) {
            Some(i) => r matches Some(j) && j == i && 0 <= i < ranges@.len(),
            None => r is None,
        },
{
    let mut i: usize = 0;
    while i < ranges.len()
        invariant
            i <= ranges@.len(),
            first_ending_after(ranges@, x, 0) == first_ending_after(ranges@, x, i as int),
        decreases ranges@.len() - i,
    {
        if ranges[i].end > x {
            return Some(i);
        }
        i = i + 1;
    }
    None
}

/// The index of the first of `ranges` that starts at or after `x`.
fn index_of_first_elem_starting_at_or_after(ranges: &[Range<usize>], x: usize) -> (r: Option<usize>)
    ensures
        match first_starting_at_or_after(ranges@, x, 0) {
            Some(i) => r matches Some(j) && j == i && 0 <= i < ranges@.len(),
            None => r is None,
        },
{
    let mut i: usize = 0;
    while i < ranges.len()
        invariant
            i <= ranges@.len(),
            first_starting_at_or_after(ranges@, x, 0) == first_starting_at_or_after(ranges@, x, i as int),
        decreases ranges@.len() - i,
    {
        if ranges[i].start >= x {
            return Some(i);
        }
        i = i + 1;
    }
    None
}

/// The index of the last of `ranges` that ends at or before `x`.
fn index_of_last_elem_ending_at_or_before(ranges: &[Range<usize>], x: usize) -> (r: Option<usize>)
    ensures
        match last_ending_at_or_before(ranges@, x, ranges@.len() as int) {
            Some(i) => r matches Some(j) && j == i && 0 <= i < ranges@.len(),
            None => r is None,
        },
{
    let mut i: usize = ranges.len();
    while i > 0
        invariant
            i <= ranges@.len(),
            last_ending_at_or_before(ranges@, x, ranges@.len() as int) == last_ending_at_or_before(ranges@, x, i as int),
        decreases i,
    {
        if ranges[i - 1].end <= x {
            return Some(i - 1);
        }
        i = i - 1;
    }
    None
}

/// The matches, as start and end offsets, are in order and do not overlap.
pub open spec fn pairs_sorted(ms: Seq<(usize, usize)>) -> bool {
    &&& forall|i: int| 0 <= i < ms.len() ==> (#[trigger] ms[i]).0 <= ms[i].1
    &&& forall|i: int, j: int| 0 <= i < j < ms.len() ==> (#[trigger] ms[i]).1 <= (#[trigger] ms[j]).0
}

/// Ranges each ending by the start of the next are in order and do not
/// overlap.
proof fn lemma_adjacent_sorted(v: Seq<Range<usize>>)
    requires
        forall|i: int| 0 <= i < v.len() ==> (#[trigger] v[i]).start <= v[i].end,
        forall|i: int| 0 <= i < v.len() - 1 ==> (#[trigger] v[i]).end <= v[i + 1].start,
    ensures
        pairs_sorted(v.map_values(|r: Range<usize>| range_pair(r))),
{
    let ms = v.map_values(|r: Range<usize>| range_pair(r));
    assert forall|i: int, j: int| 0 <= i < j < ms.len() implies (#[trigger] ms[i]).1 <= (#[trigger] ms[j]).0 by {
        lemma_adjacent_chain(v, i, j);
    }
}

/// From range `i` to a later range `j`, each ends by the start of the next.
proof fn lemma_adjacent_chain(v: Seq<Range<usize>>, i: int, j: int)
    requires
        forall|k: int| 0 <= k < v.len() ==> (#[trigger] v[k]).start <= v[k].end,
        forall|k: int| 0 <= k < v.len() - 1 ==> (#[trigger] v[k]).end <= v[k + 1].start,
        0 <= i < j < v.len(),
    ensures
        v[i].end <= v[j].start,
    decreases j - i,
{
    if i + 1 < j {
        lemma_adjacent_chain(v, i + 1, j);
        assert(v[i + 1].start <= v[i + 1].end);
    }
}

/// The matches of a search, and where the user last jumped among them.
#[derive(Debug)]
pub struct SearchState {
    search_input: String,
    regex_pattern: String,
    case_insensitive: bool,
    matches: Vec<Range<usize>>,
    len_of_searched_input: usize,
    direction: SearchDirection,
    last_jump: Option<LastJump>,
    should_show_matches: bool,
}

/// The direction in which a jump moves through the document.
pub open spec fn spec_direction_of_jump(direction: SearchDirection, jump: JumpDirection) -> SearchDirection {
    if (direction == SearchDirection::Forward) == (jump == JumpDirection::Next) {
        SearchDirection::Forward
    } else {
        SearchDirection::Reverse
    }
}

/// The matches found from `start` on by searching again after each match;
/// an empty match at `start` ends the search, as it would be found again.
pub open spec fn matches_from(pattern: Seq<char>, ci: bool, haystack: Seq<u8>, start: int) -> Seq<(usize, usize)>
    decreases haystack.len() - start,
{
    if !(0 <= start <= haystack.len()) {
        Seq::empty()
    } else {
        match regex_find_from(pattern, ci, haystack, start as usize) {
            None => Seq::empty(),
            Some((s, e)) => if e <= start || e > haystack.len() {
                seq![(s, e)]
            } else {
                seq![(s, e)] + matches_from(pattern, ci, haystack, e as int)
            },
        }
    }
}

/// The last jump after the matches were searched again from the start of the
/// last match: forgotten when it went to that match and the match changed.
pub open spec fn kept_last_jump(
    last_jump: Option<LastJump>,
    old_matches: Seq<(usize, usize)>,
    new_matches: Seq<(usize, usize)>,
) -> Option<LastJump> {
    match last_jump {
        Some(lj) => if lj.match_jumped_to == old_matches.len() - 1 && (new_matches.len()
            < old_matches.len() || new_matches[old_matches.len() - 1] != old_matches.last()) {
            None
        } else {
            Some(lj)
        },
        None => None,
    }
}

/// A range as a pair of offsets.
pub open spec fn range_pair(r: Range<usize>) -> (usize, usize) {
    (r.start, r.end)
}

impl SearchState {
    pub closed spec fn spec_search_input(&self) -> Seq<char> {
        self.search_input@
    }

    pub closed spec fn spec_pattern(&self) -> Seq<char> {
        self.regex_pattern@
    }

    pub closed spec fn spec_case_insensitive(&self) -> bool {
        self.case_insensitive
    }

    /// The matches, as pairs of offsets.
    pub closed spec fn spec_matches(&self) -> Seq<(usize, usize)> {
        self.matches@.map_values(|r: Range<usize>| range_pair(r))
    }

    pub closed spec fn spec_searched_len(&self) -> usize {
        self.len_of_searched_input
    }

    pub closed spec fn spec_direction(&self) -> SearchDirection {
        self.direction
    }

    pub closed spec fn spec_last_jump(&self) -> Option<LastJump> {
        self.last_jump
    }

    pub closed spec fn spec_should_show_matches(&self) -> bool {
        self.should_show_matches
    }

    /// The regex compiles, the matches lie within the input searched, and the
    /// last jump went to one of them.
    pub closed spec fn wf(&self) -> bool {
        &&& regex_build_result(self.regex_pattern@, self.case_insensitive) is Ok
        &&& forall|i: int|
            0 <= i < self.matches@.len() ==> (#[trigger] self.matches@[i]).start
                <= self.matches@[i].end <= self.len_of_searched_input
        &&& (self.last_jump matches Some(lj) ==> lj.match_jumped_to < self.matches@.len())
    }

    /// Starts a search for what the user typed in `haystack`.
    pub fn new(
        search_input: String,
        haystack: &[u8],
        direction: SearchDirection,
        inverted_paired_delimiters: InvertedPairedDelimeters,
    ) -> (r: Result<Self, String>)
        ensures
            ({
                let (input, specified) = spec_regex_input(utf8(search_input@));
                let pattern = decode_utf8(invert_from(input, 0, inverted_paired_delimiters));
                let ci = !(specified || has_ascii_upper(decode_utf8(input)));
                match r {
                    Ok(st) => {
                        &&& input.len() > 0
                        &&& regex_build_result(pattern, ci) is Ok
                        &&& st.wf()
                        &&& st.spec_search_input() == search_input@
                        &&& st.spec_pattern() == pattern
                        &&& st.spec_case_insensitive() == ci
                        &&& st.spec_matches() == regex_find_all(pattern, ci, haystack@)
                        &&& pairs_sorted(st.spec_matches())
                        &&& st.spec_searched_len() == haystack@.len()
                        &&& st.spec_direction() == direction
                        &&& st.spec_last_jump() is None
                        &&& !st.spec_should_show_matches()
                    },
                    Err(e) => if input.len() == 0 {
                        e@ == "Cannot search for empty string"@
                    } else {
                        regex_build_result(pattern, ci) matches Err(m) && e@ == newlines_to_spaces(m)
                    },
                }
            }),
    {
        let (regex_input, case_sensitive) = extract_regex_input_and_case_sensitivity(
            search_input.as_str(),
        );
        let inverted = invert_paired_delimiters(regex_input, inverted_paired_delimiters);
        proof {
            encode_utf8_decode_utf8(regex_input@);
            encode_utf8_decode_utf8(inverted@);
        }
        if regex_input.is_empty() {
            return Err(String::from_str("Cannot search for empty string"));
        }
        match regex_build(inverted.as_str(), !case_sensitive) {
            Ok(()) => {},
            Err(e) => {
                return Err(replace_newlines(e.as_str()));
            },
        }
        let matches = regex_find_iter(inverted.as_str(), !case_sensitive, haystack);
        let st = SearchState {
            search_input,
            regex_pattern: inverted,
            case_insensitive: !case_sensitive,
            matches,
            len_of_searched_input: haystack.len(),
            direction,
            last_jump: None,
            should_show_matches: false,
        };
        proof {
            assert(st.spec_matches() =~= regex_find_all(st.regex_pattern@, st.case_insensitive, haystack@));
            lemma_adjacent_sorted(st.matches@);
        }
        Ok(st)
    }

    /// Finds the matches in what was read of the input since the last
    /// search, which starts with what was searched before.
    #[verifier::rlimit(40)]
    pub fn find_additional_matches(&mut self, haystack: &[u8])
        requires
            old(self).wf(),
            haystack@.len() >= old(self).spec_searched_len(),
        ensures
            final(self).wf(),
            final(self).spec_searched_len() == haystack@.len(),
            final(self).spec_search_input() == old(self).spec_search_input(),
            final(self).spec_pattern() == old(self).spec_pattern(),
            final(self).spec_case_insensitive() == old(self).spec_case_insensitive(),
            final(self).spec_direction() == old(self).spec_direction(),
            final(self).spec_should_show_matches() == old(self).spec_should_show_matches(),
            haystack@.len() == old(self).spec_searched_len() ==> final(self).spec_matches()
                == old(self).spec_matches() && final(self).spec_last_jump() == old(self).spec_last_jump(),
            haystack@.len() != old(self).spec_searched_len() && old(self).spec_matches().len() == 0
                ==> final(self).spec_matches() == regex_find_all(
                old(self).spec_pattern(),
                old(self).spec_case_insensitive(),
                haystack@,
            ) && final(self).spec_last_jump() == old(self).spec_last_jump(),
            haystack@.len() != old(self).spec_searched_len() && old(self).spec_matches().len() > 0
                ==> final(self).spec_matches() == old(self).spec_matches().drop_last() + matches_from(
                old(self).spec_pattern(),
                old(self).spec_case_insensitive(),
                haystack@,
                old(self).spec_matches().last().0 as int,
            ),
            haystack@.len() != old(self).spec_searched_len() && old(self).spec_matches().len() > 0
                ==> final(self).spec_last_jump() == kept_last_jump(
                old(self).spec_last_jump(),
                old(self).spec_matches(),
                final(self).spec_matches(),
            ),
    {
        if haystack.len() == self.len_of_searched_input {
            return;
        }
        let ghost old_matches = self.matches@;
        match self.matches.pop() {
            None => {
                self.matches = regex_find_iter(self.regex_pattern.as_str(), self.case_insensitive, haystack);
                proof {
                    assert(self.spec_matches() =~= regex_find_all(self.regex_pattern@, self.case_insensitive, haystack@));
                }
            },
            Some(last_match_range) => {
                let prev_last_match_index = self.matches.len();
                let mut start_index = last_match_range.start;
                let ghost p = self.regex_pattern@;
                let ghost ci = self.case_insensitive;
                proof {
                    assert(old_matches[prev_last_match_index as int] == last_match_range);
                }
                loop
                    invariant_except_break
                        self.matches@.map_values(|r: Range<usize>| range_pair(r)) + matches_from(p, ci, haystack@, start_index as int)
                            == old_matches.drop_last().map_values(|r: Range<usize>| range_pair(r)) + matches_from(p, ci, haystack@, last_match_range.start as int),
                    invariant
                        self.search_input == old(self).search_input,
                        self.direction == old(self).direction,
                        self.should_show_matches == old(self).should_show_matches,
                        regex_build_result(p, ci) is Ok,
                        p == self.regex_pattern@,
                        ci == self.case_insensitive,
                        start_index <= haystack@.len(),
                        prev_last_match_index <= self.matches@.len(),
                        forall|i: int|
                            0 <= i < self.matches@.len() ==> (#[trigger] self.matches@[i]).start
                                <= self.matches@[i].end <= haystack@.len(),
                        self.last_jump == old(self).last_jump,
                        self.len_of_searched_input == old(self).len_of_searched_input,
                        old_matches.len() == prev_last_match_index + 1,
                        self.matches@.subrange(0, prev_last_match_index as int) == old_matches.drop_last(),
                    ensures
                        self.matches@.map_values(|r: Range<usize>| range_pair(r))
                            == old_matches.drop_last().map_values(|r: Range<usize>| range_pair(r)) + matches_from(p, ci, haystack@, last_match_range.start as int),
                    decreases haystack@.len() - start_index,
                {
                    match regex_find_at(self.regex_pattern.as_str(), self.case_insensitive, haystack, start_index) {
                        None => {
                            proof {
                                assert(matches_from(p, ci, haystack@, start_index as int) =~= Seq::<(usize, usize)>::empty());
                                assert(self.matches@.map_values(|r: Range<usize>| range_pair(r)) =~= self.matches@.map_values(|r: Range<usize>| range_pair(r)) + matches_from(p, ci, haystack@, start_index as int));
                            }
                            break;
                        },
                        Some(m) => {
                            let ghost before = self.matches@;
                            let end = m.end;
                            let m_start = m.start;
                            self.matches.push(m);
                            proof {
                                assert(self.matches@.map_values(|r: Range<usize>| range_pair(r)) =~= before.map_values(|r: Range<usize>| range_pair(r)).push((m_start, end)));
                                assert(self.matches@.subrange(0, prev_last_match_index as int) =~= before.subrange(0, prev_last_match_index as int));
                            }
                            if end <= start_index {
                                proof {
                                    assert(matches_from(p, ci, haystack@, start_index as int) == seq![(m_start, end)]);
                                    assert(self.matches@.map_values(|r: Range<usize>| range_pair(r)) =~= before.map_values(|r: Range<usize>| range_pair(r)) + matches_from(p, ci, haystack@, start_index as int));
                                }
                                break;
                            }
                            proof {
                                assert(matches_from(p, ci, haystack@, start_index as int) == seq![(m_start, end)] + matches_from(p, ci, haystack@, end as int));
                                assert(self.matches@.map_values(|r: Range<usize>| range_pair(r)) + matches_from(p, ci, haystack@, end as int)
                                    =~= before.map_values(|r: Range<usize>| range_pair(r)) + matches_from(p, ci, haystack@, start_index as int));
                            }
                            start_index = end;
                        },
                    }
                }
                if let Some(last_jump) = &self.last_jump {
                    if last_jump.match_jumped_to == prev_last_match_index {
                        if prev_last_match_index >= self.matches.len() {
                            self.last_jump = None;
                        } else {
                            let new_last = &self.matches[prev_last_match_index];
                            if last_match_range.start != new_last.start || last_match_range.end != new_last.end {
                                self.last_jump = None;
                            }
                        }
                    }
                }
            },
        }
        self.len_of_searched_input = haystack.len();
    }

    pub fn search_input(&self) -> (s: &str)
        ensures
            s@ == self.spec_search_input(),
    {
        self.search_input.as_str()
    }

    pub fn set_search_direction(&mut self, direction: SearchDirection)
        requires
            old(self).wf(),
        ensures
            final(self).wf(),
            final(self).spec_direction() == direction,
            final(self).spec_matches() == old(self).spec_matches(),
            final(self).spec_last_jump() == old(self).spec_last_jump(),
            final(self).spec_should_show_matches() == old(self).spec_should_show_matches(),
            final(self).spec_searched_len() == old(self).spec_searched_len(),
            final(self).spec_pattern() == old(self).spec_pattern(),
            final(self).spec_case_insensitive() == old(self).spec_case_insensitive(),
            final(self).spec_search_input() == old(self).spec_search_input(),
    {
        self.direction = direction;
    }

    pub fn search_direction(&self) -> (d: SearchDirection)
        ensures
            d == self.spec_direction(),
    {
        self.direction
    }

    /// How much of the input the matches were looked for in.
    pub fn searched_len(&self) -> (n: usize)
        ensures
            n == self.spec_searched_len(),
    {
        self.len_of_searched_input
    }

    pub fn num_matches(&self) -> (n: usize)
        ensures
            n == self.spec_matches().len(),
    {
        self.matches.len()
    }

    pub fn last_jump(&self) -> (r: Option<&LastJump>)
        ensures
            match self.spec_last_jump() {
                Some(lj) => r matches Some(x) && *x == lj,
                None => r is None,
            },
    {
        match &self.last_jump {
            Some(lj) => Some(lj),
            None => None,
        }
    }

    pub fn last_match_range(&self) -> (r: Option<Range<usize>>)
        requires
            self.wf(),
        ensures
            match self.spec_last_jump() {
                Some(lj) => r matches Some(m) && range_pair(m) == self.spec_matches()[lj.match_jumped_to as int],
                None => r is None,
            },
    {
        match &self.last_jump {
            Some(lj) => {
                let m = &self.matches[lj.match_jumped_to];
                Some(m.start..m.end)
            },
            None => None,
        }
    }

    pub fn search_match_ranges(&self) -> (r: &[Range<usize>])
        ensures
            r@.map_values(|m: Range<usize>| range_pair(m)) == self.spec_matches(),
    {
        self.matches.as_slice()
    }

    pub fn should_show_matches(&self) -> (b: bool)
        ensures
            b == self.spec_should_show_matches(),
    {
        self.should_show_matches
    }

    pub fn stop_searching(&mut self)
        requires
            old(self).wf(),
        ensures
            final(self).wf(),
            final(self).spec_last_jump() is None,
            !final(self).spec_should_show_matches(),
            final(self).spec_matches() == old(self).spec_matches(),
            final(self).spec_direction() == old(self).spec_direction(),
            final(self).spec_searched_len() == old(self).spec_searched_len(),
            final(self).spec_pattern() == old(self).spec_pattern(),
            final(self).spec_case_insensitive() == old(self).spec_case_insensitive(),
            final(self).spec_search_input() == old(self).spec_search_input(),
    {
        self.last_jump = None;
        self.should_show_matches = false;
    }

    pub fn clear_last_jump_but_keep_showing_matches(&mut self)
        requires
            old(self).wf(),
        ensures
            final(self).wf(),
            final(self).spec_last_jump() is None,
            final(self).spec_should_show_matches() == old(self).spec_should_show_matches(),
            final(self).spec_matches() == old(self).spec_matches(),
            final(self).spec_direction() == old(self).spec_direction(),
            final(self).spec_searched_len() == old(self).spec_searched_len(),
            final(self).spec_pattern() == old(self).spec_pattern(),
            final(self).spec_case_insensitive() == old(self).spec_case_insensitive(),
            final(self).spec_search_input() == old(self).spec_search_input(),
    {
        self.last_jump = None;
    }

    /// Moves `delta` matches from match `start_index` among `num_matches`,
    /// going round at either end: the match landed on, and whether it went
    /// round.
    pub fn cycle_match_impl(start_index: usize, delta: isize, num_matches: usize) -> (r: (usize, bool))
        requires
            0 < num_matches <= isize::MAX,
            start_index <= isize::MAX,
            isize::MIN <= start_index + delta <= isize::MAX,
        ensures
            r.0 == spec_cycle_index(start_index as int, delta as int, num_matches as int),
            r.1 == spec_cycle_wrapped(start_index as int, delta as int, num_matches as int, r.0 as int),
            r.0 < num_matches,
    {
        let s: i128 = start_index as i128 + delta as i128;
        let m: u128 = num_matches as u128;
        let new_index: usize = if s >= 0 {
            ((s as u128) % m) as usize
        } else {
            let t: u128 = ((-s) as u128) % m;
            if t == 0 {
                0
            } else {
                (m - t) as usize
            }
        };
        proof {
            if s < 0 {
                lemma_negative_mod(s as int, m as int);
            }
        }
        let wrapped = if delta == 0 {
            false
        } else if delta > 0 {
            (num_matches as u128) <= (delta as u128) || new_index < start_index
        } else {
            (num_matches as u128) <= ((-(delta as i128)) as u128) || start_index < new_index
        };
        (new_index, wrapped)
    }

    fn cycle_match(&self, start_index: usize, delta: isize) -> (r: (usize, bool))
        requires
            0 < self.matches@.len() <= isize::MAX,
            start_index <= isize::MAX,
            isize::MIN <= start_index + delta <= isize::MAX,
        ensures
            r.0 == spec_cycle_index(start_index as int, delta as int, self.matches@.len() as int),
            r.1 == spec_cycle_wrapped(start_index as int, delta as int, self.matches@.len() as int, r.0 as int),
            r.0 < self.matches@.len(),
    {
        Self::cycle_match_impl(start_index, delta, self.matches.len())
    }

    fn direction_of_jump(&self, jump_direction: JumpDirection) -> (d: SearchDirection)
        ensures
            d == spec_direction_of_jump(self.direction, jump_direction),
    {
        match (self.direction, jump_direction) {
            (SearchDirection::Forward, JumpDirection::Next) | (SearchDirection::Reverse, JumpDirection::Prev) => SearchDirection::Forward,
            (SearchDirection::Forward, JumpDirection::Prev) | (SearchDirection::Reverse, JumpDirection::Next) => SearchDirection::Reverse,
        }
    }

    /// The match to start from when no jump was made yet: going forward, the
    /// first match that starts at or after the end of `range`; going back, the
    /// last one that ends at or before its start; and whether none was there,
    /// so that the search went round.
    pub closed spec fn spec_closest_match(&self, range: Range<usize>, d: SearchDirection) -> (int, bool) {
        if d == SearchDirection::Forward {
            match first_starting_at_or_after(self.matches@, range.end, 0) {
                None => (0, true),
                Some(i) => (i, false),
            }
        } else {
            match last_ending_at_or_before(self.matches@, range.start, self.matches@.len() as int) {
                None => (self.matches@.len() - 1, true),
                Some(i) => (i, false),
            }
        }
    }

    fn closest_match_to_range(&self, range: Range<usize>, search_direction: SearchDirection) -> (r: (usize, bool))
        requires
            self.matches@.len() > 0,
        ensures
            r.0 == self.spec_closest_match(range, search_direction).0,
            r.1 == self.spec_closest_match(range, search_direction).1,
            r.0 < self.matches@.len(),
    {
        let ghost spec = self.spec_closest_match(range, search_direction);
        match search_direction {
            SearchDirection::Forward => {
                let r = index_of_first_elem_starting_at_or_after(self.matches.as_slice(), range.end);
                match r {
                    None => (0, true),
                    Some(index) => {
                        assert(spec.0 == index);
                        (index, false)
                    },
                }
            },
            SearchDirection::Reverse => {
                let r = index_of_last_elem_ending_at_or_before(self.matches.as_slice(), range.start);
                match r {
                    None => (self.matches.len() - 1, true),
                    Some(index) => {
                        assert(spec.0 == index);
                        (index, false)
                    },
                }
            },
        }
    }

    /// The match that `jumps` jumps lead to before checking that the jump
    /// visibly changes something, and whether getting there went round.
    pub closed spec fn spec_prospective_match(
        &self,
        current_focused_range: Range<usize>,
        jump_direction: JumpDirection,
        jumps: usize,
    ) -> (int, bool) {
        let d = spec_direction_of_jump(self.direction, jump_direction);
        let n = self.matches@.len() as int;
        match self.last_jump {
            None => {
                let (closest, w1) = self.spec_closest_match(current_focused_range, d);
                let delta = if d == SearchDirection::Forward { jumps - 1 } else { -(jumps - 1) };
                let m = spec_cycle_index(closest, delta, n);
                (m, w1 || spec_cycle_wrapped(closest, delta, n, m))
            },
            Some(lj) => {
                let delta = if d == SearchDirection::Forward { jumps as int } else { -(jumps as int) };
                let m = spec_cycle_index(lj.match_jumped_to as int, delta, n);
                (m, spec_cycle_wrapped(lj.match_jumped_to as int, delta, n, m))
            },
        }
    }

    /// The `k`-th match met when stepping one match at a time from `p` in
    /// direction `d`.
    pub closed spec fn spec_step_match(&self, p: int, k: int, d: SearchDirection) -> int
        decreases k,
    {
        if k <= 0 {
            p
        } else {
            spec_cycle_index(
                self.spec_step_match(p, k - 1, d),
                if d == SearchDirection::Forward { 1 } else { -1 },
                self.matches@.len() as int,
            )
        }
    }

    /// Stepping from match `p` in direction `d` stops after `k` steps: the
    /// callbacks reported `false` for every match before, and one of them
    /// `true` for the `k`-th, unless all matches were tried.
    pub closed spec fn jump_stops_after<F: Fn(Range<usize>) -> bool, G: Fn(Range<usize>) -> bool>(
        &self,
        f: F,
        g: G,
        p: int,
        d: SearchDirection,
        k: int,
    ) -> bool {
        let ms = self.spec_matches();
        &&& 0 <= k <= ms.len()
        &&& forall|t: int|
            #![trigger self.spec_step_match(p, t, d)]
            0 <= t < k ==> Self::reported(f, ms[self.spec_step_match(p, t, d)], false)
                && Self::reported(g, ms[self.spec_step_match(p, t, d)], false)
        &&& (k < ms.len() ==> Self::reported(f, ms[self.spec_step_match(p, k, d)], true)
            || Self::reported(g, ms[self.spec_step_match(p, k, d)], true))
    }

    /// The match jumped to once stepping stops after `k` steps: back at `p`
    /// when all matches were tried.
    pub closed spec fn jump_target(&self, p: int, d: SearchDirection, k: int) -> int {
        if k < self.matches@.len() {
            self.spec_step_match(p, k, d)
        } else {
            p
        }
    }

    /// Stepping from a match one at a time stays among the matches.
    pub proof fn lemma_step_match_in_range(&self, p: int, k: int, d: SearchDirection)
        requires
            0 <= p < self.spec_matches().len(),
        ensures
            0 <= self.spec_step_match(p, k, d) < self.spec_matches().len(),
        decreases k,
    {
        if k > 0 {
            self.lemma_step_match_in_range(p, k - 1, d);
        }
    }

    /// The match a jump stops at is one of the matches.
    pub proof fn lemma_jump_target_in_range(&self, p: int, d: SearchDirection, k: int)
        requires
            0 <= p < self.spec_matches().len(),
        ensures
            0 <= self.jump_target(p, d, k) < self.spec_matches().len(),
    {
        self.lemma_step_match_in_range(p, k, d);
    }

    /// Stepping one match at a time from `p` moves by whole steps, going
    /// round at either end.
    proof fn lemma_step_match_is_cycle(&self, p: int, t: int, d: SearchDirection)
        requires
            0 <= p < self.spec_matches().len(),
            0 <= t,
        ensures
            self.spec_step_match(p, t, d) == (if d == SearchDirection::Forward {
                (p + t) % (self.spec_matches().len() as int)
            } else {
                (p - t) % (self.spec_matches().len() as int)
            }),
        decreases t,
    {
        let n = self.spec_matches().len() as int;
        if t == 0 {
            vstd::arithmetic::div_mod::lemma_small_mod(p as nat, n as nat);
        } else {
            self.lemma_step_match_is_cycle(p, t - 1, d);
            if d == SearchDirection::Forward {
                vstd::arithmetic::div_mod::lemma_add_mod_noop_right(1, p + t - 1, n);
                assert(1 + (p + t - 1) == p + t);
            } else {
                vstd::arithmetic::div_mod::lemma_add_mod_noop_right(-1, p - (t - 1), n);
                assert(-1 + (p - (t - 1)) == p - t);
            }
        }
    }

    /// Stepping from `p` reaches every match within as many steps as there
    /// are matches.
    proof fn lemma_step_match_reaches(&self, p: int, d: SearchDirection, j: int) -> (t: int)
        requires
            0 <= p < self.spec_matches().len(),
            0 <= j < self.spec_matches().len(),
        ensures
            0 <= t < self.spec_matches().len(),
            self.spec_step_match(p, t, d) == j,
    {
        let n = self.spec_matches().len() as int;
        vstd::arithmetic::div_mod::lemma_small_mod(j as nat, n as nat);
        if d == SearchDirection::Forward {
            let t = (j - p) % n;
            self.lemma_step_match_is_cycle(p, t, d);
            vstd::arithmetic::div_mod::lemma_add_mod_noop_right(p, j - p, n);
            assert(p + (j - p) == j);
            t
        } else {
            let t = (p - j) % n;
            self.lemma_step_match_is_cycle(p, t, d);
            vstd::arithmetic::div_mod::lemma_sub_mod_noop_right(p, p - j, n);
            assert(p - (p - j) == j);
            t
        }
    }

    /// A jump shows whenever it can: where one of the callbacks answers
    /// `true` for some match (and nothing else there), stepping stops before
    /// all matches were tried, at a match for which a callback answered
    /// `true`.
    pub proof fn law_jump_shows_whenever_possible<F: Fn(Range<usize>) -> bool, G: Fn(Range<usize>) -> bool>(
        &self,
        f: F,
        g: G,
        p: int,
        d: SearchDirection,
        k: int,
        j: int,
    )
        requires
            0 <= p < self.spec_matches().len(),
            0 <= j < self.spec_matches().len(),
            self.jump_stops_after(f, g, p, d, k),
            (forall|b: bool| #[trigger] Self::reported(f, self.spec_matches()[j], b) ==> b) || (forall|b: bool|
                #[trigger] Self::reported(g, self.spec_matches()[j], b) ==> b),
        ensures
            k < self.spec_matches().len(),
            Self::reported(f, self.spec_matches()[self.jump_target(p, d, k)], true) || Self::reported(
                g,
                self.spec_matches()[self.jump_target(p, d, k)],
                true,
            ),
    {
        let t = self.lemma_step_match_reaches(p, d, j);
        if k >= self.spec_matches().len() {
            assert(t < k);
            assert(Self::reported(f, self.spec_matches()[self.spec_step_match(p, t, d)], false));
            assert(Self::reported(g, self.spec_matches()[self.spec_step_match(p, t, d)], false));
            assert(false);
        }
    }

    /// A callback reported `true` for match `m`.
    pub open spec fn reported<F: Fn(Range<usize>) -> bool>(f: F, m: (usize, usize), b: bool) -> bool {
        call_ensures(f, (Range { start: m.0, end: m.1 },), b)
    }

    /// Jumps `jumps` matches from the last match jumped to, or from the focused
    /// range if there was none, and then on, one match at a time, until the
    /// cursor would move or the match is visible, so that the jump shows; it
    /// stays at the first match tried when no match does. Returns the range of
    /// the match jumped to.
    pub fn jump_to_next_match<F: Fn(Range<usize>) -> bool, G: Fn(Range<usize>) -> bool>(
        &mut self,
        current_focused_range: Range<usize>,
        jump_direction: JumpDirection,
        jumps: usize,
        cursor_will_move: &F,
        is_match_visible: &G,
    ) -> (r: Range<usize>)
        requires
            old(self).wf(),
            old(self).spec_matches().len() > 0,
            old(self).spec_matches().len() < isize::MAX / 2,
            0 < jumps < isize::MAX / 2,
            forall|m: Range<usize>| call_requires(*cursor_will_move, (m,)),
            forall|m: Range<usize>| call_requires(*is_match_visible, (m,)),
        ensures
            final(self).wf(),
            final(self).spec_should_show_matches(),
            final(self).spec_matches() == old(self).spec_matches(),
            final(self).spec_direction() == old(self).spec_direction(),
            final(self).spec_searched_len() == old(self).spec_searched_len(),
            final(self).spec_pattern() == old(self).spec_pattern(),
            final(self).spec_case_insensitive() == old(self).spec_case_insensitive(),
            final(self).spec_search_input() == old(self).spec_search_input(),
            final(self).spec_last_jump() matches Some(lj) && lj.match_jumped_to < final(self).spec_matches().len()
                && range_pair(r) == final(self).spec_matches()[lj.match_jumped_to as int],
            ({
                let (p, wrapped) = old(self).spec_prospective_match(
                    current_focused_range,
                    jump_direction,
                    jumps,
                );
                let d = spec_direction_of_jump(old(self).spec_direction(), jump_direction);
                let ms = old(self).spec_matches();
                exists|k: int|
                    #[trigger] old(self).jump_stops_after(*cursor_will_move, *is_match_visible, p, d, k)
                        && final(self).spec_last_jump() == Some(
                        LastJump {
                            match_jumped_to: old(self).jump_target(p, d, k) as usize,
                            just_wrapped: wrapped,
                        },
                    ) && range_pair(r) == ms[old(self).jump_target(p, d, k)]
            }),
    {
        let ghost ms = self.spec_matches();
        let search_direction = self.direction_of_jump(jump_direction);
        let n = self.matches.len();
        let (prospective_match, wrapped) = match &self.last_jump {
            None => {
                let (closest_match, wrapped_while_going_to_closest_match) =
                    self.closest_match_to_range(current_focused_range, search_direction);
                let delta: isize = match search_direction {
                    SearchDirection::Forward => (jumps - 1) as isize,
                    SearchDirection::Reverse => -((jumps - 1) as isize),
                };
                let (final_match, wrapped_while_cycling) = self.cycle_match(closest_match, delta);
                (final_match, wrapped_while_going_to_closest_match || wrapped_while_cycling)
            },
            Some(lj) => {
                let delta: isize = match search_direction {
                    SearchDirection::Forward => jumps as isize,
                    SearchDirection::Reverse => -(jumps as isize),
                };
                self.cycle_match(lj.match_jumped_to, delta)
            },
        };
        let mut next_match = prospective_match;
        let unit_step = search_direction.signed_jump_size();
        let mut k: usize = 0;
        let mut found = false;
        while k < n
            invariant_except_break
                !found,
            invariant
                k <= n,
                n == self.matches@.len(),
                0 < n < isize::MAX / 2,
                self.wf(),
                ms == self.spec_matches(),
                prospective_match < n,
                next_match < n,
                unit_step == (if search_direction == SearchDirection::Forward {
                    1int
                } else {
                    -1int
                }),
                next_match == self.spec_step_match(prospective_match as int, k as int, search_direction),
                forall|t: int|
                    #![trigger self.spec_step_match(prospective_match as int, t, search_direction)]
                    0 <= t < k ==> Self::reported(
                        *cursor_will_move,
                        ms[self.spec_step_match(prospective_match as int, t, search_direction)],
                        false,
                    ) && Self::reported(
                        *is_match_visible,
                        ms[self.spec_step_match(prospective_match as int, t, search_direction)],
                        false,
                    ),
                forall|m: Range<usize>| call_requires(*cursor_will_move, (m,)),
                forall|m: Range<usize>| call_requires(*is_match_visible, (m,)),
            ensures
                found ==> k < n && (Self::reported(*cursor_will_move, ms[next_match as int], true)
                    || Self::reported(*is_match_visible, ms[next_match as int], true)),
                !found ==> k == n,
            decreases n - k,
        {
            let m = &self.matches[next_match];
            proof {
                assert(ms[next_match as int] == range_pair(*m));
            }
            let cursor_moved = cursor_will_move(m.start..m.end);
            let next_match_is_visible = is_match_visible(m.start..m.end);
            if cursor_moved || next_match_is_visible {
                found = true;
                break;
            }
            let (next_prospective_match, _) = self.cycle_match(next_match, unit_step);
            next_match = next_prospective_match;
            k = k + 1;
        }
        if !found {
            next_match = prospective_match;
        }
        let m = &self.matches[next_match];
        let next_match_range = m.start..m.end;
        proof {
            assert(ms[next_match as int] == range_pair(*m));
        }
        self.last_jump = Some(LastJump { match_jumped_to: next_match, just_wrapped: wrapped });
        self.should_show_matches = true;
        proof {
            assert(self.spec_matches() =~= ms);
            let sp = old(self).spec_prospective_match(current_focused_range, jump_direction, jumps);
            assert(sp.0 == prospective_match as int);
            assert(sp.1 == wrapped);
            assert(old(self).jump_stops_after(*cursor_will_move, *is_match_visible, prospective_match as int, search_direction, k as int));
            assert(old(self).jump_target(prospective_match as int, search_direction, k as int) == next_match);
        }
        next_match_range
    }
}

#[derive(Clone, Copy, Debug, PartialEq, Eq, Structural)]
pub enum HighlightKind {
    CurrentMatch,
    OtherMatch,
    NotAMatch,
}

/// Splits ranges of the document into the parts that are search matches and
/// those that are not. It expects to be asked about ranges in increasing
/// order, and goes back to the first match when asked about an earlier one.
pub struct SearchMatchHighlighter<'a> {
    all_search_matches: &'a [Range<usize>],
    current_match_index: Option<usize>,
    /// The matches from this one on are those still to consider.
    match_index_of_first_subsequent_search_match: usize,
    reset_subsequent_search_matches_if_next_range_starts_before: usize,
}

/// How a part of match `f` is highlighted.
pub open spec fn kind_of_match(current: Option<usize>, f: int) -> HighlightKind {
    match current {
        Some(i) => if i == f {
            HighlightKind::CurrentMatch
        } else {
            HighlightKind::OtherMatch
        },
        None => HighlightKind::OtherMatch,
    }
}

/// The match to consider first for a range that starts at `start`, given the
/// one to consider first before: back to the first match if the range starts
/// before the end of the last range asked about; past a match that ended
/// by `start`, and if the next one did too, to the first match ending after
/// `start`.
pub open spec fn first_match_for(ms: Seq<Range<usize>>, first: int, reset_before: usize, start: usize) -> int {
    let f0 = if start < reset_before { 0 } else { first };
    if f0 < ms.len() && ms[f0].end <= start {
        let f1 = f0 + 1;
        if f1 < ms.len() && ms[f1].end <= start {
            match first_ending_after(ms, start, 0) {
                None => ms.len() as int,
                Some(i) => i,
            }
        } else {
            f1
        }
    } else {
        f0
    }
}

/// The highlighted parts of `pos..end`, considering the matches from `f` on,
/// and the match to consider first afterwards. Each step gives the part up to
/// the next match, or the part within the match; empty parts are left out.
pub open spec fn highlight_parts(
    ms: Seq<Range<usize>>,
    current: Option<usize>,
    f: int,
    pos: int,
    end: int,
) -> (Seq<((usize, usize), HighlightKind)>, int)
    decreases ms.len() - f, end - pos,
{
    if !(0 <= f && pos < end) {
        (Seq::empty(), f)
    } else if f >= ms.len() {
        (seq![((pos as usize, end as usize), HighlightKind::NotAMatch)], f)
    } else {
        let m = ms[f];
        if pos < m.start {
            let ue = if end < m.start { end } else { m.start as int };
            let (rest, last) = highlight_parts(ms, current, f, ue, end);
            (seq![((pos as usize, ue as usize), HighlightKind::NotAMatch)] + rest, last)
        } else {
            let me = if end < m.end { end } else { m.end as int };
            let next_f = if me == m.end { f + 1 } else { f };
            if next_f == f && me <= pos {
                (Seq::empty(), f)
            } else {
                let (rest, last) = highlight_parts(ms, current, next_f, me, end);
                if pos < me {
                    (seq![((pos as usize, me as usize), kind_of_match(current, f))] + rest, last)
                } else {
                    (rest, last)
                }
            }
        }
    }
}

impl<'a> SearchMatchHighlighter<'a> {
    pub closed spec fn spec_matches(&self) -> Seq<Range<usize>> {
        self.all_search_matches@
    }

    pub closed spec fn spec_current(&self) -> Option<usize> {
        self.current_match_index
    }

    pub closed spec fn spec_first(&self) -> int {
        self.match_index_of_first_subsequent_search_match as int
    }

    pub closed spec fn spec_reset_before(&self) -> usize {
        self.reset_subsequent_search_matches_if_next_range_starts_before
    }

    pub closed spec fn wf(&self) -> bool {
        self.match_index_of_first_subsequent_search_match <= self.all_search_matches@.len()
    }

    pub fn new(search_matches: &'a [Range<usize>], current_match_index: Option<usize>) -> (h: Self)
        ensures
            h.wf(),
            h.spec_matches() == search_matches@,
            h.spec_current() == current_match_index,
            h.spec_first() == 0,
            h.spec_reset_before() == 0,
    {
        SearchMatchHighlighter {
            all_search_matches: search_matches,
            current_match_index,
            match_index_of_first_subsequent_search_match: 0,
            reset_subsequent_search_matches_if_next_range_starts_before: 0,
        }
    }

    /// The parts of `range`, in order, each with how it is highlighted.
    pub fn highlight(&mut self, range: Range<usize>) -> (r: Vec<(Range<usize>, HighlightKind)>)
        requires
            old(self).wf(),
        ensures
            final(self).wf(),
            final(self).spec_matches() == old(self).spec_matches(),
            final(self).spec_current() == old(self).spec_current(),
            final(self).spec_reset_before() == range.end,
            ({
                let ms = old(self).spec_matches();
                let f = first_match_for(ms, old(self).spec_first(), old(self).spec_reset_before(), range.start);
                let (parts, last) = highlight_parts(ms, old(self).spec_current(), f, range.start as int, range.end as int);
                &&& r@.map_values(|x: (Range<usize>, HighlightKind)| ((x.0.start, x.0.end), x.1)) == parts
                &&& final(self).spec_first() == last
            }),
    {
        let ms = self.all_search_matches;
        let len = ms.len();
        if range.start < self.reset_subsequent_search_matches_if_next_range_starts_before {
            self.match_index_of_first_subsequent_search_match = 0;
        }
        self.reset_subsequent_search_matches_if_next_range_starts_before = range.end;
        let f0 = self.match_index_of_first_subsequent_search_match;
        if f0 < len && ms[f0].end <= range.start {
            self.match_index_of_first_subsequent_search_match = f0 + 1;
            if f0 + 1 < len && ms[f0 + 1].end <= range.start {
                match index_of_first_elem_ending_after(ms, range.start) {
                    None => {
                        self.match_index_of_first_subsequent_search_match = len;
                    },
                    Some(index) => {
                        self.match_index_of_first_subsequent_search_match = index;
                    },
                }
            }
        }
        let ghost f_start = self.match_index_of_first_subsequent_search_match as int;
        assert(f_start == first_match_for(
            ms@,
            old(self).match_index_of_first_subsequent_search_match as int,
            old(self).reset_subsequent_search_matches_if_next_range_starts_before,
            range.start,
        ));
        let end = range.end;
        let mut pos = range.start;
        let mut out: Vec<(Range<usize>, HighlightKind)> = Vec::new();
        let ghost current = self.current_match_index;
        loop
            invariant
                self.wf(),
                ms@ == self.all_search_matches@,
                len == ms@.len(),
                current == self.current_match_index,
                self.reset_subsequent_search_matches_if_next_range_starts_before == range.end,
                self.all_search_matches == old(self).all_search_matches,
                self.current_match_index == old(self).current_match_index,
                end == range.end,
                highlight_parts(ms@, current, f_start, range.start as int, end as int) == ({
                    let (rest, last) = highlight_parts(ms@, current, self.match_index_of_first_subsequent_search_match as int, pos as int, end as int);
                    (out@.map_values(|x: (Range<usize>, HighlightKind)| ((x.0.start, x.0.end), x.1)) + rest, last)
                }),
            ensures
                highlight_parts(ms@, current, f_start, range.start as int, end as int) == (
                    out@.map_values(|x: (Range<usize>, HighlightKind)| ((x.0.start, x.0.end), x.1)),
                    self.match_index_of_first_subsequent_search_match as int,
                ),
            decreases len - self.match_index_of_first_subsequent_search_match, end - pos,
        {
            let f = self.match_index_of_first_subsequent_search_match;
            let ghost before = out@.map_values(|x: (Range<usize>, HighlightKind)| ((x.0.start, x.0.end), x.1));
            if pos >= end {
                proof {
                    assert(before + Seq::<((usize, usize), HighlightKind)>::empty() =~= before);
                }
                break;
            }
            if f >= len {
                out.push((pos..end, HighlightKind::NotAMatch));
                proof {
                    assert(out@.map_values(|x: (Range<usize>, HighlightKind)| ((x.0.start, x.0.end), x.1)) =~= before.push(((pos, end), HighlightKind::NotAMatch)));
                }
                pos = end;
                proof {
                    assert(highlight_parts(ms@, current, f as int, pos as int, end as int).0 =~= Seq::empty());
                }
            } else {
                let m_start = ms[f].start;
                let m_end = ms[f].end;
                if pos < m_start {
                    let ue = if end < m_start { end } else { m_start };
                    out.push((pos..ue, HighlightKind::NotAMatch));
                    proof {
                        assert(out@.map_values(|x: (Range<usize>, HighlightKind)| ((x.0.start, x.0.end), x.1)) =~= before.push(((pos, ue), HighlightKind::NotAMatch)));
                    }
                    pos = ue;
                } else {
                    let me = if end < m_end { end } else { m_end };
                    let kind = match self.current_match_index {
                        Some(i) => if i == f {
                            HighlightKind::CurrentMatch
                        } else {
                            HighlightKind::OtherMatch
                        },
                        None => HighlightKind::OtherMatch,
                    };
                    if me == m_end {
                        self.match_index_of_first_subsequent_search_match = f + 1;
                    } else if me <= pos {
                        proof {
                            assert(before + Seq::<((usize, usize), HighlightKind)>::empty() =~= before);
                        }
                        break;
                    }
                    if pos < me {
                        out.push((pos..me, kind));
                        proof {
                            assert(out@.map_values(|x: (Range<usize>, HighlightKind)| ((x.0.start, x.0.end), x.1)) =~= before.push(((pos, me), kind)));
                        }
                    }
                    pos = me;
                }
            }
        }
        out
    }
}

/// The matches are in order and do not overlap.
pub open spec fn matches_sorted(ms: Seq<Range<usize>>) -> bool {
    &&& forall|i: int| 0 <= i < ms.len() ==> (#[trigger] ms[i]).start <= ms[i].end
    &&& forall|i: int, j: int| 0 <= i < j < ms.len() ==> (#[trigger] ms[i]).end <= (#[trigger] ms[j]).start
}

/// The parts are nonempty and follow each other from `pos` to `end`,
/// covering each position once; there are none exactly when the range is
/// empty.
pub open spec fn parts_tile(parts: Seq<((usize, usize), HighlightKind)>, pos: int, end: int) -> bool {
    &&& (parts.len() == 0 <==> pos == end)
    &&& forall|k: int| 0 <= k < parts.len() ==> (#[trigger] parts[k]).0.0 < parts[k].0.1
    &&& parts.len() > 0 ==> parts[0].0.0 == pos && parts[parts.len() - 1].0.1 == end
    &&& forall|k: int| 0 <= k < parts.len() - 1 ==> (#[trigger] parts[k]).0.1 == parts[k + 1].0.0
}

/// The positions from `a` to before `b` and match `m` have one in common.
pub open spec fn shares_position(a: usize, b: usize, m: Range<usize>) -> bool {
    a < m.end && m.start < b && m.start < m.end
}

/// Each part is marked as no match exactly when it has no position in
/// common with any match; a part marked otherwise lies within a match, and
/// is marked as the current match exactly when that match is the current
/// one.
pub open spec fn parts_marked_exactly(
    parts: Seq<((usize, usize), HighlightKind)>,
    ms: Seq<Range<usize>>,
    current: Option<usize>,
) -> bool {
    forall|k: int|
        0 <= k < parts.len() ==> {
            &&& ((#[trigger] parts[k]).1 is NotAMatch <==> forall|j: int|
                0 <= j < ms.len() ==> !shares_position(parts[k].0.0, parts[k].0.1, #[trigger] ms[j]))
            &&& !(parts[k].1 is NotAMatch) ==> exists|j: int|
                0 <= j < ms.len() && (#[trigger] ms[j]).start <= parts[k].0.0 && parts[k].0.1 <= ms[j].end
                    && parts[k].1 == kind_of_match(current, j)
        }
}

/// Putting a part in front of parts that tile the rest of a range.
proof fn lemma_tile_cons(
    head: ((usize, usize), HighlightKind),
    rest: Seq<((usize, usize), HighlightKind)>,
    pos: int,
    next: int,
    end: int,
)
    requires
        head.0.0 == pos,
        head.0.1 == next,
        pos < next <= end,
        parts_tile(rest, next, end),
    ensures
        parts_tile(seq![head] + rest, pos, end),
{
    let parts = seq![head] + rest;
    assert forall|k: int| 0 <= k < parts.len() implies (#[trigger] parts[k]).0.0 < parts[k].0.1 by {
        if k > 0 {
            assert(parts[k] == rest[k - 1]);
        }
    }
    assert forall|k: int| 0 <= k < parts.len() - 1 implies (#[trigger] parts[k]).0.1 == parts[k + 1].0.0 by {
        if k > 0 {
            assert(parts[k] == rest[k - 1]);
            assert(parts[k + 1] == rest[k]);
        } else {
            assert(parts[1] == rest[0]);
        }
    }
    if rest.len() > 0 {
        assert(parts[parts.len() - 1] == rest[rest.len() - 1]);
    }
}

/// Putting a correctly marked part in front of correctly marked parts.
proof fn lemma_marked_cons(
    head: ((usize, usize), HighlightKind),
    rest: Seq<((usize, usize), HighlightKind)>,
    ms: Seq<Range<usize>>,
    current: Option<usize>,
)
    requires
        parts_marked_exactly(seq![head], ms, current),
        parts_marked_exactly(rest, ms, current),
    ensures
        parts_marked_exactly(seq![head] + rest, ms, current),
{
    let parts = seq![head] + rest;
    assert forall|k: int| 0 <= k < parts.len() implies {
        &&& ((#[trigger] parts[k]).1 is NotAMatch <==> forall|j: int|
            0 <= j < ms.len() ==> !shares_position(parts[k].0.0, parts[k].0.1, #[trigger] ms[j]))
        &&& !(parts[k].1 is NotAMatch) ==> exists|j: int|
            0 <= j < ms.len() && (#[trigger] ms[j]).start <= parts[k].0.0 && parts[k].0.1 <= ms[j].end
                && parts[k].1 == kind_of_match(current, j)
    } by {
        if k == 0 {
            assert(parts[0] == seq![head][0]);
        } else {
            assert(parts[k] == rest[k - 1]);
        }
    }
}

/// The parts of `pos..end` from match `f` on tile the range and are marked
/// exactly, where the matches are in order, those before `f` end by `pos`,
/// and match `f` does not end before `pos`.
pub proof fn law_highlight_parts_tile(ms: Seq<Range<usize>>, current: Option<usize>, f: int, pos: int, end: int)
    requires
        matches_sorted(ms),
        0 <= f,
        0 <= pos <= end <= usize::MAX,
        f < ms.len() ==> ms[f].end >= pos,
        forall|i: int| 0 <= i < f && i < ms.len() ==> (#[trigger] ms[i]).end <= pos,
    ensures
        parts_tile(highlight_parts(ms, current, f, pos, end).0, pos, end),
        parts_marked_exactly(highlight_parts(ms, current, f, pos, end).0, ms, current),
        forall|i: int|
            0 <= i < highlight_parts(ms, current, f, pos, end).1 && i < ms.len() ==> (#[trigger] ms[i]).end <= end,
    decreases ms.len() - f, end - pos,
{
    if pos < end && f < ms.len() {
        let m = ms[f];
        assert(m.start <= m.end);
        if pos < m.start {
            let ue = if end < m.start { end } else { m.start as int };
            law_highlight_parts_tile(ms, current, f, ue, end);
            let head = ((pos as usize, ue as usize), HighlightKind::NotAMatch);
            let rest = highlight_parts(ms, current, f, ue, end).0;
            lemma_tile_cons(head, rest, pos, ue, end);
            assert forall|j: int| 0 <= j < ms.len() implies !shares_position(pos as usize, ue as usize, #[trigger] ms[j]) by {
                if j > f {
                    assert(ms[f].end <= ms[j].start);
                }
            }
            assert(parts_marked_exactly(seq![head], ms, current)) by {
                assert(seq![head][0] == head);
            }
            lemma_marked_cons(head, rest, ms, current);
            assert(highlight_parts(ms, current, f, pos, end).0 == seq![head] + rest);
        } else {
            let me = if end < m.end { end } else { m.end as int };
            let next_f = if me == m.end { f + 1 } else { f };
            if next_f == f + 1 && f + 1 < ms.len() {
                assert(ms[f].end <= ms[f + 1].start);
                assert(ms[f + 1].start <= ms[f + 1].end);
            }
            law_highlight_parts_tile(ms, current, next_f, me, end);
            let rest = highlight_parts(ms, current, next_f, me, end).0;
            if pos < me {
                let head = ((pos as usize, me as usize), kind_of_match(current, f));
                lemma_tile_cons(head, rest, pos, me, end);
                assert(shares_position(pos as usize, me as usize, ms[f]));
                assert(parts_marked_exactly(seq![head], ms, current)) by {
                    assert(seq![head][0] == head);
                }
                lemma_marked_cons(head, rest, ms, current);
                assert(highlight_parts(ms, current, f, pos, end).0 == seq![head] + rest);
            } else {
                assert(me == pos);
            }
        }
    }
}

/// The first match that the highlighter considers for a range does not end
/// before the range starts, and those before it end by then.
proof fn lemma_first_match_for(ms: Seq<Range<usize>>, first: int, reset_before: usize, start: usize)
    requires
        matches_sorted(ms),
        0 <= first <= ms.len(),
        forall|i: int| 0 <= i < first ==> (#[trigger] ms[i]).end <= reset_before,
    ensures
        0 <= first_match_for(ms, first, reset_before, start) <= ms.len(),
        first_match_for(ms, first, reset_before, start) < ms.len() ==> ms[first_match_for(
            ms,
            first,
            reset_before,
            start,
        )].end >= start,
        forall|i: int|
            0 <= i < first_match_for(ms, first, reset_before, start) ==> (#[trigger] ms[i]).end <= start,
{
    let f0 = if start < reset_before { 0 } else { first };
    if f0 < ms.len() && ms[f0].end <= start {
        let f1 = f0 + 1;
        if f1 < ms.len() && ms[f1].end <= start {
            lemma_first_ending(ms, start, 0);
        }
    }
}

/// The first range ending after `x`, from `i` on, is one of them, and those
/// from `i` up to it end by `x`; where there is none, all from `i` on do.
proof fn lemma_first_ending(ranges: Seq<Range<usize>>, x: usize, i: int)
    requires
        0 <= i,
    ensures
        first_ending_after(ranges, x, i) matches Some(j) ==> i <= j < ranges.len() && ranges[j].end > x && forall|
            k: int,
        | i <= k < j ==> (#[trigger] ranges[k]).end <= x,
        first_ending_after(ranges, x, i) is None ==> forall|k: int| i <= k < ranges.len() ==> (#[trigger] ranges[k]).end
            <= x,
    decreases ranges.len() - i,
{
    if i < ranges.len() && ranges[i].end <= x {
        lemma_first_ending(ranges, x, i + 1);
    }
}

/// What the highlighter keeps between calls: the matches before the one to
/// consider first end by the end of the last range asked about.
pub open spec fn highlighter_consistent(ms: Seq<Range<usize>>, first: int, reset_before: usize) -> bool {
    &&& 0 <= first <= ms.len()
    &&& forall|i: int| 0 <= i < first ==> (#[trigger] ms[i]).end <= reset_before
}

/// Highlighting a range, where the matches are in order, gives parts that
/// tile it, each marked as no match exactly when it has no position in
/// common with a match, and otherwise by the match it lies in; what the
/// highlighter keeps stays consistent for the next call. A new highlighter
/// is consistent, so this holds over any sequence of calls.
pub proof fn law_highlight_covers_range(
    ms: Seq<Range<usize>>,
    current: Option<usize>,
    first: int,
    reset_before: usize,
    start: usize,
    end: usize,
)
    requires
        matches_sorted(ms),
        highlighter_consistent(ms, first, reset_before),
        start <= end,
    ensures
        ({
            let (parts, last) = highlight_parts(ms, current, first_match_for(ms, first, reset_before, start), start as int, end as int);
            &&& parts_tile(parts, start as int, end as int)
            &&& parts_marked_exactly(parts, ms, current)
            &&& highlighter_consistent(ms, last, end)
        }),
{
    lemma_first_match_for(ms, first, reset_before, start);
    let f = first_match_for(ms, first, reset_before, start);
    law_highlight_parts_tile(ms, current, f, start as int, end as int);
    let last = highlight_parts(ms, current, f, start as int, end as int).1;
    lemma_highlight_parts_last(ms, current, f, start as int, end as int);
    assert(highlighter_consistent(ms, last, end));
}

/// The match to consider first after highlighting is at most the number of
/// matches.
proof fn lemma_highlight_parts_last(ms: Seq<Range<usize>>, current: Option<usize>, f: int, pos: int, end: int)
    requires
        0 <= f <= ms.len(),
    ensures
        f <= highlight_parts(ms, current, f, pos, end).1 <= ms.len(),
    decreases ms.len() - f, end - pos,
{
    if 0 <= f && pos < end && f < ms.len() {
        let m = ms[f];
        if pos < m.start {
            let ue = if end < m.start { end } else { m.start as int };
            lemma_highlight_parts_last(ms, current, f, ue, end);
        } else {
            let me = if end < m.end { end } else { m.end as int };
            let next_f = if me == m.end { f + 1 } else { f };
            if !(next_f == f && me <= pos) {
                lemma_highlight_parts_last(ms, current, next_f, me, end);
            }
        }
    }
}

} // verus!
