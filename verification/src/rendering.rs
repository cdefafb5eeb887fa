//! Styled text and the line compositor that fits text into lines of a given
//! width, measuring it in grapheme clusters and display columns.

use vstd::prelude::*;
use vstd::utf8::*;
use std::ops::Range;
use std::rc::Rc;
use crate::text::{utf8, substring, lemma_sub_boundary, lemma_sub_valid};

verus! {

/// Colors in a basic 16-color ANSI colorscheme.
#[derive(Copy, Clone, PartialEq, Eq, Hash, Debug, Structural)]
pub enum AnsiColor {
    Black,
    Red,
    Green,
    Yellow,
    Blue,
    Magenta,
    Cyan,
    White,
    BrightBlack,
    BrightRed,
    BrightGreen,
    BrightYellow,
    BrightBlue,
    BrightMagenta,
    BrightCyan,
    BrightWhite,
}

/// A color in the terminal.
#[derive(Copy, Clone, PartialEq, Eq, Hash, Debug, Structural)]
pub enum Color {
    /// The terminal's default color.
    Default,
    /// A color from a 16-color ANSI colorscheme.
    Ansi(AnsiColor),
    /// A color from a 256 color 8-bit colorscheme.
    Rgb256(u8),
    /// A color from a standard 24-bit colorscheme.
    Rgb { r: u8, g: u8, b: u8 },
}

/// Basic attributes for styling text: foreground and background colors, and
/// bold.
#[derive(Copy, Clone, PartialEq, Eq, Hash, Debug, Structural)]
pub struct Attrs {
    pub fg: Color,
    pub bg: Color,
    pub inverted: bool,
    pub bold: bool,
    pub dimmed: bool,
}

impl Default for Attrs {
    fn default() -> (a: Self)
        ensures
            a == Attrs::spec_new(Color::Default, Color::Default),
    {
        Attrs::const_default()
    }
}

impl Attrs {
    /// Plain attributes with these colors.
    pub open spec fn spec_new(fg: Color, bg: Color) -> Attrs {
        Attrs { fg, bg, inverted: false, bold: false, dimmed: false }
    }

    pub fn const_default() -> (a: Attrs)
        ensures
            a == Attrs::spec_new(Color::Default, Color::Default),
    {
        Attrs { fg: Color::Default, bg: Color::Default, inverted: false, bold: false, dimmed: false }
    }

    pub fn new(fg: Color, bg: Color) -> (a: Attrs)
        ensures
            a == Attrs::spec_new(fg, bg),
    {
        Attrs { fg, bg, inverted: false, bold: false, dimmed: false }
    }

    pub fn new_bold(fg: Color, bg: Color) -> (a: Attrs)
        ensures
            a == (Attrs { bold: true, ..Attrs::spec_new(fg, bg) }),
    {
        Attrs { fg, bg, inverted: false, bold: true, dimmed: false }
    }

    /// Creates a style from a foreground color, leaving the background set to
    /// `Default`.
    pub fn from_fg(fg: Color) -> (a: Attrs)
        ensures
            a == Attrs::spec_new(fg, Color::Default),
    {
        Self::new(fg, Color::Default)
    }

    /// Creates a style from an ANSI foreground color, leaving the background
    /// set to `Default`.
    pub fn from_ansi_fg(fg: AnsiColor) -> (a: Attrs)
        ensures
            a == Attrs::spec_new(Color::Ansi(fg), Color::Default),
    {
        Self::new(Color::Ansi(fg), Color::Default)
    }

    /// Inverts the foreground and background colors.
    pub fn invert(&self) -> (a: Attrs)
        ensures
            a == (Attrs { inverted: !self.inverted, ..*self }),
    {
        Attrs { inverted: !self.inverted, ..*self }
    }
}

/// Colors to use for a token depending on the context.
#[derive(Copy, Clone, Debug)]
pub struct TokenColorScheme {
    pub normal: Attrs,
    pub focused: Attrs,
    pub search_match: Attrs,
    pub focused_search_match: Attrs,
}

/// The number of positions in a range; none when it is reversed.
pub open spec fn range_len(r: Range<usize>) -> int {
    if r.start < r.end {
        r.end - r.start
    } else {
        0
    }
}

/// `std::str::from_utf8`: the text the bytes encode, when they are valid
/// UTF-8.
#[verifier::external_body]
fn str_from_utf8(bytes: &[u8]) -> (r: Option<&str>)
    ensures
        r is Some == valid_utf8(bytes@),
        r matches Some(s) ==> utf8(s@) == bytes@,
{
    match std::str::from_utf8(bytes) {
        Ok(s) => Some(s),
        Err(_) => None,
    }
}

/// The actual text to be displayed on the screen. The ranges indicate the
/// position of the text in the actual document, and are used to highlight
/// search matches.
#[derive(Debug)]
pub enum Text {
    /// A specific range of bytes of the document.
    SourceRange(Range<usize>),
    /// A portion of a generic string.
    String((Rc<String>, Range<usize>)),
    /// A static string.
    Static(&'static str),
}

impl Text {
    /// The bytes of the text, with `source` as the document.
    pub open spec fn spec_bytes(self, source: Seq<u8>) -> Seq<u8> {
        match self {
            Text::SourceRange(r) => source.subrange(r.start as int, r.end as int),
            Text::String((s, r)) => utf8(s@).subrange(r.start as int, r.end as int),
            Text::Static(s) => utf8(s@),
        }
    }

    /// The text's range lies within `source` or its string.
    pub open spec fn in_bounds(self, source: Seq<u8>) -> bool {
        match self {
            Text::SourceRange(r) => r.start <= r.end <= source.len(),
            Text::String((s, r)) => r.start <= r.end <= utf8(s@).len(),
            Text::Static(s) => true,
        }
    }

    /// The text can be read as UTF-8 text: its range lies on character
    /// boundaries, and a range of the document holds valid UTF-8.
    pub open spec fn readable(self, source: Seq<u8>) -> bool {
        &&& self.in_bounds(source)
        &&& match self {
            Text::SourceRange(r) => valid_utf8(source.subrange(r.start as int, r.end as int)),
            Text::String((s, r)) => is_char_boundary(utf8(s@), r.start as int) && is_char_boundary(
                utf8(s@),
                r.end as int,
            ),
            Text::Static(s) => true,
        }
    }

    pub open spec fn spec_len(self) -> int {
        match self {
            Text::SourceRange(r) => range_len(r),
            Text::String((_, r)) => range_len(r),
            Text::Static(s) => utf8(s@).len() as int,
        }
    }

    /// A run of `n` spaces: a part of a fixed string of spaces when it is
    /// short, else a string of its own.
    pub fn spaces(n: usize) -> (t: Self)
        ensures
            !(t is SourceRange),
            t.readable(Seq::empty()),
            t.spec_bytes(Seq::empty()) == Seq::new(n as nat, |i: int| 32u8),
            t.view_of() == spaces_view(n),
    {
        if n < 1024 {
            let lots_of_spaces: &'static str = "                                                                                                                                                                                                                                                                                                                                                                                                                                                                                                                                                                                                                                                                                                                                                                                                                                                                                                                                                                                                                                                                ";
            proof {
                reveal_strlit("                                                                                                                                                                                                                                                                                                                                                                                                                                                                                                                                                                                                                                                                                                                                                                                                                                                                                                                                                                                                                                                                ");
                let cs = lots_of_spaces@;
                assert(is_ascii_chars(cs));
                is_ascii_chars_encode_utf8(cs);
                assert(utf8(cs) =~= Seq::new(1024, |i: int| 32u8));
                encode_utf8_valid_utf8(cs);
                is_char_boundary_start_end_of_seq(utf8(cs));
                if n > 0 {
                    crate::text::lemma_ascii_boundaries(utf8(cs), n - 1);
                }
            }
            let part = substring(lots_of_spaces, 0, n);
            proof {
                encode_utf8_decode_utf8(part@);
                assert(utf8(part@) =~= Seq::new(n as nat, |i: int| 32u8));
            }
            Text::Static(part)
        } else {
            let mut s = String::new();
            let mut i: usize = 0;
            proof {
                assert(utf8(s@) =~= Seq::new(0, |k: int| 32u8));
            }
            while i < n
                invariant
                    i <= n,
                    utf8(s@) == Seq::new(i as nat, |k: int| 32u8),
                decreases n - i,
            {
                crate::text::push_ascii(&mut s, 32);
                i = i + 1;
                assert(utf8(s@) =~= Seq::new(i as nat, |k: int| 32u8));
            }
            proof {
                encode_utf8_decode_utf8(s@);
                encode_utf8_valid_utf8(s@);
                is_char_boundary_start_end_of_seq(utf8(s@));
            }
            Text::String((Rc::new(s), 0..n))
        }
    }

    pub fn ellipsis() -> (t: Self)
        ensures
            t matches Text::Static(s) && s@ == "…"@,
    {
        Text::Static("…")
    }

    pub fn full_string(s: Rc<String>) -> (t: Self)
        ensures
            t matches Text::String((x, r)) && x@ == s@ && r.start == 0 && r.end == utf8(s@).len(),
    {
        let len = s.as_str().as_bytes().len();
        Text::String((s, 0..len))
    }

    pub fn len(&self) -> (n: usize)
        ensures
            n == self.spec_len(),
    {
        match self {
            Text::SourceRange(range) => if range.start < range.end {
                range.end - range.start
            } else {
                0
            },
            Text::String((_, range)) => if range.start < range.end {
                range.end - range.start
            } else {
                0
            },
            Text::Static(s) => s.as_bytes().len(),
        }
    }

    pub fn as_bytes<'b>(&'b self, source: &'b [u8]) -> (b: &'b [u8])
        requires
            self.in_bounds(source@),
        ensures
            b@ == self.spec_bytes(source@),
    {
        match self {
            Text::SourceRange(range) => vstd::slice::slice_subrange(source, range.start, range.end),
            Text::String((s, range)) => vstd::slice::slice_subrange(
                s.as_str().as_bytes(),
                range.start,
                range.end,
            ),
            Text::Static(s) => s.as_bytes(),
        }
    }

    pub fn as_str<'b>(&'b self, source: &'b [u8]) -> (s: &'b str)
        requires
            self.readable(source@),
        ensures
            utf8(s@) == self.spec_bytes(source@),
    {
        match self {
            Text::SourceRange(range) => {
                let bytes = vstd::slice::slice_subrange(source, range.start, range.end);
                str_from_utf8(bytes).unwrap()
            },
            Text::String((s, range)) => substring(s.as_str(), range.start, range.end),
            Text::Static(s) => s,
        }
    }

    /// The part of this text at `range`, relative to its start.
    pub fn into_sub_range(self, range: Range<usize>) -> (t: Self)
        requires
            range.start <= range.end,
            match self {
                Text::SourceRange(r) => r.start + range.end <= usize::MAX,
                Text::String((_, r)) => r.start + range.end <= usize::MAX,
                Text::Static(s) => range.end <= utf8(s@).len() && is_char_boundary(
                    utf8(s@),
                    range.start as int,
                ) && is_char_boundary(utf8(s@), range.end as int),
            },
        ensures
            match (self, t) {
                (Text::SourceRange(r), Text::SourceRange(q)) => q.start == r.start + range.start
                    && q.end == (if r.start + range.end < r.end {
                    r.start + range.end
                } else {
                    r.end as int
                }),
                (Text::String((s, r)), Text::String((x, q))) => x == s && q.start == r.start
                    + range.start && q.end == (if r.start + range.end < r.end {
                    r.start + range.end
                } else {
                    r.end as int
                }),
                (Text::Static(s), Text::Static(x)) => utf8(x@) == utf8(s@).subrange(
                    range.start as int,
                    range.end as int,
                ),
                _ => false,
            },
    {
        match self {
            Text::SourceRange(source_range) => Text::SourceRange(index_range(source_range, range)),
            Text::String((s, string_range)) => Text::String((s, index_range(string_range, range))),
            Text::Static(s) => Text::Static(substring(s, range.start, range.end)),
        }
    }
}

impl Text {
    /// The part of this text at `range`, relative to its start, leaving this
    /// text as it is.
    pub fn sub_range(&self, range: Range<usize>) -> (t: Self)
        requires
            range.start <= range.end,
            match *self {
                Text::SourceRange(r) => r.start + range.end <= usize::MAX,
                Text::String((_, r)) => r.start + range.end <= usize::MAX,
                Text::Static(s) => range.end <= utf8(s@).len() && is_char_boundary(
                    utf8(s@),
                    range.start as int,
                ) && is_char_boundary(utf8(s@), range.end as int),
            },
        ensures
            match (*self, t) {
                (Text::SourceRange(r), Text::SourceRange(q)) => q.start == r.start + range.start
                    && q.end == (if r.start + range.end < r.end {
                    r.start + range.end
                } else {
                    r.end as int
                }),
                (Text::String((s, r)), Text::String((x, q))) => x == s && q.start == r.start
                    + range.start && q.end == (if r.start + range.end < r.end {
                    r.start + range.end
                } else {
                    r.end as int
                }),
                (Text::Static(s), Text::Static(x)) => utf8(x@) == utf8(s@).subrange(
                    range.start as int,
                    range.end as int,
                ),
                _ => false,
            },
    {
        self.clone().into_sub_range(range)
    }

    /// The part of this text from byte `start` to its end. (It takes the
    /// start of the range, which is all a range from it holds.)
    pub fn sub_range_from(&self, start: usize) -> (t: Self)
        requires
            start <= self.spec_len(),
            match *self {
                Text::SourceRange(r) => r.start + self.spec_len() <= usize::MAX,
                Text::String((_, r)) => r.start + self.spec_len() <= usize::MAX,
                Text::Static(s) => is_char_boundary(utf8(s@), start as int),
            },
        ensures
            match (*self, t) {
                (Text::SourceRange(r), Text::SourceRange(q)) => q.start == r.start + start && q.end == r.end,
                (Text::String((s, r)), Text::String((x, q))) => x == s && q.start == r.start + start && q.end
                    == r.end,
                (Text::Static(s), Text::Static(x)) => utf8(x@) == utf8(s@).subrange(start as int, utf8(s@).len() as int),
                _ => false,
            },
    {
        proof {
            match *self {
                Text::Static(s) => {
                    encode_utf8_valid_utf8(s@);
                    is_char_boundary_start_end_of_seq(utf8(s@));
                },
                _ => {},
            }
        }
        self.sub_range(start..self.len())
    }
}

impl Clone for Text {
    fn clone(&self) -> (t: Self)
        ensures
            t == *self,
    {
        match self {
            Text::SourceRange(r) => Text::SourceRange(r.start..r.end),
            Text::String((s, r)) => Text::String((Rc::clone(s), r.start..r.end)),
            Text::Static(s) => Text::Static(s),
        }
    }
}

/// The part `range2` of `range1`, cut off at the end of `range1`.
fn index_range(range1: Range<usize>, range2: Range<usize>) -> (r: Range<usize>)
    requires
        range2.start <= range2.end,
        range1.start + range2.end <= usize::MAX,
    ensures
        r.start == range1.start + range2.start,
        r.end == (if range1.start + range2.end < range1.end {
            range1.start + range2.end
        } else {
            range1.end as int
        }),
{
    let start = range1.start + range2.start;
    let end = if range1.start + range2.end < range1.end {
        range1.start + range2.end
    } else {
        range1.end
    };
    start..end
}

/// A fragment of text, with a specified width, and a reference back to the
/// source that produced it.
#[derive(Clone, Debug)]
pub struct Fragment<Source> {
    pub text: Text,
    pub width: usize,
    pub source: Source,
}

/// A segment of styled text, with two separate styles depending on whether
/// any search matches are contained within the text.
#[derive(Debug)]
pub struct PreHighlightingStyledSegment {
    pub attrs: Attrs,
    pub search_match_attrs: Attrs,
    pub content: Text,
}

/// A segment of styled text.
#[derive(Debug)]
pub struct StyledSegment {
    pub attrs: Attrs,
    pub content: Text,
}

/// The byte lengths of the extended grapheme clusters of a text, in order.
pub uninterp spec fn grapheme_lengths(s: Seq<char>) -> Seq<usize>;

/// The sum of the first `k` of `v`.
pub open spec fn prefix_sum(v: Seq<usize>, k: int) -> int
    decreases k,
{
    if k <= 0 || k > v.len() {
        0
    } else {
        prefix_sum(v, k - 1) + v[k - 1]
    }
}

/// `lens` cuts the UTF-8 text of `s` into nonempty pieces at character
/// boundaries.
pub open spec fn cuts(s: Seq<char>, lens: Seq<usize>) -> bool {
    &&& forall|i: int| 0 <= i < lens.len() ==> #[trigger] lens[i] > 0
    &&& prefix_sum(lens, lens.len() as int) == utf8(s).len()
    &&& forall|k: int| 0 <= k <= lens.len() ==> is_char_boundary(utf8(s), #[trigger] prefix_sum(lens, k))
}

/// `UnicodeSegmentation::graphemes` (extended clusters): the byte lengths of
/// the grapheme clusters of `s`, which are consecutive, nonempty slices of `s`
/// that together make up `s`.
#[verifier::external_body]
fn grapheme_byte_lengths(s: &str) -> (v: Vec<usize>)
    ensures
        v@ == grapheme_lengths(s@),
        cuts(s@, v@),
{
    unicode_segmentation::UnicodeSegmentation::graphemes(s, true).map(|g| g.len()).collect()
}

/// The number of terminal columns a text takes, by the Unicode width tables.
pub uninterp spec fn display_width(s: Seq<char>) -> usize;

/// `UnicodeWidthStr::width`: the displayed width of `s` in columns.
#[verifier::external_body]
fn str_width(s: &str) -> (w: usize)
    ensures
        w == display_width(s@),
{
    unicode_width::UnicodeWidthStr::width(s)
}

/// The `k`-th grapheme cluster of `s`.
pub open spec fn grapheme_at(s: Seq<char>, k: int) -> Seq<char> {
    let lens = grapheme_lengths(s);
    decode_utf8(utf8(s).subrange(prefix_sum(lens, k), prefix_sum(lens, k + 1)))
}

/// The width of the `k`-th grapheme cluster of `s`.
pub open spec fn width_at(s: Seq<char>, k: int) -> int {
    display_width(grapheme_at(s, k)) as int
}

/// How many grapheme clusters of `s`, from the `k`-th on, fit in `avail`
/// columns after `space` are used, and the columns they take in all.
pub open spec fn fit_from(s: Seq<char>, avail: int, k: int, space: int) -> (int, int)
    decreases grapheme_lengths(s).len() - k,
{
    if k < 0 || k >= grapheme_lengths(s).len() {
        (k, space)
    } else if space + width_at(s, k) > avail {
        (k, space)
    } else {
        fit_from(s, avail, k + 1, space + width_at(s, k))
    }
}

/// The columns needed to show `s`, from the `k`-th grapheme cluster on, when
/// only its first visible cluster and what follows with no width is shown,
/// and an ellipsis stands for the rest: the columns, and the bytes shown.
pub open spec fn min_show_from(s: Seq<char>, k: int, width: int, bytes: int) -> (int, int)
    decreases grapheme_lengths(s).len() - k,
{
    let lens = grapheme_lengths(s);
    if k < 0 || k >= lens.len() {
        (width, bytes)
    } else if width_at(s, k) > 0 && width > 0 {
        (width, bytes)
    } else {
        min_show_from(s, k + 1, width + width_at(s, k), bytes + lens[k])
    }
}

/// The columns needed to show at least the start of `s`, with an ellipsis
/// for what does not fit (a count that stops at the largest `usize`).
pub open spec fn spec_min_space(s: Seq<char>) -> int {
    let (width, bytes) = min_show_from(s, 0, 0, 0);
    if bytes < utf8(s).len() && width < usize::MAX {
        width + 1
    } else {
        width
    }
}

proof fn lemma_prefix_sum_step(v: Seq<usize>, k: int)
    requires
        0 <= k < v.len(),
    ensures
        prefix_sum(v, k + 1) == prefix_sum(v, k) + v[k],
{
}

proof fn lemma_prefix_sum_bounds(s: Seq<char>, lens: Seq<usize>, k: int)
    requires
        cuts(s, lens),
        0 <= k <= lens.len(),
    ensures
        0 <= prefix_sum(lens, k) <= utf8(s).len(),
{
    encode_utf8_valid_utf8(s);
    assert(is_char_boundary(utf8(s), prefix_sum(lens, k)));
}

/// What a text stands for: a range of the document, a range of a string, or
/// a fixed string.
pub enum TextView {
    Source(Range<usize>),
    Owned(Seq<char>, Range<usize>),
    Fixed(Seq<char>),
}

/// A fragment as the compositor's contract sees it.
pub struct FragmentView<Source> {
    pub text: TextView,
    pub width: usize,
    pub source: Source,
}

impl Text {
    pub open spec fn view_of(self) -> TextView {
        match self {
            Text::SourceRange(r) => TextView::Source(r),
            Text::String((s, r)) => TextView::Owned(s@, r),
            Text::Static(s) => TextView::Fixed(s@),
        }
    }
}

impl<Source> Fragment<Source> {
    pub open spec fn view_of(self) -> FragmentView<Source> {
        FragmentView { text: self.text.view_of(), width: self.width, source: self.source }
    }
}

/// The part `a..b` of a text, relative to its start.
pub open spec fn sub_view(t: TextView, a: int, b: int) -> TextView {
    match t {
        TextView::Source(r) => TextView::Source(
            Range { start: (r.start + a) as usize, end: (if r.start + b < r.end { r.start + b } else { r.end as int }) as usize },
        ),
        TextView::Owned(s, r) => TextView::Owned(
            s,
            Range { start: (r.start + a) as usize, end: (if r.start + b < r.end { r.start + b } else { r.end as int }) as usize },
        ),
        TextView::Fixed(s) => TextView::Fixed(decode_utf8(utf8(s).subrange(a, b))),
    }
}

/// The ellipsis that stands for what could not be shown.
pub open spec fn ellipsis_view() -> TextView {
    TextView::Fixed("…"@)
}

/// The lines with `f` added to the last one.
pub open spec fn add_to_last<Source>(lines: Seq<Seq<FragmentView<Source>>>, f: FragmentView<Source>) -> Seq<Seq<FragmentView<Source>>> {
    lines.update(lines.len() - 1, lines.last().push(f))
}

/// One step of appending the text `t`, whose characters are `cs`, from byte
/// `processed` on, with `remaining` columns left on the last of `lines` out of
/// `width`: the lines, the columns left and the bytes processed after it.
pub open spec fn append_step<Source>(
    lines: Seq<Seq<FragmentView<Source>>>,
    remaining: int,
    processed: int,
    t: TextView,
    cs: Seq<char>,
    width: int,
    source: Source,
) -> (Seq<Seq<FragmentView<Source>>>, int, int) {
    let (lines1, remaining1) = if remaining == 0 {
        (lines.push(Seq::empty()), width)
    } else {
        (lines, remaining)
    };
    let rest = decode_utf8(utf8(cs).subrange(processed, utf8(cs).len() as int));
    let (k, used) = fit_from(rest, remaining1, 0, 0);
    let portion_len = prefix_sum(grapheme_lengths(rest), k);
    if used == 0 {
        if remaining1 < width {
            (lines1.push(Seq::empty()), width, processed)
        } else {
            (
                add_to_last(lines1, FragmentView { text: ellipsis_view(), width: 1, source }),
                remaining1 - 1,
                processed + grapheme_lengths(rest)[0],
            )
        }
    } else {
        (
            add_to_last(
                lines1,
                FragmentView {
                    text: sub_view(t, processed, processed + portion_len),
                    width: used as usize,
                    source,
                },
            ),
            remaining1 - used,
            processed + portion_len,
        )
    }
}


/// A byte offset into the part of `b` after the boundary `p` is a boundary of
/// `b` when it is one of that part.
proof fn lemma_suffix_boundary(b: Seq<u8>, p: int, q: int)
    requires
        valid_utf8(b),
        is_char_boundary(b, p),
        0 <= p <= b.len(),
        0 <= q <= b.len() - p,
        is_char_boundary(b.subrange(p, b.len() as int), q),
    ensures
        is_char_boundary(b, p + q),
{
    let t = b.subrange(p, b.len() as int);
    valid_utf8_split(b, p);
    is_char_boundary_start_end_of_seq(b);
    if q < t.len() {
        is_char_boundary_iff_not_is_continuation_byte(t, q);
        assert(t[q] == b[p + q]);
        is_char_boundary_iff_not_is_continuation_byte(b, p + q);
    }
}

/// The grapheme cluster lengths of `s` cut it at boundaries, each of positive
/// length.
proof fn lemma_grapheme_cut(s: Seq<char>, k: int)
    requires
        cuts(s, grapheme_lengths(s)),
        0 <= k < grapheme_lengths(s).len(),
    ensures
        0 <= prefix_sum(grapheme_lengths(s), k) < prefix_sum(grapheme_lengths(s), k + 1) <= utf8(s).len(),
        is_char_boundary(utf8(s), prefix_sum(grapheme_lengths(s), k)),
        is_char_boundary(utf8(s), prefix_sum(grapheme_lengths(s), k + 1)),
{
    let lens = grapheme_lengths(s);
    lemma_prefix_sum_step(lens, k);
    lemma_prefix_sum_bounds(s, lens, k);
    lemma_prefix_sum_bounds(s, lens, k + 1);
    assert(lens[k] > 0);
}

/// The sum of a run of lengths grows with the run, strictly when the lengths
/// are positive.
proof fn lemma_prefix_sum_strict(v: Seq<usize>, j: int, k: int)
    requires
        0 <= j <= k <= v.len(),
        forall|i: int| 0 <= i < v.len() ==> #[trigger] v[i] > 0,
    ensures
        prefix_sum(v, j) <= prefix_sum(v, k),
        j < k ==> prefix_sum(v, j) < prefix_sum(v, k),
    decreases k - j,
{
    if j < k {
        lemma_prefix_sum_strict(v, j, k - 1);
        lemma_prefix_sum_step(v, k - 1);
    }
}

/// The grapheme cluster that starts at byte `start` of `s` and is `len` bytes
/// long, as a string of its own, is the `k`-th cluster.
proof fn lemma_grapheme_piece(s: Seq<char>, k: int, piece: Seq<char>)
    requires
        cuts(s, grapheme_lengths(s)),
        0 <= k < grapheme_lengths(s).len(),
        utf8(piece) == utf8(s).subrange(
            prefix_sum(grapheme_lengths(s), k),
            prefix_sum(grapheme_lengths(s), k + 1),
        ),
    ensures
        piece == grapheme_at(s, k),
{
    encode_utf8_decode_utf8(piece);
}

/// How far the fitting of clusters reaches: it stays within the clusters and
/// within the available columns.
proof fn lemma_fit_from_bounds(s: Seq<char>, avail: int, k: int, space: int)
    requires
        0 <= k <= grapheme_lengths(s).len(),
        0 <= space <= avail,
    ensures
        k <= fit_from(s, avail, k, space).0 <= grapheme_lengths(s).len(),
        space <= fit_from(s, avail, k, space).1 <= avail,
        fit_from(s, avail, k, space).0 == k ==> fit_from(s, avail, k, space).1 == space,
    decreases grapheme_lengths(s).len() - k,
{
    if k < grapheme_lengths(s).len() && space + width_at(s, k) <= avail {
        lemma_fit_from_bounds(s, avail, k + 1, space + width_at(s, k));
    }
}

/// Fitting clusters into `avail` columns: how many of the clusters of `s`, from
/// the first, fit, and the columns they take.
fn str_prefix_that_fits_in_available_space<'s>(s: &'s str, available_space: usize) -> (r: (
    &'s str,
    usize,
))
    ensures
        ({
            let (k, used) = fit_from(s@, available_space as int, 0, 0);
            &&& r.1 == used
            &&& utf8(r.0@) == utf8(s@).subrange(0, prefix_sum(grapheme_lengths(s@), k))
            &&& 0 <= k <= grapheme_lengths(s@).len()
            &&& is_char_boundary(utf8(s@), prefix_sum(grapheme_lengths(s@), k))
        }),
        cuts(s@, grapheme_lengths(s@)),
{
    let lens = grapheme_byte_lengths(s);
    let ghost glens = grapheme_lengths(s@);
    let s_len = s.as_bytes().len();
    let mut used_bytes: usize = 0;
    let mut used_space: usize = 0;
    let mut i: usize = 0;
    proof {
        encode_utf8_valid_utf8(s@);
        is_char_boundary_start_end_of_seq(utf8(s@));
    }
    while i < lens.len()
        invariant
            lens@ == glens,
            glens == grapheme_lengths(s@),
            cuts(s@, glens),
            0 <= i <= glens.len(),
            used_bytes == prefix_sum(glens, i as int),
            used_space <= available_space,
            is_char_boundary(utf8(s@), used_bytes as int),
            used_bytes <= utf8(s@).len(),
            s_len == utf8(s@).len(),
            fit_from(s@, available_space as int, 0, 0) == fit_from(
                s@,
                available_space as int,
                i as int,
                used_space as int,
            ),
        ensures
            0 <= i <= glens.len(),
            cuts(s@, glens),
            used_bytes == prefix_sum(glens, i as int),
            is_char_boundary(utf8(s@), used_bytes as int),
            used_bytes <= utf8(s@).len(),
            fit_from(s@, available_space as int, 0, 0) == (i as int, used_space as int),
        decreases glens.len() - i,
    {
        proof {
            lemma_grapheme_cut(s@, i as int);
        }
        let next = used_bytes + lens[i];
        let grapheme = substring(s, used_bytes, next);
        let grapheme_width = str_width(grapheme);
        proof {
            lemma_grapheme_piece(s@, i as int, grapheme@);
        }
        if grapheme_width > available_space - used_space {
            break;
        }
        used_bytes = next;
        used_space = used_space + grapheme_width;
        i = i + 1;
    }
    (substring(s, 0, used_bytes), used_space)
}


/// The characters of appending `t`, whose characters are `cs`, from byte
/// `processed` on, with `remaining` columns left on the last of `lines` out of
/// `width`: the lines and the columns left on the last one at the end.
pub open spec fn append_from<Source>(
    lines: Seq<Seq<FragmentView<Source>>>,
    remaining: int,
    processed: int,
    t: TextView,
    cs: Seq<char>,
    width: int,
    source: Source,
) -> (Seq<Seq<FragmentView<Source>>>, int)
    decreases utf8(cs).len() - processed, (if remaining == width {
        0int
    } else {
        1int
    }),
{
    if processed < 0 || processed >= utf8(cs).len() {
        (lines, remaining)
    } else {
        let (lines2, remaining2, processed2) = append_step(
            lines,
            remaining,
            processed,
            t,
            cs,
            width,
            source,
        );
        if processed < processed2 <= utf8(cs).len() {
            append_from(lines2, remaining2, processed2, t, cs, width, source)
        } else if processed2 == processed && remaining2 == width && remaining != width {
            append_from(lines2, remaining2, processed2, t, cs, width, source)
        } else {
            (lines2, remaining2)
        }
    }
}

/// A run of `n` spaces.
pub open spec fn spaces_chars(n: nat) -> Seq<char> {
    decode_utf8(Seq::new(n, |i: int| 32u8))
}

/// How a run of `n` spaces is held: in a part of a fixed string when it is
/// short, else in a string of its own.
pub open spec fn spaces_view(n: usize) -> TextView {
    if n < 1024 {
        TextView::Fixed(spaces_chars(n as nat))
    } else {
        TextView::Owned(spaces_chars(n as nat), 0..n)
    }
}

/// The columns the fragments of a line take.
pub open spec fn line_width<Source>(line: Seq<FragmentView<Source>>) -> int
    decreases line.len(),
{
    if line.len() == 0 {
        0
    } else {
        line_width(line.drop_last()) + line.last().width
    }
}

/// The fragments of a line as the compositor's contract sees them.
pub open spec fn line_view<Source>(line: Seq<Fragment<Source>>) -> Seq<FragmentView<Source>> {
    line.map_values(|f: Fragment<Source>| f.view_of())
}

/// Lays out text into lines of a fixed width, breaking it between grapheme
/// clusters, and keeps track of the space left on the current line and of the
/// space set aside for what must still come on it.
pub struct Compositor<'a, Source> {
    doc_content: &'a [u8],
    doc_width: usize,
    lines: Vec<Vec<Fragment<Source>>>,
    remaining_space_on_current_line: usize,
    reserved_space: Option<usize>,
}


/// Taking columns never lowers the count of columns needed.
proof fn lemma_min_show_grows(s: Seq<char>, k: int, width: int, bytes: int)
    ensures
        min_show_from(s, k, width, bytes).0 >= width,
    decreases grapheme_lengths(s).len() - k,
{
    if 0 <= k < grapheme_lengths(s).len() && !(width_at(s, k) > 0 && width > 0) {
        lemma_min_show_grows(s, k + 1, width + width_at(s, k), bytes + grapheme_lengths(s)[k]);
    }
}

/// When nothing from the `k`-th cluster on takes a column, all those clusters
/// fit in no columns.
proof fn lemma_zero_width_from(s: Seq<char>, k: int, bytes: int)
    requires
        0 <= k <= grapheme_lengths(s).len(),
        min_show_from(s, k, 0, bytes).0 == 0,
    ensures
        fit_from(s, 0, k, 0) == (grapheme_lengths(s).len() as int, 0int),
    decreases grapheme_lengths(s).len() - k,
{
    if k < grapheme_lengths(s).len() {
        lemma_min_show_grows(s, k + 1, width_at(s, k), bytes + grapheme_lengths(s)[k]);
        assert(width_at(s, k) == 0);
        lemma_zero_width_from(s, k + 1, bytes + grapheme_lengths(s)[k]);
    }
}

/// What fits of `s` in `avail` columns when an ellipsis may have to follow:
/// the bytes of `s` kept and the columns they take.
pub open spec fn ellipsis_fit(s: Seq<char>, avail: int) -> (int, int) {
    let lens = grapheme_lengths(s);
    let room = if avail >= 1 {
        avail - 1
    } else {
        0
    };
    let (k, used) = fit_from(s, room, 0, 0);
    let prefix_len = prefix_sum(lens, k);
    if prefix_len == utf8(s).len() {
        (prefix_len, used)
    } else {
        let rest = decode_utf8(utf8(s).subrange(prefix_len, utf8(s).len() as int));
        let (k2, extra) = fit_from(rest, avail - used, 0, 0);
        if prefix_sum(grapheme_lengths(rest), k2) == utf8(s).len() - prefix_len {
            (utf8(s).len() as int, used + extra)
        } else {
            (prefix_len, used)
        }
    }
}

/// The columns what `ellipsis_fit` keeps takes, with the ellipsis when it is
/// needed.
pub open spec fn ellipsis_fit_width(s: Seq<char>, avail: int) -> int {
    let (kept, used) = ellipsis_fit(s, avail);
    if kept < utf8(s).len() {
        used + 1
    } else {
        used
    }
}

/// The fragments showing what fits of `s`, the characters of `t`, in `avail`
/// columns, with an ellipsis after it when it was cut.
pub open spec fn content_fragments<Source>(t: TextView, s: Seq<char>, avail: int, source: Source) -> Seq<FragmentView<Source>> {
    let (kept, used) = ellipsis_fit(s, avail);
    let shown = seq![FragmentView { text: sub_view(t, 0, kept), width: used as usize, source }];
    if kept < utf8(s).len() {
        shown.push(FragmentView { text: ellipsis_view(), width: 1, source })
    } else {
        shown
    }
}

/// A text can be shown between delimiters: its first and last bytes are
/// characters of their own.
pub open spec fn delimitable(bytes: Seq<u8>) -> bool {
    &&& bytes.len() >= 2
    &&& is_char_boundary(bytes, 1)
    &&& is_char_boundary(bytes, bytes.len() - 1)
}

/// `a + b`, stopping at the largest `usize`.
pub open spec fn saturating_sum(a: int, b: int) -> int {
    if a + b > usize::MAX {
        usize::MAX as int
    } else {
        a + b
    }
}

/// The columns needed to show at least the start of a text with the bytes
/// `bytes`, with its delimiters when it has them.
pub open spec fn spec_min_content(bytes: Seq<u8>, delimited: bool) -> int {
    if delimited {
        saturating_sum(2, spec_min_space(decode_utf8(bytes.subrange(1, bytes.len() - 1))))
    } else {
        spec_min_space(decode_utf8(bytes))
    }
}

/// The fragments that show a text, with the characters `bytes` and the view
/// `t`, in `free` columns, its delimiters shown in full when it has them.
pub open spec fn shown_fragments<Source>(t: TextView, bytes: Seq<u8>, delimited: bool, free: int, source: Source) -> Seq<FragmentView<Source>> {
    if delimited {
        let len = bytes.len() as int;
        seq![FragmentView { text: sub_view(t, 0, 1), width: 1, source }] + content_fragments(
            sub_view(t, 1, len - 1),
            decode_utf8(bytes.subrange(1, len - 1)),
            free - 2,
            source,
        ) + seq![FragmentView { text: sub_view(t, len - 1, len), width: 1, source }]
    } else {
        content_fragments(t, decode_utf8(bytes), free, source)
    }
}

/// The columns those fragments take.
pub open spec fn shown_width(bytes: Seq<u8>, delimited: bool, free: int) -> int {
    if delimited {
        2 + ellipsis_fit_width(decode_utf8(bytes.subrange(1, bytes.len() - 1)), free - 2)
    } else {
        ellipsis_fit_width(decode_utf8(bytes), free)
    }
}

/// What `ellipsis_fit` keeps ends on a boundary, and with the ellipsis it
/// takes no more than the columns available when the text needs no more.
proof fn lemma_ellipsis_fit(s: Seq<char>, avail: int)
    requires
        cuts(s, grapheme_lengths(s)),
        0 <= avail,
        avail == 0 ==> spec_min_space(s) == 0,
    ensures
        0 <= ellipsis_fit(s, avail).0 <= utf8(s).len(),
        is_char_boundary(utf8(s), ellipsis_fit(s, avail).0),
        0 <= ellipsis_fit(s, avail).1,
        ellipsis_fit_width(s, avail) <= avail,
{
    let lens = grapheme_lengths(s);
    let room = if avail >= 1 {
        avail - 1
    } else {
        0
    };
    let (k, used) = fit_from(s, room, 0, 0);
    lemma_fit_from_bounds(s, room, 0, 0);
    lemma_prefix_sum_bounds(s, lens, k);
    let prefix_len = prefix_sum(lens, k);
    encode_utf8_valid_utf8(s);
    is_char_boundary_start_end_of_seq(utf8(s));
    if avail == 0 {
        lemma_min_show_grows(s, 0, 0, 0);
        lemma_zero_width_from(s, 0, 0);
        assert(k == lens.len());
    }
    if prefix_len != utf8(s).len() {
        let rest = decode_utf8(utf8(s).subrange(prefix_len, utf8(s).len() as int));
        lemma_fit_from_bounds(rest, avail - used, 0, 0);
    }
}

impl<'a, Source: Copy> Compositor<'a, Source> {
    /// The document that source ranges point into.
    pub closed spec fn content(&self) -> Seq<u8> {
        self.doc_content@
    }

    /// The width of a line.
    pub closed spec fn width(&self) -> int {
        self.doc_width as int
    }

    /// The lines laid out so far; the last one is the current line.
    pub closed spec fn lines_view(&self) -> Seq<Seq<FragmentView<Source>>> {
        self.lines@.map_values(|l: Vec<Fragment<Source>>| line_view(l@))
    }

    /// The columns still free on the current line.
    pub closed spec fn remaining(&self) -> int {
        self.remaining_space_on_current_line as int
    }

    /// The columns set aside on the current line, if any are.
    pub closed spec fn reserved(&self) -> Option<usize> {
        self.reserved_space
    }

    /// There is a current line, it has no more room than a line, and what is
    /// set aside fits in it.
    pub closed spec fn wf(&self) -> bool {
        &&& self.doc_width > 0
        &&& self.lines@.len() >= 1
        &&& self.remaining_space_on_current_line <= self.doc_width
        &&& (self.reserved_space matches Some(r) ==> r <= self.remaining_space_on_current_line)
        &&& line_width(self.lines_view().last()) + self.remaining_space_on_current_line
            == self.doc_width
        &&& forall|i: int|
            0 <= i < self.lines_view().len() ==> #[trigger] line_width(self.lines_view()[i])
                <= self.doc_width
    }

    pub fn new(doc_content: &'a [u8], doc_width: usize) -> (c: Self)
        requires
            doc_width > 0,
        ensures
            c.wf(),
            c.content() == doc_content@,
            c.width() == doc_width,
            c.lines_view() == seq![Seq::<FragmentView<Source>>::empty()],
            c.remaining() == doc_width,
            c.reserved() is None,
    {
        let c = Compositor {
            doc_content,
            doc_width,
            lines: vec![Vec::new()],
            remaining_space_on_current_line: doc_width,
            reserved_space: None,
        };
        assert(c.lines_view() =~= seq![Seq::<FragmentView<Source>>::empty()]) by {
            assert(line_view(c.lines@[0]@) =~= Seq::<FragmentView<Source>>::empty());
        }
        assert(line_width(c.lines_view()[0]) == 0);
        c
    }

    /// The lines that were laid out.
    pub fn finish(self) -> (lines: Vec<Vec<Fragment<Source>>>)
        ensures
            lines@.map_values(|l: Vec<Fragment<Source>>| line_view(l@)) == self.lines_view(),
    {
        self.lines
    }

    /// The lines laid out so far.
    pub fn lines(&self) -> (lines: &Vec<Vec<Fragment<Source>>>)
        ensures
            lines@.map_values(|l: Vec<Fragment<Source>>| line_view(l@)) == self.lines_view(),
    {
        &self.lines
    }

    /// The columns still free on the current line.
    pub fn remaining_space(&self) -> (n: usize)
        ensures
            n == self.remaining(),
    {
        self.remaining_space_on_current_line
    }

    /// The columns set aside on the current line, if any are.
    pub fn reserved_space(&self) -> (r: Option<usize>)
        ensures
            r == self.reserved(),
    {
        self.reserved_space
    }

    fn add_entire_fragment_to_current_line(&mut self, fragment: Fragment<Source>)
        requires
            old(self).wf(),
            fragment.width <= old(self).remaining(),
        ensures
            final(self).lines_view() == add_to_last(old(self).lines_view(), fragment.view_of()),
            final(self).remaining() == old(self).remaining() - fragment.width,
            final(self).content() == old(self).content(),
            final(self).width() == old(self).width(),
            final(self).reserved() == old(self).reserved(),
            final(self).lines_view().len() == old(self).lines_view().len(),
            old(self).reserved() is None ==> final(self).wf(),
            (old(self).reserved() matches Some(r) && r <= old(self).remaining() - fragment.width)
                ==> final(self).wf(),
    {
        self.remaining_space_on_current_line = self.remaining_space_on_current_line
            - fragment.width;
        let ghost f = fragment.view_of();
        let mut last = self.lines.pop().unwrap();
        let ghost last0 = last@;
        last.push(fragment);
        self.lines.push(last);
        proof {
            let old_lines = old(self).lines_view();
            assert(line_view(last@) =~= line_view(last0).push(f));
            assert(self.lines_view() =~= add_to_last(old_lines, f));
            let nl = self.lines_view();
            assert(nl.last().drop_last() =~= old_lines.last());
            assert(line_width(nl.last()) == line_width(old_lines.last()) + f.width);
            assert forall|i: int| 0 <= i < nl.len() implies #[trigger] line_width(nl[i])
                <= self.doc_width by {
                if i < nl.len() - 1 {
                    assert(nl[i] == old_lines[i]);
                }
            }
        }
    }

    fn start_new_line(&mut self)
        requires
            old(self).wf(),
        ensures
            final(self).lines_view() == old(self).lines_view().push(Seq::empty()),
            final(self).remaining() == old(self).width(),
            final(self).content() == old(self).content(),
            final(self).width() == old(self).width(),
            final(self).reserved() == old(self).reserved(),
            old(self).reserved() is None ==> final(self).wf(),
    {
        self.lines.push(Vec::new());
        self.remaining_space_on_current_line = self.doc_width;
        proof {
            assert(line_view(self.lines@.last()@) =~= Seq::<FragmentView<Source>>::empty());
            assert(self.lines_view() =~= old(self).lines_view().push(Seq::empty()));
            let nl = self.lines_view();
            let ol = old(self).lines_view();
            assert(line_width(nl.last()) == 0);
            assert forall|i: int| 0 <= i < nl.len() implies #[trigger] line_width(nl[i])
                <= self.doc_width by {
                if i < nl.len() - 1 {
                    assert(nl[i] == ol[i]);
                }
            }
        }
    }

    fn maybe_start_new_line(&mut self)
        requires
            old(self).wf(),
            old(self).reserved() is None,
        ensures
            final(self).wf(),
            final(self).reserved() is None,
            final(self).content() == old(self).content(),
            final(self).width() == old(self).width(),
            (final(self).lines_view(), final(self).remaining()) == (if old(self).remaining() == 0 {
                (old(self).lines_view().push(Seq::empty()), old(self).width())
            } else {
                (old(self).lines_view(), old(self).remaining())
            }),
            final(self).remaining() > 0,
    {
        if self.remaining_space_on_current_line == 0 {
            self.start_new_line();
        }
    }

    /// One step of laying out `text`, whose characters are `text_str`, from
    /// byte `processed` on.
    fn append_step_exec(&mut self, text: &Text, text_str: &str, processed: usize, source: Source) -> (p: usize)
        requires
            old(self).wf(),
            old(self).reserved() is None,
            text.readable(old(self).content()),
            utf8(text_str@) == text.spec_bytes(old(self).content()),
            processed < utf8(text_str@).len(),
            is_char_boundary(utf8(text_str@), processed as int),
        ensures
            final(self).wf(),
            final(self).reserved() is None,
            final(self).content() == old(self).content(),
            final(self).width() == old(self).width(),
            (final(self).lines_view(), final(self).remaining(), p as int) == append_step(
                old(self).lines_view(),
                old(self).remaining(),
                processed as int,
                text.view_of(),
                text_str@,
                old(self).width(),
                source,
            ),
            is_char_boundary(utf8(text_str@), p as int),
            (processed < p <= utf8(text_str@).len()) || (p == processed && final(self).remaining()
                == old(self).width() && old(self).remaining() != old(self).width()),
    {
        let ghost cs = text_str@;
        let ghost bytes = utf8(cs);
        let ghost lines0 = self.lines_view();
        let ghost remaining0 = self.remaining();
        let text_len = text_str.as_bytes().len();
        proof {
            encode_utf8_valid_utf8(cs);
            is_char_boundary_start_end_of_seq(bytes);
        }
        let remaining_s = substring(text_str, processed, text_len);
        let ghost rest = remaining_s@;
        proof {
            encode_utf8_decode_utf8(rest);
            assert(rest == decode_utf8(bytes.subrange(processed as int, bytes.len() as int)));
        }
        self.maybe_start_new_line();
        let ghost lines1 = self.lines_view();
        let ghost remaining1 = self.remaining();
        let (portion, used_width) = str_prefix_that_fits_in_available_space(
            remaining_s,
            self.remaining_space_on_current_line,
        );
        let ghost glens = grapheme_lengths(rest);
        let ghost k = fit_from(rest, remaining1, 0, 0).0;
        proof {
            lemma_fit_from_bounds(rest, remaining1, 0, 0);
            encode_utf8_valid_utf8(rest);
            lemma_prefix_sum_bounds(rest, glens, glens.len() as int);
            if glens.len() == 0 {
                assert(prefix_sum(glens, 0) == 0);
            }
            assert(glens.len() > 0);
        }
        if used_width == 0 {
            if self.remaining_space_on_current_line < self.doc_width {
                self.start_new_line();
                return processed;
            } else {
                self.add_entire_fragment_to_current_line(
                    Fragment { text: Text::ellipsis(), width: 1, source },
                );
                let lens = grapheme_byte_lengths(remaining_s);
                proof {
                    lemma_grapheme_cut(rest, 0);
                    assert(prefix_sum(glens, 0) == 0);
                    lemma_suffix_boundary(bytes, processed as int, glens[0] as int);
                }
                return processed + lens[0];
            }
        }
        let portion_len = portion.as_bytes().len();
        proof {
            assert(k > 0);
            lemma_prefix_sum_strict(glens, 1, k);
            lemma_grapheme_cut(rest, 0);
            lemma_suffix_boundary(bytes, processed as int, portion_len as int);
            assert(portion_len == prefix_sum(glens, k));
        }
        let end = processed + portion_len;
        let piece = text.clone().into_sub_range(processed..end);
        proof {
            if let Text::Static(x) = piece {
                encode_utf8_decode_utf8(x@);
            }
            assert(piece.view_of() == sub_view(text.view_of(), processed as int, end as int));
        }
        self.add_entire_fragment_to_current_line(
            Fragment { text: piece, width: used_width, source },
        );
        end
    }


    /// Lays out `text` from the current line on, starting new lines as they
    /// fill, breaking it between grapheme clusters, and putting an ellipsis in
    /// place of a cluster wider than a whole line.
    pub fn append_text(&mut self, text: Text, source: Source)
        requires
            old(self).wf(),
            old(self).reserved() is None,
            text.readable(old(self).content()),
        ensures
            final(self).wf(),
            final(self).reserved() is None,
            final(self).content() == old(self).content(),
            final(self).width() == old(self).width(),
            (final(self).lines_view(), final(self).remaining()) == append_from(
                old(self).lines_view(),
                old(self).remaining(),
                0,
                text.view_of(),
                decode_utf8(text.spec_bytes(old(self).content())),
                old(self).width(),
                source,
            ),
    {
        let mut processed: usize = 0;
        let text_str = text.as_str(self.doc_content);
        let text_len = text_str.as_bytes().len();
        let ghost cs = text_str@;
        let ghost tv = text.view_of();
        let ghost lines0 = self.lines_view();
        let ghost remaining0 = self.remaining();
        proof {
            encode_utf8_decode_utf8(cs);
            encode_utf8_valid_utf8(cs);
            is_char_boundary_start_end_of_seq(utf8(cs));
        }
        while processed < text_len
            invariant
                self.wf(),
                self.reserved() is None,
                self.content() == old(self).content(),
                self.width() == old(self).width(),
                text.readable(self.content()),
                utf8(text_str@) == text.spec_bytes(self.content()),
                cs == text_str@,
                tv == text.view_of(),
                text_len == utf8(cs).len(),
                processed <= text_len,
                is_char_boundary(utf8(cs), processed as int),
                append_from(lines0, remaining0, 0, tv, cs, self.width(), source) == append_from(
                    self.lines_view(),
                    self.remaining(),
                    processed as int,
                    tv,
                    cs,
                    self.width(),
                    source,
                ),
            decreases text_len - processed, (if self.remaining() == self.width() {
                0int
            } else {
                1int
            }),
        {
            processed = self.append_step_exec(&text, text_str, processed, source);
        }
    }

    /// Lays out `n` spaces, as `append_text` does.
    pub fn append_spaces(&mut self, n: usize, source: Source)
        requires
            old(self).wf(),
            old(self).reserved() is None,
        ensures
            final(self).wf(),
            final(self).reserved() is None,
            final(self).content() == old(self).content(),
            final(self).width() == old(self).width(),
            (final(self).lines_view(), final(self).remaining()) == append_from(
                old(self).lines_view(),
                old(self).remaining(),
                0,
                spaces_view(n),
                spaces_chars(n as nat),
                old(self).width(),
                source,
            ),
    {
        let spaces = Text::spaces(n);
        proof {
            assert(spaces.readable(self.content()));
            assert(spaces.spec_bytes(self.content()) == spaces.spec_bytes(Seq::empty()));
        }
        self.append_text(spaces, source);
    }


    /// Sets aside `space_to_reserve` columns of the current line, if it has
    /// that many left.
    pub fn start_reserving_space(&mut self, space_to_reserve: usize) -> (r: bool)
        requires
            old(self).wf(),
            old(self).reserved() is None,
        ensures
            final(self).wf(),
            r == (old(self).remaining() >= space_to_reserve),
            final(self).reserved() == (if r {
                Some(space_to_reserve)
            } else {
                None
            }),
            final(self).lines_view() == old(self).lines_view(),
            final(self).remaining() == old(self).remaining(),
            final(self).content() == old(self).content(),
            final(self).width() == old(self).width(),
    {
        if self.remaining_space_on_current_line >= space_to_reserve {
            self.reserved_space = Some(space_to_reserve);
            true
        } else {
            false
        }
    }

    /// Sets aside `extra_space` more columns, if the current line has that
    /// many that are not set aside yet.
    pub fn reserve_more_space(&mut self, extra_space: usize) -> (r: bool)
        requires
            old(self).wf(),
            old(self).reserved() is Some,
        ensures
            final(self).wf(),
            r == (old(self).remaining() - old(self).reserved()->0 >= extra_space),
            final(self).reserved() == (if r {
                Some((old(self).reserved()->0 + extra_space) as usize)
            } else {
                old(self).reserved()
            }),
            final(self).lines_view() == old(self).lines_view(),
            final(self).remaining() == old(self).remaining(),
            final(self).content() == old(self).content(),
            final(self).width() == old(self).width(),
    {
        let reserved_space = self.reserved_space.unwrap();
        let unreserved_space = self.remaining_space_on_current_line - reserved_space;
        if unreserved_space < extra_space {
            false
        } else {
            self.reserved_space = Some(reserved_space + extra_space);
            true
        }
    }

    /// Gives back `space_to_reclaim` of the columns set aside.
    pub fn give_back_reserved_space(&mut self, space_to_reclaim: usize)
        requires
            old(self).wf(),
            old(self).reserved() matches Some(r) && space_to_reclaim <= r,
        ensures
            final(self).wf(),
            final(self).reserved() == Some((old(self).reserved()->0 - space_to_reclaim) as usize),
            final(self).lines_view() == old(self).lines_view(),
            final(self).remaining() == old(self).remaining(),
            final(self).content() == old(self).content(),
            final(self).width() == old(self).width(),
    {
        let reserved_space = self.reserved_space.unwrap();
        self.reserved_space = Some(reserved_space - space_to_reclaim);
    }

    /// The columns needed to show at least the first visible grapheme cluster
    /// of `s`, with the clusters of no width that follow it, and an ellipsis
    /// for the rest when there is any.
    pub fn min_space_needed_to_show_str(s: &str) -> (n: usize)
        ensures
            n == spec_min_space(s@),
    {
        let lens = grapheme_byte_lengths(s);
        let ghost glens = grapheme_lengths(s@);
        let s_len = s.as_bytes().len();
        let mut displayed_width: usize = 0;
        let mut displayed_bytes: usize = 0;
        let mut i: usize = 0;
        proof {
            encode_utf8_valid_utf8(s@);
            is_char_boundary_start_end_of_seq(utf8(s@));
        }
        while i < lens.len()
            invariant
                lens@ == glens,
                glens == grapheme_lengths(s@),
                cuts(s@, glens),
                0 <= i <= glens.len(),
                displayed_bytes == prefix_sum(glens, i as int),
                is_char_boundary(utf8(s@), displayed_bytes as int),
                displayed_bytes <= utf8(s@).len(),
                s_len == utf8(s@).len(),
                min_show_from(s@, 0, 0, 0) == min_show_from(
                    s@,
                    i as int,
                    displayed_width as int,
                    displayed_bytes as int,
                ),
            ensures
                min_show_from(s@, 0, 0, 0) == (displayed_width as int, displayed_bytes as int),
                s_len == utf8(s@).len(),
            decreases glens.len() - i,
        {
            proof {
                lemma_grapheme_cut(s@, i as int);
            }
            let next = displayed_bytes + lens[i];
            let grapheme = substring(s, displayed_bytes, next);
            let grapheme_width = str_width(grapheme);
            proof {
                lemma_grapheme_piece(s@, i as int, grapheme@);
            }
            if grapheme_width > 0 && displayed_width > 0 {
                break;
            }
            displayed_width = displayed_width + grapheme_width;
            displayed_bytes = next;
            i = i + 1;
        }
        if displayed_bytes < s_len {
            displayed_width = displayed_width.saturating_add(1);
        }
        displayed_width
    }


    /// The part of `s` to show in `available_space` columns when an ellipsis
    /// may have to follow it, and the columns it takes.
    fn take_prefix_that_fits_in_available_space_with_ellipsis<'s>(s: &'s str, available_space: usize) -> (r: (&'s str, usize))
        ensures
            utf8(r.0@) == utf8(s@).subrange(0, ellipsis_fit(s@, available_space as int).0),
            r.1 == ellipsis_fit(s@, available_space as int).1,
            cuts(s@, grapheme_lengths(s@)),
    {
        let available_space_without_ellipsis = available_space.saturating_sub(1);
        let (prefix, used_space) = str_prefix_that_fits_in_available_space(
            s,
            available_space_without_ellipsis,
        );
        let ghost room = available_space_without_ellipsis as int;
        let ghost k = fit_from(s@, room, 0, 0).0;
        proof {
            assert(room == (if available_space >= 1 {
                available_space - 1
            } else {
                0
            }));
            lemma_fit_from_bounds(s@, room, 0, 0);
            lemma_prefix_sum_bounds(s@, grapheme_lengths(s@), k);
        }
        let s_len = s.as_bytes().len();
        let prefix_len = prefix.as_bytes().len();
        assert(prefix_len == prefix_sum(grapheme_lengths(s@), k));
        if prefix_len == s_len {
            return (prefix, used_space);
        }
        let remainder = substring(s, prefix_len, s_len);
        proof {
            encode_utf8_decode_utf8(remainder@);
            encode_utf8_valid_utf8(s@);
            is_char_boundary_start_end_of_seq(utf8(s@));
        }
        let actual_remaining_space = available_space - used_space;
        let (extra, extra_space) = str_prefix_that_fits_in_available_space(
            remainder,
            actual_remaining_space,
        );
        let ghost k2 = fit_from(remainder@, actual_remaining_space as int, 0, 0).0;
        proof {
            lemma_fit_from_bounds(remainder@, actual_remaining_space as int, 0, 0);
            lemma_prefix_sum_bounds(remainder@, grapheme_lengths(remainder@), k2);
            assert(remainder@ == decode_utf8(
                utf8(s@).subrange(prefix_len as int, utf8(s@).len() as int),
            ));
            assert(utf8(extra@).len() == prefix_sum(grapheme_lengths(remainder@), k2));
        }
        if extra.as_bytes().len() == remainder.as_bytes().len() {
            proof {
                assert(utf8(s@).subrange(0, utf8(s@).len() as int) =~= utf8(s@));
            }
            return (s, used_space + extra_space);
        }
        (prefix, used_space)
    }

    /// The columns needed to show at least the start of `text`, with its
    /// delimiters when it has them.
    pub fn min_space_needed_to_show_actual_content(&self, text: &Text, delimited: bool) -> (n: usize)
        requires
            self.wf(),
            text.readable(self.content()),
            delimited ==> delimitable(text.spec_bytes(self.content())),
        ensures
            n == spec_min_content(text.spec_bytes(self.content()), delimited),
    {
        let text_str = text.as_str(self.doc_content);
        proof {
            encode_utf8_decode_utf8(text_str@);
        }
        if delimited {
            let len = text_str.as_bytes().len();
            let inner = substring(text_str, 1, len - 1);
            proof {
                encode_utf8_decode_utf8(inner@);
            }
            Self::min_space_needed_to_show_str(inner).saturating_add(2)
        } else {
            Self::min_space_needed_to_show_str(text_str)
        }
    }


    /// Adds what fits of `text` in `avail` columns to the current line,
    /// followed by an ellipsis when not all of it fits.
    fn append_fitting(&mut self, text: Text, avail: usize, source: Source)
        requires
            old(self).wf(),
            text.readable(old(self).content()),
            avail == 0 ==> spec_min_space(decode_utf8(text.spec_bytes(old(self).content()))) == 0,
            avail + (match old(self).reserved() {
                Some(r) => r as int,
                None => 0int,
            }) <= old(self).remaining(),
        ensures
            final(self).wf(),
            final(self).content() == old(self).content(),
            final(self).width() == old(self).width(),
            final(self).reserved() == old(self).reserved(),
            final(self).lines_view() == old(self).lines_view().update(
                old(self).lines_view().len() - 1,
                old(self).lines_view().last() + content_fragments(
                    text.view_of(),
                    decode_utf8(text.spec_bytes(old(self).content())),
                    avail as int,
                    source,
                ),
            ),
            final(self).remaining() == old(self).remaining() - ellipsis_fit_width(
                decode_utf8(text.spec_bytes(old(self).content())),
                avail as int,
            ),
            0 <= ellipsis_fit_width(decode_utf8(text.spec_bytes(old(self).content())), avail as int)
                <= avail,
    {
        let text_str = text.as_str(self.doc_content);
        let text_len = text_str.as_bytes().len();
        let ghost cs = text_str@;
        let ghost lines0 = self.lines_view();
        let ghost tv = text.view_of();
        proof {
            encode_utf8_decode_utf8(cs);
        }
        let (prefix, used_space) = Self::take_prefix_that_fits_in_available_space_with_ellipsis(
            text_str,
            avail,
        );
        proof {
            lemma_ellipsis_fit(cs, avail as int);
        }
        let prefix_len = prefix.as_bytes().len();
        let piece = text.into_sub_range(0..prefix_len);
        proof {
            if let Text::Static(x) = piece {
                encode_utf8_decode_utf8(x@);
            }
            assert(piece.view_of() == sub_view(tv, 0, prefix_len as int));
        }
        let ghost shown = FragmentView { text: sub_view(tv, 0, prefix_len as int), width: used_space, source };
        self.add_entire_fragment_to_current_line(
            Fragment { text: piece, width: used_space, source },
        );
        let ghost lines1 = self.lines_view();
        proof {
            assert(lines0.last() + seq![shown] =~= lines0.last().push(shown));
            assert(lines1 =~= lines0.update(lines0.len() - 1, lines0.last() + seq![shown]));
        }
        if prefix_len != text_len {
            self.add_entire_fragment_to_current_line(
                Fragment { text: Text::ellipsis(), width: 1, source },
            );
            proof {
                let e = FragmentView { text: ellipsis_view(), width: 1, source };
                assert(lines1.last() == lines0.last().push(shown));
                assert(lines0.last() + seq![shown].push(e) =~= lines0.last().push(shown).push(e));
                assert(self.lines_view() =~= lines0.update(
                    lines0.len() - 1,
                    lines0.last() + seq![shown].push(e),
                ));
            }
        }
    }

    /// Shows `text` on the current line in the columns not set aside, and
    /// those of the set-aside ones that `reserved_space_to_reclaim` gives
    /// back, when at least its start fits there: with an ellipsis after what
    /// fits when not all of it does, and with its delimiters in full when it
    /// has them. Says whether it was shown; when it was not, nothing changes.
    pub fn try_append_text(
        &mut self,
        text: Text,
        delimited: bool,
        source: Source,
        reserved_space_to_reclaim: usize,
    ) -> (r: bool)
        requires
            old(self).wf(),
            old(self).reserved() matches Some(res) && reserved_space_to_reclaim <= res,
            text.readable(old(self).content()),
            delimited ==> delimitable(text.spec_bytes(old(self).content())),
        ensures
            final(self).wf(),
            final(self).content() == old(self).content(),
            final(self).width() == old(self).width(),
            ({
                let res = old(self).reserved()->0;
                let free = old(self).remaining() - res + reserved_space_to_reclaim;
                let bytes = text.spec_bytes(old(self).content());
                let lines = old(self).lines_view();
                &&& r == (spec_min_content(bytes, delimited) <= free)
                &&& r ==> final(self).lines_view() == lines.update(
                    lines.len() - 1,
                    lines.last() + shown_fragments(text.view_of(), bytes, delimited, free, source),
                )
                &&& r ==> final(self).remaining() == old(self).remaining() - shown_width(
                    bytes,
                    delimited,
                    free,
                )
                &&& r ==> final(self).reserved() == Some((res - reserved_space_to_reclaim) as usize)
                &&& !r ==> final(self).lines_view() == lines
                &&& !r ==> final(self).remaining() == old(self).remaining()
                &&& !r ==> final(self).reserved() == old(self).reserved()
            }),
    {
        let reserved_space = self.reserved_space.unwrap();
        let remaining_free_space = self.remaining_space_on_current_line - reserved_space;
        let free_space_for_content = remaining_free_space + reserved_space_to_reclaim;
        if self.min_space_needed_to_show_actual_content(&text, delimited) > free_space_for_content {
            return false;
        }
        let ghost bytes = text.spec_bytes(self.content());
        let ghost tv = text.view_of();
        let ghost lines0 = self.lines_view();
        self.reserved_space = Some(reserved_space - reserved_space_to_reclaim);
        if delimited {
            let len = text.len();
            proof {
                assert(len == bytes.len());
                lemma_min_show_grows(decode_utf8(bytes.subrange(1, len - 1)), 0, 0, 0);
                assert(free_space_for_content >= 2);
            }
            let ghost gtext = text;
            proof {
                let b = self.content();
                match gtext {
                    Text::SourceRange(rg) => {
                        assert(rg.start + len <= rg.end);
                        lemma_sub_valid(b.subrange(rg.start as int, rg.end as int), 1, len - 1);
                        assert(b.subrange(rg.start + 1, rg.end - 1) =~= bytes.subrange(1, len - 1));
                    },
                    Text::String((st, rg)) => {
                        let u = utf8(st@);
                        assert(rg.start + len <= rg.end);
                        encode_utf8_valid_utf8(st@);
                        lemma_sub_valid(u, rg.start as int, rg.end as int);
                        lemma_sub_boundary(u, rg.start as int, rg.end as int, 1);
                        lemma_sub_boundary(u, rg.start as int, rg.end as int, len - 1);
                        assert(u.subrange(rg.start + 1, rg.end - 1) =~= bytes.subrange(1, len - 1));
                    },
                    Text::Static(st) => {
                        encode_utf8_valid_utf8(st@);
                        is_char_boundary_start_end_of_seq(utf8(st@));
                    },
                }
            }
            let copy1 = text.clone();
            let copy2 = text.clone();
            assert(copy1 == text && copy2 == text);

            let open_delimiter = copy1.into_sub_range(0..1);
            let close_delimiter = copy2.into_sub_range((len - 1)..len);
            let inner = text.into_sub_range(1..(len - 1));
            proof {
                if let Text::Static(x) = open_delimiter {
                    encode_utf8_decode_utf8(x@);
                }
                if let Text::Static(x) = close_delimiter {
                    encode_utf8_decode_utf8(x@);
                }
                if let Text::Static(x) = inner {
                    encode_utf8_decode_utf8(x@);
                    encode_utf8_valid_utf8(x@);
                }
                assert(inner.spec_bytes(self.content()) =~= bytes.subrange(1, len - 1));
                assert(open_delimiter.view_of() == sub_view(tv, 0, 1));
                assert(close_delimiter.view_of() == sub_view(tv, len - 1, len as int));
                assert(inner.view_of() == sub_view(tv, 1, len - 1));
            }
            self.add_entire_fragment_to_current_line(
                Fragment { text: open_delimiter, width: 1, source },
            );
            let ghost lines1 = self.lines_view();
            self.append_fitting(inner, free_space_for_content - 2, source);
            let ghost lines2 = self.lines_view();
            self.add_entire_fragment_to_current_line(
                Fragment { text: close_delimiter, width: 1, source },
            );
            proof {
                let o = FragmentView { text: sub_view(tv, 0, 1), width: 1usize, source };
                let c0 = FragmentView { text: sub_view(tv, len - 1, len as int), width: 1usize, source };
                let mid0 = content_fragments(
                    sub_view(tv, 1, len - 1),
                    decode_utf8(bytes.subrange(1, len - 1)),
                    free_space_for_content - 2,
                    source,
                );
                assert(lines1 =~= lines0.update(lines0.len() - 1, lines0.last().push(o)));
                assert(lines2 =~= lines0.update(lines0.len() - 1, lines0.last().push(o) + mid0));
                assert(lines0.last() + (seq![o] + mid0 + seq![c0]) =~= (lines0.last().push(o) + mid0).push(c0));
                let c = FragmentView { text: sub_view(tv, len - 1, len as int), width: 1usize, source };
                let mid = content_fragments(
                    sub_view(tv, 1, len - 1),
                    decode_utf8(bytes.subrange(1, len - 1)),
                    free_space_for_content - 2,
                    source,
                );
                assert(self.lines_view() =~= lines0.update(
                    lines0.len() - 1,
                    lines0.last() + (seq![o] + mid + seq![c]),
                ));
            }
        } else {
            self.append_fitting(text, free_space_for_content, source);
        }
        true
    }


    /// Adds `text` to the current line in columns that were set aside for
    /// it, taking them from what is set aside.
    pub fn append_reserved_text(&mut self, text: Text, source: Source)
        requires
            old(self).wf(),
            text.readable(old(self).content()),
            old(self).reserved() matches Some(r) && display_width(
                decode_utf8(text.spec_bytes(old(self).content())),
            ) <= r,
        ensures
            ({
                let w = display_width(decode_utf8(text.spec_bytes(old(self).content())));
                &&& final(self).wf()
                &&& final(self).content() == old(self).content()
                &&& final(self).width() == old(self).width()
                &&& final(self).lines_view() == add_to_last(
                    old(self).lines_view(),
                    FragmentView { text: text.view_of(), width: w, source },
                )
                &&& final(self).remaining() == old(self).remaining() - w
                &&& final(self).reserved() == Some((old(self).reserved()->0 - w) as usize)
            }),
    {
        let reserved_space = self.reserved_space.unwrap();
        let text_str = text.as_str(self.doc_content);
        proof {
            encode_utf8_decode_utf8(text_str@);
        }
        let width = str_width(text_str);
        self.reserved_space = Some(reserved_space - width);
        self.add_entire_fragment_to_current_line(Fragment { text, width, source });
    }

    /// Adds `text` to the current line in columns set aside for it, as
    /// `append_reserved_text` does, when as many are set aside as it takes;
    /// says whether it did, and changes nothing when it did not.
    pub fn try_append_reserved_text(&mut self, text: Text, source: Source) -> (added: bool)
        requires
            old(self).wf(),
            old(self).reserved() is Some,
            text.readable(old(self).content()),
        ensures
            ({
                let w = display_width(decode_utf8(text.spec_bytes(old(self).content())));
                &&& final(self).wf()
                &&& final(self).content() == old(self).content()
                &&& final(self).width() == old(self).width()
                &&& added == (w <= old(self).reserved()->0)
                &&& added ==> final(self).lines_view() == add_to_last(
                    old(self).lines_view(),
                    FragmentView { text: text.view_of(), width: w, source },
                )
                &&& added ==> final(self).remaining() == old(self).remaining() - w
                &&& added ==> final(self).reserved() == Some((old(self).reserved()->0 - w) as usize)
                &&& !added ==> final(self).lines_view() == old(self).lines_view()
                &&& !added ==> final(self).remaining() == old(self).remaining()
                &&& !added ==> final(self).reserved() == old(self).reserved()
            }),
    {
        let reserved_space = self.reserved_space.unwrap();
        let width = {
            let text_str = text.as_str(self.doc_content);
            proof {
                encode_utf8_decode_utf8(text_str@);
            }
            str_width(text_str)
        };
        if width <= reserved_space {
            self.append_reserved_text(text, source);
            true
        } else {
            false
        }
    }

}


/// A search match overlaps a nonempty range when it starts before the range
/// ends and either ends after it starts or is an empty match within it.
pub open spec fn overlaps(m: Range<usize>, r: Range<usize>) -> bool {
    &&& m.start < r.end
    &&& (m.end > r.start || (m.start == m.end && m.start >= r.start))
}

/// The first of the matches from index `i` on that overlaps `r`.
pub open spec fn first_overlapping(ms: Seq<Range<usize>>, r: Range<usize>, i: int) -> Option<int>
    decreases ms.len() - i,
{
    if i < 0 || i >= ms.len() {
        None
    } else if overlaps(ms[i], r) {
        Some(i)
    } else {
        first_overlapping(ms, r, i + 1)
    }
}

/// The parts of `pos..end`, each marked highlighted or not, going through the
/// matches from index `i` on: up to each overlapping match, the part before
/// it, then the part within it when that part is not empty.
pub open spec fn separated_parts(ms: Seq<Range<usize>>, i: int, pos: int, end: int) -> Seq<(int, int, bool)>
    decreases ms.len() - i,
{
    if pos >= end || i < 0 {
        Seq::empty()
    } else {
        match first_overlapping(ms, Range { start: pos as usize, end: end as usize }, i) {
            None => seq![(pos, end, false)],
            Some(j) => {
                let m = ms[j];
                let before = if pos < m.start {
                    seq![(pos, m.start as int, false)]
                } else {
                    Seq::empty()
                };
                let start = if pos < m.start {
                    m.start as int
                } else {
                    pos
                };
                let hi = if end < m.end {
                    end
                } else {
                    m.end as int
                };
                let within = if hi > start {
                    seq![(start, hi, true)]
                } else {
                    Seq::empty()
                };
                if i < j + 1 <= ms.len() {
                    before + within + separated_parts(ms, j + 1, hi, end)
                } else {
                    before + within
                }
            },
        }
    }
}

proof fn lemma_first_overlapping_range(ms: Seq<Range<usize>>, r: Range<usize>, i: int)
    requires
        0 <= i,
    ensures
        first_overlapping(ms, r, i) matches Some(j) ==> i <= j < ms.len() && overlaps(ms[j], r),
        first_overlapping(ms, r, i) is None ==> forall|j: int|
            i <= j < ms.len() ==> !overlaps(#[trigger] ms[j], r),
    decreases ms.len() - i,
{
    if 0 <= i < ms.len() && !overlaps(ms[i], r) {
        lemma_first_overlapping_range(ms, r, i + 1);
    }
}

/// The index of the first of `ms`, from index `i` on, that overlaps `r`.
fn index_of_first_elem_overlapping(ms: &[Range<usize>], r: &Range<usize>, i: usize) -> (found: Option<usize>)
    ensures
        found == (match first_overlapping(ms@, *r, i as int) {
            Some(j) => Some(j as usize),
            None => None::<usize>,
        }),
{
    let mut j = i;
    while j < ms.len()
        invariant
            i <= j,
            first_overlapping(ms@, *r, i as int) == first_overlapping(ms@, *r, j as int),
        decreases ms.len() - j,
    {
        if ms[j].start < r.end && (ms[j].end > r.start || (ms[j].start == ms[j].end && ms[j].start >= r.start)) {
            return Some(j);
        }
        j = j + 1;
    }
    None
}

/// Splits `range` into the parts within search matches and those outside
/// them, in order; the matches are taken in order, each at most once.
pub fn separate_highlighted_and_unhighlighted_ranges(range: &Range<usize>, search_matches: &[Range<usize>]) -> (parts: Vec<(Range<usize>, bool)>)
    ensures
        parts@.map_values(|p: (Range<usize>, bool)| (p.0.start as int, p.0.end as int, p.1)) == separated_parts(
            search_matches@,
            0,
            range.start as int,
            range.end as int,
        ),
{
    let mut pos = range.start;
    let end = range.end;
    let mut next: usize = 0;
    let mut parts: Vec<(Range<usize>, bool)> = Vec::new();
    while pos < end
        invariant
            end == range.end,
            next <= search_matches@.len(),
            separated_parts(search_matches@, 0, range.start as int, end as int) == parts@.map_values(
                |p: (Range<usize>, bool)| (p.0.start as int, p.0.end as int, p.1),
            ) + separated_parts(search_matches@, next as int, pos as int, end as int),
        decreases search_matches@.len() - next, end - pos,
    {
        let ghost before = parts@.map_values(|p: (Range<usize>, bool)| (p.0.start as int, p.0.end as int, p.1));
        let remaining_range = pos..end;
        proof {
            lemma_first_overlapping_range(search_matches@, remaining_range, next as int);
        }
        match index_of_first_elem_overlapping(search_matches, &remaining_range, next) {
            None => {
                parts.push((pos..end, false));
                proof {
                    assert(parts@.map_values(|p: (Range<usize>, bool)| (p.0.start as int, p.0.end as int, p.1)) =~= before + seq![(pos as int, end as int, false)]);
                    assert(separated_parts(search_matches@, next as int, end as int, end as int) =~= Seq::empty());
                }
                pos = end;
            },
            Some(index) => {
                let m_start = search_matches[index].start;
                let m_end = search_matches[index].end;
                let ghost pos0 = pos;
                if pos < m_start {
                    parts.push((pos..m_start, false));
                    pos = m_start;
                }
                let ghost mid = parts@.map_values(|p: (Range<usize>, bool)| (p.0.start as int, p.0.end as int, p.1));
                let hi = if end < m_end {
                    end
                } else {
                    m_end
                };
                if hi > pos {
                    parts.push((pos..hi, true));
                }
                proof {
                    let b = if pos0 < m_start {
                        seq![(pos0 as int, m_start as int, false)]
                    } else {
                        Seq::empty()
                    };
                    let w = if hi > pos {
                        seq![(pos as int, hi as int, true)]
                    } else {
                        Seq::empty()
                    };
                    assert(mid =~= before + b);
                    assert(parts@.map_values(|p: (Range<usize>, bool)| (p.0.start as int, p.0.end as int, p.1)) =~= before + b + w);
                    assert(before + b + w + separated_parts(search_matches@, index + 1, hi as int, end as int)
                        =~= before + (b + w + separated_parts(search_matches@, index + 1, hi as int, end as int)));
                }
                pos = hi;
                next = index + 1;
            },
        }
    }
    proof {
        assert(separated_parts(search_matches@, next as int, pos as int, end as int) =~= Seq::empty());
        assert(parts@.map_values(|p: (Range<usize>, bool)| (p.0.start as int, p.0.end as int, p.1)) + Seq::<(int, int, bool)>::empty()
            =~= parts@.map_values(|p: (Range<usize>, bool)| (p.0.start as int, p.0.end as int, p.1)));
    }
    parts
}


impl PreHighlightingStyledSegment {
    /// Gives the parts of a range of the document within search matches the
    /// search-match style, and the rest the usual style; other text keeps the
    /// usual style whole.
    pub fn highlight_search_matches(self, search_matches: &[Range<usize>]) -> (r: Vec<StyledSegment>)
        ensures
            match self.content {
                Text::SourceRange(range) => {
                    let parts = separated_parts(
                        search_matches@,
                        0,
                        range.start as int,
                        range.end as int,
                    );
                    &&& r@.len() == parts.len()
                    &&& forall|i: int|
                        0 <= i < parts.len() ==> (#[trigger] r@[i]).attrs == (if parts[i].2 {
                            self.search_match_attrs
                        } else {
                            self.attrs
                        }) && r@[i].content == Text::SourceRange(
                            Range { start: parts[i].0 as usize, end: parts[i].1 as usize },
                        )
                },
                _ => r@.len() == 1 && r@[0].attrs == self.attrs && r@[0].content == self.content,
            },
    {
        let PreHighlightingStyledSegment { attrs, search_match_attrs, content } = self;
        match content {
            Text::SourceRange(range) => {
                let parts = separate_highlighted_and_unhighlighted_ranges(&range, search_matches);
                let ghost ps = separated_parts(
                    search_matches@,
                    0,
                    range.start as int,
                    range.end as int,
                );
                let mut out: Vec<StyledSegment> = Vec::new();
                let mut i: usize = 0;
                while i < parts.len()
                    invariant
                        i <= parts@.len(),
                        parts@.map_values(
                            |p: (Range<usize>, bool)| (p.0.start as int, p.0.end as int, p.1),
                        ) == ps,
                        out@.len() == i,
                        forall|k: int|
                            0 <= k < i ==> (#[trigger] out@[k]).attrs == (if ps[k].2 {
                                search_match_attrs
                            } else {
                                attrs
                            }) && out@[k].content == Text::SourceRange(
                                Range { start: ps[k].0 as usize, end: ps[k].1 as usize },
                            ),
                    decreases parts@.len() - i,
                {
                    let (part, highlighted) = (parts[i].0.start..parts[i].0.end, parts[i].1);
                    let a = if highlighted {
                        search_match_attrs
                    } else {
                        attrs
                    };
                    assert(ps[i as int] == (part.start as int, part.end as int, highlighted));
                    out.push(StyledSegment { attrs: a, content: Text::SourceRange(part) });
                    i = i + 1;
                }
                out
            },
            _ => {
                let mut out: Vec<StyledSegment> = Vec::new();
                out.push(StyledSegment { attrs, content });
                out
            },
        }
    }
}


/// No line that a compositor lays out is wider than the line width, and the
/// current line takes exactly what is not left of it.
pub proof fn law_lines_fit_width<'a, Source: Copy>(c: &Compositor<'a, Source>)
    requires
        c.wf(),
    ensures
        forall|i: int|
            0 <= i < c.lines_view().len() ==> #[trigger] line_width(c.lines_view()[i]) <= c.width(),
        line_width(c.lines_view().last()) + c.remaining() == c.width(),
{
}


/// `parts` cover `pos..end` in order, each nonempty and starting where the one
/// before ended.
pub open spec fn tiles(parts: Seq<(int, int, bool)>, pos: int, end: int) -> bool
    decreases parts.len(),
{
    if parts.len() == 0 {
        pos == end
    } else {
        &&& parts[0].0 == pos
        &&& parts[0].0 < parts[0].1
        &&& tiles(parts.drop_first(), parts[0].1, end)
    }
}

/// Every highlighted part lies within one of the matches.
pub open spec fn highlighted_within(parts: Seq<(int, int, bool)>, ms: Seq<Range<usize>>) -> bool {
    forall|k: int|
        0 <= k < parts.len() && (#[trigger] parts[k]).2 ==> exists|j: int|
            0 <= j < ms.len() && ms[j].start <= parts[k].0 && parts[k].1 <= ms[j].end
}

proof fn lemma_tiles_prefix(a: Seq<(int, int, bool)>, b: Seq<(int, int, bool)>, pos: int, mid: int, end: int)
    requires
        tiles(a, pos, mid),
        tiles(b, mid, end),
    ensures
        tiles(a + b, pos, end),
    decreases a.len(),
{
    if a.len() > 0 {
        lemma_tiles_prefix(a.drop_first(), b, a[0].1, mid, end);
        assert((a + b).drop_first() =~= a.drop_first() + b);
    } else {
        assert(a + b =~= b);
    }
}

proof fn lemma_separated_parts(ms: Seq<Range<usize>>, i: int, pos: int, end: int)
    requires
        0 <= i,
        0 <= pos <= end <= usize::MAX,
        forall|j: int| 0 <= j < ms.len() ==> (#[trigger] ms[j]).start <= ms[j].end,
    ensures
        tiles(separated_parts(ms, i, pos, end), pos, end),
        highlighted_within(separated_parts(ms, i, pos, end), ms),
    decreases ms.len() - i,
{
    let parts = separated_parts(ms, i, pos, end);
    if pos < end {
        let r = Range { start: pos as usize, end: end as usize };
        lemma_first_overlapping_range(ms, r, i);
        match first_overlapping(ms, r, i) {
            None => {
                assert(tiles(parts.drop_first(), end, end));
            },
            Some(j) => {
                let m = ms[j];
                let start = if pos < m.start {
                    m.start as int
                } else {
                    pos
                };
                let hi = if end < m.end {
                    end
                } else {
                    m.end as int
                };
                let before = if pos < m.start {
                    seq![(pos, m.start as int, false)]
                } else {
                    Seq::empty()
                };
                let within = if hi > start {
                    seq![(start, hi, true)]
                } else {
                    Seq::empty()
                };
                let rest = separated_parts(ms, j + 1, hi, end);
                lemma_separated_parts(ms, j + 1, hi, end);
                assert(m.start <= m.end);
                assert(overlaps(m, r));
                assert(hi >= start);
                assert(tiles(before, pos, start)) by {
                    reveal_with_fuel(tiles, 2);
                    if pos < m.start {
                        assert(before.drop_first() =~= Seq::<(int, int, bool)>::empty());
                    }
                }
                assert(tiles(within, start, hi)) by {
                    reveal_with_fuel(tiles, 2);
                    if hi > start {
                        assert(within.drop_first() =~= Seq::<(int, int, bool)>::empty());
                    }
                }
                lemma_tiles_prefix(within, rest, start, hi, end);
                lemma_tiles_prefix(before, within + rest, pos, start, end);
                assert(parts == before + within + rest);
                assert(before + within + rest =~= before + (within + rest));
                assert forall|k: int|
                    0 <= k < parts.len() && (#[trigger] parts[k]).2 implies exists|jj: int|
                        0 <= jj < ms.len() && ms[jj].start <= parts[k].0 && parts[k].1
                            <= ms[jj].end by {
                    if k < before.len() {
                    } else if k < before.len() + within.len() {
                        assert(parts[k] == (start, hi, true));
                    } else {
                        assert(parts[k] == rest[k - before.len() - within.len()]);
                    }
                }
            },
        }
    }
}

/// The parts that `separate_highlighted_and_unhighlighted_ranges` gives cover
/// the range in order, none of them empty, and each highlighted part lies
/// within a search match.
pub proof fn law_separated_parts_cover_range(search_matches: Seq<Range<usize>>, range: Range<usize>)
    requires
        range.start <= range.end,
        forall|j: int| 0 <= j < search_matches.len() ==> (#[trigger] search_matches[j]).start
            <= search_matches[j].end,
    ensures
        tiles(
            separated_parts(search_matches, 0, range.start as int, range.end as int),
            range.start as int,
            range.end as int,
        ),
        highlighted_within(
            separated_parts(search_matches, 0, range.start as int, range.end as int),
            search_matches,
        ),
{
    lemma_separated_parts(search_matches, 0, range.start as int, range.end as int);
}

} // verus!
