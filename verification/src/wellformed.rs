//! What the parser keeps true of what it has built: every row points only at
//! rows that exist, its texts lie on character boundaries of the pretty
//! printed text, containers still open form a stack, and every container that
//! was closed is paired with its closing row. A whole parse thus yields a
//! well-formed flattened document.

use vstd::prelude::*;
use vstd::utf8::*;
use crate::flatjson::{range_in, delimited_range_in, OptionIndex, Value};
use crate::jsonparser::{
    ParseState, emit, primitive, new_row, with_end, close_container, create_row, at, skip_ws,
    lemma_skip_ws, lemma_skip_blanks, lemma_token_ascii, parse_value, open_container,
    container_items, separator, member_start, object_key, after_child, link_child, closing_token,
    with_first_child, top_level_items, spec_parse, initial_state,
};
use crate::jsontokenizer::{JsonToken, spec_next_token};
use crate::flatjson::{ContainerType, Row, FlatJson};
use crate::text::{lemma_sub_valid, lemma_ascii_boundaries};

verus! {

/// Bytes below 128 are valid UTF-8 by themselves.
pub proof fn lemma_ascii_valid(bs: Seq<u8>)
    requires
        forall|i: int| 0 <= i < bs.len() ==> bs[i] < 128,
    ensures
        valid_utf8(bs),
{
    let cs = Seq::new(bs.len(), |i: int| bs[i] as char);
    assert forall|i: int| 0 <= i < cs.len() implies '\0' <= #[trigger] cs[i] <= '\u{7f}' by {
        assert(cs[i] == bs[i] as char);
    }
    assert(is_ascii_chars(cs));
    is_ascii_chars_encode_utf8(cs);
    assert(encode_utf8(cs) =~= bs);
    encode_utf8_valid_utf8(cs);
}

/// A boundary of `a` stays one when valid text is appended.
pub proof fn lemma_boundary_extend(a: Seq<u8>, c: Seq<u8>, i: int)
    requires
        valid_utf8(a),
        valid_utf8(c),
        0 <= i <= a.len(),
        is_char_boundary(a, i),
    ensures
        valid_utf8(a + c),
        is_char_boundary(a + c, i),
{
    valid_utf8_concat(a, c);
    let ac = a + c;
    is_char_boundary_start_end_of_seq(ac);
    if i < a.len() {
        is_char_boundary_iff_not_is_continuation_byte(a, i);
        is_char_boundary_iff_not_is_continuation_byte(ac, i);
        assert(ac[i] == a[i]);
    } else if c.len() > 0 {
        is_char_boundary_start_end_of_seq(c);
        is_char_boundary_iff_not_is_continuation_byte(c, 0);
        is_char_boundary_iff_not_is_continuation_byte(ac, i);
        assert(ac[i] == c[0]);
    } else {
        assert(ac =~= a);
    }
}

/// A boundary of appended valid text is one of the whole.
pub proof fn lemma_boundary_in_piece(a: Seq<u8>, c: Seq<u8>, j: int)
    requires
        valid_utf8(a),
        valid_utf8(c),
        0 <= j <= c.len(),
        is_char_boundary(c, j),
    ensures
        valid_utf8(a + c),
        is_char_boundary(a + c, a.len() + j),
{
    valid_utf8_concat(a, c);
    let ac = a + c;
    is_char_boundary_start_end_of_seq(ac);
    if j < c.len() {
        is_char_boundary_iff_not_is_continuation_byte(c, j);
        is_char_boundary_iff_not_is_continuation_byte(ac, a.len() + j);
        assert(ac[a.len() + j] == c[j]);
    }
}

/// Ranges within `a` stay within it when valid text is appended.
pub proof fn lemma_range_extend(a: Seq<u8>, c: Seq<u8>, r: std::ops::Range<usize>)
    requires
        valid_utf8(a),
        valid_utf8(c),
        range_in(a, r),
    ensures
        range_in(a + c, r),
        delimited_range_in(a, r) ==> delimited_range_in(a + c, r),
{
    lemma_boundary_extend(a, c, r.start as int);
    lemma_boundary_extend(a, c, r.end as int);
    if delimited_range_in(a, r) {
        lemma_boundary_extend(a, c, r.start + 1);
        lemma_boundary_extend(a, c, r.end - 1);
    }
}

/// The container opened at row `i` was closed: it is paired with its closing
/// row, as the well-formedness of a document asks.
pub open spec fn closed_sound(s: ParseState, i: int) -> bool {
    let n = s.rows.len();
    let r = s.rows[i];
    match r.value {
        Value::OpenContainer { container_type, collapsed, first_child, close_index } => {
            &&& i < close_index < n
            &&& s.rows[close_index as int].value is CloseContainer
            &&& s.rows[close_index as int].value.spec_pair() == OptionIndex::Index(i as usize)
            &&& s.rows[close_index as int].value.spec_container_type() == Some(container_type)
            &&& s.rows[close_index as int].value.spec_collapsed() == collapsed
            &&& s.rows[close_index as int].depth == r.depth
            &&& forall|j: int| i < j < close_index ==> #[trigger] s.rows[j].depth > r.depth
        },
        _ => true,
    }
}

/// Row `i` points only at rows that exist, its texts lie on boundaries of the
/// pretty printed text, and its container is either still open or closed.
pub open spec fn row_sound(s: ParseState, i: int) -> bool {
    let n = s.rows.len();
    let r = s.rows[i];
    &&& match r.parent {
        OptionIndex::Index(p) => p < i && s.rows[p as int].value is OpenContainer && r.depth == s.rows[p as int].depth + 1,
        OptionIndex::Nil => r.depth == 0,
    }
    &&& match r.prev_sibling {
        OptionIndex::Index(p) => p < n,
        OptionIndex::Nil => true,
    }
    &&& match r.next_sibling {
        OptionIndex::Index(p) => p < n,
        OptionIndex::Nil => true,
    }
    &&& range_in(s.text, r.range)
    &&& r.range.start < r.range.end
    &&& (r.value is String ==> delimited_range_in(s.text, r.range))
    &&& match r.key_range {
        Some(k) => delimited_range_in(s.text, k),
        None => true,
    }
    &&& match r.value {
        Value::OpenContainer { collapsed, first_child, .. } => {
            &&& first_child < n
            &&& !collapsed
            &&& (s.parents.contains(i as usize) || closed_sound(s, i))
        },
        Value::CloseContainer { open_index, last_child, collapsed, .. } => {
            &&& open_index < i
            &&& last_child < n
            &&& !collapsed
            &&& s.rows[open_index as int].value is OpenContainer
            &&& s.rows[open_index as int].value.spec_pair() == OptionIndex::Index(i as usize)
            &&& !(s.rows[i - 1].value is OpenContainer)
        },
        _ => true,
    }
}

/// The containers still open form a stack: rows that exist, in increasing
/// order, each at the depth of its place on the stack and not yet paired, with
/// every later row deeper; the last row opens a container only when it is the
/// top of the stack.
pub open spec fn stack_sound(s: ParseState) -> bool {
    let n = s.rows.len();
    &&& s.parents.len() <= n
    &&& forall|k: int|
        0 <= k < s.parents.len() ==> (#[trigger] s.parents[k]) < n && s.rows[s.parents[k] as int].value is OpenContainer
            && s.rows[s.parents[k] as int].value.spec_pair() == OptionIndex::Index(0)
            && s.rows[s.parents[k] as int].depth == k
    &&& forall|k1: int, k2: int|
        0 <= k1 < k2 < s.parents.len() ==> #[trigger] s.parents[k1] < #[trigger] s.parents[k2]
    &&& forall|k: int, j: int|
        #![trigger s.parents[k], s.rows[j]]
        0 <= k < s.parents.len() && s.parents[k] < j < n ==> s.rows[j].depth > k
    &&& (n > 0 && s.rows[n - 1].value is OpenContainer ==> s.parents.len() > 0 && s.parents.last()
        == n - 1)
}

/// What the parser keeps true at each step over the input `b`.
pub open spec fn sound(b: Seq<u8>, s: ParseState) -> bool {
    &&& sound_core(b, s)
    &&& deepest_reached(s)
}

/// The deepest nesting counted is that of some row (or no nesting at all).
pub open spec fn deepest_reached(s: ParseState) -> bool {
    s.max_depth == 0 || exists|i: int| 0 <= i < s.rows.len() && #[trigger] s.rows[i].depth == s.max_depth
}

/// What the parser keeps true at each step, but for whether the deepest
/// nesting counted was reached: true also just after a value began, when
/// the nesting was counted and its row not yet made.
pub open spec fn sound_core(b: Seq<u8>, s: ParseState) -> bool {
    &&& b.len() <= usize::MAX / 4
    &&& valid_utf8(s.text)
    &&& s.rows.len() <= s.pos <= b.len()
    &&& s.text.len() <= 3 * s.pos + 1
    &&& stack_sound(s)
    &&& forall|i: int| 0 <= i < s.rows.len() ==> #[trigger] row_sound(s, i)
    &&& starts_increase(s.rows)
    &&& depths_within(s)
}

/// No row is deeper than the deepest nesting counted, and the containers
/// still open are at most one deeper than that.
pub open spec fn depths_within(s: ParseState) -> bool {
    &&& forall|i: int| 0 <= i < s.rows.len() ==> #[trigger] s.rows[i].depth <= s.max_depth
    &&& s.parents.len() <= s.max_depth + 1
}

/// Each row starts after the rows before it.
pub open spec fn starts_increase(rows: Seq<Row>) -> bool {
    forall|i: int, j: int| 0 <= i < j < rows.len() ==> #[trigger] rows[i].range.start < #[trigger] rows[j].range.start
}

/// Moving on in the input keeps a state sound.
pub proof fn lemma_at_sound(b: Seq<u8>, s: ParseState, p: int)
    requires
        sound(b, s),
        s.pos <= p <= b.len(),
    ensures
        sound(b, at(s, p)),
{
    lemma_moved_sound(b, s, at(s, p));
}

/// A state that only moved on in the input (and may count a deeper nesting)
/// stays sound.
pub proof fn lemma_moved_sound(b: Seq<u8>, s: ParseState, s2: ParseState)
    requires
        sound(b, s),
        s2.rows == s.rows,
        s2.text == s.text,
        s2.parents == s.parents,
        s2.max_depth >= s.max_depth,
        s.pos <= s2.pos <= b.len(),
    ensures
        sound_core(b, s2),
        s2.max_depth == s.max_depth ==> sound(b, s2),
{
    assert forall|i: int| 0 <= i < s2.rows.len() implies #[trigger] row_sound(s2, i) by {
        assert(row_sound(s, i));
        if s.rows[i].value is OpenContainer && !s.parents.contains(i as usize) {
            assert(closed_sound(s, i));
        }
    }
}

/// Appending valid text keeps a state sound.
pub proof fn lemma_emit_sound(b: Seq<u8>, s: ParseState, piece: Seq<u8>)
    requires
        sound(b, s),
        valid_utf8(piece),
        s.text.len() + piece.len() <= 3 * s.pos + 1,
    ensures
        sound(b, crate::jsonparser::emit(s, piece)),
{
    let s2 = crate::jsonparser::emit(s, piece);
    lemma_boundary_extend(s.text, piece, 0);
    assert forall|i: int| 0 <= i < s2.rows.len() implies #[trigger] row_sound(s2, i) by {
        assert(row_sound(s, i));
        let r = s.rows[i];
        lemma_range_extend(s.text, piece, r.range);
        if let Some(k) = r.key_range {
            lemma_range_extend(s.text, piece, k);
        }
        if r.value is OpenContainer && !s.parents.contains(i as usize) {
            assert(closed_sound(s, i));
            assert(closed_sound(s2, i));
        }
    }
}


/// In a sound state every row starts before the end of the text.
pub proof fn lemma_starts_below_text(b: Seq<u8>, s: ParseState)
    requires
        sound_core(b, s),
    ensures
        forall|i: int| 0 <= i < s.rows.len() ==> #[trigger] s.rows[i].range.start < s.text.len(),
{
    assert forall|i: int| 0 <= i < s.rows.len() implies #[trigger] s.rows[i].range.start < s.text.len() by {
        assert(row_sound(s, i));
    }
}

/// Rows with the same starts as rows whose starts increase, followed by one
/// row that starts at or after `bound`, which every earlier row starts
/// before, start in increasing order.
pub proof fn lemma_starts_after(rows: Seq<Row>, rows2: Seq<Row>, bound: int)
    requires
        starts_increase(rows),
        rows2.len() == rows.len() || rows2.len() == rows.len() + 1,
        forall|i: int| 0 <= i < rows.len() ==> #[trigger] rows2[i].range.start == rows[i].range.start,
        forall|i: int| 0 <= i < rows.len() ==> #[trigger] rows[i].range.start < bound,
        rows2.len() == rows.len() + 1 ==> rows2[rows.len() as int].range.start >= bound,
    ensures
        starts_increase(rows2),
{
    assert forall|i: int, j: int| 0 <= i < j < rows2.len() implies #[trigger] rows2[i].range.start
        < #[trigger] rows2[j].range.start by {
        assert(rows2[i].range.start == rows[i].range.start);
        if j < rows.len() {
            assert(rows2[j].range.start == rows[j].range.start);
        }
    }
}

/// Appending a row that opens no container, together with valid text, keeps
/// a state sound when the row itself is sound.
#[verifier::spinoff_prover]
#[verifier::rlimit(60)]
pub proof fn lemma_push_row_sound(b: Seq<u8>, s: ParseState, s2: ParseState, piece: Seq<u8>)
    requires
        sound_core(b, s),
        deepest_reached(s) || s.max_depth == s.parents.len(),
        valid_utf8(piece),
        s2.rows.len() == s.rows.len() + 1,
        s2.rows.subrange(0, s.rows.len() as int) == s.rows,
        s2.text == s.text + piece,
        s2.parents == s.parents,
        s2.max_depth == s.max_depth,
        s.parents.len() <= s.max_depth,
        s.rows.len() + 1 <= s2.pos <= b.len(),
        s2.text.len() <= 3 * s2.pos + 1,
        !(s2.rows.last().value is OpenContainer),
        s2.rows.last().depth == s.parents.len(),
        s2.rows.last().range.start >= s.text.len(),
        row_sound(s2, s.rows.len() as int),
    ensures
        sound(b, s2),
{
    let n = s.rows.len() as int;
    lemma_starts_below_text(b, s);
    assert forall|i: int| 0 <= i < n implies #[trigger] s2.rows[i].range.start == s.rows[i].range.start by {
        assert(s2.rows.subrange(0, n)[i] == s2.rows[i]);
    }
    lemma_starts_after(s.rows, s2.rows, s.text.len() as int);
    lemma_boundary_extend(s.text, piece, 0);
    assert forall|i: int| 0 <= i < n implies s2.rows[i] == s.rows[i] by {
        assert(s2.rows.subrange(0, n)[i] == s2.rows[i]);
    }
    assert forall|i: int| 0 <= i < s2.rows.len() implies #[trigger] row_sound(s2, i) by {
        if i < n {
            assert(row_sound(s, i));
            let r = s.rows[i];
            lemma_range_extend(s.text, piece, r.range);
            if let Some(k) = r.key_range {
                lemma_range_extend(s.text, piece, k);
            }
            if let Value::OpenContainer { close_index, .. } = r.value {
                if !s.parents.contains(i as usize) {
                    assert(closed_sound(s, i));
                    assert forall|j: int| i < j < close_index implies #[trigger] s2.rows[j].depth
                        > r.depth by {
                        assert(s.rows[j].depth > r.depth);
                    }
                    assert(closed_sound(s2, i));
                }
            }
            if let Value::CloseContainer { open_index, .. } = r.value {
                assert(s2.rows[open_index as int] == s.rows[open_index as int]);
                assert(s2.rows[i - 1] == s.rows[i - 1]);
            }
            if let OptionIndex::Index(p) = r.parent {
                assert(s2.rows[p as int] == s.rows[p as int]);
            }
        }
    }
    assert forall|k: int, j: int|
        #![trigger s2.parents[k], s2.rows[j]]
        0 <= k < s2.parents.len() && s2.parents[k] < j < s2.rows.len() implies s2.rows[j].depth
            > k by {
        if j < n {
            assert(s.rows[j].depth > k);
        }
    }
    assert forall|k: int| 0 <= k < s2.parents.len() implies (#[trigger] s2.parents[k]) < s2.rows.len()
        && s2.rows[s2.parents[k] as int].value is OpenContainer && s2.rows[s2.parents[k] as int].value.spec_pair()
        == OptionIndex::Index(0) && s2.rows[s2.parents[k] as int].depth == k by {
        assert(s2.rows[s.parents[k] as int] == s.rows[s.parents[k] as int]);
    }
}

/// A primitive value read from a token that starts and ends with an ASCII
/// byte keeps a state sound: its row is appended, and its text copied.
pub proof fn lemma_primitive_sound(b: Seq<u8>, s: ParseState, value: Value, ts: int, te: int)
    requires
        sound_core(b, s),
        deepest_reached(s) || s.max_depth == s.parents.len(),
        s.parents.len() <= s.max_depth,
        valid_utf8(b),
        s.pos <= ts < te <= b.len(),
        b[ts] < 128,
        b[te - 1] < 128,
        value is Null || value is Boolean || value is Number || value is String,
        value is String ==> ts + 2 <= te,
    ensures
        ({
            let (s2, i) = primitive(b, s, value, ts, te);
            &&& sound(b, s2)
            &&& i == s.rows.len()
            &&& s2.rows.len() == s.rows.len() + 1
            &&& s2.rows.subrange(0, s.rows.len() as int) == s.rows
            &&& s2.parents == s.parents
            &&& s2.pos == te
            &&& s2.text == s.text + b.subrange(ts, te)
            &&& s2.text.len() <= 3 * s2.pos
            &&& extends(s.text, s2.text)
        }),
{
    let (s2, i) = primitive(b, s, value, ts, te);
    let piece = b.subrange(ts, te);
    lemma_ascii_boundaries(b, ts);
    lemma_ascii_boundaries(b, te - 1);
    lemma_sub_valid(b, ts, te);
    is_char_boundary_start_end_of_seq(piece);
    let n = s.rows.len() as int;
    assert(s2.rows =~= s.rows.push(with_end(new_row(s, value), s.text.len() + (te - ts))));
    assert(s2.rows.subrange(0, n) =~= s.rows);
    assert(s2.text == s.text + piece);
    let r = s2.rows[n];
    lemma_boundary_in_piece(s.text, piece, 0);
    lemma_boundary_in_piece(s.text, piece, piece.len() as int);
    if value is String {
        assert(piece[0] == b[ts]);
        assert(piece[piece.len() - 1] == b[te - 1]);
        lemma_ascii_boundaries(piece, 0);
        lemma_ascii_boundaries(piece, piece.len() - 1);
        lemma_boundary_in_piece(s.text, piece, 1);
        lemma_boundary_in_piece(s.text, piece, piece.len() - 1);
    }
    if let OptionIndex::Index(p) = r.parent {
        assert(s.parents.len() > 0);
        assert(s.parents[s.parents.len() - 1] == s.parents.last());
        assert(s2.rows[p as int] == s.rows[p as int]);
    }
    assert(row_sound(s2, n));
    lemma_push_row_sound(b, s, s2, piece);
    lemma_extends_emit(s.text, piece);
}


/// The stack without its top still has every other container on it.
proof fn lemma_drop_top(parents: Seq<usize>, i: usize)
    requires
        parents.len() > 0,
        forall|k1: int, k2: int| 0 <= k1 < k2 < parents.len() ==> #[trigger] parents[k1] < #[trigger] parents[k2],
    ensures
        parents.contains(i) && i != parents.last() ==> parents.drop_last().contains(i),
        !parents.drop_last().contains(parents.last()),
        forall|k: int| 0 <= k < parents.len() - 1 ==> #[trigger] parents[k] < parents.last(),
{
    if parents.contains(i) && i != parents.last() {
        let k = choose|k: int| 0 <= k < parents.len() && parents[k] == i;
        assert(k < parents.len() - 1);
        assert(parents.drop_last()[k] == i);
    }
    assert forall|k: int| 0 <= k < parents.len() - 1 implies #[trigger] parents[k] < parents.last() by {
        assert(parents[k] < parents[parents.len() - 1]);
    }
    if parents.drop_last().contains(parents.last()) {
        let k = choose|k: int| 0 <= k < parents.drop_last().len() && parents.drop_last()[k] == parents.last();
        assert(parents[k] < parents[parents.len() - 1]);
    }
}

/// The bracket that closes a container of type `ct`.
pub open spec fn closing_byte(ct: ContainerType) -> u8 {
    if ct == ContainerType::Array {
        93
    } else {
        125
    }
}

/// Closing the container on top of the stack keeps a state sound: an empty
/// one becomes an empty value, another is paired with a new closing row.
#[verifier::spinoff_prover]
#[verifier::rlimit(60)]
pub proof fn lemma_close_sound(b: Seq<u8>, s: ParseState, ct: ContainerType, open: int, last: OptionIndex, n: int)
    requires
        sound(b, s),
        s.text.len() + 2 <= 3 * s.pos,
        s.rows.len() < s.pos,
        s.parents.len() > 0,
        s.parents.last() == open,
        s.rows[open].value.spec_container_type() == Some(ct),
        n >= 0,
        n == 0 ==> s.rows.len() == open + 1 && s.text.len() == s.rows[open].range.start + 1,
        n > 0 ==> s.rows.len() > open + 1,
        n > 0 ==> (last matches OptionIndex::Index(l) && l < s.rows.len()),
    ensures
        ({
            let s2 = close_container(s, ct, open, last, n);
            &&& sound(b, s2)
            &&& s2.parents == s.parents.drop_last()
            &&& s2.rows.len() >= s.rows.len()
            &&& s2.pos == s.pos
            &&& s2.text.len() <= 3 * s2.pos
            &&& s2.text.subrange(0, s.text.len() as int) == s.text
            &&& extends(s.text, s2.text)
            &&& forall|i: int| 0 <= i < s.rows.len() && i != open ==> #[trigger] s2.rows[i] == s.rows[i]
        }),
{
    let s2 = close_container(s, ct, open, last, n);
    lemma_starts_below_text(b, s);
    lemma_close_starts(s, ct, open, last, n);
    lemma_ascii_valid(seq![closing_byte(ct)]);
    lemma_ascii_valid(seq![32u8]);
    if n == 0 {
        lemma_extends_emit(s.text, seq![closing_byte(ct)]);
        assert(s2.text == s.text + seq![closing_byte(ct)]);
    } else {
        let sp: Seq<u8> = if ct == ContainerType::Array { Seq::empty() } else { seq![32u8] };
        lemma_ascii_valid(sp + seq![closing_byte(ct)]);
        lemma_extends_emit(s.text, sp + seq![closing_byte(ct)]);
        assert(s2.text =~= s.text + (sp + seq![closing_byte(ct)]));
    }
    let nr = s.rows.len() as int;
    let L = s.parents.len() as int;
    let closing = seq![closing_byte(ct)];
    lemma_ascii_valid(closing);
    lemma_ascii_valid(seq![32u8]);
    lemma_drop_top(s.parents, 0);
    assert(s.parents[L - 1] == open);
    assert(row_sound(s, open));
    let ro = s.rows[open];
    assert(ro.value is OpenContainer);
    assert(ro.depth == L - 1);
    assert(ro.value.spec_pair() == OptionIndex::Index(0));
    if n == 0 {
        let empty = if ct == ContainerType::Array { Value::EmptyArray } else { Value::EmptyObject };
        let r2 = Row { value: empty, ..with_end(ro, ro.range.start + 2) };
        assert(s2.rows == s.rows.update(open, r2));
        assert(s2.text == s.text + closing);
        lemma_boundary_extend(s.text, closing, 0);
        lemma_boundary_extend(s.text, closing, ro.range.start as int);
        is_char_boundary_start_end_of_seq(s2.text);
        assert(s2.text.subrange(0, s.text.len() as int) =~= s.text);
        assert forall|i: int| 0 <= i < s2.rows.len() implies #[trigger] row_sound(s2, i) by {
            assert(row_sound(s, i));
            let r = s.rows[i];
            if i != open {
                lemma_range_extend(s.text, closing, r.range);
                if let Some(k) = r.key_range {
                    lemma_range_extend(s.text, closing, k);
                }
                if let Value::OpenContainer { close_index, .. } = r.value {
                    if s.parents.contains(i as usize) {
                        lemma_drop_top(s.parents, i as usize);
                    } else {
                        assert(closed_sound(s, i));
                        assert(close_index != open);
                        assert forall|j: int| i < j < close_index implies #[trigger] s2.rows[j].depth
                            > r.depth by {
                            assert(s.rows[j].depth > r.depth);
                        }
                        assert(closed_sound(s2, i));
                    }
                }
                if let Value::CloseContainer { open_index, .. } = r.value {
                    assert(open_index != open);
                }
            } else {
                if let Some(k) = r.key_range {
                    lemma_range_extend(s.text, closing, k);
                }
            }
        }
        assert forall|k: int| 0 <= k < s2.parents.len() implies (#[trigger] s2.parents[k]) < s2.rows.len()
            && s2.rows[s2.parents[k] as int].value is OpenContainer && s2.rows[s2.parents[k] as int].value.spec_pair()
            == OptionIndex::Index(0) && s2.rows[s2.parents[k] as int].depth == k by {
            assert(s2.parents[k] == s.parents[k]);
            assert(s.parents[k] < open);
        }
        assert forall|k: int, j: int|
            #![trigger s2.parents[k], s2.rows[j]]
            0 <= k < s2.parents.len() && s2.parents[k] < j < s2.rows.len() implies s2.rows[j].depth
                > k by {
            assert(s2.parents[k] == s.parents[k]);
            assert(s.rows[j].depth > k);
        }
    } else {
        let sp: Seq<u8> = if ct == ContainerType::Array { Seq::empty() } else { seq![32u8] };
        let piece = sp + closing;
        lemma_ascii_valid(piece);
        let pre = s.text + sp;
        let c = nr;
        let l = last->Index_0;
        let parent_c = if L - 1 == 0 { OptionIndex::Nil } else { OptionIndex::Index(s.parents[L - 2]) };
        let crow = new_row(ParseState { parents: s.parents.drop_last(), text: pre, ..s }, Value::CloseContainer {
            container_type: ct,
            collapsed: false,
            last_child: l,
            open_index: open as usize,
        });
        let ro2 = Row {
            value: crate::jsonparser::with_close_index(ro.value, c as usize),
            ..with_end(ro, pre.len() + 1int)
        };
        assert(s2.text =~= s.text + piece);
        assert(s2.rows =~= s.rows.update(open, ro2).push(crow));
        assert(s2.text.subrange(0, s.text.len() as int) =~= s.text);
        lemma_boundary_extend(s.text, piece, 0);
        is_char_boundary_start_end_of_seq(piece);
        assert(piece[sp.len() as int] == closing_byte(ct));
        lemma_ascii_boundaries(piece, sp.len() as int);
        lemma_boundary_in_piece(s.text, piece, sp.len() as int);
        lemma_boundary_in_piece(s.text, piece, piece.len() as int);
        lemma_boundary_extend(s.text, piece, ro.range.start as int);
        assert(s2.text.len() == pre.len() + 1);
        assert(stack_sound(s));
        if s.rows[nr - 1].value is OpenContainer {
            assert(s.rows[s.rows.len() - 1].value is OpenContainer);
            assert(s.parents.last() == nr - 1);
        }
        assert(!(s.rows[nr - 1].value is OpenContainer));
        assert forall|i: int| 0 <= i < s2.rows.len() implies #[trigger] row_sound(s2, i) by {
            if i == c {
                if L - 1 > 0 {
                    assert(s.parents.drop_last().last() == s.parents[L - 2]);
                    assert(s.parents[L - 2] < open);
                    assert(s2.rows[s.parents[L - 2] as int] == s.rows[s.parents[L - 2] as int]);
                    assert(s.rows[s.parents[L - 2] as int].value is OpenContainer);
                }
                assert(s2.rows[i - 1] == s.rows[nr - 1]);
                assert(s2.rows[open].value.spec_pair() == OptionIndex::Index(c as usize));
                assert(crow.range.start == pre.len());
                assert(range_in(s2.text, crow.range));
                assert(row_sound(s2, i));
            } else {
                assert(row_sound(s, i));
                let r = s.rows[i];
                lemma_range_extend(s.text, piece, r.range);
                if let Some(k) = r.key_range {
                    lemma_range_extend(s.text, piece, k);
                }
                if i == open {
                    assert(!s.parents.drop_last().contains(open as usize));
                    assert forall|j: int| open < j < c implies #[trigger] s2.rows[j].depth > ro.depth by {
                        assert(s.parents[L - 1] < j < nr);
                        assert(s.rows[j].depth > L - 1);
                    }
                    assert(closed_sound(s2, i));
                    assert(row_sound(s2, i));
                } else {
                    if let Value::OpenContainer { close_index, .. } = r.value {
                        if s.parents.contains(i as usize) {
                            lemma_drop_top(s.parents, i as usize);
                        } else {
                            assert(closed_sound(s, i));
                            assert(close_index != open);
                            assert forall|j: int| i < j < close_index implies #[trigger] s2.rows[j].depth
                                > r.depth by {
                                assert(s.rows[j].depth > r.depth);
                            }
                            assert(closed_sound(s2, i));
                        }
                    }
                    if let Value::CloseContainer { open_index, .. } = r.value {
                        assert(open_index != open);
                    }
                }
            }
        }
        assert forall|k: int| 0 <= k < s2.parents.len() implies (#[trigger] s2.parents[k]) < s2.rows.len()
            && s2.rows[s2.parents[k] as int].value is OpenContainer && s2.rows[s2.parents[k] as int].value.spec_pair()
            == OptionIndex::Index(0) && s2.rows[s2.parents[k] as int].depth == k by {
            assert(s2.parents[k] == s.parents[k]);
            assert(s.parents[k] < open);
        }
        assert forall|k: int, j: int|
            #![trigger s2.parents[k], s2.rows[j]]
            0 <= k < s2.parents.len() && s2.parents[k] < j < s2.rows.len() implies s2.rows[j].depth
                > k by {
            assert(s2.parents[k] == s.parents[k]);
            if j < nr {
                assert(s.rows[j].depth > k);
            }
        }
    }
    if s.max_depth != 0 {
        let w = choose|i: int| 0 <= i < s.rows.len() && #[trigger] s.rows[i].depth == s.max_depth;
        if w != open {
            assert(s2.rows[w] == s.rows[w]);
        } else {
            assert(s2.rows[w].depth == s.rows[w].depth);
        }
        assert(s2.rows[w].depth == s2.max_depth);
    }
}


/// Closing a container keeps every row's start and adds at most a row that
/// starts after the text so far.
proof fn lemma_close_starts(s: ParseState, ct: ContainerType, open: int, last: OptionIndex, n: int)
    requires
        starts_increase(s.rows),
        0 <= open < s.rows.len(),
        s.text.len() + 2 <= usize::MAX,
        forall|i: int| 0 <= i < s.rows.len() ==> #[trigger] s.rows[i].range.start < s.text.len(),
    ensures
        starts_increase(close_container(s, ct, open, last, n).rows),
{
    let s2 = close_container(s, ct, open, last, n);
    assert(s2.rows.len() == s.rows.len() || s2.rows.len() == s.rows.len() + 1);
    if n != 0 {
        let s1 = ParseState { parents: s.parents.drop_last(), ..s };
        let t = if ct == ContainerType::Array { s1 } else { emit(s1, seq![32u8]) };
        assert(t.text.len() >= s.text.len());
        let c = t.rows.len();
        let v = Value::CloseContainer {
            container_type: ct,
            collapsed: false,
            last_child: last->Index_0,
            open_index: open as usize,
        };
        let s3 = create_row(t, v);
        assert(s3.rows[c as int] == new_row(t, v));
        let r = s3.rows[open];
        let s4 = crate::jsonparser::set_row(
            s3,
            open,
            Row { value: crate::jsonparser::with_close_index(r.value, c as usize), ..with_end(r, s3.text.len() + 1int) },
        );
        assert(s4.rows[c as int] == s3.rows[c as int]);
        assert(s2.rows[c as int] == s4.rows[c as int]);
        assert(c == s.rows.len());
        assert(s2.rows[s.rows.len() as int].range.start == t.text.len());
    }
    assert forall|i: int| 0 <= i < s.rows.len() implies #[trigger] s2.rows[i].range.start == s.rows[i].range.start by {
        if i != open {
            assert(s2.rows[i] == s.rows[i]);
        }
    }
    lemma_starts_after(s.rows, s2.rows, s.text.len() as int);
}

/// `t2` is `t1` with more valid text after it.
pub open spec fn extends(t1: Seq<u8>, t2: Seq<u8>) -> bool {
    &&& valid_utf8(t1)
    &&& valid_utf8(t2)
    &&& t1.len() <= t2.len()
    &&& t2.subrange(0, t1.len() as int) == t1
    &&& is_char_boundary(t2, t1.len() as int)
}

/// Appending valid text extends a text.
pub proof fn lemma_extends_emit(t: Seq<u8>, piece: Seq<u8>)
    requires
        valid_utf8(t),
        valid_utf8(piece),
    ensures
        extends(t, t + piece),
{
    is_char_boundary_start_end_of_seq(t);
    lemma_boundary_extend(t, piece, t.len() as int);
    assert((t + piece).subrange(0, t.len() as int) =~= t);
}

/// Extending is transitive, and a text extends itself.
pub proof fn lemma_extends_trans(t1: Seq<u8>, t2: Seq<u8>, t3: Seq<u8>)
    requires
        extends(t1, t2),
        extends(t2, t3),
    ensures
        extends(t1, t3),
{
    lemma_extends_boundary(t2, t3, t1.len() as int);
    assert(t3.subrange(0, t1.len() as int) =~= t3.subrange(0, t2.len() as int).subrange(0, t1.len() as int));
}

pub proof fn lemma_extends_refl(t: Seq<u8>)
    requires
        valid_utf8(t),
    ensures
        extends(t, t),
{
    is_char_boundary_start_end_of_seq(t);
    assert(t.subrange(0, t.len() as int) =~= t);
}

/// A boundary of a text is one of every text extending it.
pub proof fn lemma_extends_boundary(t1: Seq<u8>, t2: Seq<u8>, i: int)
    requires
        extends(t1, t2),
        0 <= i <= t1.len(),
        is_char_boundary(t1, i),
    ensures
        is_char_boundary(t2, i),
{
    if i < t1.len() {
        is_char_boundary_iff_not_is_continuation_byte(t1, i);
        is_char_boundary_iff_not_is_continuation_byte(t2, i);
        assert(t2[i] == t2.subrange(0, t1.len() as int)[i]);
    }
}

/// Ranges of a text stay ranges of every text extending it.
pub proof fn lemma_extends_range(t1: Seq<u8>, t2: Seq<u8>, r: std::ops::Range<usize>)
    requires
        extends(t1, t2),
        range_in(t1, r),
    ensures
        range_in(t2, r),
        delimited_range_in(t1, r) ==> delimited_range_in(t2, r),
{
    lemma_extends_boundary(t1, t2, r.start as int);
    lemma_extends_boundary(t1, t2, r.end as int);
    if delimited_range_in(t1, r) {
        lemma_extends_boundary(t1, t2, r.start + 1);
        lemma_extends_boundary(t1, t2, r.end - 1);
    }
}

/// Changing the links of rows (siblings, the first child of the container on
/// top of the stack, a key) keeps a state sound when they point at rows that
/// exist.
#[verifier::spinoff_prover]
#[verifier::rlimit(60)]
pub proof fn lemma_relink_sound(b: Seq<u8>, s: ParseState, rows2: Seq<Row>)
    requires
        sound(b, s),
        rows2.len() == s.rows.len(),
        forall|i: int| 0 <= i < rows2.len() ==> {
            let r1 = #[trigger] s.rows[i];
            let r2 = rows2[i];
            &&& r2.parent == r1.parent
            &&& r2.depth == r1.depth
            &&& r2.range == r1.range
            &&& r2.value.spec_pair() == r1.value.spec_pair()
            &&& r2.value.spec_container_type() == r1.value.spec_container_type()
            &&& r2.value.spec_collapsed() == r1.value.spec_collapsed()
            &&& (r2.value is OpenContainer <==> r1.value is OpenContainer)
            &&& (r2.value is CloseContainer <==> r1.value is CloseContainer)
            &&& (r2.value is String <==> r1.value is String)
            &&& (r1.value is CloseContainer ==> r2.value == r1.value)
            &&& (r2.value matches Value::OpenContainer { first_child, .. } ==> first_child < rows2.len())
            &&& (r2.prev_sibling matches OptionIndex::Index(p) ==> p < rows2.len())
            &&& (r2.next_sibling matches OptionIndex::Index(p) ==> p < rows2.len())
            &&& (r2.key_range matches Some(k) ==> delimited_range_in(s.text, k))
        },
    ensures
        sound(b, ParseState { rows: rows2, ..s }),
{
    let s2 = ParseState { rows: rows2, ..s };
    lemma_starts_below_text(b, s);
    lemma_starts_after(s.rows, rows2, s.text.len() as int);
    assert forall|i: int| 0 <= i < rows2.len() implies #[trigger] rows2[i].depth <= s.max_depth by {
        assert(s.rows[i].depth <= s.max_depth);
    }
    assert forall|i: int| 0 <= i < rows2.len() implies #[trigger] row_sound(s2, i) by {
        assert(row_sound(s, i));
        let r = s.rows[i];
        if let OptionIndex::Index(p) = r.parent {
            assert(rows2[p as int].value is OpenContainer);
        }
        if let Value::CloseContainer { open_index, .. } = r.value {
            assert(rows2[open_index as int].value is OpenContainer);
            assert(rows2[i - 1].value is OpenContainer <==> s.rows[i - 1].value is OpenContainer);
        }
        if let Value::OpenContainer { close_index, .. } = r.value {
            if !s.parents.contains(i as usize) {
                assert(closed_sound(s, i));
                assert(rows2[close_index as int].value == s.rows[close_index as int].value);
                assert forall|j: int| i < j < close_index implies #[trigger] rows2[j].depth > r.depth by {
                    assert(s.rows[j].depth > r.depth);
                }
                assert(closed_sound(s2, i));
            }
        }
    }
    assert forall|k: int| 0 <= k < s2.parents.len() implies (#[trigger] s2.parents[k]) < s2.rows.len()
        && s2.rows[s2.parents[k] as int].value is OpenContainer && s2.rows[s2.parents[k] as int].value.spec_pair()
        == OptionIndex::Index(0) && s2.rows[s2.parents[k] as int].depth == k by {
        assert(s.rows[s.parents[k] as int].depth == k);
    }
    assert forall|k: int, j: int|
        #![trigger s2.parents[k], s2.rows[j]]
        0 <= k < s2.parents.len() && s2.parents[k] < j < s2.rows.len() implies s2.rows[j].depth
            > k by {
        assert(s.rows[j].depth > k);
    }
    let n = rows2.len();
    if n > 0 && rows2[n - 1].value is OpenContainer {
        assert(s.rows[n - 1].value is OpenContainer);
    }
}


/// What a token read at `p` looks like: it starts at or after `p`, ends
/// within the input, begins and ends with an ASCII byte, and a string token
/// has both its quotes.
pub proof fn lemma_next_token_facts(b: Seq<u8>, p: int)
    requires
        0 <= p <= b.len(),
    ensures
        spec_next_token(b, p) matches Some((t, ts, te)) ==> p <= ts < te <= b.len() && b[ts] < 128
            && b[te - 1] < 128 && (t == JsonToken::String ==> ts + 2 <= te),
{
    lemma_skip_blanks(b, p);
    let q = crate::jsontokenizer::skip_blanks(b, p);
    lemma_token_ascii(b, q);
}

/// Containers still on the stack keep their types.
pub open spec fn stack_frame(s: ParseState, s2: ParseState) -> bool {
    forall|k: int|
        0 <= k < s.parents.len() ==> #[trigger] s2.rows[s.parents[k] as int].value.spec_container_type()
            == s.rows[s.parents[k] as int].value.spec_container_type()
}

/// What reading a value from `s` gives: a sound state with the same stack,
/// the value's first row appended, some input consumed, and the pretty printed
/// text extended within its bound.
pub open spec fn value_ok(b: Seq<u8>, s: ParseState, s2: ParseState, first: usize) -> bool {
    &&& sound(b, s2)
    &&& s2.parents == s.parents
    &&& first == s.rows.len()
    &&& s2.rows.len() > s.rows.len()
    &&& s.pos < s2.pos
    &&& s2.text.len() <= 3 * s2.pos
    &&& extends(s.text, s2.text)
    &&& stack_frame(s, s2)
}

/// What reading the rest of a container's items from `s` gives: a sound
/// state with the same stack, past the closing bracket, the pretty printed
/// text extended with room for the closing, and the number of items.
pub open spec fn items_ok(
    b: Seq<u8>,
    s: ParseState,
    s2: ParseState,
    open: int,
    last: OptionIndex,
    n2: int,
) -> bool {
    &&& sound(b, s2)
    &&& s2.parents == s.parents
    &&& s2.rows.len() >= s.rows.len()
    &&& s.pos < s2.pos
    &&& s2.rows.len() < s2.pos
    &&& s2.text.len() + 2 <= 3 * s2.pos
    &&& extends(s.text, s2.text)
    &&& stack_frame(s, s2)
    &&& n2 >= 0
    &&& (n2 == 0 ==> s2.rows == s.rows && s2.text == s.text)
    &&& (n2 > 0 ==> s2.rows.len() > open + 1)
    &&& (n2 > 0 ==> (last matches OptionIndex::Index(l) && l < s2.rows.len()))
}

/// Pushing a new container on the stack keeps a state sound.
#[verifier::spinoff_prover]
#[verifier::rlimit(60)]
proof fn lemma_push_open_sound(b: Seq<u8>, s: ParseState, ct: ContainerType, after: int)
    requires
        sound_core(b, s),
        deepest_reached(s) || s.max_depth == s.parents.len(),
        s.parents.len() <= s.max_depth,
        0 <= s.pos < after <= b.len(),
    ensures
        ({
            let open = s.rows.len();
            let s1 = create_row(
                s,
                Value::OpenContainer { container_type: ct, collapsed: false, first_child: 0, close_index: 0 },
            );
            let opening: u8 = if ct == ContainerType::Array { 91 } else { 123 };
            let s2 = ParseState {
                parents: s1.parents.push(open as usize),
                ..emit(at(s1, skip_ws(b, after)), seq![opening])
            };
            &&& sound(b, s2)
            &&& s2.text.len() <= 3 * s2.pos
            &&& extends(s.text, s2.text)
            &&& s2.rows.len() == open + 1
            &&& s2.rows.subrange(0, open as int) == s.rows
            &&& s2.rows[open as int].range.start + 1 == s2.text.len()
            &&& s2.rows[open as int].value.spec_container_type() == Some(ct)
            &&& s2.parents == s.parents.push(open as usize)
            &&& s.pos < s2.pos
        }),
{
    let n = s.rows.len() as int;
    let L = s.parents.len() as int;
    let opening: u8 = if ct == ContainerType::Array { 91 } else { 123 };
    let piece = seq![opening];
    lemma_ascii_valid(piece);
    lemma_skip_ws(b, after);
    lemma_extends_emit(s.text, piece);
    let s1 = create_row(
        s,
        Value::OpenContainer { container_type: ct, collapsed: false, first_child: 0, close_index: 0 },
    );
    let s2 = ParseState {
        parents: s1.parents.push(n as usize),
        ..emit(at(s1, skip_ws(b, after)), piece)
    };
    assert(s2.rows.subrange(0, n) =~= s.rows);
    lemma_starts_below_text(b, s);
    assert forall|i: int| 0 <= i < n implies #[trigger] s2.rows[i].range.start == s.rows[i].range.start by {
        assert(s2.rows.subrange(0, n)[i] == s2.rows[i]);
    }
    lemma_starts_after(s.rows, s2.rows, s.text.len() as int);
    lemma_boundary_extend(s.text, piece, 0);
    is_char_boundary_start_end_of_seq(s.text);
    lemma_boundary_extend(s.text, piece, s.text.len() as int);
    is_char_boundary_start_end_of_seq(s2.text);
    assert forall|i: int| 0 <= i < s2.rows.len() implies #[trigger] row_sound(s2, i) by {
        if i == n {
            if let OptionIndex::Index(p) = s2.rows[i].parent {
                assert(s.parents[L - 1] == s.parents.last());
                assert(s2.rows[p as int] == s.rows[p as int]);
            }
            assert(s2.parents[L] == n);
            assert(s2.parents.contains(n as usize));
        } else {
            assert(row_sound(s, i));
            let r = s.rows[i];
            assert(s2.rows[i] == r);
            lemma_range_extend(s.text, piece, r.range);
            if let Some(k) = r.key_range {
                lemma_range_extend(s.text, piece, k);
            }
            if let OptionIndex::Index(p) = r.parent {
                assert(s2.rows[p as int] == s.rows[p as int]);
            }
            if let Value::OpenContainer { close_index, .. } = r.value {
                if s.parents.contains(i as usize) {
                    let k = choose|k: int| 0 <= k < s.parents.len() && s.parents[k] == i;
                    assert(s2.parents[k] == i);
                } else {
                    assert(closed_sound(s, i));
                    assert(s2.rows[close_index as int] == s.rows[close_index as int]);
                    assert forall|j: int| i < j < close_index implies #[trigger] s2.rows[j].depth
                        > r.depth by {
                        assert(s2.rows[j] == s.rows[j]);
                    }
                    assert(closed_sound(s2, i));
                }
            }
            if let Value::CloseContainer { open_index, .. } = r.value {
                assert(s2.rows[open_index as int] == s.rows[open_index as int]);
                assert(s2.rows[i - 1] == s.rows[i - 1]);
            }
        }
    }
    assert forall|k: int| 0 <= k < s2.parents.len() implies (#[trigger] s2.parents[k]) < s2.rows.len()
        && s2.rows[s2.parents[k] as int].value is OpenContainer && s2.rows[s2.parents[k] as int].value.spec_pair()
        == OptionIndex::Index(0) && s2.rows[s2.parents[k] as int].depth == k by {
        if k < L {
            assert(s2.parents[k] == s.parents[k]);
            assert(s2.rows[s.parents[k] as int] == s.rows[s.parents[k] as int]);
        }
    }
    assert forall|k1: int, k2: int|
        0 <= k1 < k2 < s2.parents.len() implies #[trigger] s2.parents[k1] < #[trigger] s2.parents[k2] by {
        if k2 < L {
            assert(s.parents[k1] < s.parents[k2]);
        } else {
            assert(s2.parents[k1] == s.parents[k1]);
        }
    }
    assert forall|k: int, j: int|
        #![trigger s2.parents[k], s2.rows[j]]
        0 <= k < s2.parents.len() && s2.parents[k] < j < s2.rows.len() implies s2.rows[j].depth
            > k by {
        if k < L {
            assert(s2.parents[k] == s.parents[k]);
            if j < n {
                assert(s2.rows[j] == s.rows[j]);
                assert(s.rows[j].depth > k);
            }
        }
    }
}


/// Setting a child's key and linking it into its container keeps a state
/// sound.
proof fn lemma_after_child_sound(
    b: Seq<u8>,
    s: ParseState,
    key: Option<std::ops::Range<usize>>,
    open: int,
    child: int,
    prev: OptionIndex,
    n: int,
)
    requires
        sound(b, s),
        s.parents.len() > 0,
        s.parents.last() == open,
        open < child < s.rows.len(),
        prev matches OptionIndex::Index(p) ==> p < s.rows.len(),
        n >= 0,
        key matches Some(k) ==> delimited_range_in(s.text, k),
    ensures
        ({
            let s2 = after_child(b, s, key, open, child, prev, n);
            &&& sound(b, s2)
            &&& s2.rows.len() == s.rows.len()
            &&& s2.text == s.text
            &&& s2.parents == s.parents
            &&& s.pos <= s2.pos
            &&& stack_frame(s, s2)
        }),
{
    let s1 = match key {
        Some(k) => crate::jsonparser::set_row(s, child, Row { key_range: Some(k), ..s.rows[child] }),
        None => s,
    };
    let rows2 = link_child(s1.rows, open, child, prev, n);
    let L = s.parents.len() as int;
    assert(s.parents[L - 1] == open);
    assert(s.rows[open].value is OpenContainer);
    lemma_skip_ws(b, s.pos);
    assert forall|i: int| 0 <= i < rows2.len() implies {
        let r1 = #[trigger] s.rows[i];
        let r2 = rows2[i];
        &&& r2.parent == r1.parent
        &&& r2.depth == r1.depth
        &&& r2.range == r1.range
        &&& r2.value.spec_pair() == r1.value.spec_pair()
        &&& r2.value.spec_container_type() == r1.value.spec_container_type()
        &&& r2.value.spec_collapsed() == r1.value.spec_collapsed()
        &&& (r2.value is OpenContainer <==> r1.value is OpenContainer)
        &&& (r2.value is CloseContainer <==> r1.value is CloseContainer)
        &&& (r2.value is String <==> r1.value is String)
        &&& (r1.value is CloseContainer ==> r2.value == r1.value)
        &&& (r2.value matches Value::OpenContainer { first_child, .. } ==> first_child < rows2.len())
        &&& (r2.prev_sibling matches OptionIndex::Index(p) ==> p < rows2.len())
        &&& (r2.next_sibling matches OptionIndex::Index(p) ==> p < rows2.len())
        &&& (r2.key_range matches Some(k) ==> delimited_range_in(s.text, k))
    } by {
        assert(row_sound(s, i));
    }
    lemma_relink_sound(b, s, rows2);
    lemma_at_sound(b, ParseState { rows: rows2, ..s }, skip_ws(b, s.pos));
    let s2 = after_child(b, s, key, open, child, prev, n);
    assert(s2 == ParseState { pos: skip_ws(b, s.pos), ..ParseState { rows: rows2, ..s } });
    assert forall|k: int| 0 <= k < s.parents.len() implies #[trigger] s2.rows[s.parents[k] as int].value.spec_container_type()
        == s.rows[s.parents[k] as int].value.spec_container_type() by {
        assert(s.parents[k] < s.rows.len());
    }
}

/// What comes before a container's item in the pretty printed text, and an
/// object member's key and colon, keep a state sound.
proof fn lemma_member_start_sound(
    b: Seq<u8>,
    s: ParseState,
    ct: ContainerType,
    n: int,
    t: JsonToken,
    ts: int,
    te: int,
)
    requires
        sound(b, s),
        valid_utf8(b),
        spec_next_token(b, s.pos) == Some((t, ts, te)),
        n != 0 ==> s.text.len() + 2 <= 3 * s.pos + 1,
        n == 0 ==> s.text.len() + 1 <= 3 * s.pos + 1,
    ensures
        member_start(b, s, ct, n, t, ts, te) matches Ok((s3, key)) ==> {
            &&& sound(b, s3)
            &&& s3.rows == s.rows
            &&& s3.parents == s.parents
            &&& extends(s.text, s3.text)
            &&& s.pos <= s3.pos
            &&& (key matches Some(k) ==> delimited_range_in(s3.text, k))
        },
{
    let comma_space = seq![44u8, 32];
    let space = seq![32u8];
    lemma_ascii_valid(comma_space);
    lemma_ascii_valid(space);
    lemma_ascii_valid(Seq::<u8>::empty());
    let s1 = if n != 0 {
        emit(s, comma_space)
    } else if ct == ContainerType::Object {
        emit(s, space)
    } else {
        s
    };
    if n != 0 {
        lemma_emit_sound(b, s, comma_space);
        lemma_extends_emit(s.text, comma_space);
    } else if ct == ContainerType::Object {
        lemma_emit_sound(b, s, space);
        lemma_extends_emit(s.text, space);
    } else {
        lemma_extends_refl(s.text);
    }
    if ct == ContainerType::Object && t == JsonToken::String {
        lemma_next_token_facts(b, s.pos);
        let piece = b.subrange(ts, te);
        lemma_ascii_boundaries(b, ts);
        lemma_ascii_boundaries(b, te - 1);
        lemma_sub_valid(b, ts, te);
        is_char_boundary_start_end_of_seq(piece);
        assert(piece[0] == b[ts]);
        assert(piece[piece.len() - 1] == b[te - 1]);
        lemma_ascii_boundaries(piece, 0);
        lemma_ascii_boundaries(piece, piece.len() - 1);
        lemma_skip_ws(b, te);
        lemma_at_sound(b, s1, skip_ws(b, te));
        let s2 = emit(at(s1, skip_ws(b, te)), piece);
        let start = s1.text.len();
        let key = std::ops::Range { start: start as usize, end: (start + (te - ts)) as usize };
        lemma_boundary_in_piece(s1.text, piece, 0);
        lemma_boundary_in_piece(s1.text, piece, 1);
        lemma_boundary_in_piece(s1.text, piece, piece.len() - 1);
        lemma_boundary_in_piece(s1.text, piece, piece.len() as int);
        assert(delimited_range_in(s2.text, key));
        lemma_emit_sound(b, at(s1, skip_ws(b, te)), piece);
        lemma_extends_emit(s1.text, piece);
        lemma_extends_trans(s.text, s1.text, s2.text);
        lemma_next_token_facts(b, s2.pos);
        if let Some((t2, ts2, te2)) = spec_next_token(b, s2.pos) {
            if t2 == JsonToken::Colon {
                let colon = seq![58u8, 32];
                lemma_ascii_valid(colon);
                lemma_skip_ws(b, te2);
                lemma_at_sound(b, s2, skip_ws(b, te2));
                let s3 = emit(at(s2, skip_ws(b, te2)), colon);
                lemma_emit_sound(b, at(s2, skip_ws(b, te2)), colon);
                lemma_extends_emit(s2.text, colon);
                lemma_extends_trans(s.text, s2.text, s3.text);
                lemma_extends_range(s2.text, s3.text, key);
            }
        }
    }
}


/// Reading a value keeps a state sound.
pub proof fn lemma_parse_value(b: Seq<u8>, s: ParseState)
    requires
        sound(b, s),
        valid_utf8(b),
    ensures
        parse_value(b, s) matches Ok((s2, first)) ==> value_ok(b, s, s2, first),
    decreases b.len() - s.pos, 1int,
{
    lemma_skip_ws(b, s.pos);
    let p = skip_ws(b, s.pos);
    let s1 = ParseState {
        pos: p,
        max_depth: if s.max_depth < s.parents.len() { s.parents.len() as int } else { s.max_depth },
        ..s
    };
    lemma_moved_sound(b, s, s1);
    lemma_next_token_facts(b, p);
    lemma_extends_refl(s.text);
    if let Some((t, ts, te)) = spec_next_token(b, p) {
        if s.pos <= p <= ts < te <= b.len() {
            match t {
                JsonToken::OpenSquare => {
                    lemma_open_container(b, s1, ContainerType::Array, te);
                },
                JsonToken::OpenCurly => {
                    lemma_open_container(b, s1, ContainerType::Object, te);
                },
                JsonToken::Null | JsonToken::True | JsonToken::False | JsonToken::Number | JsonToken::String => {
                    let v = match t {
                        JsonToken::Null => Value::Null,
                        JsonToken::True => Value::Boolean,
                        JsonToken::False => Value::Boolean,
                        JsonToken::Number => Value::Number,
                        _ => Value::String,
                    };
                    lemma_primitive_sound(b, s1, v, ts, te);
                    let (s2, i) = primitive(b, s1, v, ts, te);
                    assert forall|k: int| 0 <= k < s.parents.len() implies #[trigger] s2.rows[s.parents[k] as int].value.spec_container_type()
                        == s.rows[s.parents[k] as int].value.spec_container_type() by {
                        assert(s.parents[k] < s.rows.len());
                        assert(s2.rows.subrange(0, s.rows.len() as int)[s.parents[k] as int] == s2.rows[s.parents[k] as int]);
                    }
                },
                _ => {},
            }
        }
    }
}

/// Reading a container keeps a state sound.
pub proof fn lemma_open_container(b: Seq<u8>, s: ParseState, ct: ContainerType, after: int)
    requires
        sound_core(b, s),
        deepest_reached(s) || s.max_depth == s.parents.len(),
        s.parents.len() <= s.max_depth,
        valid_utf8(b),
    ensures
        open_container(b, s, ct, after) matches Ok((s2, first)) ==> value_ok(b, s, s2, first),
    decreases b.len() - s.pos, 0int,
{
    if 0 <= s.pos < after <= b.len() {
        let open = s.rows.len();
        lemma_push_open_sound(b, s, ct, after);
        let s1 = create_row(
            s,
            Value::OpenContainer { container_type: ct, collapsed: false, first_child: 0, close_index: 0 },
        );
        let opening: u8 = if ct == ContainerType::Array { 91 } else { 123 };
        let s2 = ParseState {
            parents: s1.parents.push(open as usize),
            ..emit(at(s1, skip_ws(b, after)), seq![opening])
        };
        lemma_skip_ws(b, after);
        assert(s2.parents.last() == open);
        lemma_container_items(b, s2, ct, open as int, OptionIndex::Nil, 0);
        if let Ok((s3, last, n)) = container_items(b, s2, ct, open as int, OptionIndex::Nil, 0) {
            assert(s3.parents.last() == open);
            assert(s2.parents[s.parents.len() as int] == open);
            assert(s3.rows[open as int].value.spec_container_type() == Some(ct));
            lemma_close_sound(b, s3, ct, open as int, last, n);
            let s4 = close_container(s3, ct, open as int, last, n);
            lemma_extends_trans(s.text, s2.text, s3.text);
            lemma_extends_trans(s.text, s3.text, s4.text);
            assert(s4.parents =~= s.parents);
            assert forall|k: int| 0 <= k < s.parents.len() implies #[trigger] s4.rows[s.parents[k] as int].value.spec_container_type()
                == s.rows[s.parents[k] as int].value.spec_container_type() by {
                assert(s.parents[k] < open);
                assert(s2.parents[k] == s.parents[k]);
                assert(s2.rows.subrange(0, open as int)[s.parents[k] as int] == s2.rows[s.parents[k] as int]);
                assert(s4.rows[s.parents[k] as int] == s3.rows[s.parents[k] as int]);
            }
        }
    }
}

/// Reading the rest of a container's items keeps a state sound.
#[verifier::spinoff_prover]
#[verifier::rlimit(40)]
pub proof fn lemma_container_items(
    b: Seq<u8>,
    s: ParseState,
    ct: ContainerType,
    open: int,
    prev: OptionIndex,
    n: int,
)
    requires
        sound(b, s),
        valid_utf8(b),
        s.parents.len() > 0,
        s.parents.last() == open,
        s.rows[open].value.spec_container_type() == Some(ct),
        n >= 0,
        s.text.len() <= 3 * s.pos,
        n == 0 ==> prev is Nil && s.rows.len() == open + 1,
        n > 0 ==> s.rows.len() > open + 1,
        n > 0 ==> (prev matches OptionIndex::Index(p) && open < p < s.rows.len()),
    ensures
        container_items(b, s, ct, open, prev, n) matches Ok((s2, last, n2)) ==> items_ok(
            b,
            s,
            s2,
            open,
            last,
            n2,
        ) && n2 >= n,
    decreases b.len() - s.pos, 2int,
{
    lemma_next_token_facts(b, s.pos);
    lemma_extends_refl(s.text);
    if let Ok(s1) = separator(b, s, ct, n) {
        if 0 <= s.pos <= s1.pos <= b.len() {
            lemma_next_token_facts(b, s1.pos);
            if n != 0 {
                if let Some((t0, ts0, te0)) = spec_next_token(b, s.pos) {
                    if t0 == JsonToken::Comma {
                        lemma_skip_ws(b, te0);
                    }
                }
            }
            lemma_moved_sound(b, s, s1);
            if let Some((t, ts, te)) = spec_next_token(b, s1.pos) {
                if t == closing_token(ct) {
                    lemma_at_sound(b, s1, te);
                } else {
                    lemma_member_start_sound(b, s1, ct, n, t, ts, te);
                    if let Ok((s3, key)) = member_start(b, s1, ct, n, t, ts, te) {
                        if s1.pos <= s3.pos <= b.len() {
                            lemma_parse_value(b, s3);
                            if let Ok((s4, child)) = parse_value(b, s3) {
                                if s.pos < s4.pos <= b.len() {
                                    lemma_extends_trans(s.text, s3.text, s4.text);
                                    if let Some(k) = key {
                                        lemma_extends_range(s3.text, s4.text, k);
                                    }
                                    assert(s4.parents.last() == open);
                                    lemma_after_child_sound(b, s4, key, open, child as int, prev, n);
                                    let s5 = after_child(b, s4, key, open, child as int, prev, n);
                                    let L = s.parents.len() as int;
                                    assert(s.parents[L - 1] == open);
                                    assert(s5.rows[open].value.spec_container_type() == Some(ct));
                                    lemma_container_items(b, s5, ct, open, OptionIndex::Index(child), n + 1);
                                    if let Ok((s6, last, n2)) = container_items(
                                        b,
                                        s5,
                                        ct,
                                        open,
                                        OptionIndex::Index(child),
                                        n + 1,
                                    ) {
                                        lemma_extends_trans(s.text, s5.text, s6.text);
                                        assert forall|k: int| 0 <= k < s.parents.len() implies #[trigger] s6.rows[s.parents[k] as int].value.spec_container_type()
                                            == s.rows[s.parents[k] as int].value.spec_container_type() by {
                                            let pk = s.parents[k];
                                            assert(s5.parents[k] == pk);
                                            assert(s4.parents[k] == pk);
                                            assert(s3.parents[k] == pk);
                                            assert(s6.rows[pk as int].value.spec_container_type()
                                                == s5.rows[pk as int].value.spec_container_type());
                                            assert(s5.rows[pk as int].value.spec_container_type()
                                                == s4.rows[pk as int].value.spec_container_type());
                                            assert(s4.rows[pk as int].value.spec_container_type()
                                                == s3.rows[pk as int].value.spec_container_type());
                                            assert(s3.rows == s.rows);
                                        }
                                    }
                                }
                            }
                        }
                    }
                }
            }
        }
    }
}


/// Reading the top-level values after the first keeps a state sound.
pub proof fn lemma_top_level_items(b: Seq<u8>, s: ParseState, prev: usize, n: int)
    requires
        sound(b, s),
        valid_utf8(b),
        s.parents.len() == 0,
        prev < s.rows.len(),
        s.text.len() <= 3 * s.pos,
    ensures
        top_level_items(b, s, prev, n) matches Ok(s2) ==> sound(b, s2) && s2.parents.len() == 0
            && s2.rows.len() >= s.rows.len(),
    decreases b.len() - s.pos,
{
    if 0 <= s.pos <= b.len() {
        lemma_skip_ws(b, s.pos);
        let p = skip_ws(b, s.pos);
        lemma_at_sound(b, s, p);
        if let Some(_) = spec_next_token(b, p) {
            let newline = seq![10u8];
            lemma_ascii_valid(newline);
            lemma_emit_sound(b, at(s, p), newline);
            let s0 = emit(at(s, p), newline);
            lemma_parse_value(b, s0);
            if let Ok((s1, next)) = parse_value(b, s0) {
                if s.pos < s1.pos <= b.len() {
                    let r1 = s1.rows.update(
                        next as int,
                        Row {
                            prev_sibling: OptionIndex::Index(prev),
                            index_in_parent: (n + 1) as usize,
                            ..s1.rows[next as int]
                        },
                    );
                    let r2 = r1.update(
                        prev as int,
                        Row { next_sibling: OptionIndex::Index(next), ..r1[prev as int] },
                    );
                    assert forall|i: int| 0 <= i < r2.len() implies {
                        let ra = #[trigger] s1.rows[i];
                        let rb = r2[i];
                        &&& rb.parent == ra.parent
                        &&& rb.depth == ra.depth
                        &&& rb.range == ra.range
                        &&& rb.value.spec_pair() == ra.value.spec_pair()
                        &&& rb.value.spec_container_type() == ra.value.spec_container_type()
                        &&& rb.value.spec_collapsed() == ra.value.spec_collapsed()
                        &&& (rb.value is OpenContainer <==> ra.value is OpenContainer)
                        &&& (rb.value is CloseContainer <==> ra.value is CloseContainer)
                        &&& (rb.value is String <==> ra.value is String)
                        &&& (ra.value is CloseContainer ==> rb.value == ra.value)
                        &&& (rb.value matches Value::OpenContainer { first_child, .. } ==> first_child < r2.len())
                        &&& (rb.prev_sibling matches OptionIndex::Index(q) ==> q < r2.len())
                        &&& (rb.next_sibling matches OptionIndex::Index(q) ==> q < r2.len())
                        &&& (rb.key_range matches Some(k) ==> delimited_range_in(s1.text, k))
                    } by {
                        assert(row_sound(s1, i));
                    }
                    lemma_relink_sound(b, s1, r2);
                    lemma_top_level_items(b, ParseState { rows: r2, ..s1 }, next, n + 1);
                }
            }
        }
    }
}

/// A whole parse that succeeds ends in a sound state with no container left
/// open and at least one row.
pub proof fn lemma_spec_parse_sound(b: Seq<u8>)
    requires
        valid_utf8(b),
        b.len() <= usize::MAX / 4,
    ensures
        spec_parse(b) matches Ok(s) ==> sound(b, s) && s.parents.len() == 0 && s.rows.len() > 0,
{
    let s0 = initial_state();
    lemma_ascii_valid(Seq::<u8>::empty());
    assert(sound(b, s0));
    lemma_parse_value(b, s0);
    if let Ok((s1, first)) = parse_value(b, s0) {
        lemma_top_level_items(b, s1, first, 0);
    }
}

/// A sound state with no container left open and at least one row is a
/// well-formed document.
#[verifier::spinoff_prover]
#[verifier::rlimit(60)]
pub proof fn lemma_sound_document_wf(b: Seq<u8>, s: ParseState, fj: FlatJson)
    requires
        sound(b, s),
        s.parents.len() == 0,
        s.rows.len() > 0,
        fj.0@ == s.rows,
        fj.text() == s.text,
        fj.2 == s.max_depth,
    ensures
        fj.wf(),
        fj.depths_follow_parents(),
        fj.rows_start_in_order(),
        fj.depth_is_greatest(),
{
    assert(row_sound(s, 0));
    assert(fj.0@[0].depth == s.rows[0].depth);
    assert forall|i: int| 0 <= i < fj.len() implies #[trigger] fj.depth_follows_parent(i) by {
        assert(row_sound(s, i));
    }
    assert forall|i: int| 0 <= i < fj.len() implies #[trigger] fj.row_wf(i) by {
        assert(row_sound(s, i));
        if s.rows[i].value is OpenContainer {
            assert(!s.parents.contains(i as usize));
            assert(closed_sound(s, i));
        }
    }
    let n = s.rows.len() as int;
    if s.rows[n - 1].value is OpenContainer {
        assert(stack_sound(s));
    }
}

} // verus!
