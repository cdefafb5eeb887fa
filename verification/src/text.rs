//! Byte-level views of strings and the few std string operations that the
//! rest of the library builds its output with.

use vstd::prelude::*;
use vstd::utf8::*;
use vstd::string::*;

verus! {

/// The error type of `std::fmt`, which writing into a `String` never returns.
#[verifier::external_type_specification]
#[verifier::external_body]
pub struct ExFmtError(std::fmt::Error);

/// The UTF-8 bytes of a character sequence.
pub open spec fn utf8(s: Seq<char>) -> Seq<u8> {
    encode_utf8(s)
}

/// Encoding distributes over concatenation.
pub proof fn lemma_utf8_concat(a: Seq<char>, b: Seq<char>)
    ensures
        utf8(a + b) == utf8(a) + utf8(b),
    decreases a.len(),
{
    if a.len() == 0 {
        assert(a + b =~= b);
        assert(utf8(a) =~= Seq::<u8>::empty());
        assert(utf8(a) + utf8(b) =~= utf8(b));
    } else {
        assert((a + b).drop_first() =~= a.drop_first() + b);
        lemma_utf8_concat(a.drop_first(), b);
        assert((a + b)[0] == a[0]);
        assert(utf8(a + b) == encode_scalar(a[0] as u32) + utf8((a + b).drop_first()));
        assert(utf8(a) == encode_scalar(a[0] as u32) + utf8(a.drop_first()));
        assert(utf8(a + b) =~= utf8(a) + utf8(b));
    }
}

/// A character takes at least one byte.
pub proof fn lemma_utf8_len(s: Seq<char>)
    ensures
        s.len() <= utf8(s).len(),
    decreases s.len(),
{
    if s.len() > 0 {
        lemma_utf8_len(s.drop_first());
    }
}

/// An ASCII character encodes as its single byte.
pub proof fn lemma_utf8_ascii(b: u8)
    requires
        b < 0x80,
    ensures
        utf8(seq![b as char]) == seq![b],
{
    let c = b as char;
    assert((c as u32) == (b as u32));
    let u = b as u32;
    assert(((u & 0x7F) as u8) == b) by (bit_vector)
        requires
            u == b as u32,
            b < 0x80,
    ;
    assert(seq![c].drop_first() =~= Seq::<char>::empty());
    assert(utf8(seq![c]) == encode_scalar(c as u32) + utf8(Seq::<char>::empty()));
    assert(utf8(seq![c]) =~= seq![b]);
}

/// In valid UTF-8, an ASCII byte starts a character and so does the byte after it.
pub proof fn lemma_ascii_boundaries(b: Seq<u8>, i: int)
    requires
        valid_utf8(b),
        0 <= i < b.len(),
        b[i] < 128,
    ensures
        is_char_boundary(b, i),
        is_char_boundary(b, i + 1),
{
    is_char_boundary_iff_not_is_continuation_byte(b, i);
    is_char_boundary_start_end_of_seq(b);
    if i + 1 < b.len() {
        valid_utf8_split(b, i);
        let t = b.subrange(i, b.len() as int);
        assert(t[0] == b[i]);
        assert(length_of_first_scalar(t) == 1);
        assert(pop_first_scalar(t) =~= b.subrange(i + 1, b.len() as int));
        let u = b.subrange(i + 1, b.len() as int);
        assert(valid_utf8(u));
        is_char_boundary_start_end_of_seq(u);
        is_char_boundary_iff_not_is_continuation_byte(u, 0);
        assert(u[0] == b[i + 1]);
        is_char_boundary_iff_not_is_continuation_byte(b, i + 1);
    }
}

/// Appends `piece` to `buf`.
pub fn push_str(buf: &mut String, piece: &str)
    ensures
        final(buf)@ == old(buf)@ + piece@,
        utf8(final(buf)@) == utf8(old(buf)@) + utf8(piece@),
{
    buf.append(piece);
    proof {
        lemma_utf8_concat(old(buf)@, piece@);
    }
}

/// Appends one character to `buf`.
#[verifier::external_body]
pub fn push_char(buf: &mut String, c: char)
    ensures
        final(buf)@ == old(buf)@.push(c),
{
    buf.push(c)
}

/// Appends the ASCII character with code `b` to `buf`.
pub fn push_ascii(buf: &mut String, b: u8)
    requires
        b < 0x80,
    ensures
        final(buf)@ == old(buf)@.push(b as char),
        utf8(final(buf)@) == utf8(old(buf)@).push(b),
{
    push_char(buf, b as char);
    proof {
        assert(old(buf)@.push(b as char) =~= old(buf)@ + seq![b as char]);
        lemma_utf8_concat(old(buf)@, seq![b as char]);
        lemma_utf8_ascii(b);
        assert(utf8(old(buf)@) + seq![b] =~= utf8(old(buf)@).push(b));
    }
}

/// The part of `s` between the byte offsets `start` and `end`.
#[verifier::external_body]
pub fn substring<'a>(s: &'a str, start: usize, end: usize) -> (res: &'a str)
    requires
        start <= end <= utf8(s@).len(),
        is_char_boundary(utf8(s@), start as int),
        is_char_boundary(utf8(s@), end as int),
    ensures
        utf8(res@) == utf8(s@).subrange(start as int, end as int),
{
    &s[start..end]
}

/// The decimal digits of `n`, as ASCII bytes.
pub open spec fn decimal(n: nat) -> Seq<u8>
    decreases n,
{
    if n < 10 {
        seq![(48 + n) as u8]
    } else {
        decimal(n / 10).push((48 + n % 10) as u8)
    }
}

/// Appends the decimal representation of `n` to `buf`.
pub fn push_decimal(buf: &mut String, n: usize)
    ensures
        utf8(final(buf)@) == utf8(old(buf)@) + decimal(n as nat),
    decreases n,
{
    if n >= 10 {
        push_decimal(buf, n / 10);
    }
    let ghost mid = utf8(buf@);
    push_ascii(buf, (48 + n % 10) as u8);
    proof {
        if n >= 10 {
            assert(utf8(buf@) =~= utf8(old(buf)@) + decimal(n as nat));
        } else {
            assert(utf8(buf@) =~= utf8(old(buf)@) + decimal(n as nat));
        }
    }
}

/// Appends the ASCII characters whose codes are `bytes` to `buf`.
pub fn push_ascii_bytes(buf: &mut String, bytes: &[u8])
    requires
        forall|i: int| 0 <= i < bytes@.len() ==> bytes@[i] < 0x80,
    ensures
        utf8(final(buf)@) == utf8(old(buf)@) + bytes@,
{
    let mut i: usize = 0;
    while i < bytes.len()
        invariant
            i <= bytes@.len(),
            forall|k: int| 0 <= k < bytes@.len() ==> bytes@[k] < 0x80,
            utf8(buf@) == utf8(old(buf)@) + bytes@.subrange(0, i as int),
        decreases bytes@.len() - i,
    {
        push_ascii(buf, bytes[i]);
        assert(bytes@.subrange(0, i + 1) =~= bytes@.subrange(0, i as int).push(bytes@[i as int]));
        i = i + 1;
    }
    assert(bytes@.subrange(0, i as int) =~= bytes@);
}


/// The decimal representation of `n`, with a minus sign before it when it is
/// negative, as ASCII bytes.
pub open spec fn signed_decimal(n: int) -> Seq<u8> {
    if n < 0 {
        seq![45u8] + decimal((-n) as nat)
    } else {
        decimal(n as nat)
    }
}

/// Appends the decimal representation of `n`, signed, to `buf`.
pub fn push_signed_decimal(buf: &mut String, n: i32)
    ensures
        utf8(final(buf)@) == utf8(old(buf)@) + signed_decimal(n as int),
{
    if n < 0 {
        push_ascii(buf, 45);
        let magnitude: i64 = -(n as i64);
        push_decimal(buf, magnitude as usize);
        assert(utf8(buf@) =~= utf8(old(buf)@) + signed_decimal(n as int));
    } else {
        push_decimal(buf, n as usize);
    }
}

/// A boundary of a part of `b` that lies between two boundaries of `b` is a
/// boundary of `b`, and that part is valid UTF-8.
pub proof fn lemma_sub_boundary(b: Seq<u8>, p: int, e: int, q: int)
    requires
        valid_utf8(b),
        0 <= p <= e <= b.len(),
        is_char_boundary(b, p),
        is_char_boundary(b, e),
        0 <= q <= e - p,
        is_char_boundary(b.subrange(p, e), q),
    ensures
        is_char_boundary(b, p + q),
{
    lemma_sub_valid(b, p, e);
    let t = b.subrange(p, e);
    if q < e - p {
        is_char_boundary_iff_not_is_continuation_byte(t, q);
        assert(t[q] == b[p + q]);
        is_char_boundary_iff_not_is_continuation_byte(b, p + q);
    }
}

/// The part of valid UTF-8 between two boundaries is valid UTF-8.
pub proof fn lemma_sub_valid(b: Seq<u8>, p: int, e: int)
    requires
        valid_utf8(b),
        0 <= p <= e <= b.len(),
        is_char_boundary(b, p),
        is_char_boundary(b, e),
    ensures
        valid_utf8(b.subrange(p, e)),
{
    valid_utf8_split(b, e);
    let head = b.subrange(0, e);
    is_char_boundary_start_end_of_seq(b);
    if p < e {
        is_char_boundary_iff_not_is_continuation_byte(b, p);
        is_char_boundary_iff_not_is_continuation_byte(head, p);
        assert(head[p] == b[p]);
    } else {
        is_char_boundary_start_end_of_seq(head);
    }
    valid_utf8_split(head, p);
    assert(head.subrange(p, head.len() as int) =~= b.subrange(p, e));
}

/// The text that `String::from_utf8_lossy` makes of `bytes`.
pub uninterp spec fn lossy_utf8(bytes: Seq<u8>) -> Seq<char>;

/// `String::from_utf8_lossy`, owned: the text of `bytes` with every invalid
/// sequence replaced by U+FFFD, which is the text the bytes encode where
/// they are valid UTF-8.
#[verifier::external_body]
pub fn from_utf8_lossy(bytes: &[u8]) -> (s: String)
    ensures
        s@ == lossy_utf8(bytes@),
        valid_utf8(bytes@) ==> s@ == decode_utf8(bytes@),
{
    String::from_utf8_lossy(bytes).into_owned()
}

} // verus!
