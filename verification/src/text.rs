//! Operations on source text addressed by byte offsets.

use vstd::prelude::*;
use vstd::string::*;
use vstd::utf8::*;

verus! {

/// The texts that a sequence of strings holds.
pub open spec fn texts_of(strings: Seq<String>) -> Seq<Seq<char>> {
    strings.map_values(|s: String| s@)
}

/// The UTF-8 bytes of a text.
pub open spec fn bytes_of(text: Seq<char>) -> Seq<u8> {
    encode_utf8(text)
}

/// Whether byte offset `offset` of `text` lies between two characters, at the
/// start or at the end.
pub open spec fn is_position(text: Seq<char>, offset: int) -> bool {
    0 <= offset <= bytes_of(text).len() && is_char_boundary(bytes_of(text), offset)
}

/// The characters of `text` that lie before byte offset `offset`.
pub open spec fn text_before(text: Seq<char>, offset: int) -> Seq<char> {
    decode_utf8(bytes_of(text).subrange(0, offset))
}

/// The characters of `text` that lie at and after byte offset `offset`.
pub open spec fn text_from(text: Seq<char>, offset: int) -> Seq<char> {
    decode_utf8(bytes_of(text).subrange(offset, bytes_of(text).len() as int))
}

/// `text` with `piece` put in at byte offset `offset`.
pub open spec fn inserted(text: Seq<char>, offset: int, piece: Seq<char>) -> Seq<char> {
    text_before(text, offset) + piece + text_from(text, offset)
}

/// A text has at most as many characters as bytes.
pub proof fn lemma_encoded_len(text: Seq<char>)
    ensures
        text.len() <= bytes_of(text).len(),
    decreases text.len(),
{
    if text.len() > 0 {
        lemma_encoded_len(text.drop_first());
    }
}

/// The bytes of two texts joined are the bytes of the first, then those of the
/// second.
pub proof fn lemma_encoded_concat(a: Seq<char>, b: Seq<char>)
    ensures
        bytes_of(a + b) == bytes_of(a) + bytes_of(b),
    decreases a.len(),
{
    if a.len() > 0 {
        lemma_encoded_concat(a.drop_first(), b);
        assert((a + b).drop_first() == a.drop_first() + b);
    }
}

/// The bytes of a text with a piece put in: the bytes before the offset, those
/// of the piece, and the bytes from the offset on.
pub proof fn lemma_inserted_bytes(text: Seq<char>, offset: int, piece: Seq<char>)
    requires
        is_position(text, offset),
    ensures
        bytes_of(inserted(text, offset, piece)) == bytes_of(text).subrange(0, offset) + bytes_of(
            piece,
        ) + bytes_of(text).subrange(offset, bytes_of(text).len() as int),
        bytes_of(inserted(text, offset, piece)).len() == bytes_of(text).len() + bytes_of(
            piece,
        ).len(),
{
    broadcast use group_utf8_lib;
    let bytes = bytes_of(text);
    valid_utf8_split(bytes, offset);
    lemma_encoded_concat(text_before(text, offset) + piece, text_from(text, offset));
    lemma_encoded_concat(text_before(text, offset), piece);
}

/// Splits `text` at a byte offset that lies between two characters.
pub fn split_text(text: &str, offset: usize) -> (parts: (&str, &str))
    requires
        is_position(text@, offset as int),
    ensures
        parts.0@ == text_before(text@, offset as int),
        parts.1@ == text_from(text@, offset as int),
        parts.0@ + parts.1@ == text@,
{
    broadcast use group_utf8_lib;
    let parts = text.split_at(offset);
    proof {
        decode_utf8_split(bytes_of(text@), offset as int);
    }
    parts
}

/// Puts `piece` into `text` at a byte offset that lies between two characters.
pub fn insert_text(text: &str, offset: usize, piece: &str) -> (out: String)
    requires
        is_position(text@, offset as int),
    ensures
        out@ == inserted(text@, offset as int, piece@),
{
    let parts = split_text(text, offset);
    let mut out = parts.0.to_owned();
    out.append(piece);
    out.append(parts.1);
    out
}

/// The characters of `text` between two byte offsets, where both lie between
/// characters and the first does not come after the second.
pub open spec fn text_between(text: Seq<char>, start: int, end: int) -> Option<Seq<char>> {
    if start <= end && is_position(text, start) && is_position(text, end) {
        Some(decode_utf8(bytes_of(text).subrange(start, end)))
    } else {
        None
    }
}

/// The length of `text` in bytes.
pub fn byte_len(text: &str) -> (n: usize)
    ensures
        n == bytes_of(text@).len(),
{
    text.as_bytes().len()
}

/// Reads the characters of `text` between two byte offsets; `None` where the
/// offsets do not mark off a run of whole characters of the text.
pub fn slice_text(text: &str, start: usize, end: usize) -> (out: Option<String>)
    ensures
        out.is_some() == text_between(text@, start as int, end as int).is_some(),
        out matches Some(s) ==> Some(s@) == text_between(text@, start as int, end as int),
{
    broadcast use group_utf8_lib;
    if start > end || end > byte_len(text) {
        return None;
    }
    if !text.is_char_boundary(start) || !text.is_char_boundary(end) {
        return None;
    }
    let head = text.split_at(end).0;
    proof {
        lemma_boundary_in_prefix(bytes_of(text@), start as int, end as int);
    }
    let piece = head.split_at(start).1;
    proof {
        let bytes = bytes_of(text@);
        let head_bytes = bytes.subrange(0, end as int);
        assert(head_bytes.subrange(start as int, end as int) == bytes.subrange(
            start as int,
            end as int,
        ));
    }
    Some(piece.to_owned())
}

/// A character boundary of a text is one of each of its prefixes that reaches
/// that far and ends at a boundary itself.
pub proof fn lemma_boundary_in_prefix(bytes: Seq<u8>, index: int, end: int)
    requires
        valid_utf8(bytes),
        0 <= index <= end <= bytes.len(),
        is_char_boundary(bytes, index),
        is_char_boundary(bytes, end),
    ensures
        valid_utf8(bytes.subrange(0, end)),
        is_char_boundary(bytes.subrange(0, end), index),
{
    broadcast use group_utf8_lib;
    let prefix = bytes.subrange(0, end);
    valid_utf8_split(bytes, end);
    if index == end {
        is_char_boundary_start_end_of_seq(prefix);
    } else {
        is_char_boundary_iff_not_is_continuation_byte(bytes, index);
        is_char_boundary_iff_not_is_continuation_byte(prefix, index);
    }
}

/// Decides whether two texts hold the same characters.
pub fn str_eq(a: &str, b: &str) -> (r: bool)
    ensures
        r == (a@ == b@),
{
    broadcast use group_utf8_lib;
    let x = a.as_bytes();
    let y = b.as_bytes();
    if x.len() != y.len() {
        return false;
    }
    let mut i: usize = 0;
    while i < x.len()
        invariant
            i <= x.len(),
            x.len() == y.len(),
            x@ == bytes_of(a@),
            y@ == bytes_of(b@),
            forall|j: int| 0 <= j < i ==> x@[j] == y@[j],
        decreases x.len() - i,
    {
        if x[i] != y[i] {
            return false;
        }
        i = i + 1;
    }
    proof {
        assert(x@ =~= y@);
        assert(a@ == decode_utf8(bytes_of(a@)));
        assert(b@ == decode_utf8(bytes_of(b@)));
    }
    true
}

/// A run of `n` spaces.
pub open spec fn spaces(n: nat) -> Seq<char> {
    Seq::new(n, |i: int| ' ')
}

/// Builds a run of `n` spaces.
pub fn make_spaces(n: usize) -> (out: String)
    ensures
        out@ == spaces(n as nat),
{
    let mut out = String::new();
    let mut i: usize = 0;
    while i < n
        invariant
            i <= n,
            out@ == spaces(i as nat),
        decreases n - i,
    {
        proof {
            reveal_strlit(" ");
        }
        out.append(" ");
        i = i + 1;
    }
    out
}

/// The characters that Unicode classes as `White_Space`.
pub open spec fn is_white_space(c: char) -> bool {
    ||| '\u{9}' <= c <= '\u{d}'
    ||| c == ' '
    ||| c == '\u{85}'
    ||| c == '\u{a0}'
    ||| c == '\u{1680}'
    ||| '\u{2000}' <= c <= '\u{200a}'
    ||| c == '\u{2028}'
    ||| c == '\u{2029}'
    ||| c == '\u{202f}'
    ||| c == '\u{205f}'
    ||| c == '\u{3000}'
}

/// Whether `c` counts as indentation: a white space character other than the
/// line feed.
pub open spec fn is_indent_char(c: char) -> bool {
    c != '\n' && is_white_space(c)
}

/// The number of indentation characters with which `s` ends.
pub open spec fn trailing_indent(s: Seq<char>) -> nat
    decreases s.len(),
{
    if s.len() > 0 && is_indent_char(s.last()) {
        1 + trailing_indent(s.drop_last())
    } else {
        0
    }
}

/// Decides whether `c` counts as indentation.
pub fn char_is_indent(c: char) -> (r: bool)
    ensures
        r == is_indent_char(c),
{
    c != '\n' && (('\u{9}' <= c && c <= '\u{d}') || c == ' ' || c == '\u{85}' || c == '\u{a0}' || c
        == '\u{1680}' || ('\u{2000}' <= c && c <= '\u{200a}') || c == '\u{2028}' || c == '\u{2029}'
        || c == '\u{202f}' || c == '\u{205f}' || c == '\u{3000}')
}

/// Counts the indentation characters at the end of `s`: the run that reaches
/// back from the end to the nearest line feed or other character.
pub fn count_whitespaces_reverse(s: &str) -> (n: usize)
    ensures
        n == trailing_indent(s@),
{
    let limit = byte_len(s);
    proof {
        lemma_encoded_len(s@);
    }
    let mut n: usize = 0;
    for c in it: s.chars()
        invariant
            it.seq() == s@,
            n == trailing_indent(s@.take(it.index())),
            n <= it.index(),
            s@.len() <= limit,
    {
        proof {
            assert(s@.take(it.index() + 1).drop_last() == s@.take(it.index()));
        }
        if char_is_indent(c) {
            n = n + 1;
        } else {
            n = 0;
        }
    }
    proof {
        assert(s@.take(s@.len() as int) == s@);
    }
    n
}

/// A byte offset within a text lies between two characters exactly where it
/// is the end of the text or the byte there does not continue a character.
pub proof fn lemma_position_by_byte(text: Seq<char>, offset: int)
    requires
        0 <= offset <= bytes_of(text).len(),
    ensures
        is_position(text, offset) <==> (offset == bytes_of(text).len() || !is_continuation_byte(
            bytes_of(text)[offset],
        )),
{
    broadcast use group_utf8_lib;
    let bytes = bytes_of(text);
    if offset == bytes.len() {
        is_char_boundary_start_end_of_seq(bytes);
    } else {
        is_char_boundary_iff_not_is_continuation_byte(bytes, offset);
    }
}

/// A text with a piece put in holds, up to the end of the piece, what stood
/// before the offset and then the piece; behind it, what stood from the
/// offset on.
pub proof fn lemma_inserted_parts(text: Seq<char>, offset: int, piece: Seq<char>)
    requires
        is_position(text, offset),
    ensures
        ({
            let out = inserted(text, offset, piece);
            let end = offset + bytes_of(piece).len();
            &&& is_position(out, offset)
            &&& is_position(out, end)
            &&& text_before(out, offset) == text_before(text, offset)
            &&& text_between(out, offset, end) == Some(piece)
            &&& text_before(out, end) == text_before(text, offset) + piece
            &&& text_from(out, end) == text_from(text, offset)
        }),
{
    broadcast use group_utf8_lib;
    let bytes = bytes_of(text);
    let out = inserted(text, offset, piece);
    let head = bytes.subrange(0, offset);
    let tail = bytes.subrange(offset, bytes.len() as int);
    let middle = bytes_of(piece);
    let end = offset + middle.len();
    lemma_inserted_bytes(text, offset, piece);
    let all = bytes_of(out);
    valid_utf8_split(bytes, offset);
    lemma_position_by_byte(text, offset);
    lemma_position_by_byte(out, offset);
    lemma_position_by_byte(out, end);
    if middle.len() > 0 {
        is_char_boundary_start_end_of_seq(middle);
        is_char_boundary_iff_not_is_continuation_byte(middle, 0);
    }
    assert(all.subrange(0, offset) == head);
    assert(all.subrange(offset, end) == middle);
    assert(all.subrange(end, all.len() as int) == tail);
    assert(all.subrange(0, end) == head + middle);
    lemma_encoded_concat(text_before(text, offset), piece);
}

/// Putting a piece into a text moves what lies at or behind the offset by the
/// length of the piece, and leaves it as it was.
pub proof fn lemma_inserted_moves(
    text: Seq<char>,
    offset: int,
    piece: Seq<char>,
    start: int,
    end: int,
)
    requires
        is_position(text, offset),
        offset <= start <= end,
    ensures
        text_between(
            inserted(text, offset, piece),
            start + bytes_of(piece).len(),
            end + bytes_of(piece).len(),
        ) == text_between(text, start, end),
{
    broadcast use group_utf8_lib;
    let bytes = bytes_of(text);
    let out = inserted(text, offset, piece);
    let shift = bytes_of(piece).len() as int;
    lemma_inserted_bytes(text, offset, piece);
    let all = bytes_of(out);
    if end <= bytes.len() {
        lemma_position_by_byte(text, start);
        lemma_position_by_byte(text, end);
        lemma_position_by_byte(out, start + shift);
        lemma_position_by_byte(out, end + shift);
        assert(all.subrange(start + shift, end + shift) == bytes.subrange(start, end));
    }
}

/// A text that ends in a line feed and `n` spaces ends in `n` indentation
/// characters.
pub proof fn lemma_trailing_indent_of_spaces(head: Seq<char>, n: nat)
    ensures
        trailing_indent(head + seq!['\n'] + spaces(n)) == n,
    decreases n,
{
    let all = head + seq!['\n'] + spaces(n);
    if n > 0 {
        lemma_trailing_indent_of_spaces(head, (n - 1) as nat);
        assert(all.drop_last() == head + seq!['\n'] + spaces((n - 1) as nat));
    }
}

/// A space takes one byte, so `n` spaces take `n`.
pub proof fn lemma_spaces_bytes(n: nat)
    ensures
        bytes_of(spaces(n)).len() == n,
    decreases n,
{
    broadcast use is_ascii_chars_encode_utf8;
    assert(is_ascii_chars(spaces(n)));
}

/// A line feed takes one byte.
pub proof fn lemma_line_feed_byte()
    ensures
        bytes_of(seq!['\n']).len() == 1,
{
    broadcast use is_ascii_chars_encode_utf8;
    assert(is_ascii_chars(seq!['\n']));
}

/// Where a text holds whole characters between two offsets, a second text
/// that differs from it only by bytes of characters put in at the second
/// offset holds the same characters there.
pub proof fn lemma_same_prefix_between(
    short: Seq<char>,
    long: Seq<char>,
    start: int,
    end: int,
    extra: Seq<u8>,
)
    requires
        text_between(short, start, end).is_some(),
        valid_utf8(extra),
        bytes_of(long) == bytes_of(short).subrange(0, end) + extra + bytes_of(short).subrange(
            end,
            bytes_of(short).len() as int,
        ),
    ensures
        text_between(long, start, end) == text_between(short, start, end),
{
    broadcast use group_utf8_lib;
    let a = bytes_of(short);
    let b = bytes_of(long);
    lemma_position_by_byte(short, start);
    lemma_position_by_byte(short, end);
    lemma_position_by_byte(long, start);
    lemma_position_by_byte(long, end);
    if extra.len() > 0 {
        is_char_boundary_start_end_of_seq(extra);
        is_char_boundary_iff_not_is_continuation_byte(extra, 0);
    }
    assert(b.subrange(start, end) == a.subrange(start, end));
}

} // verus!
