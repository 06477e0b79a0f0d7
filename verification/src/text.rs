//! Characters in a buffer of UTF-8 text.

use vstd::prelude::*;
use vstd::utf8::*;

verus! {

/// The byte at index `at`, if the buffer has one there.
pub open spec fn byte_at(buffer: Seq<u8>, at: int) -> Option<u8> {
    if 0 <= at < buffer.len() {
        Some(buffer[at])
    } else {
        None
    }
}

/// What is left of the buffer from index `at` on.
pub open spec fn rest(buffer: Seq<u8>, at: int) -> Seq<u8> {
    buffer.subrange(at, buffer.len() as int)
}

/// The character whose encoding starts at index `at`.
pub open spec fn char_at(buffer: Seq<u8>, at: int) -> char {
    decode_first_scalar(rest(buffer, at)) as char
}

/// The character whose encoding starts at index `at`, if a character begins
/// there; `None` at the end of the buffer and inside an encoding.
pub open spec fn char_here(buffer: Seq<u8>, at: int) -> Option<char> {
    if 0 <= at < buffer.len() && is_char_boundary(buffer, at) {
        Some(char_at(buffer, at))
    } else {
        None
    }
}

/// The number of bytes that encode `c` in UTF-8.
pub open spec fn utf8_len(c: char) -> int {
    encode_scalar(c as u32).len() as int
}

/// True for the characters of the ASCII range.
pub open spec fn is_ascii_char(c: char) -> bool {
    (c as u32) < 0x80
}

/// True for the characters that Unicode gives the property `White_Space`.
pub open spec fn is_whitespace(c: char) -> bool {
    let code = c as u32;
    ||| 0x09 <= code <= 0x0D
    ||| code == 0x20
    ||| code == 0x85
    ||| code == 0xA0
    ||| code == 0x1680
    ||| 0x2000 <= code <= 0x200A
    ||| code == 0x2028
    ||| code == 0x2029
    ||| code == 0x202F
    ||| code == 0x205F
    ||| code == 0x3000
}

/// Tests whether `c` has the Unicode property `White_Space`.
pub fn whitespace(c: char) -> (r: bool)
    ensures
        r == is_whitespace(c),
{
    let code = c as u32;
    (0x09 <= code && code <= 0x0D) || code == 0x20 || code == 0x85 || code == 0xA0 || code
        == 0x1680 || (0x2000 <= code && code <= 0x200A) || code == 0x2028 || code == 0x2029
        || code == 0x202F || code == 0x205F || code == 0x3000
}

/// Counts the bytes that encode `c` in UTF-8.
pub fn char_width(c: char) -> (width: usize)
    ensures
        width == utf8_len(c),
        1 <= width <= 4,
{
    let code = c as u32;
    if code < 0x80 {
        1
    } else if code < 0x800 {
        2
    } else if code < 0x10000 {
        3
    } else {
        4
    }
}

/// An ASCII byte stands for a character of its own: a character begins at
/// it, and the next one right behind it.
pub proof fn lemma_ascii_byte(buffer: Seq<u8>, at: int)
    requires
        valid_utf8(buffer),
        0 <= at < buffer.len(),
        buffer[at] < 0x80,
    ensures
        is_char_boundary(buffer, at),
        is_char_boundary(buffer, at + 1),
        char_at(buffer, at) as u32 == buffer[at] as u32,
        utf8_len(char_at(buffer, at)) == 1,
{
    is_char_boundary_iff_not_is_continuation_byte(buffer, at);
    lemma_char_at(buffer, at);
    let byte = buffer[at];
    assert(byte & 0x7F == byte) by (bit_vector)
        requires
            byte < 0x80,
    ;
}

/// Where a character begins, a well-formed encoding of it stands, and the
/// next character begins right behind that encoding.
pub proof fn lemma_char_at(buffer: Seq<u8>, at: int)
    requires
        valid_utf8(buffer),
        is_char_boundary(buffer, at),
        0 <= at < buffer.len(),
    ensures
        valid_first_scalar(rest(buffer, at)),
        utf8_len(char_at(buffer, at)) == length_of_first_scalar(rest(buffer, at)),
        at + utf8_len(char_at(buffer, at)) <= buffer.len(),
        is_char_boundary(buffer, at + utf8_len(char_at(buffer, at))),
        is_ascii_char(char_at(buffer, at)) <==> buffer[at] < 0x80,
{
    let tail = rest(buffer, at);
    valid_utf8_split(buffer, at);
    let width = length_of_first_scalar(tail);
    decode_utf8_first_scalar(tail);
    let after = pop_first_scalar(tail);
    assert(valid_utf8(after));
    if at + width < buffer.len() {
        is_char_boundary_iff_not_is_continuation_byte(buffer, at + width);
    } else {
        is_char_boundary_start_end_of_seq(buffer);
    }
}

/// Where a character begins in a text, it begins in every prefix of the text
/// that ends where a character begins.
pub proof fn lemma_boundary_in_prefix(buffer: Seq<u8>, from: int, to: int)
    requires
        valid_utf8(buffer),
        0 <= from <= to <= buffer.len(),
        is_char_boundary(buffer, from),
        is_char_boundary(buffer, to),
    ensures
        valid_utf8(buffer.subrange(0, to)),
        is_char_boundary(buffer.subrange(0, to), from),
{
    let prefix = buffer.subrange(0, to);
    valid_utf8_split(buffer, to);
    if from == to {
        is_char_boundary_start_end_of_seq(prefix);
    } else {
        is_char_boundary_iff_not_is_continuation_byte(buffer, from);
        is_char_boundary_iff_not_is_continuation_byte(prefix, from);
    }
}

} // verus!
