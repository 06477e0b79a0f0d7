//! Classes of bytes and maximal runs of them.

use vstd::prelude::*;

verus! {

/// The byte that ends a line.
pub const NEWLINE: u8 = 0x0A;

/// The byte that opens and closes a string literal.
pub const QUOTE: u8 = 0x22;

/// The byte of the equals sign.
pub const EQUALS: u8 = 0x3D;

/// The byte of the slash.
pub const SLASH: u8 = 0x2F;

/// The byte of the full stop.
pub const DOT: u8 = 0x2E;

/// True for the ASCII digits `0` to `9`.
pub open spec fn is_digit(byte: u8) -> bool {
    0x30 <= byte <= 0x39
}

/// True for the ASCII letters `A` to `Z` and `a` to `z`.
pub open spec fn is_alphabetic(byte: u8) -> bool {
    (0x41 <= byte <= 0x5A) || (0x61 <= byte <= 0x7A)
}

/// Tests whether `byte` is an ASCII digit.
pub fn digit(byte: u8) -> (r: bool)
    ensures
        r == is_digit(byte),
{
    0x30 <= byte && byte <= 0x39
}

/// Tests whether `byte` is an ASCII letter.
pub fn alphabetic(byte: u8) -> (r: bool)
    ensures
        r == is_alphabetic(byte),
{
    (0x41 <= byte && byte <= 0x5A) || (0x61 <= byte && byte <= 0x7A)
}

/// A set of bytes that a run is made of.
#[derive(Clone, Copy, Debug, PartialEq, Eq, Structural)]
pub enum ByteClass {
    /// The ASCII digits.
    Digit,
    /// The ASCII letters and digits.
    AlphaNumeric,
    /// Every byte but the newline.
    NotNewline,
    /// Every byte but the double quote.
    NotQuote,
}

impl ByteClass {
    /// Whether `byte` belongs to the class.
    pub open spec fn contains(self, byte: u8) -> bool {
        match self {
            ByteClass::Digit => is_digit(byte),
            ByteClass::AlphaNumeric => is_alphabetic(byte) || is_digit(byte),
            ByteClass::NotNewline => byte != NEWLINE,
            ByteClass::NotQuote => byte != QUOTE,
        }
    }

    /// Tests whether `byte` belongs to the class.
    pub fn accepts(self, byte: u8) -> (r: bool)
        ensures
            r == self.contains(byte),
    {
        match self {
            ByteClass::Digit => digit(byte),
            ByteClass::AlphaNumeric => alphabetic(byte) || digit(byte),
            ByteClass::NotNewline => byte != NEWLINE,
            ByteClass::NotQuote => byte != QUOTE,
        }
    }
}

/// The end of the longest run of bytes of `class` that starts at `from`:
/// the first index at or after `from` that holds a byte outside the class,
/// or the length of the buffer if there is none.
pub open spec fn run_end(buffer: Seq<u8>, from: int, class: ByteClass) -> int
    decreases buffer.len() - from,
{
    if 0 <= from < buffer.len() && class.contains(buffer[from]) {
        run_end(buffer, from + 1, class)
    } else {
        from
    }
}

/// A run ends where the first byte outside the class stands, and nowhere else.
pub proof fn lemma_run_end_is(buffer: Seq<u8>, from: int, class: ByteClass, end: int)
    requires
        0 <= from <= end <= buffer.len(),
        forall|i: int| from <= i < end ==> class.contains(#[trigger] buffer[i]),
        end < buffer.len() ==> !class.contains(buffer[end]),
    ensures
        run_end(buffer, from, class) == end,
    decreases end - from,
{
    if from < end {
        lemma_run_end_is(buffer, from + 1, class, end);
    }
}

/// What holds of every run: it stays inside the buffer, holds bytes of the
/// class only, and cannot be made longer.
pub proof fn lemma_run_end_maximal(buffer: Seq<u8>, from: int, class: ByteClass)
    requires
        0 <= from <= buffer.len(),
    ensures
        from <= run_end(buffer, from, class) <= buffer.len(),
        forall|i: int|
            from <= i < run_end(buffer, from, class) ==> class.contains(#[trigger] buffer[i]),
        run_end(buffer, from, class) < buffer.len() ==> !class.contains(
            buffer[run_end(buffer, from, class)],
        ),
    decreases buffer.len() - from,
{
    if from < buffer.len() && class.contains(buffer[from]) {
        lemma_run_end_maximal(buffer, from + 1, class);
    }
}

/// Tests whether two slices hold the same bytes.
pub fn same_bytes(left: &[u8], right: &[u8]) -> (same: bool)
    ensures
        same == (left@ == right@),
{
    if left.len() != right.len() {
        return false;
    }
    let mut i: usize = 0;
    while i < left.len()
        invariant
            left@.len() == right@.len(),
            i <= left@.len(),
            forall|j: int| 0 <= j < i ==> left@[j] == right@[j],
        decreases left@.len() - i,
    {
        if left[i] != right[i] {
            return false;
        }
        i += 1;
    }
    assert(left@ =~= right@);
    true
}

} // verus!
