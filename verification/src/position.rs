//! Lines and offsets: where a byte of the buffer stands.

use crate::bytes::NEWLINE;
use vstd::prelude::*;

verus! {

/// The line of the byte at index `at`, counted from 0: the number of newline
/// bytes before it.
pub open spec fn line_of(buffer: Seq<u8>, at: int) -> nat
    decreases at,
{
    if at <= 0 {
        0
    } else if buffer[at - 1] == NEWLINE {
        line_of(buffer, at - 1) + 1
    } else {
        line_of(buffer, at - 1)
    }
}

/// The index at which the line of the byte at `at` begins: just behind the
/// last newline before `at`, or 0 on the first line.
pub open spec fn line_start(buffer: Seq<u8>, at: int) -> int
    decreases at,
{
    if at <= 0 {
        0
    } else if buffer[at - 1] == NEWLINE {
        at
    } else {
        line_start(buffer, at - 1)
    }
}

/// The offset of the byte at `at` within its line, in bytes.
pub open spec fn offset_of(buffer: Seq<u8>, at: int) -> nat {
    (at - line_start(buffer, at)) as nat
}

/// Neither the line nor the start of the line lies beyond the index.
pub proof fn lemma_position_bounds(buffer: Seq<u8>, at: int)
    requires
        0 <= at,
    ensures
        line_of(buffer, at) <= at,
        0 <= line_start(buffer, at) <= at,
        offset_of(buffer, at) <= at,
    decreases at,
{
    if at > 0 {
        lemma_position_bounds(buffer, at - 1);
    }
}

/// Further on in the text the line is the same or a later one; where it is
/// the same, it starts at the same index.
pub proof fn lemma_lines_in_order(buffer: Seq<u8>, from: int, to: int)
    requires
        0 <= from <= to,
    ensures
        line_of(buffer, from) <= line_of(buffer, to),
        line_of(buffer, from) == line_of(buffer, to) ==> line_start(buffer, from) == line_start(
            buffer,
            to,
        ),
    decreases to - from,
{
    if from < to {
        lemma_lines_in_order(buffer, from, to - 1);
    }
}

} // verus!
