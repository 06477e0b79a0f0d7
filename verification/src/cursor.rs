//! A cursor over a text: where the scan stands, and on which line.

use crate::bytes::{lemma_run_end_is, run_end, ByteClass, NEWLINE};
use crate::position::{lemma_position_bounds, line_of, line_start, offset_of};
use crate::text::{byte_at, char_here, lemma_boundary_in_prefix};
use vstd::prelude::*;
use vstd::string::*;
use vstd::utf8::*;

verus! {

/// A place in a text. It moves forward only, and keeps count of the lines
/// that it has passed.
pub struct Cursor<'a> {
    source: &'a str,
    pos: usize,
    line: usize,
    line_start: usize,
}

/// A cursor as a mathematical value: the bytes of the text and the index of
/// the next byte to read.
pub struct CursorView {
    pub buffer: Seq<u8>,
    pub position: int,
}

impl<'a> View for Cursor<'a> {
    type V = CursorView;

    closed spec fn view(&self) -> CursorView {
        CursorView { buffer: self.source.spec_bytes(), position: self.pos as int }
    }
}

impl<'a> Cursor<'a> {
    #[verifier::type_invariant]
    spec fn well_formed(&self) -> bool {
        &&& self.pos <= self.source.spec_bytes().len()
        &&& self.line == line_of(self.source.spec_bytes(), self.pos as int)
        &&& self.line_start == line_start(self.source.spec_bytes(), self.pos as int)
    }

    /// The text under a cursor is well-formed UTF-8.
    pub proof fn lemma_text(&self)
        ensures
            valid_utf8(self@.buffer),
    {
        encode_utf8_valid_utf8(self.source@);
    }

    /// A cursor at the start of `source`.
    pub fn new(source: &'a str) -> (cursor: Self)
        ensures
            cursor@.buffer == source.spec_bytes(),
            cursor@.position == 0,
    {
        Cursor { source, pos: 0, line: 0, line_start: 0 }
    }

    /// The index of the next byte to read.
    pub fn position(&self) -> (position: usize)
        ensures
            position == self@.position,
            position <= self@.buffer.len(),
    {
        proof {
            use_type_invariant(self);
        }
        self.pos
    }

    /// The line on which the cursor stands.
    pub fn line(&self) -> (line: usize)
        ensures
            line == line_of(self@.buffer, self@.position),
    {
        proof {
            use_type_invariant(self);
        }
        self.line
    }

    /// The offset of the cursor within its line, in bytes.
    pub fn offset(&self) -> (offset: usize)
        ensures
            offset == offset_of(self@.buffer, self@.position),
    {
        proof {
            use_type_invariant(self);
            lemma_position_bounds(self@.buffer, self@.position);
        }
        self.pos - self.line_start
    }

    /// Whether the whole text has been read.
    pub fn is_at_end(&self) -> (at_end: bool)
        ensures
            at_end == (self@.position >= self@.buffer.len()),
    {
        proof {
            use_type_invariant(self);
        }
        self.pos >= self.source.as_bytes().len()
    }

    /// The next byte, which stays unread.
    pub fn peek(&self) -> (byte: Option<u8>)
        ensures
            byte == byte_at(self@.buffer, self@.position),
    {
        let bytes = self.source.as_bytes();
        if self.pos < bytes.len() {
            Some(bytes[self.pos])
        } else {
            None
        }
    }

    /// The byte behind the next one, which stays unread.
    pub fn peek_next(&self) -> (byte: Option<u8>)
        ensures
            byte == byte_at(self@.buffer, self@.position + 1),
    {
        let bytes = self.source.as_bytes();
        if self.pos < bytes.len() && self.pos + 1 < bytes.len() {
            Some(bytes[self.pos + 1])
        } else {
            None
        }
    }

    /// The character that begins at the cursor, which stays unread.
    pub fn peek_char(&self) -> (c: Option<char>)
        ensures
            c == char_here(self@.buffer, self@.position),
    {
        if self.pos < self.source.as_bytes().len() && self.source.is_char_boundary(self.pos) {
            let (_, tail) = self.source.split_at(self.pos);
            let mut chars = tail.chars();
            let c = chars.next();
            proof {
                encode_utf8_first_scalar(tail@);
                char_u32_cast(tail@[0], tail@[0] as u32);
            }
            c
        } else {
            None
        }
    }

    /// Reads one byte, if one is left.
    pub fn advance(&mut self)
        ensures
            final(self)@.buffer == old(self)@.buffer,
            final(self)@.position == if old(self)@.position < old(self)@.buffer.len() {
                old(self)@.position + 1
            } else {
                old(self)@.position
            },
    {
        proof {
            use_type_invariant(&*self);
            lemma_position_bounds(self@.buffer, self@.position);
        }
        let bytes = self.source.as_bytes();
        if self.pos < bytes.len() {
            if bytes[self.pos] == NEWLINE {
                *self = Cursor {
                    source: self.source,
                    pos: self.pos + 1,
                    line: self.line + 1,
                    line_start: self.pos + 1,
                };
            } else {
                *self = Cursor {
                    source: self.source,
                    pos: self.pos + 1,
                    line: self.line,
                    line_start: self.line_start,
                };
            }
        }
    }

    /// Reads `count` bytes, or what is left of the text if that is less.
    pub fn advance_by(&mut self, count: usize)
        ensures
            final(self)@.buffer == old(self)@.buffer,
            final(self)@.position == if old(self)@.position + count <= old(self)@.buffer.len() {
                old(self)@.position + count
            } else {
                old(self)@.buffer.len() as int
            },
    {
        proof {
            use_type_invariant(&*self);
        }
        let ghost start = self@.position;
        let ghost buffer = self@.buffer;
        let mut done: usize = 0;
        while done < count && !self.is_at_end()
            invariant
                self@.buffer == buffer,
                done <= count,
                self@.position == start + done,
                self@.position <= buffer.len(),
            decreases count - done,
        {
            self.advance();
            done += 1;
        }
    }

    /// Reads the next byte if it is `expected`, and says whether it did.
    pub fn consume_if(&mut self, expected: u8) -> (taken: bool)
        ensures
            taken == (byte_at(old(self)@.buffer, old(self)@.position) == Some(expected)),
            final(self)@.buffer == old(self)@.buffer,
            final(self)@.position == if taken {
                old(self)@.position + 1
            } else {
                old(self)@.position
            },
    {
        match self.peek() {
            Some(byte) => {
                if byte == expected {
                    self.advance();
                    true
                } else {
                    false
                }
            },
            None => false,
        }
    }

    /// Reads the longest run of bytes of `class` that starts at the cursor,
    /// and returns its length in bytes.
    pub fn count_bytes_while(&mut self, class: ByteClass) -> (count: usize)
        ensures
            final(self)@.buffer == old(self)@.buffer,
            final(self)@.position == run_end(old(self)@.buffer, old(self)@.position, class),
            count == final(self)@.position - old(self)@.position,
    {
        proof {
            use_type_invariant(&*self);
        }
        let ghost start = self@.position;
        let ghost buffer = self@.buffer;
        let mut count: usize = 0;
        loop
            invariant
                self@.buffer == buffer,
                self@.position == start + count,
                0 <= start <= self@.position <= buffer.len(),
                forall|i: int| start <= i < self@.position ==> class.contains(#[trigger] buffer[i]),
            ensures
                self@.buffer == buffer,
                self@.position == start + count,
                self@.position == run_end(buffer, start, class),
            decreases buffer.len() - self@.position,
        {
            match self.peek() {
                Some(byte) => {
                    if class.accepts(byte) {
                        self.advance();
                        count += 1;
                    } else {
                        proof {
                            lemma_run_end_is(buffer, start, class, self@.position);
                        }
                        break ;
                    }
                },
                None => {
                    proof {
                        lemma_run_end_is(buffer, start, class, self@.position);
                    }
                    break ;
                },
            }
        }
        count
    }

    /// The text from index `start` up to the cursor.
    pub fn lexeme_from(&self, start: usize) -> (lexeme: &'a str)
        requires
            start <= self@.position,
            is_char_boundary(self@.buffer, start as int),
            is_char_boundary(self@.buffer, self@.position),
        ensures
            lexeme.spec_bytes() == self@.buffer.subrange(start as int, self@.position),
    {
        broadcast use vstd::utf8::group_utf8_lib;

        proof {
            use_type_invariant(self);
            lemma_boundary_in_prefix(self@.buffer, start as int, self@.position);
        }
        let (head, _) = self.source.split_at(self.pos);
        let (_, lexeme) = head.split_at(start);
        lexeme
    }
}

} // verus!
