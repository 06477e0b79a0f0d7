//! What a buffer of text is made of: the rules that cut it into tokens,
//! whitespace and comments, stated as functions on the buffer.

use crate::bytes::{
    is_alphabetic, is_digit, lemma_run_end_maximal, run_end, ByteClass, DOT, EQUALS, SLASH,
};
use crate::lexer::{LexErrorKind, LexErrorView, TokenType, TokenView};
use crate::position::{line_of, offset_of};
use crate::text::{byte_at, char_at, is_whitespace, lemma_ascii_byte, lemma_char_at, utf8_len};
use vstd::prelude::*;
use vstd::string::*;
use vstd::utf8::*;

verus! {

/// What the character at the head of the unread text calls for.
#[derive(Clone, Copy, Debug, PartialEq, Eq, Structural)]
pub enum Lead {
    /// Whitespace, which is skipped.
    Whitespace,
    /// A character that is a token by itself.
    Punctuation(TokenType),
    /// A character that is one token alone and another with `=` behind it.
    Operator(TokenType, TokenType),
    /// A slash: a token, or with a second slash the start of a comment.
    Slash,
    /// The quote that opens a string literal.
    Quote,
    /// The first digit of a number literal.
    Digit,
    /// The first letter of an identifier or keyword.
    Letter,
    /// A character with which nothing begins.
    Other,
}

/// The rule that a first character selects.
pub open spec fn lead_of(c: char) -> Lead {
    if is_whitespace(c) {
        Lead::Whitespace
    } else if c == '(' {
        Lead::Punctuation(TokenType::LeftParen)
    } else if c == ')' {
        Lead::Punctuation(TokenType::RightParen)
    } else if c == '{' {
        Lead::Punctuation(TokenType::LeftBrace)
    } else if c == '}' {
        Lead::Punctuation(TokenType::RightBrace)
    } else if c == ',' {
        Lead::Punctuation(TokenType::Comma)
    } else if c == '.' {
        Lead::Punctuation(TokenType::Dot)
    } else if c == '-' {
        Lead::Punctuation(TokenType::Minus)
    } else if c == '+' {
        Lead::Punctuation(TokenType::Plus)
    } else if c == ';' {
        Lead::Punctuation(TokenType::Semicolon)
    } else if c == '*' {
        Lead::Punctuation(TokenType::Star)
    } else if c == '!' {
        Lead::Operator(TokenType::Bang, TokenType::BangEqual)
    } else if c == '=' {
        Lead::Operator(TokenType::Equal, TokenType::EqualEqual)
    } else if c == '<' {
        Lead::Operator(TokenType::Less, TokenType::LessEqual)
    } else if c == '>' {
        Lead::Operator(TokenType::Greater, TokenType::GreaterEqual)
    } else if c == '/' {
        Lead::Slash
    } else if c == '"' {
        Lead::Quote
    } else if '0' <= c <= '9' {
        Lead::Digit
    } else if ('a' <= c <= 'z') || ('A' <= c <= 'Z') {
        Lead::Letter
    } else {
        Lead::Other
    }
}

/// The reserved word of a keyword kind; `None` for the other kinds.
pub open spec fn reserved_word(kind: TokenType) -> Option<Seq<u8>> {
    match kind {
        TokenType::And => Some("and".spec_bytes()),
        TokenType::Class => Some("class".spec_bytes()),
        TokenType::Else => Some("else".spec_bytes()),
        TokenType::False => Some("false".spec_bytes()),
        TokenType::Fun => Some("fun".spec_bytes()),
        TokenType::For => Some("for".spec_bytes()),
        TokenType::If => Some("if".spec_bytes()),
        TokenType::Nil => Some("nil".spec_bytes()),
        TokenType::Or => Some("or".spec_bytes()),
        TokenType::Print => Some("print".spec_bytes()),
        TokenType::Return => Some("return".spec_bytes()),
        TokenType::Super => Some("super".spec_bytes()),
        TokenType::This => Some("this".spec_bytes()),
        TokenType::True => Some("true".spec_bytes()),
        TokenType::Var => Some("var".spec_bytes()),
        TokenType::While => Some("while".spec_bytes()),
        _ => None,
    }
}

/// The kind of a run of letters and digits: that of the keyword if the run
/// is a reserved word, `Identifier` if it is none.
pub open spec fn word_kind(word: Seq<u8>) -> TokenType {
    if word == "and".spec_bytes() {
        TokenType::And
    } else if word == "class".spec_bytes() {
        TokenType::Class
    } else if word == "else".spec_bytes() {
        TokenType::Else
    } else if word == "false".spec_bytes() {
        TokenType::False
    } else if word == "fun".spec_bytes() {
        TokenType::Fun
    } else if word == "for".spec_bytes() {
        TokenType::For
    } else if word == "if".spec_bytes() {
        TokenType::If
    } else if word == "nil".spec_bytes() {
        TokenType::Nil
    } else if word == "or".spec_bytes() {
        TokenType::Or
    } else if word == "print".spec_bytes() {
        TokenType::Print
    } else if word == "return".spec_bytes() {
        TokenType::Return
    } else if word == "super".spec_bytes() {
        TokenType::Super
    } else if word == "this".spec_bytes() {
        TokenType::This
    } else if word == "true".spec_bytes() {
        TokenType::True
    } else if word == "var".spec_bytes() {
        TokenType::Var
    } else if word == "while".spec_bytes() {
        TokenType::While
    } else {
        TokenType::Identifier
    }
}

/// The bytes of the reserved words.
proof fn lemma_reserved_words()
    ensures
        "and".spec_bytes() == seq!['a' as u8, 'n' as u8, 'd' as u8],
        "class".spec_bytes() == seq!['c' as u8, 'l' as u8, 'a' as u8, 's' as u8, 's' as u8],
        "else".spec_bytes() == seq!['e' as u8, 'l' as u8, 's' as u8, 'e' as u8],
        "false".spec_bytes() == seq!['f' as u8, 'a' as u8, 'l' as u8, 's' as u8, 'e' as u8],
        "fun".spec_bytes() == seq!['f' as u8, 'u' as u8, 'n' as u8],
        "for".spec_bytes() == seq!['f' as u8, 'o' as u8, 'r' as u8],
        "if".spec_bytes() == seq!['i' as u8, 'f' as u8],
        "nil".spec_bytes() == seq!['n' as u8, 'i' as u8, 'l' as u8],
        "or".spec_bytes() == seq!['o' as u8, 'r' as u8],
        "print".spec_bytes() == seq!['p' as u8, 'r' as u8, 'i' as u8, 'n' as u8, 't' as u8],
        "return".spec_bytes() == seq![
            'r' as u8,
            'e' as u8,
            't' as u8,
            'u' as u8,
            'r' as u8,
            'n' as u8,
        ],
        "super".spec_bytes() == seq!['s' as u8, 'u' as u8, 'p' as u8, 'e' as u8, 'r' as u8],
        "this".spec_bytes() == seq!['t' as u8, 'h' as u8, 'i' as u8, 's' as u8],
        "true".spec_bytes() == seq!['t' as u8, 'r' as u8, 'u' as u8, 'e' as u8],
        "var".spec_bytes() == seq!['v' as u8, 'a' as u8, 'r' as u8],
        "while".spec_bytes() == seq!['w' as u8, 'h' as u8, 'i' as u8, 'l' as u8, 'e' as u8],
{
    reveal_strlit("and");
    reveal_strlit("class");
    reveal_strlit("else");
    reveal_strlit("false");
    reveal_strlit("fun");
    reveal_strlit("for");
    reveal_strlit("if");
    reveal_strlit("nil");
    reveal_strlit("or");
    reveal_strlit("print");
    reveal_strlit("return");
    reveal_strlit("super");
    reveal_strlit("this");
    reveal_strlit("true");
    reveal_strlit("var");
    reveal_strlit("while");
    assert(is_ascii("and"));
    assert(is_ascii("class"));
    assert(is_ascii("else"));
    assert(is_ascii("false"));
    assert(is_ascii("fun"));
    assert(is_ascii("for"));
    assert(is_ascii("if"));
    assert(is_ascii("nil"));
    assert(is_ascii("or"));
    assert(is_ascii("print"));
    assert(is_ascii("return"));
    assert(is_ascii("super"));
    assert(is_ascii("this"));
    assert(is_ascii("true"));
    assert(is_ascii("var"));
    assert(is_ascii("while"));
}

/// Each reserved word is the word of one keyword only: the table gives it
/// the kind of that keyword. And each begins with a letter.
pub proof fn lemma_reserved_word_kind(kind: TokenType)
    requires
        reserved_word(kind) is Some,
    ensures
        word_kind(reserved_word(kind)->0) == kind,
        kind != TokenType::Identifier,
        reserved_word(kind)->0.len() > 0,
        is_alphabetic(reserved_word(kind)->0[0]),
{
    lemma_reserved_words();
}

/// The fractional lookahead: whether a full stop stands at index `at` with a
/// digit right behind it.
pub open spec fn has_fraction(buffer: Seq<u8>, at: int) -> bool {
    &&& byte_at(buffer, at) == Some(DOT)
    &&& byte_at(buffer, at + 1) matches Some(byte)
    &&& is_digit(byte)
}

/// The end of the number literal that starts at `start`: behind the longest
/// run of digits and, where a full stop and a digit follow it, behind the
/// longest run of digits after that full stop.
pub open spec fn number_end(buffer: Seq<u8>, start: int) -> int {
    let integer_end = run_end(buffer, start, ByteClass::Digit);
    if has_fraction(buffer, integer_end) {
        run_end(buffer, integer_end + 1, ByteClass::Digit)
    } else {
        integer_end
    }
}

/// What a piece of the text is.
#[derive(Clone, Copy, Debug, PartialEq, Eq, Structural)]
pub enum Piece {
    /// A token of the given kind.
    Token(TokenType),
    /// One whitespace character.
    Whitespace,
    /// A comment, from its two slashes to the end of its line.
    Comment,
}

/// A piece of the text with the range of bytes that it takes:
/// from `start` up to, and without, `end`.
pub struct Segment {
    pub piece: Piece,
    pub start: int,
    pub end: int,
}

/// The piece that begins at index `pos`, or the reason why none does.
pub open spec fn step(buffer: Seq<u8>, pos: int) -> Result<Segment, LexErrorKind> {
    let lead = char_at(buffer, pos);
    let next = byte_at(buffer, pos + 1);
    match lead_of(lead) {
        Lead::Whitespace => Ok(
            Segment { piece: Piece::Whitespace, start: pos, end: pos + utf8_len(lead) },
        ),
        Lead::Punctuation(kind) => Ok(
            Segment { piece: Piece::Token(kind), start: pos, end: pos + 1 },
        ),
        Lead::Operator(alone, with_equals) => if next == Some(EQUALS) {
            Ok(Segment { piece: Piece::Token(with_equals), start: pos, end: pos + 2 })
        } else {
            Ok(Segment { piece: Piece::Token(alone), start: pos, end: pos + 1 })
        },
        Lead::Slash => if next == Some(SLASH) {
            Ok(
                Segment {
                    piece: Piece::Comment,
                    start: pos,
                    end: run_end(buffer, pos + 2, ByteClass::NotNewline),
                },
            )
        } else {
            Ok(Segment { piece: Piece::Token(TokenType::Slash), start: pos, end: pos + 1 })
        },
        Lead::Quote => {
            let close = run_end(buffer, pos + 1, ByteClass::NotQuote);
            if close < buffer.len() {
                Ok(Segment { piece: Piece::Token(TokenType::String), start: pos, end: close + 1 })
            } else {
                Err(LexErrorKind::UnterminatedString)
            }
        },
        Lead::Digit => Ok(
            Segment {
                piece: Piece::Token(TokenType::Number),
                start: pos,
                end: number_end(buffer, pos),
            },
        ),
        Lead::Letter => {
            let end = run_end(buffer, pos, ByteClass::AlphaNumeric);
            Ok(
                Segment {
                    piece: Piece::Token(word_kind(buffer.subrange(pos, end))),
                    start: pos,
                    end,
                },
            )
        },
        Lead::Other => Err(LexErrorKind::UnexpectedCharacter(lead)),
    }
}

/// A run of digits, or of letters and digits, that starts where a character
/// begins ends where a character begins.
pub proof fn lemma_run_boundary(buffer: Seq<u8>, from: int, class: ByteClass)
    requires
        valid_utf8(buffer),
        is_char_boundary(buffer, from),
        0 <= from <= buffer.len(),
        class == ByteClass::Digit || class == ByteClass::AlphaNumeric,
    ensures
        from <= run_end(buffer, from, class) <= buffer.len(),
        is_char_boundary(buffer, run_end(buffer, from, class)),
{
    lemma_run_end_maximal(buffer, from, class);
    let end = run_end(buffer, from, class);
    if from < end {
        lemma_ascii_byte(buffer, end - 1);
    }
}

/// Every piece begins where asked, holds at least one byte, stays inside the
/// buffer, and ends where a character begins.
pub proof fn lemma_step_bounds(buffer: Seq<u8>, pos: int)
    requires
        valid_utf8(buffer),
        is_char_boundary(buffer, pos),
        0 <= pos < buffer.len(),
    ensures
        step(buffer, pos) matches Ok(segment) ==> {
            &&& segment.start == pos
            &&& pos < segment.end <= buffer.len()
            &&& is_char_boundary(buffer, segment.end)
        },
{
    let lead = char_at(buffer, pos);
    lemma_char_at(buffer, pos);
    if lead_of(lead) != Lead::Whitespace && lead_of(lead) != Lead::Other {
        lemma_ascii_byte(buffer, pos);
        if byte_at(buffer, pos + 1) is Some && buffer[pos + 1] < 0x80 {
            lemma_ascii_byte(buffer, pos + 1);
        }
        match lead_of(lead) {
            Lead::Slash => {
                if byte_at(buffer, pos + 1) == Some(SLASH) {
                    lemma_run_end_maximal(buffer, pos + 2, ByteClass::NotNewline);
                    let end = run_end(buffer, pos + 2, ByteClass::NotNewline);
                    if end < buffer.len() {
                        lemma_ascii_byte(buffer, end);
                    } else {
                        is_char_boundary_start_end_of_seq(buffer);
                    }
                }
            },
            Lead::Quote => {
                lemma_run_end_maximal(buffer, pos + 1, ByteClass::NotQuote);
                let close = run_end(buffer, pos + 1, ByteClass::NotQuote);
                if close < buffer.len() {
                    lemma_ascii_byte(buffer, close);
                }
            },
            Lead::Digit => {
                lemma_run_boundary(buffer, pos, ByteClass::Digit);
                let integer_end = run_end(buffer, pos, ByteClass::Digit);
                assert(integer_end > pos) by {
                    lemma_run_end_maximal(buffer, pos + 1, ByteClass::Digit);
                }
                if has_fraction(buffer, integer_end) {
                    lemma_ascii_byte(buffer, integer_end);
                    lemma_run_boundary(buffer, integer_end + 1, ByteClass::Digit);
                }
            },
            Lead::Letter => {
                lemma_run_boundary(buffer, pos, ByteClass::AlphaNumeric);
                assert(run_end(buffer, pos, ByteClass::AlphaNumeric) > pos) by {
                    lemma_run_end_maximal(buffer, pos + 1, ByteClass::AlphaNumeric);
                }
            },
            _ => {},
        }
    }
}

/// Why a scan stopped, and the index of the character or of the opening
/// quote at which it did.
pub struct Failure {
    pub kind: LexErrorKind,
    pub at: int,
}

/// The pieces that the text from index `pos` on is made of, in order, or the
/// first failure on the way.
pub open spec fn segments_from(buffer: Seq<u8>, pos: int) -> Result<Seq<Segment>, Failure>
    decreases buffer.len() - pos,
    when valid_utf8(buffer) && is_char_boundary(buffer, pos)
{
    if pos >= buffer.len() {
        Ok(Seq::empty())
    } else {
        proof {
            lemma_step_bounds(buffer, pos);
        }
        match step(buffer, pos) {
            Err(kind) => Err(Failure { kind, at: pos }),
            Ok(segment) => match segments_from(buffer, segment.end) {
                Err(failure) => Err(failure),
                Ok(others) => Ok(seq![segment] + others),
            },
        }
    }
}

/// The pieces that the whole text is made of.
pub open spec fn segments(buffer: Seq<u8>) -> Result<Seq<Segment>, Failure> {
    segments_from(buffer, 0)
}

/// The bytes of a piece.
pub open spec fn text_of(buffer: Seq<u8>, segment: Segment) -> Seq<u8> {
    buffer.subrange(segment.start, segment.end)
}

/// The token that a piece of kind `kind` stands for.
pub open spec fn token_of(buffer: Seq<u8>, kind: TokenType, segment: Segment) -> TokenView {
    TokenView {
        kind,
        lexeme: text_of(buffer, segment),
        line: line_of(buffer, segment.start),
        offset: offset_of(buffer, segment.start),
    }
}

/// The tokens among the pieces, in order.
pub open spec fn tokens_of(buffer: Seq<u8>, pieces: Seq<Segment>) -> Seq<TokenView>
    decreases pieces.len(),
{
    if pieces.len() == 0 {
        Seq::empty()
    } else {
        let before = tokens_of(buffer, pieces.drop_last());
        match pieces.last().piece {
            Piece::Token(kind) => before.push(token_of(buffer, kind, pieces.last())),
            _ => before,
        }
    }
}

/// The error that reports a failure: its kind, and the line and offset of
/// the index at which the scan stopped.
pub open spec fn error_of(buffer: Seq<u8>, failure: Failure) -> LexErrorView {
    LexErrorView {
        kind: failure.kind,
        line: line_of(buffer, failure.at),
        offset: offset_of(buffer, failure.at),
    }
}

/// The outcome of scanning the whole text: its tokens in order, or the error
/// for the first character at which no rule applies.
pub open spec fn scan(buffer: Seq<u8>) -> Result<Seq<TokenView>, LexErrorView> {
    match segments(buffer) {
        Ok(pieces) => Ok(tokens_of(buffer, pieces)),
        Err(failure) => Err(error_of(buffer, failure)),
    }
}

} // verus!
