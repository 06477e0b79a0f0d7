//! Tokens, lexical errors, and the scanner that produces them.

use crate::bytes::{
    digit, lemma_run_end_maximal, same_bytes, ByteClass, DOT, EQUALS, QUOTE, SLASH,
};
use crate::cursor::Cursor;
use crate::grammar::{
    has_fraction, lead_of, lemma_step_bounds, number_end, scan, segments, segments_from, step,
    tokens_of, word_kind, Failure, Lead, Piece, Segment,
};
use crate::text::{char_here, char_width, lemma_char_at, whitespace};
use vstd::prelude::*;
use vstd::string::*;
use vstd::utf8::*;

verus! {

/// The kinds of token.
#[derive(Clone, Copy, Debug, PartialEq, Eq, Hash, Structural)]
pub enum TokenType {
    // Single character tokens
    LeftParen,
    RightParen,
    LeftBrace,
    RightBrace,
    Comma,
    Dot,
    Minus,
    Plus,
    Semicolon,
    Slash,
    Star,
    // One or two character tokens
    Bang,
    BangEqual,
    Equal,
    EqualEqual,
    Greater,
    GreaterEqual,
    Less,
    LessEqual,
    // Literals
    Identifier,
    String,
    Number,
    // Keywords
    And,
    Class,
    Else,
    False,
    Fun,
    For,
    If,
    Nil,
    Or,
    Print,
    Return,
    Super,
    This,
    True,
    Var,
    While,
}

/// A classified piece of the source text.
#[derive(Clone, Copy, Debug, PartialEq, Eq)]
pub struct Token<'a> {
    /// What the token is.
    pub kind: TokenType,
    /// The text of the token, as it stands in the source.
    pub lexeme: &'a str,
    /// The number of newlines before the token, so that the first line is 0.
    pub line: usize,
    /// The offset in bytes of the token's first byte within its line.
    pub offset: usize,
}

/// A token as a mathematical value.
pub struct TokenView {
    pub kind: TokenType,
    /// The bytes of the lexeme.
    pub lexeme: Seq<u8>,
    pub line: nat,
    pub offset: nat,
}

impl<'a> View for Token<'a> {
    type V = TokenView;

    open spec fn view(&self) -> TokenView {
        TokenView {
            kind: self.kind,
            lexeme: self.lexeme.spec_bytes(),
            line: self.line as nat,
            offset: self.offset as nat,
        }
    }
}

/// What stops a scan.
#[derive(Clone, Copy, Debug, PartialEq, Eq, Structural)]
pub enum LexErrorKind {
    /// A character with which no token begins.
    UnexpectedCharacter(char),
    /// A string literal that the end of the text cuts short.
    UnterminatedString,
}

/// A lexical error: what stopped the scan, and the place of the character or
/// of the opening quote at which it was found.
#[derive(Clone, Copy, Debug, PartialEq, Eq, Structural)]
pub struct LexError {
    pub kind: LexErrorKind,
    /// The number of newlines before that place.
    pub line: usize,
    /// The offset in bytes of that place within its line.
    pub offset: usize,
}

/// A lexical error as a mathematical value.
pub struct LexErrorView {
    pub kind: LexErrorKind,
    pub line: nat,
    pub offset: nat,
}

impl View for LexError {
    type V = LexErrorView;

    open spec fn view(&self) -> LexErrorView {
        LexErrorView { kind: self.kind, line: self.line as nat, offset: self.offset as nat }
    }
}

/// Finds the rule that the first character `c` selects.
pub fn classify(c: char) -> (lead: Lead)
    ensures
        lead == lead_of(c),
{
    if whitespace(c) {
        Lead::Whitespace
    } else if c == '(' {
        Lead::Punctuation(TokenType::LeftParen)
    } else if c == ')' {
        Lead::Punctuation(TokenType::RightParen)
    } else if c == '{' {
        Lead::Punctuation(TokenType::LeftBrace)
    } else if c == '}' {
        Lead::Punctuation(TokenType::RightBrace)
    } else if c == ',' {
        Lead::Punctuation(TokenType::Comma)
    } else if c == '.' {
        Lead::Punctuation(TokenType::Dot)
    } else if c == '-' {
        Lead::Punctuation(TokenType::Minus)
    } else if c == '+' {
        Lead::Punctuation(TokenType::Plus)
    } else if c == ';' {
        Lead::Punctuation(TokenType::Semicolon)
    } else if c == '*' {
        Lead::Punctuation(TokenType::Star)
    } else if c == '!' {
        Lead::Operator(TokenType::Bang, TokenType::BangEqual)
    } else if c == '=' {
        Lead::Operator(TokenType::Equal, TokenType::EqualEqual)
    } else if c == '<' {
        Lead::Operator(TokenType::Less, TokenType::LessEqual)
    } else if c == '>' {
        Lead::Operator(TokenType::Greater, TokenType::GreaterEqual)
    } else if c == '/' {
        Lead::Slash
    } else if c == '"' {
        Lead::Quote
    } else if '0' <= c && c <= '9' {
        Lead::Digit
    } else if ('a' <= c && c <= 'z') || ('A' <= c && c <= 'Z') {
        Lead::Letter
    } else {
        Lead::Other
    }
}

/// Tests whether `word` is the reserved word `reserved`.
fn is_word(word: &str, reserved: &str) -> (same: bool)
    ensures
        same == (word.spec_bytes() == reserved.spec_bytes()),
{
    same_bytes(word.as_bytes(), reserved.as_bytes())
}

/// Looks `word` up in the table of reserved words.
pub fn keyword_kind(word: &str) -> (kind: TokenType)
    ensures
        kind == word_kind(word.spec_bytes()),
{
    if is_word(word, "and") {
        TokenType::And
    } else if is_word(word, "class") {
        TokenType::Class
    } else if is_word(word, "else") {
        TokenType::Else
    } else if is_word(word, "false") {
        TokenType::False
    } else if is_word(word, "fun") {
        TokenType::Fun
    } else if is_word(word, "for") {
        TokenType::For
    } else if is_word(word, "if") {
        TokenType::If
    } else if is_word(word, "nil") {
        TokenType::Nil
    } else if is_word(word, "or") {
        TokenType::Or
    } else if is_word(word, "print") {
        TokenType::Print
    } else if is_word(word, "return") {
        TokenType::Return
    } else if is_word(word, "super") {
        TokenType::Super
    } else if is_word(word, "this") {
        TokenType::This
    } else if is_word(word, "true") {
        TokenType::True
    } else if is_word(word, "var") {
        TokenType::Var
    } else if is_word(word, "while") {
        TokenType::While
    } else {
        TokenType::Identifier
    }
}

/// The fractional lookahead: tests whether a full stop stands at the cursor
/// with a digit right behind it.
pub fn fraction_follows(cursor: &Cursor) -> (follows: bool)
    ensures
        follows == has_fraction(cursor@.buffer, cursor@.position),
{
    match cursor.peek() {
        Some(byte) => {
            if byte == DOT {
                match cursor.peek_next() {
                    Some(after) => digit(after),
                    None => false,
                }
            } else {
                false
            }
        },
        None => false,
    }
}

/// Reads a number literal: digits and, where the lookahead finds one, a
/// fraction.
fn scan_number(cursor: &mut Cursor)
    ensures
        final(cursor)@.buffer == old(cursor)@.buffer,
        final(cursor)@.position == number_end(old(cursor)@.buffer, old(cursor)@.position),
{
    cursor.count_bytes_while(ByteClass::Digit);
    if fraction_follows(cursor) {
        cursor.advance();
        cursor.count_bytes_while(ByteClass::Digit);
    }
}

/// Reads the piece that begins at the cursor and says what it is. Where no
/// character begins at the cursor, that is at the end of the text or inside
/// the encoding of a character, it reads nothing and returns `None`. Where no
/// piece begins with the character at the cursor, the error says why.
pub fn next_piece(cursor: &mut Cursor) -> (piece: Result<Option<Piece>, LexErrorKind>)
    ensures
        final(cursor)@.buffer == old(cursor)@.buffer,
        match char_here(old(cursor)@.buffer, old(cursor)@.position) {
            None => piece matches Ok(None) && final(cursor)@.position == old(cursor)@.position,
            Some(_) => match step(old(cursor)@.buffer, old(cursor)@.position) {
                Ok(segment) => {
                    &&& piece matches Ok(Some(found))
                    &&& found == segment.piece
                    &&& final(cursor)@.position == segment.end
                },
                Err(kind) => {
                    &&& piece matches Err(error)
                    &&& error == kind
                    &&& final(cursor)@.position == if kind is UnterminatedString {
                        old(cursor)@.buffer.len() as int
                    } else {
                        old(cursor)@.position
                    }
                },
            },
        },
{
    let ghost buffer = cursor@.buffer;
    let ghost pos = cursor@.position;
    let start = cursor.position();
    let lead = match cursor.peek_char() {
        Some(lead) => lead,
        None => {
            return Ok(None);
        },
    };
    proof {
        cursor.lemma_text();
        lemma_char_at(buffer, pos);
        lemma_step_bounds(buffer, pos);
    }
    match classify(lead) {
        Lead::Whitespace => {
            cursor.advance_by(char_width(lead));
            Ok(Some(Piece::Whitespace))
        },
        Lead::Punctuation(kind) => {
            cursor.advance();
            Ok(Some(Piece::Token(kind)))
        },
        Lead::Operator(alone, with_equals) => {
            cursor.advance();
            if cursor.consume_if(EQUALS) {
                Ok(Some(Piece::Token(with_equals)))
            } else {
                Ok(Some(Piece::Token(alone)))
            }
        },
        Lead::Slash => {
            cursor.advance();
            if cursor.consume_if(SLASH) {
                cursor.count_bytes_while(ByteClass::NotNewline);
                Ok(Some(Piece::Comment))
            } else {
                Ok(Some(Piece::Token(TokenType::Slash)))
            }
        },
        Lead::Quote => {
            cursor.advance();
            cursor.count_bytes_while(ByteClass::NotQuote);
            proof {
                lemma_run_end_maximal(buffer, pos + 1, ByteClass::NotQuote);
            }
            if cursor.consume_if(QUOTE) {
                Ok(Some(Piece::Token(TokenType::String)))
            } else {
                Err(LexErrorKind::UnterminatedString)
            }
        },
        Lead::Digit => {
            scan_number(cursor);
            Ok(Some(Piece::Token(TokenType::Number)))
        },
        Lead::Letter => {
            cursor.count_bytes_while(ByteClass::AlphaNumeric);
            Ok(Some(Piece::Token(keyword_kind(cursor.lexeme_from(start)))))
        },
        Lead::Other => Err(LexErrorKind::UnexpectedCharacter(lead)),
    }
}

/// The tokens of a vector as mathematical values.
pub open spec fn views(tokens: Seq<Token>) -> Seq<TokenView> {
    tokens.map_values(|token: Token| token@)
}

/// The outcome of a scan as a mathematical value.
pub open spec fn outcome(result: Result<Vec<Token>, LexError>) -> Result<
    Seq<TokenView>,
    LexErrorView,
> {
    match result {
        Ok(tokens) => Ok(views(tokens@)),
        Err(error) => Err(error@),
    }
}

/// Pieces that were read, put before what the rest of the text gives.
spec fn read_so_far(
    read: Seq<Segment>,
    rest: Result<Seq<Segment>, Failure>,
) -> Result<Seq<Segment>, Failure> {
    match rest {
        Ok(others) => Ok(read + others),
        Err(failure) => Err(failure),
    }
}

/// Scans `source` in one pass and returns its tokens in order, or the error
/// for the first character at which no rule applies.
pub fn lex<'a>(source: &'a str) -> (result: Result<Vec<Token<'a>>, LexError>)
    ensures
        outcome(result) == scan(source.spec_bytes()),
{
    let ghost buffer = source.spec_bytes();
    let ghost mut read: Seq<Segment> = Seq::empty();
    let mut tokens: Vec<Token<'a>> = Vec::new();
    let mut cursor = Cursor::new(source);
    proof {
        encode_utf8_valid_utf8(source@);
    }
    loop
        invariant
            buffer == source.spec_bytes(),
            valid_utf8(buffer),
            cursor@.buffer == buffer,
            0 <= cursor@.position <= buffer.len(),
            is_char_boundary(buffer, cursor@.position),
            segments(buffer) == read_so_far(read, segments_from(buffer, cursor@.position)),
            views(tokens@) == tokens_of(buffer, read),
        decreases buffer.len() - cursor@.position,
    {
        let start = cursor.position();
        let line = cursor.line();
        let offset = cursor.offset();
        proof {
            if start < buffer.len() {
                lemma_step_bounds(buffer, start as int);
            }
        }
        match next_piece(&mut cursor) {
            Err(kind) => {
                return Err(LexError { kind, line, offset });
            },
            Ok(None) => {
                return Ok(tokens);
            },
            Ok(Some(piece)) => {
                let ghost segment = Segment { piece, start: start as int, end: cursor@.position };
                let ghost others = segments_from(buffer, cursor@.position);
                proof {
                    assert(step(buffer, start as int) matches Ok(found) && found == segment);
                    if others is Ok {
                        assert(read + (seq![segment] + others->Ok_0) =~= read.push(segment)
                            + others->Ok_0);
                    }
                    assert(read.push(segment).drop_last() =~= read);
                }
                if let Piece::Token(kind) = piece {
                    let token = Token { kind, lexeme: cursor.lexeme_from(start), line, offset };
                    tokens.push(token);
                    assert(views(tokens@) =~= tokens_of(buffer, read).push(token@));
                }
                proof {
                    read = read.push(segment);
                }
            },
        }
    }
}

} // verus!
