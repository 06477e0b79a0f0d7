//! What holds of every scan.

use crate::bytes::{
    is_alphabetic, is_digit, lemma_run_end_maximal, run_end, ByteClass, EQUALS, NEWLINE, QUOTE,
    SLASH,
};
use crate::grammar::{
    has_fraction, lead_of, lemma_reserved_word_kind, lemma_step_bounds, reserved_word, scan,
    segments, segments_from, step, text_of, token_of, tokens_of, Lead, Piece, Segment,
};
use crate::lexer::{outcome, LexError, LexErrorKind, LexErrorView, Token, TokenType, TokenView};
use crate::position::{lemma_lines_in_order, lemma_position_bounds, line_of, offset_of};
use crate::text::{byte_at, char_at, lemma_ascii_byte, lemma_char_at, rest};
use vstd::prelude::*;
use vstd::string::*;
use vstd::utf8::*;

verus! {

/// The bytes of the pieces, one piece after the other.
pub open spec fn joined(buffer: Seq<u8>, pieces: Seq<Segment>) -> Seq<u8>
    decreases pieces.len(),
{
    if pieces.len() == 0 {
        Seq::empty()
    } else {
        text_of(buffer, pieces.first()) + joined(buffer, pieces.drop_first())
    }
}

/// Whether the pieces lie end to end from index `from` to index `to`, each
/// with at least one byte.
pub open spec fn tiles(pieces: Seq<Segment>, from: int, to: int) -> bool {
    &&& if pieces.len() == 0 {
        from == to
    } else {
        pieces.first().start == from && pieces.last().end == to
    }
    &&& forall|i: int| 0 <= i < pieces.len() ==> (#[trigger] pieces[i]).start < pieces[i].end
    &&& forall|i: int, j: int|
        0 <= i && j == i + 1 && j < pieces.len() ==> (#[trigger] pieces[i]).end
            == (#[trigger] pieces[j]).start
}

/// Whether `piece` is what the rules give at the index where it starts, that
/// index being one where a character begins.
pub open spec fn follows_the_rules(buffer: Seq<u8>, piece: Segment) -> bool {
    &&& 0 <= piece.start < buffer.len()
    &&& is_char_boundary(buffer, piece.start)
    &&& step(buffer, piece.start) matches Ok(found)
    &&& found == piece
}

/// Whether every one of the pieces is what the rules give.
pub open spec fn by_the_rules(buffer: Seq<u8>, pieces: Seq<Segment>) -> bool {
    forall|i: int| 0 <= i < pieces.len() ==> follows_the_rules(buffer, #[trigger] pieces[i])
}

/// What holds of the pieces from an index on, where the rest of the text
/// scans without a failure.
pub proof fn lemma_pieces(buffer: Seq<u8>, pos: int)
    requires
        valid_utf8(buffer),
        is_char_boundary(buffer, pos),
        0 <= pos <= buffer.len(),
        segments_from(buffer, pos) is Ok,
    ensures
        tiles(segments_from(buffer, pos)->Ok_0, pos, buffer.len() as int),
        joined(buffer, segments_from(buffer, pos)->Ok_0) == rest(buffer, pos),
        by_the_rules(buffer, segments_from(buffer, pos)->Ok_0),
    decreases buffer.len() - pos,
{
    let pieces = segments_from(buffer, pos)->Ok_0;
    if pos < buffer.len() {
        lemma_step_bounds(buffer, pos);
        let segment = step(buffer, pos)->Ok_0;
        let others = segments_from(buffer, segment.end)->Ok_0;
        lemma_pieces(buffer, segment.end);
        assert(pieces == seq![segment] + others);
        assert(pieces.drop_first() =~= others);
        assert forall|i: int| 0 <= i < pieces.len() implies follows_the_rules(
            buffer,
            #[trigger] pieces[i],
        ) && pieces[i].start < pieces[i].end by {
            if i > 0 {
                assert(pieces[i] == others[i - 1]);
            }
        }
        assert forall|i: int, j: int| 0 <= i && j == i + 1 && j < pieces.len() implies (
        #[trigger] pieces[i]).end == (#[trigger] pieces[j]).start by {
            assert(pieces[j] == others[j - 1]);
            if i > 0 {
                assert(pieces[i] == others[i - 1]);
            }
        }
        assert(joined(buffer, pieces) =~= rest(buffer, pos));
    } else {
        assert(joined(buffer, pieces) =~= rest(buffer, pos));
    }
}

/// Where the scan of a text does not fail, the text is cut into pieces
/// (tokens, whitespace characters and comments) that lie end to end from its
/// first byte to its last, and the bytes of the pieces, put together in
/// order, are the text. The tokens of the scan are the tokens among these
/// pieces.
pub proof fn law_total_coverage(source: &str)
    requires
        scan(source.spec_bytes()) is Ok,
    ensures
        segments(source.spec_bytes()) matches Ok(pieces) && {
            &&& tiles(pieces, 0, source.spec_bytes().len() as int)
            &&& by_the_rules(source.spec_bytes(), pieces)
            &&& joined(source.spec_bytes(), pieces) == source.spec_bytes()
            &&& scan(source.spec_bytes()) matches Ok(tokens)
            &&& tokens == tokens_of(source.spec_bytes(), pieces)
        },
{
    let buffer = source.spec_bytes();
    encode_utf8_valid_utf8(source@);
    lemma_pieces(buffer, 0);
}

/// Two scans of the same text have the same outcome.
pub proof fn law_determinism(
    source: &str,
    again: &str,
    first: Result<Vec<Token>, LexError>,
    second: Result<Vec<Token>, LexError>,
)
    requires
        source@ == again@,
        outcome(first) == scan(source.spec_bytes()),
        outcome(second) == scan(again.spec_bytes()),
    ensures
        outcome(first) == outcome(second),
{
}

/// The piece that a token of a scan came from.
pub proof fn lemma_token_has_piece(buffer: Seq<u8>, pieces: Seq<Segment>, i: int) -> (j: int)
    requires
        0 <= i < tokens_of(buffer, pieces).len(),
    ensures
        0 <= j < pieces.len(),
        pieces[j].piece == Piece::Token(tokens_of(buffer, pieces)[i].kind),
        tokens_of(buffer, pieces)[i] == token_of(
            buffer,
            tokens_of(buffer, pieces)[i].kind,
            pieces[j],
        ),
    decreases pieces.len(),
{
    let before = tokens_of(buffer, pieces.drop_last());
    if pieces.last().piece is Token && i == before.len() {
        pieces.len() - 1
    } else {
        lemma_token_has_piece(buffer, pieces.drop_last(), i)
    }
}

/// In every scan, a token whose lexeme is a reserved word has the kind of
/// that word's keyword, and so never `Identifier`; and a token of a keyword's
/// kind has that keyword's reserved word as lexeme.
pub proof fn law_keyword_precedence(source: &str, i: int, kind: TokenType)
    requires
        scan(source.spec_bytes()) is Ok,
        0 <= i < scan(source.spec_bytes())->Ok_0.len(),
        reserved_word(kind) is Some,
    ensures
        scan(source.spec_bytes())->Ok_0[i].lexeme == reserved_word(kind)->0 <==> scan(
            source.spec_bytes(),
        )->Ok_0[i].kind == kind,
{
    let buffer = source.spec_bytes();
    let pieces = segments(buffer)->Ok_0;
    let token = tokens_of(buffer, pieces)[i];
    encode_utf8_valid_utf8(source@);
    lemma_pieces(buffer, 0);
    let j = lemma_token_has_piece(buffer, pieces, i);
    let piece = pieces[j];
    let start = piece.start;
    lemma_step_bounds(buffer, start);
    lemma_reserved_word_kind(kind);
    assert(token.lexeme == text_of(buffer, piece));
    if token.lexeme == reserved_word(kind)->0 {
        assert(is_alphabetic(buffer[start]));
        lemma_ascii_byte(buffer, start);
        assert(lead_of(char_at(buffer, start)) == Lead::Letter);
    }
}

/// Whether `kind` is one of `!`, `=`, `<` and `>`.
pub open spec fn is_short_operator(kind: TokenType) -> bool {
    ||| kind == TokenType::Bang
    ||| kind == TokenType::Equal
    ||| kind == TokenType::Less
    ||| kind == TokenType::Greater
}

/// Whether `kind` is one of `!=`, `==`, `<=` and `>=`.
pub open spec fn is_long_operator(kind: TokenType) -> bool {
    ||| kind == TokenType::BangEqual
    ||| kind == TokenType::EqualEqual
    ||| kind == TokenType::LessEqual
    ||| kind == TokenType::GreaterEqual
}

/// In every scan, a token `!`, `=`, `<` or `>` is one byte with no `=` right
/// behind it, and a token `!=`, `==`, `<=` or `>=` is two bytes, the second
/// of them `=`. So an operator character and an `=` behind it are never two
/// tokens.
pub proof fn law_greedy_operators(source: &str, i: int, kind: TokenType)
    requires
        segments(source.spec_bytes()) is Ok,
        0 <= i < segments(source.spec_bytes())->Ok_0.len(),
        segments(source.spec_bytes())->Ok_0[i].piece == Piece::Token(kind),
    ensures
        ({
            let buffer = source.spec_bytes();
            let piece = segments(buffer)->Ok_0[i];
            &&& is_short_operator(kind) ==> piece.end == piece.start + 1 && byte_at(
                buffer,
                piece.end,
            ) != Some(EQUALS)
            &&& is_long_operator(kind) ==> piece.end == piece.start + 2 && byte_at(
                buffer,
                piece.start + 1,
            ) == Some(EQUALS)
        }),
{
    let buffer = source.spec_bytes();
    encode_utf8_valid_utf8(source@);
    lemma_pieces(buffer, 0);
    let piece = segments(buffer)->Ok_0[i];
    assert(follows_the_rules(buffer, piece));
}

/// In every scan, a number token is a run of digits that cannot be made
/// longer and, if and only if a full stop and a digit stand right behind that
/// run, the full stop and the run of digits behind it, which cannot be made
/// longer either.
pub proof fn law_fractional_lookahead(source: &str, i: int)
    requires
        segments(source.spec_bytes()) is Ok,
        0 <= i < segments(source.spec_bytes())->Ok_0.len(),
        segments(source.spec_bytes())->Ok_0[i].piece == Piece::Token(TokenType::Number),
    ensures
        ({
            let buffer = source.spec_bytes();
            let piece = segments(buffer)->Ok_0[i];
            let integer_end = run_end(buffer, piece.start, ByteClass::Digit);
            &&& piece.start < integer_end <= buffer.len()
            &&& has_fraction(buffer, integer_end) ==> integer_end + 1 < piece.end && piece.end
                == run_end(buffer, integer_end + 1, ByteClass::Digit)
            &&& !has_fraction(buffer, integer_end) ==> piece.end == integer_end
            &&& !(byte_at(buffer, piece.end) matches Some(byte) && is_digit(byte))
        }),
{
    let buffer = source.spec_bytes();
    encode_utf8_valid_utf8(source@);
    lemma_pieces(buffer, 0);
    let piece = segments(buffer)->Ok_0[i];
    assert(follows_the_rules(buffer, piece));
    lemma_char_at(buffer, piece.start);
    lemma_ascii_byte(buffer, piece.start);
    assert(lead_of(char_at(buffer, piece.start)) == Lead::Digit);
    let integer_end = run_end(buffer, piece.start, ByteClass::Digit);
    lemma_run_end_maximal(buffer, piece.start, ByteClass::Digit);
    lemma_run_end_maximal(buffer, piece.start + 1, ByteClass::Digit);
    if has_fraction(buffer, integer_end) {
        lemma_run_end_maximal(buffer, integer_end + 1, ByteClass::Digit);
        lemma_run_end_maximal(buffer, integer_end + 2, ByteClass::Digit);
    }
}

/// In every scan, a string token begins and ends with a double quote, which
/// are two bytes of it, and holds no double quote in between; whatever else
/// stands in between, newlines too, belongs to it.
pub proof fn law_strings_are_closed(source: &str, i: int)
    requires
        segments(source.spec_bytes()) is Ok,
        0 <= i < segments(source.spec_bytes())->Ok_0.len(),
        segments(source.spec_bytes())->Ok_0[i].piece == Piece::Token(TokenType::String),
    ensures
        ({
            let buffer = source.spec_bytes();
            let piece = segments(buffer)->Ok_0[i];
            &&& 0 <= piece.start && piece.start + 2 <= piece.end <= buffer.len()
            &&& buffer[piece.start] == QUOTE
            &&& buffer[piece.end - 1] == QUOTE
            &&& forall|k: int| piece.start < k < piece.end - 1 ==> #[trigger] buffer[k] != QUOTE
        }),
{
    let buffer = source.spec_bytes();
    encode_utf8_valid_utf8(source@);
    lemma_pieces(buffer, 0);
    let piece = segments(buffer)->Ok_0[i];
    assert(follows_the_rules(buffer, piece));
    lemma_char_at(buffer, piece.start);
    lemma_ascii_byte(buffer, piece.start);
    assert(lead_of(char_at(buffer, piece.start)) == Lead::Quote);
    lemma_run_end_maximal(buffer, piece.start + 1, ByteClass::NotQuote);
}

/// In every scan, a comment begins with two slashes, holds no newline, and
/// ends where the text ends or right before a newline. It is a piece of the
/// text and no token.
pub proof fn law_comments_end_with_their_line(source: &str, i: int)
    requires
        segments(source.spec_bytes()) is Ok,
        0 <= i < segments(source.spec_bytes())->Ok_0.len(),
        segments(source.spec_bytes())->Ok_0[i].piece == Piece::Comment,
    ensures
        ({
            let buffer = source.spec_bytes();
            let piece = segments(buffer)->Ok_0[i];
            &&& 0 <= piece.start && piece.start + 2 <= piece.end <= buffer.len()
            &&& buffer[piece.start] == SLASH
            &&& buffer[piece.start + 1] == SLASH
            &&& forall|k: int| piece.start <= k < piece.end ==> #[trigger] buffer[k] != NEWLINE
            &&& byte_at(buffer, piece.end) == Some(NEWLINE) || piece.end == buffer.len()
        }),
{
    let buffer = source.spec_bytes();
    encode_utf8_valid_utf8(source@);
    lemma_pieces(buffer, 0);
    let piece = segments(buffer)->Ok_0[i];
    assert(follows_the_rules(buffer, piece));
    lemma_char_at(buffer, piece.start);
    lemma_ascii_byte(buffer, piece.start);
    assert(lead_of(char_at(buffer, piece.start)) == Lead::Slash);
    lemma_run_end_maximal(buffer, piece.start + 2, ByteClass::NotNewline);
}

/// Where the scan of the text from an index on fails, it fails at an index
/// at which a character begins and the rules give no piece.
pub proof fn lemma_failure(buffer: Seq<u8>, pos: int)
    requires
        valid_utf8(buffer),
        is_char_boundary(buffer, pos),
        0 <= pos <= buffer.len(),
        segments_from(buffer, pos) is Err,
    ensures
        pos <= segments_from(buffer, pos)->Err_0.at < buffer.len(),
        is_char_boundary(buffer, segments_from(buffer, pos)->Err_0.at),
        step(buffer, segments_from(buffer, pos)->Err_0.at) matches Err(kind) && kind
            == segments_from(buffer, pos)->Err_0.kind,
    decreases buffer.len() - pos,
{
    if pos < buffer.len() {
        lemma_step_bounds(buffer, pos);
        if let Ok(segment) = step(buffer, pos) {
            lemma_failure(buffer, segment.end);
        }
    }
}

/// Where the scan of a text fails, the error gives the line and offset of an
/// index at which a character begins and the rules give no piece: of a
/// double quote behind which no second one stands, for an unterminated
/// string; of a character that is no whitespace and begins no token, for an
/// unexpected character, which the error holds.
pub proof fn law_errors_name_their_place(source: &str) -> (at: int)
    requires
        scan(source.spec_bytes()) is Err,
    ensures
        0 <= at < source.spec_bytes().len(),
        is_char_boundary(source.spec_bytes(), at),
        scan(source.spec_bytes())->Err_0.line == line_of(source.spec_bytes(), at),
        scan(source.spec_bytes())->Err_0.offset == offset_of(source.spec_bytes(), at),
        match scan(source.spec_bytes())->Err_0.kind {
            LexErrorKind::UnterminatedString => {
                &&& source.spec_bytes()[at] == QUOTE
                &&& forall|k: int|
                    at < k < source.spec_bytes().len() ==> #[trigger] source.spec_bytes()[k]
                        != QUOTE
            },
            LexErrorKind::UnexpectedCharacter(character) => {
                &&& character == char_at(source.spec_bytes(), at)
                &&& lead_of(character) == Lead::Other
            },
        },
{
    let buffer = source.spec_bytes();
    encode_utf8_valid_utf8(source@);
    lemma_failure(buffer, 0);
    let at = segments(buffer)->Err_0.at;
    lemma_char_at(buffer, at);
    if lead_of(char_at(buffer, at)) == Lead::Quote {
        lemma_ascii_byte(buffer, at);
        lemma_run_end_maximal(buffer, at + 1, ByteClass::NotQuote);
    }
    at
}

/// The pieces that two tokens of a scan came from stand in the order of the
/// tokens.
pub proof fn lemma_tokens_have_pieces(buffer: Seq<u8>, pieces: Seq<Segment>, i: int, k: int) -> (at:
    (int, int))
    requires
        0 <= i < k < tokens_of(buffer, pieces).len(),
    ensures
        0 <= at.0 < at.1 < pieces.len(),
        tokens_of(buffer, pieces)[i] == token_of(
            buffer,
            tokens_of(buffer, pieces)[i].kind,
            pieces[at.0],
        ),
        tokens_of(buffer, pieces)[k] == token_of(
            buffer,
            tokens_of(buffer, pieces)[k].kind,
            pieces[at.1],
        ),
    decreases pieces.len(),
{
    let before = tokens_of(buffer, pieces.drop_last());
    if pieces.last().piece is Token && k == before.len() {
        (lemma_token_has_piece(buffer, pieces.drop_last(), i), pieces.len() - 1)
    } else {
        lemma_tokens_have_pieces(buffer, pieces.drop_last(), i, k)
    }
}

/// Of pieces that lie end to end, an earlier one ends before a later one
/// starts.
pub proof fn lemma_tiles_in_order(pieces: Seq<Segment>, from: int, to: int, a: int, b: int)
    requires
        tiles(pieces, from, to),
        0 <= a < b < pieces.len(),
    ensures
        pieces[a].start < pieces[a].end <= pieces[b].start,
    decreases b - a,
{
    if a + 1 < b {
        lemma_tiles_in_order(pieces, from, to, a + 1, b);
    }
}

/// Of two tokens of a scan, the later one stands on a later line than the
/// earlier one begins on, or on the same line behind the earlier one's last
/// byte. So tokens come in the order of the text, and no two overlap.
pub proof fn law_source_order(source: &str, i: int, k: int)
    requires
        scan(source.spec_bytes()) is Ok,
        0 <= i < k < scan(source.spec_bytes())->Ok_0.len(),
    ensures
        ({
            let earlier = scan(source.spec_bytes())->Ok_0[i];
            let later = scan(source.spec_bytes())->Ok_0[k];
            ||| earlier.line < later.line
            ||| earlier.line == later.line && earlier.offset + earlier.lexeme.len()
                <= later.offset
        }),
{
    let buffer = source.spec_bytes();
    let pieces = segments(buffer)->Ok_0;
    encode_utf8_valid_utf8(source@);
    lemma_pieces(buffer, 0);
    let (a, b) = lemma_tokens_have_pieces(buffer, pieces, i, k);
    lemma_tiles_in_order(pieces, 0, buffer.len() as int, a, b);
    lemma_lines_in_order(buffer, pieces[a].start, pieces[b].start);
    lemma_position_bounds(buffer, pieces[a].start);
}

} // verus!
