use script_lexer::{lex, LexError, LexErrorKind, Token, TokenType};

fn kinds(tokens: &[Token]) -> Vec<TokenType> {
    tokens.iter().map(|token| token.kind).collect()
}

fn lexemes<'a>(tokens: &[Token<'a>]) -> Vec<&'a str> {
    tokens.iter().map(|token| token.lexeme).collect()
}

#[test]
fn empty_text_has_no_tokens() {
    assert_eq!(lex("").unwrap(), vec![]);
}

#[test]
fn whitespace_alone_has_no_tokens() {
    assert_eq!(lex(" \t\r\n \n").unwrap(), vec![]);
}

#[test]
fn single_character_punctuation() {
    let tokens = lex("(){},.-+;*").unwrap();
    assert_eq!(
        kinds(&tokens),
        vec![
            TokenType::LeftParen,
            TokenType::RightParen,
            TokenType::LeftBrace,
            TokenType::RightBrace,
            TokenType::Comma,
            TokenType::Dot,
            TokenType::Minus,
            TokenType::Plus,
            TokenType::Semicolon,
            TokenType::Star,
        ]
    );
    assert_eq!(lexemes(&tokens), vec!["(", ")", "{", "}", ",", ".", "-", "+", ";", "*"]);
    for (index, token) in tokens.iter().enumerate() {
        assert_eq!(token.line, 0);
        assert_eq!(token.offset, index);
    }
}

#[test]
fn bang_equal_is_one_token() {
    let tokens = lex("!=").unwrap();
    assert_eq!(
        tokens,
        vec![Token { kind: TokenType::BangEqual, lexeme: "!=", line: 0, offset: 0 }]
    );
}

#[test]
fn bang_alone_is_bang() {
    let tokens = lex("!").unwrap();
    assert_eq!(tokens, vec![Token { kind: TokenType::Bang, lexeme: "!", line: 0, offset: 0 }]);
}

#[test]
fn less_equal_is_one_token() {
    let tokens = lex("<=").unwrap();
    assert_eq!(
        tokens,
        vec![Token { kind: TokenType::LessEqual, lexeme: "<=", line: 0, offset: 0 }]
    );
}

#[test]
fn equal_before_another_character_is_equal() {
    let tokens = lex("=x").unwrap();
    assert_eq!(
        tokens,
        vec![
            Token { kind: TokenType::Equal, lexeme: "=", line: 0, offset: 0 },
            Token { kind: TokenType::Identifier, lexeme: "x", line: 0, offset: 1 },
        ]
    );
}

#[test]
fn every_operator_alone_and_with_equals() {
    let tokens = lex("! != = == < <= > >=").unwrap();
    assert_eq!(
        kinds(&tokens),
        vec![
            TokenType::Bang,
            TokenType::BangEqual,
            TokenType::Equal,
            TokenType::EqualEqual,
            TokenType::Less,
            TokenType::LessEqual,
            TokenType::Greater,
            TokenType::GreaterEqual,
        ]
    );
    assert_eq!(lexemes(&tokens), vec!["!", "!=", "=", "==", "<", "<=", ">", ">="]);
}

#[test]
fn three_equals_are_equal_equal_then_equal() {
    let tokens = lex("===").unwrap();
    assert_eq!(kinds(&tokens), vec![TokenType::EqualEqual, TokenType::Equal]);
    assert_eq!(tokens[1].offset, 2);
}

#[test]
fn operator_and_equals_apart_are_two_tokens() {
    let tokens = lex("! =").unwrap();
    assert_eq!(kinds(&tokens), vec![TokenType::Bang, TokenType::Equal]);
    assert_eq!(tokens[1].offset, 2);
}

#[test]
fn number_with_fraction_is_one_token() {
    let tokens = lex("123.456").unwrap();
    assert_eq!(
        tokens,
        vec![Token { kind: TokenType::Number, lexeme: "123.456", line: 0, offset: 0 }]
    );
}

#[test]
fn number_before_final_dot_leaves_the_dot() {
    let tokens = lex("123.").unwrap();
    assert_eq!(
        tokens,
        vec![
            Token { kind: TokenType::Number, lexeme: "123", line: 0, offset: 0 },
            Token { kind: TokenType::Dot, lexeme: ".", line: 0, offset: 3 },
        ]
    );
}

#[test]
fn number_before_dot_and_letters_leaves_the_dot() {
    let tokens = lex("123.abc").unwrap();
    assert_eq!(
        tokens,
        vec![
            Token { kind: TokenType::Number, lexeme: "123", line: 0, offset: 0 },
            Token { kind: TokenType::Dot, lexeme: ".", line: 0, offset: 3 },
            Token { kind: TokenType::Identifier, lexeme: "abc", line: 0, offset: 4 },
        ]
    );
}

#[test]
fn number_takes_one_fraction_only() {
    let tokens = lex("1.2.3").unwrap();
    assert_eq!(kinds(&tokens), vec![TokenType::Number, TokenType::Dot, TokenType::Number]);
    assert_eq!(lexemes(&tokens), vec!["1.2", ".", "3"]);
}

#[test]
fn dot_before_digits_is_a_dot() {
    let tokens = lex(".5").unwrap();
    assert_eq!(kinds(&tokens), vec![TokenType::Dot, TokenType::Number]);
    assert_eq!(lexemes(&tokens), vec![".", "5"]);
}

#[test]
fn single_digit_is_a_number() {
    let tokens = lex("7").unwrap();
    assert_eq!(tokens, vec![Token { kind: TokenType::Number, lexeme: "7", line: 0, offset: 0 }]);
}

#[test]
fn string_keeps_its_quotes() {
    let tokens = lex("\"hello\"").unwrap();
    assert_eq!(
        tokens,
        vec![Token { kind: TokenType::String, lexeme: "\"hello\"", line: 0, offset: 0 }]
    );
}

#[test]
fn empty_string_is_a_string() {
    let tokens = lex("\"\"").unwrap();
    assert_eq!(tokens, vec![Token { kind: TokenType::String, lexeme: "\"\"", line: 0, offset: 0 }]);
}

#[test]
fn string_with_newline_is_one_token() {
    let tokens = lex("\"a\nb\"").unwrap();
    assert_eq!(
        tokens,
        vec![Token { kind: TokenType::String, lexeme: "\"a\nb\"", line: 0, offset: 0 }]
    );
}

#[test]
fn newline_in_string_counts_one_line() {
    let tokens = lex("\"a\nb\" x").unwrap();
    assert_eq!(
        tokens,
        vec![
            Token { kind: TokenType::String, lexeme: "\"a\nb\"", line: 0, offset: 0 },
            Token { kind: TokenType::Identifier, lexeme: "x", line: 1, offset: 3 },
        ]
    );
}

#[test]
fn string_holds_slashes_and_keywords() {
    let tokens = lex("\"// not a comment while\"").unwrap();
    assert_eq!(kinds(&tokens), vec![TokenType::String]);
}

#[test]
fn unterminated_string_is_an_error() {
    assert_eq!(
        lex("\"abc"),
        Err(LexError { kind: LexErrorKind::UnterminatedString, line: 0, offset: 0 })
    );
}

#[test]
fn unterminated_string_reports_the_opening_quote() {
    assert_eq!(
        lex("x = 1;\n  \"abc\ndef"),
        Err(LexError { kind: LexErrorKind::UnterminatedString, line: 1, offset: 2 })
    );
}

#[test]
fn lone_quote_is_unterminated() {
    assert_eq!(
        lex("\""),
        Err(LexError { kind: LexErrorKind::UnterminatedString, line: 0, offset: 0 })
    );
}

#[test]
fn line_comment_gives_no_token() {
    let tokens = lex("// comment\ncode").unwrap();
    assert_eq!(
        tokens,
        vec![Token { kind: TokenType::Identifier, lexeme: "code", line: 1, offset: 0 }]
    );
}

#[test]
fn comment_at_the_end_of_the_text() {
    let tokens = lex("x // the rest").unwrap();
    assert_eq!(
        tokens,
        vec![Token { kind: TokenType::Identifier, lexeme: "x", line: 0, offset: 0 }]
    );
}

#[test]
fn comment_may_hold_anything() {
    let tokens = lex("// \" _ @ \u{e9}\n;").unwrap();
    assert_eq!(
        tokens,
        vec![Token { kind: TokenType::Semicolon, lexeme: ";", line: 1, offset: 0 }]
    );
}

#[test]
fn slash_alone_is_a_token() {
    let tokens = lex("a / b").unwrap();
    assert_eq!(
        kinds(&tokens),
        vec![TokenType::Identifier, TokenType::Slash, TokenType::Identifier]
    );
    assert_eq!(tokens[1].offset, 2);
}

#[test]
fn slash_at_the_end_is_a_token() {
    let tokens = lex("/").unwrap();
    assert_eq!(tokens, vec![Token { kind: TokenType::Slash, lexeme: "/", line: 0, offset: 0 }]);
}

#[test]
fn end_to_end_example() {
    let tokens = lex("var x = 1 + 2.5; // sum\nprint x;").unwrap();
    assert_eq!(
        tokens,
        vec![
            Token { kind: TokenType::Var, lexeme: "var", line: 0, offset: 0 },
            Token { kind: TokenType::Identifier, lexeme: "x", line: 0, offset: 4 },
            Token { kind: TokenType::Equal, lexeme: "=", line: 0, offset: 6 },
            Token { kind: TokenType::Number, lexeme: "1", line: 0, offset: 8 },
            Token { kind: TokenType::Plus, lexeme: "+", line: 0, offset: 10 },
            Token { kind: TokenType::Number, lexeme: "2.5", line: 0, offset: 12 },
            Token { kind: TokenType::Semicolon, lexeme: ";", line: 0, offset: 15 },
            Token { kind: TokenType::Print, lexeme: "print", line: 1, offset: 0 },
            Token { kind: TokenType::Identifier, lexeme: "x", line: 1, offset: 6 },
            Token { kind: TokenType::Semicolon, lexeme: ";", line: 1, offset: 7 },
        ]
    );
}

#[test]
fn every_keyword_has_its_kind() {
    let source = "and class else false fun for if nil or print return super this true var while";
    let tokens = lex(source).unwrap();
    assert_eq!(
        kinds(&tokens),
        vec![
            TokenType::And,
            TokenType::Class,
            TokenType::Else,
            TokenType::False,
            TokenType::Fun,
            TokenType::For,
            TokenType::If,
            TokenType::Nil,
            TokenType::Or,
            TokenType::Print,
            TokenType::Return,
            TokenType::Super,
            TokenType::This,
            TokenType::True,
            TokenType::Var,
            TokenType::While,
        ]
    );
    assert_eq!(lexemes(&tokens), source.split(' ').collect::<Vec<&str>>());
}

#[test]
fn while_is_a_keyword() {
    let tokens = lex("while").unwrap();
    assert_eq!(
        tokens,
        vec![Token { kind: TokenType::While, lexeme: "while", line: 0, offset: 0 }]
    );
}

#[test]
fn longer_and_shorter_words_are_identifiers() {
    let tokens = lex("whilex whil While and1 f classes").unwrap();
    assert_eq!(kinds(&tokens), vec![TokenType::Identifier; 6]);
    assert_eq!(lexemes(&tokens), vec!["whilex", "whil", "While", "and1", "f", "classes"]);
}

#[test]
fn identifier_takes_letters_and_digits() {
    let tokens = lex("abc123def 9lives").unwrap();
    assert_eq!(
        kinds(&tokens),
        vec![TokenType::Identifier, TokenType::Number, TokenType::Identifier]
    );
    assert_eq!(lexemes(&tokens), vec!["abc123def", "9", "lives"]);
}

#[test]
fn underscore_is_unexpected() {
    assert_eq!(
        lex("_"),
        Err(LexError { kind: LexErrorKind::UnexpectedCharacter('_'), line: 0, offset: 0 })
    );
}

#[test]
fn underscore_ends_an_identifier() {
    assert_eq!(
        lex("snake_case"),
        Err(LexError { kind: LexErrorKind::UnexpectedCharacter('_'), line: 0, offset: 5 })
    );
}

#[test]
fn unsupported_punctuation_is_unexpected() {
    assert_eq!(
        lex("a;\n b @ c"),
        Err(LexError { kind: LexErrorKind::UnexpectedCharacter('@'), line: 1, offset: 3 })
    );
}

#[test]
fn letter_outside_ascii_is_unexpected() {
    assert_eq!(
        lex("x = \u{e9};"),
        Err(LexError { kind: LexErrorKind::UnexpectedCharacter('\u{e9}'), line: 0, offset: 4 })
    );
}

#[test]
fn character_of_four_bytes_is_reported_whole() {
    assert_eq!(
        lex("\n\n\u{1F600}"),
        Err(LexError { kind: LexErrorKind::UnexpectedCharacter('\u{1F600}'), line: 2, offset: 0 })
    );
}

#[test]
fn first_error_wins() {
    assert_eq!(
        lex("# \"open"),
        Err(LexError { kind: LexErrorKind::UnexpectedCharacter('#'), line: 0, offset: 0 })
    );
}

#[test]
fn newline_resets_the_offset() {
    let tokens = lex("a\n  b\n\n c").unwrap();
    assert_eq!(
        tokens,
        vec![
            Token { kind: TokenType::Identifier, lexeme: "a", line: 0, offset: 0 },
            Token { kind: TokenType::Identifier, lexeme: "b", line: 1, offset: 2 },
            Token { kind: TokenType::Identifier, lexeme: "c", line: 3, offset: 1 },
        ]
    );
}

#[test]
fn carriage_return_and_tab_are_skipped() {
    let tokens = lex("a\r\n\tb").unwrap();
    assert_eq!(
        tokens,
        vec![
            Token { kind: TokenType::Identifier, lexeme: "a", line: 0, offset: 0 },
            Token { kind: TokenType::Identifier, lexeme: "b", line: 1, offset: 1 },
        ]
    );
}

#[test]
fn offsets_count_bytes_in_strings() {
    let tokens = lex("\"\u{e9}\u{4e16}\" x").unwrap();
    assert_eq!(
        tokens,
        vec![
            Token { kind: TokenType::String, lexeme: "\"\u{e9}\u{4e16}\"", line: 0, offset: 0 },
            Token { kind: TokenType::Identifier, lexeme: "x", line: 0, offset: 8 },
        ]
    );
}

#[test]
fn whitespace_outside_ascii_is_skipped_by_its_bytes() {
    let tokens = lex("a\u{a0}b\u{3000}c\u{2028}d").unwrap();
    assert_eq!(
        tokens,
        vec![
            Token { kind: TokenType::Identifier, lexeme: "a", line: 0, offset: 0 },
            Token { kind: TokenType::Identifier, lexeme: "b", line: 0, offset: 3 },
            Token { kind: TokenType::Identifier, lexeme: "c", line: 0, offset: 7 },
            Token { kind: TokenType::Identifier, lexeme: "d", line: 0, offset: 11 },
        ]
    );
}

#[test]
fn zero_width_space_is_no_whitespace() {
    assert_eq!(
        lex("a\u{200b}b"),
        Err(LexError { kind: LexErrorKind::UnexpectedCharacter('\u{200b}'), line: 0, offset: 1 })
    );
}

#[test]
fn scanning_twice_gives_the_same() {
    let source = "fun f(a, b) { return a <= b; } // done\n\"s\n\" 1.5";
    assert_eq!(lex(source), lex(source));
    let copy = String::from(source);
    assert_eq!(lex(source), lex(&copy));
    assert_eq!(lex("\"open"), lex("\"open"));
}

#[test]
fn lexemes_and_gaps_give_the_text_back() {
    let source = "var x = 1 + 2.5; // sum \u{e9}\n\tprint \"a\nb\u{4e16}\" ;\u{a0}x!=y//";
    let tokens = lex(source).unwrap();
    let mut line_starts = vec![0usize];
    for (index, byte) in source.bytes().enumerate() {
        if byte == b'\n' {
            line_starts.push(index + 1);
        }
    }
    let mut rebuilt = String::new();
    let mut at = 0usize;
    for token in &tokens {
        let start = line_starts[token.line] + token.offset;
        assert!(at <= start);
        let gap = &source[at..start];
        let mut in_comment = false;
        for c in gap.chars() {
            if c == '\n' {
                in_comment = false;
            } else if c == '/' {
                in_comment = true;
            } else {
                assert!(in_comment || c.is_whitespace());
            }
        }
        rebuilt.push_str(gap);
        assert_eq!(&source[start..start + token.lexeme.len()], token.lexeme);
        rebuilt.push_str(token.lexeme);
        at = start + token.lexeme.len();
    }
    rebuilt.push_str(&source[at..]);
    assert_eq!(&source[at..], "//");
    assert_eq!(rebuilt, source);
    assert_eq!(tokens.len(), 13);
}

#[test]
fn tokens_come_in_source_order() {
    let source = "a\nbb ccc\n\n(d)";
    let tokens = lex(source).unwrap();
    let places: Vec<(usize, usize)> = tokens.iter().map(|t| (t.line, t.offset)).collect();
    assert_eq!(places, vec![(0, 0), (1, 0), (1, 3), (3, 0), (3, 1), (3, 2)]);
}
