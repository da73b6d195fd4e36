use mjp::{JsonLexer, LexError, Token};

fn lex_one(input: &str) -> Result<Option<Token>, LexError> {
    JsonLexer {
        input,
        byte_offset: 0,
    }
    .next_token()
}

fn number(text: &str) -> Result<Option<Token>, LexError> {
    Ok(Some(Token::Number(text.to_string())))
}

fn string(text: &str) -> Result<Option<Token>, LexError> {
    Ok(Some(Token::String(text.to_string())))
}

fn failure(message: &str) -> Result<Option<Token>, LexError> {
    Err(LexError(message.to_string()))
}

#[test]
fn lex_token_sequence() {
    let mut lexer = JsonLexer {
        input: "{ \"asdf\": 1, \"🗻∈🌏\": true, \"🗻\": 42 }",
        byte_offset: 0,
    };

    assert_eq!(Ok(Some(Token::LBrace)), lexer.next_token());
    assert_eq!(
        Ok(Some(Token::String("asdf".to_string()))),
        lexer.next_token()
    );
    assert_eq!(Ok(Some(Token::Colon)), lexer.next_token());
    assert_eq!(Ok(Some(Token::Number("1".to_string()))), lexer.next_token());
    assert_eq!(Ok(Some(Token::Comma)), lexer.next_token());
    assert_eq!(
        Ok(Some(Token::String("🗻∈🌏".to_string()))),
        lexer.next_token()
    );
    assert_eq!(Ok(Some(Token::Colon)), lexer.next_token());
    assert_eq!(Ok(Some(Token::True)), lexer.next_token());
    assert_eq!(Ok(Some(Token::Comma)), lexer.next_token());
    assert_eq!(
        Ok(Some(Token::String("🗻".to_string()))),
        lexer.next_token()
    );
    assert_eq!(Ok(Some(Token::Colon)), lexer.next_token());
    assert_eq!(
        Ok(Some(Token::Number("42".to_string()))),
        lexer.next_token()
    );
    assert_eq!(Ok(Some(Token::RBrace)), lexer.next_token());
}

#[test]
fn lex_single_tokens() {
    assert_eq!(
        Ok(Some(Token::True)),
        JsonLexer {
            input: "true",
            byte_offset: 0
        }
        .next_token()
    );
    assert_eq!(
        Ok(Some(Token::False)),
        JsonLexer {
            input: "false",
            byte_offset: 0
        }
        .next_token()
    );
    assert_eq!(
        Ok(Some(Token::Null)),
        JsonLexer {
            input: "null",
            byte_offset: 0
        }
        .next_token()
    );
    assert_eq!(
        Ok(Some(Token::Comma)),
        JsonLexer {
            input: ",",
            byte_offset: 0
        }
        .next_token()
    );
    assert_eq!(
        Ok(Some(Token::Colon)),
        JsonLexer {
            input: ":",
            byte_offset: 0
        }
        .next_token()
    );
    assert_eq!(
        Ok(Some(Token::LBrace)),
        JsonLexer {
            input: "{",
            byte_offset: 0
        }
        .next_token()
    );
    assert_eq!(
        Ok(Some(Token::RBrace)),
        JsonLexer {
            input: "}",
            byte_offset: 0
        }
        .next_token()
    );
    assert_eq!(
        Ok(Some(Token::LBracket)),
        JsonLexer {
            input: "[",
            byte_offset: 0
        }
        .next_token()
    );
    assert_eq!(
        Ok(Some(Token::RBracket)),
        JsonLexer {
            input: "]",
            byte_offset: 0
        }
        .next_token()
    );
    assert_eq!(
        Ok(Some(Token::String("asdf".to_string()))),
        JsonLexer {
            input: "\"asdf\"",
            byte_offset: 0
        }
        .next_token()
    );
    assert_eq!(
        Ok(Some(Token::String(r#"as\"df"#.to_string()))),
        JsonLexer {
            input: r#""as\"df""#,
            byte_offset: 0
        }
        .next_token()
    );
    assert_eq!(
        Ok(Some(Token::String(r#"as\uFFFFdf"#.to_string()))),
        JsonLexer {
            input: r#""as\uFFFFdf""#,
            byte_offset: 0
        }
        .next_token()
    );
    assert_eq!(
        Ok(Some(Token::Number("1".to_string()))),
        JsonLexer {
            input: "1",
            byte_offset: 0
        }
        .next_token()
    );
    assert_eq!(
        Ok(Some(Token::Number("1.2".to_string()))),
        JsonLexer {
            input: "1.2",
            byte_offset: 0
        }
        .next_token()
    );
    assert_eq!(
        Ok(Some(Token::Number("1.2E2".to_string()))),
        JsonLexer {
            input: "1.2E2",
            byte_offset: 0
        }
        .next_token()
    );
    assert_eq!(
        Ok(Some(Token::Number("1.2E-2".to_string()))),
        JsonLexer {
            input: "1.2E-2",
            byte_offset: 0
        }
        .next_token()
    );
    assert_eq!(
        Ok(Some(Token::Number("1.2E+2".to_string()))),
        JsonLexer {
            input: "1.2E+2",
            byte_offset: 0
        }
        .next_token()
    );
    assert_eq!(
        Ok(Some(Token::Number("1.2e2".to_string()))),
        JsonLexer {
            input: "1.2e2",
            byte_offset: 0
        }
        .next_token()
    );
    assert_eq!(
        Ok(Some(Token::Number("1.2e-2".to_string()))),
        JsonLexer {
            input: "1.2e-2",
            byte_offset: 0
        }
        .next_token()
    );
    assert_eq!(
        Ok(Some(Token::Number("1.2e+2".to_string()))),
        JsonLexer {
            input: "1.2e+2",
            byte_offset: 0
        }
        .next_token()
    );
}

#[test]
fn single_token_leaves_nothing_behind() {
    for input in ["true", "false", "null", "{", "}", "[", "]", ",", ":"] {
        let mut lexer = JsonLexer::new(input);
        assert!(matches!(lexer.next_token(), Ok(Some(_))), "{input}");
        assert_eq!(lexer.byte_offset, input.len(), "{input}");
        assert_eq!(Ok(None), lexer.next_token(), "{input}");
    }
}

#[test]
fn end_of_input_is_no_error() {
    assert_eq!(Ok(None), lex_one(""));
    let mut lexer = JsonLexer::new(" \t\r\n ");
    assert_eq!(Ok(None), lexer.next_token());
    assert_eq!(lexer.byte_offset, 5);
    assert_eq!(Ok(None), lexer.next_token());
    assert_eq!(lexer.byte_offset, 5);
}

#[test]
fn unicode_whitespace_is_skipped_by_whole_characters() {
    let input = "\u{a0}\u{2003}\u{3000}true \u{85}";
    let mut lexer = JsonLexer::new(input);
    assert_eq!(Ok(Some(Token::True)), lexer.next_token());
    assert_eq!(lexer.byte_offset, 2 + 3 + 3 + 4);
    assert_eq!(Ok(None), lexer.next_token());
    assert_eq!(lexer.byte_offset, input.len());
}

#[test]
fn cursor_stays_on_character_boundaries() {
    let input = "[\"🗻∈🌏\", \"é\"]";
    let mut lexer = JsonLexer::new(input);
    loop {
        let token = lexer.next_token().unwrap();
        assert!(input.is_char_boundary(lexer.byte_offset));
        if token.is_none() {
            break;
        }
    }
    assert_eq!(lexer.byte_offset, input.len());
}

#[test]
fn string_payload_counts_bytes_not_characters() {
    let mut lexer = JsonLexer::new("\"🗻\":");
    assert_eq!(string("🗻"), lexer.next_token());
    assert_eq!(lexer.byte_offset, 6);
    assert_eq!(Ok(Some(Token::Colon)), lexer.next_token());
    assert_eq!(lexer.byte_offset, 7);
}

#[test]
fn negative_and_zero_numbers() {
    assert_eq!(number("-1"), lex_one("-1"));
    assert_eq!(number("-0"), lex_one("-0"));
    assert_eq!(number("0"), lex_one("0"));
    assert_eq!(number("-12.50e+3"), lex_one("-12.50e+3"));
    assert_eq!(number("0.0"), lex_one("0.0"));
    assert_eq!(number("0e0"), lex_one("0e0"));
    assert_eq!(number("1234567890"), lex_one("  1234567890  "));
}

#[test]
fn malformed_numbers_fail() {
    for input in ["-", "-x", "01", "1x", "1e", "1e+", "1_", "00", "-a", "12abc", "1e5x", "0x10"] {
        assert_eq!(failure("unexpected character found"), lex_one(input), "{input}");
    }
}

#[test]
fn number_ends_at_the_longest_part_that_is_followed_by_a_boundary() {
    let mut lexer = JsonLexer::new("1.5x");
    assert_eq!(number("1"), lexer.next_token());
    assert_eq!(lexer.byte_offset, 1);
    assert_eq!(number("1"), lex_one("1.5e"));
    assert_eq!(number("1"), lex_one("1.x"));
    assert_eq!(number("1"), lex_one("1."));
    assert_eq!(number("1.5"), lex_one("1.5.3"));
    assert_eq!(number("1.5"), lex_one("1.5,"));
    assert_eq!(number("1"), lex_one("1.5e+"));
    assert_eq!(number("1.5"), lex_one("1.5 e+1"));
    assert_eq!(number("2e5"), lex_one("2e5]"));
    assert_eq!(number("7"), lex_one("7-"));
}

#[test]
fn keyword_needs_a_word_boundary() {
    for input in ["truex", "nullable", "false_", "true1", "tru", "t", "nul", "fals", "nil"] {
        assert_eq!(failure("unexpected token"), lex_one(input), "{input}");
    }
    assert_eq!(Ok(Some(Token::True)), lex_one("true,"));
    assert_eq!(Ok(Some(Token::Null)), lex_one("null]"));
    assert_eq!(Ok(Some(Token::False)), lex_one("false }"));
    assert_eq!(Ok(Some(Token::True)), lex_one("true\"x\""));
}

#[test]
fn failed_keyword_leaves_cursor_at_its_start() {
    let mut lexer = JsonLexer::new("  truex");
    assert_eq!(failure("unexpected token"), lexer.next_token());
    assert_eq!(lexer.byte_offset, 2);
}

#[test]
fn recognised_escapes_are_kept_verbatim() {
    for escape in ["\\\"", "\\\\", "\\/", "\\f", "\\n", "\\r", "\\t", "\\u00e9", "\\uABCD", "\\u0000"] {
        let input = format!("\"a{escape}b\"");
        let mut lexer = JsonLexer::new(&input);
        assert_eq!(string(&format!("a{escape}b")), lexer.next_token(), "{input}");
        assert_eq!(lexer.byte_offset, input.len(), "{input}");
    }
    assert_eq!(string(""), lex_one("\"\""));
    assert_eq!(string("\\\\"), lex_one("\"\\\\\"x"));
}

#[test]
fn other_escapes_fail() {
    for c in ['a', 'b', 'x', 'U', '0', ' ', '\'', 'é', '\n'] {
        let input = format!("\"a\\{c}b\"");
        assert_eq!(failure("invalid escape sequence"), lex_one(&input), "{input}");
    }
}

#[test]
fn unicode_escape_needs_four_hex_digits() {
    assert_eq!(failure("invalid unicode escape sequence"), lex_one("\"\\u12G4\""));
    assert_eq!(failure("invalid unicode escape sequence"), lex_one("\"\\u12\""));
    assert_eq!(failure("invalid unicode escape sequence"), lex_one("\"\\u\""));
    assert_eq!(failure("invalid unicode escape sequence"), lex_one("\"\\u1 23\""));
    assert_eq!(failure("unclosed string literal"), lex_one("\"\\u12"));
    assert_eq!(failure("unclosed string literal"), lex_one("\"\\u"));
    assert_eq!(failure("unclosed string literal"), lex_one("\"\\u1234"));
}

#[test]
fn raw_control_characters_fail() {
    for c in ['\n', '\t', '\r', '\u{0}', '\u{1f}', '\u{7f}', '\u{85}', '\u{9f}'] {
        let input = format!("\"a{c}b\"");
        assert_eq!(failure("invalid control char in string"), lex_one(&input), "{c:?}");
    }
    assert_eq!(string("a b"), lex_one("\"a b\""));
    assert_eq!(string("a\u{a0}b"), lex_one("\"a\u{a0}b\""));
}

#[test]
fn unclosed_strings_fail() {
    assert_eq!(failure("unclosed string literal"), lex_one("\"abc"));
    assert_eq!(failure("unclosed string literal"), lex_one("\""));
    assert_eq!(failure("unclosed string literal"), lex_one("\"abc\\"));
    assert_eq!(failure("unclosed string literal"), lex_one("\"abc\\\""));
}

#[test]
fn failed_string_leaves_cursor_at_its_quote() {
    let mut lexer = JsonLexer::new(" \"ab\\x\"");
    assert_eq!(failure("invalid escape sequence"), lexer.next_token());
    assert_eq!(lexer.byte_offset, 1);
}

#[test]
fn unknown_characters_are_named() {
    assert_eq!(failure("unable to parse token from char @"), lex_one("@"));
    assert_eq!(failure("unable to parse token from char é"), lex_one("  é"));
    assert_eq!(failure("unable to parse token from char 🗻"), lex_one("🗻"));
    assert_eq!(failure("unable to parse token from char +"), lex_one("+1"));
    assert_eq!(failure("unable to parse token from char ."), lex_one(".5"));
    assert_eq!(failure("unable to parse token from char T"), lex_one("True"));
}

#[test]
fn error_message_is_readable() {
    let error = lex_one("@").unwrap_err();
    assert_eq!(error.message(), "unable to parse token from char @");
}

#[test]
fn tokens_can_be_cloned() {
    for token in [Token::LBrace, Token::Number("1".to_string()), Token::String("a".to_string())] {
        assert_eq!(token.clone(), token);
    }
}

#[test]
fn a_letter_outside_ascii_ends_a_number() {
    let mut lexer = JsonLexer::new("1é");
    assert_eq!(number("1"), lexer.next_token());
    assert_eq!(lexer.byte_offset, 1);
    assert_eq!(
        failure("unable to parse token from char é"),
        lexer.next_token()
    );
    assert_eq!(lexer.byte_offset, 1);
    assert_eq!(number("1.5"), lex_one("1.5ж"));
    assert_eq!(number("2e3"), lex_one("2e3中"));
}

#[test]
fn a_digit_outside_ascii_is_no_digit() {
    let mut lexer = JsonLexer::new("1٣");
    assert_eq!(number("1"), lexer.next_token());
    assert_eq!(
        failure("unable to parse token from char ٣"),
        lexer.next_token()
    );
    assert_eq!(failure("unable to parse token from char ٣"), lex_one("٣"));
    assert_eq!(number("1"), lex_one("1.٣"));
}

#[test]
fn a_letter_outside_ascii_ends_a_keyword() {
    for (input, keyword) in [
        ("trueé", Token::True),
        ("falseж", Token::False),
        ("null中", Token::Null),
    ] {
        let mut lexer = JsonLexer::new(input);
        assert_eq!(Ok(Some(keyword)), lexer.next_token(), "{input}");
        assert!(lexer.next_token().is_err(), "{input}");
    }
}
