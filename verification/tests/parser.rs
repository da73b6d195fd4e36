use mjp::parser::{same_kind, token_text};
use mjp::{parse, BooleanVal, Json, JsonError, JsonLexer, JsonParseError, JsonParser, LexError, Pair, Token, Value};

fn doc(input: &str) -> Result<Json, JsonError> {
    parse(JsonLexer::new(input))
}

fn value(input: &str) -> Value {
    doc(input).unwrap().value
}

fn syntax(message: &str) -> JsonError {
    JsonError::Parse(JsonParseError(message.to_string()))
}

fn lexical(message: &str) -> JsonError {
    JsonError::Lex(LexError(message.to_string()))
}

fn num(text: &str) -> Value {
    Value::Number(text.to_string())
}

fn pair(key: &str, value: Value) -> Pair {
    Pair {
        key: key.to_string(),
        value,
    }
}

#[test]
fn empty_containers() {
    assert_eq!(value("{}"), Value::Object(vec![]));
    assert_eq!(value("[]"), Value::Array(vec![]));
    assert_eq!(value(" { } "), Value::Object(vec![]));
    assert_eq!(value("[ ]"), Value::Array(vec![]));
}

#[test]
fn scalars() {
    assert_eq!(value("123"), num("123"));
    assert_eq!(value("-1.5e3"), num("-1.5e3"));
    assert_eq!(value("\"a\\nb\""), Value::Str("a\\nb".to_string()));
    assert_eq!(value("true"), Value::Boolean(BooleanVal::True));
    assert_eq!(value("false"), Value::Boolean(BooleanVal::False));
    assert_eq!(value("null"), Value::Null);
}

#[test]
fn duplicate_keys_are_rejected() {
    assert_eq!(doc("{\"a\":1,\"a\":2}"), Err(syntax("duplicate key: a")));
    assert_eq!(
        doc("{\"a\":1,\"b\":2,\"c\":{},\"b\":[]}"),
        Err(syntax("duplicate key: b"))
    );
    assert_eq!(doc("{\"\":1,\"\":2}"), Err(syntax("duplicate key: ")));
}

#[test]
fn distinct_keys_keep_source_order() {
    assert_eq!(
        value("{\"a\":1,\"b\":2}"),
        Value::Object(vec![pair("a", num("1")), pair("b", num("2"))])
    );
    assert_eq!(
        value("{\"b\":1,\"a\":2,\"c\":3}"),
        Value::Object(vec![
            pair("b", num("1")),
            pair("a", num("2")),
            pair("c", num("3"))
        ])
    );
}

#[test]
fn keys_may_repeat_across_nesting_levels() {
    assert_eq!(
        value("{\"a\":{\"a\":1},\"b\":[{\"a\":2},{\"a\":3}]}"),
        Value::Object(vec![
            pair("a", Value::Object(vec![pair("a", num("1"))])),
            pair(
                "b",
                Value::Array(vec![
                    Value::Object(vec![pair("a", num("2"))]),
                    Value::Object(vec![pair("a", num("3"))]),
                ])
            ),
        ])
    );
}

#[test]
fn keys_are_compared_as_written() {
    assert_eq!(
        value("{\"a\":1,\"\\u0061\":2}"),
        Value::Object(vec![pair("a", num("1")), pair("\\u0061", num("2"))])
    );
}

#[test]
fn trailing_content_is_rejected() {
    assert_eq!(
        doc("123 456"),
        Err(syntax("unexpected content following root value"))
    );
    assert_eq!(
        doc("{} []"),
        Err(syntax("unexpected content following root value"))
    );
    assert_eq!(
        doc("[1],"),
        Err(syntax("unexpected content following root value"))
    );
    assert_eq!(value("123"), num("123"));
    assert_eq!(value(" 123 \n"), num("123"));
}

#[test]
fn lexical_error_after_the_root_value_is_reported() {
    assert_eq!(
        doc("123 @"),
        Err(lexical("unable to parse token from char @"))
    );
}

#[test]
fn nested_structures() {
    assert_eq!(
        value("[1,[2,3],{\"k\":[true,false,null]}]"),
        Value::Array(vec![
            num("1"),
            Value::Array(vec![num("2"), num("3")]),
            Value::Object(vec![pair(
                "k",
                Value::Array(vec![
                    Value::Boolean(BooleanVal::True),
                    Value::Boolean(BooleanVal::False),
                    Value::Null,
                ])
            )]),
        ])
    );
    assert_eq!(
        value("[[[[]]]]"),
        Value::Array(vec![Value::Array(vec![Value::Array(vec![Value::Array(
            vec![]
        )])])])
    );
}

#[test]
fn deep_nesting() {
    let depth = 200;
    let input = format!("{}{}", "[".repeat(depth), "]".repeat(depth));
    let mut v = &value(&input);
    let mut seen = 1;
    while let Value::Array(items) = v {
        if items.is_empty() {
            break;
        }
        assert_eq!(items.len(), 1);
        v = &items[0];
        seen += 1;
    }
    assert_eq!(seen, depth);
}

#[test]
fn unicode_keys_are_preserved() {
    assert_eq!(
        value("{\"🗻∈🌏\": true}"),
        Value::Object(vec![pair("🗻∈🌏", Value::Boolean(BooleanVal::True))])
    );
}

#[test]
fn unclosed_containers_and_strings() {
    assert_eq!(doc("[1,2"), Err(syntax("unclosed array delimiter")));
    assert_eq!(doc("["), Err(syntax("unclosed array delimiter")));
    assert_eq!(doc("{\"a\":1"), Err(syntax("unclosed object")));
    assert_eq!(doc("{"), Err(syntax("unclosed object")));
    assert_eq!(doc("\"abc"), Err(lexical("unclosed string literal")));
    assert_eq!(doc("[\"abc"), Err(lexical("unclosed string literal")));
    assert_eq!(doc("[[1]"), Err(syntax("unclosed array delimiter")));
    assert_eq!(doc("{\"a\":[1]"), Err(syntax("unclosed object")));
}

#[test]
fn empty_input_has_no_value() {
    assert_eq!(
        doc(""),
        Err(syntax("expected value but input ended prematurely"))
    );
    assert_eq!(
        doc("  "),
        Err(syntax("expected value but input ended prematurely"))
    );
    assert_eq!(
        doc("[1,"),
        Err(syntax("expected value but input ended prematurely"))
    );
    assert_eq!(
        doc("{\"a\":"),
        Err(syntax("expected value but input ended prematurely"))
    );
}

#[test]
fn misplaced_tokens_are_named() {
    assert_eq!(doc("]"), Err(syntax("expected a value, but got RBracket")));
    assert_eq!(doc("}"), Err(syntax("expected a value, but got RBrace")));
    assert_eq!(doc(","), Err(syntax("expected a value, but got Comma")));
    assert_eq!(doc(":"), Err(syntax("expected a value, but got Colon")));
    assert_eq!(doc("[,]"), Err(syntax("expected a value, but got Comma")));
    assert_eq!(doc("[1,]"), Err(syntax("expected a value, but got RBracket")));
    assert_eq!(
        doc("[1 2]"),
        Err(syntax("expected Comma, but got Number(\"2\")"))
    );
    assert_eq!(
        doc("[1 \"x\"]"),
        Err(syntax("expected Comma, but got String(\"x\")"))
    );
    assert_eq!(doc("[1 true]"), Err(syntax("expected Comma, but got True")));
    assert_eq!(doc("[1}"), Err(syntax("expected Comma, but got RBrace")));
    assert_eq!(
        doc("{\"a\":1 \"b\":2}"),
        Err(syntax("expected Comma, but got String(\"b\")"))
    );
}

#[test]
fn object_members_need_string_keys_and_colons() {
    assert_eq!(
        doc("{1:2}"),
        Err(syntax("expected string, but got Number(\"1\")"))
    );
    assert_eq!(doc("{,}"), Err(syntax("expected string, but got Comma")));
    assert_eq!(
        doc("{\"a\":1,}"),
        Err(syntax("expected string, but got RBrace"))
    );
    assert_eq!(
        doc("{\"a\":1,"),
        Err(syntax("expected string, but input ended prematurely"))
    );
    assert_eq!(
        doc("{\"a\" 1}"),
        Err(syntax("expected Colon, but got Number(\"1\")"))
    );
    assert_eq!(doc("{\"a\"}"), Err(syntax("expected Colon, but got RBrace")));
    assert_eq!(
        doc("{\"a\""),
        Err(syntax("expected Colon, but input ended prematurely"))
    );
    assert_eq!(doc("{\"a\":}"), Err(syntax("expected a value, but got RBrace")));
}

#[test]
fn lexical_errors_pass_through() {
    assert_eq!(doc("[1, tru]"), Err(lexical("unexpected token")));
    assert_eq!(doc("[01]"), Err(lexical("unexpected character found")));
    assert_eq!(
        doc("{\"a\": \"b\\q\"}"),
        Err(lexical("invalid escape sequence"))
    );
    assert_eq!(
        doc("[\"a\tb\"]"),
        Err(lexical("invalid control char in string"))
    );
    assert_eq!(doc("[1, @]"), Err(lexical("unable to parse token from char @")));
}

#[test]
fn first_failure_wins() {
    // The parse error comes before the malformed string is ever read.
    assert_eq!(
        doc("[1 2 \"abc"),
        Err(syntax("expected Comma, but got Number(\"2\")"))
    );
    // The value of the repeated key is read before the key is checked.
    assert_eq!(
        doc("{\"a\":1,\"a\":@}"),
        Err(lexical("unable to parse token from char @"))
    );
}

#[test]
fn error_messages_are_readable() {
    assert_eq!(doc("[1,2").unwrap_err().message(), "unclosed array delimiter");
    assert_eq!(doc("\"abc").unwrap_err().message(), "unclosed string literal");
    assert_eq!(
        JsonParseError("unclosed object".to_string()).message(),
        "unclosed object"
    );
}

#[test]
fn boolean_values_spell_their_keyword() {
    assert_eq!(BooleanVal::True.as_str(), "true");
    assert_eq!(BooleanVal::False.as_str(), "false");
}

#[test]
fn parse_starts_at_the_cursor() {
    let lexer = JsonLexer {
        input: "[1] [2]",
        byte_offset: 3,
    };
    assert_eq!(parse(lexer).unwrap().value, Value::Array(vec![num("2")]));
}

#[test]
fn parser_buffers_tokens_in_order() {
    let mut parser = JsonParser::new(JsonLexer::new("[1, 2]"));
    assert_eq!(parser.current(), Ok(Some(Token::LBracket)));
    assert_eq!(parser.current(), Ok(Some(Token::LBracket)));
    assert_eq!(parser.tokens, vec![Token::LBracket]);
    assert_eq!(parser.position, 0);
    let parsed = parser.parse_value().unwrap();
    assert_eq!(parsed, Value::Array(vec![num("1"), num("2")]));
    assert_eq!(parser.position, 5);
    assert_eq!(
        parser.tokens,
        vec![
            Token::LBracket,
            Token::Number("1".to_string()),
            Token::Comma,
            Token::Number("2".to_string()),
            Token::RBracket,
        ]
    );
    assert_eq!(parser.current(), Ok(None));
    assert_eq!(parser.tokens.len(), 5);
}

#[test]
fn expected_kind_ignores_payload() {
    let mut parser = JsonParser::new(JsonLexer::new("\"a\" 12"));
    assert_eq!(parser.expect_skip(&Token::String("zzz".to_string())), Ok(()));
    assert_eq!(parser.position, 1);
    assert_eq!(parser.expect_skip(&Token::Number("0".to_string())), Ok(()));
    assert_eq!(parser.position, 2);
    assert_eq!(
        parser.expect_skip(&Token::Comma),
        Err(syntax("expected Comma, but input ended prematurely"))
    );
}

#[test]
fn token_text_names_each_kind() {
    let shown = [
        (Token::LBrace, "LBrace"),
        (Token::RBrace, "RBrace"),
        (Token::LBracket, "LBracket"),
        (Token::RBracket, "RBracket"),
        (Token::Comma, "Comma"),
        (Token::Colon, "Colon"),
        (Token::True, "True"),
        (Token::False, "False"),
        (Token::Null, "Null"),
        (Token::Number("-1.5e3".to_string()), "Number(\"-1.5e3\")"),
        (Token::String("a\\nb".to_string()), "String(\"a\\nb\")"),
        (Token::String(String::new()), "String(\"\")"),
    ];
    for (token, text) in &shown {
        assert_eq!(token_text(token), *text);
    }
}

#[test]
fn same_kind_compares_kinds_only() {
    let tokens = [
        Token::LBrace,
        Token::RBrace,
        Token::LBracket,
        Token::RBracket,
        Token::Comma,
        Token::Colon,
        Token::True,
        Token::False,
        Token::Number("1".to_string()),
        Token::String("1".to_string()),
        Token::Null,
    ];
    for (i, a) in tokens.iter().enumerate() {
        for (j, b) in tokens.iter().enumerate() {
            assert_eq!(same_kind(a, b), i == j, "{a:?} {b:?}");
        }
    }
    assert!(same_kind(
        &Token::Number("1".to_string()),
        &Token::Number("2".to_string())
    ));
    assert!(same_kind(
        &Token::String("a".to_string()),
        &Token::String("b".to_string())
    ));
}

#[test]
fn current_leaves_a_buffered_token_alone() {
    let mut parser = JsonParser::new(JsonLexer::new("[1, 2]"));
    assert_eq!(parser.current(), Ok(Some(Token::LBracket)));
    let offset = parser.lexer.byte_offset;
    assert_eq!(offset, 1);
    for _ in 0..3 {
        assert_eq!(parser.current(), Ok(Some(Token::LBracket)));
        assert_eq!(parser.tokens, vec![Token::LBracket]);
        assert_eq!(parser.lexer.byte_offset, offset);
        assert_eq!(parser.position, 0);
    }
}

#[test]
fn current_appends_exactly_one_token() {
    let mut parser = JsonParser::new(JsonLexer::new("[1, 2]"));
    parser.current().unwrap();
    parser.position = 1;
    assert_eq!(parser.current(), Ok(Some(Token::Number("1".to_string()))));
    assert_eq!(
        parser.tokens,
        vec![Token::LBracket, Token::Number("1".to_string())]
    );
    assert_eq!(parser.lexer.byte_offset, 2);
    assert_eq!(parser.position, 1);
}

#[test]
fn current_appends_nothing_at_the_end_or_on_a_fault() {
    let mut parser = JsonParser::new(JsonLexer::new("  "));
    assert_eq!(parser.current(), Ok(None));
    assert_eq!(parser.tokens, vec![]);
    assert_eq!(parser.lexer.byte_offset, 2);
    assert_eq!(parser.current(), Ok(None));
    assert_eq!(parser.tokens, vec![]);

    let mut parser = JsonParser::new(JsonLexer::new(" @"));
    assert_eq!(
        parser.current(),
        Err(LexError("unable to parse token from char @".to_string()))
    );
    assert_eq!(parser.tokens, vec![]);
    assert_eq!(parser.position, 0);
    assert_eq!(parser.lexer.byte_offset, 1);
}

#[test]
fn failed_expectation_leaves_the_position() {
    let mut parser = JsonParser {
        lexer: JsonLexer::new(""),
        tokens: vec![Token::RBrace],
        position: 0,
    };
    assert_eq!(
        parser.expect_skip(&Token::Comma),
        Err(syntax("expected Comma, but got RBrace"))
    );
    assert_eq!(parser.position, 0);
    assert_eq!(parser.tokens, vec![Token::RBrace]);
    assert_eq!(
        parser.expect_string(),
        Err(syntax("expected string, but got RBrace"))
    );
    assert_eq!(parser.position, 0);

    let mut parser = JsonParser::new(JsonLexer::new(""));
    assert_eq!(
        parser.expect_skip(&Token::Comma),
        Err(syntax("expected Comma, but input ended prematurely"))
    );
    assert_eq!(parser.position, 0);
    assert_eq!(parser.tokens, vec![]);
    assert_eq!(
        parser.expect_string(),
        Err(syntax("expected string, but input ended prematurely"))
    );
    assert_eq!(parser.position, 0);
    assert_eq!(parser.tokens, vec![]);
}

#[test]
fn expect_string_passes_over_a_string_only() {
    let mut parser = JsonParser::new(JsonLexer::new("\"k\" 1"));
    assert_eq!(parser.expect_string(), Ok("k".to_string()));
    assert_eq!(parser.position, 1);
    assert_eq!(
        parser.expect_string(),
        Err(syntax("expected string, but got Number(\"1\")"))
    );
    assert_eq!(parser.position, 1);
    assert_eq!(parser.tokens.len(), 2);
}

#[test]
fn a_token_that_starts_no_value_is_not_passed_over() {
    for (input, shown) in [("}", "RBrace"), ("]", "RBracket"), (",", "Comma"), (":", "Colon")] {
        let mut parser = JsonParser::new(JsonLexer::new(input));
        assert_eq!(
            parser.parse_value(),
            Err(syntax(&format!("expected a value, but got {shown}")))
        );
        assert_eq!(parser.position, 0);
        assert_eq!(parser.tokens.len(), 1);
    }
    for input in ["", "  \n"] {
        let mut parser = JsonParser::new(JsonLexer::new(input));
        assert_eq!(
            parser.parse_value(),
            Err(syntax("expected value but input ended prematurely"))
        );
        assert_eq!(parser.position, 0);
        assert_eq!(parser.tokens, vec![]);
    }
}

#[test]
fn a_failure_inside_a_container_leaves_the_parser_where_it_was_found() {
    let mut parser = JsonParser::new(JsonLexer::new("[1 2]"));
    assert_eq!(
        parser.parse_value(),
        Err(syntax("expected Comma, but got Number(\"2\")"))
    );
    assert_eq!(parser.position, 2);
    assert_eq!(parser.tokens.len(), 3);

    let mut parser = JsonParser::new(JsonLexer::new("{\"a\":1,\"a\":2}"));
    assert_eq!(parser.parse_value(), Err(syntax("duplicate key: a")));
    assert_eq!(parser.position, 8);
    assert_eq!(parser.tokens.len(), 8);

    let mut parser = JsonParser::new(JsonLexer::new("[1,2"));
    assert_eq!(parser.parse_value(), Err(syntax("unclosed array delimiter")));
    assert_eq!(parser.position, 4);
    assert_eq!(parser.tokens.len(), 4);
    assert_eq!(parser.lexer.byte_offset, 4);
}

#[test]
fn a_value_is_read_without_looking_behind_it() {
    let mut parser = JsonParser::new(JsonLexer::new("[1] 2"));
    assert_eq!(parser.parse_value(), Ok(Value::Array(vec![num("1")])));
    assert_eq!(parser.position, 3);
    assert_eq!(parser.tokens.len(), 3);
    assert_eq!(parser.lexer.byte_offset, 3);
}

#[test]
fn parse_json_ends_behind_all_tokens_at_the_end_of_the_text() {
    let input = " \n123 \t\r\n";
    let mut parser = JsonParser {
        lexer: JsonLexer {
            input,
            byte_offset: 0,
        },
        tokens: vec![],
        position: 0,
    };
    assert_eq!(parser.parse_json(), Ok(Json { value: num("123") }));
    assert_eq!(parser.tokens, vec![Token::Number("123".to_string())]);
    assert_eq!(parser.position, 1);
    assert_eq!(parser.lexer.byte_offset, input.len());

    let mut parser = JsonParser::new(JsonLexer::new("123 456"));
    assert_eq!(
        parser.parse_json(),
        Err(syntax("unexpected content following root value"))
    );
    assert_eq!(parser.position, 1);
    assert_eq!(parser.tokens.len(), 2);
}

#[test]
fn a_new_parser_has_read_nothing() {
    let parser = JsonParser::new(JsonLexer {
        input: "[1] [2]",
        byte_offset: 3,
    });
    assert_eq!(parser.tokens, vec![]);
    assert_eq!(parser.position, 0);
    assert_eq!(parser.lexer.byte_offset, 3);
    assert_eq!(parser.lexer.input, "[1] [2]");
}
