use mjp::{JsonLexer, LexError, Token};
use regex::Regex;

/// All texts of up to `max_len` characters over `alphabet`.
fn texts(alphabet: &[char], max_len: usize) -> Vec<String> {
    let mut all = vec![String::new()];
    let mut last = vec![String::new()];
    for _ in 0..max_len {
        let mut next = Vec::new();
        for text in &last {
            for c in alphabet {
                let mut longer = text.clone();
                longer.push(*c);
                next.push(longer);
            }
        }
        all.extend(next.iter().cloned());
        last = next;
    }
    all
}

fn lex_one(input: &str) -> (Result<Option<Token>, LexError>, usize) {
    let mut lexer = JsonLexer::new(input);
    let token = lexer.next_token();
    (token, lexer.byte_offset)
}

#[test]
fn numbers_agree_with_the_number_pattern() {
    let pattern = Regex::new(r"^(-?(?:0|[1-9]\d*)(?:\.\d+)?(?:(?:e|E)[+-]?\d+)?)\b").unwrap();
    let mut checked = 0;
    for text in texts(&['-', '+', '0', '1', '9', '.', 'e', 'E', 'x', ','], 5) {
        if !text.starts_with(|c: char| c == '-' || c.is_ascii_digit()) {
            continue;
        }
        let expected = pattern
            .captures(&text)
            .and_then(|groups| groups.get(1))
            .map(|found| found.as_str().to_string());
        let (token, offset) = lex_one(&text);
        match expected {
            Some(literal) => {
                assert_eq!(offset, literal.len(), "{text}");
                assert_eq!(token, Ok(Some(Token::Number(literal))), "{text}");
            }
            None => {
                assert_eq!(
                    token,
                    Err(LexError("unexpected character found".to_string())),
                    "{text}"
                );
                assert_eq!(offset, 0, "{text}");
            }
        }
        checked += 1;
    }
    assert!(checked > 40_000);
}

#[test]
fn keywords_agree_with_the_keyword_patterns() {
    let keywords = [
        ('t', Regex::new(r"^true\b").unwrap(), Token::True, 4),
        ('f', Regex::new(r"^false\b").unwrap(), Token::False, 5),
        ('n', Regex::new(r"^null\b").unwrap(), Token::Null, 4),
    ];
    let tails = texts(&['e', 'l', 's', 'u', '_', '1', ',', ' '], 3);
    let mut checked = 0;
    for (first, pattern, keyword, len) in &keywords {
        for stem in ["", "r", "ru", "rue", "a", "al", "als", "alse", "u", "ul", "ull"] {
            for tail in &tails {
                let text = format!("{first}{stem}{tail}");
                let (token, offset) = lex_one(&text);
                if pattern.is_match(&text) {
                    assert_eq!(token, Ok(Some(keyword.clone())), "{text}");
                    assert_eq!(offset, *len, "{text}");
                } else {
                    assert_eq!(
                        token,
                        Err(LexError("unexpected token".to_string())),
                        "{text}"
                    );
                    assert_eq!(offset, 0, "{text}");
                }
                checked += 1;
            }
        }
    }
    assert!(checked > 10_000);
}
