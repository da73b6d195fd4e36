//! The token grammar, as functions on sequences of characters.
//!
//! `lex` says which token stands at the head of a text, how many characters
//! it takes, or why no token can be read there.

use crate::chars::{
    is_control, is_digit, is_hex_digit, is_simple_escape, is_whitespace, is_word_char,
};
use vstd::prelude::*;

verus! {

/// A token as a mathematical value: the payload of a number or a string is
/// the sequence of its characters.
pub enum TokenView {
    LBrace,
    RBrace,
    LBracket,
    RBracket,
    Comma,
    Colon,
    True,
    False,
    Number(Seq<char>),
    String(Seq<char>),
    Null,
}

/// What reading one token from a text yields.
pub enum Lexed {
    /// A token, and the number of characters read for it, leading whitespace
    /// included.
    Token(TokenView, int),
    /// Nothing but whitespace is left.
    End,
    /// No token can be read; the message says why.
    Error(Seq<char>),
}

pub open spec fn msg_unexpected_token() -> Seq<char> {
    "unexpected token"@
}

pub open spec fn msg_unexpected_character() -> Seq<char> {
    "unexpected character found"@
}

pub open spec fn msg_unknown_char_prefix() -> Seq<char> {
    "unable to parse token from char "@
}

pub open spec fn msg_unknown_char(c: char) -> Seq<char> {
    msg_unknown_char_prefix() + seq![c]
}

pub open spec fn msg_control_char() -> Seq<char> {
    "invalid control char in string"@
}

pub open spec fn msg_invalid_unicode_escape() -> Seq<char> {
    "invalid unicode escape sequence"@
}

pub open spec fn msg_invalid_escape() -> Seq<char> {
    "invalid escape sequence"@
}

pub open spec fn msg_unclosed_string() -> Seq<char> {
    "unclosed string literal"@
}

/// The first index from `i` on that holds no whitespace.
pub open spec fn whitespace_end(s: Seq<char>, i: int) -> int
    decreases s.len() - i,
{
    if 0 <= i < s.len() && is_whitespace(s[i]) {
        whitespace_end(s, i + 1)
    } else {
        i
    }
}

/// The first index from `i` on that holds no digit.
pub open spec fn digit_run(s: Seq<char>, i: int) -> int
    decreases s.len() - i,
{
    if 0 <= i < s.len() && is_digit(s[i]) {
        digit_run(s, i + 1)
    } else {
        i
    }
}

/// A run of digits from `i` ends within the text, holds digits only, and
/// stops before a character that is no digit.
pub proof fn lemma_digit_run(s: Seq<char>, i: int)
    requires
        0 <= i <= s.len(),
    ensures
        i <= digit_run(s, i) <= s.len(),
        forall|k: int| i <= k < digit_run(s, i) ==> is_digit(#[trigger] s[k]),
        digit_run(s, i) < s.len() ==> !is_digit(s[digit_run(s, i)]),
    decreases s.len() - i,
{
    if i < s.len() && is_digit(s[i]) {
        lemma_digit_run(s, i + 1);
    }
}

/// No word character stands at `i`: a word that ends before `i` ends there.
/// Word characters are the ASCII letters, the ASCII digits and `_`; every
/// other character, a letter or digit outside ASCII included, ends a word.
pub open spec fn word_boundary(s: Seq<char>, i: int) -> bool {
    i >= s.len() || !is_word_char(s[i])
}

/// `word` stands at the head of `s` and ends at a word boundary.
pub open spec fn keyword_at(s: Seq<char>, word: Seq<char>) -> bool {
    word.is_prefix_of(s) && word_boundary(s, word.len() as int)
}

/// 1 where `s` starts with a minus sign, else 0.
pub open spec fn sign_len(s: Seq<char>) -> int {
    if s.len() > 0 && s[0] == '-' {
        1
    } else {
        0
    }
}

/// Where the integer part of a number at the head of `s` ends: after the
/// optional sign, a single `0` or a run of digits that starts with a non-zero
/// one.
pub open spec fn integer_end(s: Seq<char>) -> Option<int> {
    let a = sign_len(s);
    if a < s.len() && s[a] == '0' {
        Some(a + 1)
    } else if a < s.len() && is_digit(s[a]) {
        Some(digit_run(s, a))
    } else {
        None
    }
}

/// Where a fraction that starts at `i` ends (a point and at least one digit),
/// or `i` where none starts there.
pub open spec fn fraction_end(s: Seq<char>, i: int) -> int {
    if 0 <= i && i + 1 < s.len() && s[i] == '.' && is_digit(s[i + 1]) {
        digit_run(s, i + 1)
    } else {
        i
    }
}

/// Where an exponent that starts at `i` ends (`e` or `E`, an optional sign and
/// at least one digit), or `i` where none starts there.
pub open spec fn exponent_end(s: Seq<char>, i: int) -> int {
    if 0 <= i < s.len() && (s[i] == 'e' || s[i] == 'E') {
        let j = if i + 1 < s.len() && (s[i + 1] == '+' || s[i + 1] == '-') {
            i + 2
        } else {
            i + 1
        };
        if j < s.len() && is_digit(s[j]) {
            digit_run(s, j)
        } else {
            i
        }
    } else {
        i
    }
}

/// The length of the number at the head of `s`: the longest of integer part
/// with fraction and exponent, integer part with fraction, and integer part
/// alone that ends at a word boundary.
pub open spec fn number_len(s: Seq<char>) -> Option<int> {
    match integer_end(s) {
        None => None,
        Some(i) => {
            let f = fraction_end(s, i);
            let e = exponent_end(s, f);
            if word_boundary(s, e) {
                Some(e)
            } else if word_boundary(s, f) {
                Some(f)
            } else if word_boundary(s, i) {
                Some(i)
            } else {
                None
            }
        },
    }
}

/// What is wrong with the hexadecimal digit expected at `i`, if anything.
pub open spec fn hex_fault(s: Seq<char>, i: int) -> Option<Seq<char>> {
    if i >= s.len() {
        Some(msg_unclosed_string())
    } else if !is_hex_digit(s[i]) {
        Some(msg_invalid_unicode_escape())
    } else {
        None
    }
}

/// What is wrong with the four hexadecimal digits expected from `i` on, if
/// anything: the fault of the first that has one.
pub open spec fn unicode_escape_fault(s: Seq<char>, i: int) -> Option<Seq<char>> {
    if hex_fault(s, i) is Some {
        hex_fault(s, i)
    } else if hex_fault(s, i + 1) is Some {
        hex_fault(s, i + 1)
    } else if hex_fault(s, i + 2) is Some {
        hex_fault(s, i + 2)
    } else {
        hex_fault(s, i + 3)
    }
}

/// The index of the quote that closes a string whose body is read from `i`
/// on, or the reason why the string is malformed.
pub open spec fn string_close(s: Seq<char>, i: int) -> Result<int, Seq<char>>
    decreases s.len() - i,
{
    if i < 0 || i >= s.len() {
        Err(msg_unclosed_string())
    } else if s[i] == '"' {
        Ok(i)
    } else if is_control(s[i]) {
        Err(msg_control_char())
    } else if s[i] == '\\' {
        if i + 1 >= s.len() {
            Err(msg_unclosed_string())
        } else if is_simple_escape(s[i + 1]) {
            string_close(s, i + 2)
        } else if s[i + 1] == 'u' {
            match unicode_escape_fault(s, i + 2) {
                Some(m) => Err(m),
                None => string_close(s, i + 6),
            }
        } else {
            Err(msg_invalid_escape())
        }
    } else {
        string_close(s, i + 1)
    }
}

pub open spec fn word_true() -> Seq<char> {
    seq!['t', 'r', 'u', 'e']
}

pub open spec fn word_false() -> Seq<char> {
    seq!['f', 'a', 'l', 's', 'e']
}

pub open spec fn word_null() -> Seq<char> {
    seq!['n', 'u', 'l', 'l']
}

/// The token that `word` spells, where it stands at the head of `s`.
pub open spec fn scan_keyword(s: Seq<char>, word: Seq<char>, token: TokenView) -> Lexed {
    if keyword_at(s, word) {
        Lexed::Token(token, word.len() as int)
    } else {
        Lexed::Error(msg_unexpected_token())
    }
}

/// The token at the head of `s`, which starts with a character that is no
/// whitespace. The first character decides which kind of token is tried.
pub open spec fn scan(s: Seq<char>) -> Lexed
    recommends
        s.len() > 0,
{
    let c = s[0];
    if c == '{' {
        Lexed::Token(TokenView::LBrace, 1)
    } else if c == '}' {
        Lexed::Token(TokenView::RBrace, 1)
    } else if c == '[' {
        Lexed::Token(TokenView::LBracket, 1)
    } else if c == ']' {
        Lexed::Token(TokenView::RBracket, 1)
    } else if c == ',' {
        Lexed::Token(TokenView::Comma, 1)
    } else if c == ':' {
        Lexed::Token(TokenView::Colon, 1)
    } else if c == 't' {
        scan_keyword(s, word_true(), TokenView::True)
    } else if c == 'f' {
        scan_keyword(s, word_false(), TokenView::False)
    } else if c == 'n' {
        scan_keyword(s, word_null(), TokenView::Null)
    } else if c == '"' {
        match string_close(s, 1) {
            Ok(e) => Lexed::Token(TokenView::String(s.subrange(1, e)), e + 1),
            Err(m) => Lexed::Error(m),
        }
    } else if c == '-' || is_digit(c) {
        match number_len(s) {
            Some(n) => Lexed::Token(TokenView::Number(s.take(n)), n),
            None => Lexed::Error(msg_unexpected_character()),
        }
    } else {
        Lexed::Error(msg_unknown_char(c))
    }
}

/// The next token of `s`: leading whitespace is passed over, and the token
/// that follows it is read.
pub open spec fn lex(s: Seq<char>) -> Lexed {
    let w = whitespace_end(s, 0);
    if w >= s.len() {
        Lexed::End
    } else {
        match scan(s.skip(w)) {
            Lexed::Token(t, n) => Lexed::Token(t, w + n),
            Lexed::End => Lexed::End,
            Lexed::Error(m) => Lexed::Error(m),
        }
    }
}

/// A run of whitespace from `i` ends within the text, holds whitespace only,
/// and stops before a character that is none.
pub proof fn lemma_whitespace_end(s: Seq<char>, i: int)
    requires
        0 <= i <= s.len(),
    ensures
        i <= whitespace_end(s, i) <= s.len(),
        forall|k: int| i <= k < whitespace_end(s, i) ==> is_whitespace(#[trigger] s[k]),
        whitespace_end(s, i) < s.len() ==> !is_whitespace(s[whitespace_end(s, i)]),
    decreases s.len() - i,
{
    if i < s.len() && is_whitespace(s[i]) {
        lemma_whitespace_end(s, i + 1);
    }
}

/// The quote that closes a string stands within the text, at or after the
/// place from which it was sought.
pub proof fn lemma_string_close(s: Seq<char>, i: int)
    requires
        0 <= i,
    ensures
        string_close(s, i) matches Ok(e) ==> i <= e < s.len() && s[e] == '"',
    decreases s.len() - i,
{
    if i < s.len() && s[i] != '"' && !is_control(s[i]) {
        if s[i] == '\\' {
            if i + 1 < s.len() {
                if is_simple_escape(s[i + 1]) {
                    lemma_string_close(s, i + 2);
                } else if s[i + 1] == 'u' && unicode_escape_fault(s, i + 2) is None {
                    lemma_string_close(s, i + 6);
                }
            }
        } else {
            lemma_string_close(s, i + 1);
        }
    }
}

/// A number takes at least one character, and none beyond the text.
pub proof fn lemma_number_len(s: Seq<char>)
    ensures
        number_len(s) matches Some(n) ==> 0 < n <= s.len(),
        integer_end(s) matches Some(i) ==> sign_len(s) < i <= fraction_end(s, i) <= exponent_end(
            s,
            fraction_end(s, i),
        ) <= s.len(),
{
    match integer_end(s) {
        None => {},
        Some(i) => {
            let a = sign_len(s);
            lemma_digit_run(s, a);
            if a < s.len() {
                lemma_digit_run(s, a + 1);
            }
            if i + 1 < s.len() {
                lemma_digit_run(s, i + 1);
            }
            let f = fraction_end(s, i);
            if f + 1 <= s.len() {
                lemma_digit_run(s, f + 1);
            }
            if f + 2 <= s.len() {
                lemma_digit_run(s, f + 2);
            }
        },
    }
}

/// A token takes at least one character, and none beyond the text.
pub proof fn lemma_lex_progress(s: Seq<char>)
    ensures
        lex(s) matches Lexed::Token(t, n) ==> 0 < n <= s.len(),
{
    lemma_whitespace_end(s, 0);
    let w = whitespace_end(s, 0);
    if w < s.len() {
        let t = s.skip(w);
        lemma_string_close(t, 1);
        lemma_number_len(t);
    }
}

/// The number of characters that one call of the tokenizer passes over: a
/// token with the whitespace before it; the whole text where nothing but
/// whitespace is left; the leading whitespace where no token can be read.
pub open spec fn lex_len(s: Seq<char>) -> int {
    match lex(s) {
        Lexed::Token(_, n) => n,
        Lexed::End => s.len() as int,
        Lexed::Error(_) => whitespace_end(s, 0),
    }
}

/// A call of the tokenizer passes over no more than the text.
pub proof fn lemma_lex_len(s: Seq<char>)
    ensures
        0 <= lex_len(s) <= s.len(),
{
    lemma_whitespace_end(s, 0);
    lemma_lex_progress(s);
}

/// Where a call of the tokenizer finds the end or a fault, a further call on
/// what the first has left finds the same.
pub proof fn lemma_lex_settles(s: Seq<char>)
    ensures
        !(lex(s) is Token) ==> lex(s.skip(lex_len(s))) == lex(s),
{
    lemma_whitespace_end(s, 0);
    let w = whitespace_end(s, 0);
    let t = s.skip(lex_len(s));
    if !(lex(s) is Token) {
        assert(whitespace_end(t, 0) == 0);
        assert(t.skip(0) =~= t);
    }
}

} // verus!
