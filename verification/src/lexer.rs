//! The tokenizer: a cursor over UTF-8 text that hands out one token per call.

use crate::chars::{
    is_control, is_digit, is_hex_digit, is_simple_escape, is_whitespace, is_word_char,
};
use crate::grammar::{
    digit_run, exponent_end, fraction_end, hex_fault, integer_end, keyword_at, lemma_digit_run,
    lex, lex_len, msg_unexpected_character, msg_unexpected_token, msg_unknown_char, number_len,
    scan, sign_len, string_close, whitespace_end, word_boundary, word_false, word_null, word_true,
    Lexed, TokenView,
};
use crate::text::{
    char_at, chars_from, first_char, lemma_boundary_in_range, lemma_consumed, lemma_end,
    lemma_step, slice, utf8_len, utf8_width,
};
use vstd::prelude::*;
use vstd::string::*;
use vstd::utf8::*;

verus! {

/// One lexical unit of JSON text. A number carries its source text; a string
/// carries the text between its quotes, escapes left as they were written.
#[derive(Debug, PartialEq)]
pub enum Token {
    LBrace,
    RBrace,
    LBracket,
    RBracket,
    Comma,
    Colon,
    True,
    False,
    Number(String),
    String(String),
    Null,
}

impl View for Token {
    type V = TokenView;

    open spec fn view(&self) -> TokenView {
        match self {
            Token::LBrace => TokenView::LBrace,
            Token::RBrace => TokenView::RBrace,
            Token::LBracket => TokenView::LBracket,
            Token::RBracket => TokenView::RBracket,
            Token::Comma => TokenView::Comma,
            Token::Colon => TokenView::Colon,
            Token::True => TokenView::True,
            Token::False => TokenView::False,
            Token::Number(n) => TokenView::Number(n@),
            Token::String(s) => TokenView::String(s@),
            Token::Null => TokenView::Null,
        }
    }
}

impl Clone for Token {
    fn clone(&self) -> (r: Self)
        ensures
            r == *self,
    {
        match self {
            Token::LBrace => Token::LBrace,
            Token::RBrace => Token::RBrace,
            Token::LBracket => Token::LBracket,
            Token::RBracket => Token::RBracket,
            Token::Comma => Token::Comma,
            Token::Colon => Token::Colon,
            Token::True => Token::True,
            Token::False => Token::False,
            Token::Number(n) => Token::Number(n.clone()),
            Token::String(s) => Token::String(s.clone()),
            Token::Null => Token::Null,
        }
    }
}

/// Why no token could be read. The view is the message.
#[derive(Debug, PartialEq)]
pub struct LexError(pub String);

impl View for LexError {
    type V = Seq<char>;

    open spec fn view(&self) -> Seq<char> {
        self.0@
    }
}

impl LexError {
    /// The message that describes the rule that the text broke.
    pub fn message(&self) -> (r: &str)
        ensures
            r@ == self@,
    {
        self.0.as_str()
    }
}

/// A text and a cursor into it, counted in bytes.
#[derive(Clone, Copy)]
pub struct JsonLexer<'a> {
    pub input: &'a str,
    pub byte_offset: usize,
}

impl<'a> JsonLexer<'a> {
    /// The cursor stands between two characters of the text, or at one of
    /// its ends.
    pub open spec fn wf(&self) -> bool {
        is_char_boundary(self.input.spec_bytes(), self.byte_offset as int)
    }

    /// The characters from the cursor to the end of the text.
    pub open spec fn remaining(&self) -> Seq<char> {
        chars_from(self.input.spec_bytes(), self.byte_offset as int)
    }

    /// The cursor stands `i` characters into `s`.
    pub open spec fn at(&self, s: Seq<char>, i: int) -> bool {
        &&& self.wf()
        &&& 0 <= i <= s.len()
        &&& self.remaining() == s.skip(i)
    }

    /// This lexer stands where `earlier` stood after `n` more characters of
    /// the same text: what is left is what was left without its first `n`
    /// characters, and the cursor has moved by the bytes that these take.
    pub open spec fn moved(&self, earlier: &Self, n: int) -> bool {
        &&& self.input == earlier.input
        &&& self.wf()
        &&& 0 <= n <= earlier.remaining().len()
        &&& self.remaining() == earlier.remaining().skip(n)
        &&& self.byte_offset == earlier.byte_offset + utf8_len(earlier.remaining().take(n))
    }

    /// A lexer has moved by nothing from where it stands.
    pub proof fn lemma_moved_nowhere(lexer: Self)
        requires
            lexer.wf(),
        ensures
            lexer.moved(&lexer, 0),
    {
        let text = lexer.remaining();
        assert(text.skip(0) =~= text);
        assert(text.take(0) =~= Seq::<char>::empty());
    }

    /// Moving on from where a lexer has moved to is moving by the sum.
    pub proof fn lemma_moved_transitive(later: Self, middle: Self, earlier: Self, n: int, m: int)
        requires
            earlier.wf(),
            middle.moved(&earlier, n),
            later.moved(&middle, m),
        ensures
            later.moved(&earlier, n + m),
    {
        broadcast use encode_utf8_valid_utf8;

        let text = earlier.remaining();
        assert(text.skip(n).skip(m) =~= text.skip(n + m));
        lemma_consumed(
            earlier.input.spec_bytes(),
            earlier.byte_offset as int,
            later.byte_offset as int,
            n + m,
        );
    }

    /// A lexer at the start of `input`.
    pub fn new(input: &'a str) -> (r: Self)
        ensures
            r.wf(),
            r.input == input,
            r.byte_offset == 0,
            r.remaining() == input@,
    {
        broadcast use {encode_utf8_valid_utf8, encode_utf8_decode_utf8};

        proof {
            let bytes = input.spec_bytes();
            assert(bytes.subrange(0, bytes.len() as int) =~= bytes);
        }
        JsonLexer { input, byte_offset: 0 }
    }

    /// The character under the cursor.
    fn peek(&self) -> (r: Option<char>)
        requires
            self.wf(),
        ensures
            r == first_char(self.remaining()),
            r is None <==> self.byte_offset == self.input.spec_bytes().len(),
    {
        char_at(self.input, self.byte_offset)
    }

    /// Moves the cursor past the character under it, which is `c`.
    fn bump(&mut self, c: char)
        requires
            old(self).wf(),
            first_char(old(self).remaining()) == Some(c),
        ensures
            final(self).wf(),
            final(self).input == old(self).input,
            final(self).remaining() == old(self).remaining().drop_first(),
            final(self).byte_offset > old(self).byte_offset,
    {
        broadcast use encode_utf8_valid_utf8;

        // The text's length is a machine integer, and the cursor stays within
        // the text: the sum below cannot overflow.
        let _len = self.input.as_bytes().len();
        proof {
            let bytes = self.input.spec_bytes();
            lemma_boundary_in_range(bytes, self.byte_offset as int);
            if self.byte_offset == bytes.len() {
                lemma_end(bytes);
            }
            lemma_step(bytes, self.byte_offset as int);
        }
        self.byte_offset = self.byte_offset + utf8_width(c);
    }

    /// Moves the cursor past the digits under it.
    fn skip_digits(&mut self, Ghost(s): Ghost<Seq<char>>, Ghost(i): Ghost<int>)
        requires
            old(self).at(s, i),
        ensures
            final(self).at(s, digit_run(s, i)),
            final(self).input == old(self).input,
            i <= digit_run(s, i),
            final(self).byte_offset >= old(self).byte_offset,
    {
        let ghost mut j = i;
        loop
            invariant
                self.at(s, j),
                self.input == old(self).input,
                i <= j,
                digit_run(s, j) == digit_run(s, i),
                self.byte_offset >= old(self).byte_offset,
            decreases s.len() - j,
        {
            match self.peek() {
                None => {
                    return ;
                },
                Some(c) => {
                    if !is_digit(c) {
                        return ;
                    }
                    self.bump(c);
                    proof {
                        assert(s.skip(j).drop_first() =~= s.skip(j + 1));
                        j = j + 1;
                    }
                },
            }
        }
    }

    /// Whether a word that ends at the cursor ends there.
    fn at_word_boundary(&self, Ghost(s): Ghost<Seq<char>>, Ghost(i): Ghost<int>) -> (r: bool)
        requires
            self.at(s, i),
        ensures
            r == word_boundary(s, i),
    {
        match self.peek() {
            None => true,
            Some(c) => !is_word_char(c),
        }
    }

    /// Reads the keyword `word`, which stands for `token`.
    fn lex_match(&mut self, word: &str, token: Token) -> (r: Result<Option<Token>, LexError>)
        requires
            old(self).wf(),
        ensures
            final(self).wf(),
            final(self).input == old(self).input,
            match r {
                Ok(t) => {
                    &&& keyword_at(old(self).remaining(), word@)
                    &&& t == Some(token)
                    &&& final(self).remaining() == old(self).remaining().skip(word@.len() as int)
                    &&& final(self).byte_offset >= old(self).byte_offset
                },
                Err(e) => {
                    &&& !keyword_at(old(self).remaining(), word@)
                    &&& e@ == msg_unexpected_token()
                    &&& *final(self) == *old(self)
                },
            },
    {
        let ghost s = self.remaining();
        let mut probe = JsonLexer { input: self.input, byte_offset: self.byte_offset };
        let n = word.unicode_len();
        let mut i: usize = 0;
        assert(s.skip(0) =~= s);
        while i < n
            invariant
                probe.at(s, i as int),
                probe.input == self.input,
                probe.byte_offset >= self.byte_offset,
                i <= n,
                n == word@.len(),
                s.subrange(0, i as int) =~= word@.subrange(0, i as int),
                *self == *old(self),
                self.wf(),
                s == old(self).remaining(),
            decreases n - i,
        {
            let expected = word.get_char(i);
            match probe.peek() {
                None => {
                    return Err(LexError("unexpected token".to_owned()));
                },
                Some(c) => {
                    if c != expected {
                        assert(word@[i as int] != s[i as int]);
                        return Err(LexError("unexpected token".to_owned()));
                    }
                    probe.bump(c);
                    proof {
                        assert(s.skip(i as int).drop_first() =~= s.skip(i + 1));
                    }
                },
            }
            i = i + 1;
        }
        assert(word@.subrange(0, n as int) =~= word@);
        if !probe.at_word_boundary(Ghost(s), Ghost(n as int)) {
            return Err(LexError("unexpected token".to_owned()));
        }
        self.byte_offset = probe.byte_offset;
        Ok(Some(token))
    }

    /// Moves the cursor past the whitespace under it and returns the character
    /// that it then stands on.
    fn skip_whitespace(&mut self) -> (r: Option<char>)
        requires
            old(self).wf(),
        ensures
            final(self).at(old(self).remaining(), whitespace_end(old(self).remaining(), 0)),
            final(self).input == old(self).input,
            final(self).byte_offset >= old(self).byte_offset,
            r == first_char(final(self).remaining()),
            r is None <==> final(self).byte_offset == final(self).input.spec_bytes().len(),
            r matches Some(c) ==> !is_whitespace(c),
    {
        let ghost s = self.remaining();
        let ghost mut w: int = 0;
        assert(s.skip(0) =~= s);
        loop
            invariant
                self.at(s, w),
                self.input == old(self).input,
                self.byte_offset >= old(self).byte_offset,
                s == old(self).remaining(),
                whitespace_end(s, w) == whitespace_end(s, 0),
            decreases s.len() - w,
        {
            match self.peek() {
                None => {
                    return None;
                },
                Some(c) => {
                    if !is_whitespace(c) {
                        return Some(c);
                    }
                    self.bump(c);
                    proof {
                        assert(s.skip(w).drop_first() =~= s.skip(w + 1));
                        w = w + 1;
                    }
                },
            }
        }
    }

    /// The error for a character that starts no token.
    fn unknown_char(&self, c: char) -> (e: LexError)
        requires
            self.wf(),
            first_char(self.remaining()) == Some(c),
        ensures
            e@ == msg_unknown_char(c),
    {
        broadcast use encode_utf8_valid_utf8;

        let mut probe = JsonLexer { input: self.input, byte_offset: self.byte_offset };
        probe.bump(c);
        proof {
            let s = self.remaining();
            assert(s.drop_first() =~= s.skip(1));
            lemma_consumed(
                self.input.spec_bytes(),
                self.byte_offset as int,
                probe.byte_offset as int,
                1,
            );
            assert(s.take(1) =~= seq![c]);
        }
        let piece = slice(self.input, self.byte_offset, probe.byte_offset);
        let mut m = "unable to parse token from char ".to_owned();
        m.append(piece);
        LexError(m)
    }

    /// Reads the string literal whose opening quote stands under the cursor.
    #[verifier::loop_isolation(false)]
    fn lex_string(&mut self) -> (r: Result<Option<Token>, LexError>)
        requires
            old(self).wf(),
            first_char(old(self).remaining()) == Some('"'),
        ensures
            final(self).wf(),
            final(self).input == old(self).input,
            match r {
                Ok(t) => {
                    &&& string_close(old(self).remaining(), 1) matches Ok(e)
                    &&& 1 <= e < old(self).remaining().len()
                    &&& t matches Some(tok)
                    &&& tok@ == TokenView::String(old(self).remaining().subrange(1, e))
                    &&& final(self).remaining() == old(self).remaining().skip(e + 1)
                    &&& final(self).byte_offset >= old(self).byte_offset
                },
                Err(err) => {
                    &&& string_close(old(self).remaining(), 1) matches Err(m)
                    &&& err@ == m
                    &&& *final(self) == *old(self)
                },
            },
    {
        broadcast use encode_utf8_valid_utf8;

        let ghost s = self.remaining();
        let ghost bytes = self.input.spec_bytes();
        let mut probe = JsonLexer { input: self.input, byte_offset: self.byte_offset };
        probe.bump('"');
        assert(s.drop_first() =~= s.skip(1));
        let start = probe.byte_offset;
        let ghost mut i: int = 1;
        loop
            invariant
                *self == *old(self),
                probe.at(s, i),
                probe.input == self.input,
                1 <= i,
                start <= probe.byte_offset,
                string_close(s, i) == string_close(s, 1),
            decreases s.len() - i,
        {
            match probe.peek() {
                None => {
                    return Err(LexError("unclosed string literal".to_owned()));
                },
                Some(c) => {
                    if c == '"' {
                        proof {
                            assert(s.skip(1).skip(i - 1) =~= s.skip(i));
                            lemma_consumed(bytes, start as int, probe.byte_offset as int, i - 1);
                            assert(s.skip(1).take(i - 1) =~= s.subrange(1, i));
                        }
                        let payload = slice(self.input, start, probe.byte_offset);
                        probe.bump(c);
                        proof {
                            assert(s.skip(i).drop_first() =~= s.skip(i + 1));
                        }
                        self.byte_offset = probe.byte_offset;
                        return Ok(Some(Token::String(payload.to_owned())));
                    }
                    if is_control(c) {
                        return Err(LexError("invalid control char in string".to_owned()));
                    }
                    probe.bump(c);
                    proof {
                        assert(s.skip(i).drop_first() =~= s.skip(i + 1));
                    }
                    if c == '\\' {
                        match probe.peek() {
                            None => {
                                return Err(LexError("unclosed string literal".to_owned()));
                            },
                            Some(e) => {
                                if is_simple_escape(e) {
                                    probe.bump(e);
                                    proof {
                                        assert(s.skip(i + 1).drop_first() =~= s.skip(i + 2));
                                        i = i + 2;
                                    }
                                } else if e == 'u' {
                                    probe.bump(e);
                                    proof {
                                        assert(s.skip(i + 1).drop_first() =~= s.skip(i + 2));
                                    }
                                    let ghost base = i + 2;
                                    let mut k: usize = 0;
                                    while k < 4
                                        invariant
                                            *self == *old(self),
                                            probe.at(s, base + k),
                                            probe.input == self.input,
                                            start <= probe.byte_offset,
                                            k <= 4,
                                            k >= 1 ==> hex_fault(s, base) is None,
                                            k >= 2 ==> hex_fault(s, base + 1) is None,
                                            k >= 3 ==> hex_fault(s, base + 2) is None,
                                            k >= 4 ==> hex_fault(s, base + 3) is None,
                                        decreases 4 - k,
                                    {
                                        match probe.peek() {
                                            None => {
                                                return Err(
                                                    LexError("unclosed string literal".to_owned()),
                                                );
                                            },
                                            Some(h) => {
                                                if !is_hex_digit(h) {
                                                    return Err(
                                                        LexError(
                                                            "invalid unicode escape sequence".to_owned(),
                                                        ),
                                                    );
                                                }
                                                probe.bump(h);
                                                proof {
                                                    assert(s.skip(base + k).drop_first() =~= s.skip(
                                                        base + k + 1,
                                                    ));
                                                }
                                            },
                                        }
                                        k = k + 1;
                                    }
                                    proof {
                                        i = base + 4;
                                    }
                                } else {
                                    return Err(LexError("invalid escape sequence".to_owned()));
                                }
                            },
                        }
                    } else {
                        proof {
                            i = i + 1;
                        }
                    }
                },
            }
        }
    }

    /// Moves the cursor past the integer part of a number: an optional sign,
    /// then a single `0` or a run of digits.
    fn skip_integer(&mut self, Ghost(s): Ghost<Seq<char>>) -> (found: bool)
        requires
            old(self).at(s, 0),
        ensures
            final(self).input == old(self).input,
            final(self).byte_offset >= old(self).byte_offset,
            match integer_end(s) {
                Some(i) => found && 0 < i && final(self).at(s, i),
                None => !found && final(self).wf(),
            },
    {
        let ghost mut i: int = 0;
        match self.peek() {
            None => {},
            Some(c) => {
                if c == '-' {
                    self.bump(c);
                    proof {
                        assert(s.skip(0).drop_first() =~= s.skip(1));
                        i = 1;
                    }
                }
            },
        }
        assert(i == sign_len(s));
        match self.peek() {
            None => false,
            Some(c) => {
                if c == '0' {
                    self.bump(c);
                    proof {
                        assert(s.skip(i).drop_first() =~= s.skip(i + 1));
                    }
                    true
                } else if is_digit(c) {
                    self.skip_digits(Ghost(s), Ghost(i));
                    proof {
                        lemma_digit_run(s, i + 1);
                    }
                    true
                } else {
                    false
                }
            },
        }
    }

    /// Moves the cursor past a fraction, where one stands under it.
    fn skip_fraction(&mut self, Ghost(s): Ghost<Seq<char>>, Ghost(i): Ghost<int>)
        requires
            old(self).at(s, i),
        ensures
            final(self).at(s, fraction_end(s, i)),
            final(self).input == old(self).input,
            final(self).byte_offset >= old(self).byte_offset,
            i <= fraction_end(s, i),
    {
        let mut look = JsonLexer { input: self.input, byte_offset: self.byte_offset };
        match look.peek() {
            None => {},
            Some(c) => {
                if c == '.' {
                    look.bump(c);
                    proof {
                        assert(s.skip(i).drop_first() =~= s.skip(i + 1));
                    }
                    match look.peek() {
                        None => {},
                        Some(d) => {
                            if is_digit(d) {
                                look.skip_digits(Ghost(s), Ghost(i + 1));
                                self.byte_offset = look.byte_offset;
                            }
                        },
                    }
                }
            },
        }
    }

    /// Moves the cursor past an exponent, where one stands under it.
    fn skip_exponent(&mut self, Ghost(s): Ghost<Seq<char>>, Ghost(i): Ghost<int>)
        requires
            old(self).at(s, i),
        ensures
            final(self).at(s, exponent_end(s, i)),
            final(self).input == old(self).input,
            final(self).byte_offset >= old(self).byte_offset,
            i <= exponent_end(s, i),
    {
        let mut look = JsonLexer { input: self.input, byte_offset: self.byte_offset };
        match look.peek() {
            None => {},
            Some(c) => {
                if c == 'e' || c == 'E' {
                    look.bump(c);
                    let ghost mut j = i + 1;
                    proof {
                        assert(s.skip(i).drop_first() =~= s.skip(i + 1));
                    }
                    match look.peek() {
                        None => {},
                        Some(g) => {
                            if g == '+' || g == '-' {
                                look.bump(g);
                                proof {
                                    assert(s.skip(i + 1).drop_first() =~= s.skip(i + 2));
                                    j = i + 2;
                                }
                            }
                        },
                    }
                    match look.peek() {
                        None => {},
                        Some(d) => {
                            if is_digit(d) {
                                look.skip_digits(Ghost(s), Ghost(j));
                                self.byte_offset = look.byte_offset;
                            }
                        },
                    }
                }
            },
        }
    }

    /// Reads the number that starts under the cursor.
    fn lex_number(&mut self) -> (r: Result<Option<Token>, LexError>)
        requires
            old(self).wf(),
        ensures
            final(self).wf(),
            final(self).input == old(self).input,
            match r {
                Ok(t) => {
                    &&& number_len(old(self).remaining()) matches Some(n)
                    &&& 0 < n <= old(self).remaining().len()
                    &&& t matches Some(tok)
                    &&& tok@ == TokenView::Number(old(self).remaining().take(n))
                    &&& final(self).remaining() == old(self).remaining().skip(n)
                    &&& final(self).byte_offset >= old(self).byte_offset
                },
                Err(e) => {
                    &&& number_len(old(self).remaining()) is None
                    &&& e@ == msg_unexpected_character()
                    &&& *final(self) == *old(self)
                },
            },
    {
        broadcast use encode_utf8_valid_utf8;

        let ghost s = self.remaining();
        assert(s.skip(0) =~= s);
        let mut probe = JsonLexer { input: self.input, byte_offset: self.byte_offset };
        if !probe.skip_integer(Ghost(s)) {
            return Err(LexError("unexpected character found".to_owned()));
        }
        let ghost int_end = integer_end(s)->0;
        let int_probe = JsonLexer { input: probe.input, byte_offset: probe.byte_offset };
        probe.skip_fraction(Ghost(s), Ghost(int_end));
        let ghost frac_end = fraction_end(s, int_end);
        let frac_probe = JsonLexer { input: probe.input, byte_offset: probe.byte_offset };
        probe.skip_exponent(Ghost(s), Ghost(frac_end));
        let ghost exp_end = exponent_end(s, frac_end);

        let ghost n: int;
        let chosen = if probe.at_word_boundary(Ghost(s), Ghost(exp_end)) {
            proof {
                n = exp_end;
            }
            probe
        } else if frac_probe.at_word_boundary(Ghost(s), Ghost(frac_end)) {
            proof {
                n = frac_end;
            }
            frac_probe
        } else if int_probe.at_word_boundary(Ghost(s), Ghost(int_end)) {
            proof {
                n = int_end;
            }
            int_probe
        } else {
            return Err(LexError("unexpected character found".to_owned()));
        };
        assert(number_len(s) == Some(n));
        assert(chosen.at(s, n));
        proof {
            lemma_consumed(
                self.input.spec_bytes(),
                self.byte_offset as int,
                chosen.byte_offset as int,
                n,
            );
        }
        let payload = slice(self.input, self.byte_offset, chosen.byte_offset);
        self.byte_offset = chosen.byte_offset;
        Ok(Some(Token::Number(payload.to_owned())))
    }

    /// Reads the next token. `Ok(None)` says that only whitespace was left.
    /// On an error the cursor is left where the offending token starts.
    pub fn next_token(&mut self) -> (r: Result<Option<Token>, LexError>)
        requires
            old(self).wf(),
        ensures
            final(self).wf(),
            final(self).input == old(self).input,
            final(self).byte_offset >= old(self).byte_offset,
            final(self).moved(old(self), lex_len(old(self).remaining())),
            match lex(old(self).remaining()) {
                Lexed::Token(t, n) => {
                    &&& r matches Ok(Some(tok))
                    &&& tok@ == t
                    &&& 0 < n <= old(self).remaining().len()
                    &&& final(self).remaining() == old(self).remaining().skip(n)
                    &&& final(self).byte_offset == old(self).byte_offset + utf8_len(
                        old(self).remaining().take(n),
                    )
                },
                Lexed::End => {
                    &&& r matches Ok(None)
                    &&& final(self).remaining().len() == 0
                    &&& final(self).byte_offset == final(self).input.spec_bytes().len()
                },
                Lexed::Error(m) => {
                    &&& r matches Err(e)
                    &&& e@ == m
                    &&& final(self).remaining() == old(self).remaining().skip(
                        whitespace_end(old(self).remaining(), 0),
                    )
                    &&& final(self).byte_offset == old(self).byte_offset + utf8_len(
                        old(self).remaining().take(whitespace_end(old(self).remaining(), 0)),
                    )
                },
            },
    {
        broadcast use encode_utf8_valid_utf8;

        let ghost s = self.remaining();
        let ghost w = whitespace_end(s, 0);
        let c = match self.skip_whitespace() {
            None => {
                proof {
                    lemma_end(self.input.spec_bytes());
                    lemma_consumed(
                        self.input.spec_bytes(),
                        old(self).byte_offset as int,
                        self.byte_offset as int,
                        w,
                    );
                }
                return Ok(None);
            },
            Some(c) => c,
        };
        let ghost t = self.remaining();
        assert(w < s.len() && t == s.skip(w) && t[0] == c);
        let r = if c == '{' {
            self.bump(c);
            Ok(Some(Token::LBrace))
        } else if c == '}' {
            self.bump(c);
            Ok(Some(Token::RBrace))
        } else if c == '[' {
            self.bump(c);
            Ok(Some(Token::LBracket))
        } else if c == ']' {
            self.bump(c);
            Ok(Some(Token::RBracket))
        } else if c == ',' {
            self.bump(c);
            Ok(Some(Token::Comma))
        } else if c == ':' {
            self.bump(c);
            Ok(Some(Token::Colon))
        } else if c == 't' {
            proof {
                reveal_strlit("true");
                assert("true"@ =~= word_true());
            }
            self.lex_match("true", Token::True)
        } else if c == 'f' {
            proof {
                reveal_strlit("false");
                assert("false"@ =~= word_false());
            }
            self.lex_match("false", Token::False)
        } else if c == 'n' {
            proof {
                reveal_strlit("null");
                assert("null"@ =~= word_null());
            }
            self.lex_match("null", Token::Null)
        } else if c == '"' {
            self.lex_string()
        } else if c == '-' || is_digit(c) {
            self.lex_number()
        } else {
            Err(self.unknown_char(c))
        };
        proof {
            assert(t.drop_first() =~= t.skip(1));
            match scan(t) {
                Lexed::Token(tv, n) => {
                    assert(s.skip(w).skip(n) =~= s.skip(w + n));
                    lemma_consumed(
                        self.input.spec_bytes(),
                        old(self).byte_offset as int,
                        self.byte_offset as int,
                        w + n,
                    );
                },
                _ => {
                    lemma_consumed(
                        self.input.spec_bytes(),
                        old(self).byte_offset as int,
                        self.byte_offset as int,
                        w,
                    );
                },
            }
        }
        r
    }
}

} // verus!
