//! The parser: recursive descent over the tokens that a lexer hands out.

use crate::grammar::{lemma_lex_len, lemma_lex_settles, lex, Lexed, TokenView};
use crate::lexer::{JsonLexer, LexError, Token};
use crate::stream::{
    lemma_lexed_len_add, lemma_lexed_len_one, lexed_len, token_stream, TokenStream,
};
use crate::syntax::{
    document, document_at, elements_from, expect_at, has_key, lemma_elements_stop,
    lemma_members_stop, lemma_pair_stop, lemma_value_advances, lemma_value_stop, members_from,
    pair_at, spec_same_kind, spec_token_text, string_at, token_at, value_at, Failure,
};
use crate::value::{
    lemma_array_view, lemma_object_view, pairs_view, values_view, BooleanVal, Json, Pair,
    PairView, Value, ValueView,
};
use vstd::hash_map::StringHashMap;
use vstd::prelude::*;
use vstd::string::*;

verus! {

/// Why the tokens form no document. The view is the message.
#[derive(Debug, PartialEq)]
pub struct JsonParseError(pub String);

impl View for JsonParseError {
    type V = Seq<char>;

    open spec fn view(&self) -> Seq<char> {
        self.0@
    }
}

impl JsonParseError {
    /// The message that describes what was expected and what was found.
    pub fn message(&self) -> (r: &str)
        ensures
            r@ == self@,
    {
        self.0.as_str()
    }
}

/// Why a text is no document: a token could not be read, or the tokens do
/// not form one value.
#[derive(Debug, PartialEq)]
pub enum JsonError {
    Lex(LexError),
    Parse(JsonParseError),
}

impl View for JsonError {
    type V = Failure;

    open spec fn view(&self) -> Failure {
        match self {
            JsonError::Lex(e) => Failure::Lex(e@),
            JsonError::Parse(e) => Failure::Syntax(e@),
        }
    }
}

impl JsonError {
    /// The message of the error that this wraps.
    pub fn message(&self) -> (r: &str)
        ensures
            self@ matches Failure::Lex(m) ==> r@ == m,
            self@ matches Failure::Syntax(m) ==> r@ == m,
    {
        match self {
            JsonError::Lex(e) => e.message(),
            JsonError::Parse(e) => e.message(),
        }
    }
}

/// `head` followed by `tail`.
fn join(head: &str, tail: &str) -> (r: String)
    ensures
        r@ == head@ + tail@,
{
    let mut m = head.to_owned();
    m.append(tail);
    m
}

/// The parse error with the message `message`.
fn syntax_error(message: String) -> (e: JsonError)
    ensures
        e@ == Failure::Syntax(message@),
{
    JsonError::Parse(JsonParseError(message))
}

/// How a token is shown in a message.
pub fn token_text(t: &Token) -> (r: String)
    ensures
        r@ == spec_token_text(t@),
{
    match t {
        Token::LBrace => "LBrace".to_owned(),
        Token::RBrace => "RBrace".to_owned(),
        Token::LBracket => "LBracket".to_owned(),
        Token::RBracket => "RBracket".to_owned(),
        Token::Comma => "Comma".to_owned(),
        Token::Colon => "Colon".to_owned(),
        Token::True => "True".to_owned(),
        Token::False => "False".to_owned(),
        Token::Number(n) => {
            let mut m = join("Number(\"", n.as_str());
            m.append("\")");
            m
        },
        Token::String(s) => {
            let mut m = join("String(\"", s.as_str());
            m.append("\")");
            m
        },
        Token::Null => "Null".to_owned(),
    }
}

/// Whether two tokens are of the same kind, whatever they carry.
pub fn same_kind(a: &Token, b: &Token) -> (r: bool)
    ensures
        r == spec_same_kind(a@, b@),
{
    match a {
        Token::LBrace => match b {
            Token::LBrace => true,
            _ => false,
        },
        Token::RBrace => match b {
            Token::RBrace => true,
            _ => false,
        },
        Token::LBracket => match b {
            Token::LBracket => true,
            _ => false,
        },
        Token::RBracket => match b {
            Token::RBracket => true,
            _ => false,
        },
        Token::Comma => match b {
            Token::Comma => true,
            _ => false,
        },
        Token::Colon => match b {
            Token::Colon => true,
            _ => false,
        },
        Token::True => match b {
            Token::True => true,
            _ => false,
        },
        Token::False => match b {
            Token::False => true,
            _ => false,
        },
        Token::Number(_) => match b {
            Token::Number(_) => true,
            _ => false,
        },
        Token::String(_) => match b {
            Token::String(_) => true,
            _ => false,
        },
        Token::Null => match b {
            Token::Null => true,
            _ => false,
        },
    }
}

/// A lexer, the tokens read from it so far, and a position among them.
pub struct JsonParser<'a> {
    pub lexer: JsonLexer<'a>,
    pub tokens: Vec<Token>,
    pub position: usize,
}

impl<'a> JsonParser<'a> {
    /// The lexer's cursor is sound, and the position lies within the tokens
    /// read so far or just behind them.
    pub open spec fn wf(&self) -> bool {
        self.lexer.wf() && self.position <= self.tokens.len()
    }

    /// The tokens read so far.
    pub open spec fn buffered(&self) -> Seq<TokenView> {
        Seq::new(self.tokens@.len(), |i: int| self.tokens@[i]@)
    }

    /// All the tokens that this parser can see: those read so far, then
    /// those of the text that the lexer has not read yet.
    pub open spec fn stream(&self) -> TokenStream {
        let rest = token_stream(self.lexer.remaining());
        TokenStream { tokens: self.buffered() + rest.tokens, fault: rest.fault }
    }

    /// This parser has read on from where `earlier` stood: the tokens read
    /// so far start with those that `earlier` had read, and the lexer's
    /// cursor has not moved back in the same text.
    pub open spec fn extends(&self, earlier: &Self) -> bool {
        &&& earlier.tokens@.is_prefix_of(self.tokens@)
        &&& earlier.lexer.input == self.lexer.input
        &&& earlier.lexer.byte_offset <= self.lexer.byte_offset
    }

    /// This parser is `earlier` after the positions of the stream below
    /// `upto` have been looked at. Its stream is the same. For every
    /// position among them that `earlier` had not read yet, the lexer has
    /// been called once; the tokens that these calls gave stand behind those
    /// that `earlier` had read, and the lexer's cursor stands where these
    /// calls have left it.
    pub open spec fn has_read(&self, earlier: &Self, upto: int) -> bool {
        let text = earlier.lexer.remaining();
        let calls = if upto > earlier.tokens.len() {
            (upto - earlier.tokens.len()) as nat
        } else {
            0nat
        };
        let fresh = token_stream(text).tokens.len();
        &&& self.extends(earlier)
        &&& self.stream() == earlier.stream()
        &&& self.tokens.len() == earlier.tokens.len() + if calls <= fresh {
            calls
        } else {
            fresh
        }
        &&& self.lexer.moved(&earlier.lexer, lexed_len(text, calls))
    }

    /// Reading on from a parser that has read on is reading on.
    pub proof fn lemma_extends_transitive(later: Self, middle: Self, earlier: Self)
        requires
            later.extends(&middle),
            middle.extends(&earlier),
        ensures
            later.extends(&earlier),
    {
        assert forall|i: int| 0 <= i < earlier.tokens@.len() implies earlier.tokens@[i]
            == later.tokens@[i] by {
            assert(earlier.tokens@[i] == middle.tokens@.subrange(
                0,
                earlier.tokens@.len() as int,
            )[i]);
            assert(middle.tokens@[i] == later.tokens@.subrange(0, middle.tokens@.len() as int)[i]);
        }
    }

    /// A parser has looked at the positions that it has read, as it stands.
    pub proof fn lemma_has_read_nothing(parser: Self, upto: int)
        requires
            parser.lexer.wf(),
            upto <= parser.tokens.len(),
        ensures
            parser.has_read(&parser, upto),
    {
        JsonLexer::lemma_moved_nowhere(parser.lexer);
        assert(parser.tokens@.subrange(0, parser.tokens@.len() as int) =~= parser.tokens@);
    }

    /// Looking further from where a parser has looked to is looking that
    /// far, as long as the first looks stayed within the stream.
    pub proof fn lemma_has_read_transitive(
        later: Self,
        middle: Self,
        earlier: Self,
        a: int,
        b: int,
    )
        requires
            earlier.lexer.wf(),
            middle.has_read(&earlier, a),
            later.has_read(&middle, b),
            a <= b,
            a <= earlier.stream().tokens.len(),
        ensures
            later.has_read(&earlier, b),
    {
        Self::lemma_extends_transitive(later, middle, earlier);
        let text = earlier.lexer.remaining();
        let l0: int = earlier.tokens.len() as int;
        let l1: int = middle.tokens.len() as int;
        let ca: nat = if a > l0 {
            (a - l0) as nat
        } else {
            0nat
        };
        let cb: nat = if b > l1 {
            (b - l1) as nat
        } else {
            0nat
        };
        assert(earlier.stream().tokens.len() == l0 + token_stream(text).tokens.len());
        assert(middle.stream().tokens.len() == l1 + token_stream(
            middle.lexer.remaining(),
        ).tokens.len());
        lemma_lexed_len_add(text, ca, cb);
        JsonLexer::lemma_moved_transitive(
            later.lexer,
            middle.lexer,
            earlier.lexer,
            lexed_len(text, ca),
            lexed_len(middle.lexer.remaining(), cb),
        );
    }

    /// A parser that has read nothing yet.
    pub fn new(lexer: JsonLexer<'a>) -> (r: Self)
        requires
            lexer.wf(),
        ensures
            r.wf(),
            r.lexer == lexer,
            r.tokens@.len() == 0,
            r.position == 0,
            r.stream() == token_stream(lexer.remaining()),
    {
        let r = JsonParser { lexer, tokens: Vec::new(), position: 0 };
        proof {
            assert(r.buffered() + token_stream(lexer.remaining()).tokens =~= token_stream(
                lexer.remaining(),
            ).tokens);
        }
        r
    }

    /// The token at the position. Where that token has been read before,
    /// nothing changes. Where the position stands just behind the tokens
    /// read so far, the lexer is called once, and the token that it gives is
    /// put behind them. `Ok(None)` says that the text has ended.
    pub fn current(&mut self) -> (r: Result<Option<Token>, LexError>)
        requires
            old(self).wf(),
        ensures
            final(self).wf(),
            final(self).position == old(self).position,
            final(self).stream() == old(self).stream(),
            final(self).extends(old(self)),
            final(self).has_read(old(self), old(self).position + 1),
            old(self).position < old(self).tokens.len() ==> *final(self) == *old(self),
            old(self).position >= old(self).tokens.len() ==> (match lex(
                old(self).lexer.remaining(),
            ) {
                Lexed::Token(t, n) => {
                    &&& r matches Ok(Some(tok))
                    &&& final(self).tokens@ == old(self).tokens@.push(tok)
                    &&& final(self).lexer.remaining() == old(self).lexer.remaining().skip(n)
                },
                Lexed::End => {
                    &&& r matches Ok(None)
                    &&& final(self).tokens@ == old(self).tokens@
                    &&& final(self).lexer.remaining().len() == 0
                    &&& final(self).lexer.byte_offset == final(self).lexer.input.spec_bytes().len()
                },
                Lexed::Error(m) => {
                    &&& r matches Err(e)
                    &&& e@ == m
                    &&& final(self).tokens@ == old(self).tokens@
                },
            }),
            match token_at(old(self).stream(), old(self).position as int) {
                Ok(Some(t)) => {
                    &&& r matches Ok(Some(tok))
                    &&& tok@ == t
                    &&& final(self).position < final(self).tokens.len()
                },
                Ok(None) => r matches Ok(None),
                Err(f) => r matches Err(e) && f == Failure::Lex(e@),
            },
    {
        if self.position < self.tokens.len() {
            proof {
                Self::lemma_has_read_nothing(*self, self.position + 1);
            }
            let t = self.tokens[self.position].clone();
            Ok(Some(t))
        } else {
            let ghost buffered = self.buffered();
            let ghost text = self.lexer.remaining();
            proof {
                lemma_lex_len(text);
                lemma_lex_settles(text);
                lemma_lexed_len_one(text);
            }
            match self.lexer.next_token() {
                Err(e) => {
                    proof {
                        assert(old(self).tokens@.subrange(0, old(self).tokens@.len() as int)
                            =~= old(self).tokens@);
                    }
                    Err(e)
                },
                Ok(None) => {
                    proof {
                        assert(old(self).tokens@.subrange(0, old(self).tokens@.len() as int)
                            =~= old(self).tokens@);
                    }
                    Ok(None)
                },
                Ok(Some(t)) => {
                    let copy = t.clone();
                    self.tokens.push(t);
                    proof {
                        assert(self.buffered() =~= buffered.push(copy@));
                        assert(self.stream().tokens =~= old(self).stream().tokens);
                        assert(self.tokens@.subrange(0, old(self).tokens@.len() as int)
                            =~= old(self).tokens@);
                    }
                    Ok(Some(copy))
                },
            }
        }
    }

    /// Passes over the token at the position, which must be of the kind of
    /// `expected`. Where it is not, or where there is none, the position
    /// stays; in either case the token at the position has been looked at,
    /// and no other.
    pub fn expect_skip(&mut self, expected: &Token) -> (r: Result<(), JsonError>)
        requires
            old(self).wf(),
        ensures
            final(self).wf(),
            final(self).position >= old(self).position,
            final(self).stream() == old(self).stream(),
            final(self).extends(old(self)),
            final(self).has_read(old(self), old(self).position + 1),
            match expect_at(old(self).stream(), old(self).position as int, expected@) {
                Ok(p) => r is Ok && final(self).position == p,
                Err(stop) => {
                    &&& r matches Err(e)
                    &&& e@ == stop.failure
                    &&& final(self).position == stop.position
                },
            },
    {
        match self.current() {
            Err(e) => Err(JsonError::Lex(e)),
            Ok(None) => {
                let mut m = join("expected ", token_text(expected).as_str());
                m.append(", but input ended prematurely");
                Err(syntax_error(m))
            },
            Ok(Some(t)) => {
                if same_kind(&t, expected) {
                    self.position = self.position + 1;
                    Ok(())
                } else {
                    let mut m = join("expected ", token_text(expected).as_str());
                    m.append(", but got ");
                    m.append(token_text(&t).as_str());
                    Err(syntax_error(m))
                }
            },
        }
    }

    /// Passes over the string token at the position and returns its payload.
    /// Where the token is no string, or where there is none, the position
    /// stays; in either case the token at the position has been looked at,
    /// and no other.
    pub fn expect_string(&mut self) -> (r: Result<String, JsonError>)
        requires
            old(self).wf(),
        ensures
            final(self).wf(),
            final(self).position >= old(self).position,
            final(self).stream() == old(self).stream(),
            final(self).extends(old(self)),
            final(self).has_read(old(self), old(self).position + 1),
            match string_at(old(self).stream(), old(self).position as int) {
                Ok((s, p)) => r matches Ok(key) && key@ == s && final(self).position == p,
                Err(stop) => {
                    &&& r matches Err(e)
                    &&& e@ == stop.failure
                    &&& final(self).position == stop.position
                },
            },
    {
        match self.current() {
            Err(e) => Err(JsonError::Lex(e)),
            Ok(None) => Err(
                syntax_error("expected string, but input ended prematurely".to_owned()),
            ),
            Ok(Some(t)) => match t {
                Token::String(s) => {
                    self.position = self.position + 1;
                    Ok(s)
                },
                _ => Err(
                    syntax_error(join("expected string, but got ", token_text(&t).as_str())),
                ),
            },
        }
    }

    /// Reads one member of an object: a key, a colon and a value. On
    /// success the parser stands behind the member and has looked no
    /// further; on a failure it stands where the spec function says, and
    /// has looked as far as it says.
    pub fn parse_pair(&mut self) -> (r: Result<Pair, JsonError>)
        requires
            old(self).wf(),
        ensures
            final(self).wf(),
            final(self).position >= old(self).position,
            final(self).stream() == old(self).stream(),
            final(self).extends(old(self)),
            match pair_at(old(self).stream(), old(self).position as int) {
                Ok((pv, p)) => {
                    &&& r matches Ok(pair)
                    &&& pair@ == pv
                    &&& final(self).position == p
                    &&& p > old(self).position
                    &&& final(self).has_read(old(self), p)
                },
                Err(stop) => {
                    &&& r matches Err(e)
                    &&& e@ == stop.failure
                    &&& final(self).position == stop.position
                    &&& final(self).has_read(old(self), stop.seen)
                },
            },
        decreases old(self).stream().tokens.len() - old(self).position, 1int,
    {
        let ghost ts = self.stream();
        let ghost pos = self.position as int;
        proof {
            lemma_pair_stop(ts, pos);
        }
        let key = match self.expect_string() {
            Ok(key) => key,
            Err(e) => {
                return Err(e);
            },
        };
        let ghost s1 = *self;
        match self.expect_skip(&Token::Colon) {
            Ok(_) => {},
            Err(e) => {
                proof {
                    Self::lemma_has_read_transitive(*self, s1, *old(self), pos + 1, pos + 2);
                }
                return Err(e);
            },
        }
        let ghost s2 = *self;
        proof {
            Self::lemma_has_read_transitive(s2, s1, *old(self), pos + 1, pos + 2);
            lemma_value_stop(ts, pos + 2);
        }
        let value = match self.parse_value() {
            Ok(value) => value,
            Err(e) => {
                proof {
                    let stop = value_at(ts, pos + 2)->Err_0;
                    Self::lemma_has_read_transitive(*self, s2, *old(self), pos + 2, stop.seen);
                }
                return Err(e);
            },
        };
        proof {
            Self::lemma_has_read_transitive(
                *self,
                s2,
                *old(self),
                pos + 2,
                self.position as int,
            );
        }
        Ok(Pair { key, value })
    }

    /// Reads the object whose opening brace stands at the position. On
    /// success the parser stands behind the closing brace and has looked no
    /// further; on a failure it stands where the spec function says, and
    /// has looked as far as it says.
    pub fn parse_object(&mut self) -> (r: Result<Value, JsonError>)
        requires
            old(self).wf(),
            old(self).position < old(self).tokens.len(),
        ensures
            final(self).wf(),
            final(self).position >= old(self).position,
            final(self).stream() == old(self).stream(),
            final(self).extends(old(self)),
            match members_from(old(self).stream(), old(self).position + 1, Seq::empty()) {
                Ok((v, p)) => {
                    &&& r matches Ok(val)
                    &&& val@ == v
                    &&& final(self).position == p
                    &&& p > old(self).position
                    &&& final(self).has_read(old(self), p)
                },
                Err(stop) => {
                    &&& r matches Err(e)
                    &&& e@ == stop.failure
                    &&& final(self).position == stop.position
                    &&& final(self).has_read(old(self), stop.seen)
                },
            },
        decreases old(self).stream().tokens.len() - old(self).position, 1int,
    {
        proof {
            Self::lemma_has_read_nothing(*self, self.position + 1);
        }
        self.position = self.position + 1;
        let ghost ts = self.stream();
        let ghost start = self.position as int;
        let mut pairs: Vec<Pair> = Vec::new();
        let mut seen: StringHashMap<bool> = StringHashMap::new();
        assert(pairs_view(pairs@) =~= Seq::<PairView>::empty());
        loop
            invariant
                self.wf(),
                old(self).wf(),
                ts == old(self).stream(),
                start == old(self).position + 1,
                self.position >= start,
                self.has_read(old(self), self.position as int),
                members_from(ts, self.position as int, pairs_view(pairs@)) == members_from(
                    ts,
                    start,
                    Seq::empty(),
                ),
                forall|k: Seq<char>| seen@.contains_key(k) <==> has_key(pairs_view(pairs@), k),
            decreases ts.tokens.len() - self.position,
        {
            let ghost acc = pairs_view(pairs@);
            let ghost q = self.position as int;
            let ghost s0 = *self;
            proof {
                lemma_members_stop(ts, start, Seq::empty());
            }
            match self.current() {
                Err(e) => {
                    proof {
                        Self::lemma_has_read_transitive(*self, s0, *old(self), q, q + 1);
                    }
                    return Err(JsonError::Lex(e));
                },
                Ok(None) => {
                    proof {
                        Self::lemma_has_read_transitive(*self, s0, *old(self), q, q + 1);
                    }
                    return Err(syntax_error("unclosed object".to_owned()));
                },
                Ok(Some(t)) => {
                    let ghost s1 = *self;
                    proof {
                        Self::lemma_has_read_transitive(s1, s0, *old(self), q, q + 1);
                    }
                    if same_kind(&t, &Token::RBrace) {
                        self.position = self.position + 1;
                        proof {
                            lemma_object_view(pairs);
                        }
                        return Ok(Value::Object(pairs));
                    }
                    if pairs.len() > 0 {
                        match self.expect_skip(&Token::Comma) {
                            Ok(_) => {},
                            Err(e) => {
                                proof {
                                    Self::lemma_has_read_transitive(
                                        *self,
                                        s1,
                                        *old(self),
                                        q + 1,
                                        q + 1,
                                    );
                                }
                                return Err(e);
                            },
                        }
                    }
                    let ghost s2 = *self;
                    let ghost p1 = self.position as int;
                    proof {
                        if p1 > q {
                            Self::lemma_has_read_transitive(s2, s1, *old(self), q + 1, q + 1);
                        }
                        lemma_pair_stop(ts, p1);
                    }
                    match self.parse_pair() {
                        Err(e) => {
                            proof {
                                let stop = pair_at(ts, p1)->Err_0;
                                Self::lemma_has_read_transitive(
                                    *self,
                                    s2,
                                    *old(self),
                                    q + 1,
                                    stop.seen,
                                );
                            }
                            return Err(e);
                        },
                        Ok(pair) => {
                            proof {
                                Self::lemma_has_read_transitive(
                                    *self,
                                    s2,
                                    *old(self),
                                    q + 1,
                                    self.position as int,
                                );
                            }
                            if seen.contains_key(pair.key.as_str()) {
                                return Err(
                                    syntax_error(join("duplicate key: ", pair.key.as_str())),
                                );
                            }
                            let ghost pv = pair@;
                            seen.insert(pair.key.clone(), true);
                            pairs.push(pair);
                            proof {
                                let next = pairs_view(pairs@);
                                assert(next =~= acc.push(pv));
                                assert forall|k: Seq<char>|
                                    seen@.contains_key(k) <==> has_key(next, k) by {
                                    if has_key(acc, k) {
                                        let i = choose|i: int|
                                            0 <= i < acc.len() && (#[trigger] acc[i]).key == k;
                                        assert(next[i].key == k);
                                    }
                                    if k == pv.key {
                                        assert(next[acc.len() as int].key == k);
                                    }
                                    if has_key(next, k) {
                                        let i = choose|i: int|
                                            0 <= i < next.len() && (#[trigger] next[i]).key == k;
                                        if i < acc.len() {
                                            assert(acc[i].key == k);
                                        }
                                    }
                                }
                            }
                        },
                    }
                },
            }
        }
    }

    /// Reads the array whose opening bracket stands at the position. On
    /// success the parser stands behind the closing bracket and has looked
    /// no further; on a failure it stands where the spec function says, and
    /// has looked as far as it says.
    pub fn parse_array(&mut self) -> (r: Result<Value, JsonError>)
        requires
            old(self).wf(),
            old(self).position < old(self).tokens.len(),
        ensures
            final(self).wf(),
            final(self).position >= old(self).position,
            final(self).stream() == old(self).stream(),
            final(self).extends(old(self)),
            match elements_from(old(self).stream(), old(self).position + 1, Seq::empty()) {
                Ok((v, p)) => {
                    &&& r matches Ok(val)
                    &&& val@ == v
                    &&& final(self).position == p
                    &&& p > old(self).position
                    &&& final(self).has_read(old(self), p)
                },
                Err(stop) => {
                    &&& r matches Err(e)
                    &&& e@ == stop.failure
                    &&& final(self).position == stop.position
                    &&& final(self).has_read(old(self), stop.seen)
                },
            },
        decreases old(self).stream().tokens.len() - old(self).position, 1int,
    {
        proof {
            Self::lemma_has_read_nothing(*self, self.position + 1);
        }
        self.position = self.position + 1;
        let ghost ts = self.stream();
        let ghost start = self.position as int;
        let mut values: Vec<Value> = Vec::new();
        assert(values_view(values@) =~= Seq::<ValueView>::empty());
        loop
            invariant
                self.wf(),
                old(self).wf(),
                ts == old(self).stream(),
                start == old(self).position + 1,
                self.position >= start,
                self.has_read(old(self), self.position as int),
                elements_from(ts, self.position as int, values_view(values@)) == elements_from(
                    ts,
                    start,
                    Seq::empty(),
                ),
            decreases ts.tokens.len() - self.position,
        {
            let ghost acc = values_view(values@);
            let ghost q = self.position as int;
            let ghost s0 = *self;
            proof {
                lemma_elements_stop(ts, start, Seq::empty());
            }
            match self.current() {
                Err(e) => {
                    proof {
                        Self::lemma_has_read_transitive(*self, s0, *old(self), q, q + 1);
                    }
                    return Err(JsonError::Lex(e));
                },
                Ok(None) => {
                    proof {
                        Self::lemma_has_read_transitive(*self, s0, *old(self), q, q + 1);
                    }
                    return Err(syntax_error("unclosed array delimiter".to_owned()));
                },
                Ok(Some(t)) => {
                    let ghost s1 = *self;
                    proof {
                        Self::lemma_has_read_transitive(s1, s0, *old(self), q, q + 1);
                    }
                    if same_kind(&t, &Token::RBracket) {
                        self.position = self.position + 1;
                        proof {
                            lemma_array_view(values);
                        }
                        return Ok(Value::Array(values));
                    }
                    if values.len() > 0 {
                        match self.expect_skip(&Token::Comma) {
                            Ok(_) => {},
                            Err(e) => {
                                proof {
                                    Self::lemma_has_read_transitive(
                                        *self,
                                        s1,
                                        *old(self),
                                        q + 1,
                                        q + 1,
                                    );
                                }
                                return Err(e);
                            },
                        }
                    }
                    let ghost s2 = *self;
                    let ghost p1 = self.position as int;
                    proof {
                        if p1 > q {
                            Self::lemma_has_read_transitive(s2, s1, *old(self), q + 1, q + 1);
                        }
                        lemma_value_stop(ts, p1);
                    }
                    match self.parse_value() {
                        Err(e) => {
                            proof {
                                let stop = value_at(ts, p1)->Err_0;
                                Self::lemma_has_read_transitive(
                                    *self,
                                    s2,
                                    *old(self),
                                    q + 1,
                                    stop.seen,
                                );
                            }
                            return Err(e);
                        },
                        Ok(value) => {
                            let ghost v = value@;
                            values.push(value);
                            proof {
                                Self::lemma_has_read_transitive(
                                    *self,
                                    s2,
                                    *old(self),
                                    q + 1,
                                    self.position as int,
                                );
                                assert(values_view(values@) =~= acc.push(v));
                            }
                        },
                    }
                },
            }
        }
    }

    /// Reads the value that starts at the position. On success the parser
    /// stands behind the value and has looked no further. Where the token at
    /// the position starts no value, or where there is none, the position
    /// stays and no other token has been looked at; on a failure further
    /// on, the parser stands where the spec function says, and has looked as
    /// far as it says.
    pub fn parse_value(&mut self) -> (r: Result<Value, JsonError>)
        requires
            old(self).wf(),
        ensures
            final(self).wf(),
            final(self).position >= old(self).position,
            final(self).stream() == old(self).stream(),
            final(self).extends(old(self)),
            match value_at(old(self).stream(), old(self).position as int) {
                Ok((v, p)) => {
                    &&& r matches Ok(val)
                    &&& val@ == v
                    &&& final(self).position == p
                    &&& p > old(self).position
                    &&& final(self).has_read(old(self), p)
                },
                Err(stop) => {
                    &&& r matches Err(e)
                    &&& e@ == stop.failure
                    &&& final(self).position == stop.position
                    &&& final(self).has_read(old(self), stop.seen)
                },
            },
        decreases old(self).stream().tokens.len() - old(self).position, 2int,
    {
        let ghost ts = self.stream();
        let ghost pos = self.position as int;
        proof {
            lemma_value_stop(ts, pos);
        }
        match self.current() {
            Err(e) => Err(JsonError::Lex(e)),
            Ok(None) => Err(
                syntax_error("expected value but input ended prematurely".to_owned()),
            ),
            Ok(Some(t)) => {
                let ghost s1 = *self;
                match t {
                    Token::LBrace => {
                        let r = self.parse_object();
                        proof {
                            let upto = match members_from(ts, pos + 1, Seq::empty()) {
                                Ok((_, p)) => p,
                                Err(stop) => stop.seen,
                            };
                            lemma_members_stop(ts, pos + 1, Seq::empty());
                            Self::lemma_has_read_transitive(*self, s1, *old(self), pos + 1, upto);
                        }
                        r
                    },
                    Token::LBracket => {
                        let r = self.parse_array();
                        proof {
                            let upto = match elements_from(ts, pos + 1, Seq::empty()) {
                                Ok((_, p)) => p,
                                Err(stop) => stop.seen,
                            };
                            lemma_elements_stop(ts, pos + 1, Seq::empty());
                            Self::lemma_has_read_transitive(*self, s1, *old(self), pos + 1, upto);
                        }
                        r
                    },
                    Token::String(s) => {
                        self.position = self.position + 1;
                        Ok(Value::Str(s))
                    },
                    Token::Number(n) => {
                        self.position = self.position + 1;
                        Ok(Value::Number(n))
                    },
                    Token::True => {
                        self.position = self.position + 1;
                        Ok(Value::Boolean(BooleanVal::True))
                    },
                    Token::False => {
                        self.position = self.position + 1;
                        Ok(Value::Boolean(BooleanVal::False))
                    },
                    Token::Null => {
                        self.position = self.position + 1;
                        Ok(Value::Null)
                    },
                    _ => Err(
                        syntax_error(join("expected a value, but got ", token_text(&t).as_str())),
                    ),
                }
            },
        }
    }

    /// Reads a document: one value, after which the text must end. On
    /// success the parser stands behind the value, which is behind all the
    /// tokens of the text; these have all been read, and the lexer stands at
    /// the end of the text.
    pub fn parse_json(&mut self) -> (r: Result<Json, JsonError>)
        requires
            old(self).wf(),
        ensures
            final(self).wf(),
            final(self).position >= old(self).position,
            final(self).stream() == old(self).stream(),
            final(self).extends(old(self)),
            match document_at(old(self).stream(), old(self).position as int) {
                Ok((v, p)) => {
                    &&& r matches Ok(json)
                    &&& json@ == v
                    &&& final(self).position == p
                    &&& final(self).position == final(self).tokens.len()
                    &&& final(self).buffered() == old(self).stream().tokens
                    &&& final(self).lexer.remaining().len() == 0
                    &&& final(self).lexer.byte_offset == final(self).lexer.input.spec_bytes().len()
                    &&& final(self).has_read(old(self), p + 1)
                },
                Err(stop) => {
                    &&& r matches Err(e)
                    &&& e@ == stop.failure
                    &&& final(self).position == stop.position
                    &&& final(self).has_read(old(self), stop.seen)
                },
            },
    {
        let ghost ts = self.stream();
        proof {
            lemma_value_stop(ts, self.position as int);
            lemma_value_advances(ts, self.position as int);
        }
        let value = match self.parse_value() {
            Ok(value) => value,
            Err(e) => {
                return Err(e);
            },
        };
        let ghost s1 = *self;
        let ghost p = self.position as int;
        let r = match self.current() {
            Err(e) => Err(JsonError::Lex(e)),
            Ok(Some(_)) => Err(
                syntax_error("unexpected content following root value".to_owned()),
            ),
            Ok(None) => Ok(Json { value }),
        };
        proof {
            Self::lemma_has_read_transitive(*self, s1, *old(self), p, p + 1);
            if r is Ok {
                assert(self.buffered() =~= ts.tokens);
            }
        }
        r
    }
}

/// Parses the text that `lexer` has not read yet as one document.
pub fn parse(lexer: JsonLexer) -> (r: Result<Json, JsonError>)
    requires
        lexer.wf(),
    ensures
        match document(token_stream(lexer.remaining())) {
            Ok(v) => r matches Ok(json) && json@ == v,
            Err(f) => r matches Err(e) && e@ == f,
        },
{
    let mut p = JsonParser::new(lexer);
    p.parse_json()
}

} // verus!
