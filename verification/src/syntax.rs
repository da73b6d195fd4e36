//! The grammar of values, as functions on token streams.
//!
//! Each function reads from a position in the stream and yields what was
//! read together with the position after it, or the failure that stopped it.

use crate::grammar::TokenView;
use crate::stream::TokenStream;
use crate::value::{PairView, ValueView};
use vstd::prelude::*;

verus! {

/// Why a text is no document.
pub enum Failure {
    /// A token could not be read; the message is the tokenizer's.
    Lex(Seq<char>),
    /// The tokens do not form a document.
    Syntax(Seq<char>),
}

/// How a token is shown in a message: the name of its kind, and for a number
/// or a string its text in quotes. The text is shown as it stands in the
/// token, character for character: nothing in it is escaped.
pub open spec fn spec_token_text(t: TokenView) -> Seq<char> {
    match t {
        TokenView::LBrace => "LBrace"@,
        TokenView::RBrace => "RBrace"@,
        TokenView::LBracket => "LBracket"@,
        TokenView::RBracket => "RBracket"@,
        TokenView::Comma => "Comma"@,
        TokenView::Colon => "Colon"@,
        TokenView::True => "True"@,
        TokenView::False => "False"@,
        TokenView::Number(n) => "Number(\""@ + n + "\")"@,
        TokenView::String(s) => "String(\""@ + s + "\")"@,
        TokenView::Null => "Null"@,
    }
}

/// Two tokens are of the same kind; payloads are not compared.
pub open spec fn spec_same_kind(a: TokenView, b: TokenView) -> bool {
    match a {
        TokenView::LBrace => b is LBrace,
        TokenView::RBrace => b is RBrace,
        TokenView::LBracket => b is LBracket,
        TokenView::RBracket => b is RBracket,
        TokenView::Comma => b is Comma,
        TokenView::Colon => b is Colon,
        TokenView::True => b is True,
        TokenView::False => b is False,
        TokenView::Number(_) => b is Number,
        TokenView::String(_) => b is String,
        TokenView::Null => b is Null,
    }
}

pub open spec fn msg_value_missing() -> Seq<char> {
    "expected value but input ended prematurely"@
}

pub open spec fn msg_not_a_value(t: TokenView) -> Seq<char> {
    "expected a value, but got "@ + spec_token_text(t)
}

pub open spec fn msg_unclosed_array() -> Seq<char> {
    "unclosed array delimiter"@
}

pub open spec fn msg_unclosed_object() -> Seq<char> {
    "unclosed object"@
}

pub open spec fn msg_duplicate_key(key: Seq<char>) -> Seq<char> {
    "duplicate key: "@ + key
}

pub open spec fn msg_string_missing() -> Seq<char> {
    "expected string, but input ended prematurely"@
}

pub open spec fn msg_not_a_string(t: TokenView) -> Seq<char> {
    "expected string, but got "@ + spec_token_text(t)
}

pub open spec fn msg_expected_missing(expected: TokenView) -> Seq<char> {
    "expected "@ + spec_token_text(expected) + ", but input ended prematurely"@
}

pub open spec fn msg_expected_other(expected: TokenView, found: TokenView) -> Seq<char> {
    "expected "@ + spec_token_text(expected) + ", but got "@ + spec_token_text(found)
}

pub open spec fn msg_trailing_content() -> Seq<char> {
    "unexpected content following root value"@
}

/// The token at `pos`. Past the last token this is the fault that ended the
/// stream, or `None` where the text simply ended.
pub open spec fn token_at(ts: TokenStream, pos: int) -> Result<Option<TokenView>, Failure> {
    if 0 <= pos < ts.tokens.len() {
        Ok(Some(ts.tokens[pos]))
    } else {
        match ts.fault {
            Some(m) => Err(Failure::Lex(m)),
            None => Ok(None),
        }
    }
}

/// Where and why the reading gave up.
pub struct Stop {
    pub failure: Failure,
    /// The position at which the parser stands when it gives up.
    pub position: int,
    /// How many positions of the stream, counted from its start, have been
    /// looked at by then.
    pub seen: int,
}

/// The stop for a failure that is found in looking at `pos`: the token there
/// is not the one that is needed, or there is none.
pub open spec fn stop_at(failure: Failure, pos: int) -> Stop {
    Stop { failure, position: pos, seen: pos + 1 }
}

/// The position after the token at `pos`, which must be of the kind of
/// `expected`.
pub open spec fn expect_at(ts: TokenStream, pos: int, expected: TokenView) -> Result<int, Stop> {
    match token_at(ts, pos) {
        Err(e) => Err(stop_at(e, pos)),
        Ok(None) => Err(stop_at(Failure::Syntax(msg_expected_missing(expected)), pos)),
        Ok(Some(t)) => if spec_same_kind(t, expected) {
            Ok(pos + 1)
        } else {
            Err(stop_at(Failure::Syntax(msg_expected_other(expected, t)), pos))
        },
    }
}

/// The payload of the string token at `pos`, and the position after it.
pub open spec fn string_at(ts: TokenStream, pos: int) -> Result<(Seq<char>, int), Stop> {
    match token_at(ts, pos) {
        Err(e) => Err(stop_at(e, pos)),
        Ok(None) => Err(stop_at(Failure::Syntax(msg_string_missing()), pos)),
        Ok(Some(t)) => match t {
            TokenView::String(s) => Ok((s, pos + 1)),
            _ => Err(stop_at(Failure::Syntax(msg_not_a_string(t)), pos)),
        },
    }
}

/// One of `pairs` has the key `key`.
pub open spec fn has_key(pairs: Seq<PairView>, key: Seq<char>) -> bool {
    exists|i: int| 0 <= i < pairs.len() && (#[trigger] pairs[i]).key == key
}

/// The value that starts at `pos`, and the position after it.
pub open spec fn value_at(ts: TokenStream, pos: int) -> Result<(ValueView, int), Stop>
    decreases ts.tokens.len() - pos, 0int,
{
    match token_at(ts, pos) {
        Err(e) => Err(stop_at(e, pos)),
        Ok(None) => Err(stop_at(Failure::Syntax(msg_value_missing()), pos)),
        Ok(Some(t)) => match t {
            TokenView::LBrace => members_from(ts, pos + 1, Seq::empty()),
            TokenView::LBracket => elements_from(ts, pos + 1, Seq::empty()),
            TokenView::String(s) => Ok((ValueView::Str(s), pos + 1)),
            TokenView::Number(n) => Ok((ValueView::Number(n), pos + 1)),
            TokenView::True => Ok((ValueView::Boolean(true), pos + 1)),
            TokenView::False => Ok((ValueView::Boolean(false), pos + 1)),
            TokenView::Null => Ok((ValueView::Null, pos + 1)),
            _ => Err(stop_at(Failure::Syntax(msg_not_a_value(t)), pos)),
        },
    }
}

/// The array whose first elements are `acc` and whose further elements and
/// closing bracket are read from `pos` on, and the position after it. Every
/// element but the first follows a comma.
pub open spec fn elements_from(ts: TokenStream, pos: int, acc: Seq<ValueView>) -> Result<
    (ValueView, int),
    Stop,
>
    decreases ts.tokens.len() - pos, 2int,
{
    match token_at(ts, pos) {
        Err(e) => Err(stop_at(e, pos)),
        Ok(None) => Err(stop_at(Failure::Syntax(msg_unclosed_array()), pos)),
        Ok(Some(t)) => if t is RBracket {
            Ok((ValueView::Array(acc), pos + 1))
        } else {
            let after_comma = if acc.len() > 0 {
                expect_at(ts, pos, TokenView::Comma)
            } else {
                Ok(pos)
            };
            match after_comma {
                Err(e) => Err(e),
                Ok(p1) => match value_at(ts, p1) {
                    Err(e) => Err(e),
                    Ok((v, p2)) => if pos < p2 <= ts.tokens.len() {
                        elements_from(ts, p2, acc.push(v))
                    } else {
                        // Not reached: what was read ends after `pos` and within the
                        // stream (`lemma_value_advances`).
                        arbitrary()
                    },
                },
            }
        },
    }
}

/// The member that starts at `pos` (a string, a colon and a value), and the
/// position after it.
pub open spec fn pair_at(ts: TokenStream, pos: int) -> Result<(PairView, int), Stop>
    decreases ts.tokens.len() - pos, 1int,
{
    match string_at(ts, pos) {
        Err(e) => Err(e),
        Ok((key, p1)) => match expect_at(ts, p1, TokenView::Colon) {
            Err(e) => Err(e),
            Ok(p2) => match value_at(ts, p2) {
                Err(e) => Err(e),
                Ok((value, p3)) => Ok((PairView { key, value }, p3)),
            },
        },
    }
}

/// The object whose first members are `acc` and whose further members and
/// closing brace are read from `pos` on, and the position after it. Every
/// member but the first follows a comma, and no key may repeat an earlier
/// one of the same object. A repeated key is found when its member has been
/// read: the parser then stands behind the member and has looked no
/// further.
pub open spec fn members_from(ts: TokenStream, pos: int, acc: Seq<PairView>) -> Result<
    (ValueView, int),
    Stop,
>
    decreases ts.tokens.len() - pos, 2int,
{
    match token_at(ts, pos) {
        Err(e) => Err(stop_at(e, pos)),
        Ok(None) => Err(stop_at(Failure::Syntax(msg_unclosed_object()), pos)),
        Ok(Some(t)) => if t is RBrace {
            Ok((ValueView::Object(acc), pos + 1))
        } else {
            let after_comma = if acc.len() > 0 {
                expect_at(ts, pos, TokenView::Comma)
            } else {
                Ok(pos)
            };
            match after_comma {
                Err(e) => Err(e),
                Ok(p1) => match pair_at(ts, p1) {
                    Err(e) => Err(e),
                    Ok((pair, p2)) => if has_key(acc, pair.key) {
                        Err(
                            Stop {
                                failure: Failure::Syntax(msg_duplicate_key(pair.key)),
                                position: p2,
                                seen: p2,
                            },
                        )
                    } else if pos < p2 <= ts.tokens.len() {
                        members_from(ts, p2, acc.push(pair))
                    } else {
                        // Not reached: what was read ends after `pos` and within the
                        // stream (`lemma_value_advances`).
                        arbitrary()
                    },
                },
            }
        },
    }
}

/// The document that starts at `pos`: one value, after which the stream
/// ends; and the position after the value.
pub open spec fn document_at(ts: TokenStream, pos: int) -> Result<(ValueView, int), Stop> {
    match value_at(ts, pos) {
        Err(e) => Err(e),
        Ok((v, p)) => match token_at(ts, p) {
            Err(e) => Err(stop_at(e, p)),
            Ok(Some(_)) => Err(stop_at(Failure::Syntax(msg_trailing_content()), p)),
            Ok(None) => Ok((v, p)),
        },
    }
}

/// The document that the stream holds: one value, and nothing after it.
pub open spec fn document(ts: TokenStream) -> Result<ValueView, Failure> {
    match document_at(ts, 0) {
        Err(e) => Err(e.failure),
        Ok((v, _)) => Ok(v),
    }
}

/// Where the reading of a value gives up, it has looked at the position at
/// which it started, stands at or after it, and has looked at most one
/// position further than it stands.
pub proof fn lemma_value_stop(ts: TokenStream, pos: int)
    ensures
        value_at(ts, pos) matches Err(stop) ==> pos <= stop.position <= stop.seen
            <= stop.position + 1 && pos < stop.seen,
    decreases ts.tokens.len() - pos, 0int,
{
    if 0 <= pos < ts.tokens.len() {
        lemma_members_stop(ts, pos + 1, Seq::empty());
        lemma_elements_stop(ts, pos + 1, Seq::empty());
    }
}

/// The same of what is left of an array.
pub proof fn lemma_elements_stop(ts: TokenStream, pos: int, acc: Seq<ValueView>)
    ensures
        elements_from(ts, pos, acc) matches Err(stop) ==> pos <= stop.position <= stop.seen
            <= stop.position + 1 && pos < stop.seen,
    decreases ts.tokens.len() - pos, 2int,
{
    if 0 <= pos < ts.tokens.len() && !(ts.tokens[pos] is RBracket) {
        let after_comma = if acc.len() > 0 {
            expect_at(ts, pos, TokenView::Comma)
        } else {
            Ok(pos)
        };
        if let Ok(p1) = after_comma {
            lemma_value_stop(ts, p1);
            lemma_value_advances(ts, p1);
            if let Ok((v, p2)) = value_at(ts, p1) {
                lemma_elements_stop(ts, p2, acc.push(v));
            }
        }
    }
}

/// The same of a member.
pub proof fn lemma_pair_stop(ts: TokenStream, pos: int)
    ensures
        pair_at(ts, pos) matches Err(stop) ==> pos <= stop.position <= stop.seen
            <= stop.position + 1 && pos < stop.seen,
    decreases ts.tokens.len() - pos, 1int,
{
    if let Ok((key, p1)) = string_at(ts, pos) {
        if let Ok(p2) = expect_at(ts, p1, TokenView::Colon) {
            lemma_value_stop(ts, p2);
        }
    }
}

/// The same of what is left of an object.
pub proof fn lemma_members_stop(ts: TokenStream, pos: int, acc: Seq<PairView>)
    ensures
        members_from(ts, pos, acc) matches Err(stop) ==> pos <= stop.position <= stop.seen
            <= stop.position + 1 && pos < stop.seen,
    decreases ts.tokens.len() - pos, 2int,
{
    if 0 <= pos < ts.tokens.len() && !(ts.tokens[pos] is RBrace) {
        let after_comma = if acc.len() > 0 {
            expect_at(ts, pos, TokenView::Comma)
        } else {
            Ok(pos)
        };
        if let Ok(p1) = after_comma {
            lemma_pair_stop(ts, p1);
            lemma_pair_advances(ts, p1);
            if let Ok((pair, p2)) = pair_at(ts, p1) {
                if !has_key(acc, pair.key) {
                    lemma_members_stop(ts, p2, acc.push(pair));
                }
            }
        }
    }
}

/// A value takes at least one token, and none beyond the stream.
pub proof fn lemma_value_advances(ts: TokenStream, pos: int)
    ensures
        value_at(ts, pos) matches Ok((v, p)) ==> pos < p <= ts.tokens.len(),
    decreases ts.tokens.len() - pos, 0int,
{
    if 0 <= pos < ts.tokens.len() {
        lemma_members_advance(ts, pos + 1, Seq::empty());
        lemma_elements_advance(ts, pos + 1, Seq::empty());
    }
}

/// What is left of an array ends after the position from which it is read,
/// within the stream.
pub proof fn lemma_elements_advance(ts: TokenStream, pos: int, acc: Seq<ValueView>)
    ensures
        elements_from(ts, pos, acc) matches Ok((v, p)) ==> pos < p <= ts.tokens.len(),
    decreases ts.tokens.len() - pos, 2int,
{
    if 0 <= pos < ts.tokens.len() && !(ts.tokens[pos] is RBracket) {
        let after_comma = if acc.len() > 0 {
            expect_at(ts, pos, TokenView::Comma)
        } else {
            Ok(pos)
        };
        if let Ok(p1) = after_comma {
            lemma_value_advances(ts, p1);
            if let Ok((v, p2)) = value_at(ts, p1) {
                lemma_elements_advance(ts, p2, acc.push(v));
            }
        }
    }
}

/// A member takes at least three tokens, and none beyond the stream.
pub proof fn lemma_pair_advances(ts: TokenStream, pos: int)
    ensures
        pair_at(ts, pos) matches Ok((pair, p)) ==> pos + 2 < p <= ts.tokens.len(),
    decreases ts.tokens.len() - pos, 1int,
{
    if let Ok((key, p1)) = string_at(ts, pos) {
        if let Ok(p2) = expect_at(ts, p1, TokenView::Colon) {
            lemma_value_advances(ts, p2);
        }
    }
}

/// What is left of an object ends after the position from which it is read,
/// within the stream.
pub proof fn lemma_members_advance(ts: TokenStream, pos: int, acc: Seq<PairView>)
    ensures
        members_from(ts, pos, acc) matches Ok((v, p)) ==> pos < p <= ts.tokens.len(),
    decreases ts.tokens.len() - pos, 2int,
{
    if 0 <= pos < ts.tokens.len() && !(ts.tokens[pos] is RBrace) {
        let after_comma = if acc.len() > 0 {
            expect_at(ts, pos, TokenView::Comma)
        } else {
            Ok(pos)
        };
        if let Ok(p1) = after_comma {
            lemma_pair_advances(ts, p1);
            if let Ok((pair, p2)) = pair_at(ts, p1) {
                if !has_key(acc, pair.key) {
                    lemma_members_advance(ts, p2, acc.push(pair));
                }
            }
        }
    }
}

} // verus!
