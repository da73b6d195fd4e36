//! The tokens of a whole text, in order.

use crate::grammar::{lemma_lex_len, lemma_lex_progress, lex, lex_len, Lexed, TokenView};
use vstd::prelude::*;

verus! {

/// The tokens that reading a text to its end yields, and the fault that
/// stopped the reading, if one did.
pub struct TokenStream {
    pub tokens: Seq<TokenView>,
    /// The message of the lexical error that follows the last token.
    pub fault: Option<Seq<char>>,
}

/// The tokens of `text`: reading goes on until nothing is left or a token
/// cannot be read.
pub open spec fn token_stream(text: Seq<char>) -> TokenStream
    decreases text.len(),
    via token_stream_decreases
{
    match lex(text) {
        Lexed::Token(t, n) => {
            let rest = token_stream(text.skip(n));
            TokenStream { tokens: seq![t] + rest.tokens, fault: rest.fault }
        },
        Lexed::End => TokenStream { tokens: Seq::empty(), fault: None },
        Lexed::Error(m) => TokenStream { tokens: Seq::empty(), fault: Some(m) },
    }
}

#[via_fn]
proof fn token_stream_decreases(text: Seq<char>) {
    lemma_lex_progress(text);
}


/// The number of characters that `calls` calls of the tokenizer, one after
/// the other, pass over in `text`.
pub open spec fn lexed_len(text: Seq<char>, calls: nat) -> int
    decreases calls,
{
    if calls == 0 {
        0
    } else {
        lex_len(text) + lexed_len(text.skip(lex_len(text)), (calls - 1) as nat)
    }
}

/// Calls of the tokenizer pass over no more than the text.
pub proof fn lemma_lexed_len_bounds(text: Seq<char>, calls: nat)
    ensures
        0 <= lexed_len(text, calls) <= text.len(),
    decreases calls,
{
    if calls > 0 {
        lemma_lex_len(text);
        lemma_lexed_len_bounds(text.skip(lex_len(text)), (calls - 1) as nat);
    }
}

/// One call passes over what `lex_len` says.
pub proof fn lemma_lexed_len_one(text: Seq<char>)
    ensures
        lexed_len(text, 0) == 0,
        lexed_len(text, 1) == lex_len(text),
{
    assert(lexed_len(text.skip(lex_len(text)), 0) == 0);
}

/// `a + b` calls pass over what `a` calls pass over and then what `b` calls
/// pass over in the rest.
pub proof fn lemma_lexed_len_add(text: Seq<char>, a: nat, b: nat)
    ensures
        lexed_len(text, a + b) == lexed_len(text, a) + lexed_len(
            text.skip(lexed_len(text, a)),
            b,
        ),
    decreases a,
{
    if a == 0 {
        assert(text.skip(0) =~= text);
    } else {
        let n = lex_len(text);
        let rest = text.skip(n);
        let before = (a - 1) as nat;
        lemma_lex_len(text);
        lemma_lexed_len_add(rest, before, b);
        lemma_lexed_len_bounds(rest, before);
        assert(rest.skip(lexed_len(rest, before)) =~= text.skip(n + lexed_len(rest, before)));
        assert((a + b - 1) as nat == before + b);
    }
}

} // verus!
