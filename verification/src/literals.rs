//! What a number literal and the body of a string literal are, said without
//! reference to how they are scanned, and the theorems that tie the token
//! grammar to these definitions: every well-formed token is read back from
//! its spelling, and every token read is well formed and spells exactly the
//! characters that were read for it.

use crate::chars::{is_control, is_digit, is_hex_digit, is_simple_escape};
use crate::grammar::{
    digit_run, exponent_end, fraction_end, integer_end, lemma_digit_run, lemma_lex_progress,
    lemma_number_len, lemma_string_close, lemma_whitespace_end, lex, msg_control_char,
    msg_invalid_escape, number_len, scan, sign_len, string_close, unicode_escape_fault,
    whitespace_end, word_boundary, word_false, word_null, word_true, Lexed, TokenView,
};
use vstd::prelude::*;

verus! {

/// Every character of `s` is a digit.
pub open spec fn all_digits(s: Seq<char>) -> bool {
    forall|i: int| 0 <= i < s.len() ==> is_digit(#[trigger] s[i])
}

/// A single `0`, or one or more digits of which the first is not `0`.
pub open spec fn is_integer_part(s: Seq<char>) -> bool {
    s.len() >= 1 && all_digits(s) && (s[0] == '0' ==> s.len() == 1)
}

/// A point and one or more digits.
pub open spec fn is_fraction(s: Seq<char>) -> bool {
    s.len() >= 2 && s[0] == '.' && all_digits(s.skip(1))
}

/// `e` or `E`, an optional sign, and one or more digits.
pub open spec fn is_exponent(s: Seq<char>) -> bool {
    &&& s.len() >= 2
    &&& s[0] == 'e' || s[0] == 'E'
    &&& {
        ||| all_digits(s.skip(1))
        ||| (s.len() >= 3 && (s[1] == '+' || s[1] == '-') && all_digits(s.skip(2)))
    }
}

/// `s` is a number literal whose integer part stands from `a` to `b`, whose
/// fraction, if it has one, from `b` to `c`, and whose exponent, if it has
/// one, from `c` to the end; before `a` stands at most a minus sign.
pub open spec fn number_parts(s: Seq<char>, a: int, b: int, c: int) -> bool {
    &&& a == 0 || (a == 1 && s[0] == '-')
    &&& a < b <= c <= s.len()
    &&& is_integer_part(s.subrange(a, b))
    &&& b == c || is_fraction(s.subrange(b, c))
    &&& c == s.len() || is_exponent(s.subrange(c, s.len() as int))
}

/// `s` is a number literal: an optional minus sign, an integer part, an
/// optional fraction and an optional exponent.
pub open spec fn is_number(s: Seq<char>) -> bool {
    exists|a: int, b: int, c: int| number_parts(s, a, b, c)
}

/// The four characters of `s` from `i` on are hexadecimal digits.
pub open spec fn hex_quad(s: Seq<char>, i: int) -> bool {
    &&& 0 <= i && i + 4 <= s.len()
    &&& is_hex_digit(s[i])
    &&& is_hex_digit(s[i + 1])
    &&& is_hex_digit(s[i + 2])
    &&& is_hex_digit(s[i + 3])
}

/// `b` can stand between the quotes of a string literal: it is made of
/// characters other than the quote, the backslash and control characters,
/// of backslashes followed by one of `" \ / f n r t`, and of `\u` followed
/// by four hexadecimal digits.
pub open spec fn is_string_body(b: Seq<char>) -> bool
    decreases b.len(),
{
    if b.len() == 0 {
        true
    } else if b[0] == '\\' {
        ||| (b.len() >= 2 && is_simple_escape(b[1]) && is_string_body(b.skip(2)))
        ||| (b.len() >= 6 && b[1] == 'u' && hex_quad(b, 2) && is_string_body(b.skip(6)))
    } else {
        b[0] != '"' && !is_control(b[0]) && is_string_body(b.skip(1))
    }
}

/// The characters that spell a token.
pub open spec fn spelling(t: TokenView) -> Seq<char> {
    match t {
        TokenView::LBrace => seq!['{'],
        TokenView::RBrace => seq!['}'],
        TokenView::LBracket => seq!['['],
        TokenView::RBracket => seq![']'],
        TokenView::Comma => seq![','],
        TokenView::Colon => seq![':'],
        TokenView::True => word_true(),
        TokenView::False => word_false(),
        TokenView::Null => word_null(),
        TokenView::Number(n) => n,
        TokenView::String(b) => seq!['"'] + b + seq!['"'],
    }
}

/// The payload of a number is a number literal, that of a string a string
/// body; the other tokens carry nothing.
pub open spec fn well_formed(t: TokenView) -> bool {
    match t {
        TokenView::Number(n) => is_number(n),
        TokenView::String(b) => is_string_body(b),
        _ => true,
    }
}

/// Where digits stand from `i` up to `j` and none stands at `j`, the run of
/// digits from `i` ends at `j`.
pub proof fn lemma_digit_run_is(s: Seq<char>, i: int, j: int)
    requires
        0 <= i <= j <= s.len(),
        forall|k: int| i <= k < j ==> is_digit(#[trigger] s[k]),
        j == s.len() || !is_digit(s[j]),
    ensures
        digit_run(s, i) == j,
    decreases j - i,
{
    if i < j {
        lemma_digit_run_is(s, i + 1, j);
    }
}

/// Where a number literal with the given parts stands at the head of `s`
/// and ends at a word boundary, scanning finds a number at least as long.
proof fn lemma_number_prefix(s: Seq<char>, m: int, a: int, b: int, c: int)
    requires
        0 <= m <= s.len(),
        number_parts(s.take(m), a, b, c),
        word_boundary(s, m),
    ensures
        number_len(s) is Some,
        m <= number_len(s)->0 <= s.len(),
        s[0] == '-' || is_digit(s[0]),
{
    lemma_number_len(s);
    let p = s.take(m);
    let int_part = p.subrange(a, b);
    assert(forall|k: int| a <= k < b ==> s[k] == int_part[k - a]);
    assert(int_part[0] == s[a]);
    if b < c {
        let frac = p.subrange(b, c);
        assert(frac[0] == s[b]);
        assert(forall|k: int| b + 1 <= k < c ==> s[k] == frac.skip(1)[k - b - 1]);
        assert(frac.skip(1)[0] == s[b + 1]);
    }
    if c < m {
        let exp = p.subrange(c, m);
        assert(exp[0] == s[c]);
        assert(exp[1] == s[c + 1]);
        if all_digits(exp.skip(1)) {
            assert(forall|k: int| c + 1 <= k < m ==> s[k] == exp.skip(1)[k - c - 1]);
            assert(exp.skip(1)[0] == s[c + 1]);
            lemma_digit_run_is(s, c + 1, m);
        } else {
            assert(forall|k: int| c + 2 <= k < m ==> s[k] == exp.skip(2)[k - c - 2]);
            assert(exp.skip(2)[0] == s[c + 2]);
            lemma_digit_run_is(s, c + 2, m);
        }
    }
    assert(p[0] == s[0]);
    assert(sign_len(s) == a);
    if s[a] != '0' {
        lemma_digit_run_is(s, a, b);
    }
    assert(integer_end(s) == Some(b));
    if b < m {
        if b < c {
            lemma_digit_run_is(s, b + 1, c);
        }
        assert(fraction_end(s, b) == c);
        if c < m {
            assert(exponent_end(s, c) == m);
        }
    }
}

/// The number that is read is the longest number literal at the head of the
/// text that ends at a word boundary: no longer one stands there.
pub proof fn lemma_number_is_longest(s: Seq<char>, m: int)
    requires
        0 <= m <= s.len(),
        is_number(s.take(m)),
        word_boundary(s, m),
    ensures
        number_len(s) is Some,
        m <= number_len(s)->0 <= s.len(),
        s[0] == '-' || is_digit(s[0]),
{
    let p = s.take(m);
    let (a, b, c) = choose|a: int, b: int, c: int| number_parts(p, a, b, c);
    lemma_number_prefix(s, m, a, b, c);
}

/// A number literal on its own is read as a number token whose payload is
/// the literal, character for character, and nothing is left of the text.
pub proof fn lemma_number_lexes(s: Seq<char>)
    requires
        is_number(s),
    ensures
        lex(s) == Lexed::Token(TokenView::Number(s), s.len() as int),
{
    assert(s.take(s.len() as int) =~= s);
    lemma_number_is_longest(s, s.len() as int);
    assert(whitespace_end(s, 0) == 0);
    assert(s.skip(0) =~= s);
}

/// Passing over a string body does not change where, or whether, the string
/// is closed.
pub proof fn lemma_body_is_passed(s: Seq<char>, i: int, j: int)
    requires
        0 <= i <= j <= s.len(),
        is_string_body(s.subrange(i, j)),
    ensures
        string_close(s, i) == string_close(s, j),
    decreases j - i,
{
    let b = s.subrange(i, j);
    if b.len() > 0 {
        assert(b[0] == s[i]);
        if b[0] == '\\' {
            assert(b[1] == s[i + 1]);
            if b.len() >= 2 && is_simple_escape(b[1]) && is_string_body(b.skip(2)) {
                assert(b.skip(2) =~= s.subrange(i + 2, j));
                lemma_body_is_passed(s, i + 2, j);
            } else {
                assert(b[2] == s[i + 2] && b[3] == s[i + 3] && b[4] == s[i + 4] && b[5] == s[i
                    + 5]);
                assert(b.skip(6) =~= s.subrange(i + 6, j));
                lemma_body_is_passed(s, i + 6, j);
            }
        } else {
            assert(b.skip(1) =~= s.subrange(i + 1, j));
            lemma_body_is_passed(s, i + 1, j);
        }
    }
}

/// What stands before the quote that closes a string is a string body.
pub proof fn lemma_closed_is_body(s: Seq<char>, i: int)
    requires
        0 <= i,
        string_close(s, i) is Ok,
    ensures
        i <= string_close(s, i)->Ok_0 < s.len(),
        is_string_body(s.subrange(i, string_close(s, i)->Ok_0)),
    decreases s.len() - i,
{
    lemma_string_close(s, i);
    let e = string_close(s, i)->Ok_0;
    let b = s.subrange(i, e);
    if s[i] == '"' {
    } else if s[i] == '\\' {
        if is_simple_escape(s[i + 1]) {
            lemma_closed_is_body(s, i + 2);
            assert(b.skip(2) =~= s.subrange(i + 2, e));
            assert(b[0] == s[i] && b[1] == s[i + 1]);
        } else {
            assert(unicode_escape_fault(s, i + 2) is None);
            lemma_closed_is_body(s, i + 6);
            assert(b.skip(6) =~= s.subrange(i + 6, e));
            assert(b[0] == s[i] && b[1] == s[i + 1] && b[2] == s[i + 2] && b[3] == s[i + 3]
                && b[4] == s[i + 4] && b[5] == s[i + 5]);
        }
    } else {
        lemma_closed_is_body(s, i + 1);
        assert(b.skip(1) =~= s.subrange(i + 1, e));
        assert(b[0] == s[i]);
    }
}

/// A string body holds no control character.
pub proof fn lemma_body_has_no_control(b: Seq<char>)
    requires
        is_string_body(b),
    ensures
        forall|k: int| 0 <= k < b.len() ==> !is_control(#[trigger] b[k]),
    decreases b.len(),
{
    if b.len() > 0 {
        if b[0] == '\\' {
            if b.len() >= 2 && is_simple_escape(b[1]) && is_string_body(b.skip(2)) {
                lemma_body_has_no_control(b.skip(2));
                assert forall|k: int| 0 <= k < b.len() implies !is_control(#[trigger] b[k]) by {
                    if k >= 2 {
                        assert(b[k] == b.skip(2)[k - 2]);
                    }
                }
            } else {
                lemma_body_has_no_control(b.skip(6));
                assert forall|k: int| 0 <= k < b.len() implies !is_control(#[trigger] b[k]) by {
                    if k >= 6 {
                        assert(b[k] == b.skip(6)[k - 6]);
                    }
                }
            }
        } else {
            lemma_body_has_no_control(b.skip(1));
            assert forall|k: int| 0 <= k < b.len() implies !is_control(#[trigger] b[k]) by {
                if k >= 1 {
                    assert(b[k] == b.skip(1)[k - 1]);
                }
            }
        }
    }
}

/// A string body between quotes is read as a string token whose payload is
/// the body, escapes as they were written, whatever follows the closing
/// quote.
pub proof fn lemma_string_lexes(body: Seq<char>, tail: Seq<char>)
    requires
        is_string_body(body),
    ensures
        lex(seq!['"'] + body + seq!['"'] + tail) == Lexed::Token(
            TokenView::String(body),
            body.len() as int + 2,
        ),
{
    let s = seq!['"'] + body + seq!['"'] + tail;
    let j = body.len() as int + 1;
    assert(s.subrange(1, j) =~= body);
    lemma_body_is_passed(s, 1, j);
    assert(s[j] == '"');
    assert(string_close(s, j) == Ok::<int, Seq<char>>(j));
    assert(whitespace_end(s, 0) == 0);
    assert(s.skip(0) =~= s);
}

/// A backslash before a character that is neither `u` nor one of
/// `" \ / f n r t` makes the string literal fail, wherever in the body it
/// stands and whatever follows.
pub proof fn lemma_unknown_escape_fails(body: Seq<char>, c: char, tail: Seq<char>)
    requires
        is_string_body(body),
        !is_simple_escape(c),
        c != 'u',
    ensures
        lex(seq!['"'] + body + seq!['\\', c] + tail) == Lexed::Error(msg_invalid_escape()),
{
    let s = seq!['"'] + body + seq!['\\', c] + tail;
    let j = body.len() as int + 1;
    assert(s.subrange(1, j) =~= body);
    lemma_body_is_passed(s, 1, j);
    assert(s[j] == '\\' && s[j + 1] == c);
    assert(whitespace_end(s, 0) == 0);
    assert(s.skip(0) =~= s);
}

/// A raw control character makes the string literal fail, wherever in the
/// body it stands and whatever follows.
pub proof fn lemma_control_char_fails(body: Seq<char>, c: char, tail: Seq<char>)
    requires
        is_string_body(body),
        is_control(c),
    ensures
        lex(seq!['"'] + body + seq![c] + tail) == Lexed::Error(msg_control_char()),
{
    let s = seq!['"'] + body + seq![c] + tail;
    let j = body.len() as int + 1;
    assert(s.subrange(1, j) =~= body);
    lemma_body_is_passed(s, 1, j);
    assert(s[j] == c);
    assert(whitespace_end(s, 0) == 0);
    assert(s.skip(0) =~= s);
}

/// Every well-formed token is read back from its spelling, and nothing is
/// left of the text.
pub proof fn lemma_spelling_lexes(t: TokenView)
    requires
        well_formed(t),
    ensures
        lex(spelling(t)) == Lexed::Token(t, spelling(t).len() as int),
{
    let s = spelling(t);
    match t {
        TokenView::Number(n) => {
            lemma_number_lexes(n);
        },
        TokenView::String(b) => {
            lemma_string_lexes(b, Seq::empty());
            assert(seq!['"'] + b + seq!['"'] + Seq::<char>::empty() =~= s);
        },
        _ => {
            assert(whitespace_end(s, 0) == 0);
            assert(s.skip(0) =~= s);
            assert(s.subrange(0, s.len() as int) =~= s);
        },
    }
}

/// The number that is read is a number literal that ends at a word boundary.
pub proof fn lemma_scanned_number_is_number(s: Seq<char>)
    requires
        number_len(s) is Some,
    ensures
        is_number(s.take(number_len(s)->0)),
        word_boundary(s, number_len(s)->0),
{
    lemma_number_len(s);
    let a = sign_len(s);
    let i = integer_end(s)->0;
    let f = fraction_end(s, i);
    let e = exponent_end(s, f);
    let n = number_len(s)->0;
    let p = s.take(n);
    lemma_digit_run(s, a);
    if i + 1 <= s.len() {
        lemma_digit_run(s, i + 1);
    }
    if f + 1 <= s.len() {
        lemma_digit_run(s, f + 1);
    }
    if f + 2 <= s.len() {
        lemma_digit_run(s, f + 2);
    }
    let c = if n == i {
        i
    } else {
        f
    };
    assert(is_integer_part(p.subrange(a, i))) by {
        let part = p.subrange(a, i);
        assert forall|k: int| 0 <= k < part.len() implies is_digit(#[trigger] part[k]) by {
            assert(part[k] == s[a + k]);
        }
        assert(part[0] == s[a]);
    }
    if i < c {
        assert(is_fraction(p.subrange(i, c))) by {
            let part = p.subrange(i, c);
            assert(part[0] == s[i]);
            assert forall|k: int| 0 <= k < part.skip(1).len() implies is_digit(
                #[trigger] part.skip(1)[k],
            ) by {
                assert(part.skip(1)[k] == s[i + 1 + k]);
            }
        }
    }
    if c < n {
        assert(is_exponent(p.subrange(c, n))) by {
            let part = p.subrange(c, n);
            assert(part[0] == s[c]);
            assert(part[1] == s[c + 1]);
            if s[c + 1] == '+' || s[c + 1] == '-' {
                assert forall|k: int| 0 <= k < part.skip(2).len() implies is_digit(
                    #[trigger] part.skip(2)[k],
                ) by {
                    assert(part.skip(2)[k] == s[c + 2 + k]);
                }
            } else {
                assert forall|k: int| 0 <= k < part.skip(1).len() implies is_digit(
                    #[trigger] part.skip(1)[k],
                ) by {
                    assert(part.skip(1)[k] == s[c + 1 + k]);
                }
            }
        }
    }
    assert(number_parts(p, a, i, c));
}

/// Every token that is read is well formed, and it spells exactly the
/// characters that were read for it after the leading whitespace.
pub proof fn lemma_lexed_is_spelled(s: Seq<char>)
    ensures
        lex(s) matches Lexed::Token(t, n) ==> {
            &&& well_formed(t)
            &&& 0 <= whitespace_end(s, 0) < n <= s.len()
            &&& s.subrange(whitespace_end(s, 0), n) == spelling(t)
        },
{
    lemma_whitespace_end(s, 0);
    lemma_lex_progress(s);
    let w = whitespace_end(s, 0);
    if w < s.len() {
        let r = s.skip(w);
        match scan(r) {
            Lexed::Token(t, m) => {
                lemma_number_len(r);
                if r[0] == '"' {
                    lemma_closed_is_body(r, 1);
                    lemma_string_close(r, 1);
                    let e = string_close(r, 1)->Ok_0;
                    assert(r.subrange(0, e + 1) =~= seq!['"'] + r.subrange(1, e) + seq!['"']);
                } else if r[0] == '-' || is_digit(r[0]) {
                    lemma_scanned_number_is_number(r);
                }
                assert(s.subrange(w, w + m) =~= r.subrange(0, m));
                assert(r.subrange(0, m) =~= r.take(m));
            },
            _ => {},
        }
    }
}

/// No string token holds a control character.
pub proof fn lemma_string_token_has_no_control(s: Seq<char>)
    ensures
        lex(s) matches Lexed::Token(TokenView::String(b), n) ==> forall|k: int|
            0 <= k < b.len() ==> !is_control(#[trigger] b[k]),
{
    lemma_lexed_is_spelled(s);
    if let Lexed::Token(TokenView::String(b), n) = lex(s) {
        lemma_body_has_no_control(b);
    }
}

} // verus!
