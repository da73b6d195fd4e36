//! Byte positions in UTF-8 text, and the characters that stand behind them.
//!
//! A `&str` is viewed as its characters; a cursor into it is a byte offset.
//! The functions here read one character at a byte offset and cut the text
//! between two offsets, and the lemmas say how offsets and characters move
//! together.

use vstd::prelude::*;
use vstd::string::*;
use vstd::utf8::*;

verus! {

/// The characters encoded from byte `at` to the end of `bytes`.
pub open spec fn chars_from(bytes: Seq<u8>, at: int) -> Seq<char> {
    decode_utf8(bytes.subrange(at, bytes.len() as int))
}

/// The number of bytes in the UTF-8 encoding of `s`.
pub open spec fn utf8_len(s: Seq<char>) -> nat {
    encode_utf8(s).len()
}

/// The number of bytes in the UTF-8 encoding of `c`.
pub open spec fn spec_utf8_width(c: char) -> nat {
    encode_scalar(c as u32).len()
}

/// The first character of `s`, if there is one.
pub open spec fn first_char(s: Seq<char>) -> Option<char> {
    if s.len() > 0 {
        Some(s[0])
    } else {
        None
    }
}

pub fn utf8_width(c: char) -> (w: usize)
    ensures
        w == spec_utf8_width(c),
        1 <= w <= 4,
{
    let v = c as u32;
    if v < 0x80 {
        1
    } else if v < 0x800 {
        2
    } else if v < 0x10000 {
        3
    } else {
        4
    }
}

/// A character boundary lies within the text.
pub proof fn lemma_boundary_in_range(bytes: Seq<u8>, at: int)
    requires
        valid_utf8(bytes),
        is_char_boundary(bytes, at),
    ensures
        0 <= at <= bytes.len(),
{
}

/// Past a boundary that is not the end stands a character; the next boundary
/// lies as many bytes further as that character's encoding is long, and what
/// follows it is the rest of the characters.
pub proof fn lemma_step(bytes: Seq<u8>, at: int)
    requires
        valid_utf8(bytes),
        is_char_boundary(bytes, at),
        at < bytes.len(),
    ensures
        chars_from(bytes, at).len() > 0,
        ({
            let w = spec_utf8_width(chars_from(bytes, at)[0]);
            &&& 1 <= w <= 4
            &&& at + w <= bytes.len()
            &&& is_char_boundary(bytes, at + w)
            &&& chars_from(bytes, at + w) == chars_from(bytes, at).drop_first()
        }),
{
    lemma_boundary_in_range(bytes, at);
    let rest = bytes.subrange(at, bytes.len() as int);
    valid_utf8_split(bytes, at);
    assert(valid_first_scalar(rest) && valid_utf8(pop_first_scalar(rest)));
    let l = length_of_first_scalar(rest);
    let tail = pop_first_scalar(rest);
    let c = decode_first_scalar(rest) as char;
    assert(tail =~= bytes.subrange(at + l, bytes.len() as int));
    decode_utf8_first_scalar(rest);
    assert(encode_scalar(c as u32).len() == l);
    assert(decode_utf8(rest) == seq![c] + decode_utf8(tail));
    assert(chars_from(bytes, at).drop_first() =~= decode_utf8(tail));
    if at + l == bytes.len() {
        is_char_boundary_start_end_of_seq(bytes);
    } else {
        assert(valid_first_scalar(tail));
        assert(tail[0] == bytes[at + l]);
        is_char_boundary_iff_not_is_continuation_byte(bytes, at + l);
    }
}

/// No character stands past the end.
pub proof fn lemma_end(bytes: Seq<u8>)
    requires
        valid_utf8(bytes),
    ensures
        chars_from(bytes, bytes.len() as int).len() == 0,
        is_char_boundary(bytes, bytes.len() as int),
{
    is_char_boundary_start_end_of_seq(bytes);
    assert(bytes.subrange(bytes.len() as int, bytes.len() as int) =~= Seq::<u8>::empty());
}

/// A boundary of the whole text is a boundary of the text cut at an earlier one.
proof fn lemma_boundary_in_suffix(bytes: Seq<u8>, from: int, to: int)
    requires
        valid_utf8(bytes),
        is_char_boundary(bytes, from),
        is_char_boundary(bytes, to),
        from <= to,
    ensures
        valid_utf8(bytes.subrange(from, bytes.len() as int)),
        is_char_boundary(bytes.subrange(from, bytes.len() as int), to - from),
{
    lemma_boundary_in_range(bytes, from);
    lemma_boundary_in_range(bytes, to);
    let rest = bytes.subrange(from, bytes.len() as int);
    valid_utf8_split(bytes, from);
    if to == bytes.len() {
        is_char_boundary_start_end_of_seq(rest);
    } else {
        is_char_boundary_iff_not_is_continuation_byte(bytes, to);
        is_char_boundary_iff_not_is_continuation_byte(rest, to - from);
        assert(rest[to - from] == bytes[to]);
    }
}

/// A boundary of the whole text is a boundary of the text cut at a later one.
proof fn lemma_boundary_in_prefix(bytes: Seq<u8>, from: int, to: int)
    requires
        valid_utf8(bytes),
        is_char_boundary(bytes, from),
        is_char_boundary(bytes, to),
        from <= to,
    ensures
        valid_utf8(bytes.subrange(0, to)),
        is_char_boundary(bytes.subrange(0, to), from),
{
    lemma_boundary_in_range(bytes, from);
    lemma_boundary_in_range(bytes, to);
    let head = bytes.subrange(0, to);
    valid_utf8_split(bytes, to);
    if from == to {
        is_char_boundary_start_end_of_seq(head);
    } else {
        is_char_boundary_iff_not_is_continuation_byte(bytes, from);
        is_char_boundary_iff_not_is_continuation_byte(head, from);
        assert(head[from] == bytes[from]);
    }
}

/// The characters from one boundary on are those up to a later boundary,
/// followed by those from the later boundary on; and the bytes between the
/// two are the encoding of the characters between them.
pub proof fn lemma_between(bytes: Seq<u8>, from: int, to: int)
    requires
        valid_utf8(bytes),
        is_char_boundary(bytes, from),
        is_char_boundary(bytes, to),
        from <= to,
    ensures
        chars_from(bytes, from) == decode_utf8(bytes.subrange(from, to)) + chars_from(bytes, to),
        utf8_len(decode_utf8(bytes.subrange(from, to))) == to - from,
{
    lemma_boundary_in_range(bytes, from);
    lemma_boundary_in_range(bytes, to);
    let rest = bytes.subrange(from, bytes.len() as int);
    lemma_boundary_in_suffix(bytes, from, to);
    decode_utf8_split(rest, to - from);
    valid_utf8_split(rest, to - from);
    assert(rest.subrange(0, to - from) =~= bytes.subrange(from, to));
    assert(rest.subrange(to - from, rest.len() as int) =~= bytes.subrange(
        to,
        bytes.len() as int,
    ));
    decode_utf8_encode_utf8(bytes.subrange(from, to));
}

/// Where the characters from `to` on are those from `from` on without the first
/// `n`, the characters between the two offsets are those first `n`.
pub proof fn lemma_consumed(bytes: Seq<u8>, from: int, to: int, n: int)
    requires
        valid_utf8(bytes),
        is_char_boundary(bytes, from),
        is_char_boundary(bytes, to),
        from <= to,
        0 <= n <= chars_from(bytes, from).len(),
        chars_from(bytes, to) == chars_from(bytes, from).skip(n),
    ensures
        decode_utf8(bytes.subrange(from, to)) == chars_from(bytes, from).take(n),
        to - from == utf8_len(chars_from(bytes, from).take(n)),
{
    lemma_between(bytes, from, to);
    let mid = decode_utf8(bytes.subrange(from, to));
    let all = chars_from(bytes, from);
    assert(all.len() == mid.len() + all.skip(n).len());
    assert(mid =~= all.take(n)) by {
        assert forall|k: int| 0 <= k < mid.len() implies mid[k] == all.take(n)[k] by {
            assert((mid + chars_from(bytes, to))[k] == mid[k]);
        }
    }
}

/// The character that starts at byte `at`, or `None` at the end of the text.
pub fn char_at(text: &str, at: usize) -> (r: Option<char>)
    requires
        is_char_boundary(text.spec_bytes(), at as int),
    ensures
        r == first_char(chars_from(text.spec_bytes(), at as int)),
        r is None <==> at == text.spec_bytes().len(),
{
    broadcast use {encode_utf8_valid_utf8, encode_utf8_decode_utf8, group_string_axioms};

    proof {
        let bytes = text.spec_bytes();
        lemma_boundary_in_range(bytes, at as int);
        if at < bytes.len() {
            lemma_step(bytes, at as int);
        } else {
            lemma_end(bytes);
        }
    }
    let (_, rest) = text.split_at(at);
    assert(rest@ == chars_from(text.spec_bytes(), at as int)) by {
        assert(decode_utf8(encode_utf8(rest@)) == rest@);
    }
    let mut it = rest.chars();
    it.next()
}

/// The text between two byte offsets.
pub fn slice<'a>(text: &'a str, from: usize, to: usize) -> (r: &'a str)
    requires
        is_char_boundary(text.spec_bytes(), from as int),
        is_char_boundary(text.spec_bytes(), to as int),
        from <= to,
    ensures
        r@ == decode_utf8(text.spec_bytes().subrange(from as int, to as int)),
{
    broadcast use {encode_utf8_valid_utf8, encode_utf8_decode_utf8};

    let (head, _) = text.split_at(to);
    proof {
        lemma_boundary_in_prefix(text.spec_bytes(), from as int, to as int);
    }
    let (_, mid) = head.split_at(from);
    proof {
        let bytes = text.spec_bytes();
        lemma_boundary_in_range(bytes, to as int);
        assert(mid.spec_bytes() =~= bytes.subrange(from as int, to as int));
        assert(decode_utf8(encode_utf8(mid@)) == mid@);
    }
    mid
}

} // verus!
