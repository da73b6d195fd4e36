//! What a document is, said without reference to how it is parsed: the
//! tokens that spell a value, and the theorem that a stream of tokens is
//! parsed to a value exactly when it spells that value and no object in it
//! has two members with the same key.

use crate::grammar::TokenView;
use crate::stream::TokenStream;
use crate::syntax::{
    document, elements_from, has_key, members_from, pair_at, value_at, Failure, Stop,
};
use crate::value::{PairView, ValueView};
use vstd::prelude::*;

verus! {

/// The tokens that spell a value.
pub open spec fn value_tokens(v: ValueView) -> Seq<TokenView>
    decreases v, 0nat,
{
    match v {
        ValueView::Object(pairs) => seq![TokenView::LBrace] + members_rest(pairs, 0),
        ValueView::Array(items) => seq![TokenView::LBracket] + elements_rest(items, 0),
        ValueView::Str(s) => seq![TokenView::String(s)],
        ValueView::Number(n) => seq![TokenView::Number(n)],
        ValueView::Boolean(b) => seq![
            if b {
                TokenView::True
            } else {
                TokenView::False
            },
        ],
        ValueView::Null => seq![TokenView::Null],
    }
}

/// The tokens that spell the elements of an array from the `k`-th on, each
/// but the very first after a comma, and the closing bracket.
pub open spec fn elements_rest(items: Seq<ValueView>, k: nat) -> Seq<TokenView>
    decreases items, items.len() - k,
{
    if k >= items.len() {
        seq![TokenView::RBracket]
    } else {
        separator(k) + value_tokens(items[k as int]) + elements_rest(items, k + 1)
    }
}

/// The tokens that spell the members of an object from the `k`-th on, each
/// but the very first after a comma, and the closing brace.
pub open spec fn members_rest(pairs: Seq<PairView>, k: nat) -> Seq<TokenView>
    decreases pairs, pairs.len() - k,
{
    if k >= pairs.len() {
        seq![TokenView::RBrace]
    } else {
        separator(k) + seq![TokenView::String(pairs[k as int].key), TokenView::Colon]
            + value_tokens(pairs[k as int].value) + members_rest(pairs, k + 1)
    }
}

/// What stands before the `k`-th of a list: nothing before the first, a
/// comma before the others.
pub open spec fn separator(k: nat) -> Seq<TokenView> {
    if k == 0 {
        Seq::empty()
    } else {
        seq![TokenView::Comma]
    }
}

/// No two of `pairs` have the same key.
pub open spec fn keys_distinct(pairs: Seq<PairView>) -> bool {
    forall|i: int, j: int|
        0 <= i < j < pairs.len() ==> (#[trigger] pairs[i]).key != (#[trigger] pairs[j]).key
}

/// No object in `v`, at any depth, has two members with the same key.
pub open spec fn well_keyed(v: ValueView) -> bool
    decreases v,
{
    match v {
        ValueView::Object(pairs) => keys_distinct(pairs) && forall|i: int|
            0 <= i < pairs.len() ==> well_keyed((#[trigger] pairs[i]).value),
        ValueView::Array(items) => forall|i: int|
            0 <= i < items.len() ==> well_keyed(#[trigger] items[i]),
        _ => true,
    }
}

/// The tokens `x` stand in `tokens` from `pos` on.
pub open spec fn spelled_at(tokens: Seq<TokenView>, pos: int, x: Seq<TokenView>) -> bool {
    &&& 0 <= pos
    &&& pos + x.len() <= tokens.len()
    &&& tokens.subrange(pos, pos + x.len()) == x
}

/// Where `a + b` stands at `pos`, `a` stands at `pos` and `b` behind it.
proof fn lemma_spelled_split(tokens: Seq<TokenView>, pos: int, a: Seq<TokenView>, b: Seq<TokenView>)
    requires
        spelled_at(tokens, pos, a + b),
    ensures
        spelled_at(tokens, pos, a),
        spelled_at(tokens, pos + a.len(), b),
{
    let whole = tokens.subrange(pos, pos + (a + b).len());
    assert(tokens.subrange(pos, pos + a.len()) =~= a) by {
        assert forall|i: int| 0 <= i < a.len() implies tokens[pos + i] == a[i] by {
            assert(whole[i] == (a + b)[i]);
        }
    }
    assert(tokens.subrange(pos + a.len(), pos + a.len() + b.len()) =~= b) by {
        assert forall|i: int| 0 <= i < b.len() implies tokens[pos + a.len() + i] == b[i] by {
            assert(whole[a.len() + i] == (a + b)[a.len() + i]);
        }
    }
}

/// The spelling of a value starts with a token that can start a value.
pub proof fn lemma_value_tokens_head(v: ValueView)
    ensures
        value_tokens(v).len() >= 1,
        !(value_tokens(v)[0] is RBracket),
        !(value_tokens(v)[0] is RBrace),
        !(value_tokens(v)[0] is Comma),
        !(value_tokens(v)[0] is Colon),
{
}

/// A value that is parsed is spelled by the tokens that were read for it,
/// and no object in it has a key twice.
pub proof fn lemma_value_sound(ts: TokenStream, pos: int)
    ensures
        value_at(ts, pos) matches Ok((v, p)) ==> {
            &&& pos < p <= ts.tokens.len()
            &&& ts.tokens.subrange(pos, p) == value_tokens(v)
            &&& well_keyed(v)
        },
    decreases ts.tokens.len() - pos, 0int,
{
    if 0 <= pos < ts.tokens.len() {
        let t = ts.tokens[pos];
        if let Ok((v, p)) = value_at(ts, pos) {
            if t is LBrace {
                lemma_members_sound(ts, pos + 1, Seq::empty());
                assert(ts.tokens.subrange(pos, p) =~= seq![t] + ts.tokens.subrange(pos + 1, p));
            } else if t is LBracket {
                lemma_elements_sound(ts, pos + 1, Seq::empty());
                assert(ts.tokens.subrange(pos, p) =~= seq![t] + ts.tokens.subrange(pos + 1, p));
            } else {
                assert(ts.tokens.subrange(pos, p) =~= seq![t]);
            }
        }
    }
}

/// An array that is parsed starts with the elements read before, and what
/// was read from `pos` on spells the others and the closing bracket.
pub proof fn lemma_elements_sound(ts: TokenStream, pos: int, acc: Seq<ValueView>)
    requires
        forall|i: int| 0 <= i < acc.len() ==> well_keyed(#[trigger] acc[i]),
    ensures
        elements_from(ts, pos, acc) matches Ok((v, p)) ==> {
            &&& pos < p <= ts.tokens.len()
            &&& v matches ValueView::Array(items)
            &&& acc.is_prefix_of(items)
            &&& ts.tokens.subrange(pos, p) == elements_rest(items, acc.len())
            &&& well_keyed(v)
        },
    decreases ts.tokens.len() - pos, 2int,
{
    if let Ok((v, p)) = elements_from(ts, pos, acc) {
        let t = ts.tokens[pos];
        if t is RBracket {
            assert(ts.tokens.subrange(pos, p) =~= seq![t]);
            assert(acc.subrange(0, acc.len() as int) =~= acc);
        } else {
            let p1 = if acc.len() > 0 {
                pos + 1
            } else {
                pos
            };
            lemma_value_sound(ts, p1);
            let (v1, p2) = value_at(ts, p1)->Ok_0;
            let next = acc.push(v1);
            assert forall|i: int| 0 <= i < next.len() implies well_keyed(#[trigger] next[i]) by {
                if i < acc.len() {
                    assert(next[i] == acc[i]);
                }
            }
            lemma_elements_sound(ts, p2, next);
            let items = v->Array_0;
            let k = acc.len();
            assert(items[k as int] == next[k as int]);
            assert(acc =~= items.subrange(0, k as int)) by {
                assert forall|i: int| 0 <= i < k implies acc[i] == items[i] by {
                    assert(next[i] == items.subrange(0, next.len() as int)[i]);
                }
            }
            assert(ts.tokens.subrange(pos, p) =~= separator(k) + ts.tokens.subrange(p1, p2)
                + ts.tokens.subrange(p2, p));
        }
    }
}

/// A member that is parsed is spelled by the tokens that were read for it.
pub proof fn lemma_pair_sound(ts: TokenStream, pos: int)
    ensures
        pair_at(ts, pos) matches Ok((pair, p)) ==> {
            &&& pos + 2 < p <= ts.tokens.len()
            &&& ts.tokens.subrange(pos, p) == seq![TokenView::String(pair.key), TokenView::Colon]
                + value_tokens(pair.value)
            &&& well_keyed(pair.value)
        },
    decreases ts.tokens.len() - pos, 1int,
{
    if let Ok((pair, p)) = pair_at(ts, pos) {
        lemma_value_sound(ts, pos + 2);
        assert(ts.tokens.subrange(pos, p) =~= seq![ts.tokens[pos], ts.tokens[pos + 1]]
            + ts.tokens.subrange(pos + 2, p));
    }
}

/// An object that is parsed starts with the members read before, what was
/// read from `pos` on spells the others and the closing brace, and no key
/// occurs twice.
pub proof fn lemma_members_sound(ts: TokenStream, pos: int, acc: Seq<PairView>)
    requires
        keys_distinct(acc),
        forall|i: int| 0 <= i < acc.len() ==> well_keyed((#[trigger] acc[i]).value),
    ensures
        members_from(ts, pos, acc) matches Ok((v, p)) ==> {
            &&& pos < p <= ts.tokens.len()
            &&& v matches ValueView::Object(pairs)
            &&& acc.is_prefix_of(pairs)
            &&& ts.tokens.subrange(pos, p) == members_rest(pairs, acc.len())
            &&& well_keyed(v)
        },
    decreases ts.tokens.len() - pos, 2int,
{
    if let Ok((v, p)) = members_from(ts, pos, acc) {
        let t = ts.tokens[pos];
        if t is RBrace {
            assert(ts.tokens.subrange(pos, p) =~= seq![t]);
            assert(acc.subrange(0, acc.len() as int) =~= acc);
        } else {
            let p1 = if acc.len() > 0 {
                pos + 1
            } else {
                pos
            };
            lemma_pair_sound(ts, p1);
            let (pair, p2) = pair_at(ts, p1)->Ok_0;
            let next = acc.push(pair);
            assert forall|i: int| 0 <= i < next.len() implies well_keyed(
                (#[trigger] next[i]).value,
            ) by {
                if i < acc.len() {
                    assert(next[i] == acc[i]);
                }
            }
            assert(keys_distinct(next)) by {
                assert forall|i: int, j: int| 0 <= i < j < next.len() implies (#[trigger] next[i]).key
                    != (#[trigger] next[j]).key by {
                    if j < acc.len() {
                        assert(next[i] == acc[i] && next[j] == acc[j]);
                    } else {
                        assert(next[i] == acc[i]);
                    }
                }
            }
            lemma_members_sound(ts, p2, next);
            let pairs = v->Object_0;
            let k = acc.len();
            assert(pairs[k as int] == next[k as int]);
            assert(acc =~= pairs.subrange(0, k as int)) by {
                assert forall|i: int| 0 <= i < k implies acc[i] == pairs[i] by {
                    assert(next[i] == pairs.subrange(0, next.len() as int)[i]);
                }
            }
            assert(ts.tokens.subrange(pos, p) =~= separator(k) + ts.tokens.subrange(p1, p2)
                + ts.tokens.subrange(p2, p));
        }
    }
}

/// The tokens that spell a value without a repeated key are parsed to that
/// value, wherever in a stream they stand.
pub proof fn lemma_value_complete(ts: TokenStream, pos: int, v: ValueView)
    requires
        well_keyed(v),
        spelled_at(ts.tokens, pos, value_tokens(v)),
    ensures
        value_at(ts, pos) == Ok::<(ValueView, int), Stop>((v, pos + value_tokens(v).len())),
    decreases v, 0nat,
{
    let x = value_tokens(v);
    assert(ts.tokens[pos] == x[0]) by {
        assert(ts.tokens.subrange(pos, pos + x.len())[0] == x[0]);
    }
    match v {
        ValueView::Object(pairs) => {
            lemma_spelled_split(ts.tokens, pos, seq![TokenView::LBrace], members_rest(pairs, 0));
            assert(pairs.take(0) =~= Seq::<PairView>::empty());
            lemma_members_complete(ts, pos + 1, pairs, 0);
        },
        ValueView::Array(items) => {
            lemma_spelled_split(
                ts.tokens,
                pos,
                seq![TokenView::LBracket],
                elements_rest(items, 0),
            );
            assert(items.take(0) =~= Seq::<ValueView>::empty());
            lemma_elements_complete(ts, pos + 1, items, 0);
        },
        _ => {},
    }
}

/// The tokens that spell the elements of an array from the `k`-th on are
/// parsed to the array, given its first `k` elements.
pub proof fn lemma_elements_complete(ts: TokenStream, pos: int, items: Seq<ValueView>, k: nat)
    requires
        k <= items.len(),
        forall|i: int| 0 <= i < items.len() ==> well_keyed(#[trigger] items[i]),
        spelled_at(ts.tokens, pos, elements_rest(items, k)),
    ensures
        elements_from(ts, pos, items.take(k as int)) == Ok::<(ValueView, int), Stop>(
            (ValueView::Array(items), pos + elements_rest(items, k).len()),
        ),
    decreases items, items.len() - k,
{
    let x = elements_rest(items, k);
    let acc = items.take(k as int);
    assert(ts.tokens[pos] == x[0]) by {
        assert(ts.tokens.subrange(pos, pos + x.len())[0] == x[0]);
    }
    if k >= items.len() {
        assert(acc =~= items);
    } else {
        let item = items[k as int];
        lemma_value_tokens_head(item);
        let rest = elements_rest(items, k + 1);
        assert(x =~= separator(k) + (value_tokens(item) + rest));
        lemma_spelled_split(ts.tokens, pos, separator(k), value_tokens(item) + rest);
        let p1 = pos + separator(k).len();
        lemma_spelled_split(ts.tokens, p1, value_tokens(item), rest);
        assert(x[0] == if k == 0 {
            value_tokens(item)[0]
        } else {
            TokenView::Comma
        });
        lemma_value_complete(ts, p1, item);
        let p2 = p1 + value_tokens(item).len();
        assert(acc.push(item) =~= items.take(k as int + 1));
        lemma_elements_complete(ts, p2, items, k + 1);
    }
}

/// The tokens that spell the members of an object from the `k`-th on are
/// parsed to the object, given its first `k` members.
pub proof fn lemma_members_complete(ts: TokenStream, pos: int, pairs: Seq<PairView>, k: nat)
    requires
        k <= pairs.len(),
        keys_distinct(pairs),
        forall|i: int| 0 <= i < pairs.len() ==> well_keyed((#[trigger] pairs[i]).value),
        spelled_at(ts.tokens, pos, members_rest(pairs, k)),
    ensures
        members_from(ts, pos, pairs.take(k as int)) == Ok::<(ValueView, int), Stop>(
            (ValueView::Object(pairs), pos + members_rest(pairs, k).len()),
        ),
    decreases pairs, pairs.len() - k,
{
    let x = members_rest(pairs, k);
    let acc = pairs.take(k as int);
    assert(ts.tokens[pos] == x[0]) by {
        assert(ts.tokens.subrange(pos, pos + x.len())[0] == x[0]);
    }
    if k >= pairs.len() {
        assert(acc =~= pairs);
    } else {
        let pair = pairs[k as int];
        let head = seq![TokenView::String(pair.key), TokenView::Colon];
        let rest = members_rest(pairs, k + 1);
        assert(x =~= separator(k) + (head + (value_tokens(pair.value) + rest)));
        lemma_spelled_split(
            ts.tokens,
            pos,
            separator(k),
            head + (value_tokens(pair.value) + rest),
        );
        let p1 = pos + separator(k).len();
        lemma_spelled_split(ts.tokens, p1, head, value_tokens(pair.value) + rest);
        lemma_spelled_split(ts.tokens, p1 + 2, value_tokens(pair.value), rest);
        assert(x[0] == if k == 0 {
            head[0]
        } else {
            TokenView::Comma
        });
        assert(ts.tokens[p1] == head[0] && ts.tokens[p1 + 1] == head[1]) by {
            assert(ts.tokens.subrange(p1, p1 + 2)[0] == head[0]);
            assert(ts.tokens.subrange(p1, p1 + 2)[1] == head[1]);
        }
        lemma_value_complete(ts, p1 + 2, pair.value);
        let p2 = p1 + 2 + value_tokens(pair.value).len();
        assert(pair_at(ts, p1) == Ok::<(PairView, int), Stop>((pair, p2)));
        assert(!has_key(acc, pair.key)) by {
            if has_key(acc, pair.key) {
                let i = choose|i: int| 0 <= i < acc.len() && (#[trigger] acc[i]).key == pair.key;
                assert(acc[i] == pairs[i]);
                assert(pairs[i].key != pairs[k as int].key);
            }
        }
        assert(acc.push(pair) =~= pairs.take(k as int + 1));
        lemma_members_complete(ts, p2, pairs, k + 1);
    }
}

/// A stream of tokens is parsed to the document `v` exactly when no fault
/// ends it, its tokens are those that spell `v`, and no object in `v` has
/// two members with the same key.
pub proof fn lemma_document_is_spelled(ts: TokenStream, v: ValueView)
    ensures
        document(ts) == Ok::<ValueView, Failure>(v) <==> {
            &&& ts.fault is None
            &&& ts.tokens == value_tokens(v)
            &&& well_keyed(v)
        },
{
    lemma_value_sound(ts, 0);
    if document(ts) == Ok::<ValueView, Failure>(v) {
        let p = value_at(ts, 0)->Ok_0.1;
        assert(ts.tokens.subrange(0, p) =~= ts.tokens);
    }
    if ts.fault is None && ts.tokens == value_tokens(v) && well_keyed(v) {
        assert(ts.tokens.subrange(0, ts.tokens.len() as int) =~= ts.tokens);
        lemma_value_complete(ts, 0, v);
    }
}

} // verus!
