//! The value tree that a parse returns.

use vstd::prelude::*;

verus! {

/// A parsed document: exactly one value.
#[derive(Debug, PartialEq)]
pub struct Json {
    pub value: Value,
}

/// One member of an object.
#[derive(Debug, PartialEq)]
pub struct Pair {
    pub key: String,
    pub value: Value,
}

/// A JSON value. Strings and numbers hold their source text.
#[derive(Debug, PartialEq)]
pub enum Value {
    /// The members in source order; no key occurs twice.
    Object(Vec<Pair>),
    Array(Vec<Value>),
    Str(String),
    Number(String),
    Boolean(BooleanVal),
    Null,
}

#[derive(Debug, PartialEq, Eq, Clone, Copy)]
pub enum BooleanVal {
    True,
    False,
}

/// A member of an object as a mathematical value.
pub struct PairView {
    pub key: Seq<char>,
    pub value: ValueView,
}

/// A value as a mathematical tree over sequences of characters.
pub enum ValueView {
    Object(Seq<PairView>),
    Array(Seq<ValueView>),
    Str(Seq<char>),
    Number(Seq<char>),
    Boolean(bool),
    Null,
}

impl View for BooleanVal {
    type V = bool;

    open spec fn view(&self) -> bool {
        *self is True
    }
}

impl BooleanVal {
    /// The keyword that spells this value.
    pub fn as_str(&self) -> (r: &'static str)
        ensures
            r@ == (if self@ {
                "true"@
            } else {
                "false"@
            }),
    {
        match self {
            BooleanVal::True => "true",
            BooleanVal::False => "false",
        }
    }
}

impl View for Value {
    type V = ValueView;

    open spec fn view(&self) -> ValueView
        decreases self,
    {
        match self {
            Value::Object(pairs) => ValueView::Object(
                Seq::new(
                    pairs@.len(),
                    |i: int|
                        if 0 <= i < pairs@.len() {
                            PairView { key: pairs@[i].key@, value: pairs@[i].value.view() }
                        } else {
                            PairView { key: Seq::empty(), value: ValueView::Null }
                        },
                ),
            ),
            Value::Array(items) => ValueView::Array(
                Seq::new(
                    items@.len(),
                    |i: int|
                        if 0 <= i < items@.len() {
                            items@[i].view()
                        } else {
                            ValueView::Null
                        },
                ),
            ),
            Value::Str(s) => ValueView::Str(s@),
            Value::Number(n) => ValueView::Number(n@),
            Value::Boolean(b) => ValueView::Boolean(b@),
            Value::Null => ValueView::Null,
        }
    }
}

impl View for Pair {
    type V = PairView;

    open spec fn view(&self) -> PairView {
        PairView { key: self.key@, value: self.value@ }
    }
}

impl View for Json {
    type V = ValueView;

    open spec fn view(&self) -> ValueView {
        self.value@
    }
}

/// The views of the members of an object, in order.
pub open spec fn pairs_view(pairs: Seq<Pair>) -> Seq<PairView> {
    Seq::new(pairs.len(), |i: int| pairs[i]@)
}

/// The views of the elements of an array, in order.
pub open spec fn values_view(items: Seq<Value>) -> Seq<ValueView> {
    Seq::new(items.len(), |i: int| items[i]@)
}

/// An object's view holds the views of its members.
pub proof fn lemma_object_view(pairs: Vec<Pair>)
    ensures
        Value::Object(pairs)@ == ValueView::Object(pairs_view(pairs@)),
{
    assert(Value::Object(pairs)@->Object_0 =~= pairs_view(pairs@));
}

/// An array's view holds the views of its elements.
pub proof fn lemma_array_view(items: Vec<Value>)
    ensures
        Value::Array(items)@ == ValueView::Array(values_view(items@)),
{
    assert(Value::Array(items)@->Array_0 =~= values_view(items@));
}

} // verus!
