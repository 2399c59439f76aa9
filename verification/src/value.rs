//! Protocol values and their mathematical model.

use vstd::prelude::*;

verus! {

/// One unit of the protocol, as the server holds it in memory.
#[derive(Debug, PartialEq, Eq)]
pub enum Value {
    /// A short status line.
    SimpleString(String),
    /// An error message; on the wire it differs from a status line by its tag only.
    Error(String),
    /// A string sent with its length in front.
    BulkString(String),
    /// The absence of a value.
    NullValue,
    /// A sequence of values; clients frame their commands as one.
    Array(Vec<Value>),
}

/// The model of a [`Value`]: the same tree, over sequences of characters.
pub enum Model {
    SimpleString(Seq<char>),
    Error(Seq<char>),
    BulkString(Seq<char>),
    NullValue,
    Array(Seq<Model>),
}

/// The models of the values in `items`, in order.
pub open spec fn models(items: Seq<Value>) -> Seq<Model>
    decreases items,
{
    Seq::new(
        items.len(),
        |i: int|
            if 0 <= i < items.len() {
                items[i]@
            } else {
                Model::NullValue
            },
    )
}

impl View for Value {
    type V = Model;

    open spec fn view(&self) -> Model
        decreases self,
    {
        match self {
            Value::SimpleString(text) => Model::SimpleString(text@),
            Value::Error(text) => Model::Error(text@),
            Value::BulkString(text) => Model::BulkString(text@),
            Value::NullValue => Model::NullValue,
            Value::Array(items) => Model::Array(models(items@)),
        }
    }
}

impl Clone for Value {
    /// A copy of the value: the same tree with the same texts.
    fn clone(&self) -> (copy: Value)
        ensures
            copy@ == self@,
        decreases self,
    {
        match self {
            Value::SimpleString(text) => Value::SimpleString(text.clone()),
            Value::Error(text) => Value::Error(text.clone()),
            Value::BulkString(text) => Value::BulkString(text.clone()),
            Value::NullValue => Value::NullValue,
            Value::Array(items) => {
                let mut copies: Vec<Value> = Vec::new();
                let mut i: usize = 0;
                while i < items.len()
                    invariant
                        0 <= i <= items@.len(),
                        *self == Value::Array(*items),
                        copies@.len() == i,
                        forall|j: int| 0 <= j < i ==> (#[trigger] copies@[j])@ == items@[j]@,
                    decreases items@.len() - i,
                {
                    proof {
                        assert(decreases_to!(*self => self->Array_0));
                    }
                    let copy = items[i].clone();
                    copies.push(copy);
                    i = i + 1;
                }
                assert(Value::Array(copies)@->Array_0 =~= self@->Array_0);
                Value::Array(copies)
            },
        }
    }
}

} // verus!
