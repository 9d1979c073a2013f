use vstd::prelude::*;

verus! {

broadcast use vstd::std_specs::vec::axiom_vec_index_decreases;

/// A JSON value. A number keeps the decimal literal it was read from; its
/// floating-point reading is left to the caller.
#[derive(Debug, PartialEq)]
pub enum Value {
    Null,
    Boolean(bool),
    Number(String),
    String(String),
    Array(Vec<Value>),
    Object(Vec<(String, Value)>),
}

/// The mathematical model of a JSON value.
pub enum Json {
    Null,
    Boolean(bool),
    Number(Seq<char>),
    Str(Seq<char>),
    Array(Seq<Json>),
    /// The keys, and the values in the same order.
    Object(Seq<Seq<char>>, Seq<Json>),
}

impl View for Value {
    type V = Json;

    open spec fn view(&self) -> Json
        decreases self,
    {
        match self {
            Value::Null => Json::Null,
            Value::Boolean(b) => Json::Boolean(*b),
            Value::Number(n) => Json::Number(n@),
            Value::String(t) => Json::Str(t@),
            Value::Array(items) => Json::Array(
                Seq::new(items.len() as nat, |i: int| if 0 <= i < items.len() { items[i].view() } else { Json::Null }),
            ),
            Value::Object(pairs) => Json::Object(
                Seq::new(pairs.len() as nat, |i: int| pairs[i].0@),
                Seq::new(
                    pairs.len() as nat,
                    |i: int|
                        if 0 <= i < pairs.len() {
                            pairs[i].1.view()
                        } else {
                            Json::Null
                        },
                ),
            ),
        }
    }
}

} // verus!
