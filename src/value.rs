//! The parsed value tree and its mathematical model.
use vstd::prelude::*;

verus! {

/// One parsed value. Strings are kept raw (no escape decoding); a floating-point
/// literal is kept as its exact source text, so no precision is lost or invented.
/// Object members keep the order in which their keys first appeared, and keys are
/// unique: a repeated key replaces the earlier value (last write wins).
#[derive(Debug, PartialEq)]
pub enum Value {
    Null,
    Boolean(bool),
    Integer(i64),
    Number(String),
    String(String),
    Array(Vec<Value>),
    Object(Vec<(String, Value)>),
}

/// The mathematical model of a [`Value`].
pub enum Json {
    Null,
    Boolean(bool),
    Integer(int),
    Number(Seq<char>),
    Str(Seq<char>),
    Array(Seq<Json>),
    Object(Seq<(Seq<char>, Json)>),
}

impl Value {
    pub open spec fn view(&self) -> Json
        decreases self,
    {
        match self {
            Value::Null => Json::Null,
            Value::Boolean(b) => Json::Boolean(*b),
            Value::Integer(i) => Json::Integer(*i as int),
            Value::Number(t) => Json::Number(t@),
            Value::String(t) => Json::Str(t@),
            Value::Array(items) => Json::Array(
                Seq::new(items@.len(), |i: int|
                    if 0 <= i < items.len() { items[i].view() } else { Json::Null },
),
            ),
            Value::Object(members) => Json::Object(
                Seq::new(members@.len(), |i: int|
                    if 0 <= i < members.len() { (members[i].0@, members[i].1.view()) } else { (Seq::empty(), Json::Null) },
),
            ),
        }
    }
}

/// No key appears twice among the members.
pub open spec fn keys_unique(m: Seq<(Seq<char>, Json)>) -> bool {
    forall|i: int, k: int| 0 <= i < k < m.len() ==> #[trigger] m[i].0 != #[trigger] m[k].0
}

/// Every object in the tree, at every depth, has unique keys.
pub open spec fn well_keyed(j: Json) -> bool
    decreases j,
{
    match j {
        Json::Array(items) => forall|i: int| 0 <= i < items.len() ==> well_keyed(#[trigger] items[i]),
        Json::Object(m) => keys_unique(m) && forall|i: int| 0 <= i < m.len() ==> well_keyed(#[trigger] m[i].1),
        _ => true,
    }
}

pub open spec fn item_views(items: Seq<Value>) -> Seq<Json> {
    Seq::new(items.len(), |i: int| items[i]@)
}

pub open spec fn member_views(members: Seq<(String, Value)>) -> Seq<(Seq<char>, Json)> {
    Seq::new(members.len(), |i: int| (members[i].0@, members[i].1@))
}

pub proof fn lemma_array_view(items: Vec<Value>)
    ensures
        Value::Array(items)@ == Json::Array(item_views(items@)),
{
    assert(Value::Array(items)@->Array_0 =~= item_views(items@));
}

pub proof fn lemma_object_view(members: Vec<(String, Value)>)
    ensures
        Value::Object(members)@ == Json::Object(member_views(members@)),
{
    assert(Value::Object(members)@->Object_0 =~= member_views(members@));
}

} // verus!
