use vstd::prelude::*;

verus! {

/// The mathematical model of a JSON value.
pub enum Json {
    Str(Seq<char>),
    Num(Seq<char>),
    Bool(bool),
    Null,
    Object(Seq<(Seq<char>, Json)>),
    Array(Seq<Json>),
}

/// A parsed JSON value. Numbers keep their decimal text; an object keeps its
/// entries in order of first insertion, each key once.
#[derive(Debug, PartialEq, Eq)]
pub enum JValue {
    JString(String),
    JNumber(String),
    JBool(bool),
    JNull,
    JObject(Vec<(String, JValue)>),
    JArray(Vec<JValue>),
}

impl View for JValue {
    type V = Json;

    open spec fn view(&self) -> Json {
        model(*self)
    }
}

/// The model of a value.
pub open spec fn model(v: JValue) -> Json
    decreases v,
{
    match v {
        JValue::JString(s) => Json::Str(s@),
        JValue::JNumber(s) => Json::Num(s@),
        JValue::JBool(b) => Json::Bool(b),
        JValue::JNull => Json::Null,
        JValue::JObject(es) => Json::Object(entries_view(es@)),
        JValue::JArray(vs) => Json::Array(values_view(vs@)),
    }
}

/// No two entries share a key.
pub open spec fn keys_distinct(es: Seq<(Seq<char>, Json)>) -> bool {
    forall|i: int, j: int| 0 <= i < j < es.len() ==> #[trigger] es[i].0 != #[trigger] es[j].0
}

/// A value whose objects, at every depth, hold each key once.
pub open spec fn well_formed(v: Json) -> bool
    decreases v,
{
    match v {
        Json::Object(es) => keys_distinct(es) && forall|i: int|
            0 <= i < es.len() ==> well_formed(#[trigger] es[i].1),
        Json::Array(xs) => forall|i: int| 0 <= i < xs.len() ==> well_formed(#[trigger] xs[i]),
        _ => true,
    }
}

/// The model of a sequence of object entries.
pub open spec fn entries_view(es: Seq<(String, JValue)>) -> Seq<(Seq<char>, Json)>
    decreases es,
{
    if es.len() == 0 {
        Seq::empty()
    } else {
        entries_view(es.drop_last()).push((es.last().0@, model(es.last().1)))
    }
}

/// The model of a sequence of values.
pub open spec fn values_view(vs: Seq<JValue>) -> Seq<Json>
    decreases vs,
{
    if vs.len() == 0 {
        Seq::empty()
    } else {
        values_view(vs.drop_last()).push(model(vs.last()))
    }
}

pub proof fn lemma_entries_view_index(es: Seq<(String, JValue)>)
    ensures
        entries_view(es).len() == es.len(),
        forall|i: int| 0 <= i < es.len() ==> #[trigger] entries_view(es)[i] == (es[i].0@, es[i].1@),
    decreases es.len(),
{
    if es.len() > 0 {
        lemma_entries_view_index(es.drop_last());
    }
}

} // verus!
