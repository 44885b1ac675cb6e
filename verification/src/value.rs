//! The document model: a tagged union over strings, numbers, booleans,
//! null, insertion-ordered objects and arrays, together with its
//! mathematical model [`Json`].

use vstd::prelude::*;

use crate::number::JsonNumber;
use crate::number::NumModel;
use crate::number::num_wf;

verus! {

broadcast use vstd::std_specs::vec::group_vec_axioms;

/// Mathematical model of a document value.  Strings are character
/// sequences, objects are ordered key/value entry sequences.
pub enum Json {
    Str(Seq<char>),
    Num(NumModel),
    Bool(bool),
    Null,
    Arr(Seq<Json>),
    Obj(Seq<(Seq<char>, Json)>),
}

/// A JSON value: exactly one variant is active.
#[derive(Debug)]
pub enum JsonValue {
    String(String),
    Number(JsonNumber),
    Null,
    Boolean(bool),
    Object(JsonObject),
    Array(JsonArray),
}

/// An insertion-ordered mapping from unique string keys to values.
#[derive(Debug)]
pub struct JsonObject {
    pub(crate) entries: Vec<(String, JsonValue)>,
}

/// An ordered, index-addressable sequence of values.
#[derive(Debug)]
pub struct JsonArray {
    pub(crate) vec: Vec<JsonValue>,
}

pub(crate) open spec fn value_model(v: &JsonValue) -> Json
    decreases v,
{
    match v {
        JsonValue::String(s) => Json::Str(s@),
        JsonValue::Number(n) => Json::Num(n@),
        JsonValue::Null => Json::Null,
        JsonValue::Boolean(b) => Json::Bool(*b),
        JsonValue::Object(o) => Json::Obj(object_model(o)),
        JsonValue::Array(a) => Json::Arr(array_model(a)),
    }
}

pub(crate) open spec fn entries_model(s: Seq<(String, JsonValue)>) -> Seq<
    (Seq<char>, Json),
>
    decreases s,
{
    if s.len() == 0 {
        Seq::empty()
    } else {
        entries_model(s.drop_last()).push((s.last().0@, value_model(&s.last().1)))
    }
}

pub(crate) open spec fn object_model(o: &JsonObject) -> Seq<(Seq<char>, Json)>
    decreases o,
{
    entries_model(o.entries@)
}

pub(crate) open spec fn elems_model(s: Seq<JsonValue>) -> Seq<Json>
    decreases s,
{
    if s.len() == 0 {
        Seq::empty()
    } else {
        elems_model(s.drop_last()).push(value_model(&s.last()))
    }
}

pub(crate) open spec fn array_model(a: &JsonArray) -> Seq<Json>
    decreases a,
{
    elems_model(a.vec@)
}

/// `entries_model` maps the entry list pointwise.
pub(crate) broadcast proof fn lemma_entries_model(s: Seq<(String, JsonValue)>)
    ensures
        (#[trigger] entries_model(s)).len() == s.len(),
        forall|i: int|
            0 <= i < s.len() ==> entries_model(s)[i] == (s[i].0@, value_model(&s[i].1)),
    decreases s,
{
    if s.len() > 0 {
        lemma_entries_model(s.drop_last());
    }
}

/// Updating one entry updates the model pointwise.
pub(crate) broadcast proof fn lemma_entries_model_update(
    s: Seq<(String, JsonValue)>,
    i: int,
    e: (String, JsonValue),
)
    requires
        0 <= i < s.len(),
    ensures
        #[trigger] entries_model(s.update(i, e)) == entries_model(s).update(
            i,
            (e.0@, value_model(&e.1)),
        ),
{
    lemma_entries_model(s);
    lemma_entries_model(s.update(i, e));
    assert(entries_model(s.update(i, e)) =~= entries_model(s).update(
        i,
        (e.0@, value_model(&e.1)),
    ));
}

/// Appending an entry appends its model.
pub(crate) broadcast proof fn lemma_entries_model_push(
    s: Seq<(String, JsonValue)>,
    e: (String, JsonValue),
)
    ensures
        #[trigger] entries_model(s.push(e)) == entries_model(s).push((e.0@, value_model(&e.1))),
{
    lemma_entries_model(s);
    lemma_entries_model(s.push(e));
    assert(entries_model(s.push(e)) =~= entries_model(s).push((e.0@, value_model(&e.1))));
}

/// Dropping the last entry drops the last model entry.
pub(crate) broadcast proof fn lemma_entries_model_drop_last(s: Seq<(String, JsonValue)>)
    requires
        s.len() > 0,
    ensures
        #[trigger] entries_model(s.drop_last()) == entries_model(s).drop_last(),
{
    lemma_entries_model(s);
    lemma_entries_model(s.drop_last());
    assert(entries_model(s.drop_last()) =~= entries_model(s).drop_last());
}

/// Updating one element updates the model pointwise.
pub(crate) broadcast proof fn lemma_elems_model_update(s: Seq<JsonValue>, i: int, e: JsonValue)
    requires
        0 <= i < s.len(),
    ensures
        #[trigger] elems_model(s.update(i, e)) == elems_model(s).update(i, value_model(&e)),
{
    lemma_elems_model(s);
    lemma_elems_model(s.update(i, e));
    assert(elems_model(s.update(i, e)) =~= elems_model(s).update(i, value_model(&e)));
}

/// Appending an element appends its model.
pub(crate) broadcast proof fn lemma_elems_model_push(s: Seq<JsonValue>, e: JsonValue)
    ensures
        #[trigger] elems_model(s.push(e)) == elems_model(s).push(value_model(&e)),
{
    lemma_elems_model(s);
    lemma_elems_model(s.push(e));
    assert(elems_model(s.push(e)) =~= elems_model(s).push(value_model(&e)));
}


/// Removing one element removes the corresponding model element.
pub(crate) broadcast proof fn lemma_elems_model_remove(s: Seq<JsonValue>, i: int)
    requires
        0 <= i < s.len(),
    ensures
        #[trigger] elems_model(s.remove(i)) == elems_model(s).remove(i),
{
    lemma_elems_model(s);
    lemma_elems_model(s.remove(i));
    assert(elems_model(s.remove(i)) =~= elems_model(s).remove(i));
}

/// Inserting one element inserts its model.
pub(crate) broadcast proof fn lemma_elems_model_insert(s: Seq<JsonValue>, i: int, e: JsonValue)
    requires
        0 <= i <= s.len(),
    ensures
        #[trigger] elems_model(s.insert(i, e)) == elems_model(s).insert(i, value_model(&e)),
{
    lemma_elems_model(s);
    lemma_elems_model(s.insert(i, e));
    assert(elems_model(s.insert(i, e)) =~= elems_model(s).insert(i, value_model(&e)));
}

/// `elems_model` maps the element list pointwise.
pub(crate) broadcast proof fn lemma_elems_model(s: Seq<JsonValue>)
    ensures
        (#[trigger] elems_model(s)).len() == s.len(),
        forall|i: int| 0 <= i < s.len() ==> elems_model(s)[i] == value_model(&s[i]),
    decreases s,
{
    if s.len() > 0 {
        lemma_elems_model(s.drop_last());
    }
}

impl View for JsonValue {
    type V = Json;

    open(crate) spec fn view(&self) -> Json {
        value_model(self)
    }
}

impl View for JsonObject {
    type V = Seq<(Seq<char>, Json)>;

    open(crate) spec fn view(&self) -> Seq<(Seq<char>, Json)> {
        object_model(self)
    }
}

impl View for JsonArray {
    type V = Seq<Json>;

    open(crate) spec fn view(&self) -> Seq<Json> {
        array_model(self)
    }
}

/// The keys of an entry sequence are pairwise distinct.
pub open spec fn keys_unique(ms: Seq<(Seq<char>, Json)>) -> bool {
    forall|i: int, j: int| 0 <= i < j < ms.len() ==> ms[i].0 != ms[j].0
}

/// Structural well-formedness: numbers are canonical and object keys are
/// unique, recursively.
pub open spec fn wf_json(j: Json) -> bool
    decreases j,
{
    match j {
        Json::Str(_) => true,
        Json::Num(n) => num_wf(n),
        Json::Bool(_) => true,
        Json::Null => true,
        Json::Arr(s) => wf_elems(s),
        Json::Obj(ms) => keys_unique(ms) && wf_entry_vals(ms),
    }
}

/// Every element of the sequence is well-formed.
pub open spec fn wf_elems(s: Seq<Json>) -> bool
    decreases s,
{
    forall|i: int| 0 <= i < s.len() ==> wf_json(#[trigger] s[i])
}

/// Every value stored in the entry sequence is well-formed.
pub open spec fn wf_entry_vals(ms: Seq<(Seq<char>, Json)>) -> bool
    decreases ms,
{
    forall|i: int| 0 <= i < ms.len() ==> wf_json(#[trigger] ms[i].1)
}

/// In a well-formed array model every element is well-formed.
pub proof fn lemma_wf_elem_at(s: Seq<Json>, i: int)
    requires
        wf_json(Json::Arr(s)),
        0 <= i < s.len(),
    ensures
        wf_json(s[i]),
{
}

/// In a well-formed object model every stored value is well-formed.
pub proof fn lemma_wf_entry_at(ms: Seq<(Seq<char>, Json)>, i: int)
    requires
        wf_json(Json::Obj(ms)),
        0 <= i < ms.len(),
    ensures
        wf_json(ms[i].1),
{
}

impl JsonValue {
    pub open spec fn wf(&self) -> bool {
        wf_json(self@)
    }
}

impl JsonObject {
    pub open spec fn wf(&self) -> bool {
        wf_json(Json::Obj(self@))
    }
}

impl JsonArray {
    pub open spec fn wf(&self) -> bool {
        wf_json(Json::Arr(self@))
    }
}

} // verus!
