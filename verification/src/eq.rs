//! Structural equality and deep cloning for the document model.
//!
//! Two values compare recursively over the active variant: numbers by
//! their canonical decimal form, arrays element by element in order, and
//! objects by key lookup — two objects are equal when they hold the same
//! number of entries and every key of one maps to an equal value in the
//! other, whatever the insertion order.  Cloning is deep, so mutating a
//! clone never affects the original.

use vstd::prelude::*;

use crate::number::JsonNumber;
use crate::value::Json;
use crate::value::JsonArray;
use crate::value::JsonObject;
use crate::value::JsonValue;
use crate::value::lemma_elems_model;
use crate::value::lemma_entries_model;

verus! {

broadcast use vstd::std_specs::vec::group_vec_axioms;

/// Structural equality of two value models: scalars by value, arrays
/// pointwise in order, objects by key lookup regardless of entry order.
pub open spec fn json_equiv(a: Json, b: Json) -> bool
    decreases a,
{
    match (a, b) {
        (Json::Str(x), Json::Str(y)) => x == y,
        (Json::Num(x), Json::Num(y)) => x == y,
        (Json::Bool(x), Json::Bool(y)) => x == y,
        (Json::Null, Json::Null) => true,
        (Json::Arr(x), Json::Arr(y)) => arr_equiv(x, y),
        (Json::Obj(x), Json::Obj(y)) => objs_equiv(x, y),
        _ => false,
    }
}

/// Arrays are equal when they have the same length and equal elements at
/// each index.
pub open spec fn arr_equiv(x: Seq<Json>, y: Seq<Json>) -> bool
    decreases x,
{
    x.len() == y.len() && (forall|i: int| 0 <= i < x.len() ==> json_equiv(#[trigger] x[i], y[i]))
}

/// Objects are equal when they have the same number of entries and every
/// entry of one finds an equal value under its key in the other; the
/// order of the entries does not matter.
pub open spec fn objs_equiv(x: Seq<(Seq<char>, Json)>, y: Seq<(Seq<char>, Json)>) -> bool
    decreases x,
{
    x.len() == y.len() && (forall|i: int| 0 <= i < x.len() ==> entry_matches(#[trigger] x[i], y))
}

/// The entry's key is present in `y` with a value equal to the entry's.
pub open spec fn entry_matches(m: (Seq<char>, Json), y: Seq<(Seq<char>, Json)>) -> bool
    decreases m,
{
    crate::object::has_key(y, m.0) && json_equiv(m.1, crate::object::obj_get(y, m.0)->0)
}

fn digits_eq(a: &Vec<u8>, b: &Vec<u8>) -> (r: bool)
    ensures
        r == (a@ == b@),
{
    if a.len() != b.len() {
        proof {
            assert(a@ != b@);
        }
        return false;
    }
    let n = a.len();
    let mut i: usize = 0;
    while i < n
        invariant
            0 <= i <= n,
            n == a@.len() && n == b@.len(),
            forall|j: int| 0 <= j < i ==> a@[j] == b@[j],
        decreases n - i,
    {
        if a[i] != b[i] {
            return false;
        }
        i = i + 1;
    }
    proof {
        assert(a@ =~= b@);
    }
    true
}

pub(crate) fn num_eq(a: &JsonNumber, b: &JsonNumber) -> (r: bool)
    ensures
        r == (a@ == b@),
{
    a.neg == b.neg && a.exp == b.exp && digits_eq(&a.digits, &b.digits)
}

/// Deep structural equality of two values; object entries compare by
/// key lookup, not by position.
pub(crate) fn value_eq(a: &JsonValue, b: &JsonValue) -> (r: bool)
    ensures
        r == json_equiv(a@, b@),
    decreases a,
{
    match (a, b) {
        (JsonValue::String(x), JsonValue::String(y)) => x.eq(y),
        (JsonValue::Number(x), JsonValue::Number(y)) => num_eq(x, y),
        (JsonValue::Null, JsonValue::Null) => true,
        (JsonValue::Boolean(x), JsonValue::Boolean(y)) => x == y,
        (JsonValue::Object(x), JsonValue::Object(y)) => object_eq(x, y),
        (JsonValue::Array(x), JsonValue::Array(y)) => array_eq(x, y),
        _ => false,
    }
}

pub(crate) fn object_eq(a: &JsonObject, b: &JsonObject) -> (r: bool)
    ensures
        r == objs_equiv(a@, b@),
    decreases a,
{
    proof {
        lemma_entries_model(a.entries@);
        lemma_entries_model(b.entries@);
    }
    if a.entries.len() != b.entries.len() {
        return false;
    }
    let n = a.entries.len();
    let mut i: usize = 0;
    while i < n
        invariant
            0 <= i <= n,
            n == a.entries@.len() && n == b.entries@.len(),
            a@.len() == n && b@.len() == n,
            forall|j: int| 0 <= j < i ==> entry_matches(#[trigger] a@[j], b@),
            a@ == crate::value::object_model(a),
            b@ == crate::value::object_model(b),
        decreases n - i,
    {
        proof {
            lemma_entries_model(a.entries@);
            lemma_entries_model(b.entries@);
        }
        match b.find_index(a.entries[i].0.as_str()) {
            None => {
                proof {
                    assert(!crate::object::has_key(b@, a@[i as int].0));
                    assert(!entry_matches(a@[i as int], b@));
                }
                return false;
            },
            Some(jb) => {
                if !value_eq(&a.entries[i].1, &b.entries[jb].1) {
                    proof {
                        assert(crate::object::obj_get(b@, a@[i as int].0) == Some(
                            b@[jb as int].1,
                        ));
                        assert(!entry_matches(a@[i as int], b@));
                    }
                    return false;
                }
                proof {
                    assert(crate::object::obj_get(b@, a@[i as int].0) == Some(b@[jb as int].1));
                    assert(entry_matches(a@[i as int], b@));
                }
            },
        }
        i = i + 1;
    }
    true
}

pub(crate) fn array_eq(a: &JsonArray, b: &JsonArray) -> (r: bool)
    ensures
        r == arr_equiv(a@, b@),
    decreases a,
{
    proof {
        lemma_elems_model(a.vec@);
        lemma_elems_model(b.vec@);
    }
    if a.vec.len() != b.vec.len() {
        return false;
    }
    let n = a.vec.len();
    let mut i: usize = 0;
    while i < n
        invariant
            0 <= i <= n,
            n == a.vec@.len() && n == b.vec@.len(),
            a@.len() == n && b@.len() == n,
            forall|j: int| 0 <= j < i ==> json_equiv(#[trigger] a@[j], b@[j]),
            a@ == crate::value::array_model(a),
            b@ == crate::value::array_model(b),
        decreases n - i,
    {
        proof {
            lemma_elems_model(a.vec@);
            lemma_elems_model(b.vec@);
        }
        if !value_eq(&a.vec[i], &b.vec[i]) {
            proof {
                assert(!json_equiv(a@[i as int], b@[i as int]));
            }
            return false;
        }
        i = i + 1;
    }
    true
}

impl PartialEq for JsonValue {
    fn eq(&self, other: &Self) -> (r: bool) {
        value_eq(self, other)
    }
}

impl vstd::std_specs::cmp::PartialEqSpecImpl for JsonValue {
    open spec fn obeys_eq_spec() -> bool {
        true
    }

    open spec fn eq_spec(&self, other: &Self) -> bool {
        json_equiv(self@, other@)
    }
}

impl PartialEq for JsonObject {
    fn eq(&self, other: &Self) -> (r: bool) {
        object_eq(self, other)
    }
}

impl vstd::std_specs::cmp::PartialEqSpecImpl for JsonObject {
    open spec fn obeys_eq_spec() -> bool {
        true
    }

    open spec fn eq_spec(&self, other: &Self) -> bool {
        objs_equiv(self@, other@)
    }
}

impl PartialEq for JsonArray {
    fn eq(&self, other: &Self) -> (r: bool) {
        array_eq(self, other)
    }
}

impl vstd::std_specs::cmp::PartialEqSpecImpl for JsonArray {
    open spec fn obeys_eq_spec() -> bool {
        true
    }

    open spec fn eq_spec(&self, other: &Self) -> bool {
        arr_equiv(self@, other@)
    }
}

impl PartialEq for JsonNumber {
    fn eq(&self, other: &Self) -> (r: bool) {
        num_eq(self, other)
    }
}

impl vstd::std_specs::cmp::PartialEqSpecImpl for JsonNumber {
    open spec fn obeys_eq_spec() -> bool {
        true
    }

    open spec fn eq_spec(&self, other: &Self) -> bool {
        self@ == other@
    }
}

impl Clone for JsonNumber {
    /// A deep copy with the same canonical form.
    fn clone(&self) -> (r: Self)
        ensures
            r@ == self@,
    {
        JsonNumber { neg: self.neg, digits: clone_digits(&self.digits), exp: self.exp }
    }
}

fn clone_digits(v: &Vec<u8>) -> (r: Vec<u8>)
    ensures
        r@ == v@,
{
    let mut r: Vec<u8> = Vec::new();
    let n = v.len();
    let mut i: usize = 0;
    while i < n
        invariant
            0 <= i <= n,
            n == v@.len(),
            r@ == v@.take(i as int),
        decreases n - i,
    {
        r.push(v[i]);
        proof {
            assert(r@ =~= v@.take(i + 1));
        }
        i = i + 1;
    }
    proof {
        assert(v@.take(n as int) =~= v@);
    }
    r
}

impl Clone for JsonValue {
    /// A deep copy: the clone's model equals the original's.
    fn clone(&self) -> (r: Self)
        ensures
            r@ == self@,
    {
        clone_value(self)
    }
}

pub(crate) fn clone_value(v: &JsonValue) -> (r: JsonValue)
    ensures
        r@ == v@,
    decreases v,
{
    match v {
        JsonValue::String(s) => JsonValue::String(clone_string(s)),
        JsonValue::Number(n) => JsonValue::Number(
            JsonNumber { neg: n.neg, digits: clone_digits(&n.digits), exp: n.exp },
        ),
        JsonValue::Null => JsonValue::Null,
        JsonValue::Boolean(b) => JsonValue::Boolean(*b),
        JsonValue::Object(o) => JsonValue::Object(clone_object(o)),
        JsonValue::Array(a) => JsonValue::Array(clone_array(a)),
    }
}

pub(crate) fn clone_string(s: &String) -> (r: String)
    ensures
        r@ == s@,
{
    s.clone()
}

pub(crate) fn clone_object(o: &JsonObject) -> (r: JsonObject)
    ensures
        r@ == o@,
    decreases o,
{
    proof {
        lemma_entries_model(o.entries@);
    }
    let n = o.entries.len();
    let mut entries: Vec<(String, JsonValue)> = Vec::new();
    let mut i: usize = 0;
    while i < n
        invariant
            0 <= i <= n,
            n == o.entries@.len(),
            o@.len() == n,
            crate::value::entries_model(entries@) == o@.take(i as int),
            entries@.len() == i,
            o@ == crate::value::object_model(o),
        decreases n - i,
    {
        proof {
            lemma_entries_model(o.entries@);
            lemma_entries_model(entries@);
        }
        let k = clone_string(&o.entries[i].0);
        let val = clone_value(&o.entries[i].1);
        entries.push((k, val));
        proof {
            lemma_entries_model(entries@);
            assert(crate::value::entries_model(entries@) =~= o@.take(i + 1));
        }
        i = i + 1;
    }
    proof {
        assert(o@.take(n as int) =~= o@);
    }
    JsonObject { entries }
}

pub(crate) fn clone_array(a: &JsonArray) -> (r: JsonArray)
    ensures
        r@ == a@,
    decreases a,
{
    proof {
        lemma_elems_model(a.vec@);
    }
    let n = a.vec.len();
    let mut vec: Vec<JsonValue> = Vec::new();
    let mut i: usize = 0;
    while i < n
        invariant
            0 <= i <= n,
            n == a.vec@.len(),
            a@.len() == n,
            crate::value::elems_model(vec@) == a@.take(i as int),
            vec@.len() == i,
            a@ == crate::value::array_model(a),
        decreases n - i,
    {
        proof {
            lemma_elems_model(a.vec@);
            lemma_elems_model(vec@);
        }
        let val = clone_value(&a.vec[i]);
        vec.push(val);
        proof {
            lemma_elems_model(vec@);
            assert(crate::value::elems_model(vec@) =~= a@.take(i + 1));
        }
        i = i + 1;
    }
    proof {
        assert(a@.take(n as int) =~= a@);
    }
    JsonArray { vec }
}

impl Clone for JsonObject {
    /// A deep copy: the clone's entries equal the original's.
    fn clone(&self) -> (r: Self)
        ensures
            r@ == self@,
    {
        clone_object(self)
    }
}

impl Clone for JsonArray {
    /// A deep copy: the clone's elements equal the original's.
    fn clone(&self) -> (r: Self)
        ensures
            r@ == self@,
    {
        clone_array(self)
    }
}

} // verus!
