//! The typed casting layer: fallible conversions from document values to
//! native types, and the total reverse direction from native types into
//! document values.
//!
//! Numbers are stored as exact decimals, so integer extraction checks the
//! fractional part and the target range at cast time: a fractional number
//! is an [`CastError::InvalidType`], a whole number outside the target's
//! range is an [`CastError::OutOfRange`].  `Null` coerces to the target's
//! empty value: `false`, zero, an empty list, an empty object.

use vstd::prelude::*;

use crate::eq::clone_object;
use crate::eq::clone_string;
use crate::eq::clone_value;
use crate::number::JsonNumber;
use crate::number::num_abs_val;
use crate::number::num_int_val;
use crate::number::num_is_int;
use crate::number::num_of_int;
use crate::number::num_wf;
use crate::number::lemma_num_of_int_val;
use crate::number::render_num;
use crate::render::render_value;
use crate::value::Json;
use crate::value::JsonArray;
use crate::value::JsonObject;
use crate::value::JsonValue;
use crate::value::lemma_elems_model;
use crate::value::lemma_wf_elem_at;
use crate::value::wf_json;

verus! {

broadcast use vstd::std_specs::vec::group_vec_axioms, crate::value::lemma_elems_model;

/// Why a cast failed.
#[derive(Debug, Clone, PartialEq)]
pub enum CastError {
    /// The value's variant does not fit the target type.
    InvalidType,
    /// A whole number lies outside the target type's range.
    OutOfRange,
    /// A required object key is absent.
    FieldNotFound(String),
}

/// A native type a document value can be cast to.
///
/// `cast_ok` says on exactly which values the cast succeeds, `cast_rel`
/// pins the successful result, and `cast_err` names the error otherwise.
pub trait FromJson: Sized {
    spec fn cast_ok(j: Json) -> bool;

    spec fn cast_err(j: Json) -> CastError;

    spec fn cast_rel(j: Json, t: Self) -> bool;

    fn from_json_value(v: &JsonValue) -> (r: Result<Self, CastError>)
        requires
            wf_json(v@),
        ensures
            match r {
                Ok(t) => Self::cast_ok(v@) && Self::cast_rel(v@, t),
                Err(e) => !Self::cast_ok(v@) && e == Self::cast_err(v@),
            },
    ;
}

/// A native type that can be wrapped into a document value; this
/// direction is total.
pub trait ToJson {
    spec fn to_json_spec(&self) -> Json;

    fn to_json_value(&self) -> (r: JsonValue)
        ensures
            r@ == self.to_json_spec(),
            wf_json(r@),
    ;
}

/// The canonical text every value casts to as a `String`: strings give
/// their contents, everything else its compact rendering.
pub open spec fn cast_string_view(j: Json) -> Seq<char> {
    match j {
        Json::Str(s) => s,
        Json::Num(n) => render_num(n),
        Json::Bool(b) => if b {
            "true"@
        } else {
            "false"@
        },
        Json::Null => "null"@,
        Json::Arr(_) => render_value(j),
        Json::Obj(_) => render_value(j),
    }
}

impl FromJson for String {
    open spec fn cast_ok(j: Json) -> bool {
        true
    }

    open spec fn cast_err(j: Json) -> CastError {
        CastError::InvalidType
    }

    open spec fn cast_rel(j: Json, t: Self) -> bool {
        t@ == cast_string_view(j)
    }

    fn from_json_value(v: &JsonValue) -> (r: Result<Self, CastError>) {
        match v {
            JsonValue::String(s) => Ok(clone_string(s)),
            JsonValue::Number(n) => {
                let mut out = String::new();
                crate::render::write_num(n, &mut out);
                Ok(out)
            },
            JsonValue::Null => Ok("null".to_owned()),
            JsonValue::Boolean(b) => {
                if *b {
                    Ok("true".to_owned())
                } else {
                    Ok("false".to_owned())
                }
            },
            JsonValue::Object(_) => Ok(v.to_text()),
            JsonValue::Array(_) => Ok(v.to_text()),
        }
    }
}

impl FromJson for bool {
    open spec fn cast_ok(j: Json) -> bool {
        j is Bool || j is Null
    }

    open spec fn cast_err(j: Json) -> CastError {
        CastError::InvalidType
    }

    open spec fn cast_rel(j: Json, t: Self) -> bool {
        match j {
            Json::Bool(b) => t == b,
            Json::Null => t == false,
            _ => false,
        }
    }

    fn from_json_value(v: &JsonValue) -> (r: Result<Self, CastError>) {
        match v {
            JsonValue::Boolean(b) => Ok(*b),
            JsonValue::Null => Ok(false),
            _ => Err(CastError::InvalidType),
        }
    }
}

impl FromJson for JsonValue {
    open spec fn cast_ok(j: Json) -> bool {
        true
    }

    open spec fn cast_err(j: Json) -> CastError {
        CastError::InvalidType
    }

    open spec fn cast_rel(j: Json, t: Self) -> bool {
        t@ == j
    }

    fn from_json_value(v: &JsonValue) -> (r: Result<Self, CastError>) {
        Ok(clone_value(v))
    }
}

/// Whether a whole number in `[lo, hi]` can be extracted from `j`;
/// `Null` always can, as zero.
pub open spec fn int_cast_ok(j: Json, lo: int, hi: int) -> bool {
    match j {
        Json::Num(n) => num_is_int(n) && lo <= num_int_val(n) <= hi,
        Json::Null => true,
        _ => false,
    }
}

/// The error when no whole number in `[lo, hi]` can be extracted: a
/// fractional number is the wrong type, an out-of-range whole number is
/// out of range, anything but a number is the wrong type.
pub open spec fn int_cast_err(j: Json, lo: int, hi: int) -> CastError {
    match j {
        Json::Num(n) => if !num_is_int(n) {
            CastError::InvalidType
        } else {
            CastError::OutOfRange
        },
        _ => CastError::InvalidType,
    }
}

/// The whole number extracted on success: the number's value, or zero
/// from `Null`.
pub open spec fn int_cast_val(j: Json) -> int {
    match j {
        Json::Num(n) => num_int_val(n),
        _ => 0,
    }
}

/// Extracts a whole number within `[lo, hi]` from `v`.
fn cast_integer(v: &JsonValue, lo: i128, hi: i128) -> (r: Result<i128, CastError>)
    requires
        wf_json(v@),
        lo <= 0 <= hi,
    ensures
        match r {
            Ok(x) => int_cast_ok(v@, lo as int, hi as int) && x as int == int_cast_val(v@),
            Err(e) => !int_cast_ok(v@, lo as int, hi as int) && e == int_cast_err(
                v@,
                lo as int,
                hi as int,
            ),
        },
{
    match v {
        JsonValue::Null => Ok(0),
        JsonValue::Number(n) => {
            if !n.is_whole() {
                return Err(CastError::InvalidType);
            }
            proof {
                lemma_abs_val_rel(n@);
            }
            match n.int_magnitude() {
                None => {
                    proof {
                        assert(num_abs_val(n@) > u128::MAX as int);
                    }
                    Err(CastError::OutOfRange)
                },
                Some(m) => {
                    if n.is_negative() {
                        if m > 0x8000_0000_0000_0000_0000_0000_0000_0000u128 {
                            return Err(CastError::OutOfRange);
                        }
                        let x: i128 = if m == 0x8000_0000_0000_0000_0000_0000_0000_0000u128 {
                            i128::MIN
                        } else {
                            -(m as i128)
                        };
                        if x < lo {
                            Err(CastError::OutOfRange)
                        } else {
                            Ok(x)
                        }
                    } else {
                        if m > i128::MAX as u128 {
                            return Err(CastError::OutOfRange);
                        }
                        let x: i128 = m as i128;
                        if x > hi {
                            Err(CastError::OutOfRange)
                        } else {
                            Ok(x)
                        }
                    }
                },
            }
        },
        _ => Err(CastError::InvalidType),
    }
}

/// The magnitude and the whole value of a number agree in sign.
proof fn lemma_abs_val_rel(n: crate::number::NumModel)
    requires
        num_wf(n),
        num_is_int(n),
    ensures
        num_abs_val(n) >= 0,
        num_int_val(n) == if n.neg {
            -num_abs_val(n)
        } else {
            num_abs_val(n)
        },
{
    crate::number::lemma_digits_val_nonneg(n.digits);
    crate::number::lemma_pow10_pos(
        if n.exp >= 0 {
            n.exp as nat
        } else {
            0
        },
    );
    let v = crate::number::digits_val(n.digits);
    let p = crate::number::pow10(
        if n.exp >= 0 {
            n.exp as nat
        } else {
            0
        },
    );
    assert(v * p >= 0) by (nonlinear_arith)
        requires
            v >= 0,
            p >= 1,
    ;
}

/// Extracts a whole number in the unsigned 128-bit range from `v`.
fn cast_unsigned_128(v: &JsonValue) -> (r: Result<u128, CastError>)
    requires
        wf_json(v@),
    ensures
        match r {
            Ok(x) => int_cast_ok(v@, 0, u128::MAX as int) && x as int == int_cast_val(v@),
            Err(e) => !int_cast_ok(v@, 0, u128::MAX as int) && e == int_cast_err(
                v@,
                0,
                u128::MAX as int,
            ),
        },
{
    match v {
        JsonValue::Null => Ok(0),
        JsonValue::Number(n) => {
            if !n.is_whole() {
                return Err(CastError::InvalidType);
            }
            proof {
                lemma_abs_val_rel(n@);
            }
            match n.int_magnitude() {
                None => Err(CastError::OutOfRange),
                Some(m) => {
                    if n.is_negative() {
                        if m == 0 {
                            Ok(0)
                        } else {
                            Err(CastError::OutOfRange)
                        }
                    } else {
                        Ok(m)
                    }
                },
            }
        },
        _ => Err(CastError::InvalidType),
    }
}

impl FromJson for i64 {
    open spec fn cast_ok(j: Json) -> bool {
        int_cast_ok(j, i64::MIN as int, i64::MAX as int)
    }

    open spec fn cast_err(j: Json) -> CastError {
        int_cast_err(j, i64::MIN as int, i64::MAX as int)
    }

    open spec fn cast_rel(j: Json, t: Self) -> bool {
        t as int == int_cast_val(j)
    }

    fn from_json_value(v: &JsonValue) -> (r: Result<Self, CastError>) {
        match cast_integer(v, i64::MIN as i128, i64::MAX as i128) {
            Ok(x) => Ok(x as i64),
            Err(e) => Err(e),
        }
    }
}

impl FromJson for i32 {
    open spec fn cast_ok(j: Json) -> bool {
        int_cast_ok(j, i32::MIN as int, i32::MAX as int)
    }

    open spec fn cast_err(j: Json) -> CastError {
        int_cast_err(j, i32::MIN as int, i32::MAX as int)
    }

    open spec fn cast_rel(j: Json, t: Self) -> bool {
        t as int == int_cast_val(j)
    }

    fn from_json_value(v: &JsonValue) -> (r: Result<Self, CastError>) {
        match cast_integer(v, i32::MIN as i128, i32::MAX as i128) {
            Ok(x) => Ok(x as i32),
            Err(e) => Err(e),
        }
    }
}

impl FromJson for i16 {
    open spec fn cast_ok(j: Json) -> bool {
        int_cast_ok(j, i16::MIN as int, i16::MAX as int)
    }

    open spec fn cast_err(j: Json) -> CastError {
        int_cast_err(j, i16::MIN as int, i16::MAX as int)
    }

    open spec fn cast_rel(j: Json, t: Self) -> bool {
        t as int == int_cast_val(j)
    }

    fn from_json_value(v: &JsonValue) -> (r: Result<Self, CastError>) {
        match cast_integer(v, i16::MIN as i128, i16::MAX as i128) {
            Ok(x) => Ok(x as i16),
            Err(e) => Err(e),
        }
    }
}

impl FromJson for i8 {
    open spec fn cast_ok(j: Json) -> bool {
        int_cast_ok(j, i8::MIN as int, i8::MAX as int)
    }

    open spec fn cast_err(j: Json) -> CastError {
        int_cast_err(j, i8::MIN as int, i8::MAX as int)
    }

    open spec fn cast_rel(j: Json, t: Self) -> bool {
        t as int == int_cast_val(j)
    }

    fn from_json_value(v: &JsonValue) -> (r: Result<Self, CastError>) {
        match cast_integer(v, i8::MIN as i128, i8::MAX as i128) {
            Ok(x) => Ok(x as i8),
            Err(e) => Err(e),
        }
    }
}

impl FromJson for i128 {
    open spec fn cast_ok(j: Json) -> bool {
        int_cast_ok(j, i128::MIN as int, i128::MAX as int)
    }

    open spec fn cast_err(j: Json) -> CastError {
        int_cast_err(j, i128::MIN as int, i128::MAX as int)
    }

    open spec fn cast_rel(j: Json, t: Self) -> bool {
        t as int == int_cast_val(j)
    }

    fn from_json_value(v: &JsonValue) -> (r: Result<Self, CastError>) {
        cast_integer(v, i128::MIN, i128::MAX)
    }
}

impl FromJson for isize {
    open spec fn cast_ok(j: Json) -> bool {
        int_cast_ok(j, isize::MIN as int, isize::MAX as int)
    }

    open spec fn cast_err(j: Json) -> CastError {
        int_cast_err(j, isize::MIN as int, isize::MAX as int)
    }

    open spec fn cast_rel(j: Json, t: Self) -> bool {
        t as int == int_cast_val(j)
    }

    fn from_json_value(v: &JsonValue) -> (r: Result<Self, CastError>) {
        match cast_integer(v, isize::MIN as i128, isize::MAX as i128) {
            Ok(x) => Ok(x as isize),
            Err(e) => Err(e),
        }
    }
}

impl FromJson for u64 {
    open spec fn cast_ok(j: Json) -> bool {
        int_cast_ok(j, 0, u64::MAX as int)
    }

    open spec fn cast_err(j: Json) -> CastError {
        int_cast_err(j, 0, u64::MAX as int)
    }

    open spec fn cast_rel(j: Json, t: Self) -> bool {
        t as int == int_cast_val(j)
    }

    fn from_json_value(v: &JsonValue) -> (r: Result<Self, CastError>) {
        match cast_integer(v, 0, u64::MAX as i128) {
            Ok(x) => Ok(x as u64),
            Err(e) => Err(e),
        }
    }
}

impl FromJson for u32 {
    open spec fn cast_ok(j: Json) -> bool {
        int_cast_ok(j, 0, u32::MAX as int)
    }

    open spec fn cast_err(j: Json) -> CastError {
        int_cast_err(j, 0, u32::MAX as int)
    }

    open spec fn cast_rel(j: Json, t: Self) -> bool {
        t as int == int_cast_val(j)
    }

    fn from_json_value(v: &JsonValue) -> (r: Result<Self, CastError>) {
        match cast_integer(v, 0, u32::MAX as i128) {
            Ok(x) => Ok(x as u32),
            Err(e) => Err(e),
        }
    }
}

impl FromJson for u16 {
    open spec fn cast_ok(j: Json) -> bool {
        int_cast_ok(j, 0, u16::MAX as int)
    }

    open spec fn cast_err(j: Json) -> CastError {
        int_cast_err(j, 0, u16::MAX as int)
    }

    open spec fn cast_rel(j: Json, t: Self) -> bool {
        t as int == int_cast_val(j)
    }

    fn from_json_value(v: &JsonValue) -> (r: Result<Self, CastError>) {
        match cast_integer(v, 0, u16::MAX as i128) {
            Ok(x) => Ok(x as u16),
            Err(e) => Err(e),
        }
    }
}

impl FromJson for u8 {
    open spec fn cast_ok(j: Json) -> bool {
        int_cast_ok(j, 0, u8::MAX as int)
    }

    open spec fn cast_err(j: Json) -> CastError {
        int_cast_err(j, 0, u8::MAX as int)
    }

    open spec fn cast_rel(j: Json, t: Self) -> bool {
        t as int == int_cast_val(j)
    }

    fn from_json_value(v: &JsonValue) -> (r: Result<Self, CastError>) {
        match cast_integer(v, 0, u8::MAX as i128) {
            Ok(x) => Ok(x as u8),
            Err(e) => Err(e),
        }
    }
}

impl FromJson for u128 {
    open spec fn cast_ok(j: Json) -> bool {
        int_cast_ok(j, 0, u128::MAX as int)
    }

    open spec fn cast_err(j: Json) -> CastError {
        int_cast_err(j, 0, u128::MAX as int)
    }

    open spec fn cast_rel(j: Json, t: Self) -> bool {
        t as int == int_cast_val(j)
    }

    fn from_json_value(v: &JsonValue) -> (r: Result<Self, CastError>) {
        cast_unsigned_128(v)
    }
}

impl FromJson for usize {
    open spec fn cast_ok(j: Json) -> bool {
        int_cast_ok(j, 0, usize::MAX as int)
    }

    open spec fn cast_err(j: Json) -> CastError {
        int_cast_err(j, 0, usize::MAX as int)
    }

    open spec fn cast_rel(j: Json, t: Self) -> bool {
        t as int == int_cast_val(j)
    }

    fn from_json_value(v: &JsonValue) -> (r: Result<Self, CastError>) {
        match cast_integer(v, 0, usize::MAX as i128) {
            Ok(x) => Ok(x as usize),
            Err(e) => Err(e),
        }
    }
}

/// The first index whose element the target type refuses; the length when
/// every element is accepted.
pub open spec fn first_bad<T: FromJson>(s: Seq<Json>) -> int
    decreases s.len(),
{
    if s.len() == 0 {
        0
    } else if !T::cast_ok(s[0]) {
        0
    } else {
        1 + first_bad::<T>(s.drop_first())
    }
}

pub proof fn lemma_first_bad<T: FromJson>(s: Seq<Json>)
    ensures
        0 <= first_bad::<T>(s) <= s.len(),
        forall|i: int| 0 <= i < first_bad::<T>(s) ==> T::cast_ok(#[trigger] s[i]),
        first_bad::<T>(s) < s.len() ==> !T::cast_ok(s[first_bad::<T>(s)]),
    decreases s.len(),
{
    if s.len() > 0 && T::cast_ok(s[0]) {
        lemma_first_bad::<T>(s.drop_first());
        let f = first_bad::<T>(s);
        assert forall|i: int| 0 <= i < f implies T::cast_ok(#[trigger] s[i]) by {
            if i >= 1 {
                assert(s[i] == s.drop_first()[i - 1]);
            }
        }
        if f < s.len() {
            assert(s[f] == s.drop_first()[f - 1]);
        }
    }
}

impl<T: FromJson> FromJson for Vec<T> {
    open spec fn cast_ok(j: Json) -> bool {
        match j {
            Json::Arr(s) => forall|i: int| 0 <= i < s.len() ==> T::cast_ok(#[trigger] s[i]),
            Json::Null => true,
            _ => false,
        }
    }

    open spec fn cast_err(j: Json) -> CastError {
        match j {
            Json::Arr(s) => T::cast_err(s[first_bad::<T>(s)]),
            _ => CastError::InvalidType,
        }
    }

    open spec fn cast_rel(j: Json, t: Self) -> bool {
        match j {
            Json::Arr(s) => t@.len() == s.len() && (forall|i: int|
                0 <= i < s.len() ==> T::cast_rel(#[trigger] s[i], t@[i])),
            Json::Null => t@.len() == 0,
            _ => false,
        }
    }

    fn from_json_value(v: &JsonValue) -> (r: Result<Self, CastError>) {
        match v {
            JsonValue::Null => Ok(Vec::new()),
            JsonValue::Array(a) => {
                proof {
                    lemma_elems_model(a.vec@);
                }
                let ghost s = crate::value::array_model(a);
                let n = a.vec.len();
                let mut out: Vec<T> = Vec::new();
                let mut i: usize = 0;
                while i < n
                    invariant
                        0 <= i <= n,
                        n == a.vec@.len(),
                        s == crate::value::array_model(a),
                        s.len() == n,
                        wf_json(Json::Arr(s)),
                        v@ == Json::Arr(s),
                        out@.len() == i,
                        forall|j: int| 0 <= j < i ==> T::cast_ok(#[trigger] s[j]),
                        forall|j: int| 0 <= j < i ==> T::cast_rel(#[trigger] s[j], out@[j]),
                    decreases n - i,
                {
                    proof {
                        lemma_elems_model(a.vec@);
                        lemma_wf_elem_at(s, i as int);
                    }
                    match T::from_json_value(&a.vec[i]) {
                        Ok(t) => {
                            out.push(t);
                        },
                        Err(e) => {
                            proof {
                                lemma_first_bad::<T>(s);
                                let f = first_bad::<T>(s);
                                assert(!T::cast_ok(s[i as int]));
                                if f < i as int {
                                    assert(T::cast_ok(s[f]));
                                }
                                assert(f == i as int);
                            }
                            return Err(e);
                        },
                    }
                    i = i + 1;
                }
                Ok(out)
            },
            _ => Err(CastError::InvalidType),
        }
    }
}

impl FromJson for JsonObject {
    open spec fn cast_ok(j: Json) -> bool {
        j is Obj || j is Null
    }

    open spec fn cast_err(j: Json) -> CastError {
        CastError::InvalidType
    }

    open spec fn cast_rel(j: Json, t: Self) -> bool {
        match j {
            Json::Obj(ms) => t@ == ms,
            Json::Null => t@.len() == 0,
            _ => false,
        }
    }

    fn from_json_value(v: &JsonValue) -> (r: Result<Self, CastError>) {
        match v {
            JsonValue::Object(o) => Ok(clone_object(o)),
            JsonValue::Null => Ok(JsonObject::new()),
            _ => Err(CastError::InvalidType),
        }
    }
}

impl JsonValue {
    /// Casts this value to the target type; see [`FromJson`] for exactly
    /// which values each target accepts.
    pub fn parse<T: FromJson>(&self) -> (r: Result<T, CastError>)
        requires
            self.wf(),
        ensures
            match r {
                Ok(t) => T::cast_ok(self@) && T::cast_rel(self@, t),
                Err(e) => !T::cast_ok(self@) && e == T::cast_err(self@),
            },
    {
        T::from_json_value(self)
    }
}

impl JsonObject {
    /// Extracts the field `key`, cast to the target type; an absent key is
    /// a [`CastError::FieldNotFound`] holding that key.
    pub fn extract<T: FromJson>(&self, key: &str) -> (r: Result<T, CastError>)
        requires
            self.wf(),
        ensures
            match r {
                Ok(t) => {
                    &&& crate::object::has_key(self@, key@)
                    &&& T::cast_ok(crate::object::obj_get(self@, key@)->0)
                    &&& T::cast_rel(crate::object::obj_get(self@, key@)->0, t)
                },
                Err(e) => {
                    &&& (crate::object::has_key(self@, key@) ==> !T::cast_ok(
                        crate::object::obj_get(self@, key@)->0,
                    ) && e == T::cast_err(crate::object::obj_get(self@, key@)->0))
                    &&& (!crate::object::has_key(self@, key@) ==> match e {
                        CastError::FieldNotFound(k) => k@ == key@,
                        _ => false,
                    })
                },
            },
    {
        proof {
            crate::object::lemma_find_key(self@, key@);
        }
        match self.get(key) {
            Some(v) => {
                proof {
                    crate::value::lemma_wf_entry_at(self@, crate::object::find_key(self@, key@));
                }
                T::from_json_value(v)
            },
            None => Err(CastError::FieldNotFound(key.to_owned())),
        }
    }
}

impl ToJson for bool {
    open spec fn to_json_spec(&self) -> Json {
        Json::Bool(*self)
    }

    fn to_json_value(&self) -> (r: JsonValue) {
        JsonValue::Boolean(*self)
    }
}

impl ToJson for String {
    open spec fn to_json_spec(&self) -> Json {
        Json::Str(self@)
    }

    fn to_json_value(&self) -> (r: JsonValue) {
        JsonValue::String(clone_string(self))
    }
}

impl ToJson for i64 {
    open spec fn to_json_spec(&self) -> Json {
        Json::Num(num_of_int(*self as int))
    }

    fn to_json_value(&self) -> (r: JsonValue) {
        proof {
            lemma_num_of_int_val(*self as int);
        }
        JsonValue::Number(JsonNumber::from_i64(*self))
    }
}

impl ToJson for i32 {
    open spec fn to_json_spec(&self) -> Json {
        Json::Num(num_of_int(*self as int))
    }

    fn to_json_value(&self) -> (r: JsonValue) {
        proof {
            lemma_num_of_int_val(*self as int);
        }
        JsonValue::Number(JsonNumber::from_i64(*self as i64))
    }
}

impl ToJson for u64 {
    open spec fn to_json_spec(&self) -> Json {
        Json::Num(num_of_int(*self as int))
    }

    fn to_json_value(&self) -> (r: JsonValue) {
        proof {
            lemma_num_of_int_val(*self as int);
        }
        JsonValue::Number(JsonNumber::from_u64(*self))
    }
}

impl ToJson for u32 {
    open spec fn to_json_spec(&self) -> Json {
        Json::Num(num_of_int(*self as int))
    }

    fn to_json_value(&self) -> (r: JsonValue) {
        proof {
            lemma_num_of_int_val(*self as int);
        }
        JsonValue::Number(JsonNumber::from_u64(*self as u64))
    }
}


impl ToJson for i8 {
    open spec fn to_json_spec(&self) -> Json {
        Json::Num(num_of_int(*self as int))
    }

    fn to_json_value(&self) -> (r: JsonValue) {
        proof {
            lemma_num_of_int_val(*self as int);
        }
        JsonValue::Number(JsonNumber::from_i64(*self as i64))
    }
}

impl ToJson for i16 {
    open spec fn to_json_spec(&self) -> Json {
        Json::Num(num_of_int(*self as int))
    }

    fn to_json_value(&self) -> (r: JsonValue) {
        proof {
            lemma_num_of_int_val(*self as int);
        }
        JsonValue::Number(JsonNumber::from_i64(*self as i64))
    }
}

impl ToJson for i128 {
    open spec fn to_json_spec(&self) -> Json {
        Json::Num(num_of_int(*self as int))
    }

    fn to_json_value(&self) -> (r: JsonValue) {
        proof {
            lemma_num_of_int_val(*self as int);
        }
        JsonValue::Number(JsonNumber::from_i128(*self))
    }
}

impl ToJson for u8 {
    open spec fn to_json_spec(&self) -> Json {
        Json::Num(num_of_int(*self as int))
    }

    fn to_json_value(&self) -> (r: JsonValue) {
        proof {
            lemma_num_of_int_val(*self as int);
        }
        JsonValue::Number(JsonNumber::from_u64(*self as u64))
    }
}

impl ToJson for u16 {
    open spec fn to_json_spec(&self) -> Json {
        Json::Num(num_of_int(*self as int))
    }

    fn to_json_value(&self) -> (r: JsonValue) {
        proof {
            lemma_num_of_int_val(*self as int);
        }
        JsonValue::Number(JsonNumber::from_u64(*self as u64))
    }
}

impl ToJson for u128 {
    open spec fn to_json_spec(&self) -> Json {
        Json::Num(num_of_int(*self as int))
    }

    fn to_json_value(&self) -> (r: JsonValue) {
        proof {
            lemma_num_of_int_val(*self as int);
        }
        JsonValue::Number(JsonNumber::from_u128(*self))
    }
}

impl ToJson for isize {
    open spec fn to_json_spec(&self) -> Json {
        Json::Num(num_of_int(*self as int))
    }

    fn to_json_value(&self) -> (r: JsonValue) {
        proof {
            lemma_num_of_int_val(*self as int);
        }
        JsonValue::Number(JsonNumber::from_i64(*self as i64))
    }
}

impl ToJson for usize {
    open spec fn to_json_spec(&self) -> Json {
        Json::Num(num_of_int(*self as int))
    }

    fn to_json_value(&self) -> (r: JsonValue) {
        proof {
            lemma_num_of_int_val(*self as int);
        }
        JsonValue::Number(JsonNumber::from_u64(*self as u64))
    }
}

impl<T: ToJson> ToJson for Vec<T> {
    open spec fn to_json_spec(&self) -> Json {
        Json::Arr(Seq::new(self@.len(), |i: int| self@[i].to_json_spec()))
    }

    fn to_json_value(&self) -> (r: JsonValue) {
        let ghost target: Seq<Json> = Seq::new(self@.len(), |i: int| self@[i].to_json_spec());
        let n = self.len();
        let mut arr = JsonArray::new();
        let mut i: usize = 0;
        while i < n
            invariant
                0 <= i <= n,
                n == self@.len(),
                target.len() == n,
                forall|j: int| 0 <= j < n ==> target[j] == self@[j].to_json_spec(),
                arr@ =~= target.take(i as int),
                wf_json(Json::Arr(arr@)),
            decreases n - i,
        {
            let v = self[i].to_json_value();
            arr.push(v);
            proof {
                assert(arr@ =~= target.take(i + 1));
            }
            i = i + 1;
        }
        proof {
            assert(target.take(n as int) =~= target);
        }
        JsonValue::Array(arr)
    }
}

impl JsonObject {
    /// The object inside `v`, or a new empty object when `v` is not an
    /// object.
    pub fn from_value(v: JsonValue) -> (r: JsonObject)
        ensures
            match v@ {
                Json::Obj(ms) => r@ == ms,
                _ => r@ == Seq::<(Seq<char>, Json)>::empty(),
            },
    {
        match v {
            JsonValue::Object(o) => o,
            _ => JsonObject::new(),
        }
    }
}

impl JsonArray {
    /// The array inside `v`, or a new empty array when `v` is not an
    /// array.
    pub fn from_value(v: JsonValue) -> (r: JsonArray)
        ensures
            match v@ {
                Json::Arr(elems) => r@ == elems,
                _ => r@ == Seq::<Json>::empty(),
            },
    {
        match v {
            JsonValue::Array(a) => a,
            _ => JsonArray::new(),
        }
    }
}

} // verus!
