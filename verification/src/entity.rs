//! The conversion boundary for user types: to a document value and back
//! from raw text.  Code that derives conversions for record types only
//! needs to produce these two functions.

use vstd::prelude::*;

use crate::casting::FromJson;
use crate::casting::ToJson;
use crate::parser::ConversationError;
use crate::parser::JsonParser;
use crate::value::Json;
use crate::value::JsonValue;
use crate::value::wf_json;

verus! {

/// A type that can be written as a document value and read back from raw
/// JSON text.
pub trait JsonEntity: Sized {
    /// This value as a document value.
    fn to_json(&self) -> JsonValue;

    /// Parses raw JSON text into a value of this type.
    fn from_json(raw: &str) -> Result<Self, ConversationError>;
}

impl<T: FromJson + ToJson> JsonEntity for Vec<T> {
    /// The list as a JSON array of its converted elements.
    fn to_json(&self) -> (r: JsonValue)
        ensures
            r@ == self.to_json_spec(),
            wf_json(r@),
    {
        self.to_json_value()
    }

    /// Parses a JSON array and casts every element: succeeds exactly when
    /// the whole text parses to an array every element of which the
    /// element type accepts; a parse failure keeps its own error, a
    /// non-array value reports the expected shape, and an element failure
    /// carries that element's casting error.
    fn from_json(raw: &str) -> (r: Result<Self, ConversationError>)
        ensures
            list_from_text_post::<T>(raw@, r),
    {
        list_from_text::<T>(raw)
    }
}

/// What parsing-then-casting a list from raw text returns: the cast list
/// exactly when the whole text parses to an array every element of which
/// the element type accepts; otherwise the parse's own error, the
/// expected-shape report for a non-array value, or the failing element's
/// casting error.
pub open spec fn list_from_text_post<T: FromJson>(
    raw: Seq<char>,
    r: Result<Vec<T>, ConversationError>,
) -> bool {
    let d = crate::parser::sp_doc(raw);
    match r {
        Ok(out) => match d {
            Ok((j, end)) => {
                &&& end == raw.len()
                &&& j is Arr
                &&& <Vec<T> as FromJson>::cast_ok(j)
                &&& <Vec<T> as FromJson>::cast_rel(j, out)
            },
            Err(_) => false,
        },
        Err(e) => match e {
            ConversationError::ParsingError(_) => match d {
                Ok((j, end)) => end < raw.len(),
                Err(_) => true,
            },
            ConversationError::GenericError(m) => m@ == "Expected JSON array"@ && match d {
                Ok((j, end)) => end == raw.len() && !(j is Arr),
                Err(_) => false,
            },
            ConversationError::Cast(ce) => match d {
                Ok((j, end)) => {
                    &&& end == raw.len()
                    &&& j is Arr
                    &&& !<Vec<T> as FromJson>::cast_ok(j)
                    &&& ce == <Vec<T> as FromJson>::cast_err(j)
                },
                Err(_) => false,
            },
        },
    }
}

/// Parses a JSON array from raw text and casts every element; see
/// [`list_from_text_post`] for the exact outcome.
pub fn list_from_text<T: FromJson>(raw: &str) -> (r: Result<Vec<T>, ConversationError>)
    ensures
        list_from_text_post::<T>(raw@, r),
{
    match JsonParser::parse(raw) {
        Err(e) => Err(e),
        Ok(v) => match v {
            JsonValue::Array(_) => {
                match <Vec<T> as FromJson>::from_json_value(&v) {
                    Ok(out) => Ok(out),
                    Err(e) => Err(ConversationError::Cast(e)),
                }
            },
            _ => Err(ConversationError::GenericError("Expected JSON array".to_owned())),
        },
    }
}

} // verus!
