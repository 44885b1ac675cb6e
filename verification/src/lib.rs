//! A JSON document model with a recursive-descent parser, a typed casting
//! layer, and a configurable pretty-printer.
//!
//! A [`JsonValue`] is a tagged union over strings, decimal numbers, booleans,
//! null, insertion-ordered objects and arrays.  Text is turned into values by
//! [`JsonParser::parse`], values are turned back into text by
//! [`JsonValue::to_text`] (compact) or [`JsonFormatter::format`] (pretty),
//! and values are converted to and from native types through the fallible
//! casting layer in [`casting`].

pub mod array;
pub mod casting;
pub mod entity;
pub mod eq;
pub mod formatter;
pub mod laws;
pub mod number;
pub mod object;
pub mod parser;
pub mod render;
pub(crate) mod text;
pub mod value;

pub use casting::CastError;
pub use casting::FromJson;
pub use casting::ToJson;
pub use entity::JsonEntity;
pub use formatter::JsonFormatter;
pub use formatter::JsonFormatterBuilder;
pub use number::JsonNumber;
pub use number::NumModel;
pub use parser::ConversationError;
pub use parser::JsonParser;
pub use value::Json;
pub use value::JsonArray;
pub use value::JsonObject;
pub use value::JsonValue;
