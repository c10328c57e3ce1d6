//! A codec for a compact, URL-safe text encoding of JSON-like values.
//!
//! A [`Value`] is written out by [`serialize`] as a string over a small
//! alphabet (`~ ( ) ' * !`, ASCII letters and digits, `.`, `_`, `-`) that can
//! stand in a URL query parameter as it is, and read back by [`deserialize`]:
//!
//! ```text
//! {"name":"John Doe","age":42,"children":["Mary","Bill"]}
//! ~(name~'John*20Doe~age~42~children~(~'Mary~'Bill))
//! ```
//!
//! Every function is verified against a mathematical model of the format:
//! [`value_text`] says what the text of a value is, and [`deserialize_spec`]
//! what the value, or the error, of a text is. The module [`laws`] proves
//! that the two fit together.
//!
//! Numbers are read by `serde_json`. A floating-point number is held as its
//! decimal text ([`Number::Float`]): the codec writes the text that it holds,
//! and does no floating-point arithmetic of its own.

pub mod cursor;
pub mod de;
pub mod error;
pub mod escape;
pub mod laws;
pub mod number;
pub mod ser;
pub mod strings;
pub mod value;

pub use crate::cursor::{eat, peek, peekn, Cursor};
pub use crate::de::{deserialize, deserialize_spec, parse_array, parse_object, parse_one};
pub use crate::error::{DeserializeError, ErrorKind};
pub use crate::escape::{
    decode, encode_string, hex2_to_unicode, hex4_to_unicode, hex_digit_to_value,
};
pub use crate::ser::{serialize, serialize_helper, value_text};
pub use crate::value::{Json, JsonNumber, Number, Value};
