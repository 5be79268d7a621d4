//! A codec for TNetStrings: length-prefixed, self-delimiting frames of the form
//! `<decimal length>:<payload><tag>`, where the tag is one of `!` (bool), `,`
//! (string), `#` (integer), `^` (float), `~` (null), `]` (list) and `}` (dict).
//!
//! - `frame`: splitting a frame off the input.
//! - `parse`: the untyped decoder, from one frame to a tree of `Value`s.
//! - `de`: the typed decoder, a cursor that a data model reads values from.
//! - `ser`: the typed encoder, a stack of buffers that frames each compound
//!   once its content is complete.
//! - `model`: the typed data model, and the laws that tie encoder and decoder.
pub mod de;
pub mod error;
pub mod frame;
pub mod model;
pub mod parse;
pub mod ser;
pub mod text;

pub use crate::de::Deserializer;
pub use crate::error::Error;
pub use crate::ser::Serializer;
