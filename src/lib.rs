//! A strict parser and a writer for JSON documents whose root is an object
//! or an array. Parsing is proved to follow the grammar in `grammar`, and
//! writing to produce the text that `serializer::text_of` describes.
pub mod value;
pub mod grammar;
pub mod parser;
pub mod serializer;
pub mod round_trip;
pub mod parsed;

pub use value::{Json, JsonValue, ParseError};
pub use parser::{Parser, parse};
pub use serializer::serialize;
