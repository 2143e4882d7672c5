//! Path queries over a JSON-like value tree, and decoding of backslash-escaped text.
//!
//! `value` holds the value type and its ordered objects, `path_expr` the legs of a
//! path, `extract` the matcher and the query entry point, `unquote` the escape
//! decoder, `text` the text form of values, and `chars` the few standard library
//! calls that the rest relies on.

pub mod chars;
pub mod extract;
pub mod path_expr;
pub mod text;
pub mod unquote;
pub mod value;
