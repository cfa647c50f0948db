//! ORT: a line-oriented text format covering the JSON data model (null,
//! booleans, numbers, strings, arrays, keyed objects) that renders uniform
//! arrays of records as compact tabular sections with a shared header.
//!
//! The crate holds the bidirectional engine: a recursive-descent parser from
//! ORT text to an [`ort_value::OrtValue`] tree and a generator from a tree
//! back to ORT text, each specified against a common mathematical model of
//! the format.
pub mod error;
pub mod text;
pub mod num_lit;
pub mod escape;
pub mod ort_value;
pub mod split;
pub mod parser;
pub mod generator;
pub mod value;
pub mod laws;

pub use error::{OrtError, OrtResult};
pub use ort_value::OrtValue;
pub use escape::{escape, unescape};
pub use parser::parse_ort;
pub use generator::generate_ort;
pub use value::{from_str, to_string};
