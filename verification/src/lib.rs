//! NORM (Normalised Object Relational Model) codec.
//!
//! - [`parse`]: NORM text to a JSON value, first error wins
//! - [`encode`]: JSON value to NORM text
//! - [`validate`]: NORM text to every error found
//!
//! The library performs no I/O.
use vstd::prelude::*;

pub mod agreement;
pub mod arrays;
pub mod collection;
pub mod document;
pub mod encoder;
pub mod error;
pub mod json;
pub mod lexer;
pub mod naming;
pub mod nested;
pub mod numbering;
pub mod parser;
pub mod reading;
pub mod readback;
pub mod resolve;
pub mod roundtrip;
pub mod tables;
pub mod text;

pub use encoder::encode;
pub use error::NormError;
pub use json::JsonValue;
pub use parser::{parse, validate};
