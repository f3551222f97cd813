//! A verified decoder for streams of whitespace-separated JSON log
//! records.
//!
//! The input is UTF-8 text holding zero or more JSON object literals,
//! separated by arbitrary whitespace and wrapped in no surrounding
//! array. [`parse`] decodes each object into a [`ServerLog`] and
//! returns the records in stream order, or the first decoding failure.
pub mod grammar;
pub mod parser;
pub mod record;

pub use parser::parse;
pub use record::DecodeError;
pub use record::ServerLog;
pub use record::ServerLogView;
