//! Conversion of documents between structured-data formats through one
//! canonical intermediate value.
//!
//! Every format has a value model of its own in [`convert`]; each adapter maps
//! that model into [`value::Value`] and back, and depends on nothing but the
//! intermediate value.

pub mod config;
pub mod convert;
pub mod dict;
pub mod error;
pub mod format;
pub mod text;
pub mod value;
