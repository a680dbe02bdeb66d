//! Building schema documents in code.

pub mod schema_builder;
