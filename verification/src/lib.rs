//! Resource resolution for schema documents: the identifiers that address
//! locations inside and across documents, the per-draft rules that find
//! resource boundaries and anchors, and the resource graph of one document.

pub mod below;
pub mod builder;
pub mod compiler;
pub mod draft;
pub mod json;
pub mod kinds;
pub mod outline;
pub mod owner;
pub mod pointer;
pub mod root;
pub mod schemas;
pub mod settle;
pub mod text;
pub mod util;

pub use crate::builder::schema_builder::{
    json_schema, Dependencies, Dependency, JsonSchemaBuilder, PrimitiveType, SchemaArray, SchemaHash,
};
pub use crate::compiler::{CompileError, Compiler, UrlLoader};
pub use crate::draft::{Declared, Draft, Position};
pub use crate::json::Json;
pub use crate::pointer::JsonPointer;
pub use crate::root::{Resource, Root};
pub use crate::schemas::{ErrorKind, Schema, SchemaIndex, Schemas, ValidationError};
pub use crate::util::{Anchor, Fragment, Url, UrlFrag, UrlPtr};
