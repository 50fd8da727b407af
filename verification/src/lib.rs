//! Resolution and flattening of interface message schemas.
//!
//! A schema is a small text that declares typed fields, one per line. A
//! field's type is either a builtin primitive or another schema, possibly of
//! another package. Given an index from fully-qualified type names to schema
//! sources, this library produces for a root type the root's text followed
//! by the text of every schema it refers to, directly or through others,
//! each exactly once and in the order of first discovery.

pub mod text;
pub mod typeref;
pub mod order;
pub mod resolver;
pub mod flatten;
pub mod closure;
pub mod graph;

pub use flatten::join;
pub use resolver::{CentralSchemaResolver, ResolveError, Source};
pub use typeref::{classify, strip_array_suffix, TypeRef};
