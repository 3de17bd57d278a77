//! Infers a JSON Schema (draft 2020-12) from example JSON values.
pub mod json;
pub mod sniffer;
pub mod objects;
pub mod schema;
pub mod text_ops;
pub mod nodes;
pub mod float_free;
pub mod validate;
pub mod laws;
pub mod node_laws;
