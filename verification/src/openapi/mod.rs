//! OpenAPI metadata collected from routes, and the document assembled from it.

pub mod builtins;
pub mod document;
pub mod entry;
pub mod registry;
pub mod schema;
