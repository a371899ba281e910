//! Tree-based routing.

pub mod param;
pub mod path;
pub mod router;
pub mod table;
pub mod tree;
