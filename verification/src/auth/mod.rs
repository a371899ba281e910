//! Authentication and authorization.

pub mod guard;
pub mod jwt;
