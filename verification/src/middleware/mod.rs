//! The rules that middleware applies around endpoints.

pub mod auth;
pub mod compression;
pub mod cors;
pub mod error_handling;
pub mod headers;
pub mod limits;
