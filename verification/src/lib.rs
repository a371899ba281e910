//! The decision-making core of an HTTP framework: routing, middleware rules, extraction,
//! server-sent events, durable objects, queue consumers and the runtime's configuration.
pub mod auth;
pub mod conditional;
pub mod durable;
pub mod extract;
pub mod handler;
pub mod middleware;
pub mod openapi;
pub mod responder;
pub mod routing;
pub mod runtime;
pub mod static_files;
pub mod text;
