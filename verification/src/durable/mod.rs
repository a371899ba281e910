//! Durable Objects: stateful objects with an identity, storage, an alarm and sockets that outlive
//! the requests they came with.

pub mod alarm;
pub mod connections;
pub mod context;
pub mod error;
pub mod id;
pub mod kv;
pub mod native;
pub mod websocket;
