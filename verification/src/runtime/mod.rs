//! Running an application: as a server, behind a functions host, or at the edge.

pub mod azure;
pub mod consumer;
pub mod context;
pub mod edge;
pub mod native;
