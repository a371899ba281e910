//! Reading typed values from requests.

pub mod bearer;
pub mod client_ip;
pub mod path;
pub mod query;
pub mod typed_header;
