//! Durable Object errors.

use vstd::prelude::*;
#[allow(unused_imports)]
use vstd::string::StringExecFns;

use crate::text::copy_text;

verus! {

/// Errors that can occur during Durable Object operations.
#[derive(Debug)]
pub enum DurableObjectError {
    /// A runtime error occurred.
    Runtime(String),
    /// Serialization or deserialization of an object's state failed.
    Serialization(String),
    /// A WebSocket operation failed.
    WebSocket(String),
}

impl DurableObjectError {
    /// The error's text.
    pub fn message(&self) -> (r: String)
        ensures
            r@ == match self {
                DurableObjectError::Runtime(msg) => "durable object error: "@ + msg@,
                DurableObjectError::Serialization(msg) => "durable object serialization error: "@
                    + msg@,
                DurableObjectError::WebSocket(msg) => "durable object websocket error: "@ + msg@,
            },
    {
        match self {
            DurableObjectError::Runtime(msg) => {
                let mut text = copy_text("durable object error: ");
                text.append(msg.as_str());
                text
            },
            DurableObjectError::Serialization(msg) => {
                let mut text = copy_text("durable object serialization error: ");
                text.append(msg.as_str());
                text
            },
            DurableObjectError::WebSocket(msg) => {
                let mut text = copy_text("durable object websocket error: ");
                text.append(msg.as_str());
                text
            },
        }
    }
}

/// The error when a lock of the simulator was left poisoned.
pub fn lock_poisoned() -> (r: DurableObjectError)
    ensures
        r matches DurableObjectError::Runtime(msg) && msg@
            == "native durable simulator lock poisoned"@,
{
    DurableObjectError::Runtime(copy_text("native durable simulator lock poisoned"))
}

/// The error when something is sent to a socket that is closed.
pub fn closed_websocket() -> (r: DurableObjectError)
    ensures
        r matches DurableObjectError::WebSocket(msg) && msg@
            == "native durable websocket is closed"@,
{
    DurableObjectError::WebSocket(copy_text("native durable websocket is closed"))
}

/// Whether an error reports that an object was asked for a URL that is none, with what the parser
/// said.
pub open spec fn is_invalid_url_error(error: DurableObjectError, text: Seq<char>) -> bool {
    error matches DurableObjectError::Runtime(msg) && msg@ == "invalid durable URL: "@ + text
}

/// The error when an object is asked for a URL that is none, with what the parser said.
pub fn invalid_url(error: &str) -> (r: DurableObjectError)
    ensures
        is_invalid_url_error(r, error@),
{
    let mut text = copy_text("invalid durable URL: ");
    text.append(error);
    DurableObjectError::Runtime(text)
}

} // verus!
