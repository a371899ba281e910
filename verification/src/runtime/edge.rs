//! Running at the edge: what becomes of requests and responses on the way to and from the platform.

use vstd::prelude::*;
#[allow(unused_imports)]
use vstd::string::StringExecFns;

#[allow(unused_imports)]
use crate::text::optional_text;
use crate::text::{copy_text, same};

verus! {

/// Whether a response with a status may not have a body.
pub open spec fn forbids_body(status: u16) -> bool {
    status == 204 || status == 205 || status == 304
}

/// Whether a response with a status may not have a body: no content, reset content, and not
/// modified.
pub fn status_forbids_body(status: u16) -> (r: bool)
    ensures
        r == forbids_body(status),
{
    status == 204 || status == 205 || status == 304
}

/// Whether an outgoing request sends its body: `GET` and `HEAD` may not have one, and one that is
/// known to be empty has nothing to send.
pub fn sends_body(method: &str, body_is_empty: Option<bool>) -> (r: bool)
    ensures
        r == (method@ != "GET"@ && method@ != "HEAD"@ && body_is_empty != Some(true)),
{
    if same(method, "GET") || same(method, "HEAD") {
        return false;
    }
    match body_is_empty {
        Some(true) => false,
        _ => true,
    }
}

/// How a response is handed to the platform.
#[derive(Debug)]
pub enum ResponsePlan<S> {
    /// Hand over a socket, with the headers of the response.
    Upgrade(S),
    /// Hand over the response without a body.
    WithoutBody,
    /// Hand over the response with its body.
    WithBody,
    /// It cannot be handed over.
    Fail(String),
}

/// How a response is handed to the platform. One that switches protocols is handed over as a socket;
/// the socket an object accepted comes before any other.
pub fn plan_response<S>(status: u16, durable: Option<S>, other: Option<S>) -> (r: ResponsePlan<S>)
    ensures
        if status == 101 {
            match durable {
                Some(socket) => r == ResponsePlan::Upgrade(socket),
                None => match other {
                    Some(socket) => r == ResponsePlan::Upgrade(socket),
                    None => r matches ResponsePlan::Fail(text) && text@
                        == "101 Switching Protocols response was missing a WebSocket"@,
                },
            }
        } else if forbids_body(status) {
            r is WithoutBody
        } else {
            r is WithBody
        },
{
    if status == 101 {
        match durable {
            Some(socket) => ResponsePlan::Upgrade(socket),
            None => match other {
                Some(socket) => ResponsePlan::Upgrade(socket),
                None => ResponsePlan::Fail(
                    copy_text("101 Switching Protocols response was missing a WebSocket"),
                ),
            },
        }
    } else if status_forbids_body(status) {
        ResponsePlan::WithoutBody
    } else {
        ResponsePlan::WithBody
    }
}

/// The socket that comes with a response of the platform. One that switches protocols must have one.
pub fn upgraded_socket<S>(status: u16, socket: Option<S>) -> (r: Result<Option<S>, String>)
    ensures
        if status == 101 {
            match socket {
                Some(socket) => r == Ok::<Option<S>, String>(Some(socket)),
                None => r is Err && r->Err_0@
                    == "101 Switching Protocols response arrived without a `webSocket` property"@,
            }
        } else {
            r == Ok::<Option<S>, String>(None)
        },
{
    if status == 101 {
        match socket {
            Some(socket) => Ok(Some(socket)),
            None => Err(
                copy_text(
                    "101 Switching Protocols response arrived without a `webSocket` property",
                ),
            ),
        }
    } else {
        Ok(None)
    }
}

/// The metadata of a request was not readable.
#[derive(Debug)]
pub struct CfPropertiesUnavailable {
    reason: String,
    detail: Option<String>,
}

impl CfPropertiesUnavailable {
    /// Why it was not.
    pub closed spec fn cause(&self) -> Seq<char> {
        self.reason@
    }

    /// What the decoder said, if it was asked.
    pub closed spec fn said(&self) -> Option<Seq<char>> {
        optional_text(self.detail)
    }

    /// The error's text.
    pub fn message(&self) -> (r: String)
        ensures
            r@ == match self.said() {
                Some(detail) => self.cause() + ": "@ + detail,
                None => self.cause(),
            },
    {
        let mut text = copy_text(self.reason.as_str());
        if let Some(detail) = &self.detail {
            text.append(": ");
            text.append(detail.as_str());
        }
        text
    }

    /// The status the error is answered with.
    pub fn status(&self) -> (r: u16)
        ensures
            r == 500,
    {
        500
    }
}

/// What a handler extracts of the metadata the platform sent: metadata that could not be decoded is
/// told apart from metadata that was not sent.
pub fn extract_properties<P>(slot: Option<Result<P, String>>) -> (r: Result<
    P,
    CfPropertiesUnavailable,
>)
    ensures
        match slot {
            Some(Ok(properties)) => r == Ok::<P, CfPropertiesUnavailable>(properties),
            Some(Err(error)) => r is Err && r->Err_0.cause()
                == "the runtime sent a `request.cf` object this build could not decode"@
                && r->Err_0.said() == Some(error@),
            None => r is Err && r->Err_0.cause()
                == "this request carried no `request.cf`; it is set by Cloudflare and absent on any other WinterCG host"@
                && r->Err_0.said() is None,
        },
{
    match slot {
        Some(Ok(properties)) => Ok(properties),
        Some(Err(error)) => Err(
            CfPropertiesUnavailable {
                reason: copy_text(
                    "the runtime sent a `request.cf` object this build could not decode",
                ),
                detail: Some(error),
            },
        ),
        None => Err(
            CfPropertiesUnavailable {
                reason: copy_text(
                    "this request carried no `request.cf`; it is set by Cloudflare and absent on any other WinterCG host",
                ),
                detail: None,
            },
        ),
    }
}

/// No content, reset content and not modified forbid a body, and no other status does.
pub proof fn other_statuses_allow_a_body(status: u16)
    ensures
        forbids_body(204) && forbids_body(205) && forbids_body(304),
        status < 204 || 205 < status < 304 || status > 304 ==> !forbids_body(status),
{
}

} // verus!
