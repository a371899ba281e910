//! Handlers: extract what they take, run them, and make a response of what they return.

use vstd::prelude::*;
#[allow(unused_imports)]
use vstd::string::StringExecFns;

use crate::text::copy_text;

verus! {

/// Why a handler gave no response.
#[derive(Debug)]
pub enum HandlerError<E, R> {
    /// An error occurred during extraction.
    ExtractorError(E),
    /// An error occurred during response generation.
    ResponderError(R),
}

/// What comes of calling a handler: extraction comes first, and the handler runs only where it
/// succeeds.
pub fn handler_outcome<S, E, R>(extracted: Result<(), E>, responded: Result<S, R>) -> (r: Result<
    S,
    HandlerError<E, R>,
>)
    ensures
        match extracted {
            Err(error) => r == Err::<S, HandlerError<E, R>>(HandlerError::ExtractorError(error)),
            Ok(_) => match responded {
                Ok(response) => r == Ok::<S, HandlerError<E, R>>(response),
                Err(error) => r == Err::<S, HandlerError<E, R>>(
                    HandlerError::ResponderError(error),
                ),
            },
        },
{
    match extracted {
        Err(error) => Err(HandlerError::ExtractorError(error)),
        Ok(_) => match responded {
            Ok(response) => Ok(response),
            Err(error) => Err(HandlerError::ResponderError(error)),
        },
    }
}

/// A text as a JSON string: in quotes, with the escapes that JSON asks for.
pub uninterp spec fn json_string(text: Seq<char>) -> Seq<char>;

/// Renders a `serde_json::Value` that holds a string with its `Display`. The result is named, not
/// described.
#[verifier::external_body]
fn quote_json(text: &str) -> (r: String)
    ensures
        r@ == json_string(text@),
{
    serde_json::Value::from(text).to_string()
}

/// What an error response says: what a server error says is kept from the client, what any other
/// error says is about the client's request and is returned.
pub open spec fn shown(status: u16, message: Seq<char>) -> Seq<char> {
    if 500 <= status < 600 {
        "Internal server error"@
    } else {
        message
    }
}

/// The body of an error response.
pub open spec fn error_body(status: u16, message: Seq<char>) -> Seq<char> {
    "{\"error\":"@ + json_string(shown(status, message)) + "}"@
}

/// What an error response says.
pub fn shown_message(status: u16, message: &str) -> (r: String)
    ensures
        r@ == shown(status, message@),
{
    if 500 <= status && status < 600 {
        copy_text("Internal server error")
    } else {
        copy_text(message)
    }
}

/// The JSON document of an error, given what it says as a JSON string.
pub fn error_document(quoted: &str) -> (r: String)
    ensures
        r@ == "{\"error\":"@ + quoted@ + "}"@,
{
    let mut text = copy_text("{\"error\":");
    text.append(quoted);
    text.append("}");
    text
}

/// The body of an error response.
pub fn error_response(status: u16, message: &str) -> (r: String)
    ensures
        r@ == error_body(status, message@),
{
    let shown = shown_message(status, message);
    let quoted = quote_json(shown.as_str());
    error_document(quoted.as_str())
}

/// The messages of server errors never reach a client.
pub proof fn server_errors_are_redacted(status: u16, a: Seq<char>, b: Seq<char>)
    requires
        500 <= status < 600,
    ensures
        error_body(status, a) == error_body(status, b),
{
}

/// What any other error says reaches the client as it was said, and a server error says that it is
/// one.
pub proof fn other_errors_say_what_is_wrong(status: u16, message: Seq<char>)
    ensures
        status < 500 || status >= 600 ==> error_body(status, message) == "{\"error\":"@ + json_string(
            message,
        ) + "}"@,
        500 <= status < 600 ==> error_body(status, message) == "{\"error\":"@ + json_string(
            "Internal server error"@,
        ) + "}"@,
{
}

} // verus!
