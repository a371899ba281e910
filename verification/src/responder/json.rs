//! Pretty-printed JSON responses.

use vstd::prelude::*;

use crate::middleware::headers::{push_insert, HeaderUpdate};
#[allow(unused_imports)]
use crate::middleware::headers::{updates, UpdateView};
use crate::text::copy_text;

verus! {

/// An error occurred when serializing the JSON payload.
#[derive(Debug, Clone, Copy)]
pub struct PrettyJsonError;

impl PrettyJsonError {
    /// The error's text.
    pub fn message(&self) -> (r: String)
        ensures
            r@ == "Failed to serialize JSON payload"@,
    {
        copy_text("Failed to serialize JSON payload")
    }

    /// The status the error is answered with.
    pub fn status(&self) -> (r: u16)
        ensures
            r == 500,
    {
        500
    }
}

/// A response body with the header changes that go with it.
#[derive(Debug)]
pub struct Payload {
    /// The body.
    pub body: Vec<u8>,
    /// The header changes.
    pub updates: Vec<HeaderUpdate>,
}

/// The response to a payload that was serialized, or could not be.
pub fn respond(serialized: Option<Vec<u8>>) -> (r: Result<Payload, PrettyJsonError>)
    ensures
        match serialized {
            Some(bytes) => r is Ok && r->Ok_0.body == bytes && updates(r->Ok_0.updates@) == seq![
                UpdateView::Insert("content-type"@, "application/json"@),
            ],
            None => r is Err,
        },
{
    match serialized {
        Some(body) => {
            let mut list: Vec<HeaderUpdate> = Vec::new();
            push_insert(&mut list, "content-type", "application/json");
            assert(updates(list@) =~= seq![
                UpdateView::Insert("content-type"@, "application/json"@),
            ]);
            Ok(Payload { body, updates: list })
        },
        None => Err(PrettyJsonError),
    }
}

} // verus!
