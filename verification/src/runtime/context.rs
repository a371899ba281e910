//! Work that outlives the response.

use vstd::prelude::*;
#[allow(unused_imports)]
use vstd::string::StringExecFns;

use crate::text::copy_text;

verus! {

/// The runtime refused to take on post-response work.
#[derive(Debug)]
pub struct WorkerContextError(String);

impl WorkerContextError {
    /// What the runtime said.
    pub closed spec fn detail(&self) -> Seq<char> {
        self.0@
    }

    /// Report what the runtime said.
    pub fn new(message: &str) -> (r: Self)
        ensures
            r.detail() == message@,
    {
        WorkerContextError(copy_text(message))
    }

    /// Report that the execution context lacks a method.
    pub fn missing_method(name: &str) -> (r: Self)
        ensures
            r.detail() == "the execution context has no `"@ + name@
                + "` method; is this a WinterCG fetch handler?"@,
    {
        let mut text = copy_text("the execution context has no `");
        text.append(name);
        text.append("` method; is this a WinterCG fetch handler?");
        WorkerContextError(text)
    }

    /// The error's text.
    pub fn message(&self) -> (r: String)
        ensures
            r@ == "the runtime refused post-response work: "@ + self.detail(),
    {
        let mut text = copy_text("the runtime refused post-response work: ");
        text.append(self.0.as_str());
        text
    }

    /// The status the error is answered with.
    pub fn status(&self) -> (r: u16)
        ensures
            r == 500,
    {
        500
    }
}

/// The runtime did not put an execution context into this request.
#[derive(Debug, Clone, Copy)]
pub struct WorkerContextNotConfigured;

impl WorkerContextNotConfigured {
    /// The error's text.
    pub fn message(&self) -> (r: String)
        ensures
            r@
                == "Execution context not available. On Workers it is threaded in by `#[skyzen::main]`; natively it is provided by the built-in runtime, not by an embedding host."@,
    {
        copy_text(
            "Execution context not available. On Workers it is threaded in by `#[skyzen::main]`; natively it is provided by the built-in runtime, not by an embedding host.",
        )
    }

    /// The status the error is answered with.
    pub fn status(&self) -> (r: u16)
        ensures
            r == 500,
    {
        500
    }

    /// The context a handler extracts from what was stored with the request.
    pub fn extract<C>(stored: Option<C>) -> (r: Result<C, WorkerContextNotConfigured>)
        ensures
            match stored {
                Some(context) => r == Ok::<C, WorkerContextNotConfigured>(context),
                None => r is Err,
            },
    {
        match stored {
            Some(context) => Ok(context),
            None => Err(WorkerContextNotConfigured),
        }
    }
}

} // verus!
