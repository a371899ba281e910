//! Turning endpoint errors into responses.

use vstd::prelude::*;

verus! {

/// Turns an endpoint error into a response with a function.
pub struct ErrorHandlingMiddleware<F> {
    f: F,
}

impl<F> ErrorHandlingMiddleware<F> {
    /// The function that answers errors.
    pub closed spec fn handler(&self) -> F {
        self.f
    }

    /// An error handling middleware with the provided function.
    pub fn new(f: F) -> (r: Self)
        ensures
            r.handler() == f,
    {
        ErrorHandlingMiddleware { f }
    }

    /// The function that answers errors.
    pub fn function(&self) -> (r: &F)
        ensures
            *r == self.handler(),
    {
        &self.f
    }

    /// The status of the response to an error: the error's own, unless the response to it sets
    /// another.
    pub fn response_status(&self, error: u16, chosen: Option<u16>) -> (r: u16)
        ensures
            r == match chosen {
                Some(status) => status,
                None => error,
            },
    {
        match chosen {
            Some(status) => status,
            None => error,
        }
    }
}

} // verus!
