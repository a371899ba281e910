//! Bounds on a request's body and duration.

use std::time::Duration;

use vstd::prelude::*;

use crate::text::copy_text;

verus! {

/// How many request-body bytes the body extractors may buffer.
#[derive(Debug, Clone, Copy, PartialEq, Eq)]
pub struct RequestBodyLimit {
    max_bytes: Option<usize>,
}

/// The limit of a request that nothing else limits: 2 MiB.
pub const DEFAULT_BODY_LIMIT: usize = 2097152;

impl RequestBodyLimit {
    /// The bound, if there is one.
    pub closed spec fn bound(&self) -> Option<usize> {
        self.max_bytes
    }

    /// Cap request bodies at `max_bytes`.
    pub fn new(max_bytes: usize) -> (r: Self)
        ensures
            r.bound() == Some(max_bytes),
    {
        RequestBodyLimit { max_bytes: Some(max_bytes) }
    }

    /// No cap.
    pub fn disabled() -> (r: Self)
        ensures
            r.bound() is None,
    {
        RequestBodyLimit { max_bytes: None }
    }

    /// The bound, if there is one.
    pub fn max_bytes(&self) -> (r: Option<usize>)
        ensures
            r == self.bound(),
    {
        self.max_bytes
    }

    /// The limit a router leaves on a request: the one already there, or the default.
    ///
    /// A router mounted inside another must not clear the limit set around the outer one.
    pub fn or_default(existing: Option<RequestBodyLimit>) -> (r: Self)
        ensures
            match existing {
                Some(limit) => r == limit,
                None => r.bound() == Some(DEFAULT_BODY_LIMIT),
            },
    {
        match existing {
            Some(limit) => limit,
            None => RequestBodyLimit::default(),
        }
    }
}

impl Default for RequestBodyLimit {
    fn default() -> (r: Self)
        ensures
            r.bound() == Some(DEFAULT_BODY_LIMIT),
    {
        RequestBodyLimit::new(DEFAULT_BODY_LIMIT)
    }
}

/// Overrides how many request-body bytes the body extractors may buffer.
///
/// The middleware only publishes the limit with the request; what reads a body looks it up there.
#[derive(Debug, Clone, Copy)]
pub struct BodyLimit(RequestBodyLimit);

impl Default for BodyLimit {
    fn default() -> (r: Self)
        ensures
            r.published().bound() == Some(DEFAULT_BODY_LIMIT),
    {
        BodyLimit(RequestBodyLimit::default())
    }
}

impl BodyLimit {
    /// The limit this middleware publishes.
    pub closed spec fn published(&self) -> RequestBodyLimit {
        self.0
    }

    /// Cap request bodies at `max_bytes`.
    pub fn max(max_bytes: usize) -> (r: Self)
        ensures
            r.published().bound() == Some(max_bytes),
    {
        BodyLimit(RequestBodyLimit::new(max_bytes))
    }

    /// Remove the cap entirely, for endpoints that accept large uploads.
    pub fn disabled() -> (r: Self)
        ensures
            r.published().bound() is None,
    {
        BodyLimit(RequestBodyLimit::disabled())
    }

    /// The limit this middleware publishes.
    pub fn limit(self) -> (r: RequestBodyLimit)
        ensures
            r == self.published(),
    {
        self.0
    }
}

/// Raised when an endpoint did not answer within its [`Timeout`].
#[derive(Debug, Clone, Copy)]
pub struct RequestTimeout;

impl RequestTimeout {
    /// The error's text.
    pub fn message(&self) -> (r: String)
        ensures
            r@ == "The request took too long to process."@,
    {
        copy_text("The request took too long to process.")
    }

    /// The status the error is answered with.
    pub fn status(&self) -> (r: u16)
        ensures
            r == 408,
    {
        408
    }
}

/// Abandons a request that takes longer than the configured budget.
#[derive(Debug, Clone, Copy)]
pub struct Timeout(Duration);

/// Which of an endpoint and its deadline came first.
#[derive(Debug, Clone, Copy, PartialEq, Eq)]
pub enum Race<R> {
    /// The endpoint answered.
    Answered(R),
    /// The budget elapsed.
    Elapsed,
}

impl Timeout {
    /// The configured budget.
    pub closed spec fn allowed(&self) -> Duration {
        self.0
    }

    /// Give each request `budget` to produce a response.
    pub fn new(budget: Duration) -> (r: Self)
        ensures
            r.allowed() == budget,
    {
        Timeout(budget)
    }

    /// The configured budget.
    pub fn budget(self) -> (r: Duration)
        ensures
            r == self.allowed(),
    {
        self.0
    }

    /// What a request is answered with, once either it or its deadline came first.
    pub fn outcome<R>(&self, race: Race<R>) -> (r: Result<R, RequestTimeout>)
        ensures
            match race {
                Race::Answered(response) => r == Ok::<R, RequestTimeout>(response),
                Race::Elapsed => r is Err,
            },
    {
        match race {
            Race::Answered(response) => Ok(response),
            Race::Elapsed => Err(RequestTimeout),
        }
    }
}

} // verus!
