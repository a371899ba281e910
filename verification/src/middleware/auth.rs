//! The identity established for a request.

use vstd::prelude::*;

use crate::routing::router::{Layer, Requirement};
use crate::text::copy_text;

verus! {

/// The identity the authentication middleware established for the current request.
///
/// Its place with the request is its own: application state of the same type does not share it.
#[derive(Debug, Clone)]
pub struct AuthUser<U>(pub U);

/// Raised when a handler asks for the authenticated user but no authenticator ran.
#[derive(Debug, Clone, Copy)]
pub struct NotAuthenticated;

impl NotAuthenticated {
    /// The error's text.
    pub fn message(&self) -> (r: String)
        ensures
            r@ == "Not authenticated."@,
    {
        copy_text("Not authenticated.")
    }

    /// The status the error is answered with.
    pub fn status(&self) -> (r: u16)
        ensures
            r == 401,
    {
        401
    }
}

impl<U> AuthUser<U> {
    /// The user a handler extracts from what was stored with the request.
    pub fn extract(stored: Option<AuthUser<U>>) -> (r: Result<AuthUser<U>, NotAuthenticated>)
        ensures
            match stored {
                Some(user) => r == Ok::<AuthUser<U>, NotAuthenticated>(user),
                None => r is Err,
            },
    {
        match stored {
            Some(user) => Ok(user),
            None => Err(NotAuthenticated),
        }
    }
}

/// What a handler that extracts the authenticated user needs of its route.
pub fn auth_requirement(key: u64, description: &str) -> (r: Requirement)
    ensures
        r.key == key,
        r.description@ == description@,
        r.hint@ == "`.with(AuthMiddleware::new(authenticator))`"@,
{
    Requirement {
        key,
        description: copy_text(description),
        hint: copy_text("`.with(AuthMiddleware::new(authenticator))`"),
    }
}

/// Authenticates requests.
#[derive(Debug, Clone, Copy)]
pub struct AuthMiddleware<A> {
    authenticator: A,
}

/// What the runtime does once an authenticator decided.
#[derive(Debug)]
pub enum AuthAction<U, E> {
    /// Store the user with the request and go on.
    Proceed(AuthUser<U>),
    /// Answer with the authenticator's error; nothing further runs.
    Reject(E),
}

impl<A> AuthMiddleware<A> {
    /// What decides who the user is.
    pub closed spec fn decider(&self) -> A {
        self.authenticator
    }

    /// An authentication middleware.
    pub fn new(authenticator: A) -> (r: Self)
        ensures
            r.decider() == authenticator,
    {
        AuthMiddleware { authenticator }
    }

    /// What decides who the user is.
    pub fn authenticator(&self) -> (r: &A)
        ensures
            *r == self.decider(),
    {
        &self.authenticator
    }

    /// The layer this middleware is in a route: it provides the authenticated user.
    pub fn as_layer(&self, id: u64, user_key: u64) -> (r: Layer)
        ensures
            r.id == id,
            r.provisions@ == seq![user_key],
    {
        let mut provisions: Vec<u64> = Vec::new();
        provisions.push(user_key);
        assert(provisions@ =~= seq![user_key]);
        Layer { id, provisions }
    }

    /// What follows from the authenticator's decision.
    pub fn decide<U, E>(&self, decision: Result<U, E>) -> (r: AuthAction<U, E>)
        ensures
            match decision {
                Ok(user) => r == AuthAction::<U, E>::Proceed(AuthUser(user)),
                Err(error) => r == AuthAction::<U, E>::Reject(error),
            },
    {
        match decision {
            Ok(user) => AuthAction::Proceed(AuthUser(user)),
            Err(error) => AuthAction::Reject(error),
        }
    }
}

} // verus!
