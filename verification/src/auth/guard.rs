//! Role-based authorization guards.

use vstd::prelude::*;

use crate::text::copy_text;

verus! {

/// Types that can provide role information.
pub trait HasRoles {
    /// Whether asking for a role may be answered so; an implementation that does not say leaves both
    /// answers open.
    open spec fn may_answer(&self, role: Seq<char>, answer: bool) -> bool {
        true
    }

    /// Check if the user has the specified role.
    fn has_role(&self, role: &str) -> (r: bool)
        ensures
            self.may_answer(role@, r),
    ;
}

/// Guards that require a role.
pub trait RoleExtractor {
    /// The role this guard requires.
    spec fn required_role() -> Seq<char>;

    /// The role this guard requires.
    fn role() -> (r: &'static str)
        ensures
            r@ == Self::required_role(),
    ;
}

/// Error returned when authorization fails.
#[derive(Debug, Clone, Copy, PartialEq, Eq)]
pub enum AuthorizationError {
    /// The user is not authenticated.
    NotAuthenticated,
    /// The user does not have the required role.
    Forbidden,
}

impl AuthorizationError {
    /// The error's text.
    pub fn message(&self) -> (r: String)
        ensures
            r@ == match self {
                AuthorizationError::NotAuthenticated => "User not authenticated"@,
                AuthorizationError::Forbidden => "Insufficient permissions"@,
            },
    {
        match self {
            AuthorizationError::NotAuthenticated => copy_text("User not authenticated"),
            AuthorizationError::Forbidden => copy_text("Insufficient permissions"),
        }
    }

    /// The status the error is answered with.
    pub fn status(&self) -> (r: u16)
        ensures
            r == match self {
                AuthorizationError::NotAuthenticated => 401u16,
                AuthorizationError::Forbidden => 403,
            },
    {
        match self {
            AuthorizationError::NotAuthenticated => 401,
            AuthorizationError::Forbidden => 403,
        }
    }
}

/// Whether this may become of a request that needs a role: without a user it is not authenticated, a
/// user who is said to have the role is let through, and one who is said not to is refused.
pub open spec fn may_authorize<U: HasRoles>(
    user: Option<U>,
    role: Seq<char>,
    r: Result<U, AuthorizationError>,
) -> bool {
    match user {
        None => r == Err::<U, AuthorizationError>(AuthorizationError::NotAuthenticated),
        Some(user) => {
            ||| user.may_answer(role, true) && r == Ok::<U, AuthorizationError>(user)
            ||| user.may_answer(role, false) && r == Err::<U, AuthorizationError>(
                AuthorizationError::Forbidden,
            )
        },
    }
}

/// Let a user through who has a role.
pub fn require_role<U: HasRoles>(user: Option<U>, role: &str) -> (r: Result<U, AuthorizationError>)
    ensures
        may_authorize(user, role@, r),
{
    match user {
        None => Err(AuthorizationError::NotAuthenticated),
        Some(user) => if user.has_role(role) {
            Ok(user)
        } else {
            Err(AuthorizationError::Forbidden)
        },
    }
}

/// A user with the role `admin`.
#[derive(Debug, Clone)]
pub struct Admin<U>(pub U);

impl<U> RoleExtractor for Admin<U> {
    open spec fn required_role() -> Seq<char> {
        "admin"@
    }

    fn role() -> (r: &'static str) {
        "admin"
    }
}

impl<U: HasRoles> Admin<U> {
    /// The user stored with the request, if there is one and it has the role `admin`.
    pub fn extract(stored: Option<U>) -> (r: Result<Admin<U>, AuthorizationError>)
        ensures
            may_authorize(
                stored,
                "admin"@,
                match r {
                    Ok(admin) => Ok(admin.0),
                    Err(error) => Err(error),
                },
            ),
    {
        match require_role(stored, <Admin<U> as RoleExtractor>::role()) {
            Ok(user) => Ok(Admin(user)),
            Err(error) => Err(error),
        }
    }
}

/// Whoever is let through was said to have the role, and is the user of the request; where one answer
/// alone is possible, it decides. Without a user the request is not authenticated, and a user who is
/// not let through is forbidden.
pub proof fn only_holders_pass<U: HasRoles>(
    user: Option<U>,
    role: Seq<char>,
    r: Result<U, AuthorizationError>,
)
    requires
        may_authorize(user, role, r),
    ensures
        r is Ok ==> user == Some(r->Ok_0) && user->0.may_answer(role, true),
        user is Some && !user->0.may_answer(role, true) ==> r == Err::<U, AuthorizationError>(
            AuthorizationError::Forbidden,
        ),
        user is Some && !user->0.may_answer(role, false) ==> r is Ok,
        user is None ==> r == Err::<U, AuthorizationError>(AuthorizationError::NotAuthenticated),
        user is Some && r is Err ==> r == Err::<U, AuthorizationError>(
            AuthorizationError::Forbidden,
        ),
{
}

} // verus!
