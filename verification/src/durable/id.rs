//! Durable Object identity.

use vstd::prelude::*;

#[allow(unused_imports)]
use crate::text::{optional_str, optional_text};

verus! {

/// The unique identity of a Durable Object instance.
#[derive(Debug, Clone)]
pub struct DurableObjectId {
    id: String,
    name: Option<String>,
}

impl DurableObjectId {
    /// The string representation of this ID.
    pub closed spec fn text(&self) -> Seq<char> {
        self.id@
    }

    /// The name used to derive this ID, if any.
    pub closed spec fn given_name(&self) -> Option<Seq<char>> {
        optional_text(self.name)
    }

    /// An ID from its string representation.
    pub fn new(id: String, name: Option<String>) -> (r: Self)
        ensures
            r.text() == id@,
            r.given_name() == optional_text(name),
    {
        DurableObjectId { id, name }
    }

    /// The string representation of this ID.
    pub fn as_str(&self) -> (r: &str)
        ensures
            r@ == self.text(),
    {
        self.id.as_str()
    }

    /// The name used to derive this ID, if any.
    pub fn name(&self) -> (r: Option<&str>)
        ensures
            optional_str(r) == self.given_name(),
    {
        match &self.name {
            Some(name) => Some(name.as_str()),
            None => None,
        }
    }
}

} // verus!
