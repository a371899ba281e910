//! Schemas as the document's assembly sees them.
//!
//! A schema that a type declares is known by its position in a list that the application keeps.
//! The assembly only needs to know which of them are inline objects, and with what properties.

use vstd::prelude::*;

use crate::text::copy_option;

verus! {

/// A schema in the document.
#[derive(Clone, Copy, Debug, PartialEq, Eq)]
pub enum SchemaRef {
    /// A declared schema, by its position in the application's list.
    Declared(usize),
    /// A plain string.
    Text,
    /// Anything at all.
    Anything,
}

/// What the assembly reads of a declared schema.
#[derive(Debug)]
pub enum SchemaShape {
    /// An inline schema of one type; only that of an object has properties.
    Object {
        /// The properties, by name, with the positions of their schemas.
        properties: Vec<(String, usize)>,
        /// The names of the properties that must be present.
        required: Vec<String>,
    },
    /// Anything else, or a reference.
    Other,
}

/// Where an extractor reads its data from.
#[derive(Clone, Copy, Debug, PartialEq, Eq, Structural)]
pub enum ParameterLocation {
    /// Read from the request body.
    Body,
    /// Read from the URL query string.
    Query,
    /// Read from a request header.
    Header,
    /// Read from the route's captured path segments.
    Path,
}

/// Schema information captured for an extractor argument.
#[derive(Debug)]
pub struct ExtractorSchema {
    /// Where the extractor sources its data.
    pub location: ParameterLocation,
    /// Content type associated with the extractor, if any.
    pub content_type: Option<String>,
    /// The declared schema describing the extractor payload.
    pub schema: Option<usize>,
}

impl ExtractorSchema {
    /// An equal value.
    pub fn copy(&self) -> (r: Self)
        ensures
            r == *self,
    {
        ExtractorSchema {
            location: self.location,
            content_type: copy_option(&self.content_type),
            schema: self.schema,
        }
    }
}

/// Schema information captured for a responder.
#[derive(Debug)]
pub struct ResponseSchema {
    /// HTTP status code returned by the responder, or 200 by default.
    pub status: Option<u16>,
    /// Description associated with the response.
    pub description: Option<String>,
    /// The declared schema describing the response payload.
    pub schema: Option<usize>,
    /// Content type returned by the responder, if known.
    pub content_type: Option<String>,
}

impl ResponseSchema {
    /// An equal value.
    pub fn copy(&self) -> (r: Self)
        ensures
            r == *self,
    {
        ResponseSchema {
            status: self.status,
            description: copy_option(&self.description),
            schema: self.schema,
            content_type: copy_option(&self.content_type),
        }
    }
}

} // verus!
