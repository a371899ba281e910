//! Headers with a type of their own.

use vstd::prelude::*;
#[allow(unused_imports)]
use vstd::string::StringExecFns;

use crate::openapi::schema::{ExtractorSchema, ParameterLocation};
use crate::text::copy_text;

verus! {

/// Reads or writes one header through its typed representation.
#[derive(Debug, Clone, Copy, PartialEq, Eq, PartialOrd, Ord, Hash)]
pub struct TypedHeader<H>(pub H);

/// Raised when a typed header is absent or unparseable.
#[derive(Debug)]
pub enum TypedHeaderError {
    /// The request carries no such header.
    Missing(String),
    /// The header is present but does not parse as its declared type.
    Invalid(String),
}

impl TypedHeaderError {
    /// The error's text.
    pub fn message(&self) -> (r: String)
        ensures
            r@ == match self {
                TypedHeaderError::Missing(name) => "Missing required header `"@ + name@ + "`"@,
                TypedHeaderError::Invalid(name) => "Header `"@ + name@ + "` is malformed"@,
            },
    {
        match self {
            TypedHeaderError::Missing(name) => {
                let mut text = copy_text("Missing required header `");
                text.append(name.as_str());
                text.append("`");
                text
            },
            TypedHeaderError::Invalid(name) => {
                let mut text = copy_text("Header `");
                text.append(name.as_str());
                text.append("` is malformed");
                text
            },
        }
    }

    /// The status the error is answered with.
    pub fn status(&self) -> (r: u16)
        ensures
            r == 400,
    {
        400
    }
}

impl<H> TypedHeader<H> {
    /// What the extractor contributes to the OpenAPI document, given the schema of a plain string.
    pub fn openapi(plain_string: usize) -> (r: ExtractorSchema)
        ensures
            r.location == ParameterLocation::Header,
            r.content_type is None,
            r.schema == Some(plain_string),
    {
        ExtractorSchema {
            location: ParameterLocation::Header,
            content_type: None,
            schema: Some(plain_string),
        }
    }

    /// What a handler extracts, given whether the header is present and what it decodes to.
    ///
    /// Decoding cannot tell a missing header from an unparseable one, so presence decides first.
    pub fn extract(name: &str, present: bool, decoded: Option<H>) -> (r: Result<
        TypedHeader<H>,
        TypedHeaderError,
    >)
        ensures
            match r {
                Ok(header) => present && decoded == Some(header.0),
                Err(TypedHeaderError::Missing(missing)) => !present && missing@ == name@,
                Err(TypedHeaderError::Invalid(invalid)) => present && decoded is None && invalid@
                    == name@,
            },
    {
        if !present {
            return Err(TypedHeaderError::Missing(copy_text(name)));
        }
        match decoded {
            Some(header) => Ok(TypedHeader(header)),
            None => Err(TypedHeaderError::Invalid(copy_text(name))),
        }
    }
}

} // verus!
