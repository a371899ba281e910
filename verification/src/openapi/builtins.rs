//! What the built-in wrappers describe of themselves.

use std::marker::PhantomData;

use vstd::prelude::*;

use crate::openapi::schema::{ExtractorSchema, ParameterLocation, ResponseSchema, SchemaRef};
#[allow(unused_imports)]
use crate::text::optional_text;
use crate::text::copy_text;

verus! {

/// A type that describes its own schema.
pub trait PartialSchema {
    /// Whether the type may declare a schema; an implementation that does not say leaves it open.
    open spec fn may_declare(schema: SchemaRef) -> bool {
        true
    }

    /// The schema the type declares.
    fn schema() -> (r: SchemaRef)
        ensures
            Self::may_declare(r),
    ;
}

/// Query string parameters read into a value.
#[derive(Debug, Clone, Copy)]
pub struct Query<T>(pub T);

/// A form body read into a value.
#[derive(Debug, Clone, Copy)]
pub struct Form<T>(pub T);

/// A JSON body read into a value.
#[derive(Debug, Clone, Copy)]
pub struct Json<T>(pub T);

/// A JSON body rendered with indentation.
#[derive(Debug, Clone, Copy)]
pub struct PrettyJson<T>(pub T);

/// Application state shared with handlers.
#[derive(Debug, Clone, Copy)]
pub struct State<T>(pub T);

/// Wrapper that explicitly opts out of OpenAPI schema generation.
#[derive(Debug, Clone, Copy)]
pub struct IgnoreOpenApi<T>(pub T);

impl<T: PartialSchema> PartialSchema for Query<T> {
    open spec fn may_declare(schema: SchemaRef) -> bool {
        T::may_declare(schema)
    }

    fn schema() -> (r: SchemaRef) {
        T::schema()
    }
}

impl<T: PartialSchema> PartialSchema for Form<T> {
    open spec fn may_declare(schema: SchemaRef) -> bool {
        T::may_declare(schema)
    }

    fn schema() -> (r: SchemaRef) {
        T::schema()
    }
}

impl<T: PartialSchema> PartialSchema for Json<T> {
    open spec fn may_declare(schema: SchemaRef) -> bool {
        T::may_declare(schema)
    }

    fn schema() -> (r: SchemaRef) {
        T::schema()
    }
}

impl<T: PartialSchema> PartialSchema for PrettyJson<T> {
    open spec fn may_declare(schema: SchemaRef) -> bool {
        T::may_declare(schema)
    }

    fn schema() -> (r: SchemaRef) {
        T::schema()
    }
}

impl<T> PartialSchema for State<T> {
    open spec fn may_declare(schema: SchemaRef) -> bool {
        schema == SchemaRef::Anything
    }

    fn schema() -> (r: SchemaRef) {
        SchemaRef::Anything
    }
}

impl<T> PartialSchema for IgnoreOpenApi<T> {
    open spec fn may_declare(schema: SchemaRef) -> bool {
        schema == SchemaRef::Anything
    }

    fn schema() -> (r: SchemaRef) {
        SchemaRef::Anything
    }
}

impl<T> Query<T> {
    /// What the extractor contributes to the OpenAPI document, given the schema of its value.
    pub fn openapi(schema: Option<usize>) -> (r: ExtractorSchema)
        ensures
            r.location == ParameterLocation::Query,
            r.content_type is None,
            r.schema == schema,
    {
        ExtractorSchema { location: ParameterLocation::Query, content_type: None, schema }
    }
}

impl<T> PrettyJson<T> {
    /// What the responder contributes to the OpenAPI document, given the schema of its value.
    pub fn openapi(schema: Option<usize>) -> (r: ResponseSchema)
        ensures
            r.status is None,
            r.description is None,
            r.schema == schema,
            optional_text(r.content_type) == Some("application/json"@),
    {
        ResponseSchema {
            status: None,
            description: None,
            schema,
            content_type: Some(copy_text("application/json")),
        }
    }
}

/// The kind of value a built-in schema describes.
#[derive(Debug, Clone, Copy, PartialEq, Eq)]
pub enum SimpleType {
    /// A string.
    Text,
    /// An object.
    Object,
}

/// The schema of a built-in extractor.
#[derive(Debug, Clone, Copy)]
pub struct SimpleSchema {
    /// The kind of value.
    pub kind: SimpleType,
    /// The title, if it has one.
    pub title: Option<&'static str>,
    /// What the value is.
    pub description: &'static str,
}

/// A string with a description.
pub fn string_schema(description: &'static str) -> (r: SimpleSchema)
    ensures
        r == (SimpleSchema { kind: SimpleType::Text, title: None, description }),
{
    SimpleSchema { kind: SimpleType::Text, title: None, description }
}

/// An object with a title and a description.
pub fn object_schema(title: &'static str, description: &'static str) -> (r: SimpleSchema)
    ensures
        r == (SimpleSchema { kind: SimpleType::Object, title: Some(title), description }),
{
    SimpleSchema { kind: SimpleType::Object, title: Some(title), description }
}

/// The schema of all route parameters.
pub fn params_schema() -> (r: SimpleSchema)
    ensures
        r.kind == SimpleType::Object,
        r.title matches Some(title) && title@ == "Params"@,
        r.description@ == "Route parameters extracted from the current path"@,
{
    object_schema("Params", "Route parameters extracted from the current path")
}

/// The schema of the client's address.
pub fn client_ip_schema() -> (r: SimpleSchema)
    ensures
        r.kind == SimpleType::Text,
        r.title is None,
        r.description@ == "Client IP address (may be forwarded)"@,
{
    string_schema("Client IP address (may be forwarded)")
}

/// The schema of the address of the connection's other end.
pub fn peer_addr_schema() -> (r: SimpleSchema)
    ensures
        r.kind == SimpleType::Text,
        r.title is None,
        r.description@ == "Peer socket address reported by the transport"@,
{
    string_schema("Peer socket address reported by the transport")
}

/// Asks whether `T` describes itself without requiring that it does.
#[derive(Debug)]
pub struct SchemaProbe<T>(pub PhantomData<T>);

impl<T> SchemaProbe<T> {
    /// Build a probe for `T`.
    pub fn new() -> (r: Self)
        ensures
            r == (SchemaProbe::<T>(PhantomData)),
    {
        SchemaProbe(PhantomData)
    }
}

impl<T: PartialSchema> SchemaProbe<T> {
    /// The schema `T` declares.
    pub fn maybe_schema(&self) -> (r: Option<SchemaRef>)
        ensures
            r matches Some(schema) && T::may_declare(schema),
    {
        Some(T::schema())
    }
}

} // verus!
