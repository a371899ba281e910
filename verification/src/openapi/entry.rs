//! What a route contributes to the OpenAPI document.

use vstd::prelude::*;

verus! {

/// Handler metadata attached to each endpoint.
#[derive(Debug)]
pub struct RouteHandlerDoc {
    /// Fully qualified name of the handler's type.
    pub handler_type: String,
    /// Where the handler's specification stands in the registry, if it registered one.
    pub spec: Option<usize>,
}

impl RouteHandlerDoc {
    /// An equal value.
    pub fn copy(&self) -> (r: Self)
        ensures
            r == *self,
    {
        RouteHandlerDoc { handler_type: self.handler_type.clone(), spec: self.spec }
    }
}

/// Route metadata stored for the OpenAPI document.
#[derive(Debug)]
pub struct RouteOpenApiEntry {
    /// HTTP path served by the handler.
    pub path: String,
    /// HTTP method associated with the handler.
    pub method: String,
    /// Handler documentation.
    pub handler: RouteHandlerDoc,
}

/// An entry with its texts as sequences of characters.
#[verifier::ext_equal]
pub struct EntryView {
    /// See [`RouteOpenApiEntry::path`].
    pub path: Seq<char>,
    /// See [`RouteOpenApiEntry::method`].
    pub method: Seq<char>,
    /// See [`RouteOpenApiEntry::handler`].
    pub handler: RouteHandlerDoc,
}

impl View for RouteOpenApiEntry {
    type V = EntryView;

    open spec fn view(&self) -> EntryView {
        EntryView { path: self.path@, method: self.method@, handler: self.handler }
    }
}

/// The entries of a list.
pub open spec fn entry_views(entries: Seq<RouteOpenApiEntry>) -> Seq<EntryView> {
    entries.map_values(|e: RouteOpenApiEntry| e@)
}

impl RouteOpenApiEntry {
    /// Construct a new entry describing a route and handler pair.
    pub fn new(path: String, method: String, handler: RouteHandlerDoc) -> (r: Self)
        ensures
            r@ == (EntryView { path: path@, method: method@, handler }),
    {
        RouteOpenApiEntry { path, method, handler }
    }
}

} // verus!
