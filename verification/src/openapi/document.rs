//! The operations of an OpenAPI document, assembled from what routes and handlers declare.

use vstd::prelude::*;
#[allow(unused_imports)]
use vstd::string::StringExecFns;

use crate::openapi::entry::RouteOpenApiEntry;
#[allow(unused_imports)]
use crate::openapi::entry::{entry_views, EntryView};
#[allow(unused_imports)]
use crate::openapi::registry::{definitions, the_first_definition_stays, with_definitions};
use crate::openapi::registry::{Components, HandlerSpec};
use crate::openapi::schema::{
    ExtractorSchema, ParameterLocation, ResponseSchema, SchemaRef, SchemaShape,
};
use crate::routing::router::{lists, MethodFilter, Route, RouteNode, RouteNodeType};
#[allow(unused_imports)]
use crate::routing::router::{mountable, mountable_node};
#[allow(unused_imports)]
use crate::routing::tree::node_entries;
use crate::routing::tree::RouteWithAlarm;
#[allow(unused_imports)]
use crate::text::{
    a_text_without_padding_stays, find, is_blank_text, join, joined_pieces_come_apart,
    lemma_find_bounds, lemma_find_contains, lemma_find_shift, precedes, precedes_is_a_total_order,
    split, texts, trim, trimming_leaves_no_padding,
};
use crate::text::{
    chars_of, copy_option, copy_text, find_char, join_texts, same, slice_text, split_text,
    text_precedes, trim_text, Padding,
};

verus! {

/// The index of the first double colon in `s` at or after `from`, or the length.
pub open spec fn double_colon(s: Seq<char>, from: int) -> int
    decreases s.len() - from,
{
    if from < 0 || from + 1 >= s.len() {
        s.len() as int
    } else if s[from] == ':' && s[from + 1] == ':' {
        from
    } else {
        double_colon(s, from + 1)
    }
}

/// A module path without its crate.
pub open spec fn without_crate(path: Seq<char>) -> Seq<char> {
    let at = double_colon(path, 0);
    if at < path.len() {
        path.skip(at + 2)
    } else {
        path
    }
}

/// Strip the crate prefix from a module path, e.g. `my_crate::users::get` becomes `users::get`.
pub fn trim_crate(path: &str) -> (r: &str)
    ensures
        r@ == without_crate(path@),
{
    let chars = chars_of(path);
    let mut i: usize = 0;
    while chars.len() - i > 1
        invariant
            i <= chars.len(),
            chars@ == path@,
            double_colon(path@, 0) == double_colon(path@, i as int),
        decreases chars.len() - i,
    {
        if chars[i] == ':' && chars[i + 1] == ':' {
            assert(path@.skip(i + 2) =~= path@.subrange(i + 2, path@.len() as int));
            return path.substring_char(i + 2, chars.len());
        }
        i = i + 1;
    }
    path
}

/// The names of the `{name}` and `{*wildcard}` segments of a path, from index `from` on.
pub open spec fn names_from(path: Seq<char>, from: int) -> Seq<Seq<char>>
    decreases path.len() - from,
    when 0 <= from <= path.len()
    via names_from_decreases
{
    let start = find(path, '{', from);
    if start >= path.len() {
        Seq::empty()
    } else {
        let end = find(path, '}', start + 1);
        if end >= path.len() {
            Seq::empty()
        } else {
            let raw = path.subrange(start + 1, end);
            let name = if raw.len() > 0 && raw[0] == '*' {
                raw.skip(1)
            } else {
                raw
            };
            if name.len() > 0 {
                seq![name] + names_from(path, end + 1)
            } else {
                names_from(path, end + 1)
            }
        }
    }
}

#[via_fn]
proof fn names_from_decreases(path: Seq<char>, from: int) {
    lemma_find_bounds(path, '{', from);
    let start = find(path, '{', from);
    if start < path.len() {
        lemma_find_bounds(path, '}', start + 1);
    }
}

/// Extract the names of `{name}` and `{*wildcard}` segments from a route path.
pub fn path_parameter_names(path: &str) -> (r: Vec<String>)
    ensures
        texts(r@) == names_from(path@, 0),
{
    let chars = chars_of(path);
    let mut names: Vec<String> = Vec::new();
    let mut from: usize = 0;
    assert(texts(names@) + names_from(path@, 0) =~= names_from(path@, 0));
    loop
        invariant
            chars@ == path@,
            from <= chars.len(),
            texts(names@) + names_from(path@, from as int) == names_from(path@, 0),
        decreases chars.len() - from,
    {
        let start = find_char(&chars, '{', from);
        if start >= chars.len() {
            assert(texts(names@) + Seq::<Seq<char>>::empty() =~= texts(names@));
            return names;
        }
        let end = find_char(&chars, '}', start + 1);
        if end >= chars.len() {
            assert(texts(names@) + Seq::<Seq<char>>::empty() =~= texts(names@));
            return names;
        }
        let ghost raw = path@.subrange(start + 1, end as int);
        let ghost rest = names_from(path@, end + 1);
        let first = if start + 1 < end && chars[start + 1] == '*' {
            start + 2
        } else {
            start + 1
        };
        let name = slice_text(&chars, first, end);
        proof {
            if raw.len() > 0 && raw[0] == '*' {
                assert(name@ =~= raw.skip(1));
            } else {
                assert(name@ =~= raw);
            }
        }
        if first < end {
            let ghost before = texts(names@);
            names.push(name);
            assert(texts(names@) + rest =~= before + (seq![name@] + rest));
        }
        from = end + 1;
    }
}

/// Whether a line of documentation is blank.
pub open spec fn is_blank(line: Seq<char>) -> bool {
    trim(line, Padding::WhiteSpace).len() == 0
}

/// The lines of the first paragraph, trimmed, given the lines from `from` on and those of the
/// paragraph before them.
pub open spec fn paragraph(
    lines: Seq<Seq<char>>,
    from: int,
    sofar: Seq<Seq<char>>,
) -> Seq<Seq<char>>
    decreases lines.len() - from,
{
    if from < 0 || from >= lines.len() {
        sofar
    } else if is_blank(lines[from]) {
        if sofar.len() > 0 {
            sofar
        } else {
            paragraph(lines, from + 1, sofar)
        }
    } else {
        paragraph(lines, from + 1, sofar.push(trim(lines[from], Padding::WhiteSpace)))
    }
}

/// The first paragraph of a documentation text, on one line.
pub open spec fn summary_of(docs: Seq<char>) -> Option<Seq<char>> {
    let lines = paragraph(split(docs, '\n'), 0, Seq::empty());
    if lines.len() == 0 {
        None
    } else {
        Some(join(lines, " "@))
    }
}

/// The first paragraph of a documentation text, on one line.
pub fn doc_summary(docs: &str) -> (r: Option<String>)
    ensures
        match r {
            Some(summary) => summary_of(docs@) == Some(summary@),
            None => summary_of(docs@) is None,
        },
{
    let lines = split_text(docs, '\n');
    let mut kept: Vec<String> = Vec::new();
    let ghost all = split(docs@, '\n');
    let mut i: usize = 0;
    assert(texts(kept@) =~= Seq::empty());
    while i < lines.len()
        invariant_except_break
            i <= lines.len(),
            all == texts(lines@),
            paragraph(all, 0, Seq::empty()) == paragraph(all, i as int, texts(kept@)),
        ensures
            paragraph(all, 0, Seq::empty()) == texts(kept@),
        decreases lines.len() - i,
    {
        assert(all[i as int] == lines@[i as int]@);
        let trimmed = trim_text(lines[i].as_str(), Padding::WhiteSpace);
        if trimmed.as_str().is_empty() {
            if kept.len() > 0 {
                break;
            }
        } else {
            let ghost before = texts(kept@);
            kept.push(trimmed);
            assert(texts(kept@) =~= before.push(trimmed@));
        }
        i = i + 1;
    }
    if kept.len() == 0 {
        None
    } else {
        Some(join_texts(&kept, " "))
    }
}

/// The operations that a path item of the document can hold.
#[derive(Clone, Copy, Debug, PartialEq, Eq)]
pub enum HttpMethod {
    /// `GET`
    Get,
    /// `POST`
    Post,
    /// `PUT`
    Put,
    /// `DELETE`
    Delete,
    /// `PATCH`
    Patch,
    /// `OPTIONS`
    Options,
    /// `HEAD`
    Head,
    /// `TRACE`
    Trace,
}

/// The operation a method is documented as, if it can be.
pub open spec fn operation_kind(method: Seq<char>) -> Option<HttpMethod> {
    if method == "GET"@ {
        Some(HttpMethod::Get)
    } else if method == "POST"@ {
        Some(HttpMethod::Post)
    } else if method == "PUT"@ {
        Some(HttpMethod::Put)
    } else if method == "DELETE"@ {
        Some(HttpMethod::Delete)
    } else if method == "PATCH"@ {
        Some(HttpMethod::Patch)
    } else if method == "OPTIONS"@ {
        Some(HttpMethod::Options)
    } else if method == "HEAD"@ {
        Some(HttpMethod::Head)
    } else if method == "TRACE"@ {
        Some(HttpMethod::Trace)
    } else {
        None
    }
}

/// The operation a method is documented as, if it can be.
pub fn method_to_http_method(method: &str) -> (r: Option<HttpMethod>)
    ensures
        r == operation_kind(method@),
{
    if same(method, "GET") {
        Some(HttpMethod::Get)
    } else if same(method, "POST") {
        Some(HttpMethod::Post)
    } else if same(method, "PUT") {
        Some(HttpMethod::Put)
    } else if same(method, "DELETE") {
        Some(HttpMethod::Delete)
    } else if same(method, "PATCH") {
        Some(HttpMethod::Patch)
    } else if same(method, "OPTIONS") {
        Some(HttpMethod::Options)
    } else if same(method, "HEAD") {
        Some(HttpMethod::Head)
    } else if same(method, "TRACE") {
        Some(HttpMethod::Trace)
    } else {
        None
    }
}

/// Description of a parameter along with its schema metadata.
#[derive(Debug)]
pub struct NamedExtractorSchema {
    /// Parameter name as captured from the handler signature.
    pub name: String,
    /// Schema metadata for the extractor.
    pub schema: ExtractorSchema,
}

/// A named schema with its name as a sequence of characters.
pub struct NamedView {
    /// See [`NamedExtractorSchema::name`].
    pub name: Seq<char>,
    /// See [`NamedExtractorSchema::schema`].
    pub schema: ExtractorSchema,
}

impl View for NamedExtractorSchema {
    type V = NamedView;

    open spec fn view(&self) -> NamedView {
        NamedView { name: self.name@, schema: self.schema }
    }
}

/// The named schemas of a list.
pub open spec fn named_views(named: Seq<NamedExtractorSchema>) -> Seq<NamedView> {
    named.map_values(|n: NamedExtractorSchema| n@)
}

/// Description of a single handler operation.
#[derive(Debug)]
pub struct OpenApiOperation {
    /// Path served by the handler.
    pub path: String,
    /// HTTP method for the handler.
    pub method: String,
    /// Handler type name.
    pub handler_type: String,
    /// Operation identifier used in the document.
    pub operation_id: String,
    /// Documentation extracted from the handler's doc comments.
    pub docs: Option<String>,
    /// Whether the handler is deprecated.
    pub deprecated: bool,
    /// Schemas describing the extractor arguments.
    pub parameters: Vec<NamedExtractorSchema>,
    /// Schemas describing all potential responses.
    pub responses: Vec<ResponseSchema>,
}

/// An operation with its parts as plain values.
#[verifier::ext_equal]
pub struct OperationView {
    /// See [`OpenApiOperation::path`].
    pub path: Seq<char>,
    /// See [`OpenApiOperation::method`].
    pub method: Seq<char>,
    /// See [`OpenApiOperation::handler_type`].
    pub handler_type: Seq<char>,
    /// See [`OpenApiOperation::operation_id`].
    pub operation_id: Seq<char>,
    /// See [`OpenApiOperation::docs`].
    pub docs: Option<String>,
    /// See [`OpenApiOperation::deprecated`].
    pub deprecated: bool,
    /// See [`OpenApiOperation::parameters`].
    pub parameters: Seq<NamedView>,
    /// See [`OpenApiOperation::responses`].
    pub responses: Seq<ResponseSchema>,
}

impl View for OpenApiOperation {
    type V = OperationView;

    open spec fn view(&self) -> OperationView {
        OperationView {
            path: self.path@,
            method: self.method@,
            handler_type: self.handler_type@,
            operation_id: self.operation_id@,
            docs: self.docs,
            deprecated: self.deprecated,
            parameters: named_views(self.parameters@),
            responses: self.responses@,
        }
    }
}

/// The operations of a list.
pub open spec fn operation_views(operations: Seq<OpenApiOperation>) -> Seq<OperationView> {
    operations.map_values(|o: OpenApiOperation| o@)
}

/// The documented parameters of a handler, up to argument `to`: those that describe themselves,
/// each with its name, or `param` where it has none.
pub open spec fn documented_parameters(
    parameters: Seq<Option<ExtractorSchema>>,
    names: Seq<String>,
    to: int,
) -> Seq<NamedView>
    decreases to,
{
    if to <= 0 || to > parameters.len() {
        Seq::empty()
    } else {
        let before = documented_parameters(parameters, names, to - 1);
        match parameters[to - 1] {
            Some(schema) => before.push(
                NamedView {
                    name: if to - 1 < names.len() {
                        names[to - 1]@
                    } else {
                        "param"@
                    },
                    schema,
                },
            ),
            None => before,
        }
    }
}

/// The operation a route contributes.
pub open spec fn operation_for(registry: Seq<HandlerSpec>, entry: RouteOpenApiEntry) -> OperationView {
    match entry.handler.spec {
        Some(at) => {
            let spec = registry[at as int];
            OperationView {
                path: entry.path@,
                method: entry.method@,
                handler_type: entry.handler.handler_type@,
                operation_id: spec.operation_name@,
                docs: spec.docs,
                deprecated: spec.deprecated,
                parameters: documented_parameters(
                    spec.parameters@,
                    spec.parameter_names@,
                    spec.parameters@.len() as int,
                ),
                responses: match spec.response {
                    Some(responses) => responses@,
                    None => Seq::empty(),
                },
            }
        },
        None => OperationView {
            path: entry.path@,
            method: entry.method@,
            handler_type: entry.handler.handler_type@,
            operation_id: without_crate(entry.handler.handler_type@),
            docs: None,
            deprecated: false,
            parameters: Seq::empty(),
            responses: Seq::empty(),
        },
    }
}

/// The components that the first `to` routes define together.
pub open spec fn components_for(
    registry: Seq<HandlerSpec>,
    entries: Seq<RouteOpenApiEntry>,
    to: int,
) -> Map<Seq<char>, usize>
    decreases to,
{
    if to <= 0 || to > entries.len() {
        Map::empty()
    } else {
        let before = components_for(registry, entries, to - 1);
        match entries[to - 1].handler.spec {
            Some(at) => with_definitions(before, definitions(registry[at as int].schemas@)),
            None => before,
        }
    }
}

/// Whether every route's handler has its specification in the registry.
pub open spec fn registered(registry: Seq<HandlerSpec>, entries: Seq<RouteOpenApiEntry>) -> bool {
    forall|i: int|
        0 <= i < entries.len() ==> ((#[trigger] entries[i]).handler.spec matches Some(at) ==> at
            < registry.len())
}

/// Minimal OpenAPI representation of a router.
#[derive(Debug)]
pub struct OpenApi {
    operations: Vec<OpenApiOperation>,
    schemas: Components,
}

/// The documented parameters of a handler.
fn collect_parameters(spec: &HandlerSpec) -> (r: Vec<NamedExtractorSchema>)
    ensures
        named_views(r@) == documented_parameters(
            spec.parameters@,
            spec.parameter_names@,
            spec.parameters@.len() as int,
        ),
{
    let mut out: Vec<NamedExtractorSchema> = Vec::new();
    let mut i: usize = 0;
    assert(named_views(out@) =~= Seq::empty());
    while i < spec.parameters.len()
        invariant
            i <= spec.parameters.len(),
            named_views(out@) == documented_parameters(
                spec.parameters@,
                spec.parameter_names@,
                i as int,
            ),
        decreases spec.parameters.len() - i,
    {
        if let Some(schema) = &spec.parameters[i] {
            let name = if i < spec.parameter_names.len() {
                spec.parameter_names[i].clone()
            } else {
                copy_text("param")
            };
            let ghost before = named_views(out@);
            out.push(NamedExtractorSchema { name, schema: schema.copy() });
            assert(named_views(out@) =~= before.push(NamedView { name: name@, schema: *schema }));
        }
        i = i + 1;
    }
    out
}

/// Copies of the responses a handler describes.
fn collect_responses(response: &Option<Vec<ResponseSchema>>) -> (r: Vec<ResponseSchema>)
    ensures
        r@ == match response {
            Some(responses) => responses@,
            None => Seq::empty(),
        },
{
    let mut out: Vec<ResponseSchema> = Vec::new();
    if let Some(responses) = response {
        let mut i: usize = 0;
        while i < responses.len()
            invariant
                i <= responses.len(),
                out@ == responses@.take(i as int),
            decreases responses.len() - i,
        {
            out.push(responses[i].copy());
            i = i + 1;
            assert(responses@.take(i as int) =~= responses@.take(i - 1).push(responses@[i - 1]));
        }
        assert(responses@.take(i as int) =~= responses@);
    }
    out
}

impl OpenApi {
    /// The operations.
    pub closed spec fn operation_list(&self) -> Seq<OperationView> {
        operation_views(self.operations@)
    }

    /// The named schemas.
    pub closed spec fn components(&self) -> Map<Seq<char>, usize> {
        self.schemas@
    }

    /// Whether the named schemas are sorted, each name once.
    pub closed spec fn wf(&self) -> bool {
        self.schemas.wf()
    }

    /// Build an instance from the collected route metadata.
    pub fn from_entries(registry: &Vec<HandlerSpec>, entries: &Vec<RouteOpenApiEntry>) -> (r: Self)
        requires
            registered(registry@, entries@),
        ensures
            r.wf(),
            r.operation_list() == entries@.map_values(
                |e: RouteOpenApiEntry| operation_for(registry@, e),
            ),
            r.components() == components_for(registry@, entries@, entries@.len() as int),
    {
        let mut schemas = Components::new();
        let mut operations: Vec<OpenApiOperation> = Vec::new();
        let ghost wanted = entries@.map_values(
            |e: RouteOpenApiEntry| operation_for(registry@, e),
        );
        let mut i: usize = 0;
        assert(operation_views(operations@) =~= wanted.take(0));
        while i < entries.len()
            invariant
                i <= entries.len(),
                registered(registry@, entries@),
                wanted == entries@.map_values(|e: RouteOpenApiEntry| operation_for(registry@, e)),
                operation_views(operations@) == wanted.take(i as int),
                schemas.wf(),
                schemas@ == components_for(registry@, entries@, i as int),
            decreases entries.len() - i,
        {
            let entry = &entries[i];
            let ghost before = operation_views(operations@);
            let operation = match entry.handler.spec {
                None => OpenApiOperation {
                    path: entry.path.clone(),
                    method: entry.method.clone(),
                    handler_type: entry.handler.handler_type.clone(),
                    operation_id: copy_text(trim_crate(entry.handler.handler_type.as_str())),
                    docs: None,
                    deprecated: false,
                    parameters: Vec::new(),
                    responses: Vec::new(),
                },
                Some(at) => {
                    let spec = &registry[at];
                    schemas.register_all(&spec.schemas);
                    OpenApiOperation {
                        path: entry.path.clone(),
                        method: entry.method.clone(),
                        handler_type: entry.handler.handler_type.clone(),
                        operation_id: spec.operation_name.clone(),
                        docs: copy_option(&spec.docs),
                        deprecated: spec.deprecated,
                        parameters: collect_parameters(spec),
                        responses: collect_responses(&spec.response),
                    }
                },
            };
            assert(operation@ =~= operation_for(registry@, *entry));
            operations.push(operation);
            i = i + 1;
            proof {
                assert(wanted[i - 1] == operation_for(registry@, entries@[i - 1]));
                assert(operation_views(operations@) =~= before.push(wanted[i - 1]));
                assert(wanted.take(i as int) =~= wanted.take(i - 1).push(wanted[i - 1]));
            }
        }
        assert(wanted.take(i as int) =~= wanted);
        OpenApi { operations, schemas }
    }

    /// Inspect the registered operations.
    pub fn operations(&self) -> (r: &Vec<OpenApiOperation>)
        ensures
            operation_views(r@) == self.operation_list(),
    {
        &self.operations
    }

    /// The named schemas.
    pub fn schemas(&self) -> (r: &Components)
        ensures
            r@ == self.components(),
            self.wf() ==> r.wf(),
    {
        &self.schemas
    }
}

/// Where a documented parameter is sent.
#[derive(Clone, Copy, Debug, PartialEq, Eq)]
pub enum ParameterIn {
    /// In the path.
    Path,
    /// In the query string.
    Query,
    /// In a header.
    Header,
}

/// A documented parameter.
#[derive(Debug)]
pub struct Parameter {
    /// Its name.
    pub name: String,
    /// Where it is sent.
    pub parameter_in: ParameterIn,
    /// Whether it must be present.
    pub required: bool,
    /// Its schema.
    pub schema: SchemaRef,
}

/// A documented parameter with its name as a sequence of characters.
pub struct ParameterView {
    /// See [`Parameter::name`].
    pub name: Seq<char>,
    /// See [`Parameter::parameter_in`].
    pub parameter_in: ParameterIn,
    /// See [`Parameter::required`].
    pub required: bool,
    /// See [`Parameter::schema`].
    pub schema: SchemaRef,
}

impl View for Parameter {
    type V = ParameterView;

    open spec fn view(&self) -> ParameterView {
        ParameterView {
            name: self.name@,
            parameter_in: self.parameter_in,
            required: self.required,
            schema: self.schema,
        }
    }
}

/// The parameters of a list.
pub open spec fn parameter_views(parameters: Seq<Parameter>) -> Seq<ParameterView> {
    parameters.map_values(|p: Parameter| p@)
}

/// The properties of a schema that is an inline object, with the names of those that are required.
pub open spec fn object_of(shapes: Seq<SchemaShape>, schema: usize) -> Option<
    (Seq<(Seq<char>, usize)>, Seq<Seq<char>>),
> {
    if schema < shapes.len() {
        match shapes[schema as int] {
            SchemaShape::Object { properties, required } => Some(
                (definitions(properties@), texts(required@)),
            ),
            SchemaShape::Other => None,
        }
    } else {
        None
    }
}

/// What is known of the types of path parameters after one more extractor: an object's properties
/// by their own names, anything else for the only parameter there is.
pub open spec fn typed_after(
    shapes: Seq<SchemaShape>,
    named: NamedView,
    names: Seq<Seq<char>>,
    before: Map<Seq<char>, SchemaRef>,
) -> Map<Seq<char>, SchemaRef> {
    if named.schema.location != ParameterLocation::Path {
        before
    } else {
        match named.schema.schema {
            None => before,
            Some(schema) => match object_of(shapes, schema) {
                Some((properties, required)) if properties.len() > 0 => with_properties(
                    before,
                    properties,
                    properties.len() as int,
                ),
                _ => if names.len() == 1 {
                    before.insert(names[0], SchemaRef::Declared(schema))
                } else {
                    before
                },
            },
        }
    }
}

/// A map with the first `to` properties put in.
pub open spec fn with_properties(
    map: Map<Seq<char>, SchemaRef>,
    properties: Seq<(Seq<char>, usize)>,
    to: int,
) -> Map<Seq<char>, SchemaRef>
    decreases to,
{
    if to <= 0 || to > properties.len() {
        map
    } else {
        with_properties(map, properties, to - 1).insert(
            properties[to - 1].0,
            SchemaRef::Declared(properties[to - 1].1),
        )
    }
}

/// The types that the first `to` extractors give the path parameters.
pub open spec fn typed_paths(
    shapes: Seq<SchemaShape>,
    parameters: Seq<NamedView>,
    names: Seq<Seq<char>>,
    to: int,
) -> Map<Seq<char>, SchemaRef>
    decreases to,
{
    if to <= 0 || to > parameters.len() {
        Map::empty()
    } else {
        typed_after(
            shapes,
            parameters[to - 1],
            names,
            typed_paths(shapes, parameters, names, to - 1),
        )
    }
}

/// A list of names and schemas in which a later entry replaces an earlier one.
pub open spec fn latest(list: Seq<(String, SchemaRef)>) -> Map<Seq<char>, SchemaRef>
    decreases list.len(),
{
    if list.len() == 0 {
        Map::empty()
    } else {
        latest(list.drop_last()).insert(list.last().0@, list.last().1)
    }
}

/// The properties and the names of the required ones, if the schema is an inline object.
fn object_parts<'a>(shapes: &'a Vec<SchemaShape>, schema: usize) -> (r: Option<
    (&'a Vec<(String, usize)>, &'a Vec<String>),
>)
    ensures
        match r {
            Some((properties, required)) => object_of(shapes@, schema) == Some(
                (definitions(properties@), texts(required@)),
            ),
            None => object_of(shapes@, schema) is None,
        },
{
    if schema < shapes.len() {
        match &shapes[schema] {
            SchemaShape::Object { properties, required } => Some((properties, required)),
            SchemaShape::Other => None,
        }
    } else {
        None
    }
}

/// The schemas that path extractors contribute, keyed by path parameter name.
fn typed_path_schemas(
    shapes: &Vec<SchemaShape>,
    parameters: &Vec<NamedExtractorSchema>,
    names: &Vec<String>,
) -> (r: Vec<(String, SchemaRef)>)
    ensures
        latest(r@) == typed_paths(
            shapes@,
            named_views(parameters@),
            texts(names@),
            parameters@.len() as int,
        ),
{
    let mut typed: Vec<(String, SchemaRef)> = Vec::new();
    let ghost views = named_views(parameters@);
    let mut i: usize = 0;
    while i < parameters.len()
        invariant
            i <= parameters.len(),
            views == named_views(parameters@),
            latest(typed@) == typed_paths(shapes@, views, texts(names@), i as int),
        decreases parameters.len() - i,
    {
        let named = &parameters[i];
        assert(views[i as int] == named@);
        let ghost before = latest(typed@);
        if named.schema.location == ParameterLocation::Path {
            if let Some(schema) = named.schema.schema {
                let parts = object_parts(shapes, schema);
                let mut done = false;
                if let Some((properties, required)) = parts {
                    let ghost defs = definitions(properties@);
                    if properties.len() > 0 {
                        done = true;
                        let mut k: usize = 0;
                        while k < properties.len()
                            invariant
                                k <= properties.len(),
                                defs == definitions(properties@),
                                latest(typed@) == with_properties(before, defs, k as int),
                            decreases properties.len() - k,
                        {
                            let ghost earlier = typed@;
                            typed.push(
                                (properties[k].0.clone(), SchemaRef::Declared(properties[k].1)),
                            );
                            assert(typed@.drop_last() =~= earlier);
                            assert(defs[k as int] == (properties@[k as int].0@, properties@[k as int].1));
                            k = k + 1;
                        }
                    }
                }
                if !done && names.len() == 1 {
                    let ghost earlier = typed@;
                    typed.push((names[0].clone(), SchemaRef::Declared(schema)));
                    assert(typed@.drop_last() =~= earlier);
                    assert(texts(names@)[0] == names@[0]@);
                }
            }
        }
        i = i + 1;
    }
    typed
}

/// The latest schema listed for a name.
fn latest_schema(list: &Vec<(String, SchemaRef)>, name: &str) -> (r: Option<SchemaRef>)
    ensures
        match r {
            Some(schema) => latest(list@).contains_key(name@) && latest(list@)[name@] == schema,
            None => !latest(list@).contains_key(name@),
        },
{
    let mut i: usize = list.len();
    assert(list@.take(i as int) =~= list@);
    while i > 0
        invariant
            i <= list.len(),
            latest(list@).contains_key(name@) == latest(list@.take(i as int)).contains_key(name@),
            latest(list@).contains_key(name@) ==> latest(list@)[name@] == latest(
                list@.take(i as int),
            )[name@],
        decreases i,
    {
        let ghost here = list@.take(i as int);
        assert(here.drop_last() =~= list@.take(i - 1));
        assert(here.last() == list@[i - 1]);
        if same(list[i - 1].0.as_str(), name) {
            return Some(list[i - 1].1);
        }
        i = i - 1;
    }
    assert(list@.take(0) =~= Seq::empty());
    None
}

/// The query parameters of a query extractor: an inline object's fields individually, anything
/// else under the argument's name.
pub open spec fn query_parameters(shapes: Seq<SchemaShape>, named: NamedView) -> Seq<ParameterView> {
    let object = match named.schema.schema {
        Some(schema) => object_of(shapes, schema),
        None => None,
    };
    match object {
        Some((properties, required)) => properties.map_values(
            |p: (Seq<char>, usize)|
                ParameterView {
                    name: p.0,
                    parameter_in: ParameterIn::Query,
                    required: required.contains(p.0),
                    schema: SchemaRef::Declared(p.1),
                },
        ),
        None => seq![
            ParameterView {
                name: named.name,
                parameter_in: ParameterIn::Query,
                required: false,
                schema: schema_or_text(named.schema.schema),
            },
        ],
    }
}

/// The schema given, or a plain string.
pub open spec fn schema_or_text(schema: Option<usize>) -> SchemaRef {
    match schema {
        Some(schema) => SchemaRef::Declared(schema),
        None => SchemaRef::Text,
    }
}

/// The parameters of one extractor that is not in the path or the body.
pub open spec fn extractor_parameters(shapes: Seq<SchemaShape>, named: NamedView) -> Seq<ParameterView> {
    match named.schema.location {
        ParameterLocation::Query => query_parameters(shapes, named),
        ParameterLocation::Header => seq![
            ParameterView {
                name: named.name,
                parameter_in: ParameterIn::Header,
                required: false,
                schema: schema_or_text(named.schema.schema),
            },
        ],
        ParameterLocation::Path => Seq::empty(),
        ParameterLocation::Body => Seq::empty(),
    }
}

/// The query and header parameters of the first `to` extractors.
pub open spec fn extra_parameters(
    shapes: Seq<SchemaShape>,
    parameters: Seq<NamedView>,
    to: int,
) -> Seq<ParameterView>
    decreases to,
{
    if to <= 0 || to > parameters.len() {
        Seq::empty()
    } else {
        extra_parameters(shapes, parameters, to - 1) + extractor_parameters(
            shapes,
            parameters[to - 1],
        )
    }
}

/// The path parameters, named by the route pattern and typed by the path extractors.
pub open spec fn path_parameters(
    names: Seq<Seq<char>>,
    typed: Map<Seq<char>, SchemaRef>,
) -> Seq<ParameterView> {
    names.map_values(
        |name: Seq<char>|
            ParameterView {
                name,
                parameter_in: ParameterIn::Path,
                required: true,
                schema: if typed.contains_key(name) {
                    typed[name]
                } else {
                    SchemaRef::Text
                },
            },
    )
}

/// The parameters an operation documents: those of its path, then query and header parameters.
pub open spec fn parameters_for(shapes: Seq<SchemaShape>, op: OperationView) -> Seq<ParameterView> {
    let names = names_from(op.path, 0);
    path_parameters(
        names,
        typed_paths(shapes, op.parameters, names, op.parameters.len() as int),
    ) + extra_parameters(shapes, op.parameters, op.parameters.len() as int)
}

/// Append the query parameters of a query extractor.
fn append_query_parameters(
    shapes: &Vec<SchemaShape>,
    named: &NamedExtractorSchema,
    out: &mut Vec<Parameter>,
)
    ensures
        parameter_views(final(out)@) == parameter_views(old(out)@) + query_parameters(
            shapes@,
            named@,
        ),
{
    let parts = match named.schema.schema {
        Some(schema) => object_parts(shapes, schema),
        None => None,
    };
    if let Some((properties, required)) = parts {
        let ghost all = query_parameters(shapes@, named@);
        let mut i: usize = 0;
        assert(parameter_views(out@) + all.take(0) =~= parameter_views(out@));
        while i < properties.len()
            invariant
                i <= properties.len(),
                all == query_parameters(shapes@, named@),
                all == definitions(properties@).map_values(
                    |p: (Seq<char>, usize)|
                        ParameterView {
                            name: p.0,
                            parameter_in: ParameterIn::Query,
                            required: texts(required@).contains(p.0),
                            schema: SchemaRef::Declared(p.1),
                        },
                ),
                parameter_views(out@) == parameter_views(old(out)@) + all.take(i as int),
            decreases properties.len() - i,
        {
            let ghost before = parameter_views(out@);
            let name = properties[i].0.clone();
            let is_required = lists(required, name.as_str());
            out.push(
                Parameter {
                    name,
                    parameter_in: ParameterIn::Query,
                    required: is_required,
                    schema: SchemaRef::Declared(properties[i].1),
                },
            );
            i = i + 1;
            proof {
                assert(definitions(properties@)[i - 1] == (
                    properties@[i - 1].0@,
                    properties@[i - 1].1,
                ));
                assert(parameter_views(out@) =~= before.push(all[i - 1]));
                assert(all.take(i as int) =~= all.take(i - 1).push(all[i - 1]));
            }
        }
        assert(all.take(i as int) =~= all);
    } else {
        let ghost before = parameter_views(out@);
        out.push(
            Parameter {
                name: named.name.clone(),
                parameter_in: ParameterIn::Query,
                required: false,
                schema: match named.schema.schema {
                    Some(schema) => SchemaRef::Declared(schema),
                    None => SchemaRef::Text,
                },
            },
        );
        assert(parameter_views(out@) =~= before + query_parameters(shapes@, named@));
    }
}

/// Build the parameter list of an operation. Body extractors are handled by
/// [`build_request_body`].
pub fn build_parameters(shapes: &Vec<SchemaShape>, op: &OpenApiOperation) -> (r: Vec<Parameter>)
    ensures
        parameter_views(r@) == parameters_for(shapes@, op@),
{
    let names = path_parameter_names(op.path.as_str());
    let typed = typed_path_schemas(shapes, &op.parameters, &names);
    let mut out: Vec<Parameter> = Vec::new();
    let ghost in_path = path_parameters(texts(names@), latest(typed@));
    let mut i: usize = 0;
    assert(parameter_views(out@) =~= in_path.take(0));
    while i < names.len()
        invariant
            i <= names.len(),
            in_path == path_parameters(texts(names@), latest(typed@)),
            parameter_views(out@) == in_path.take(i as int),
        decreases names.len() - i,
    {
        let ghost before = parameter_views(out@);
        let schema = match latest_schema(&typed, names[i].as_str()) {
            Some(schema) => schema,
            None => SchemaRef::Text,
        };
        out.push(
            Parameter {
                name: names[i].clone(),
                parameter_in: ParameterIn::Path,
                required: true,
                schema,
            },
        );
        i = i + 1;
        proof {
            assert(texts(names@)[i - 1] == names@[i - 1]@);
            assert(parameter_views(out@) =~= before.push(in_path[i - 1]));
            assert(in_path.take(i as int) =~= in_path.take(i - 1).push(in_path[i - 1]));
        }
    }
    assert(in_path.take(i as int) =~= in_path);
    let ghost views = op@.parameters;
    let mut k: usize = 0;
    assert(in_path + extra_parameters(shapes@, views, 0) =~= in_path);
    while k < op.parameters.len()
        invariant
            k <= op.parameters.len(),
            views == named_views(op.parameters@),
            parameter_views(out@) == in_path + extra_parameters(shapes@, views, k as int),
        decreases op.parameters.len() - k,
    {
        let named = &op.parameters[k];
        assert(views[k as int] == named@);
        let ghost before = parameter_views(out@);
        match named.schema.location {
            ParameterLocation::Query => {
                append_query_parameters(shapes, named, &mut out);
            },
            ParameterLocation::Header => {
                out.push(
                    Parameter {
                        name: named.name.clone(),
                        parameter_in: ParameterIn::Header,
                        required: false,
                        schema: match named.schema.schema {
                            Some(schema) => SchemaRef::Declared(schema),
                            None => SchemaRef::Text,
                        },
                    },
                );
                assert(parameter_views(out@) =~= before + extractor_parameters(shapes@, named@));
            },
            ParameterLocation::Path => {
                assert(before + Seq::<ParameterView>::empty() =~= before);
            },
            ParameterLocation::Body => {
                assert(before + Seq::<ParameterView>::empty() =~= before);
            },
        }
        k = k + 1;
        proof {
            assert(parameter_views(out@) =~= in_path + (extra_parameters(shapes@, views, k - 1)
                + extractor_parameters(shapes@, named@)));
        }
    }
    out
}

/// The schema of one content type of a request body.
#[derive(Debug)]
pub enum BodySchema {
    /// The only argument's own schema.
    Single(SchemaRef),
    /// An object with one required property per argument.
    Combined(Vec<(String, SchemaRef)>),
}

/// A body schema with its names as sequences of characters.
pub enum BodySchemaView {
    /// See [`BodySchema::Single`].
    Single(SchemaRef),
    /// See [`BodySchema::Combined`].
    Combined(Seq<(Seq<char>, SchemaRef)>),
}

/// The names and schemas of a list of arguments.
pub open spec fn arguments(list: Seq<(String, SchemaRef)>) -> Seq<(Seq<char>, SchemaRef)> {
    list.map_values(|a: (String, SchemaRef)| (a.0@, a.1))
}

impl View for BodySchema {
    type V = BodySchemaView;

    open spec fn view(&self) -> BodySchemaView {
        match self {
            BodySchema::Single(schema) => BodySchemaView::Single(*schema),
            BodySchema::Combined(list) => BodySchemaView::Combined(arguments(list@)),
        }
    }
}

/// The schema of the arguments read from one content type.
pub open spec fn aggregated(list: Seq<(Seq<char>, SchemaRef)>) -> BodySchemaView {
    if list.len() == 1 {
        BodySchemaView::Single(list[0].1)
    } else {
        BodySchemaView::Combined(list)
    }
}

/// Combine the arguments read from one content type.
pub fn aggregate_parameter_schema(parameters: Vec<(String, SchemaRef)>) -> (r: BodySchema)
    ensures
        r@ == aggregated(arguments(parameters@)),
{
    if parameters.len() == 1 {
        assert(arguments(parameters@)[0].1 == parameters@[0].1);
        BodySchema::Single(parameters[0].1)
    } else {
        BodySchema::Combined(parameters)
    }
}

/// The argument an extractor contributes to a content type of the request body.
pub open spec fn body_argument(named: NamedView, content_type: Seq<char>) -> Option<
    (Seq<char>, SchemaRef),
> {
    if named.schema.location == ParameterLocation::Body {
        match named.schema.content_type {
            Some(ct) => if ct@ == content_type {
                Some(
                    (
                        named.name,
                        match named.schema.schema {
                            Some(schema) => SchemaRef::Declared(schema),
                            None => SchemaRef::Anything,
                        },
                    ),
                )
            } else {
                None
            },
            None => None,
        }
    } else {
        None
    }
}

/// The arguments that the first `to` extractors contribute to a content type.
pub open spec fn body_arguments(
    parameters: Seq<NamedView>,
    content_type: Seq<char>,
    to: int,
) -> Seq<(Seq<char>, SchemaRef)>
    decreases to,
{
    if to <= 0 || to > parameters.len() {
        Seq::empty()
    } else {
        let before = body_arguments(parameters, content_type, to - 1);
        match body_argument(parameters[to - 1], content_type) {
            Some(argument) => before.push(argument),
            None => before,
        }
    }
}

/// The request body an operation documents: a schema for each content type, sorted by it.
#[derive(Debug)]
pub struct RequestBody {
    /// The content types with their schemas.
    pub content: Vec<(String, BodySchema)>,
}

/// The arguments collected per content type so far.
struct BodyGroups {
    groups: Vec<(String, Vec<(String, SchemaRef)>)>,
}

spec fn group_types(groups: Seq<(String, Vec<(String, SchemaRef)>)>) -> Seq<Seq<char>> {
    groups.map_values(|g: (String, Vec<(String, SchemaRef)>)| g.0@)
}

/// Whether texts are in dictionary order, each once.
pub open spec fn is_ascending(list: Seq<Seq<char>>) -> bool {
    forall|i: int, j: int|
        0 <= i < j < list.len() ==> precedes(#[trigger] list[i], #[trigger] list[j]) && list[i]
            != list[j]
}

impl BodyGroups {
    /// The groups hold exactly what the first `to` parameters contribute, sorted by content type.
    spec fn holds(&self, parameters: Seq<NamedView>, to: int) -> bool {
        let types = group_types(self.groups@);
        &&& is_ascending(types)
        &&& forall|k: int|
            0 <= k < types.len() ==> arguments((#[trigger] self.groups@[k]).1@) == body_arguments(
                parameters,
                types[k],
                to,
            ) && self.groups@[k].1@.len() > 0
        &&& forall|ct: Seq<char>| #[trigger]
            body_arguments(parameters, ct, to).len() > 0 ==> types.contains(ct)
    }

    /// Add an argument to its content type.
    fn add(&mut self, content_type: &str, name: String, schema: SchemaRef, Ghost(
        parameters,
    ): Ghost<Seq<NamedView>>, Ghost(to): Ghost<int>)
        requires
            old(self).holds(parameters, to),
            0 <= to < parameters.len(),
            body_argument(parameters[to], content_type@) == Some((name@, schema)),
        ensures
            final(self).holds(parameters, to + 1),
    {
        let ghost types = group_types(self.groups@);
        let ghost before = self.groups@;
        proof {
            assert forall|ct: Seq<char>| ct != content_type@ implies #[trigger] body_arguments(
                parameters,
                ct,
                to + 1,
            ) == body_arguments(parameters, ct, to) by {}
        }
        let mut i: usize = 0;
        while i < self.groups.len()
            invariant_except_break
                i <= self.groups.len(),
                self.groups@ == before,
                types == group_types(before),
                is_ascending(types),
                forall|j: int| 0 <= j < i ==> #[trigger] types[j] != content_type@,
                forall|j: int| 0 <= j < i ==> precedes(#[trigger] types[j], content_type@),
            ensures
                i <= self.groups.len(),
                self.groups@ == before,
                forall|j: int| 0 <= j < i ==> #[trigger] types[j] != content_type@,
                forall|j: int| 0 <= j < i ==> precedes(#[trigger] types[j], content_type@),
                i < self.groups.len() ==> types[i as int] == content_type@ || !precedes(
                    types[i as int],
                    content_type@,
                ),
            decreases self.groups.len() - i,
        {
            assert(types[i as int] == before[i as int].0@);
            if same(self.groups[i].0.as_str(), content_type) || !text_precedes(
                self.groups[i].0.as_str(),
                content_type,
            ) {
                break;
            }
            i = i + 1;
        }
        let found = i < self.groups.len() && same(self.groups[i].0.as_str(), content_type);
        if found {
            assert(types[i as int] == before[i as int].0@);
            let ghost earlier = arguments(before[i as int].1@);
            let group = &mut self.groups[i];
            group.1.push((name, schema));
            proof {
                let after = self.groups@;
                assert(group_types(after) =~= types);
                assert(arguments(after[i as int].1@) =~= earlier.push((name@, schema)));
                assert forall|k: int| 0 <= k < types.len() implies arguments(
                    (#[trigger] after[k]).1@,
                ) == body_arguments(parameters, types[k], to + 1) && after[k].1@.len() > 0 by {
                    if k != i {
                        assert(after[k] == before[k]);
                        assert(types[k] != types[i as int]) by {
                            if k < i {
                                assert(types[k] != types[i as int]);
                            } else {
                                assert(types[i as int] != types[k]);
                            }
                        }
                    }
                }
                assert forall|ct: Seq<char>| #[trigger]
                    body_arguments(parameters, ct, to + 1).len() > 0 implies types.contains(ct) by {
                    if ct == content_type@ {
                        assert(types[i as int] == ct);
                    } else {
                        assert(body_arguments(parameters, ct, to).len() > 0);
                    }
                }
            }
        } else {
            let mut list: Vec<(String, SchemaRef)> = Vec::new();
            list.push((name, schema));
            self.groups.insert(i, (copy_text(content_type), list));
            proof {
                let after = self.groups@;
                let now = group_types(after);
                assert(now =~= types.insert(i as int, content_type@));
                assert forall|j: int| i <= j < types.len() implies precedes(
                    content_type@,
                    #[trigger] types[j],
                ) && types[j] != content_type@ by {
                    assert(types[i as int] == before[i as int].0@);
                    precedes_is_a_total_order(types[i as int], content_type@, content_type@);
                    if j > i {
                        assert(precedes(types[i as int], types[j]));
                        precedes_is_a_total_order(content_type@, types[i as int], types[j]);
                        precedes_is_a_total_order(types[i as int], types[j], content_type@);
                    }
                }
                assert forall|a: int, b: int| 0 <= a < b < now.len() implies precedes(
                    #[trigger] now[a],
                    #[trigger] now[b],
                ) && now[a] != now[b] by {
                    if a < i {
                        assert(now[a] == types[a]);
                    } else if a > i {
                        assert(now[a] == types[a - 1]);
                    }
                    if b < i {
                        assert(now[b] == types[b]);
                    } else if b > i {
                        assert(now[b] == types[b - 1]);
                    }
                }
                assert(!types.contains(content_type@)) by {
                    if types.contains(content_type@) {
                        let j = choose|j: int| 0 <= j < types.len() && types[j] == content_type@;
                        assert(types[j] == content_type@);
                    }
                }
                assert(body_arguments(parameters, content_type@, to).len() == 0);
                assert(arguments(list@) =~= body_arguments(parameters, content_type@, to + 1));
                assert forall|k: int| 0 <= k < now.len() implies arguments(
                    (#[trigger] after[k]).1@,
                ) == body_arguments(parameters, now[k], to + 1) && after[k].1@.len() > 0 by {
                    if k < i {
                        assert(after[k] == before[k]);
                        assert(now[k] == types[k]);
                    } else if k > i {
                        assert(after[k] == before[k - 1]);
                        assert(now[k] == types[k - 1]);
                    }
                }
                assert forall|ct: Seq<char>| #[trigger]
                    body_arguments(parameters, ct, to + 1).len() > 0 implies now.contains(ct) by {
                    if ct == content_type@ {
                        assert(now[i as int] == ct);
                    } else {
                        assert(body_arguments(parameters, ct, to).len() > 0);
                        let j = choose|j: int| 0 <= j < types.len() && types[j] == ct;
                        if j < i {
                            assert(now[j] == ct);
                        } else {
                            assert(now[j + 1] == ct);
                        }
                    }
                }
            }
        }
    }
}

/// The content types of a list.
pub open spec fn content_types(content: Seq<(String, BodySchema)>) -> Seq<Seq<char>> {
    content.map_values(|c: (String, BodySchema)| c.0@)
}

/// Whether a request body documents exactly what an operation's body extractors read.
pub open spec fn is_body_of(body: RequestBody, parameters: Seq<NamedView>) -> bool {
    let types = content_types(body.content@);
    let all = parameters.len() as int;
    &&& is_ascending(types)
    &&& forall|k: int|
        0 <= k < types.len() ==> (#[trigger] body.content@[k]).1@ == aggregated(
            body_arguments(parameters, types[k], all),
        )
    &&& forall|ct: Seq<char>|
        body_arguments(parameters, ct, all).len() > 0 <==> #[trigger] types.contains(ct)
}

/// Whether any extractor of an operation reads the body.
pub open spec fn reads_body(parameters: Seq<NamedView>) -> bool {
    exists|ct: Seq<char>| #[trigger]
        body_arguments(parameters, ct, parameters.len() as int).len() > 0
}

/// The request body of an operation, if any of its extractors reads one.
pub fn build_request_body(op: &OpenApiOperation) -> (r: Option<RequestBody>)
    ensures
        match r {
            Some(body) => reads_body(op@.parameters) && is_body_of(body, op@.parameters),
            None => !reads_body(op@.parameters),
        },
{
    let mut groups = BodyGroups { groups: Vec::new() };
    let ghost views = op@.parameters;
    let mut i: usize = 0;
    while i < op.parameters.len()
        invariant
            i <= op.parameters.len(),
            views == named_views(op.parameters@),
            groups.holds(views, i as int),
        decreases op.parameters.len() - i,
    {
        let param = &op.parameters[i];
        assert(views[i as int] == param@);
        let mut added = false;
        if param.schema.location == ParameterLocation::Body {
            if let Some(content_type) = &param.schema.content_type {
                let schema = match param.schema.schema {
                    Some(schema) => SchemaRef::Declared(schema),
                    None => SchemaRef::Anything,
                };
                added = true;
                groups.add(
                    content_type.as_str(),
                    param.name.clone(),
                    schema,
                    Ghost(views),
                    Ghost(i as int),
                );
            }
        }
        proof {
            if !added {
                assert forall|ct: Seq<char>| #[trigger] body_arguments(views, ct, i + 1)
                    == body_arguments(views, ct, i as int) by {}
                assert(groups.holds(views, i + 1)) by {
                    let types = group_types(groups.groups@);
                    assert forall|k: int| 0 <= k < types.len() implies arguments(
                        (#[trigger] groups.groups@[k]).1@,
                    ) == body_arguments(views, types[k], i + 1) by {
                        assert(arguments(groups.groups@[k].1@) == body_arguments(
                            views,
                            types[k],
                            i as int,
                        ));
                    }
                    assert forall|ct: Seq<char>| #[trigger]
                        body_arguments(views, ct, i + 1).len() > 0 implies types.contains(ct) by {
                        assert(body_arguments(views, ct, i as int).len() > 0);
                    }
                }
            }
        }
        i = i + 1;
    }
    let ghost held = groups.groups@;
    let ghost types = group_types(held);
    if groups.groups.len() == 0 {
        proof {
            if reads_body(views) {
                let ct = choose|ct: Seq<char>| #[trigger]
                    body_arguments(views, ct, views.len() as int).len() > 0;
                assert(types.contains(ct));
            }
        }
        return None;
    }
    let mut content: Vec<(String, BodySchema)> = Vec::new();
    let list = groups.groups;
    for group in it: list
        invariant
            it.seq() == held,
            types == group_types(held),
            content@.len() == it.index(),
            content_types(content@) == types.take(it.index() as int),
            forall|k: int|
                0 <= k < content@.len() ==> (#[trigger] content@[k]).1@ == aggregated(
                    arguments(held[k].1@),
                ),
    {
        let ghost at = it.index() as int;
        let ghost before = content_types(content@);
        assert(group == held[at]);
        let (content_type, arguments_here) = group;
        content.push((content_type, aggregate_parameter_schema(arguments_here)));
        assert(content_types(content@) =~= before.push(types[at]));
        assert(types.take(at + 1) =~= types.take(at).push(types[at]));
    }
    proof {
        assert(types.take(held.len() as int) =~= types);
        assert forall|k: int| 0 <= k < types.len() implies (#[trigger] content@[k]).1@
            == aggregated(body_arguments(views, types[k], views.len() as int)) by {
            assert(arguments(held[k].1@) == body_arguments(views, types[k], views.len() as int));
        }
        assert forall|ct: Seq<char>|
            body_arguments(views, ct, views.len() as int).len() > 0 <==> #[trigger] types.contains(
                ct,
            ) by {
            if types.contains(ct) {
                let k = choose|k: int| 0 <= k < types.len() && types[k] == ct;
                assert(arguments(held[k].1@) == body_arguments(
                    views,
                    types[k],
                    views.len() as int,
                ));
                assert(arguments(held[k].1@).len() == held[k].1@.len());
            }
        }
        assert(types.contains(types[0]));
        assert(body_arguments(views, types[0], views.len() as int).len() > 0);
    }
    Some(RequestBody { content })
}

/// A documented response.
#[derive(Debug)]
pub struct ResponseDoc {
    /// The status code.
    pub status: u16,
    /// What the response means.
    pub description: String,
    /// The content type and schema of its body, if it has a documented one.
    pub content: Option<(String, SchemaRef)>,
}

/// A documented response with its texts as sequences of characters.
pub struct ResponseView {
    /// See [`ResponseDoc::status`].
    pub status: u16,
    /// See [`ResponseDoc::description`].
    pub description: Seq<char>,
    /// See [`ResponseDoc::content`].
    pub content: Option<(Seq<char>, SchemaRef)>,
}

impl View for ResponseDoc {
    type V = ResponseView;

    open spec fn view(&self) -> ResponseView {
        ResponseView {
            status: self.status,
            description: self.description@,
            content: match self.content {
                Some((content_type, schema)) => Some((content_type@, schema)),
                None => None,
            },
        }
    }
}

/// The documented responses of a list.
pub open spec fn response_views(responses: Seq<ResponseDoc>) -> Seq<ResponseView> {
    responses.map_values(|r: ResponseDoc| r@)
}

/// How one response is documented.
pub open spec fn response_for(response: ResponseSchema) -> ResponseView {
    ResponseView {
        status: match response.status {
            Some(status) => status,
            None => 200,
        },
        description: match response.description {
            Some(description) => description@,
            None => "Response"@,
        },
        content: match response.schema {
            Some(schema) => Some(
                (
                    match response.content_type {
                        Some(content_type) => content_type@,
                        None => "application/json"@,
                    },
                    SchemaRef::Declared(schema),
                ),
            ),
            None => None,
        },
    }
}

/// The responses an operation documents: those its responder describes, or one success.
pub open spec fn responses_for(op: OperationView) -> Seq<ResponseView> {
    if op.responses.len() == 0 {
        seq![
            ResponseView {
                status: 200,
                description: "Successful response"@,
                content: None,
            },
        ]
    } else {
        op.responses.map_values(|r: ResponseSchema| response_for(r))
    }
}

/// The responses an operation documents.
pub fn build_responses(op: &OpenApiOperation) -> (r: Vec<ResponseDoc>)
    ensures
        response_views(r@) == responses_for(op@),
{
    let mut out: Vec<ResponseDoc> = Vec::new();
    if op.responses.len() == 0 {
        out.push(
            ResponseDoc {
                status: 200,
                description: copy_text("Successful response"),
                content: None,
            },
        );
        assert(response_views(out@) =~= responses_for(op@));
        return out;
    }
    let ghost all = responses_for(op@);
    let mut i: usize = 0;
    assert(response_views(out@) =~= all.take(0));
    while i < op.responses.len()
        invariant
            i <= op.responses.len(),
            op.responses@.len() > 0,
            all == responses_for(op@),
            response_views(out@) == all.take(i as int),
        decreases op.responses.len() - i,
    {
        let response = &op.responses[i];
        let ghost before = response_views(out@);
        let doc = ResponseDoc {
            status: match response.status {
                Some(status) => status,
                None => 200,
            },
            description: match &response.description {
                Some(description) => description.clone(),
                None => copy_text("Response"),
            },
            content: match response.schema {
                Some(schema) => Some(
                    (
                        match &response.content_type {
                            Some(content_type) => content_type.clone(),
                            None => copy_text("application/json"),
                        },
                        SchemaRef::Declared(schema),
                    ),
                ),
                None => None,
            },
        };
        out.push(doc);
        i = i + 1;
        proof {
            assert(doc@ == response_for(*response));
            assert(response_views(out@) =~= before.push(all[i - 1]));
            assert(all.take(i as int) =~= all.take(i - 1).push(all[i - 1]));
        }
    }
    assert(all.take(i as int) =~= all);
    out
}

/// An operation of the document.
#[derive(Debug)]
pub struct Operation {
    /// Its identifier.
    pub operation_id: String,
    /// One line about it.
    pub summary: String,
    /// Its whole documentation.
    pub description: Option<String>,
    /// Whether it is deprecated.
    pub deprecated: bool,
    /// Its parameters.
    pub parameters: Vec<Parameter>,
    /// Its request body.
    pub request_body: Option<RequestBody>,
    /// Its responses.
    pub responses: Vec<ResponseDoc>,
}

/// The summary of an operation: the first paragraph of its documentation, or its identifier.
pub open spec fn summary_for(op: OperationView) -> Seq<char> {
    match op.docs {
        Some(docs) => match summary_of(docs@) {
            Some(summary) => summary,
            None => op.operation_id,
        },
        None => op.operation_id,
    }
}

/// Whether `doc` documents an operation.
pub open spec fn is_documented(doc: Operation, shapes: Seq<SchemaShape>, op: OperationView) -> bool {
    &&& doc.operation_id@ == op.operation_id
    &&& doc.summary@ == summary_for(op)
    &&& doc.description == op.docs
    &&& doc.deprecated == op.deprecated
    &&& parameter_views(doc.parameters@) == parameters_for(shapes, op)
    &&& match doc.request_body {
        Some(body) => reads_body(op.parameters) && is_body_of(body, op.parameters),
        None => !reads_body(op.parameters),
    }
    &&& response_views(doc.responses@) == responses_for(op)
}

/// Document an operation.
pub fn build_operation(shapes: &Vec<SchemaShape>, op: &OpenApiOperation) -> (r: Operation)
    ensures
        is_documented(r, shapes@, op@),
{
    let summary = match &op.docs {
        Some(docs) => match doc_summary(docs.as_str()) {
            Some(summary) => summary,
            None => op.operation_id.clone(),
        },
        None => op.operation_id.clone(),
    };
    Operation {
        operation_id: op.operation_id.clone(),
        summary,
        description: copy_option(&op.docs),
        deprecated: op.deprecated,
        parameters: build_parameters(shapes, op),
        request_body: build_request_body(op),
        responses: build_responses(op),
    }
}

/// A path item of the document: where it stands, as which operation, and what it says.
#[derive(Debug)]
pub struct PathItem {
    /// The path.
    pub path: String,
    /// The operation's method.
    pub method: HttpMethod,
    /// The operation.
    pub operation: Operation,
}

/// The positions of the operations, before `to`, whose methods the document can hold.
pub open spec fn documentable(operations: Seq<OperationView>, to: int) -> Seq<int>
    decreases to,
{
    if to <= 0 || to > operations.len() {
        Seq::empty()
    } else {
        let before = documentable(operations, to - 1);
        if operation_kind(operations[to - 1].method) is Some {
            before.push(to - 1)
        } else {
            before
        }
    }
}

/// Whether an item documents an operation.
pub open spec fn is_item(item: PathItem, shapes: Seq<SchemaShape>, op: OperationView) -> bool {
    &&& item.path@ == op.path
    &&& operation_kind(op.method) == Some(item.method)
    &&& is_documented(item.operation, shapes, op)
}

/// Whether items document the operations at the given positions, in order.
pub open spec fn are_items(
    items: Seq<PathItem>,
    shapes: Seq<SchemaShape>,
    operations: Seq<OperationView>,
    kept: Seq<int>,
) -> bool {
    &&& items.len() == kept.len()
    &&& forall|k: int|
        0 <= k < items.len() ==> #[trigger] item_stands(items, shapes, operations, kept, k)
}

/// Whether item `k` documents the operation at its position.
pub open spec fn item_stands(
    items: Seq<PathItem>,
    shapes: Seq<SchemaShape>,
    operations: Seq<OperationView>,
    kept: Seq<int>,
    k: int,
) -> bool {
    &&& 0 <= kept[k] < operations.len()
    &&& is_item(items[k], shapes, operations[kept[k]])
}

proof fn lemma_push_item(
    items: Seq<PathItem>,
    item: PathItem,
    shapes: Seq<SchemaShape>,
    operations: Seq<OperationView>,
    kept: Seq<int>,
    at: int,
)
    requires
        are_items(items, shapes, operations, kept),
        0 <= at < operations.len(),
        is_item(item, shapes, operations[at]),
    ensures
        are_items(items.push(item), shapes, operations, kept.push(at)),
{
    let more = items.push(item);
    let now = kept.push(at);
    assert forall|k: int| 0 <= k < more.len() implies #[trigger] item_stands(
        more,
        shapes,
        operations,
        now,
        k,
    ) by {
        if k < items.len() {
            assert(items[k] == more[k]);
            assert(item_stands(items, shapes, operations, kept, k));
        }
    }
}

impl OpenApi {
    /// The path items of the document, in the order of the operations.
    pub fn build_paths(&self, shapes: &Vec<SchemaShape>) -> (r: Vec<PathItem>)
        ensures
            are_items(
                r@,
                shapes@,
                self.operation_list(),
                documentable(self.operation_list(), self.operation_list().len() as int),
            ),
    {
        let mut out: Vec<PathItem> = Vec::new();
        let ghost ops = self.operation_list();
        let mut i: usize = 0;
        while i < self.operations.len()
            invariant
                i <= self.operations.len(),
                ops == operation_views(self.operations@),
                are_items(out@, shapes@, ops, documentable(ops, i as int)),
            decreases self.operations.len() - i,
        {
            let op = &self.operations[i];
            assert(ops[i as int] == op@);
            let ghost before = documentable(ops, i as int);
            let ghost earlier = out@;
            if let Some(method) = method_to_http_method(op.method.as_str()) {
                let item = PathItem {
                    path: op.path.clone(),
                    method,
                    operation: build_operation(shapes, op),
                };
                out.push(item);
                proof {
                    lemma_push_item(earlier, item, shapes@, ops, before, i as int);
                    assert(documentable(ops, i + 1) == before.push(i as int));
                }
            } else {
                assert(documentable(ops, i + 1) == before);
            }
            i = i + 1;
        }
        assert(i == ops.len());
        out
    }
}

/// The route pattern alone decides how often a path parameter is documented: an extractor that
/// describes the same parameter types it and adds no second one.
pub proof fn the_route_pattern_names_each_path_parameter_once(
    shapes: Seq<SchemaShape>,
    op: OperationView,
    k: int,
)
    requires
        0 <= k < parameters_for(shapes, op).len(),
    ensures
        parameters_for(shapes, op)[k].parameter_in == ParameterIn::Path <==> k < names_from(
            op.path,
            0,
        ).len(),
        k < names_from(op.path, 0).len() ==> parameters_for(shapes, op)[k].name == names_from(
            op.path,
            0,
        )[k] && parameters_for(shapes, op)[k].required,
{
    let names = names_from(op.path, 0);
    let n = op.parameters.len() as int;
    let typed = typed_paths(shapes, op.parameters, names, n);
    let in_path = path_parameters(names, typed);
    let extra = extra_parameters(shapes, op.parameters, n);
    lemma_extra_parameters(shapes, op.parameters, n);
    if k >= names.len() {
        assert(parameters_for(shapes, op)[k] == extra[k - names.len()]);
    }
}

proof fn lemma_extra_parameters(shapes: Seq<SchemaShape>, parameters: Seq<NamedView>, to: int)
    ensures
        forall|k: int|
            0 <= k < extra_parameters(shapes, parameters, to).len() ==> (
            #[trigger] extra_parameters(shapes, parameters, to)[k]).parameter_in
                != ParameterIn::Path,
    decreases to,
{
    if 0 < to <= parameters.len() {
        lemma_extra_parameters(shapes, parameters, to - 1);
    }
}

/// Endpoint that serves the rendered document.
#[derive(Debug)]
pub struct OpenApiRedocEndpoint {
    html: Option<String>,
}

/// The answer of a documentation endpoint.
#[derive(Debug)]
pub struct DocumentResponse {
    /// The `Content-Type` header.
    pub content_type: String,
    /// The body.
    pub body: String,
}

/// Error returned when OpenAPI support is disabled.
#[derive(Debug, Clone, Copy)]
pub struct OpenApiRedocDisabledError;

impl OpenApiRedocDisabledError {
    /// The error's text.
    pub fn message(&self) -> (r: String)
        ensures
            r@ == "OpenAPI support is disabled for this build"@,
    {
        copy_text("OpenAPI support is disabled for this build")
    }

    /// The status the error is answered with.
    pub fn status(&self) -> (r: u16)
        ensures
            r == 501,
    {
        501
    }
}

impl OpenApiRedocEndpoint {
    /// The page that is served, if any.
    pub closed spec fn page(&self) -> Option<Seq<char>> {
        match self.html {
            Some(html) => Some(html@),
            None => None,
        }
    }

    /// Serve a rendered page.
    pub fn enabled(html: String) -> (r: Self)
        ensures
            r.page() == Some(html@),
    {
        OpenApiRedocEndpoint { html: Some(html) }
    }

    /// Serve nothing.
    pub fn disabled() -> (r: Self)
        ensures
            r.page() is None,
    {
        OpenApiRedocEndpoint { html: None }
    }

    /// Answer a request for the document.
    pub fn respond(&self) -> (r: Result<DocumentResponse, OpenApiRedocDisabledError>)
        ensures
            match r {
                Ok(response) => self.page() == Some(response.body@) && response.content_type@
                    == "text/html; charset=utf-8"@,
                Err(_) => self.page() is None,
            },
    {
        match &self.html {
            Some(html) => Ok(
                DocumentResponse {
                    content_type: copy_text("text/html; charset=utf-8"),
                    body: html.clone(),
                },
            ),
            None => Err(OpenApiRedocDisabledError),
        }
    }
}

/// The page that `utoipa_redoc` renders for a document given as JSON text, or `None` when the text
/// is not JSON.
pub uninterp spec fn redoc_page(document: Seq<char>) -> Option<Seq<char>>;

/// Renders with `utoipa_redoc::Redoc::to_html`, from a `serde_json::Value`, which keeps the order of
/// the document's members; the page is a function of the document alone.
#[verifier::external_body]
fn render_redoc(document: &str) -> (r: Option<String>)
    ensures
        match r {
            Some(page) => redoc_page(document@) == Some(page@),
            None => redoc_page(document@) is None,
        },
{
    let document: serde_json::Value = serde_json::from_str(document).ok()?;
    Some(utoipa_redoc::Redoc::new(document).to_html())
}

/// An endpoint that serves a document, given as JSON text, as a Redoc page, where documentation is
/// enabled.
pub fn redoc(is_enabled: bool, document: &str) -> (r: OpenApiRedocEndpoint)
    ensures
        r.page() == if is_enabled {
            redoc_page(document@)
        } else {
            None
        },
{
    if !is_enabled {
        return OpenApiRedocEndpoint::disabled();
    }
    match render_redoc(document) {
        Some(page) => OpenApiRedocEndpoint::enabled(page),
        None => OpenApiRedocEndpoint::disabled(),
    }
}

/// The page that shows a document, given as JSON text, in the Scalar API reference.
pub open spec fn scalar_page(document: Seq<char>) -> Seq<char> {
    "<!doctype html><html><head><title>API reference</title><meta charset=\"utf-8\"/></head><body><script id=\"api-reference\" type=\"application/json\">"@
        + document
        + "</script><script src=\"https://cdn.jsdelivr.net/npm/@scalar/api-reference\"></script></body></html>"@
}

/// An endpoint that serves a document, given as JSON text, in the Scalar API reference, where
/// documentation is enabled.
pub fn scalar(is_enabled: bool, document: &str) -> (r: OpenApiRedocEndpoint)
    ensures
        r.page() == if is_enabled {
            Some(scalar_page(document@))
        } else {
            None
        },
{
    if !is_enabled {
        return OpenApiRedocEndpoint::disabled();
    }
    let mut page = copy_text(
        "<!doctype html><html><head><title>API reference</title><meta charset=\"utf-8\"/></head><body><script id=\"api-reference\" type=\"application/json\">",
    );
    page.append(document);
    page.append(
        "</script><script src=\"https://cdn.jsdelivr.net/npm/@scalar/api-reference\"></script></body></html>",
    );
    OpenApiRedocEndpoint::enabled(page)
}

/// Default mount path for the generated API documentation page.
pub const DEFAULT_API_DOCS_MOUNT: &'static str = "/api-docs";

/// Whether a node answers `GET` at a segment with an endpoint that is not itself documented.
pub open spec fn is_plain_get(node: RouteNode, segment: Seq<char>, endpoint: u64) -> bool {
    &&& node.path@ == segment
    &&& node.node_type matches RouteNodeType::Endpoint {
        endpoint: id,
        method,
        openapi,
        requirements,
        middleware,
    } && id == endpoint && (method matches MethodFilter::Exact(exact) && exact@ == "GET"@)
        && openapi is None && requirements@.len() == 0 && middleware@.len() == 0
}

/// Whether a node serves a document at a mount path and everything below it.
pub open spec fn is_document_node(node: RouteNode, mount_path: Seq<char>, endpoint: u64) -> bool {
    &&& node.path@ == mount_path
    &&& node.node_type matches RouteNodeType::Route(route) && route.nodes@.len() == 2
        && is_plain_get(route.nodes@[0], ""@, endpoint) && is_plain_get(
        route.nodes@[1],
        "/{*path}"@,
        endpoint,
    ) && route.layers@.len() == 0
}

/// A node that serves a document at its mount path and everything below it.
pub fn redoc_route(endpoint: u64, mount_path: &str) -> (r: RouteNode)
    ensures
        is_document_node(r, mount_path@, endpoint),
        mountable_node(r),
{
    let mut nodes: Vec<RouteNode> = Vec::new();
    nodes.push(
        RouteNode::new_endpoint(
            "",
            MethodFilter::Exact(copy_text("GET")),
            endpoint,
            None,
            Vec::new(),
        ),
    );
    nodes.push(
        RouteNode::new_endpoint(
            "/{*path}",
            MethodFilter::Exact(copy_text("GET")),
            endpoint,
            None,
            Vec::new(),
        ),
    );
    proof {
        reveal_with_fuel(mountable_node, 2);
    }
    let route = Route::new(nodes);
    RouteNode { path: copy_text(mount_path), node_type: RouteNodeType::Route(route) }
}

/// Whether a document describes the routes of a list of entries.
pub open spec fn describes(api: OpenApi, registry: Seq<HandlerSpec>, wanted: Seq<EntryView>) -> bool {
    exists|entries: Seq<RouteOpenApiEntry>| #[trigger]
        entry_views(entries) == wanted && api.operation_list() == entries.map_values(
            |e: RouteOpenApiEntry| operation_for(registry, e),
        ) && api.components() == components_for(registry, entries, entries.len() as int)
}

impl Route {
    /// The document describing this route tree.
    pub fn openapi(&self, registry: &Vec<HandlerSpec>) -> (r: OpenApi)
        requires
            forall|i: int|
                0 <= i < node_entries(""@, self.nodes@, 0, Seq::empty()).len() ==> ((
                #[trigger] node_entries(""@, self.nodes@, 0, Seq::empty())[i]).handler.spec matches Some(
                    at,
                ) ==> at < registry@.len()),
        ensures
            r.wf(),
            describes(r, registry@, node_entries(""@, self.nodes@, 0, Seq::empty())),
    {
        let entries = self.openapi_entries();
        assert forall|i: int| 0 <= i < entries@.len() implies ((
        #[trigger] entries@[i]).handler.spec matches Some(at) ==> at < registry@.len()) by {
            assert(entries@[i].handler == node_entries(
                ""@,
                self.nodes@,
                0,
                Seq::empty(),
            )[i].handler);
        }
        OpenApi::from_entries(registry, &entries)
    }

    /// Serve the API documentation at `/api-docs`, given the endpoint that answers there.
    pub fn enable_api_doc(self, endpoint: u64) -> (r: Self)
        requires
            mountable(self.nodes@),
        ensures
            r.nodes@.len() == self.nodes@.len() + 1,
            r.nodes@.drop_last() == self.nodes@,
            is_document_node(r.nodes@.last(), DEFAULT_API_DOCS_MOUNT@, endpoint),
            r.layers == self.layers,
            r.fallback == self.fallback,
            r.method_not_allowed == self.method_not_allowed,
            mountable(r.nodes@),
    {
        let mut route = self;
        route.nodes.push(redoc_route(endpoint, DEFAULT_API_DOCS_MOUNT));
        assert(route.nodes@.drop_last() =~= self.nodes@);
        route
    }
}

impl RouteWithAlarm {
    /// Serve the API documentation at `/api-docs`, given the endpoint that answers there.
    pub fn enable_api_doc(self, endpoint: u64) -> (r: Self)
        requires
            mountable(self.route.nodes@),
        ensures
            r.alarm_endpoint == self.alarm_endpoint,
            r.route.nodes@.len() == self.route.nodes@.len() + 1,
            r.route.nodes@.drop_last() == self.route.nodes@,
            is_document_node(r.route.nodes@.last(), DEFAULT_API_DOCS_MOUNT@, endpoint),
            r.route.layers == self.route.layers,
            r.route.fallback == self.route.fallback,
            r.route.method_not_allowed == self.route.method_not_allowed,
            mountable(r.route.nodes@),
    {
        RouteWithAlarm {
            route: self.route.enable_api_doc(endpoint),
            alarm_endpoint: self.alarm_endpoint,
        }
    }
}

/// Each response that an operation declares is documented in its place, under the status, with the
/// description and with the body that it declares. Only a response without a status is documented
/// as 200, and only an operation without responses is documented with one of its own.
pub proof fn every_declared_response_is_documented(
    doc: Operation,
    shapes: Seq<SchemaShape>,
    op: OperationView,
    k: int,
)
    requires
        is_documented(doc, shapes, op),
        0 <= k < op.responses.len(),
    ensures
        doc.responses@.len() == op.responses.len(),
        ({
            let declared = op.responses[k];
            let documented = doc.responses@[k];
            &&& declared.status is Some ==> documented.status == declared.status->0
            &&& declared.status is None ==> documented.status == 200
            &&& declared.description is Some ==> documented.description@
                == declared.description->0@
            &&& declared.description is None ==> documented.description@ == "Response"@
            &&& declared.schema is None ==> documented.content is None
            &&& declared.schema matches Some(schema) ==> (documented.content matches Some(
                (content_type, body),
            ) && body == SchemaRef::Declared(schema) && content_type@ == if declared.content_type
                is Some {
                declared.content_type->0@
            } else {
                "application/json"@
            })
        }),
{
    let views = response_views(doc.responses@);
    assert(views.len() == op.responses.len());
    assert(views[k] == doc.responses@[k]@);
    assert(views[k] == response_for(op.responses[k]));
}

/// An operation that declares no response is documented with a single success.
pub proof fn an_operation_without_responses_succeeds(
    doc: Operation,
    shapes: Seq<SchemaShape>,
    op: OperationView,
)
    requires
        is_documented(doc, shapes, op),
        op.responses.len() == 0,
    ensures
        doc.responses@.len() == 1,
        doc.responses@[0].status == 200,
        doc.responses@[0].description@ == "Successful response"@,
        doc.responses@[0].content is None,
{
    let views = response_views(doc.responses@);
    assert(views.len() == 1);
    assert(views[0] == doc.responses@[0]@);
}

/// A documented operation keeps its identifier, its documentation and whether it is deprecated.
/// Without a paragraph of documentation it is summarised by its identifier.
pub proof fn an_operation_says_what_its_handler_does(
    doc: Operation,
    shapes: Seq<SchemaShape>,
    op: OperationView,
)
    requires
        is_documented(doc, shapes, op),
    ensures
        doc.operation_id@ == op.operation_id,
        doc.deprecated == op.deprecated,
        doc.description == op.docs,
        op.docs is None ==> doc.summary@ == op.operation_id,
        op.docs is Some ==> doc.summary@ == if summary_of(op.docs->0@) is Some {
            summary_of(op.docs->0@)->0
        } else {
            op.operation_id
        },
{
}

proof fn lemma_extra_parameter_stands(
    shapes: Seq<SchemaShape>,
    parameters: Seq<NamedView>,
    to: int,
    at: int,
    k: int,
)
    requires
        0 <= at < to <= parameters.len(),
        0 <= k < extractor_parameters(shapes, parameters[at]).len(),
    ensures
        extra_parameters(shapes, parameters, to).contains(
            extractor_parameters(shapes, parameters[at])[k],
        ),
    decreases to,
{
    let before = extra_parameters(shapes, parameters, to - 1);
    let here = extractor_parameters(shapes, parameters[to - 1]);
    let all = extra_parameters(shapes, parameters, to);
    let wanted = extractor_parameters(shapes, parameters[at])[k];
    if at < to - 1 {
        lemma_extra_parameter_stands(shapes, parameters, to - 1, at, k);
        let i = choose|i: int| 0 <= i < before.len() && before[i] == wanted;
        assert(all[i] == wanted);
    } else {
        assert(all[before.len() + k] == wanted);
    }
}

proof fn lemma_extra_parameter_origin(
    shapes: Seq<SchemaShape>,
    parameters: Seq<NamedView>,
    to: int,
    parameter: ParameterView,
)
    requires
        extra_parameters(shapes, parameters, to).contains(parameter),
    ensures
        exists|at: int|
            0 <= at < parameters.len() && extractor_parameters(
                shapes,
                #[trigger] parameters[at],
            ).contains(parameter),
    decreases to,
{
    let all = extra_parameters(shapes, parameters, to);
    let i = choose|i: int| 0 <= i < all.len() && all[i] == parameter;
    let before = extra_parameters(shapes, parameters, to - 1);
    if i < before.len() {
        assert(before[i] == parameter);
        lemma_extra_parameter_origin(shapes, parameters, to - 1, parameter);
    } else {
        let here = extractor_parameters(shapes, parameters[to - 1]);
        assert(here[i - before.len()] == parameter);
        assert(here.contains(parameter));
    }
}

proof fn lemma_documented_parameters(doc: Operation, shapes: Seq<SchemaShape>, op: OperationView)
    requires
        is_documented(doc, shapes, op),
    ensures
        ({
            let names = names_from(op.path, 0);
            let n = op.parameters.len() as int;
            let typed = typed_paths(shapes, op.parameters, names, n);
            let extra = extra_parameters(shapes, op.parameters, n);
            &&& doc.parameters@.len() == names.len() + extra.len()
            &&& forall|k: int|
                0 <= k < doc.parameters@.len() ==> (#[trigger] doc.parameters@[k])@ == if k
                    < names.len() {
                    path_parameters(names, typed)[k]
                } else {
                    extra[k - names.len()]
                }
        }),
{
    let names = names_from(op.path, 0);
    let n = op.parameters.len() as int;
    let typed = typed_paths(shapes, op.parameters, names, n);
    let extra = extra_parameters(shapes, op.parameters, n);
    let all = parameter_views(doc.parameters@);
    assert(all == path_parameters(names, typed) + extra);
    assert(all.len() == doc.parameters@.len());
    assert forall|k: int| 0 <= k < doc.parameters@.len() implies (#[trigger] doc.parameters@[k])@
        == if k < names.len() {
        path_parameters(names, typed)[k]
    } else {
        extra[k - names.len()]
    } by {
        assert(all[k] == doc.parameters@[k]@);
    }
}

/// Whether an operation documents a parameter.
pub open spec fn documents(
    doc: Operation,
    name: Seq<char>,
    place: ParameterIn,
    required: bool,
    schema: SchemaRef,
) -> bool {
    exists|k: int|
        {
            &&& 0 <= k < doc.parameters@.len()
            &&& (#[trigger] doc.parameters@[k]).name@ == name
            &&& doc.parameters@[k].parameter_in == place
            &&& doc.parameters@[k].required == required
            &&& doc.parameters@[k].schema == schema
        }
}

proof fn lemma_documents(
    doc: Operation,
    shapes: Seq<SchemaShape>,
    op: OperationView,
    at: int,
    k: int,
)
    requires
        is_documented(doc, shapes, op),
        0 <= at < op.parameters.len(),
        0 <= k < extractor_parameters(shapes, op.parameters[at]).len(),
    ensures
        ({
            let wanted = extractor_parameters(shapes, op.parameters[at])[k];
            documents(doc, wanted.name, wanted.parameter_in, wanted.required, wanted.schema)
        }),
{
    let n = op.parameters.len() as int;
    let names = names_from(op.path, 0);
    let wanted = extractor_parameters(shapes, op.parameters[at])[k];
    let extra = extra_parameters(shapes, op.parameters, n);
    lemma_documented_parameters(doc, shapes, op);
    lemma_extra_parameter_stands(shapes, op.parameters, n, at, k);
    let i = choose|i: int| 0 <= i < extra.len() && extra[i] == wanted;
    assert(doc.parameters@[names.len() + i]@ == wanted);
    assert(doc.parameters@[names.len() + i].name@ == wanted.name);
}

/// A header that a handler reads is documented under its argument's name. So is a query that is not
/// an object; of an object every property is, and as required exactly where the object requires it.
pub proof fn every_query_and_header_is_documented(
    doc: Operation,
    shapes: Seq<SchemaShape>,
    op: OperationView,
    at: int,
)
    requires
        is_documented(doc, shapes, op),
        0 <= at < op.parameters.len(),
    ensures
        ({
            let named = op.parameters[at];
            let schema = match named.schema.schema {
                Some(schema) => SchemaRef::Declared(schema),
                None => SchemaRef::Text,
            };
            &&& named.schema.location == ParameterLocation::Header ==> documents(
                doc,
                named.name,
                ParameterIn::Header,
                false,
                schema,
            )
            &&& named.schema.location == ParameterLocation::Query && (named.schema.schema is None
                || object_of(shapes, named.schema.schema->0) is None) ==> documents(
                doc,
                named.name,
                ParameterIn::Query,
                false,
                schema,
            )
            &&& named.schema.location == ParameterLocation::Query && named.schema.schema is Some ==> (
            object_of(shapes, named.schema.schema->0) matches Some((properties, required))
                ==> forall|k: int|
                0 <= k < properties.len() ==> documents(
                    doc,
                    (#[trigger] properties[k]).0,
                    ParameterIn::Query,
                    required.contains(properties[k].0),
                    SchemaRef::Declared(properties[k].1),
                ))
        }),
{
    let named = op.parameters[at];
    let here = extractor_parameters(shapes, named);
    if named.schema.location == ParameterLocation::Header {
        lemma_documents(doc, shapes, op, at, 0);
    }
    if named.schema.location == ParameterLocation::Query {
        if named.schema.schema is None || object_of(shapes, named.schema.schema->0) is None {
            lemma_documents(doc, shapes, op, at, 0);
        } else {
            let (properties, required) = object_of(shapes, named.schema.schema->0)->0;
            assert forall|k: int| 0 <= k < properties.len() implies documents(
                doc,
                (#[trigger] properties[k]).0,
                ParameterIn::Query,
                required.contains(properties[k].0),
                SchemaRef::Declared(properties[k].1),
            ) by {
                lemma_documents(doc, shapes, op, at, k);
            }
        }
    }
}

/// Nothing is documented as a query or header parameter that no extractor reads from there.
pub proof fn only_what_is_read_is_documented(
    doc: Operation,
    shapes: Seq<SchemaShape>,
    op: OperationView,
    k: int,
)
    requires
        is_documented(doc, shapes, op),
        0 <= k < doc.parameters@.len(),
    ensures
        doc.parameters@[k].parameter_in == ParameterIn::Header ==> exists|at: int|
            0 <= at < op.parameters.len() && (#[trigger] op.parameters[at]).schema.location
                == ParameterLocation::Header && op.parameters[at].name
                == doc.parameters@[k].name@,
        doc.parameters@[k].parameter_in == ParameterIn::Query ==> exists|at: int|
            0 <= at < op.parameters.len() && (#[trigger] op.parameters[at]).schema.location
                == ParameterLocation::Query,
        doc.parameters@[k].parameter_in == ParameterIn::Path ==> names_from(op.path, 0).contains(
            doc.parameters@[k].name@,
        ),
{
    let n = op.parameters.len() as int;
    let names = names_from(op.path, 0);
    let extra = extra_parameters(shapes, op.parameters, n);
    let found = doc.parameters@[k]@;
    lemma_documented_parameters(doc, shapes, op);
    if k < names.len() {
        assert(found.name == names[k]);
    } else {
        assert(found == extra[k - names.len()]);
        assert(extra.contains(found));
        lemma_extra_parameter_origin(shapes, op.parameters, n, found);
        let at = choose|at: int|
            0 <= at < op.parameters.len() && extractor_parameters(
                shapes,
                #[trigger] op.parameters[at],
            ).contains(found);
        let here = extractor_parameters(shapes, op.parameters[at]);
        let i = choose|i: int| 0 <= i < here.len() && here[i] == found;
        assert(op.parameters[at].schema.location == ParameterLocation::Header
            || op.parameters[at].schema.location == ParameterLocation::Query);
    }
}

/// The one path parameter of a route has the type of the extractor that reads the path last, where
/// that is not an object with properties.
pub proof fn the_only_path_parameter_is_typed(
    doc: Operation,
    shapes: Seq<SchemaShape>,
    op: OperationView,
    at: int,
)
    requires
        is_documented(doc, shapes, op),
        names_from(op.path, 0).len() == 1,
        0 <= at < op.parameters.len(),
        op.parameters[at].schema.location == ParameterLocation::Path,
        op.parameters[at].schema.schema is Some,
        object_of(shapes, op.parameters[at].schema.schema->0) is None,
        forall|i: int|
            at < i < op.parameters.len() ==> (#[trigger] op.parameters[i]).schema.location
                != ParameterLocation::Path,
    ensures
        documents(
            doc,
            names_from(op.path, 0)[0],
            ParameterIn::Path,
            true,
            SchemaRef::Declared(op.parameters[at].schema.schema->0),
        ),
{
    let names = names_from(op.path, 0);
    let n = op.parameters.len() as int;
    lemma_typed_stays(shapes, op.parameters, names, at + 1, n);
    lemma_documented_parameters(doc, shapes, op);
    assert(doc.parameters@[0]@.name == names[0]);
    assert(doc.parameters@[0].name@ == names[0]);
}

/// A property that the extractor reading the path last has, an object, types the path parameter of
/// that name.
pub proof fn a_property_types_the_path_parameter(
    doc: Operation,
    shapes: Seq<SchemaShape>,
    op: OperationView,
    at: int,
    properties: Seq<(Seq<char>, usize)>,
    required: Seq<Seq<char>>,
    k: int,
    j: int,
)
    requires
        is_documented(doc, shapes, op),
        0 <= at < op.parameters.len(),
        op.parameters[at].schema.location == ParameterLocation::Path,
        op.parameters[at].schema.schema is Some,
        object_of(shapes, op.parameters[at].schema.schema->0) == Some((properties, required)),
        forall|i: int|
            at < i < op.parameters.len() ==> (#[trigger] op.parameters[i]).schema.location
                != ParameterLocation::Path,
        0 <= k < names_from(op.path, 0).len(),
        0 <= j < properties.len(),
        properties[j].0 == names_from(op.path, 0)[k],
        forall|i: int| j < i < properties.len() ==> (#[trigger] properties[i]).0 != properties[j].0,
    ensures
        documents(
            doc,
            properties[j].0,
            ParameterIn::Path,
            true,
            SchemaRef::Declared(properties[j].1),
        ),
{
    let names = names_from(op.path, 0);
    let n = op.parameters.len() as int;
    let before = typed_paths(shapes, op.parameters, names, at);
    lemma_typed_stays(shapes, op.parameters, names, at + 1, n);
    lemma_property_stands(before, properties, properties.len() as int, j);
    lemma_documented_parameters(doc, shapes, op);
    assert(doc.parameters@[k]@.name == names[k]);
    assert(doc.parameters@[k].name@ == names[k]);
}

proof fn lemma_property_stands(
    map: Map<Seq<char>, SchemaRef>,
    properties: Seq<(Seq<char>, usize)>,
    to: int,
    j: int,
)
    requires
        0 <= j < to <= properties.len(),
        forall|i: int| j < i < to ==> (#[trigger] properties[i]).0 != properties[j].0,
    ensures
        with_properties(map, properties, to).contains_key(properties[j].0),
        with_properties(map, properties, to)[properties[j].0] == SchemaRef::Declared(
            properties[j].1,
        ),
    decreases to,
{
    if j < to - 1 {
        lemma_property_stands(map, properties, to - 1, j);
        assert(properties[to - 1].0 != properties[j].0);
    }
}

proof fn lemma_typed_stays(
    shapes: Seq<SchemaShape>,
    parameters: Seq<NamedView>,
    names: Seq<Seq<char>>,
    from: int,
    to: int,
)
    requires
        0 <= from <= to <= parameters.len(),
        forall|i: int|
            from <= i < to ==> (#[trigger] parameters[i]).schema.location
                != ParameterLocation::Path,
    ensures
        typed_paths(shapes, parameters, names, to) == typed_paths(shapes, parameters, names, from),
    decreases to,
{
    if from < to {
        lemma_typed_stays(shapes, parameters, names, from, to - 1);
        assert(parameters[to - 1].schema.location != ParameterLocation::Path);
    }
}

/// Whether an extractor reads the body as a content type.
pub open spec fn reads_as(named: NamedView, content_type: Seq<char>) -> bool {
    named.schema.location == ParameterLocation::Body && (named.schema.content_type matches Some(ct)
        && ct@ == content_type)
}

/// What an extractor expects of the body.
pub open spec fn expected(named: NamedView) -> SchemaRef {
    match named.schema.schema {
        Some(schema) => SchemaRef::Declared(schema),
        None => SchemaRef::Anything,
    }
}

proof fn lemma_body_arguments(parameters: Seq<NamedView>, content_type: Seq<char>, to: int)
    requires
        0 <= to <= parameters.len(),
    ensures
        body_arguments(parameters, content_type, to).len() > 0 <==> exists|at: int|
            0 <= at < to && reads_as(#[trigger] parameters[at], content_type),
        forall|at: int|
            0 <= at < to && reads_as(#[trigger] parameters[at], content_type) ==> body_arguments(
                parameters,
                content_type,
                to,
            ).contains((parameters[at].name, expected(parameters[at]))),
        forall|k: int|
            0 <= k < body_arguments(parameters, content_type, to).len() ==> exists|at: int|
                0 <= at < to && reads_as(#[trigger] parameters[at], content_type) && (
                    parameters[at].name,
                    expected(parameters[at]),
                ) == #[trigger] body_arguments(parameters, content_type, to)[k],
    decreases to,
{
    if to > 0 {
        let before = body_arguments(parameters, content_type, to - 1);
        let all = body_arguments(parameters, content_type, to);
        lemma_body_arguments(parameters, content_type, to - 1);
        assert(body_argument(parameters[to - 1], content_type) is Some <==> reads_as(
            parameters[to - 1],
            content_type,
        ));
        assert forall|at: int|
            0 <= at < to && reads_as(#[trigger] parameters[at], content_type) implies all.contains(
            (parameters[at].name, expected(parameters[at])),
        ) by {
            let wanted = (parameters[at].name, expected(parameters[at]));
            if at < to - 1 {
                let i = choose|i: int| 0 <= i < before.len() && before[i] == wanted;
                assert(all[i] == wanted);
            } else {
                assert(all[before.len() as int] == wanted);
            }
        }
        assert forall|k: int| 0 <= k < all.len() implies exists|at: int|
            0 <= at < to && reads_as(#[trigger] parameters[at], content_type) && (
                parameters[at].name,
                expected(parameters[at]),
            ) == #[trigger] all[k] by {
            if k < before.len() {
                assert(all[k] == before[k]);
                let at = choose|at: int|
                    0 <= at < to - 1 && reads_as(#[trigger] parameters[at], content_type) && (
                        parameters[at].name,
                        expected(parameters[at]),
                    ) == before[k];
                assert(reads_as(parameters[at], content_type));
            } else {
                assert(reads_as(parameters[to - 1], content_type));
            }
        }
        if exists|at: int| 0 <= at < to && reads_as(#[trigger] parameters[at], content_type) {
            let at = choose|at: int| 0 <= at < to && reads_as(#[trigger] parameters[at], content_type);
            if at < to - 1 {
                assert(before.len() > 0);
            }
        }
        if all.len() > 0 {
            assert(all[0] == all[0]);
        }
    }
}

/// A request body is documented exactly where some extractor reads one, with each content type that
/// is read and no other. What a single extractor expects is the body itself; what several do are
/// its properties, each under its own name.
pub proof fn the_request_body_is_what_is_read(
    doc: Operation,
    shapes: Seq<SchemaShape>,
    op: OperationView,
)
    requires
        is_documented(doc, shapes, op),
    ensures
        doc.request_body is Some <==> exists|at: int, ct: Seq<char>|
            0 <= at < op.parameters.len() && #[trigger] reads_as(op.parameters[at], ct),
        doc.request_body matches Some(body) ==> forall|ct: Seq<char>| #[trigger]
            content_types(body.content@).contains(ct) <==> exists|at: int|
                0 <= at < op.parameters.len() && reads_as(#[trigger] op.parameters[at], ct),
        doc.request_body matches Some(body) ==> forall|k: int, at: int|
            #![trigger body.content@[k], op.parameters[at]]
            0 <= k < body.content@.len() && 0 <= at < op.parameters.len() && reads_as(
                op.parameters[at],
                body.content@[k].0@,
            ) ==> (match body.content@[k].1@ {
                BodySchemaView::Single(schema) => schema == expected(op.parameters[at]),
                BodySchemaView::Combined(list) => list.contains(
                    (op.parameters[at].name, expected(op.parameters[at])),
                ),
            }),
{
    let n = op.parameters.len() as int;
    assert forall|ct: Seq<char>| #[trigger] body_arguments(op.parameters, ct, n).len() > 0
        <==> exists|at: int| 0 <= at < n && reads_as(#[trigger] op.parameters[at], ct) by {
        lemma_body_arguments(op.parameters, ct, n);
    }
    if doc.request_body is Some {
        let ct = choose|ct: Seq<char>| #[trigger] body_arguments(op.parameters, ct, n).len() > 0;
        let at = choose|at: int| 0 <= at < n && reads_as(#[trigger] op.parameters[at], ct);
        assert(reads_as(op.parameters[at], ct));
        let body = doc.request_body->0;
        let types = content_types(body.content@);
        assert forall|k: int, at: int|
            #![trigger body.content@[k], op.parameters[at]]
            0 <= k < body.content@.len() && 0 <= at < n && reads_as(
                op.parameters[at],
                body.content@[k].0@,
            ) implies (match body.content@[k].1@ {
            BodySchemaView::Single(schema) => schema == expected(op.parameters[at]),
            BodySchemaView::Combined(list) => list.contains(
                (op.parameters[at].name, expected(op.parameters[at])),
            ),
        }) by {
            assert(types[k] == body.content@[k].0@);
            lemma_body_arguments(op.parameters, types[k], n);
            assert(reads_as(op.parameters[at], types[k]));
        }
    }
    if exists|at: int, ct: Seq<char>|
        0 <= at < n && #[trigger] reads_as(op.parameters[at], ct) {
        let (at, ct) = choose|at: int, ct: Seq<char>|
            0 <= at < n && #[trigger] reads_as(op.parameters[at], ct);
        assert(reads_as(op.parameters[at], ct));
        assert(body_arguments(op.parameters, ct, n).len() > 0);
    }
}

/// A route's operation keeps its path and method. With a specification it keeps what that says, and
/// without one it is known by its handler's name below its crate.
pub proof fn an_operation_is_that_of_its_route(
    registry: Seq<HandlerSpec>,
    entry: RouteOpenApiEntry,
    at: usize,
)
    requires
        entry.handler.spec is Some ==> entry.handler.spec == Some(at) && at < registry.len(),
    ensures
        ({
            let op = operation_for(registry, entry);
            let spec = registry[at as int];
            &&& op.path == entry.path@
            &&& op.method == entry.method@
            &&& op.handler_type == entry.handler.handler_type@
            &&& entry.handler.spec is Some ==> {
                &&& op.operation_id == spec.operation_name@
                &&& op.docs == spec.docs
                &&& op.deprecated == spec.deprecated
                &&& spec.response is Some ==> op.responses == spec.response->0@
                &&& spec.response is None ==> op.responses.len() == 0
            }
            &&& entry.handler.spec is None ==> {
                &&& op.operation_id == without_crate(entry.handler.handler_type@)
                &&& op.docs is None
                &&& !op.deprecated
                &&& op.parameters.len() == 0
                &&& op.responses.len() == 0
            }
        }),
{
}

/// Every argument of a handler that describes itself is a parameter of its operation under its name,
/// in order, and no other.
pub proof fn arguments_are_documented_in_order(
    parameters: Seq<Option<ExtractorSchema>>,
    names: Seq<String>,
    to: int,
)
    requires
        0 <= to <= parameters.len(),
        to <= names.len(),
        forall|i: int| 0 <= i < to ==> (#[trigger] parameters[i]) is Some,
    ensures
        documented_parameters(parameters, names, to).len() == to,
        forall|i: int|
            0 <= i < to ==> (#[trigger] documented_parameters(parameters, names, to)[i]).name
                == names[i]@ && documented_parameters(parameters, names, to)[i].schema
                == parameters[i]->0,
    decreases to,
{
    if to > 0 {
        arguments_are_documented_in_order(parameters, names, to - 1);
        assert(parameters[to - 1] is Some);
    }
}

/// An argument that does not describe itself leaves no trace.
pub proof fn silent_arguments_are_left_out(
    parameters: Seq<Option<ExtractorSchema>>,
    names: Seq<String>,
    to: int,
)
    requires
        0 < to <= parameters.len(),
    ensures
        parameters[to - 1] is None ==> documented_parameters(parameters, names, to)
            == documented_parameters(parameters, names, to - 1),
        parameters[to - 1] matches Some(schema) ==> {
            let all = documented_parameters(parameters, names, to);
            &&& all.len() > 0
            &&& all.drop_last() == documented_parameters(parameters, names, to - 1)
            &&& all.last().schema == schema
            &&& all.last().name == if to <= names.len() {
                names[to - 1]@
            } else {
                "param"@
            }
        },
{
    if parameters[to - 1] is Some {
        let all = documented_parameters(parameters, names, to);
        assert(all.drop_last() =~= documented_parameters(parameters, names, to - 1));
    }
}

proof fn lemma_documentable(operations: Seq<OperationView>, to: int)
    requires
        0 <= to <= operations.len(),
    ensures
        forall|i: int|
            0 <= i < to && operation_kind((#[trigger] operations[i]).method) is Some
                ==> documentable(operations, to).contains(i),
        forall|k: int|
            0 <= k < documentable(operations, to).len() ==> 0 <= #[trigger] documentable(
                operations,
                to,
            )[k] < to && operation_kind(operations[documentable(operations, to)[k]].method) is Some,
        forall|k: int, l: int|
            0 <= k < l < documentable(operations, to).len() ==> #[trigger] documentable(
                operations,
                to,
            )[k] < #[trigger] documentable(operations, to)[l],
    decreases to,
{
    if to > 0 {
        let before = documentable(operations, to - 1);
        let all = documentable(operations, to);
        lemma_documentable(operations, to - 1);
        assert forall|i: int|
            0 <= i < to && operation_kind((#[trigger] operations[i]).method) is Some implies all.contains(
            i,
        ) by {
            if i < to - 1 {
                let k = choose|k: int| 0 <= k < before.len() && before[k] == i;
                assert(all[k] == i);
            } else {
                assert(all[before.len() as int] == i);
            }
        }
    }
}

/// Every operation whose method the document can hold has an item with its path and method, once
/// and in order, and there are no other items.
pub proof fn every_operation_has_an_item(
    items: Seq<PathItem>,
    shapes: Seq<SchemaShape>,
    operations: Seq<OperationView>,
    i: int,
)
    requires
        are_items(items, shapes, operations, documentable(operations, operations.len() as int)),
        0 <= i < operations.len(),
        operation_kind(operations[i].method) is Some,
    ensures
        exists|k: int|
            {
                &&& 0 <= k < items.len()
                &&& (#[trigger] items[k]).path@ == operations[i].path
                &&& Some(items[k].method) == operation_kind(operations[i].method)
                &&& is_documented(items[k].operation, shapes, operations[i])
            },
        items.len() <= operations.len(),
{
    let kept = documentable(operations, operations.len() as int);
    lemma_documentable(operations, operations.len() as int);
    let k = choose|k: int| 0 <= k < kept.len() && kept[k] == i;
    assert(item_stands(items, shapes, operations, kept, k));
    lemma_documentable_len(operations, operations.len() as int);
}

proof fn lemma_documentable_len(operations: Seq<OperationView>, to: int)
    requires
        0 <= to <= operations.len(),
    ensures
        documentable(operations, to).len() <= to,
    decreases to,
{
    if to > 0 {
        lemma_documentable_len(operations, to - 1);
    }
}

/// Methods are told apart in the document, and those that are written otherwise are left out.
pub proof fn methods_are_told_apart(a: Seq<char>, b: Seq<char>)
    ensures
        operation_kind(a) is Some && operation_kind(a) == operation_kind(b) ==> a == b,
        operation_kind("GET"@) == Some(HttpMethod::Get),
        operation_kind("POST"@) == Some(HttpMethod::Post),
        operation_kind("PUT"@) == Some(HttpMethod::Put),
        operation_kind("DELETE"@) == Some(HttpMethod::Delete),
        operation_kind("PATCH"@) == Some(HttpMethod::Patch),
        operation_kind("OPTIONS"@) == Some(HttpMethod::Options),
        operation_kind("HEAD"@) == Some(HttpMethod::Head),
        operation_kind("TRACE"@) == Some(HttpMethod::Trace),
{
    reveal_strlit("GET");
    reveal_strlit("POST");
    reveal_strlit("PUT");
    reveal_strlit("DELETE");
    reveal_strlit("PATCH");
    reveal_strlit("OPTIONS");
    reveal_strlit("HEAD");
    reveal_strlit("TRACE");
    assert("GET"@[0] != "PUT"@[0]);
    assert("GET"@ != "PUT"@);
    assert("POST"@[0] != "HEAD"@[0]);
    assert("POST"@ != "HEAD"@);
    assert("PATCH"@[0] != "TRACE"@[0]);
    assert("PATCH"@ != "TRACE"@);
    assert("PUT"@.len() == 3 && "GET"@.len() == 3 && "POST"@.len() == 4 && "HEAD"@.len() == 4);
    assert("PATCH"@.len() == 5 && "TRACE"@.len() == 5 && "DELETE"@.len() == 6);
    assert("OPTIONS"@.len() == 7);
}

/// A path parameter is named by what stands in its braces, a catch-all without its asterisk, in the
/// order of the pattern.
pub proof fn parameters_are_named_by_their_braces(
    head: Seq<char>,
    name: Seq<char>,
    is_catch_all: bool,
    tail: Seq<char>,
)
    requires
        !head.contains('{'),
        !name.contains('}'),
        name.len() > 0,
        name[0] != '*',
    ensures
        names_from(head, 0) == Seq::<Seq<char>>::empty(),
        ({
            let mark = if is_catch_all {
                seq!['*']
            } else {
                Seq::empty()
            };
            names_from(head + seq!['{'] + mark + name + seq!['}'] + tail, 0) == seq![name]
                + names_from(tail, 0)
        }),
{
    let mark = if is_catch_all {
        seq!['*']
    } else {
        Seq::empty()
    };
    let whole = head + seq!['{'] + mark + name + seq!['}'] + tail;
    let raw = mark + name;
    let start = head.len() as int;
    let end = start + 1 + raw.len();
    lemma_find_contains(head, '{');
    assert(whole =~= head + (seq!['{'] + raw + seq!['}'] + tail));
    lemma_find_at(whole, '{', 0, start);
    assert forall|i: int| start + 1 <= i < end implies #[trigger] whole[i] != '}' by {
        assert(whole[i] == raw[i - start - 1]);
        if i - start - 1 >= mark.len() {
            assert(name.contains(name[i - start - 1 - mark.len()]));
        }
    }
    assert(whole[end] == '}');
    lemma_find_at(whole, '}', start + 1, end);
    assert(whole.subrange(start + 1, end) =~= raw);
    if is_catch_all {
        assert(raw.skip(1) =~= name);
    } else {
        assert(raw =~= name);
    }
    let front = whole.take(end + 1);
    assert(whole =~= front + tail);
    lemma_names_behind(front, tail, 0);
}

proof fn lemma_find_at(s: Seq<char>, c: char, from: int, at: int)
    requires
        0 <= from <= at < s.len(),
        s[at] == c,
        forall|i: int| from <= i < at ==> #[trigger] s[i] != c,
    ensures
        find(s, c, from) == at,
    decreases at - from,
{
    if from < at {
        lemma_find_at(s, c, from + 1, at);
    }
}

proof fn lemma_names_behind(head: Seq<char>, tail: Seq<char>, from: int)
    requires
        0 <= from <= tail.len(),
    ensures
        names_from(head + tail, head.len() + from) == names_from(tail, from),
    decreases tail.len() - from,
{
    let whole = head + tail;
    lemma_find_shift(head, tail, '{', from);
    lemma_find_bounds(tail, '{', from);
    let start = find(tail, '{', from);
    if start < tail.len() {
        lemma_find_shift(head, tail, '}', start + 1);
        lemma_find_bounds(tail, '}', start + 1);
        let end = find(tail, '}', start + 1);
        if end < tail.len() {
            assert(whole.subrange(head.len() + start + 1, head.len() + end) =~= tail.subrange(
                start + 1,
                end,
            ));
            lemma_names_behind(head, tail, end + 1);
        }
    }
}

/// A module path loses its crate, up to the first double colon, and nothing else.
pub proof fn only_the_crate_is_left_out(name: Seq<char>, rest: Seq<char>)
    requires
        !name.contains(':'),
    ensures
        without_crate(name + seq![':', ':'] + rest) == rest,
        without_crate(name) == name,
{
    let path = name + seq![':', ':'] + rest;
    lemma_double_colon(name, seq![':', ':'] + rest, 0);
    assert(path =~= name + (seq![':', ':'] + rest));
    assert(path.skip(name.len() as int + 2) =~= rest);
    lemma_double_colon(name, Seq::empty(), 0);
    assert(name + Seq::<char>::empty() =~= name);
}

proof fn lemma_double_colon(name: Seq<char>, rest: Seq<char>, from: int)
    requires
        !name.contains(':'),
        0 <= from <= name.len(),
        rest.len() == 0 || (rest.len() >= 2 && rest[0] == ':' && rest[1] == ':'),
    ensures
        double_colon(name + rest, from) == name.len(),
    decreases name.len() - from,
{
    let path = name + rest;
    if from < name.len() {
        assert(path[from] == name[from]);
        assert(name.contains(name[from]));
        lemma_double_colon(name, rest, from + 1);
    } else if rest.len() > 0 {
        assert(path[from] == rest[0] && path[from + 1] == rest[1]);
    }
}

/// Whether a line of documentation says something, and has no white space at its ends.
pub open spec fn is_said(line: Seq<char>) -> bool {
    line.len() > 0 && !line.contains('\n') && trim(line, Padding::WhiteSpace) == line
}

/// The summary of a documentation text is its first paragraph, on one line: blank lines before it are
/// passed over, and the blank line behind it ends it.
pub proof fn the_first_paragraph_is_the_summary(
    lead: Seq<Seq<char>>,
    said: Seq<Seq<char>>,
    blank: Seq<char>,
    rest: Seq<Seq<char>>,
)
    requires
        forall|i: int|
            0 <= i < lead.len() ==> is_blank_text(#[trigger] lead[i], Padding::WhiteSpace)
                && !lead[i].contains('\n'),
        said.len() > 0,
        forall|i: int| 0 <= i < said.len() ==> is_said(#[trigger] said[i]),
        is_blank_text(blank, Padding::WhiteSpace),
        !blank.contains('\n'),
        forall|i: int| 0 <= i < rest.len() ==> !(#[trigger] rest[i]).contains('\n'),
    ensures
        summary_of(join(lead + said, "\n"@)) == Some(join(said, " "@)),
        summary_of(join(lead + said + seq![blank] + rest, "\n"@)) == Some(join(said, " "@)),
{
    reveal_strlit("\n");
    assert("\n"@ =~= seq!['\n']);
    let short = lead + said;
    let long = lead + said + seq![blank] + rest;
    let end = (lead.len() + said.len()) as int;
    assert forall|i: int| 0 <= i < long.len() implies !(#[trigger] long[i]).contains('\n') by {
        if i < lead.len() {
            assert(long[i] == lead[i]);
        } else if i < end {
            assert(long[i] == said[i - lead.len()]);
            assert(is_said(said[i - lead.len()]));
        } else if i == end {
            assert(long[i] == blank);
        } else {
            assert(long[i] == rest[i - end - 1]);
        }
    }
    assert forall|i: int| 0 <= i < short.len() implies !(#[trigger] short[i]).contains('\n') by {
        assert(long[i] == short[i]);
    }
    joined_pieces_come_apart(short, '\n');
    joined_pieces_come_apart(long, '\n');
    lemma_blank_lines(lead, said, short, 0);
    lemma_blank_lines(lead, said, long, 0);
    let none = Seq::<Seq<char>>::empty();
    assert(said.take(0) =~= none);
    lemma_said_lines(lead, said, short, 0);
    trimming_leaves_no_padding(blank, Padding::WhiteSpace);
    assert(long[end] == blank);
    lemma_said_lines(lead, said, long, 0);
}

proof fn lemma_blank_lines(
    lead: Seq<Seq<char>>,
    said: Seq<Seq<char>>,
    lines: Seq<Seq<char>>,
    from: int,
)
    requires
        0 <= from <= lead.len() <= lines.len(),
        forall|i: int|
            0 <= i < lead.len() ==> is_blank_text(#[trigger] lead[i], Padding::WhiteSpace),
        forall|i: int| 0 <= i < lead.len() ==> #[trigger] lines[i] == lead[i],
    ensures
        paragraph(lines, from, Seq::empty()) == paragraph(lines, lead.len() as int, Seq::empty()),
    decreases lead.len() - from,
{
    if from < lead.len() {
        assert(lines[from] == lead[from]);
        trimming_leaves_no_padding(lead[from], Padding::WhiteSpace);
        lemma_blank_lines(lead, said, lines, from + 1);
    }
}

proof fn lemma_said_lines(
    lead: Seq<Seq<char>>,
    said: Seq<Seq<char>>,
    lines: Seq<Seq<char>>,
    from: int,
)
    requires
        0 <= from <= said.len(),
        said.len() > 0,
        lead.len() + said.len() <= lines.len(),
        forall|i: int| 0 <= i < said.len() ==> is_said(#[trigger] said[i]),
        forall|i: int|
            0 <= i < said.len() ==> #[trigger] said[i] == lines[lead.len() + i],
        lead.len() + said.len() < lines.len() ==> is_blank(lines[(lead.len() + said.len()) as int]),
    ensures
        paragraph(lines, lead.len() + from, said.take(from)) == said,
    decreases said.len() - from,
{
    if from < said.len() {
        assert(is_said(said[from]));
        assert(lines[lead.len() + from] == said[from]);
        assert(said.take(from).push(said[from]) =~= said.take(from + 1));
        lemma_said_lines(lead, said, lines, from + 1);
    } else {
        assert(said.take(from) =~= said);
    }
}

/// The named schemas of every documented handler are components, and nothing else is.
pub proof fn every_named_schema_is_a_component(
    registry: Seq<HandlerSpec>,
    entries: Seq<RouteOpenApiEntry>,
    to: int,
    name: Seq<char>,
)
    requires
        0 <= to <= entries.len(),
    ensures
        components_for(registry, entries, to).contains_key(name) <==> exists|i: int, k: int|
            0 <= i < to && (#[trigger] entries[i]).handler.spec is Some && 0 <= k < definitions(
                registry[entries[i].handler.spec->0 as int].schemas@,
            ).len() && (#[trigger] definitions(
                registry[entries[i].handler.spec->0 as int].schemas@,
            )[k]).0 == name,
    decreases to,
{
    if to > 0 {
        every_named_schema_is_a_component(registry, entries, to - 1, name);
        let before = components_for(registry, entries, to - 1);
        let last = entries[to - 1];
        if last.handler.spec is Some {
            let defs = definitions(registry[last.handler.spec->0 as int].schemas@);
            the_first_definition_stays(before, defs, name, 0);
            if exists|k: int| 0 <= k < defs.len() && (#[trigger] defs[k]).0 == name {
                let k = choose|k: int| 0 <= k < defs.len() && (#[trigger] defs[k]).0 == name;
                assert(entries[to - 1].handler.spec is Some && defs[k].0 == name);
            }
        }
    }
}

/// A document is served to `GET` at its mount path and at everything below it, and is itself not
/// documented.
pub proof fn a_document_answers_its_mount_path_and_below(
    node: RouteNode,
    mount_path: Seq<char>,
    endpoint: u64,
    i: int,
)
    requires
        is_document_node(node, mount_path, endpoint),
        0 <= i < 2,
    ensures
        node.path@ == mount_path,
        node.node_type is Route,
        node.node_type->Route_0.nodes@.len() == 2,
        node.node_type->Route_0.layers@.len() == 0,
        ({
            let inner = node.node_type->Route_0.nodes@[i];
            &&& inner.path@ == if i == 0 {
                ""@
            } else {
                "/{*path}"@
            }
            &&& inner.node_type is Endpoint
            &&& inner.node_type->endpoint == endpoint
            &&& inner.node_type->method is Exact
            &&& inner.node_type->method->Exact_0@ == "GET"@
            &&& inner.node_type->openapi is None
            &&& inner.node_type->requirements@.len() == 0
            &&& inner.node_type->Endpoint_middleware@.len() == 0
        }),
{
}

/// A document describes each route in its place, as it was declared.
pub proof fn every_route_is_described(
    api: OpenApi,
    registry: Seq<HandlerSpec>,
    wanted: Seq<EntryView>,
    i: int,
)
    requires
        describes(api, registry, wanted),
        0 <= i < wanted.len(),
    ensures
        api.operation_list().len() == wanted.len(),
        exists|entry: RouteOpenApiEntry|
            entry@ == wanted[i] && api.operation_list()[i] == #[trigger] operation_for(
                registry,
                entry,
            ),
{
    let entries = choose|entries: Seq<RouteOpenApiEntry>| #[trigger]
        entry_views(entries) == wanted && api.operation_list() == entries.map_values(
            |e: RouteOpenApiEntry| operation_for(registry, e),
        ) && api.components() == components_for(registry, entries, entries.len() as int);
    assert(entry_views(entries)[i] == entries[i]@);
    assert(api.operation_list()[i] == operation_for(registry, entries[i]));
}

/// A document stands in its page as it is.
pub proof fn a_page_holds_its_document(document: Seq<char>)
    ensures
        exists|before: Seq<char>, behind: Seq<char>|
            scalar_page(document) == #[trigger] (before + document + behind) && before.len() > 0
                && behind.len() > 0,
{
    let before =
        "<!doctype html><html><head><title>API reference</title><meta charset=\"utf-8\"/></head><body><script id=\"api-reference\" type=\"application/json\">"@;
    let behind =
        "</script><script src=\"https://cdn.jsdelivr.net/npm/@scalar/api-reference\"></script></body></html>"@;
    reveal_strlit(
        "<!doctype html><html><head><title>API reference</title><meta charset=\"utf-8\"/></head><body><script id=\"api-reference\" type=\"application/json\">",
    );
    reveal_strlit(
        "</script><script src=\"https://cdn.jsdelivr.net/npm/@scalar/api-reference\"></script></body></html>",
    );
    assert(scalar_page(document) == before + document + behind);
}

} // verus!
