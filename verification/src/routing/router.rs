//! The route tree, the router built from it, and how the router answers a request.

use matchit::Router as PathMatcher;
use vstd::prelude::*;
#[allow(unused_imports)]
use vstd::string::StringExecFns;

#[allow(unused_imports)]
use crate::openapi::entry::{entry_views, EntryView};
use crate::openapi::entry::{RouteHandlerDoc, RouteOpenApiEntry};
#[allow(unused_imports)]
use crate::routing::param::pair_texts;
use crate::routing::param::Params;
#[allow(unused_imports)]
use crate::routing::path::{
    collapse, decoding_undoes_percent_encoding, joined, percent_decoded, percent_encoded,
};
use crate::routing::path::{join_path, percent_decode};
#[allow(unused_imports)]
use crate::routing::table::{
    are_plain, filled, inserted, is_literal, matched, patterns, turned_down,
};
use crate::routing::table;
#[allow(unused_imports)]
use crate::text::{join, precedes, precedes_is_a_total_order, texts};
use crate::text::{contains_char, copy_text, join_texts, same, text_precedes};

verus! {

/// Which requests an endpoint node answers.
#[derive(Debug)]
pub enum MethodFilter {
    /// Only requests using this exact method.
    Exact(String),
    /// Every method that reaches the path, whatever it is.
    Any,
}

/// A method filter as it is written in listings and messages.
pub open spec fn filter_text(filter: MethodFilter) -> Seq<char> {
    match filter {
        MethodFilter::Exact(method) => method@,
        MethodFilter::Any => "ANY"@,
    }
}

impl MethodFilter {
    /// An equal value.
    pub fn copy(&self) -> (r: Self)
        ensures
            r == *self,
    {
        match self {
            MethodFilter::Exact(method) => MethodFilter::Exact(method.clone()),
            MethodFilter::Any => MethodFilter::Any,
        }
    }

    /// The filter as it is written in listings and messages.
    pub fn text(&self) -> (r: String)
        ensures
            r@ == filter_text(*self),
    {
        match self {
            MethodFilter::Exact(method) => method.clone(),
            MethodFilter::Any => copy_text("ANY"),
        }
    }
}

/// A value a handler's extractors need some middleware to provide.
#[derive(Debug)]
pub struct Requirement {
    /// Identifies the value's type.
    pub key: u64,
    /// The value, as a developer would name it.
    pub description: String,
    /// What to add to the route so that the value is provided.
    pub hint: String,
}

impl Requirement {
    /// An equal value.
    pub fn copy(&self) -> (r: Self)
        ensures
            r == *self,
    {
        Requirement {
            key: self.key,
            description: self.description.clone(),
            hint: self.hint.clone(),
        }
    }
}

/// A middleware registered on a route, together with the values it provides.
#[derive(Debug)]
pub struct Layer {
    /// Identifies the middleware.
    pub id: u64,
    /// The values it provides, by type.
    pub provisions: Vec<u64>,
}

/// A middleware with its provisions as a sequence.
#[verifier::ext_equal]
pub struct LayerView {
    /// See [`Layer::id`].
    pub id: u64,
    /// See [`Layer::provisions`].
    pub provisions: Seq<u64>,
}

impl View for Layer {
    type V = LayerView;

    open spec fn view(&self) -> LayerView {
        LayerView { id: self.id, provisions: self.provisions@ }
    }
}

/// A stack of middleware, outermost first.
pub open spec fn stack(layers: Seq<Layer>) -> Seq<LayerView> {
    layers.map_values(|l: Layer| l@)
}

impl Layer {
    /// The same middleware, for another place in the tree.
    pub fn copy(&self) -> (r: Self)
        ensures
            r@ == self@,
    {
        let mut provisions: Vec<u64> = Vec::new();
        let mut i: usize = 0;
        while i < self.provisions.len()
            invariant
                i <= self.provisions.len(),
                provisions@ == self.provisions@.take(i as int),
            decreases self.provisions.len() - i,
        {
            provisions.push(self.provisions[i]);
            i = i + 1;
            assert(self.provisions@.take(i as int) =~= self.provisions@.take(i - 1).push(
                self.provisions@[i - 1],
            ));
        }
        assert(self.provisions@.take(i as int) =~= self.provisions@);
        Layer { id: self.id, provisions }
    }
}

/// A handler registered on a route, together with the wiring it depends on.
#[derive(Debug)]
pub struct EndpointEntry {
    /// Identifies the handler.
    pub endpoint: u64,
    /// The values its extractors need.
    pub requirements: Vec<Requirement>,
}

/// A collection of route nodes anchored at a path prefix.
pub struct Route {
    /// All nodes that hang off the route's mount point.
    pub nodes: Vec<RouteNode>,
    /// Middleware wrapping the whole router, outermost first.
    pub layers: Vec<Layer>,
    /// Replacement for the built-in 404 response.
    pub fallback: Option<EndpointEntry>,
    /// Replacement for the built-in 405 response.
    pub method_not_allowed: Option<EndpointEntry>,
}

/// A single node in the routing tree.
pub struct RouteNode {
    /// The path segment represented by this node.
    pub path: String,
    /// The kind of node.
    pub node_type: RouteNodeType,
}

/// Distinguishes between nested routes, terminal endpoints and mounted routers.
pub enum RouteNodeType {
    /// Sub-route with additional child nodes.
    Route(Route),
    /// Terminal endpoint located at the node's path.
    Endpoint {
        /// Identifies the handler.
        endpoint: u64,
        /// Which requests the node answers.
        method: MethodFilter,
        /// Handler metadata for the OpenAPI document.
        openapi: Option<RouteHandlerDoc>,
        /// Values the handler's extractors need middleware to provide.
        requirements: Vec<Requirement>,
        /// Middleware wrapping this endpoint, outermost first.
        middleware: Vec<Layer>,
    },
    /// An already-built router mounted under the node's path.
    Nested {
        /// The mounted router, which sees paths with the mount prefix removed.
        router: Router,
        /// Middleware wrapping the mounted router, outermost first.
        middleware: Vec<Layer>,
    },
}

/// What answers a request that a route matched.
#[derive(Debug)]
pub enum Target {
    /// A registered handler.
    Endpoint(u64),
    /// A router mounted under a prefix.
    Mounted {
        /// The path the router is mounted at.
        prefix: String,
        /// Which of the routers mounted here.
        router: usize,
    },
}

/// A target with its texts as sequences of characters.
pub enum TargetView {
    /// See [`Target::Endpoint`].
    Endpoint(u64),
    /// See [`Target::Mounted`].
    Mounted {
        /// The path the router is mounted at.
        prefix: Seq<char>,
        /// Which of the routers mounted here.
        router: int,
    },
}

impl View for Target {
    type V = TargetView;

    open spec fn view(&self) -> TargetView {
        match self {
            Target::Endpoint(endpoint) => TargetView::Endpoint(*endpoint),
            Target::Mounted { prefix, router } => TargetView::Mounted {
                prefix: prefix@,
                router: *router as int,
            },
        }
    }
}

/// One registered handler plus the middleware wrapping it.
#[derive(Debug)]
pub struct App {
    /// What answers the request.
    pub target: Target,
    /// The middleware around it, outermost first.
    pub middleware: Vec<Layer>,
}

/// An application with its parts as plain values.
#[verifier::ext_equal]
pub struct AppView {
    /// See [`App::target`].
    pub target: TargetView,
    /// See [`App::middleware`].
    pub middleware: Seq<LayerView>,
}

impl View for App {
    type V = AppView;

    open spec fn view(&self) -> AppView {
        AppView { target: self.target@, middleware: stack(self.middleware@) }
    }
}

/// The handlers registered for one path.
#[derive(Debug)]
pub struct MethodTable {
    /// Handlers for exact methods, in registration order.
    pub entries: Vec<(String, App)>,
    /// Handler answering whatever the exact entries do not.
    pub any: Option<App>,
}

/// A method table with its parts as plain values.
#[verifier::ext_equal]
pub struct TableView {
    /// See [`MethodTable::entries`].
    pub entries: Seq<(Seq<char>, AppView)>,
    /// See [`MethodTable::any`].
    pub any: Option<AppView>,
}

impl View for MethodTable {
    type V = TableView;

    open spec fn view(&self) -> TableView {
        TableView {
            entries: self.entries@.map_values(|e: (String, App)| (e.0@, e.1@)),
            any: match self.any {
                Some(app) => Some(app@),
                None => None,
            },
        }
    }
}

/// The tables of a list.
pub open spec fn table_views(tables: Seq<MethodTable>) -> Seq<TableView> {
    tables.map_values(|t: MethodTable| t@)
}

/// The routes of a listing.
pub open spec fn route_views(routes: Seq<(MethodFilter, String)>) -> Seq<(MethodFilter, Seq<char>)> {
    routes.map_values(|r: (MethodFilter, String)| (r.0, r.1@))
}

/// An HTTP router built from a [`Route`].
pub struct Router {
    matcher: PathMatcher<usize>,
    paths: Vec<String>,
    tables: Vec<MethodTable>,
    layers: Vec<Layer>,
    fallback: Option<u64>,
    method_not_allowed: Option<u64>,
    routes: Vec<(MethodFilter, String)>,
    already_router_enabled: bool,
    alarm_handler: Option<u64>,
    mounted: Vec<Router>,
    openapi_entries: Vec<RouteOpenApiEntry>,
}

impl Router {
    /// The paths that have handlers.
    pub closed spec fn paths(&self) -> Seq<Seq<char>> {
        texts(self.paths@)
    }

    /// The handlers of each path.
    pub closed spec fn tables(&self) -> Seq<TableView> {
        table_views(self.tables@)
    }

    /// The middleware wrapping the whole router, outermost first.
    pub closed spec fn layer_stack(&self) -> Seq<LayerView> {
        stack(self.layers@)
    }

    /// The handler that stands in for the built-in 404 response.
    pub closed spec fn fallback_handler(&self) -> Option<u64> {
        self.fallback
    }

    /// The handler that stands in for the built-in 405 response.
    pub closed spec fn method_not_allowed_handler(&self) -> Option<u64> {
        self.method_not_allowed
    }

    /// Every method and path pair the router answers.
    pub closed spec fn listing(&self) -> Seq<(MethodFilter, Seq<char>)> {
        route_views(self.routes@)
    }

    /// Whether handlers may extract the router itself.
    pub closed spec fn programmable(&self) -> bool {
        self.already_router_enabled
    }

    /// The handler for alarm events.
    pub closed spec fn alarm(&self) -> Option<u64> {
        self.alarm_handler
    }

    /// The routers mounted inside this one.
    pub closed spec fn mounted_routers(&self) -> Seq<Router> {
        self.mounted@
    }

    /// What the router contributes to the OpenAPI document.
    pub closed spec fn operations(&self) -> Seq<EntryView> {
        entry_views(self.openapi_entries@)
    }

    /// The position that the path matcher gives a request path, and the parameters it captures.
    pub closed spec fn position(&self, path: Seq<char>) -> Option<
        (usize, Seq<(Seq<char>, Seq<char>)>),
    > {
        matched(inserted(self.matcher), path)
    }

    /// The path matcher holds exactly the paths, each with its position, and every mounted router
    /// that a table names exists.
    pub closed spec fn wf(&self) -> bool {
        &&& self.paths@.len() == self.tables@.len()
        &&& inserted(self.matcher) == positions(self.paths())
        &&& forall|i: int|
            0 <= i < self.tables().len() ==> table_in_range(
                #[trigger] self.tables()[i],
                self.mounted@.len(),
            )
    }
}

/// Each path with its position in the list.
pub open spec fn positions(paths: Seq<Seq<char>>) -> Seq<(Seq<char>, usize)> {
    Seq::new(paths.len(), |i: int| (paths[i], i as usize))
}

/// Whether an application that is a mounted router names one of the `mounted` routers.
pub open spec fn target_in_range(target: TargetView, mounted: nat) -> bool {
    target matches TargetView::Mounted { prefix, router } ==> 0 <= router < mounted
}

/// Whether all mounted routers that a table names exist.
pub open spec fn table_in_range(table: TableView, mounted: nat) -> bool {
    &&& forall|k: int|
        0 <= k < table.entries.len() ==> target_in_range(
            (#[trigger] table.entries[k]).1.target,
            mounted,
        )
    &&& table.any matches Some(app) ==> target_in_range(app.target, mounted)
}

/// Why a route tree cannot be built into a router.
#[derive(Debug)]
#[allow(inconsistent_fields)]
pub enum RouteBuildError {
    /// The same method has been registered multiple times for the same path.
    RepeatedMethod {
        /// Path that already has a handler registered.
        path: String,
        /// Conflicting HTTP method.
        method: String,
    },
    /// More than one catch-all handler was registered for the same path.
    RepeatedAny {
        /// Path that already has a catch-all handler.
        path: String,
    },
    /// The assembled path could never match a request.
    InvalidPath {
        /// The path as the route tree assembled it.
        path: String,
    },
    /// A router was mounted under a prefix containing a pattern segment.
    NestedPatternPrefix {
        /// The mount prefix that cannot be stripped.
        path: String,
    },
    /// An endpoint needs a value that no middleware on its ancestor chain provides.
    MissingProvision {
        /// Path of the endpoint whose wiring is incomplete.
        path: String,
        /// Which requests that endpoint answers.
        method: MethodFilter,
        /// The value that is missing.
        requirement: Requirement,
    },
    /// The path matcher rejected the path pattern, for the reason given.
    MatchitError(String),
}

/// A build error with its texts as sequences of characters.
#[allow(inconsistent_fields)]
pub enum BuildErrorView {
    /// See [`RouteBuildError::RepeatedMethod`].
    RepeatedMethod {
        /// Path that already has a handler registered.
        path: Seq<char>,
        /// Conflicting HTTP method.
        method: Seq<char>,
    },
    /// See [`RouteBuildError::RepeatedAny`].
    RepeatedAny {
        /// Path that already has a catch-all handler.
        path: Seq<char>,
    },
    /// See [`RouteBuildError::InvalidPath`].
    InvalidPath {
        /// The path as the route tree assembled it.
        path: Seq<char>,
    },
    /// See [`RouteBuildError::NestedPatternPrefix`].
    NestedPatternPrefix {
        /// The mount prefix that cannot be stripped.
        path: Seq<char>,
    },
    /// See [`RouteBuildError::MissingProvision`].
    MissingProvision {
        /// Path of the endpoint whose wiring is incomplete.
        path: Seq<char>,
        /// Which requests that endpoint answers.
        method: MethodFilter,
        /// The value that is missing.
        requirement: Requirement,
    },
    /// See [`RouteBuildError::MatchitError`].
    MatchitError(Seq<char>),
}

impl View for RouteBuildError {
    type V = BuildErrorView;

    open spec fn view(&self) -> BuildErrorView {
        match *self {
            RouteBuildError::RepeatedMethod { path, method } => BuildErrorView::RepeatedMethod {
                path: path@,
                method: method@,
            },
            RouteBuildError::RepeatedAny { path } => BuildErrorView::RepeatedAny { path: path@ },
            RouteBuildError::InvalidPath { path } => BuildErrorView::InvalidPath { path: path@ },
            RouteBuildError::NestedPatternPrefix { path } => BuildErrorView::NestedPatternPrefix {
                path: path@,
            },
            RouteBuildError::MissingProvision { path, method, requirement } => {
                BuildErrorView::MissingProvision { path: path@, method, requirement }
            },
            RouteBuildError::MatchitError(text) => BuildErrorView::MatchitError(text@),
        }
    }
}

/// The text of a build error.
pub open spec fn build_error_text(error: BuildErrorView) -> Seq<char> {
    match error {
        BuildErrorView::RepeatedMethod { path, method } => "method `"@ + method
            + "` is registered multiple times for path `"@ + path + "`"@,
        BuildErrorView::RepeatedAny { path } => "path `"@ + path
            + "` registers more than one catch-all (`any`) handler"@,
        BuildErrorView::InvalidPath { path } => "route path `"@ + path
            + "` cannot match any request: every mount prefix must start with `/`"@,
        BuildErrorView::NestedPatternPrefix { path } => "a router cannot be mounted at `"@ + path
            + "`: the prefix is removed from the request path literally, so it must not contain a `{name}` segment"@,
        BuildErrorView::MissingProvision { path, method, requirement } => "`"@ + filter_text(method)
            + " "@ + path + "` extracts `"@ + requirement.description@
            + "`, but nothing on its route provides it; add "@ + requirement.hint@
            + " to the route, or to the router with `.layer(..)`"@,
        BuildErrorView::MatchitError(text) => "invalid route pattern: "@ + text,
    }
}

impl RouteBuildError {
    /// The error's text.
    pub fn message(&self) -> (r: String)
        ensures
            r@ == build_error_text(self@),
    {
        let mut text = String::new();
        match self {
            RouteBuildError::RepeatedMethod { path, method } => {
                text.append("method `");
                text.append(method.as_str());
                text.append("` is registered multiple times for path `");
                text.append(path.as_str());
                text.append("`");
            },
            RouteBuildError::RepeatedAny { path } => {
                text.append("path `");
                text.append(path.as_str());
                text.append("` registers more than one catch-all (`any`) handler");
            },
            RouteBuildError::InvalidPath { path } => {
                text.append("route path `");
                text.append(path.as_str());
                text.append("` cannot match any request: every mount prefix must start with `/`");
            },
            RouteBuildError::NestedPatternPrefix { path } => {
                text.append("a router cannot be mounted at `");
                text.append(path.as_str());
                text.append(
                    "`: the prefix is removed from the request path literally, so it must not contain a `{name}` segment",
                );
            },
            RouteBuildError::MissingProvision { path, method, requirement } => {
                text.append("`");
                text.append(method.text().as_str());
                text.append(" ");
                text.append(path.as_str());
                text.append("` extracts `");
                text.append(requirement.description.as_str());
                text.append("`, but nothing on its route provides it; add ");
                text.append(requirement.hint.as_str());
                text.append(" to the route, or to the router with `.layer(..)`");
            },
            RouteBuildError::MatchitError(reason) => {
                text.append("invalid route pattern: ");
                text.append(reason.as_str());
            },
        }
        assert(text@ =~= build_error_text(self@));
        text
    }
}

/// Whether a list of nodes can be mounted: no route inside it carries router-wide settings.
pub open spec fn mountable(nodes: Seq<RouteNode>) -> bool
    decreases nodes,
{
    forall|i: int| 0 <= i < nodes.len() ==> mountable_node(#[trigger] nodes[i])
}

/// Whether a node can be mounted.
pub open spec fn mountable_node(node: RouteNode) -> bool
    decreases node,
{
    match node.node_type {
        RouteNodeType::Route(route) => {
            &&& route.layers@.len() == 0
            &&& route.fallback is None
            &&& route.method_not_allowed is None
            &&& mountable(route.nodes@)
        },
        RouteNodeType::Endpoint { .. } => true,
        RouteNodeType::Nested { .. } => true,
    }
}

/// One endpoint, flattened out of the tree with its full path and ancestor middleware.
pub struct FlatEndpoint {
    /// The full path.
    pub path: String,
    /// Which requests it answers.
    pub method: MethodFilter,
    /// What answers them.
    pub target: Target,
    /// The middleware around it, outermost first.
    pub middleware: Vec<Layer>,
    /// The values its extractors need.
    pub requirements: Vec<Requirement>,
}

/// A flattened endpoint with its parts as plain values.
#[verifier::ext_equal]
pub struct FlatView {
    /// See [`FlatEndpoint::path`].
    pub path: Seq<char>,
    /// See [`FlatEndpoint::method`].
    pub method: MethodFilter,
    /// See [`FlatEndpoint::target`].
    pub target: TargetView,
    /// See [`FlatEndpoint::middleware`].
    pub middleware: Seq<LayerView>,
    /// See [`FlatEndpoint::requirements`].
    pub requirements: Seq<Requirement>,
}

impl View for FlatEndpoint {
    type V = FlatView;

    open spec fn view(&self) -> FlatView {
        FlatView {
            path: self.path@,
            method: self.method,
            target: self.target@,
            middleware: stack(self.middleware@),
            requirements: self.requirements@,
        }
    }
}

/// What a route tree comes down to: its endpoints in tree order, the routers mounted in it and
/// what it contributes to the OpenAPI document.
pub struct FlatRoutes {
    /// The endpoints.
    pub flats: Vec<FlatEndpoint>,
    /// The mounted routers.
    pub mounted: Vec<Router>,
    /// The OpenAPI entries.
    pub openapi: Vec<RouteOpenApiEntry>,
}

/// Flattened routes with their parts as plain values.
#[verifier::ext_equal]
pub struct FlatRoutesView {
    /// See [`FlatRoutes::flats`].
    pub flats: Seq<FlatView>,
    /// See [`FlatRoutes::mounted`].
    pub mounted: Seq<Router>,
    /// See [`FlatRoutes::openapi`].
    pub openapi: Seq<EntryView>,
}

impl View for FlatRoutes {
    type V = FlatRoutesView;

    open spec fn view(&self) -> FlatRoutesView {
        FlatRoutesView {
            flats: self.flats@.map_values(|f: FlatEndpoint| f@),
            mounted: self.mounted@,
            openapi: entry_views(self.openapi@),
        }
    }
}

/// A mounted router's operations, under the prefix it is mounted at.
pub open spec fn prefixed(prefix: Seq<char>, entries: Seq<EntryView>) -> Seq<EntryView> {
    entries.map_values(
        |e: EntryView|
            EntryView { path: joined(prefix, e.path), method: e.method, handler: e.handler },
    )
}

/// The endpoint that hands everything reaching `path` to the router mounted at `prefix`.
pub open spec fn mount_point(
    path: Seq<char>,
    prefix: Seq<char>,
    router: int,
    middleware: Seq<LayerView>,
) -> FlatView {
    FlatView {
        path,
        method: MethodFilter::Any,
        target: TargetView::Mounted { prefix, router },
        middleware,
        requirements: Seq::empty(),
    }
}

/// Whether a path can match a request at all.
pub open spec fn is_rooted(path: Seq<char>) -> bool {
    path.len() > 0 && path[0] == '/'
}

/// The OpenAPI entries after those of an endpoint: a catch-all has no single operation to document.
pub open spec fn documented(
    entries: Seq<EntryView>,
    path: Seq<char>,
    method: MethodFilter,
    openapi: Option<RouteHandlerDoc>,
) -> Seq<EntryView> {
    match (openapi, method) {
        (Some(handler), MethodFilter::Exact(exact)) => entries.push(
            EntryView { path, method: exact@, handler },
        ),
        _ => entries,
    }
}

/// Add one node's endpoints to what has been flattened so far.
pub open spec fn flat_node(prefix: Seq<char>, node: RouteNode, sofar: FlatRoutesView) -> Result<
    FlatRoutesView,
    BuildErrorView,
>
    decreases node, 0int,
{
    let path = joined(prefix, node.path@);
    match node.node_type {
        RouteNodeType::Route(route) => flat_nodes(path, route.nodes@, 0, sofar),
        RouteNodeType::Endpoint { endpoint, method, openapi, requirements, middleware } => if !is_rooted(
            path,
        ) {
            Err(BuildErrorView::InvalidPath { path })
        } else {
            Ok(
                FlatRoutesView {
                    flats: sofar.flats.push(
                        FlatView {
                            path,
                            method,
                            target: TargetView::Endpoint(endpoint),
                            middleware: stack(middleware@),
                            requirements: requirements@,
                        },
                    ),
                    openapi: documented(sofar.openapi, path, method, openapi),
                    ..sofar
                },
            )
        },
        RouteNodeType::Nested { router, middleware } => if !is_rooted(path) {
            Err(BuildErrorView::InvalidPath { path })
        } else if path.contains('{') {
            Err(BuildErrorView::NestedPatternPrefix { path })
        } else {
            let index = sofar.mounted.len() as int;
            Ok(
                FlatRoutesView {
                    flats: sofar.flats.push(
                        mount_point(path, path, index, stack(middleware@)),
                    ).push(
                        mount_point(
                            joined(path, "/{*skyzen_nested}"@),
                            path,
                            index,
                            stack(middleware@),
                        ),
                    ),
                    mounted: sofar.mounted.push(router),
                    openapi: sofar.openapi + prefixed(path, router.operations()),
                },
            )
        },
    }
}

/// Add the endpoints of `nodes[from..]`, in order; the first unusable path ends it.
pub open spec fn flat_nodes(
    prefix: Seq<char>,
    nodes: Seq<RouteNode>,
    from: int,
    sofar: FlatRoutesView,
) -> Result<FlatRoutesView, BuildErrorView>
    decreases nodes, nodes.len() - from,
{
    if from < 0 || from >= nodes.len() {
        Ok(sofar)
    } else {
        match flat_node(prefix, nodes[from], sofar) {
            Ok(next) => flat_nodes(prefix, nodes, from + 1, next),
            Err(error) => Err(error),
        }
    }
}

/// Nothing flattened yet.
pub open spec fn no_routes() -> FlatRoutesView {
    FlatRoutesView { flats: Seq::empty(), mounted: Seq::empty(), openapi: Seq::empty() }
}

/// The same stack of middleware, for another endpoint.
fn copy_stack(layers: &Vec<Layer>) -> (r: Vec<Layer>)
    ensures
        stack(r@) == stack(layers@),
{
    let mut out: Vec<Layer> = Vec::new();
    let mut i: usize = 0;
    while i < layers.len()
        invariant
            i <= layers.len(),
            stack(out@) == stack(layers@).take(i as int),
        decreases layers.len() - i,
    {
        let ghost before = out@;
        out.push(layers[i].copy());
        assert(stack(out@) =~= stack(before).push(layers@[i as int]@));
        i = i + 1;
        assert(stack(layers@).take(i as int) =~= stack(layers@).take(i - 1).push(
            layers@[i - 1]@,
        ));
    }
    assert(stack(layers@).take(i as int) =~= stack(layers@));
    out
}

/// Append a mounted router's operations under its prefix.
fn append_prefixed(prefix: &str, router: &Router, out: &mut Vec<RouteOpenApiEntry>)
    ensures
        entry_views(final(out)@) == entry_views(old(out)@) + prefixed(
            prefix@,
            router.operations(),
        ),
{
    let entries = &router.openapi_entries;
    let mut i: usize = 0;
    assert(entry_views(out@) + prefixed(prefix@, router.operations()).take(0) =~= entry_views(
        out@,
    ));
    while i < entries.len()
        invariant
            i <= entries.len(),
            *entries == router.openapi_entries,
            entry_views(out@) == entry_views(old(out)@) + prefixed(
                prefix@,
                router.operations(),
            ).take(i as int),
        decreases entries.len() - i,
    {
        let ghost before = out@;
        let entry = &entries[i];
        out.push(
            RouteOpenApiEntry::new(
                join_path(prefix, entry.path.as_str()),
                entry.method.clone(),
                entry.handler.copy(),
            ),
        );
        i = i + 1;
        proof {
            let all = prefixed(prefix@, router.operations());
            assert(router.operations()[i - 1] == entry@);
            assert(entry_views(out@) =~= entry_views(before).push(all[i - 1]));
            assert(all.take(i as int) =~= all.take(i - 1).push(all[i - 1]));
        }
    }
    assert(prefixed(prefix@, router.operations()).take(i as int) =~= prefixed(
        prefix@,
        router.operations(),
    ));
}

/// Whether a path starts with a slash.
fn rooted(path: &str) -> (r: bool)
    ensures
        r == is_rooted(path@),
{
    path.unicode_len() > 0 && path.get_char(0) == '/'
}

/// Flatten the endpoints out of a list of nodes.
fn flatten(prefix: &str, nodes: Vec<RouteNode>, out: &mut FlatRoutes) -> (r: Result<
    (),
    RouteBuildError,
>)
    ensures
        match r {
            Ok(()) => flat_nodes(prefix@, nodes@, 0, old(out)@) == Ok::<
                FlatRoutesView,
                BuildErrorView,
            >(final(out)@),
            Err(error) => flat_nodes(prefix@, nodes@, 0, old(out)@) == Err::<
                FlatRoutesView,
                BuildErrorView,
            >(error@),
        },
    decreases nodes,
{
    let ghost all = nodes@;
    for node in it: nodes
        invariant
            it.seq() == all,
            all == nodes@,
            flat_nodes(prefix@, all, 0, old(out)@) == flat_nodes(
                prefix@,
                all,
                it.index() as int,
                out@,
            ),
    {
        proof {
            reveal_with_fuel(flat_node, 2);
            reveal_with_fuel(flat_nodes, 2);
        }
        let ghost at = it.index() as int;
        let ghost before = out@;
        assert(node == all[at]);
        assert(decreases_to!(nodes => nodes@));
        assert(decreases_to!(nodes@ => nodes@[at]));
        let path = join_path(prefix, node.path.as_str());
        match node.node_type {
            RouteNodeType::Route(route) => {
                match flatten(path.as_str(), route.nodes, out) {
                    Ok(()) => {},
                    Err(error) => {
                        return Err(error);
                    },
                }
            },
            RouteNodeType::Endpoint { endpoint, method, openapi, requirements, middleware } => {
                if !rooted(path.as_str()) {
                    return Err(RouteBuildError::InvalidPath { path });
                }
                if let Some(handler) = openapi {
                    if let MethodFilter::Exact(exact) = &method {
                        let ghost entries = out.openapi@;
                        out.openapi.push(
                            RouteOpenApiEntry::new(path.clone(), exact.clone(), handler),
                        );
                        assert(entry_views(out.openapi@) =~= entry_views(entries).push(
                            EntryView { path: path@, method: exact@, handler },
                        ));
                    }
                }
                let flat = FlatEndpoint {
                    path,
                    method,
                    target: Target::Endpoint(endpoint),
                    middleware,
                    requirements,
                };
                out.flats.push(flat);
                assert(out@.flats =~= before.flats.push(flat@));
            },
            RouteNodeType::Nested { router, middleware } => {
                if !rooted(path.as_str()) {
                    return Err(RouteBuildError::InvalidPath { path });
                }
                if contains_char(path.as_str(), '{') {
                    return Err(RouteBuildError::NestedPatternPrefix { path });
                }
                append_prefixed(path.as_str(), &router, &mut out.openapi);
                let index = out.mounted.len();
                let below = join_path(path.as_str(), "/{*skyzen_nested}");
                let first = FlatEndpoint {
                    path: path.clone(),
                    method: MethodFilter::Any,
                    target: Target::Mounted { prefix: path.clone(), router: index },
                    middleware: copy_stack(&middleware),
                    requirements: Vec::new(),
                };
                let second = FlatEndpoint {
                    path: below,
                    method: MethodFilter::Any,
                    target: Target::Mounted { prefix: path, router: index },
                    middleware,
                    requirements: Vec::new(),
                };
                out.flats.push(first);
                out.flats.push(second);
                out.mounted.push(router);
                assert(first@ =~= mount_point(path@, path@, index as int, stack(middleware@)));
                assert(second@ =~= mount_point(below@, path@, index as int, stack(middleware@)));
                assert(out@.flats =~= before.flats.push(first@).push(second@));
            },
        }
    }
    Ok(())
}

/// Whether some middleware in `available` provides the value `key`.
pub open spec fn provided(available: Seq<LayerView>, key: u64) -> bool {
    exists|i: int| 0 <= i < available.len() && (#[trigger] available[i]).provisions.contains(key)
}

/// The first requirement at or after `from` that nothing in `available` provides.
pub open spec fn first_unmet(
    requirements: Seq<Requirement>,
    available: Seq<LayerView>,
    from: int,
) -> Option<Requirement>
    decreases requirements.len() - from,
{
    if from < 0 || from >= requirements.len() {
        None
    } else if !provided(available, requirements[from].key) {
        Some(requirements[from])
    } else {
        first_unmet(requirements, available, from + 1)
    }
}

/// Whether a list of numbers holds `key`.
fn holds(list: &Vec<u64>, key: u64) -> (r: bool)
    ensures
        r == list@.contains(key),
{
    let mut i: usize = 0;
    while i < list.len()
        invariant
            i <= list.len(),
            forall|j: int| 0 <= j < i ==> list@[j] != key,
        decreases list.len() - i,
    {
        if list[i] == key {
            return true;
        }
        i = i + 1;
    }
    false
}

/// Whether some middleware of a stack provides the value `key`.
fn stack_provides(layers: &Vec<Layer>, key: u64) -> (r: bool)
    ensures
        r == provided(stack(layers@), key),
{
    let mut i: usize = 0;
    while i < layers.len()
        invariant
            i <= layers.len(),
            forall|j: int| 0 <= j < i ==> !(#[trigger] stack(layers@)[j]).provisions.contains(key),
        decreases layers.len() - i,
    {
        assert(stack(layers@)[i as int] == layers@[i as int]@);
        if holds(&layers[i].provisions, key) {
            return true;
        }
        i = i + 1;
    }
    false
}

/// Check that the router's layers and an endpoint's own middleware provide what it needs.
fn check_requirements(
    path: &str,
    method: &MethodFilter,
    requirements: &Vec<Requirement>,
    layers: &Vec<Layer>,
    middleware: &Vec<Layer>,
) -> (r: Result<(), RouteBuildError>)
    ensures
        match r {
            Ok(()) => first_unmet(requirements@, stack(layers@) + stack(middleware@), 0) is None,
            Err(error) => {
                &&& first_unmet(requirements@, stack(layers@) + stack(middleware@), 0) is Some
                &&& error@ == (BuildErrorView::MissingProvision {
                    path: path@,
                    method: *method,
                    requirement: first_unmet(
                        requirements@,
                        stack(layers@) + stack(middleware@),
                        0,
                    )->0,
                })
            },
        },
{
    let ghost available = stack(layers@) + stack(middleware@);
    let mut i: usize = 0;
    while i < requirements.len()
        invariant
            i <= requirements.len(),
            available == stack(layers@) + stack(middleware@),
            first_unmet(requirements@, available, 0) == first_unmet(
                requirements@,
                available,
                i as int,
            ),
        decreases requirements.len() - i,
    {
        let key = requirements[i].key;
        let outer = stack_provides(layers, key);
        let inner = stack_provides(middleware, key);
        proof {
            let a = stack(layers@);
            let b = stack(middleware@);
            if outer {
                let j = choose|j: int|
                    0 <= j < a.len() && (#[trigger] a[j]).provisions.contains(key);
                assert(available[j] == a[j]);
            }
            if inner {
                let j = choose|j: int|
                    0 <= j < b.len() && (#[trigger] b[j]).provisions.contains(key);
                assert(available[a.len() + j] == b[j]);
            }
            if provided(available, key) {
                let j = choose|j: int|
                    0 <= j < available.len() && (#[trigger] available[j]).provisions.contains(key);
                if j < a.len() {
                    assert(a[j] == available[j]);
                } else {
                    assert(b[j - a.len()] == available[j]);
                }
            }
        }
        if !outer && !inner {
            return Err(
                RouteBuildError::MissingProvision {
                    path: copy_text(path),
                    method: method.copy(),
                    requirement: requirements[i].copy(),
                },
            );
        }
        i = i + 1;
    }
    Ok(())
}

/// Whether two filters claim the same requests.
pub open spec fn same_filter(a: MethodFilter, b: MethodFilter) -> bool {
    match (a, b) {
        (MethodFilter::Exact(x), MethodFilter::Exact(y)) => x@ == y@,
        (MethodFilter::Any, MethodFilter::Any) => true,
        _ => false,
    }
}

/// Whether an endpoint is registered for the same path and requests as an earlier one.
pub open spec fn is_repeated(flats: Seq<FlatView>, at: int) -> bool {
    exists|j: int|
        0 <= j < at && (#[trigger] flats[j]).path == flats[at].path && same_filter(
            flats[j].method,
            flats[at].method,
        )
}

/// What is wrong with an endpoint, given those before it.
pub open spec fn flat_error(flats: Seq<FlatView>, globals: Seq<LayerView>, at: int) -> Option<
    BuildErrorView,
> {
    let flat = flats[at];
    match first_unmet(flat.requirements, globals + flat.middleware, 0) {
        Some(requirement) => Some(
            BuildErrorView::MissingProvision { path: flat.path, method: flat.method, requirement },
        ),
        None => if is_repeated(flats, at) {
            match flat.method {
                MethodFilter::Exact(method) => Some(
                    BuildErrorView::RepeatedMethod { path: flat.path, method: method@ },
                ),
                MethodFilter::Any => Some(BuildErrorView::RepeatedAny { path: flat.path }),
            }
        } else {
            None
        },
    }
}

/// The first error among the endpoints from `from` on.
pub open spec fn first_flat_error(
    flats: Seq<FlatView>,
    globals: Seq<LayerView>,
    from: int,
) -> Option<BuildErrorView>
    decreases flats.len() - from,
{
    if from < 0 || from >= flats.len() {
        None
    } else if flat_error(flats, globals, from) is Some {
        flat_error(flats, globals, from)
    } else {
        first_flat_error(flats, globals, from + 1)
    }
}

/// The exact-method handlers of a path, in registration order.
pub open spec fn entries_for(flats: Seq<FlatView>, path: Seq<char>) -> Seq<(Seq<char>, AppView)>
    decreases flats.len(),
{
    if flats.len() == 0 {
        Seq::empty()
    } else {
        let rest = entries_for(flats.drop_last(), path);
        let flat = flats.last();
        match flat.method {
            MethodFilter::Exact(method) => if flat.path == path {
                rest.push((method@, AppView { target: flat.target, middleware: flat.middleware }))
            } else {
                rest
            },
            MethodFilter::Any => rest,
        }
    }
}

/// The catch-all handler of a path.
pub open spec fn any_for(flats: Seq<FlatView>, path: Seq<char>) -> Option<AppView>
    decreases flats.len(),
{
    if flats.len() == 0 {
        None
    } else if flats.last().path == path && flats.last().method is Any {
        Some(AppView { target: flats.last().target, middleware: flats.last().middleware })
    } else {
        any_for(flats.drop_last(), path)
    }
}

/// The handlers of a path.
pub open spec fn table_for(flats: Seq<FlatView>, path: Seq<char>) -> TableView {
    TableView { entries: entries_for(flats, path), any: any_for(flats, path) }
}

/// The paths of the endpoints, each once, in the order they first occur.
pub open spec fn distinct_paths(flats: Seq<FlatView>) -> Seq<Seq<char>>
    decreases flats.len(),
{
    if flats.len() == 0 {
        Seq::empty()
    } else {
        let rest = distinct_paths(flats.drop_last());
        if rest.contains(flats.last().path) {
            rest
        } else {
            rest.push(flats.last().path)
        }
    }
}

/// The first reason for which the path matcher refuses one of the paths from `from` on.
pub open spec fn first_refusal(paths: Seq<Seq<char>>, from: int) -> Option<Seq<char>>
    decreases paths.len() - from,
{
    if from < 0 || from >= paths.len() {
        None
    } else if turned_down(paths.take(from), paths[from]) is Some {
        turned_down(paths.take(from), paths[from])
    } else {
        first_refusal(paths, from + 1)
    }
}

/// Whether every path is a literal one.
pub open spec fn are_literal(paths: Seq<Seq<char>>) -> bool {
    forall|k: int| 0 <= k < paths.len() ==> is_literal(#[trigger] paths[k])
}

/// Whether endpoint `at` is registered for exactly this path and method.
pub open spec fn is_exactly(
    flats: Seq<FlatView>,
    at: int,
    path: Seq<char>,
    method: Seq<char>,
) -> bool {
    &&& flats[at].path == path
    &&& flats[at].method matches MethodFilter::Exact(m) && m@ == method
}

/// Whether endpoint `at` is the catch-all of this path.
pub open spec fn is_catch_all(flats: Seq<FlatView>, at: int, path: Seq<char>) -> bool {
    flats[at].path == path && flats[at].method is Any
}

proof fn lemma_entries(flats: Seq<FlatView>, path: Seq<char>, method: Seq<char>)
    ensures
        (exists|k: int|
            0 <= k < entries_for(flats, path).len() && (#[trigger] entries_for(flats, path)[k]).0
                == method) <==> (exists|j: int|
            0 <= j < flats.len() && #[trigger] is_exactly(flats, j, path, method)),
    decreases flats.len(),
{
    let entries = entries_for(flats, path);
    if flats.len() > 0 {
        let init = flats.drop_last();
        let n = init.len() as int;
        let before = entries_for(init, path);
        lemma_entries(init, path, method);
        if exists|k: int| 0 <= k < entries.len() && (#[trigger] entries[k]).0 == method {
            let k = choose|k: int| 0 <= k < entries.len() && (#[trigger] entries[k]).0 == method;
            if k < before.len() {
                assert(before[k].0 == method);
                let j = choose|j: int|
                    0 <= j < init.len() && #[trigger] is_exactly(init, j, path, method);
                assert(is_exactly(flats, j, path, method));
            } else {
                assert(is_exactly(flats, n, path, method));
            }
        }
        if exists|j: int| 0 <= j < flats.len() && #[trigger] is_exactly(flats, j, path, method) {
            let j = choose|j: int|
                0 <= j < flats.len() && #[trigger] is_exactly(flats, j, path, method);
            if j < n {
                assert(is_exactly(init, j, path, method));
                let k = choose|k: int| 0 <= k < before.len() && (#[trigger] before[k]).0 == method;
                assert(entries[k].0 == method);
            } else {
                assert(entries[before.len() as int].0 == method);
            }
        }
    }
}

proof fn lemma_any(flats: Seq<FlatView>, path: Seq<char>)
    ensures
        any_for(flats, path) is Some <==> (exists|j: int|
            0 <= j < flats.len() && #[trigger] is_catch_all(flats, j, path)),
    decreases flats.len(),
{
    if flats.len() > 0 {
        let init = flats.drop_last();
        let n = init.len() as int;
        lemma_any(init, path);
        if any_for(init, path) is Some {
            let j = choose|j: int| 0 <= j < init.len() && #[trigger] is_catch_all(init, j, path);
            assert(is_catch_all(flats, j, path));
        }
        if is_catch_all(flats, n, path) {
            assert(any_for(flats, path) is Some);
        }
        if exists|j: int| 0 <= j < flats.len() && #[trigger] is_catch_all(flats, j, path) {
            let j = choose|j: int| 0 <= j < flats.len() && #[trigger] is_catch_all(flats, j, path);
            if j < n {
                assert(is_catch_all(init, j, path));
            }
        }
    }
}

/// Whether endpoint `at` has this path.
pub open spec fn is_at(flats: Seq<FlatView>, at: int, path: Seq<char>) -> bool {
    flats[at].path == path
}

proof fn lemma_distinct(flats: Seq<FlatView>, path: Seq<char>)
    ensures
        distinct_paths(flats).no_duplicates(),
        distinct_paths(flats).contains(path) <==> (exists|j: int|
            0 <= j < flats.len() && #[trigger] is_at(flats, j, path)),
    decreases flats.len(),
{
    let all = distinct_paths(flats);
    if flats.len() > 0 {
        let init = flats.drop_last();
        let n = init.len() as int;
        let rest = distinct_paths(init);
        lemma_distinct(init, path);
        if all.contains(path) {
            let i = choose|i: int| 0 <= i < all.len() && all[i] == path;
            if i < rest.len() {
                assert(rest[i] == path);
                let j = choose|j: int| 0 <= j < init.len() && #[trigger] is_at(init, j, path);
                assert(is_at(flats, j, path));
            } else {
                assert(is_at(flats, n, path));
            }
        }
        if exists|j: int| 0 <= j < flats.len() && #[trigger] is_at(flats, j, path) {
            let j = choose|j: int| 0 <= j < flats.len() && #[trigger] is_at(flats, j, path);
            if j < n {
                assert(is_at(init, j, path));
                let i = choose|i: int| 0 <= i < rest.len() && rest[i] == path;
                assert(all[i] == path);
            } else if rest.contains(path) {
                let i = choose|i: int| 0 <= i < rest.len() && rest[i] == path;
                assert(all[i] == path);
            } else {
                assert(all[rest.len() as int] == path);
            }
        }
    }
}

/// A path without endpoints has an empty table.
proof fn lemma_no_table(flats: Seq<FlatView>, path: Seq<char>)
    requires
        !distinct_paths(flats).contains(path),
    ensures
        table_for(flats, path) == (TableView { entries: Seq::empty(), any: None }),
{
    lemma_distinct(flats, path);
    lemma_any(flats, path);
    if any_for(flats, path) is Some {
        let j = choose|j: int| 0 <= j < flats.len() && #[trigger] is_catch_all(flats, j, path);
        assert(is_at(flats, j, path));
    }
    if entries_for(flats, path).len() > 0 {
        let method = entries_for(flats, path)[0].0;
        lemma_entries(flats, path, method);
        let j = choose|j: int|
            0 <= j < flats.len() && #[trigger] is_exactly(flats, j, path, method);
        assert(is_at(flats, j, path));
    }
    assert(entries_for(flats, path) =~= Seq::empty());
}

/// Whether all mounted routers that the endpoints name exist.
pub open spec fn flats_in_range(flats: Seq<FlatView>, mounted: nat) -> bool {
    forall|j: int|
        0 <= j < flats.len() ==> target_in_range((#[trigger] flats[j]).target, mounted)
}

proof fn lemma_table_in_range(flats: Seq<FlatView>, path: Seq<char>, mounted: nat)
    requires
        flats_in_range(flats, mounted),
    ensures
        table_in_range(table_for(flats, path), mounted),
    decreases flats.len(),
{
    if flats.len() > 0 {
        assert(forall|j: int|
            0 <= j < flats.drop_last().len() ==> #[trigger] flats.drop_last()[j] == flats[j]);
        lemma_table_in_range(flats.drop_last(), path, mounted);
        let before = entries_for(flats.drop_last(), path);
        let entries = entries_for(flats, path);
        assert forall|k: int| 0 <= k < entries.len() implies target_in_range(
            (#[trigger] entries[k]).1.target,
            mounted,
        ) by {
            if k < before.len() {
                assert(entries[k] == before[k]);
                assert(target_in_range(
                    table_for(flats.drop_last(), path).entries[k].1.target,
                    mounted,
                ));
            }
        }
    }
}

proof fn lemma_flat_node_in_range(prefix: Seq<char>, node: RouteNode, sofar: FlatRoutesView)
    requires
        flats_in_range(sofar.flats, sofar.mounted.len()),
    ensures
        flat_node(prefix, node, sofar) matches Ok(next) ==> flats_in_range(
            next.flats,
            next.mounted.len(),
        ) && next.mounted.len() >= sofar.mounted.len(),
    decreases node, 0int,
{
    reveal_with_fuel(flat_node, 2);
    match node.node_type {
        RouteNodeType::Route(route) => {
            lemma_flat_nodes_in_range(joined(prefix, node.path@), route.nodes@, 0, sofar);
        },
        _ => {},
    }
}

proof fn lemma_flat_nodes_in_range(
    prefix: Seq<char>,
    nodes: Seq<RouteNode>,
    from: int,
    sofar: FlatRoutesView,
)
    requires
        flats_in_range(sofar.flats, sofar.mounted.len()),
    ensures
        flat_nodes(prefix, nodes, from, sofar) matches Ok(next) ==> flats_in_range(
            next.flats,
            next.mounted.len(),
        ) && next.mounted.len() >= sofar.mounted.len(),
    decreases nodes, nodes.len() - from,
{
    if 0 <= from < nodes.len() {
        reveal_with_fuel(flat_nodes, 2);
        lemma_flat_node_in_range(prefix, nodes[from], sofar);
        match flat_node(prefix, nodes[from], sofar) {
            Ok(next) => {
                lemma_flat_nodes_in_range(prefix, nodes, from + 1, next);
            },
            Err(_) => {},
        }
    }
}

/// The endpoints as plain values.
pub open spec fn flat_views(flats: Seq<FlatEndpoint>) -> Seq<FlatView> {
    flats.map_values(|f: FlatEndpoint| f@)
}

/// The method and path of each endpoint.
pub open spec fn registrations(flats: Seq<FlatView>) -> Seq<(MethodFilter, Seq<char>)> {
    flats.map_values(|f: FlatView| (f.method, f.path))
}

/// The position of a path in a list, or the list's length.
fn position_of(paths: &Vec<String>, path: &str) -> (r: usize)
    ensures
        r <= paths.len(),
        r < paths.len() ==> texts(paths@)[r as int] == path@,
        r == paths.len() ==> !texts(paths@).contains(path@),
{
    let mut i: usize = 0;
    while i < paths.len()
        invariant
            i <= paths.len(),
            forall|j: int| 0 <= j < i ==> #[trigger] texts(paths@)[j] != path@,
        decreases paths.len() - i,
    {
        assert(texts(paths@)[i as int] == paths@[i as int]@);
        if same(paths[i].as_str(), path) {
            return i;
        }
        i = i + 1;
    }
    i
}

/// Whether a table has a handler for exactly this method.
fn has_method(entries: &Vec<(String, App)>, method: &str) -> (r: bool)
    ensures
        r == exists|k: int| 0 <= k < entries@.len() && (#[trigger] entries@[k]).0@ == method@,
{
    let mut i: usize = 0;
    while i < entries.len()
        invariant
            i <= entries.len(),
            forall|k: int| 0 <= k < i ==> (#[trigger] entries@[k]).0@ != method@,
        decreases entries.len() - i,
    {
        if same(entries[i].0.as_str(), method) {
            return true;
        }
        i = i + 1;
    }
    false
}

/// Distribute the endpoints over their paths, rejecting duplicates and unwired extractors.
fn place(flats: Vec<FlatEndpoint>, layers: &Vec<Layer>) -> (r: Result<
    (Vec<String>, Vec<MethodTable>, Vec<(MethodFilter, String)>),
    RouteBuildError,
>)
    ensures
        match r {
            Ok((paths, tables, routes)) => {
                &&& first_flat_error(flat_views(flats@), stack(layers@), 0) is None
                &&& texts(paths@) == distinct_paths(flat_views(flats@))
                &&& tables@.len() == paths@.len()
                &&& forall|k: int|
                    0 <= k < tables@.len() ==> (#[trigger] tables@[k])@ == table_for(
                        flat_views(flats@),
                        paths@[k]@,
                    )
                &&& route_views(routes@) == registrations(flat_views(flats@))
            },
            Err(error) => first_flat_error(flat_views(flats@), stack(layers@), 0) == Some(error@),
        },
{
    let ghost all = flat_views(flats@);
    let ghost globals = stack(layers@);
    let mut paths: Vec<String> = Vec::new();
    let mut tables: Vec<MethodTable> = Vec::new();
    let mut routes: Vec<(MethodFilter, String)> = Vec::new();
    assert(all.take(0) =~= Seq::empty());
    assert(texts(paths@) =~= Seq::empty());
    assert(route_views(routes@) =~= registrations(all.take(0)));
    for flat in it: flats
        invariant
            it.seq() == flats@,
            all == flat_views(flats@),
            globals == stack(layers@),
            first_flat_error(all, globals, 0) == first_flat_error(
                all,
                globals,
                it.index() as int,
            ),
            texts(paths@) == distinct_paths(all.take(it.index() as int)),
            tables@.len() == paths@.len(),
            forall|k: int|
                0 <= k < tables@.len() ==> (#[trigger] tables@[k])@ == table_for(
                    all.take(it.index() as int),
                    paths@[k]@,
                ),
            route_views(routes@) == registrations(all.take(it.index() as int)),
    {
        let ghost at = it.index() as int;
        let ghost view = flat@;
        let ghost done = all.take(at);
        let ghost next = all.take(at + 1);
        assert(all[at] == view);
        assert(next.drop_last() =~= done);
        assert(next.last() == view);
        match check_requirements(
            flat.path.as_str(),
            &flat.method,
            &flat.requirements,
            layers,
            &flat.middleware,
        ) {
            Ok(()) => {},
            Err(error) => {
                return Err(error);
            },
        }
        let ghost before_routes = routes@;
        routes.push((flat.method.copy(), flat.path.clone()));
        assert(route_views(routes@) =~= registrations(next)) by {
            assert(registrations(next) =~= registrations(done).push((view.method, view.path)));
            assert(route_views(routes@) =~= route_views(before_routes).push(
                (view.method, view.path),
            ));
        }
        let pos = position_of(&paths, flat.path.as_str());
        let ghost paths_before = paths@;
        let ghost tables_before = tables@;
        proof {
            lemma_distinct(done, view.path);
        }
        if pos == paths.len() {
            let ghost p = flat.path;
            paths.push(flat.path.clone());
            tables.push(MethodTable { entries: Vec::new(), any: None });
            proof {
                lemma_no_table(done, view.path);
                assert(texts(paths@) =~= texts(paths_before).push(view.path));
                assert(tables@[pos as int]@ =~= table_for(done, view.path));
            }
        } else {
            assert(texts(paths@)[pos as int] == paths@[pos as int]@);
            assert(texts(paths@).contains(view.path));
        }
        assert(texts(paths@) == distinct_paths(next));
        assert(paths@[pos as int]@ == view.path);
        assert(tables@[pos as int]@ == table_for(done, view.path));
        assert forall|k: int| 0 <= k < tables@.len() && k != pos implies (
        #[trigger] tables@[k])@ == table_for(next, paths@[k]@) by {
            lemma_distinct(next, view.path);
            assert(texts(paths@)[k] == paths@[k]@);
            assert(texts(paths@)[pos as int] == paths@[pos as int]@);
            assert(paths@[k]@ != view.path);
            assert(tables@[k] == tables_before[k]);
            assert(paths@[k] == paths_before[k]);
            assert(table_for(next, paths@[k]@) =~= table_for(done, paths@[k]@));
        }
        let ghost tables_now = tables@;
        let app = App { target: flat.target, middleware: flat.middleware };
        match flat.method {
            MethodFilter::Exact(method) => {
                let repeated = has_method(&tables[pos].entries, method.as_str());
                proof {
                    lemma_entries(done, view.path, method@);
                    let t = tables@[pos as int];
                    if repeated {
                        let k = choose|k: int|
                            0 <= k < t.entries@.len() && (#[trigger] t.entries@[k]).0@ == method@;
                        assert(t@.entries[k].0 == method@);
                        assert(entries_for(done, view.path)[k].0 == method@);
                        let j = choose|j: int|
                            0 <= j < done.len() && #[trigger] is_exactly(
                                done,
                                j,
                                view.path,
                                method@,
                            );
                        assert(all[j] == done[j]);
                        assert(is_repeated(all, at));
                    }
                    if is_repeated(all, at) {
                        let j = choose|j: int|
                            0 <= j < at && (#[trigger] all[j]).path == all[at].path && same_filter(
                                all[j].method,
                                all[at].method,
                            );
                        assert(is_exactly(done, j, view.path, method@));
                        let k = choose|k: int|
                            0 <= k < entries_for(done, view.path).len() && (#[trigger] entries_for(
                                done,
                                view.path,
                            )[k]).0 == method@;
                        assert(t@.entries[k].0 == method@);
                        assert(t.entries@[k].0@ == method@);
                    }
                }
                if repeated {
                    return Err(RouteBuildError::RepeatedMethod { path: flat.path, method });
                }
                let table = &mut tables[pos];
                table.entries.push((method, app));
                proof {
                    let t = tables@[pos as int];
                    assert(t@.entries =~= tables_now[pos as int]@.entries.push((method@, app@)));
                    assert(t@ =~= table_for(next, view.path));
                }
            },
            MethodFilter::Any => {
                let repeated = tables[pos].any.is_some();
                proof {
                    lemma_any(done, view.path);
                    if repeated {
                        let j = choose|j: int|
                            0 <= j < done.len() && #[trigger] is_catch_all(done, j, view.path);
                        assert(all[j] == done[j]);
                        assert(is_repeated(all, at));
                    }
                    if is_repeated(all, at) {
                        let j = choose|j: int|
                            0 <= j < at && (#[trigger] all[j]).path == all[at].path && same_filter(
                                all[j].method,
                                all[at].method,
                            );
                        assert(is_catch_all(done, j, view.path));
                    }
                }
                if repeated {
                    return Err(RouteBuildError::RepeatedAny { path: flat.path });
                }
                let table = &mut tables[pos];
                table.any = Some(app);
                proof {
                    let t = tables@[pos as int];
                    assert(t@ =~= table_for(next, view.path));
                }
            },
        }
        assert forall|k: int| 0 <= k < tables@.len() implies (#[trigger] tables@[k])@ == table_for(
            next,
            paths@[k]@,
        ) by {
            if k != pos {
                assert(tables@[k] == tables_now[k]);
            }
        }
    }
    assert(all.take(flats@.len() as int) =~= all);
    Ok((paths, tables, routes))
}

/// The order of a route listing: by path, then by method.
pub open spec fn listed_before(a: (MethodFilter, Seq<char>), b: (MethodFilter, Seq<char>)) -> bool {
    if a.1 == b.1 {
        precedes(filter_text(a.0), filter_text(b.0))
    } else {
        precedes(a.1, b.1)
    }
}

/// Whether a listing is in order.
pub open spec fn is_listing(routes: Seq<(MethodFilter, Seq<char>)>) -> bool {
    forall|i: int, j: int|
        0 <= i <= j < routes.len() ==> listed_before(#[trigger] routes[i], #[trigger] routes[j])
}

proof fn lemma_listed_before(
    a: (MethodFilter, Seq<char>),
    b: (MethodFilter, Seq<char>),
    c: (MethodFilter, Seq<char>),
)
    ensures
        listed_before(a, a),
        listed_before(a, b) || listed_before(b, a),
        listed_before(a, b) && listed_before(b, c) ==> listed_before(a, c),
{
    precedes_is_a_total_order(a.1, b.1, c.1);
    precedes_is_a_total_order(b.1, c.1, a.1);
    precedes_is_a_total_order(filter_text(a.0), filter_text(b.0), filter_text(c.0));
}

/// Put a route listing in order.
fn sort_routes(routes: Vec<(MethodFilter, String)>) -> (r: Vec<(MethodFilter, String)>)
    ensures
        is_listing(route_views(r@)),
        route_views(r@).to_multiset() == route_views(routes@).to_multiset(),
{
    let ghost all = route_views(routes@);
    let mut sorted: Vec<(MethodFilter, String)> = Vec::new();
    assert(route_views(sorted@) =~= all.take(0));
    for route in it: routes
        invariant
            it.seq() == routes@,
            all == route_views(routes@),
            is_listing(route_views(sorted@)),
            route_views(sorted@).to_multiset() == all.take(it.index() as int).to_multiset(),
    {
        let ghost at = it.index() as int;
        let ghost view = (route.0, route.1@);
        assert(all[at] == view);
        let text = route.0.text();
        let mut k: usize = 0;
        let ghost before = route_views(sorted@);
        while k < sorted.len()
            invariant_except_break
                k <= sorted.len(),
                before == route_views(sorted@),
                forall|i: int| 0 <= i < k ==> listed_before(#[trigger] before[i], view),
                view == (route.0, route.1@),
                text@ == filter_text(route.0),
            ensures
                k <= sorted.len(),
                before == route_views(sorted@),
                forall|i: int| 0 <= i < k ==> listed_before(#[trigger] before[i], view),
                k < sorted.len() ==> !listed_before(before[k as int], view),
            decreases sorted.len() - k,
        {
            assert(before[k as int] == (sorted@[k as int].0, sorted@[k as int].1@));
            let earlier = if same(sorted[k].1.as_str(), route.1.as_str()) {
                text_precedes(sorted[k].0.text().as_str(), text.as_str())
            } else {
                text_precedes(sorted[k].1.as_str(), route.1.as_str())
            };
            if !earlier {
                break;
            }
            k = k + 1;
        }
        sorted.insert(k, route);
        proof {
            let after = route_views(sorted@);
            assert(after =~= before.insert(k as int, view));
            assert forall|i: int, j: int| 0 <= i <= j < after.len() implies listed_before(
                #[trigger] after[i],
                #[trigger] after[j],
            ) by {
                lemma_listed_before(view, view, view);
                if i < k {
                    assert(after[i] == before[i]);
                } else if i > k {
                    assert(after[i] == before[i - 1]);
                }
                if j < k {
                    assert(after[j] == before[j]);
                } else if j > k {
                    assert(after[j] == before[j - 1]);
                }
                if i == k && j > k {
                    lemma_listed_before(view, before[k as int], before[j - 1]);
                    assert(listed_before(before[k as int], before[j - 1]));
                }
            }
            vstd::seq_lib::to_multiset_build(all.take(at), view);
            assert(all.take(at + 1) =~= all.take(at).push(view));
            vstd::seq_lib::to_multiset_remove(after, k as int);
            assert(after.remove(k as int) =~= before);
            broadcast use vstd::seq_lib::group_to_multiset_ensures;

            assert(after.contains(view)) by {
                assert(after[k as int] == view);
            }
            assert(after.to_multiset() =~= before.to_multiset().insert(view));
        }
    }
    assert(all.take(routes@.len() as int) =~= all);
    sorted
}

/// Why the fallback or 405 handler cannot be wired, if it cannot.
pub open spec fn entry_error(entry: Option<EndpointEntry>, globals: Seq<LayerView>) -> Option<
    BuildErrorView,
> {
    match entry {
        Some(entry) => match first_unmet(entry.requirements@, globals, 0) {
            Some(requirement) => Some(
                BuildErrorView::MissingProvision {
                    path: "<fallback>"@,
                    method: MethodFilter::Any,
                    requirement,
                },
            ),
            None => None,
        },
        None => None,
    }
}

/// What a route tree comes down to, when all its paths are usable.
pub open spec fn flattened(route: Route) -> Result<FlatRoutesView, BuildErrorView> {
    flat_nodes(""@, route.nodes@, 0, no_routes())
}

/// Why a route tree cannot be built whatever the path matcher says: an unusable path, an unwired
/// fallback, or an unwired or repeated endpoint, in this order.
pub open spec fn wiring_error(route: Route) -> Option<BuildErrorView> {
    match flattened(route) {
        Err(error) => Some(error),
        Ok(flat) => {
            let globals = stack(route.layers@);
            if entry_error(route.fallback, globals) is Some {
                entry_error(route.fallback, globals)
            } else if entry_error(route.method_not_allowed, globals) is Some {
                entry_error(route.method_not_allowed, globals)
            } else {
                first_flat_error(flat.flats, globals, 0)
            }
        },
    }
}

/// The paths of a route tree that has no unusable one.
pub open spec fn tree_paths(route: Route) -> Seq<Seq<char>> {
    match flattened(route) {
        Ok(flat) => distinct_paths(flat.flats),
        Err(_) => Seq::empty(),
    }
}

/// Why a route tree cannot be built, if it cannot: its wiring, or else a pattern that the path
/// matcher refuses.
pub open spec fn build_error(route: Route) -> Option<BuildErrorView> {
    if wiring_error(route) is Some {
        wiring_error(route)
    } else {
        match first_refusal(tree_paths(route), 0) {
            Some(text) => Some(BuildErrorView::MatchitError(text)),
            None => None,
        }
    }
}

/// The handler of an entry.
pub open spec fn entry_handler(entry: Option<EndpointEntry>) -> Option<u64> {
    match entry {
        Some(entry) => Some(entry.endpoint),
        None => None,
    }
}

/// Whether `router` is what `route` builds into.
pub open spec fn is_built_from(router: Router, route: Route) -> bool {
    &&& router.wf()
    &&& flattened(route) is Ok
    &&& ({
        let flat = flattened(route)->Ok_0;
        &&& router.paths() == distinct_paths(flat.flats)
        &&& router.tables().len() == router.paths().len()
        &&& forall|k: int|
            0 <= k < router.tables().len() ==> #[trigger] router.tables()[k] == table_for(
                flat.flats,
                router.paths()[k],
            )
        &&& is_listing(router.listing())
        &&& router.listing().to_multiset() == registrations(flat.flats).to_multiset()
        &&& router.mounted_routers() == flat.mounted
        &&& router.operations() == flat.openapi
    })
    &&& router.layer_stack() == stack(route.layers@)
    &&& router.fallback_handler() == entry_handler(route.fallback)
    &&& router.method_not_allowed_handler() == entry_handler(route.method_not_allowed)
    &&& !router.programmable()
    &&& router.alarm() is None
}

/// Check that the router's layers provide what a fallback or 405 handler needs.
fn check_entry(entry: &Option<EndpointEntry>, layers: &Vec<Layer>) -> (r: Result<
    (),
    RouteBuildError,
>)
    ensures
        match r {
            Ok(()) => entry_error(*entry, stack(layers@)) is None,
            Err(error) => entry_error(*entry, stack(layers@)) == Some(error@),
        },
{
    if let Some(entry) = entry {
        let none: Vec<Layer> = Vec::new();
        assert(stack(layers@) + stack(none@) =~= stack(layers@));
        check_requirements("<fallback>", &MethodFilter::Any, &entry.requirements, layers, &none)
    } else {
        Ok(())
    }
}

/// Hand the paths to the path matcher, each with its position.
fn fill_matcher(paths: &Vec<String>) -> (r: Result<PathMatcher<usize>, String>)
    ensures
        match r {
            Ok(matcher) => first_refusal(texts(paths@), 0) is None && inserted(matcher)
                == positions(texts(paths@)),
            Err(text) => first_refusal(texts(paths@), 0) == Some(text@),
        },
        are_literal(texts(paths@)) && texts(paths@).no_duplicates() ==> r is Ok,
{
    let ghost all = texts(paths@);
    let mut matcher = table::new_table();
    let mut earlier: Vec<String> = Vec::new();
    let mut i: usize = 0;
    assert(inserted(matcher) =~= positions(all.take(0)));
    assert(texts(earlier@) =~= all.take(0));
    while i < paths.len()
        invariant
            i <= paths.len(),
            all == texts(paths@),
            texts(earlier@) == all.take(i as int),
            inserted(matcher) == positions(all.take(i as int)),
            first_refusal(all, 0) == first_refusal(all, i as int),
        decreases paths.len() - i,
    {
        proof {
            assert(all[i as int] == paths@[i as int]@);
            assert(patterns(positions(all.take(i as int))) =~= all.take(i as int));
            if are_literal(all) && all.no_duplicates() {
                assert(!all.take(i as int).contains(all[i as int]));
                assert(!all.take(i as int).contains(Seq::empty())) by {
                    if all.take(i as int).contains(Seq::empty()) {
                        let k = choose|k: int| 0 <= k < i && all.take(i as int)[k] == Seq::<
                            char,
                        >::empty();
                        assert(is_literal(all[k]));
                    }
                }
            }
        }
        matcher = match table::add_pattern(matcher, &earlier, paths[i].as_str(), i) {
            Ok(filled) => filled,
            Err(text) => {
                return Err(text);
            },
        };
        let ghost before = earlier@;
        earlier.push(copy_text(paths[i].as_str()));
        proof {
            assert(positions(all.take(i + 1)) =~= positions(all.take(i as int)).push(
                (paths@[i as int]@, i),
            ));
            assert(texts(earlier@) =~= texts(before).push(all[i as int]));
            assert(all.take(i + 1) =~= all.take(i as int).push(all[i as int]));
        }
        i = i + 1;
    }
    assert(all.take(paths.len() as int) =~= all);
    Ok(matcher)
}

/// Build a router from a route tree.
///
/// A tree with an unusable path, conflicting registrations, an endpoint whose extractors are not
/// wired, or a pattern the path matcher rejects is reported instead.
pub fn build(route: Route) -> (r: Result<Router, RouteBuildError>)
    requires
        mountable(route.nodes@),
    ensures
        match r {
            Ok(router) => build_error(route) is None && is_built_from(router, route),
            Err(error) => build_error(route) == Some(error@),
        },
        wiring_error(route) is None && are_literal(tree_paths(route)) ==> r is Ok,
{
    let ghost whole = route;
    let Route { nodes, layers, fallback, method_not_allowed } = route;
    let mut flat = FlatRoutes { flats: Vec::new(), mounted: Vec::new(), openapi: Vec::new() };
    assert(flat@ =~= no_routes());
    match flatten("", nodes, &mut flat) {
        Ok(()) => {},
        Err(error) => {
            return Err(error);
        },
    }
    proof {
        lemma_flat_nodes_in_range(""@, whole.nodes@, 0, no_routes());
    }
    let ghost flats = flat@.flats;
    let ghost globals = stack(whole.layers@);
    match check_entry(&fallback, &layers) {
        Ok(()) => {},
        Err(error) => {
            return Err(error);
        },
    }
    match check_entry(&method_not_allowed, &layers) {
        Ok(()) => {},
        Err(error) => {
            return Err(error);
        },
    }
    let FlatRoutes { flats: endpoints, mounted, openapi } = flat;
    let (paths, tables, routes) = match place(endpoints, &layers) {
        Ok(placed) => placed,
        Err(error) => {
            return Err(error);
        },
    };
    proof {
        lemma_distinct(flats, ""@);
    }
    let matcher = match fill_matcher(&paths) {
        Ok(matcher) => matcher,
        Err(text) => {
            return Err(RouteBuildError::MatchitError(text));
        },
    };
    let router = Router {
        matcher,
        paths,
        tables,
        layers,
        fallback: match &fallback {
            Some(entry) => Some(entry.endpoint),
            None => None,
        },
        method_not_allowed: match &method_not_allowed {
            Some(entry) => Some(entry.endpoint),
            None => None,
        },
        routes: sort_routes(routes),
        already_router_enabled: false,
        alarm_handler: None,
        mounted,
        openapi_entries: openapi,
    };
    proof {
        assert forall|k: int| 0 <= k < router.tables().len() implies table_in_range(
            #[trigger] router.tables()[k],
            router.mounted@.len(),
        ) && router.tables()[k] == table_for(flats, router.paths()[k]) by {
            assert(router.tables()[k] == router.tables@[k]@);
            assert(router.paths()[k] == router.paths@[k]@);
            lemma_table_in_range(flats, router.paths()[k], router.mounted@.len());
        }
    }
    Ok(router)
}

/// The methods registered for the path a 405 was produced for.
#[derive(Debug)]
pub struct AllowedMethods(Vec<String>);

impl View for AllowedMethods {
    type V = Seq<Seq<char>>;

    closed spec fn view(&self) -> Seq<Seq<char>> {
        texts(self.0@)
    }
}

/// The methods of a table, in registration order.
pub open spec fn table_methods(entries: Seq<(Seq<char>, AppView)>) -> Seq<Seq<char>> {
    entries.map_values(|e: (Seq<char>, AppView)| e.0)
}

/// The methods a path answers: those registered, in registration order, with `HEAD` alongside
/// `GET`.
pub open spec fn allowed(table: TableView) -> Seq<Seq<char>> {
    let methods = table_methods(table.entries);
    if methods.contains("GET"@) && !methods.contains("HEAD"@) {
        methods.push("HEAD"@)
    } else {
        methods
    }
}

/// Whether `http::HeaderValue` takes a text: no control character but the tab.
pub open spec fn is_header_text(text: Seq<char>) -> bool {
    forall|i: int|
        0 <= i < text.len() ==> (' ' <= #[trigger] text[i] && text[i] != '\u{7f}') || text[i]
            == '\t'
}

/// `http::HeaderValue::from_str` accepts exactly the texts without control characters other than
/// the tab.
#[verifier::external_body]
pub(crate) fn header_value_accepts(text: &str) -> (r: bool)
    ensures
        r == is_header_text(text@),
{
    http::HeaderValue::from_str(text).is_ok()
}

/// Whether a list of strings holds `text`.
pub(crate) fn lists(list: &Vec<String>, text: &str) -> (r: bool)
    ensures
        r == texts(list@).contains(text@),
{
    let mut i: usize = 0;
    while i < list.len()
        invariant
            i <= list.len(),
            forall|j: int| 0 <= j < i ==> #[trigger] texts(list@)[j] != text@,
        decreases list.len() - i,
    {
        assert(texts(list@)[i as int] == list@[i as int]@);
        if same(list[i].as_str(), text) {
            return true;
        }
        i = i + 1;
    }
    false
}

impl AllowedMethods {
    /// Collect the methods registered for a path, advertising `HEAD` alongside `GET`.
    fn of(table: &MethodTable) -> (r: Self)
        ensures
            r@ == allowed(table@),
    {
        let mut methods: Vec<String> = Vec::new();
        let mut i: usize = 0;
        let ghost all = table_methods(table@.entries);
        assert(texts(methods@) =~= all.take(0));
        while i < table.entries.len()
            invariant
                i <= table.entries.len(),
                all == table_methods(table@.entries),
                texts(methods@) == all.take(i as int),
            decreases table.entries.len() - i,
        {
            let ghost before = methods@;
            methods.push(table.entries[i].0.clone());
            i = i + 1;
            proof {
                assert(all[i - 1] == table.entries@[i - 1].0@);
                assert(texts(methods@) =~= texts(before).push(all[i - 1]));
                assert(all.take(i as int) =~= all.take(i - 1).push(all[i - 1]));
            }
        }
        assert(all.take(i as int) =~= all);
        if lists(&methods, "GET") && !lists(&methods, "HEAD") {
            let ghost before = methods@;
            methods.push(copy_text("HEAD"));
            assert(texts(methods@) =~= texts(before).push("HEAD"@));
        }
        AllowedMethods(methods)
    }

    /// No methods, for a handler that runs without a stored set.
    pub fn none() -> (r: Self)
        ensures
            r@ == Seq::<Seq<char>>::empty(),
    {
        let r = AllowedMethods(Vec::new());
        assert(r@ =~= Seq::<Seq<char>>::empty());
        r
    }

    /// The registered methods, in registration order, with `HEAD` synthesized alongside `GET`.
    pub fn methods(&self) -> (r: &Vec<String>)
        ensures
            texts(r@) == self@,
    {
        &self.0
    }

    /// Render the methods as an `Allow` header value.
    pub fn header_value(&self) -> (r: Option<String>)
        ensures
            match r {
                Some(value) => value@ == join(self@, ", "@) && is_header_text(value@),
                None => !is_header_text(join(self@, ", "@)),
            },
    {
        let list = join_texts(&self.0, ", ");
        if header_value_accepts(list.as_str()) {
            Some(list)
        } else {
            None
        }
    }
}

/// The index of the handler for exactly this method, at or after `from`.
pub open spec fn entry_position(
    entries: Seq<(Seq<char>, AppView)>,
    method: Seq<char>,
    from: int,
) -> Option<int>
    decreases entries.len() - from,
{
    if from < 0 || from >= entries.len() {
        None
    } else if entries[from].0 == method {
        Some(from)
    } else {
        entry_position(entries, method, from + 1)
    }
}

/// Which handler of a path answers a method, and whether its body must be discarded: the handler
/// for exactly that method, else the catch-all, else for `HEAD` the `GET` handler.
pub open spec fn selected(table: TableView, method: Seq<char>) -> Option<(AppView, bool)> {
    match entry_position(table.entries, method, 0) {
        Some(i) => Some((table.entries[i].1, false)),
        None => match table.any {
            Some(app) => Some((app, false)),
            None => if method == "HEAD"@ {
                match entry_position(table.entries, "GET"@, 0) {
                    Some(i) => Some((table.entries[i].1, true)),
                    None => None,
                }
            } else {
                None
            },
        },
    }
}

/// Outcome of matching a request against the router.
pub enum RouteLookup<'a> {
    /// The path and method matched.
    Endpoint {
        /// What answers the request.
        app: &'a App,
        /// Whether a `HEAD` request is served by the `GET` handler, whose body must be discarded.
        head_fallback: bool,
        /// The captured parameters, percent-decoded.
        params: Params,
    },
    /// The path matched but no registered method did.
    MethodNotAllowed(AllowedMethods),
    /// No route matched the path.
    Unmatched,
}

/// A lookup's outcome as plain values.
#[verifier::ext_equal]
pub enum LookupView {
    /// See [`RouteLookup::Endpoint`].
    Endpoint {
        /// What answers the request.
        app: AppView,
        /// Whether the body must be discarded.
        head_fallback: bool,
        /// The captured parameters.
        params: Seq<(Seq<char>, Seq<char>)>,
    },
    /// See [`RouteLookup::MethodNotAllowed`].
    MethodNotAllowed(Seq<Seq<char>>),
    /// See [`RouteLookup::Unmatched`].
    Unmatched,
}

impl<'a> View for RouteLookup<'a> {
    type V = LookupView;

    open spec fn view(&self) -> LookupView {
        match self {
            RouteLookup::Endpoint { app, head_fallback, params } => LookupView::Endpoint {
                app: app@,
                head_fallback: *head_fallback,
                params: params@,
            },
            RouteLookup::MethodNotAllowed(methods) => LookupView::MethodNotAllowed(methods@),
            RouteLookup::Unmatched => LookupView::Unmatched,
        }
    }
}

/// The parameters as a handler sees them.
pub open spec fn decoded_params(params: Seq<(Seq<char>, Seq<char>)>) -> Seq<
    (Seq<char>, Seq<char>),
> {
    params.map_values(|p: (Seq<char>, Seq<char>)| (p.0, percent_decoded(p.1)))
}

/// How a path's handlers answer a method, given the parameters captured from the path.
pub open spec fn table_lookup(
    table: TableView,
    params: Seq<(Seq<char>, Seq<char>)>,
    method: Seq<char>,
) -> LookupView {
    match selected(table, method) {
        Some((app, head_fallback)) => LookupView::Endpoint {
            app,
            head_fallback,
            params: decoded_params(params),
        },
        None => LookupView::MethodNotAllowed(allowed(table)),
    }
}

/// Percent-decode captured parameters.
fn decode_params(params: &Vec<(String, String)>) -> (r: Params)
    ensures
        r@ == decoded_params(pair_texts(params@)),
{
    let mut out: Vec<(String, String)> = Vec::new();
    let ghost all = decoded_params(pair_texts(params@));
    let mut i: usize = 0;
    assert(pair_texts(out@) =~= all.take(0));
    while i < params.len()
        invariant
            i <= params.len(),
            all == decoded_params(pair_texts(params@)),
            pair_texts(out@) == all.take(i as int),
        decreases params.len() - i,
    {
        let ghost before = out@;
        out.push((params[i].0.clone(), percent_decode(params[i].1.as_str())));
        i = i + 1;
        proof {
            assert(pair_texts(params@)[i - 1] == (params@[i - 1].0@, params@[i - 1].1@));
            assert(pair_texts(out@) =~= pair_texts(before).push(all[i - 1]));
            assert(all.take(i as int) =~= all.take(i - 1).push(all[i - 1]));
        }
    }
    assert(all.take(i as int) =~= all);
    Params::new(out)
}

/// The index of the handler for exactly this method.
fn find_entry(table: &MethodTable, method: &str) -> (r: Option<usize>)
    ensures
        match r {
            Some(i) => i < table.entries.len() && entry_position(table@.entries, method@, 0)
                == Some(i as int),
            None => entry_position(table@.entries, method@, 0) is None,
        },
{
    let mut i: usize = 0;
    while i < table.entries.len()
        invariant
            i <= table.entries.len(),
            entry_position(table@.entries, method@, 0) == entry_position(
                table@.entries,
                method@,
                i as int,
            ),
        decreases table.entries.len() - i,
    {
        assert(table@.entries[i as int].0 == table.entries@[i as int].0@);
        if same(table.entries[i].0.as_str(), method) {
            return Some(i);
        }
        i = i + 1;
    }
    None
}

impl MethodTable {
    /// How these handlers answer a method, given the parameters captured from the path.
    pub fn lookup(&self, params: &Vec<(String, String)>, method: &str) -> (r: RouteLookup<'_>)
        ensures
            r@ == table_lookup(self@, pair_texts(params@), method@),
    {
        if let Some(i) = find_entry(self, method) {
            assert(self@.entries[i as int].1 == self.entries@[i as int].1@);
            return RouteLookup::Endpoint {
                app: &self.entries[i].1,
                head_fallback: false,
                params: decode_params(params),
            };
        }
        if let Some(app) = &self.any {
            return RouteLookup::Endpoint {
                app,
                head_fallback: false,
                params: decode_params(params),
            };
        }
        if same(method, "HEAD") {
            if let Some(i) = find_entry(self, "GET") {
                assert(self@.entries[i as int].1 == self.entries@[i as int].1@);
                return RouteLookup::Endpoint {
                    app: &self.entries[i].1,
                    head_fallback: true,
                    params: decode_params(params),
                };
            }
        }
        RouteLookup::MethodNotAllowed(AllowedMethods::of(self))
    }
}

/// How a router answers a path and method.
pub open spec fn looked_up(router: Router, path: Seq<char>, method: Seq<char>) -> LookupView {
    match router.position(path) {
        Some((index, params)) => table_lookup(router.tables()[index as int], params, method),
        None => LookupView::Unmatched,
    }
}

/// Whether an outcome is the one that a path registered as a literal demands: that of its own
/// handlers, with no parameters captured.
pub open spec fn answers_literally(
    router: Router,
    path: Seq<char>,
    method: Seq<char>,
    found: LookupView,
) -> bool {
    forall|k: int|
        0 <= k < router.paths().len() && #[trigger] router.paths()[k] == path && is_literal(path)
            ==> found == table_lookup(router.tables()[k], Seq::empty(), method)
}

/// Whether what is captured from a path belongs to the pattern that the path matcher finds: with the
/// captured values in it, the pattern is the path. Routers with an empty pattern or one with doubled
/// braces are left out.
pub open spec fn captures_from_the_path(router: Router, path: Seq<char>) -> bool {
    router.position(path) matches Some((index, params)) ==> index < router.paths().len() && (
    are_plain(router.paths()) ==> filled(router.paths()[index as int], params) == Some(path))
}

/// What the runtime does with a request once the router's layers have run.
pub enum Dispatch<'a> {
    /// Run a handler or mounted router through its middleware.
    Run {
        /// What to run.
        app: &'a App,
        /// The parameters to store with the request.
        params: Params,
        /// Whether to answer with an empty body.
        discard_body: bool,
    },
    /// Run the 405 handler, with the allowed methods stored with the request.
    RunMethodNotAllowed(u64, AllowedMethods),
    /// Answer 405 with an empty body and, where it can be rendered, this `Allow` header.
    AnswerMethodNotAllowed(Option<String>),
    /// Run the fallback handler.
    RunFallback(u64),
    /// Answer [`NotFound`].
    AnswerNotFound,
}

/// The error the built-in 404 response is rendered from.
#[derive(Debug, Clone, Copy)]
pub struct NotFound;

impl NotFound {
    /// The error's text.
    pub fn message(&self) -> (r: String)
        ensures
            r@ == "Route not found."@,
    {
        copy_text("Route not found.")
    }

    /// The status the error is answered with.
    pub fn status(&self) -> (r: u16)
        ensures
            r == 404,
    {
        404
    }
}

/// Whether `dispatch` is what a router does with a lookup's outcome.
pub open spec fn dispatches(router: Router, found: LookupView, dispatch: Dispatch<'_>) -> bool {
    match found {
        LookupView::Endpoint { app, head_fallback, params } => match dispatch {
            Dispatch::Run { app: run, params: stored, discard_body } => {
                run@ == app && stored@ == params && discard_body == head_fallback
            },
            _ => false,
        },
        LookupView::MethodNotAllowed(methods) => match router.method_not_allowed_handler() {
            Some(handler) => dispatch matches Dispatch::RunMethodNotAllowed(run, stored)
                && run == handler && stored@ == methods,
            None => match dispatch {
                Dispatch::AnswerMethodNotAllowed(Some(allow)) => allow@ == join(methods, ", "@)
                    && is_header_text(allow@),
                Dispatch::AnswerMethodNotAllowed(None) => !is_header_text(join(methods, ", "@)),
                _ => false,
            },
        },
        LookupView::Unmatched => match router.fallback_handler() {
            Some(handler) => dispatch matches Dispatch::RunFallback(run) && run == handler,
            None => dispatch is AnswerNotFound,
        },
    }
}

impl Router {
    /// Match a request against the routing tree.
    pub fn lookup(&self, path: &str, method: &str) -> (r: RouteLookup<'_>)
        requires
            self.wf(),
        ensures
            r@ == looked_up(*self, path@, method@),
            answers_literally(*self, path@, method@, r@),
            captures_from_the_path(*self, path@),
    {
        let found = table::at(&self.matcher, path);
        proof {
            assert forall|k: int|
                0 <= k < self.paths().len() && #[trigger] self.paths()[k] == path@ && is_literal(
                    path@,
                ) implies looked_up(*self, path@, method@) == table_lookup(
                self.tables()[k],
                Seq::empty(),
                method@,
            ) by {
                assert(self.paths.len() == self.paths@.len());
                assert(inserted(self.matcher)[k] == (path@, k as usize));
            }
        }
        match found {
            Some((index, params)) => {
                proof {
                    let entries = inserted(self.matcher);
                    let raw = pair_texts(params@);
                    let i = choose|i: int|
                        0 <= i < entries.len() && (#[trigger] entries[i]).1 == index && (are_plain(
                            patterns(entries),
                        ) ==> filled(entries[i].0, raw) == Some(path@));
                    assert(patterns(entries) =~= self.paths());
                    assert(entries[i] == (self.paths()[i], i as usize));
                    assert(self.paths.len() == self.paths@.len());
                    assert(index == i);
                    assert(index < self.tables@.len());
                    assert(self.tables()[index as int] == self.tables@[index as int]@);
                }
                self.tables[index].lookup(&params, method)
            },
            None => RouteLookup::Unmatched,
        }
    }

    /// Decide what answers a request: the endpoint it selects, or what stands in for it.
    ///
    /// The router's layers have already run by the time this is asked, which is what lets them see
    /// the 404 and 405 answers.
    pub fn dispatch(&self, path: &str, method: &str) -> (r: Dispatch<'_>)
        requires
            self.wf(),
        ensures
            dispatches(*self, looked_up(*self, path@, method@), r),
            answers_literally(*self, path@, method@, looked_up(*self, path@, method@)),
            captures_from_the_path(*self, path@),
    {
        match self.lookup(path, method) {
            RouteLookup::Endpoint { app, head_fallback, params } => Dispatch::Run {
                app,
                params,
                discard_body: head_fallback,
            },
            RouteLookup::MethodNotAllowed(methods) => match self.method_not_allowed {
                Some(handler) => Dispatch::RunMethodNotAllowed(handler, methods),
                None => Dispatch::AnswerMethodNotAllowed(methods.header_value()),
            },
            RouteLookup::Unmatched => match self.fallback {
                Some(handler) => Dispatch::RunFallback(handler),
                None => Dispatch::AnswerNotFound,
            },
        }
    }

    /// Every method and path pair the router answers, for introspection and tests.
    pub fn routes(&self) -> (r: &Vec<(MethodFilter, String)>)
        ensures
            route_views(r@) == self.listing(),
    {
        &self.routes
    }

    /// The middleware wrapping the whole router, outermost first.
    pub fn layers(&self) -> (r: &Vec<Layer>)
        ensures
            stack(r@) == self.layer_stack(),
    {
        &self.layers
    }

    /// The OpenAPI entries this router was built from.
    pub fn openapi_entries(&self) -> (r: &Vec<RouteOpenApiEntry>)
        ensures
            entry_views(r@) == self.operations(),
    {
        &self.openapi_entries
    }

    /// The alarm handler, if one was registered.
    pub fn alarm_endpoint(&self) -> (r: Option<u64>)
        ensures
            r == self.alarm(),
    {
        self.alarm_handler
    }

    /// The router mounted at `index`.
    pub fn mounted(&self, index: usize) -> (r: Option<&Router>)
        ensures
            match r {
                Some(router) => index < self.mounted_routers().len() && *router
                    == self.mounted_routers()[index as int],
                None => index >= self.mounted_routers().len(),
            },
    {
        if index < self.mounted.len() {
            Some(&self.mounted[index])
        } else {
            None
        }
    }

    /// Whether the router is stored with each request for handlers to extract.
    pub fn is_programmable(&self) -> (r: bool)
        ensures
            r == self.programmable(),
    {
        self.already_router_enabled
    }
}

/// Whether two routers route alike: they differ at most in layers, extraction and alarm handling.
pub open spec fn routes_alike(a: Router, b: Router) -> bool {
    &&& a.wf() == b.wf()
    &&& a.paths() == b.paths()
    &&& a.tables() == b.tables()
    &&& a.fallback_handler() == b.fallback_handler()
    &&& a.method_not_allowed_handler() == b.method_not_allowed_handler()
    &&& a.listing() == b.listing()
    &&& a.mounted_routers() == b.mounted_routers()
    &&& a.operations() == b.operations()
    &&& forall|path: Seq<char>| #[trigger] a.position(path) == b.position(path)
}

impl Router {
    /// Wrap the whole router in `layer`, including its 404 and 405 responses.
    ///
    /// Each call wraps what is already there, so the most recent call is the outermost layer.
    pub fn layer(self, layer: Layer) -> (r: Self)
        ensures
            routes_alike(r, self),
            r.layer_stack() == seq![layer@] + self.layer_stack(),
            r.programmable() == self.programmable(),
            r.alarm() == self.alarm(),
    {
        let mut router = self;
        router.layers.insert(0, layer);
        assert(router.layer_stack() =~= seq![layer@] + self.layer_stack());
        assert(router.tables() == self.tables() && router.paths() == self.paths());
        assert(router.matcher == self.matcher && router.mounted == self.mounted);
        router
    }

    /// Enable extraction of the current router by handlers.
    pub fn enable_programmable_router(self) -> (r: Self)
        ensures
            routes_alike(r, self),
            r.layer_stack() == self.layer_stack(),
            r.programmable(),
            r.alarm() == self.alarm(),
    {
        let mut router = self;
        router.already_router_enabled = true;
        assert(router.tables() == self.tables() && router.paths() == self.paths());
        assert(router.matcher == self.matcher && router.mounted == self.mounted);
        router
    }

    /// Answer alarm events with a handler.
    pub(crate) fn with_alarm(self, endpoint: u64) -> (r: Self)
        ensures
            routes_alike(r, self),
            r.layer_stack() == self.layer_stack(),
            r.programmable() == self.programmable(),
            r.alarm() == Some(endpoint),
    {
        let mut router = self;
        router.alarm_handler = Some(endpoint);
        assert(router.tables() == self.tables() && router.paths() == self.paths());
        assert(router.matcher == self.matcher && router.mounted == self.mounted);
        router
    }
}

proof fn lemma_entry_position(entries: Seq<(Seq<char>, AppView)>, method: Seq<char>, from: int)
    requires
        0 <= from <= entries.len(),
    ensures
        entry_position(entries, method, from) is Some <==> exists|k: int|
            from <= k < entries.len() && (#[trigger] entries[k]).0 == method,
        entry_position(entries, method, from) matches Some(i) ==> from <= i < entries.len()
            && entries[i].0 == method,
    decreases entries.len() - from,
{
    if from < entries.len() && entries[from].0 != method {
        lemma_entry_position(entries, method, from + 1);
        if exists|k: int| from <= k < entries.len() && (#[trigger] entries[k]).0 == method {
            let k = choose|k: int|
                from <= k < entries.len() && (#[trigger] entries[k]).0 == method;
            assert(k > from);
        }
    } else if from < entries.len() {
        assert(entries[from].0 == method);
    }
}

/// A handler registered for a method and a literal path answers that method on that path, whatever
/// patterns are registered beside it.
pub proof fn a_registered_handler_answers_its_path(
    route: Route,
    router: Router,
    at: int,
    method: Seq<char>,
    found: LookupView,
)
    requires
        build_error(route) is None,
        is_built_from(router, route),
        0 <= at < flattened(route)->Ok_0.flats.len(),
        is_literal(flattened(route)->Ok_0.flats[at].path),
        is_exactly(
            flattened(route)->Ok_0.flats,
            at,
            flattened(route)->Ok_0.flats[at].path,
            method,
        ),
        answers_literally(router, flattened(route)->Ok_0.flats[at].path, method, found),
    ensures
        ({
            let flat = flattened(route)->Ok_0.flats[at];
            found == (LookupView::Endpoint {
                app: AppView { target: flat.target, middleware: flat.middleware },
                head_fallback: false,
                params: Seq::empty(),
            })
        }),
{
    let flats = flattened(route)->Ok_0.flats;
    let globals = stack(route.layers@);
    let path = flats[at].path;
    lemma_distinct(flats, path);
    assert(is_at(flats, at, path));
    let k = choose|k: int| 0 <= k < router.paths().len() && router.paths()[k] == path;
    assert(decoded_params(Seq::empty()) =~= Seq::empty());
    lemma_entry_is_unique(flats, globals, at, method);
    assert(router.tables()[k] == table_for(flats, path));
}

proof fn lemma_no_error_before(flats: Seq<FlatView>, globals: Seq<LayerView>, from: int, at: int)
    requires
        0 <= from <= at < flats.len(),
        first_flat_error(flats, globals, from) is None,
    ensures
        flat_error(flats, globals, at) is None,
    decreases at - from,
{
    if from < at {
        lemma_no_error_before(flats, globals, from + 1, at);
    }
}

/// Without errors, the entry found for an endpoint's method is that endpoint.
proof fn lemma_entry_is_unique(
    flats: Seq<FlatView>,
    globals: Seq<LayerView>,
    at: int,
    method: Seq<char>,
)
    requires
        0 <= at < flats.len(),
        first_flat_error(flats, globals, 0) is None,
        is_exactly(flats, at, flats[at].path, method),
    ensures
        ({
            let entries = entries_for(flats, flats[at].path);
            entry_position(entries, method, 0) matches Some(i) && entries[i].1 == (AppView {
                target: flats[at].target,
                middleware: flats[at].middleware,
            })
        }),
{
    let path = flats[at].path;
    let entries = entries_for(flats, path);
    lemma_entries(flats, path, method);
    lemma_entry_position(entries, method, 0);
    assert(exists|j: int| 0 <= j < flats.len() && #[trigger] is_exactly(flats, j, path, method));
    let i = entry_position(entries, method, 0)->0;
    lemma_entry_origin(flats, path, i);
    let j = choose|j: int|
        0 <= j < flats.len() && #[trigger] is_exactly(flats, j, path, entries[i].0)
            && entries[i].1 == (AppView {
            target: flats[j].target,
            middleware: flats[j].middleware,
        });
    if j < at {
        lemma_no_error_before(flats, globals, 0, at);
        assert(same_filter(flats[j].method, flats[at].method));
        assert(is_repeated(flats, at));
    } else if at < j {
        lemma_no_error_before(flats, globals, 0, j);
        assert(same_filter(flats[at].method, flats[j].method));
        assert(flats[at].path == flats[j].path);
        assert(is_repeated(flats, j));
    }
}

proof fn lemma_entry_origin(flats: Seq<FlatView>, path: Seq<char>, i: int)
    requires
        0 <= i < entries_for(flats, path).len(),
    ensures
        exists|j: int|
            0 <= j < flats.len() && #[trigger] is_exactly(
                flats,
                j,
                path,
                entries_for(flats, path)[i].0,
            ) && entries_for(flats, path)[i].1 == (AppView {
                target: flats[j].target,
                middleware: flats[j].middleware,
            }),
    decreases flats.len(),
{
    let entries = entries_for(flats, path);
    let init = flats.drop_last();
    let before = entries_for(init, path);
    if i < before.len() {
        lemma_entry_origin(init, path, i);
        let j = choose|j: int|
            0 <= j < init.len() && #[trigger] is_exactly(init, j, path, before[i].0)
                && before[i].1 == (AppView {
                target: init[j].target,
                middleware: init[j].middleware,
            });
        assert(is_exactly(flats, j, path, entries[i].0));
    } else {
        assert(is_exactly(flats, flats.len() - 1, path, entries[i].0));
    }
}

/// In a router that was built, everything an endpoint's extractors need is provided by the
/// router's layers or by the endpoint's own middleware.
pub proof fn a_built_router_is_fully_wired(route: Route, at: int, needed: int)
    requires
        build_error(route) is None,
        0 <= at < flattened(route)->Ok_0.flats.len(),
        0 <= needed < flattened(route)->Ok_0.flats[at].requirements.len(),
    ensures
        provided(
            stack(route.layers@) + flattened(route)->Ok_0.flats[at].middleware,
            flattened(route)->Ok_0.flats[at].requirements[needed].key,
        ),
{
    let flats = flattened(route)->Ok_0.flats;
    let globals = stack(route.layers@);
    lemma_no_error_before(flats, globals, 0, at);
    lemma_all_met(flats[at].requirements, globals + flats[at].middleware, 0, needed);
}

proof fn lemma_all_met(
    requirements: Seq<Requirement>,
    available: Seq<LayerView>,
    from: int,
    at: int,
)
    requires
        0 <= from <= at < requirements.len(),
        first_unmet(requirements, available, from) is None,
    ensures
        provided(available, requirements[at].key),
    decreases at - from,
{
    if from < at {
        lemma_all_met(requirements, available, from + 1, at);
    }
}

/// A built router never has two handlers for the same requests on one path.
pub proof fn a_built_router_has_no_conflicting_handlers(route: Route, a: int, b: int)
    requires
        build_error(route) is None,
        0 <= a < b < flattened(route)->Ok_0.flats.len(),
        flattened(route)->Ok_0.flats[a].path == flattened(route)->Ok_0.flats[b].path,
    ensures
        !same_filter(
            flattened(route)->Ok_0.flats[a].method,
            flattened(route)->Ok_0.flats[b].method,
        ),
{
    let flats = flattened(route)->Ok_0.flats;
    lemma_no_error_before(flats, stack(route.layers@), 0, b);
    if same_filter(flats[a].method, flats[b].method) {
        assert(is_repeated(flats, b));
    }
}

/// A path with a catch-all handler never produces a 405, and more specific registrations on the
/// same path still win.
pub proof fn a_catch_all_answers_every_method(
    table: TableView,
    params: Seq<(Seq<char>, Seq<char>)>,
    method: Seq<char>,
)
    requires
        table.any is Some,
    ensures
        table_lookup(table, params, method) is Endpoint,
        !(table_lookup(table, params, method)->head_fallback),
        entry_position(table.entries, method, 0) is None ==> table_lookup(
            table,
            params,
            method,
        )->app == table.any->0,
{
    lemma_entry_position(table.entries, method, 0);
}

/// A `HEAD` request to a path that has a `GET` handler, but neither a `HEAD` handler nor a
/// catch-all, is answered by the `GET` handler with its body discarded.
pub proof fn head_falls_back_to_get(table: TableView, params: Seq<(Seq<char>, Seq<char>)>)
    requires
        table.any is None,
        entry_position(table.entries, "HEAD"@, 0) is None,
        entry_position(table.entries, "GET"@, 0) is Some,
    ensures
        table_lookup(table, params, "HEAD"@) is Endpoint,
        table_lookup(table, params, "HEAD"@)->head_fallback,
        table_lookup(table, params, "HEAD"@)->app == table.entries[entry_position(
            table.entries,
            "GET"@,
            0,
        )->0].1,
{
}

/// A 405 lists exactly the methods the path would have answered.
pub proof fn a_405_lists_the_methods_that_are_answered(
    table: TableView,
    params: Seq<(Seq<char>, Seq<char>)>,
    refused: Seq<char>,
    method: Seq<char>,
)
    requires
        table_lookup(table, params, refused) is MethodNotAllowed,
    ensures
        table_lookup(table, params, refused)->MethodNotAllowed_0.contains(method) <==> table_lookup(
            table,
            params,
            method,
        ) is Endpoint,
        !table_lookup(table, params, refused)->MethodNotAllowed_0.contains(refused),
{
    let methods = table_methods(table.entries);
    lemma_table_methods(table.entries, method);
    lemma_table_methods(table.entries, refused);
    lemma_table_methods(table.entries, "GET"@);
    lemma_table_methods(table.entries, "HEAD"@);
    if methods.contains("GET"@) && !methods.contains("HEAD"@) {
        let all = methods.push("HEAD"@);
        assert(all[methods.len() as int] == "HEAD"@);
        if methods.contains(method) {
            let i = choose|i: int| 0 <= i < methods.len() && methods[i] == method;
            assert(all[i] == method);
        }
        if all.contains(method) && method != "HEAD"@ {
            let i = choose|i: int| 0 <= i < all.len() && all[i] == method;
            assert(methods[i] == method);
        }
        if all.contains(refused) && refused != "HEAD"@ {
            let i = choose|i: int| 0 <= i < all.len() && all[i] == refused;
            assert(methods[i] == refused);
        }
    }
}

proof fn lemma_table_methods(entries: Seq<(Seq<char>, AppView)>, method: Seq<char>)
    ensures
        table_methods(entries).contains(method) <==> entry_position(entries, method, 0) is Some,
{
    lemma_entry_position(entries, method, 0);
    let methods = table_methods(entries);
    if methods.contains(method) {
        let i = choose|i: int| 0 <= i < methods.len() && methods[i] == method;
        assert(entries[i].0 == method);
    }
    if exists|k: int| 0 <= k < entries.len() && (#[trigger] entries[k]).0 == method {
        let k = choose|k: int| 0 <= k < entries.len() && (#[trigger] entries[k]).0 == method;
        assert(methods[k] == method);
    }
}

/// However many parameters a pattern has, a handler sees each under its own name, and as the text
/// that was percent-encoded into the path.
pub proof fn handlers_see_what_was_encoded(
    router: Router,
    path: Seq<char>,
    method: Seq<char>,
    index: usize,
    captured: Seq<(Seq<char>, Seq<char>)>,
    values: Seq<Seq<char>>,
    is_kept: spec_fn(char) -> bool,
    is_upper: bool,
)
    requires
        !is_kept('%'),
        router.position(path) == Some((index, captured)),
        captured.len() == values.len(),
        forall|k: int|
            0 <= k < values.len() ==> (#[trigger] captured[k]).1 == percent_encoded(
                values[k],
                is_kept,
                is_upper,
            ),
        looked_up(router, path, method) is Endpoint,
    ensures
        ({
            let params = looked_up(router, path, method)->params;
            &&& params.len() == values.len()
            &&& forall|k: int|
                0 <= k < values.len() ==> #[trigger] params[k] == (captured[k].0, values[k])
        }),
{
    let params = looked_up(router, path, method)->params;
    assert forall|k: int| 0 <= k < values.len() implies #[trigger] params[k] == (
        captured[k].0,
        values[k],
    ) by {
        assert(captured[k].1 == percent_encoded(values[k], is_kept, is_upper));
        decoding_undoes_percent_encoding(values[k], is_kept, is_upper);
    }
}

/// Each parameter is decoded by itself: what a handler sees of one does not depend on the others.
pub proof fn parameters_are_decoded_one_by_one(
    table: TableView,
    method: Seq<char>,
    captured: Seq<(Seq<char>, Seq<char>)>,
    others: Seq<(Seq<char>, Seq<char>)>,
    k: int,
    j: int,
)
    requires
        0 <= k < captured.len(),
        0 <= j < others.len(),
        captured[k] == others[j],
        table_lookup(table, captured, method) is Endpoint,
    ensures
        table_lookup(table, others, method) is Endpoint,
        table_lookup(table, captured, method)->params.len() == captured.len(),
        table_lookup(table, captured, method)->params[k] == table_lookup(
            table,
            others,
            method,
        )->params[j],
        table_lookup(table, captured, method)->params[k].0 == captured[k].0,
{
}

/// The handler that is registered first for exactly the method of a request answers it, whatever else
/// is registered for the path.
pub proof fn a_handler_for_the_method_answers(
    table: TableView,
    params: Seq<(Seq<char>, Seq<char>)>,
    method: Seq<char>,
    at: int,
)
    requires
        0 <= at < table.entries.len(),
        table.entries[at].0 == method,
        forall|k: int| 0 <= k < at ==> (#[trigger] table.entries[k]).0 != method,
    ensures
        table_lookup(table, params, method) is Endpoint,
        table_lookup(table, params, method)->app == table.entries[at].1,
        !table_lookup(table, params, method)->head_fallback,
{
    lemma_first_entry(table.entries, method, 0, at);
}

proof fn lemma_first_entry(
    entries: Seq<(Seq<char>, AppView)>,
    method: Seq<char>,
    from: int,
    at: int,
)
    requires
        0 <= from <= at < entries.len(),
        entries[at].0 == method,
        forall|k: int| from <= k < at ==> (#[trigger] entries[k]).0 != method,
    ensures
        entry_position(entries, method, from) == Some(at),
    decreases at - from,
{
    if from < at {
        lemma_first_entry(entries, method, from + 1, at);
    }
}

/// A request is refused for its method exactly where its path has no catch-all and no handler for the
/// method, and for `HEAD` no `GET` handler either. The refusal lists the registered methods in
/// their order, and at most `HEAD` behind them.
pub proof fn a_method_without_a_handler_is_refused(
    table: TableView,
    params: Seq<(Seq<char>, Seq<char>)>,
    method: Seq<char>,
)
    ensures
        table_lookup(table, params, method) is MethodNotAllowed <==> table.any is None && (forall|
            k: int,
        |
            0 <= k < table.entries.len() ==> (#[trigger] table.entries[k]).0 != method && !(method
                == "HEAD"@ && table.entries[k].0 == "GET"@)),
        !(table_lookup(table, params, method) is Unmatched),
        table_lookup(table, params, method) matches LookupView::MethodNotAllowed(list) ==> {
            &&& table.entries.len() <= list.len() <= table.entries.len() + 1
            &&& forall|k: int|
                0 <= k < table.entries.len() ==> #[trigger] list[k] == table.entries[k].0
            &&& list.len() > table.entries.len() ==> list.last() == "HEAD"@
        },
{
    lemma_entry_position(table.entries, method, 0);
    lemma_entry_position(table.entries, "GET"@, 0);
    if table_lookup(table, params, method) is MethodNotAllowed {
        let methods = table_methods(table.entries);
        assert forall|k: int| 0 <= k < table.entries.len() implies #[trigger] allowed(table)[k]
            == table.entries[k].0 by {
            assert(methods[k] == table.entries[k].0);
        }
    }
}

/// A request whose path no pattern matches runs the fallback, or is not found where there is none.
/// One that is refused for its method runs the handler for that, or is told the methods. Any other
/// runs what answers it.
pub proof fn every_request_is_answered(
    router: Router,
    path: Seq<char>,
    method: Seq<char>,
    dispatch: Dispatch<'_>,
)
    requires
        dispatches(router, looked_up(router, path, method), dispatch),
    ensures
        router.position(path) is None ==> (match router.fallback_handler() {
            Some(handler) => dispatch == Dispatch::RunFallback(handler),
            None => dispatch is AnswerNotFound,
        }),
        router.position(path) matches Some((index, captured)) ==> (match table_lookup(
            router.tables()[index as int],
            captured,
            method,
        ) {
            LookupView::Endpoint { app, head_fallback, params } => dispatch matches Dispatch::Run {
                app: run,
                params: stored,
                discard_body,
            } && run@ == app && stored@ == params && discard_body == head_fallback,
            LookupView::MethodNotAllowed(list) => if router.method_not_allowed_handler() is Some {
                dispatch matches Dispatch::RunMethodNotAllowed(run, stored) && run
                    == router.method_not_allowed_handler()->0 && stored@ == list
            } else {
                dispatch matches Dispatch::AnswerMethodNotAllowed(allow) && (allow matches Some(
                    allow,
                ) ==> allow@ == join(list, ", "@)) && (allow is None ==> !is_header_text(
                    join(list, ", "@),
                ))
            },
            LookupView::Unmatched => false,
        }),
{
}

/// Where the pattern of an endpoint is found, the endpoint answers its method, through its own
/// middleware. A catch-all endpoint answers the methods for which the pattern has none.
pub proof fn an_endpoint_answers_where_its_pattern_is_found(
    route: Route,
    router: Router,
    at: int,
    path: Seq<char>,
    index: usize,
    captured: Seq<(Seq<char>, Seq<char>)>,
    method: Seq<char>,
)
    requires
        build_error(route) is None,
        is_built_from(router, route),
        0 <= at < flattened(route)->Ok_0.flats.len(),
        router.position(path) == Some((index, captured)),
        index < router.paths().len(),
        router.paths()[index as int] == flattened(route)->Ok_0.flats[at].path,
    ensures
        ({
            let flats = flattened(route)->Ok_0.flats;
            let found = looked_up(router, path, method);
            let app = AppView { target: flats[at].target, middleware: flats[at].middleware };
            &&& (flats[at].method matches MethodFilter::Exact(exact) && exact@ == method)
                ==> found is Endpoint && found->app == app && !found->head_fallback
            &&& flats[at].method is Any && (forall|j: int|
                0 <= j < flats.len() ==> !#[trigger] is_exactly(flats, j, flats[at].path, method))
                ==> found is Endpoint && found->app == app && !found->head_fallback
        }),
{
    let flats = flattened(route)->Ok_0.flats;
    let globals = stack(route.layers@);
    let pattern = flats[at].path;
    assert(router.tables()[index as int] == table_for(flats, pattern));
    if flats[at].method matches MethodFilter::Exact(exact) && exact@ == method {
        assert(is_exactly(flats, at, pattern, method));
        lemma_entry_is_unique(flats, globals, at, method);
    }
    if flats[at].method is Any && (forall|j: int|
        0 <= j < flats.len() ==> !#[trigger] is_exactly(flats, j, pattern, method)) {
        lemma_entries(flats, pattern, method);
        lemma_entry_position(entries_for(flats, pattern), method, 0);
        lemma_catch_all_is_unique(flats, globals, at, flats.len() as int);
        assert(flats.take(flats.len() as int) =~= flats);
    }
}

proof fn lemma_catch_all_is_unique(
    flats: Seq<FlatView>,
    globals: Seq<LayerView>,
    at: int,
    to: int,
)
    requires
        0 <= at < to <= flats.len(),
        first_flat_error(flats, globals, 0) is None,
        flats[at].method is Any,
    ensures
        any_for(flats.take(to), flats[at].path) == Some(
            AppView { target: flats[at].target, middleware: flats[at].middleware },
        ),
    decreases to,
{
    let init = flats.take(to);
    assert(init.drop_last() =~= flats.take(to - 1));
    assert(init.last() == flats[to - 1]);
    if at < to - 1 {
        lemma_catch_all_is_unique(flats, globals, at, to - 1);
        lemma_no_error_before(flats, globals, 0, to - 1);
        if flats[to - 1].path == flats[at].path && flats[to - 1].method is Any {
            assert(same_filter(flats[at].method, flats[to - 1].method));
            assert(is_repeated(flats, to - 1));
        }
    }
}

/// Whether an endpoint has everything its extractors need, and is not registered twice.
pub open spec fn is_usable(flats: Seq<FlatView>, globals: Seq<LayerView>, at: int) -> bool {
    &&& forall|n: int|
        0 <= n < flats[at].requirements.len() ==> exists|l: int|
            0 <= l < (globals + flats[at].middleware).len() && (#[trigger] (globals
                + flats[at].middleware)[l]).provisions.contains(
                (#[trigger] flats[at].requirements[n]).key,
            )
    &&& forall|j: int|
        0 <= j < at && (#[trigger] flats[j]).path == flats[at].path ==> match (
            flats[j].method,
            flats[at].method,
        ) {
            (MethodFilter::Exact(a), MethodFilter::Exact(b)) => a@ != b@,
            (MethodFilter::Any, MethodFilter::Any) => false,
            _ => true,
        }
}

/// A tree whose endpoints are all wired and registered once has nothing wrong with them, and one that
/// has something wrong is told the first endpoint with it.
pub proof fn the_first_unusable_endpoint_is_reported(
    flats: Seq<FlatView>,
    globals: Seq<LayerView>,
    from: int,
)
    requires
        0 <= from <= flats.len(),
    ensures
        first_flat_error(flats, globals, from) is None <==> (forall|at: int|
            from <= at < flats.len() ==> #[trigger] is_usable(flats, globals, at)),
        first_flat_error(flats, globals, from) matches Some(error) ==> exists|at: int|
            {
                &&& from <= at < flats.len()
                &&& !#[trigger] is_usable(flats, globals, at)
                &&& forall|j: int| from <= j < at ==> #[trigger] is_usable(flats, globals, j)
                &&& match error {
                    BuildErrorView::MissingProvision { path, method, requirement } => path
                        == flats[at].path && method == flats[at].method
                        && flats[at].requirements.contains(requirement) && !provided(
                        globals + flats[at].middleware,
                        requirement.key,
                    ),
                    BuildErrorView::RepeatedMethod { path, method } => path == flats[at].path && (
                    flats[at].method matches MethodFilter::Exact(exact) && exact@ == method),
                    BuildErrorView::RepeatedAny { path } => path == flats[at].path
                        && flats[at].method is Any,
                    _ => false,
                }
            },
    decreases flats.len() - from,
{
    if from < flats.len() {
        let flat = flats[from];
        let available = globals + flat.middleware;
        lemma_first_unmet(flat.requirements, available, 0);
        assert(is_usable(flats, globals, from) <==> flat_error(flats, globals, from) is None) by {
            if first_unmet(flat.requirements, available, 0) is None {
                assert forall|n: int| 0 <= n < flat.requirements.len() implies exists|l: int|
                    0 <= l < available.len() && (#[trigger] available[l]).provisions.contains(
                        (#[trigger] flat.requirements[n]).key,
                    ) by {
                    assert(provided(available, flat.requirements[n].key));
                }
                if is_repeated(flats, from) {
                    let j = choose|j: int|
                        0 <= j < from && (#[trigger] flats[j]).path == flats[from].path
                            && same_filter(flats[j].method, flats[from].method);
                    assert(!is_usable(flats, globals, from));
                }
            } else {
                let n = choose|n: int|
                    0 <= n < flat.requirements.len() && !provided(
                        available,
                        (#[trigger] flat.requirements[n]).key,
                    );
                assert(!is_usable(flats, globals, from));
            }
        }
        the_first_unusable_endpoint_is_reported(flats, globals, from + 1);
        if flat_error(flats, globals, from) is Some {
            assert(!is_usable(flats, globals, from));
        }
    }
}

proof fn lemma_first_unmet(requirements: Seq<Requirement>, available: Seq<LayerView>, from: int)
    requires
        0 <= from <= requirements.len(),
    ensures
        first_unmet(requirements, available, from) is None <==> (forall|n: int|
            from <= n < requirements.len() ==> provided(
                available,
                (#[trigger] requirements[n]).key,
            )),
        first_unmet(requirements, available, from) matches Some(requirement)
            ==> requirements.contains(requirement) && !provided(available, requirement.key),
    decreases requirements.len() - from,
{
    if from < requirements.len() {
        lemma_first_unmet(requirements, available, from + 1);
    }
}

/// A handler with documentation is documented under its path and method, behind those before it;
/// one that answers any method, or has no documentation, is not.
pub proof fn every_documented_handler_is_listed(
    entries: Seq<EntryView>,
    path: Seq<char>,
    name: String,
    handler: RouteHandlerDoc,
    method: MethodFilter,
)
    ensures
        documented(entries, path, MethodFilter::Exact(name), Some(handler)) == entries.push(
            EntryView { path, method: name@, handler },
        ),
        documented(entries, path, MethodFilter::Any, Some(handler)) == entries,
        documented(entries, path, method, None) == entries,
{
}

/// What a mounted router documents is documented below its mount point, in order and otherwise
/// unchanged.
pub proof fn a_mounted_router_is_documented_below(
    prefix: Seq<char>,
    entries: Seq<EntryView>,
    i: int,
)
    requires
        0 <= i < entries.len(),
    ensures
        prefixed(prefix, entries).len() == entries.len(),
        prefixed(prefix, entries)[i].path == collapse(prefix + entries[i].path),
        prefixed(prefix, entries)[i].method == entries[i].method,
        prefixed(prefix, entries)[i].handler == entries[i].handler,
{
}

/// Routes are listed by their paths, and at one path by their methods.
pub proof fn a_listing_is_by_path_and_method(
    routes: Seq<(MethodFilter, Seq<char>)>,
    i: int,
    j: int,
)
    requires
        is_listing(routes),
        0 <= i < j < routes.len(),
    ensures
        precedes(routes[i].1, routes[j].1),
        routes[i].1 == routes[j].1 ==> precedes(
            filter_text(routes[i].0),
            filter_text(routes[j].0),
        ),
{
    assert(listed_before(routes[i], routes[j]));
    precedes_is_a_total_order(routes[i].1, routes[j].1, routes[j].1);
}

/// The handlers for what no route answers are held to what they need as well: the values that a
/// handler extracts come from the layers of the whole router.
pub proof fn the_other_handlers_are_wired_too(route: Route, i: int)
    requires
        wiring_error(route) is None,
    ensures
        route.fallback matches Some(entry) ==> (0 <= i < entry.requirements@.len() ==> exists|k: int|
            0 <= k < route.layers@.len() && (#[trigger] stack(route.layers@)[k]).provisions.contains(
                entry.requirements@[i].key,
            )),
        route.method_not_allowed matches Some(entry) ==> (0 <= i < entry.requirements@.len()
            ==> exists|k: int|
            0 <= k < route.layers@.len() && (#[trigger] stack(route.layers@)[k]).provisions.contains(
                entry.requirements@[i].key,
            )),
{
    let globals = stack(route.layers@);
    assert(globals.len() == route.layers@.len());
    if let Some(entry) = route.fallback {
        if 0 <= i < entry.requirements@.len() {
            lemma_no_unmet(entry.requirements@, globals, 0, i);
        }
    }
    if let Some(entry) = route.method_not_allowed {
        if 0 <= i < entry.requirements@.len() {
            lemma_no_unmet(entry.requirements@, globals, 0, i);
        }
    }
}

proof fn lemma_no_unmet(
    requirements: Seq<Requirement>,
    available: Seq<LayerView>,
    from: int,
    i: int,
)
    requires
        0 <= from <= i < requirements.len(),
        first_unmet(requirements, available, from) is None,
    ensures
        provided(available, requirements[i].key),
    decreases i - from,
{
    if from < i {
        lemma_no_unmet(requirements, available, from + 1, i);
    }
}

} // verus!
