//! Building route trees.

use vstd::prelude::*;

#[allow(unused_imports)]
use crate::openapi::entry::{entry_views, EntryView};
use crate::openapi::entry::{RouteHandlerDoc, RouteOpenApiEntry};
#[allow(unused_imports)]
use crate::routing::path::{
    collapse, collapse_keeps_the_last_character, joined, lemma_collapse_behind,
};
use crate::routing::path::join_path;
#[allow(unused_imports)]
use crate::routing::router::{
    are_literal, build_error, documented, flat_node, flat_nodes, flattened, is_built_from, is_rooted, mount_point, mountable,
    mountable_node, no_routes, prefixed, routes_alike, stack, tree_paths, wiring_error,
    BuildErrorView, FlatRoutesView, FlatView, LayerView, TargetView,
};
use crate::routing::router::{
    build, EndpointEntry, Layer, MethodFilter, Requirement, Route, RouteBuildError, RouteNode,
    RouteNodeType, Router,
};
use crate::text::copy_text;

verus! {

/// A handler as the route tree knows it.
pub struct Handler {
    /// Identifies the handler.
    pub endpoint: u64,
    /// What is documented of it.
    pub doc: RouteHandlerDoc,
    /// The values its extractors need.
    pub requirements: Vec<Requirement>,
}

/// Whether a node is a handler's endpoint at a path segment, without middleware.
pub open spec fn is_endpoint_node(
    node: RouteNode,
    segment: Seq<char>,
    method: Option<Seq<char>>,
    handler: Handler,
) -> bool {
    &&& node.path@ == segment
    &&& node.node_type matches RouteNodeType::Endpoint {
        endpoint,
        method: filter,
        openapi,
        requirements,
        middleware,
    } && {
        &&& endpoint == handler.endpoint
        &&& match method {
            Some(method) => filter matches MethodFilter::Exact(exact) && exact@ == method,
            None => filter is Any,
        }
        &&& openapi == Some(handler.doc)
        &&& requirements == handler.requirements
        &&& middleware@.len() == 0
    }
}

/// Whether a node mounts a router at a path segment, without middleware.
pub open spec fn is_mount_node(node: RouteNode, segment: Seq<char>, router: Router) -> bool {
    &&& node.path@ == segment
    &&& node.node_type matches RouteNodeType::Nested { router: mounted, middleware } && mounted
        == router && middleware@.len() == 0
}

/// Whether `after` is `before` with `layers` around every endpoint and mounted router.
pub open spec fn wrapped_nodes(
    before: Seq<RouteNode>,
    layers: Seq<LayerView>,
    after: Seq<RouteNode>,
) -> bool
    decreases before,
{
    &&& before.len() == after.len()
    &&& forall|i: int|
        0 <= i < before.len() ==> wrapped_node(#[trigger] before[i], layers, after[i])
}

/// Whether `after` is `before` with `layers` around every endpoint and mounted router.
pub open spec fn wrapped_node(before: RouteNode, layers: Seq<LayerView>, after: RouteNode) -> bool
    decreases before,
{
    &&& after.path == before.path
    &&& match (before.node_type, after.node_type) {
        (RouteNodeType::Route(b), RouteNodeType::Route(a)) => {
            &&& a.layers == b.layers
            &&& a.fallback == b.fallback
            &&& a.method_not_allowed == b.method_not_allowed
            &&& wrapped_nodes(b.nodes@, layers, a.nodes@)
        },
        (
            RouteNodeType::Endpoint { endpoint, method, openapi, requirements, middleware },
            RouteNodeType::Endpoint {
                endpoint: endpoint2,
                method: method2,
                openapi: openapi2,
                requirements: requirements2,
                middleware: middleware2,
            },
        ) => {
            &&& endpoint2 == endpoint
            &&& method2 == method
            &&& openapi2 == openapi
            &&& requirements2 == requirements
            &&& stack(middleware2@) == layers + stack(middleware@)
        },
        (
            RouteNodeType::Nested { router, middleware },
            RouteNodeType::Nested { router: router2, middleware: middleware2 },
        ) => {
            &&& router2 == router
            &&& stack(middleware2@) == layers + stack(middleware@)
        },
        _ => false,
    }
}

/// A stack with copies of `layers` put outside of it.
fn wrap_stack(layers: &Vec<Layer>, inner: Vec<Layer>) -> (r: Vec<Layer>)
    ensures
        stack(r@) == stack(layers@) + stack(inner@),
{
    let mut out: Vec<Layer> = Vec::new();
    let mut i: usize = 0;
    assert(stack(out@) =~= stack(layers@).take(0));
    while i < layers.len()
        invariant
            i <= layers.len(),
            stack(out@) == stack(layers@).take(i as int),
        decreases layers.len() - i,
    {
        let ghost before = out@;
        out.push(layers[i].copy());
        i = i + 1;
        assert(stack(out@) =~= stack(before).push(layers@[i - 1]@));
        assert(stack(layers@).take(i as int) =~= stack(layers@).take(i - 1).push(
            layers@[i - 1]@,
        ));
    }
    assert(stack(layers@).take(i as int) =~= stack(layers@));
    let ghost outer = out@;
    let mut inner = inner;
    let ghost inside = inner@;
    out.append(&mut inner);
    assert(stack(out@) =~= stack(outer) + stack(inside));
    out
}

/// Put `layers` around every endpoint and mounted router of the nodes.
fn wrap_nodes(nodes: Vec<RouteNode>, layers: &Vec<Layer>) -> (r: Vec<RouteNode>)
    ensures
        wrapped_nodes(nodes@, stack(layers@), r@),
        mountable(nodes@) ==> mountable(r@),
    decreases nodes,
{
    let ghost all = nodes@;
    let mut out: Vec<RouteNode> = Vec::new();
    for node in it: nodes
        invariant
            it.seq() == all,
            all == nodes@,
            out@.len() == it.index(),
            forall|i: int|
                0 <= i < out@.len() ==> wrapped_node(all[i], stack(layers@), #[trigger] out@[i]),
            forall|i: int|
                0 <= i < out@.len() && mountable(all) ==> mountable_node(#[trigger] out@[i]),
    {
        proof {
            reveal_with_fuel(wrapped_node, 2);
            reveal_with_fuel(mountable_node, 2);
            reveal_with_fuel(mountable, 2);
        }
        let ghost at = it.index() as int;
        assert(node == all[at]);
        assert(mountable(all) ==> mountable_node(all[at]));
        assert(decreases_to!(nodes => nodes@));
        assert(decreases_to!(nodes@ => nodes@[at]));
        let RouteNode { path, node_type } = node;
        let node_type = match node_type {
            RouteNodeType::Route(route) => {
                let Route { nodes: inner, layers: own, fallback, method_not_allowed } = route;
                let wrapped = wrap_nodes(inner, layers);
                RouteNodeType::Route(
                    Route { nodes: wrapped, layers: own, fallback, method_not_allowed },
                )
            },
            RouteNodeType::Endpoint { endpoint, method, openapi, requirements, middleware } => {
                RouteNodeType::Endpoint {
                    endpoint,
                    method,
                    openapi,
                    requirements,
                    middleware: wrap_stack(layers, middleware),
                }
            },
            RouteNodeType::Nested { router, middleware } => RouteNodeType::Nested {
                router,
                middleware: wrap_stack(layers, middleware),
            },
        };
        out.push(RouteNode { path, node_type });
    }
    proof {
        reveal_with_fuel(mountable, 2);
    }
    out
}

/// An endpoint with `layers` put outside its middleware.
pub open spec fn wrapped_flat(flat: FlatView, layers: Seq<LayerView>) -> FlatView {
    FlatView { middleware: layers + flat.middleware, ..flat }
}

/// Endpoints with `layers` put outside their middleware; nothing else changes.
pub open spec fn wrapped_flats(flat: FlatRoutesView, layers: Seq<LayerView>) -> FlatRoutesView {
    FlatRoutesView {
        flats: flat.flats.map_values(|f: FlatView| wrapped_flat(f, layers)),
        ..flat
    }
}

/// The outcome of flattening with `layers` put around every endpoint.
pub open spec fn wrapped_outcome(
    outcome: Result<FlatRoutesView, BuildErrorView>,
    layers: Seq<LayerView>,
) -> Result<FlatRoutesView, BuildErrorView> {
    match outcome {
        Ok(flat) => Ok(wrapped_flats(flat, layers)),
        Err(error) => Err(error),
    }
}

proof fn lemma_wrapped_node(
    prefix: Seq<char>,
    before: RouteNode,
    layers: Seq<LayerView>,
    after: RouteNode,
    sofar: FlatRoutesView,
)
    requires
        wrapped_node(before, layers, after),
    ensures
        flat_node(prefix, after, wrapped_flats(sofar, layers)) == wrapped_outcome(
            flat_node(prefix, before, sofar),
            layers,
        ),
    decreases before, 0int,
{
    reveal_with_fuel(flat_node, 2);
    reveal_with_fuel(wrapped_node, 2);
    let path = joined(prefix, before.path@);
    match before.node_type {
        RouteNodeType::Route(route) => {
            lemma_wrapped_nodes(
                path,
                route.nodes@,
                layers,
                after.node_type->Route_0.nodes@,
                0,
                sofar,
            );
        },
        RouteNodeType::Endpoint { endpoint, method, openapi, requirements, middleware } => {
            if is_rooted(path) {
                let flat = FlatView {
                    path,
                    method,
                    target: TargetView::Endpoint(endpoint),
                    middleware: stack(middleware@),
                    requirements: requirements@,
                };
                assert(wrapped_flats(
                    FlatRoutesView { flats: sofar.flats.push(flat), ..sofar },
                    layers,
                ).flats =~= wrapped_flats(sofar, layers).flats.push(wrapped_flat(flat, layers)));
            }
        },
        RouteNodeType::Nested { router, middleware } => {
            if is_rooted(path) && !path.contains('{') {
                let index = sofar.mounted.len() as int;
                let below = joined(path, "/{*skyzen_nested}"@);
                let first = mount_point(path, path, index, stack(middleware@));
                let second = mount_point(below, path, index, stack(middleware@));
                assert(wrapped_flats(
                    FlatRoutesView { flats: sofar.flats.push(first).push(second), ..sofar },
                    layers,
                ).flats =~= wrapped_flats(sofar, layers).flats.push(
                    wrapped_flat(first, layers),
                ).push(wrapped_flat(second, layers)));
            }
        },
    }
}

proof fn lemma_wrapped_nodes(
    prefix: Seq<char>,
    before: Seq<RouteNode>,
    layers: Seq<LayerView>,
    after: Seq<RouteNode>,
    from: int,
    sofar: FlatRoutesView,
)
    requires
        wrapped_nodes(before, layers, after),
        0 <= from,
    ensures
        flat_nodes(prefix, after, from, wrapped_flats(sofar, layers)) == wrapped_outcome(
            flat_nodes(prefix, before, from, sofar),
            layers,
        ),
    decreases before, before.len() - from,
{
    reveal_with_fuel(flat_nodes, 2);
    if from < before.len() {
        assert(wrapped_node(before[from], layers, after[from]));
        lemma_wrapped_node(prefix, before[from], layers, after[from], sofar);
        match flat_node(prefix, before[from], sofar) {
            Ok(next) => {
                lemma_wrapped_nodes(prefix, before, layers, after, from + 1, next);
            },
            Err(_) => {},
        }
    }
}

/// Wrapping a tree puts the middleware outside every endpoint reachable from it and changes
/// nothing else: not the paths, not the handlers, not the documentation, not the errors.
pub proof fn wrapping_covers_every_endpoint(
    prefix: Seq<char>,
    before: Seq<RouteNode>,
    layers: Seq<LayerView>,
    after: Seq<RouteNode>,
)
    requires
        wrapped_nodes(before, layers, after),
    ensures
        flat_nodes(prefix, after, 0, no_routes()) == wrapped_outcome(
            flat_nodes(prefix, before, 0, no_routes()),
            layers,
        ),
{
    assert(wrapped_flats(no_routes(), layers) =~= no_routes());
    lemma_wrapped_nodes(prefix, before, layers, after, 0, no_routes());
}

/// What a list of nodes from `from` on contributes to the OpenAPI document.
pub open spec fn node_entries(
    prefix: Seq<char>,
    nodes: Seq<RouteNode>,
    from: int,
    sofar: Seq<EntryView>,
) -> Seq<EntryView>
    decreases nodes, nodes.len() - from,
{
    if from < 0 || from >= nodes.len() {
        sofar
    } else {
        node_entries(prefix, nodes, from + 1, entries_of(prefix, nodes[from], sofar))
    }
}

/// What a node contributes to the OpenAPI document.
pub open spec fn entries_of(
    prefix: Seq<char>,
    node: RouteNode,
    sofar: Seq<EntryView>,
) -> Seq<EntryView>
    decreases node, 0int,
{
    let path = joined(prefix, node.path@);
    match node.node_type {
        RouteNodeType::Route(route) => node_entries(path, route.nodes@, 0, sofar),
        RouteNodeType::Endpoint { endpoint, method, openapi, requirements, middleware } => documented(
            sofar,
            path,
            method,
            openapi,
        ),
        RouteNodeType::Nested { router, middleware } => sofar + prefixed(path, router.operations()),
    }
}

proof fn lemma_entries_of(prefix: Seq<char>, node: RouteNode, sofar: FlatRoutesView)
    ensures
        flat_node(prefix, node, sofar) matches Ok(next) ==> next.openapi == entries_of(
            prefix,
            node,
            sofar.openapi,
        ),
    decreases node, 0int,
{
    reveal_with_fuel(flat_node, 2);
    reveal_with_fuel(entries_of, 2);
    match node.node_type {
        RouteNodeType::Route(route) => {
            lemma_node_entries(joined(prefix, node.path@), route.nodes@, 0, sofar);
        },
        _ => {},
    }
}

proof fn lemma_node_entries(
    prefix: Seq<char>,
    nodes: Seq<RouteNode>,
    from: int,
    sofar: FlatRoutesView,
)
    ensures
        flat_nodes(prefix, nodes, from, sofar) matches Ok(next) ==> next.openapi == node_entries(
            prefix,
            nodes,
            from,
            sofar.openapi,
        ),
    decreases nodes, nodes.len() - from,
{
    reveal_with_fuel(flat_nodes, 2);
    reveal_with_fuel(node_entries, 2);
    if 0 <= from < nodes.len() {
        lemma_entries_of(prefix, nodes[from], sofar);
        match flat_node(prefix, nodes[from], sofar) {
            Ok(next) => {
                lemma_node_entries(prefix, nodes, from + 1, next);
            },
            Err(_) => {},
        }
    }
}

/// A route and the router built from it document the same operations.
pub proof fn a_built_router_documents_what_its_route_does(route: Route, router: Router)
    requires
        is_built_from(router, route),
    ensures
        router.operations() == node_entries(""@, route.nodes@, 0, Seq::empty()),
{
    lemma_node_entries(""@, route.nodes@, 0, no_routes());
}

/// Collect what the nodes contribute to the OpenAPI document.
fn collect_openapi_entries(
    prefix: &str,
    nodes: &Vec<RouteNode>,
    out: &mut Vec<RouteOpenApiEntry>,
)
    ensures
        entry_views(final(out)@) == node_entries(prefix@, nodes@, 0, entry_views(old(out)@)),
    decreases nodes,
{
    let mut i: usize = 0;
    while i < nodes.len()
        invariant
            i <= nodes.len(),
            node_entries(prefix@, nodes@, 0, entry_views(old(out)@)) == node_entries(
                prefix@,
                nodes@,
                i as int,
                entry_views(out@),
            ),
        decreases nodes.len() - i,
    {
        proof {
            reveal_with_fuel(node_entries, 2);
            reveal_with_fuel(entries_of, 2);
        }
        let node = &nodes[i];
        assert(decreases_to!(nodes => nodes@));
        assert(decreases_to!(nodes@ => nodes@[i as int]));
        let path = join_path(prefix, node.path.as_str());
        let ghost before = out@;
        match &node.node_type {
            RouteNodeType::Route(route) => {
                collect_openapi_entries(path.as_str(), &route.nodes, out);
            },
            RouteNodeType::Endpoint { endpoint, method, openapi, requirements, middleware } => {
                if let Some(handler) = openapi {
                    if let MethodFilter::Exact(exact) = method {
                        out.push(
                            RouteOpenApiEntry::new(path.clone(), exact.clone(), handler.copy()),
                        );
                        assert(entry_views(out@) =~= entry_views(before).push(
                            EntryView { path: path@, method: exact@, handler: *handler },
                        ));
                    }
                }
            },
            RouteNodeType::Nested { router, middleware } => {
                append_entries(path.as_str(), router, out);
            },
        }
        i = i + 1;
    }
}

/// Append a mounted router's operations under its prefix.
fn append_entries(prefix: &str, router: &Router, out: &mut Vec<RouteOpenApiEntry>)
    ensures
        entry_views(final(out)@) == entry_views(old(out)@) + prefixed(
            prefix@,
            router.operations(),
        ),
{
    let entries = router.openapi_entries();
    let ghost all = prefixed(prefix@, router.operations());
    let mut i: usize = 0;
    assert(entry_views(out@) + all.take(0) =~= entry_views(out@));
    while i < entries.len()
        invariant
            i <= entries.len(),
            all == prefixed(prefix@, router.operations()),
            entry_views(entries@) == router.operations(),
            entry_views(out@) == entry_views(old(out)@) + all.take(i as int),
        decreases entries.len() - i,
    {
        let ghost before = out@;
        let entry = &entries[i];
        out.push(
            RouteOpenApiEntry::new(
                join_path(prefix, entry.path.as_str()),
                entry.method.clone(),
                entry.handler.copy(),
            ),
        );
        i = i + 1;
        proof {
            assert(router.operations()[i - 1] == entry@);
            assert(entry_views(out@) =~= entry_views(before).push(all[i - 1]));
            assert(all.take(i as int) =~= all.take(i - 1).push(all[i - 1]));
        }
    }
    assert(all.take(i as int) =~= all);
}

/// Types that can be turned into route nodes.
pub trait Routes: Sized {
    /// Whether the value can be mounted inside a larger tree.
    spec fn can_mount(&self) -> bool;

    /// Whether these are the nodes the value stands for.
    spec fn stands_for(&self, nodes: Seq<RouteNode>) -> bool;

    /// Produce the corresponding route nodes.
    fn into_route_nodes(self) -> (r: Vec<RouteNode>)
        requires
            self.can_mount(),
        ensures
            self.stands_for(r@),
            mountable(r@),
    ;
}

impl Routes for Vec<RouteNode> {
    open spec fn can_mount(&self) -> bool {
        mountable(self@)
    }

    open spec fn stands_for(&self, nodes: Seq<RouteNode>) -> bool {
        nodes == self@
    }

    fn into_route_nodes(self) -> (r: Vec<RouteNode>) {
        self
    }
}

impl Routes for RouteNode {
    open spec fn can_mount(&self) -> bool {
        mountable_node(*self)
    }

    open spec fn stands_for(&self, nodes: Seq<RouteNode>) -> bool {
        nodes == seq![*self]
    }

    fn into_route_nodes(self) -> (r: Vec<RouteNode>) {
        let mut nodes: Vec<RouteNode> = Vec::new();
        nodes.push(self);
        assert(nodes@ =~= seq![self]);
        nodes
    }
}

impl Routes for () {
    open spec fn can_mount(&self) -> bool {
        true
    }

    open spec fn stands_for(&self, nodes: Seq<RouteNode>) -> bool {
        nodes.len() == 0
    }

    fn into_route_nodes(self) -> (r: Vec<RouteNode>) {
        Vec::new()
    }
}

impl Routes for Route {
    open spec fn can_mount(&self) -> bool {
        self.fallback is None && self.method_not_allowed is None && mountable(self.nodes@)
    }

    open spec fn stands_for(&self, nodes: Seq<RouteNode>) -> bool {
        wrapped_nodes(self.nodes@, stack(self.layers@), nodes)
    }

    fn into_route_nodes(self) -> (r: Vec<RouteNode>) {
        self.into_mounted_nodes()
    }
}

impl Route {
    /// Build a route from the provided nodes.
    pub fn new<R: Routes>(nodes: R) -> (r: Self)
        requires
            nodes.can_mount(),
        ensures
            nodes.stands_for(r.nodes@),
            mountable(r.nodes@),
            r.layers@.len() == 0,
            r.fallback is None,
            r.method_not_allowed is None,
    {
        Route {
            nodes: nodes.into_route_nodes(),
            layers: Vec::new(),
            fallback: None,
            method_not_allowed: None,
        }
    }

    /// Turn this route into plain nodes for mounting inside a larger tree.
    ///
    /// Router-wide settings have no meaning below the root, so layers become middleware of the
    /// subtree, in the same order; a fallback has no place there at all.
    pub fn into_mounted_nodes(self) -> (r: Vec<RouteNode>)
        requires
            self.fallback is None,
            self.method_not_allowed is None,
        ensures
            wrapped_nodes(self.nodes@, stack(self.layers@), r@),
            mountable(self.nodes@) ==> mountable(r@),
    {
        wrap_nodes(self.nodes, &self.layers)
    }

    /// Attach middleware to this route and all nested endpoints.
    pub fn middleware(self, layer: Layer) -> (r: Self)
        ensures
            wrapped_nodes(self.nodes@, seq![layer@], r.nodes@),
            mountable(self.nodes@) ==> mountable(r.nodes@),
            r.layers == self.layers,
            r.fallback == self.fallback,
            r.method_not_allowed == self.method_not_allowed,
    {
        let Route { nodes, layers, fallback, method_not_allowed } = self;
        let mut one: Vec<Layer> = Vec::new();
        one.push(layer);
        assert(stack(one@) =~= seq![layer@]);
        Route { nodes: wrap_nodes(nodes, &one), layers, fallback, method_not_allowed }
    }

    /// Attach middleware to this route and all nested endpoints; the same as
    /// [`Route::middleware`].
    pub fn with(self, layer: Layer) -> (r: Self)
        ensures
            wrapped_nodes(self.nodes@, seq![layer@], r.nodes@),
            mountable(self.nodes@) ==> mountable(r.nodes@),
            r.layers == self.layers,
            r.fallback == self.fallback,
            r.method_not_allowed == self.method_not_allowed,
    {
        self.middleware(layer)
    }

    /// Wrap the entire router in `layer`, its 404 and 405 answers included. Layers run outermost
    /// first in registration order.
    pub fn layer(self, layer: Layer) -> (r: Self)
        ensures
            r.nodes == self.nodes,
            r.layers@ == self.layers@.push(layer),
            r.fallback == self.fallback,
            r.method_not_allowed == self.method_not_allowed,
    {
        let Route { nodes, layers, fallback, method_not_allowed } = self;
        let mut layers = layers;
        layers.push(layer);
        Route { nodes, layers, fallback, method_not_allowed }
    }

    /// Answer requests that match no route with a handler instead of the built-in 404.
    pub fn fallback(self, handler: Handler) -> (r: Self)
        ensures
            r.nodes == self.nodes,
            r.layers == self.layers,
            r.fallback == Some(
                EndpointEntry { endpoint: handler.endpoint, requirements: handler.requirements },
            ),
            r.method_not_allowed == self.method_not_allowed,
    {
        let entry = EndpointEntry {
            endpoint: handler.endpoint,
            requirements: handler.requirements,
        };
        Route {
            nodes: self.nodes,
            layers: self.layers,
            fallback: Some(entry),
            method_not_allowed: self.method_not_allowed,
        }
    }

    /// Answer requests whose method is not registered for a matched path with a handler instead of
    /// the built-in 405.
    pub fn method_not_allowed(self, handler: Handler) -> (r: Self)
        ensures
            r.nodes == self.nodes,
            r.layers == self.layers,
            r.fallback == self.fallback,
            r.method_not_allowed == Some(
                EndpointEntry { endpoint: handler.endpoint, requirements: handler.requirements },
            ),
    {
        let entry = EndpointEntry {
            endpoint: handler.endpoint,
            requirements: handler.requirements,
        };
        Route {
            nodes: self.nodes,
            layers: self.layers,
            fallback: self.fallback,
            method_not_allowed: Some(entry),
        }
    }

    /// Register a handler for alarm events.
    pub fn on_alarm(self, handler: Handler) -> (r: RouteWithAlarm)
        ensures
            r.route == self,
            r.alarm_endpoint == handler.endpoint,
    {
        RouteWithAlarm { route: self, alarm_endpoint: handler.endpoint }
    }

    /// Build the route, reporting an invalid tree.
    pub fn try_build(self) -> (r: Result<Router, RouteBuildError>)
        requires
            mountable(self.nodes@),
        ensures
            match r {
                Ok(router) => build_error(self) is None && is_built_from(router, self),
                Err(error) => build_error(self) == Some(error@),
            },
            wiring_error(self) is None && are_literal(tree_paths(self)) ==> r is Ok,
    {
        build(self)
    }

    /// What this route tree contributes to an OpenAPI document.
    pub fn openapi_entries(&self) -> (r: Vec<RouteOpenApiEntry>)
        ensures
            entry_views(r@) == node_entries(""@, self.nodes@, 0, Seq::empty()),
    {
        let mut entries: Vec<RouteOpenApiEntry> = Vec::new();
        assert(entry_views(entries@) =~= Seq::empty());
        collect_openapi_entries("", &self.nodes, &mut entries);
        entries
    }
}

/// A route with an attached alarm handler.
pub struct RouteWithAlarm {
    /// The route.
    pub route: Route,
    /// The handler for alarm events.
    pub alarm_endpoint: u64,
}

impl RouteWithAlarm {
    /// Attach middleware to this route and all nested endpoints.
    pub fn middleware(self, layer: Layer) -> (r: Self)
        ensures
            wrapped_nodes(self.route.nodes@, seq![layer@], r.route.nodes@),
            mountable(self.route.nodes@) ==> mountable(r.route.nodes@),
            r.route.layers == self.route.layers,
            r.route.fallback == self.route.fallback,
            r.route.method_not_allowed == self.route.method_not_allowed,
            r.alarm_endpoint == self.alarm_endpoint,
    {
        RouteWithAlarm {
            route: self.route.middleware(layer),
            alarm_endpoint: self.alarm_endpoint,
        }
    }

    /// Attach middleware to this route and all nested endpoints; an alias for
    /// [`RouteWithAlarm::middleware`].
    pub fn with(self, layer: Layer) -> (r: Self)
        ensures
            wrapped_nodes(self.route.nodes@, seq![layer@], r.route.nodes@),
            mountable(self.route.nodes@) ==> mountable(r.route.nodes@),
            r.route.layers == self.route.layers,
            r.route.fallback == self.route.fallback,
            r.route.method_not_allowed == self.route.method_not_allowed,
            r.alarm_endpoint == self.alarm_endpoint,
    {
        self.middleware(layer)
    }

    /// Wrap the entire router in `layer`; see [`Route::layer`].
    pub fn layer(self, layer: Layer) -> (r: Self)
        ensures
            r.route.nodes == self.route.nodes,
            r.route.layers@ == self.route.layers@.push(layer),
            r.route.fallback == self.route.fallback,
            r.route.method_not_allowed == self.route.method_not_allowed,
            r.alarm_endpoint == self.alarm_endpoint,
    {
        RouteWithAlarm { route: self.route.layer(layer), alarm_endpoint: self.alarm_endpoint }
    }

    /// Build the route, reporting an invalid tree.
    pub fn try_build(self) -> (r: Result<Router, RouteBuildError>)
        requires
            mountable(self.route.nodes@),
        ensures
            match r {
                Ok(router) => {
                    &&& build_error(self.route) is None
                    &&& router.alarm() == Some(self.alarm_endpoint)
                    &&& exists|plain: Router|
                        is_built_from(plain, self.route) && #[trigger] routes_alike(router, plain)
                            && router.layer_stack() == plain.layer_stack()
                },
                Err(error) => build_error(self.route) == Some(error@),
            },
            wiring_error(self.route) is None && are_literal(tree_paths(self.route)) ==> r is Ok,
    {
        let alarm = self.alarm_endpoint;
        match build(self.route) {
            Ok(router) => Ok(router.with_alarm(alarm)),
            Err(error) => Err(error),
        }
    }
}

/// The nodes a node stands for when more are added at its path.
pub open spec fn base_nodes(node: RouteNode, nodes: Seq<RouteNode>) -> bool {
    match node.node_type {
        RouteNodeType::Route(route) => wrapped_nodes(route.nodes@, stack(route.layers@), nodes),
        _ => nodes.len() == 1 && nodes[0].path@.len() == 0 && nodes[0].node_type == node.node_type,
    }
}

/// Whether a node is `before` with `added` at the same path.
pub open spec fn is_extended(node: RouteNode, before: RouteNode, added: Seq<RouteNode>) -> bool {
    &&& node.path == before.path
    &&& node.node_type matches RouteNodeType::Route(route) && {
        &&& route.layers@.len() == 0
        &&& route.fallback is None
        &&& route.method_not_allowed is None
        &&& route.nodes@.len() >= added.len()
        &&& route.nodes@.skip(route.nodes@.len() - added.len()) == added
        &&& base_nodes(before, route.nodes@.take(route.nodes@.len() - added.len()))
    }
}

/// Whether a node is `before` with a handler added at the same path, for one method or for all.
pub open spec fn gains_handler(
    node: RouteNode,
    before: RouteNode,
    method: Option<Seq<char>>,
    handler: Handler,
) -> bool {
    exists|added: RouteNode| #[trigger]
        is_extended(node, before, seq![added]) && is_endpoint_node(added, ""@, method, handler)
}

impl RouteNode {
    /// An endpoint node for a handler.
    pub fn new_endpoint(
        path: &str,
        method: MethodFilter,
        endpoint: u64,
        openapi: Option<RouteHandlerDoc>,
        requirements: Vec<Requirement>,
    ) -> (r: Self)
        ensures
            r.path@ == path@,
            r.node_type matches RouteNodeType::Endpoint {
                endpoint: endpoint2,
                method: method2,
                openapi: openapi2,
                requirements: requirements2,
                middleware,
            } && endpoint2 == endpoint && method2 == method && openapi2 == openapi && requirements2
                == requirements && middleware@.len() == 0,
            mountable_node(r),
    {
        RouteNode {
            path: copy_text(path),
            node_type: RouteNodeType::Endpoint {
                endpoint,
                method,
                openapi,
                requirements,
                middleware: Vec::new(),
            },
        }
    }

    /// A nested route mounted under `path`.
    pub fn new_route(path: &str, route: Route) -> (r: Self)
        requires
            route.can_mount(),
        ensures
            r.path@ == path@,
            r.node_type matches RouteNodeType::Route(inner) && wrapped_nodes(
                route.nodes@,
                stack(route.layers@),
                inner.nodes@,
            ) && inner.layers@.len() == 0 && inner.fallback is None
                && inner.method_not_allowed is None,
            mountable_node(r),
    {
        let inner = Route::new(route);
        proof {
            reveal_with_fuel(mountable_node, 2);
        }
        RouteNode { path: copy_text(path), node_type: RouteNodeType::Route(inner) }
    }

    /// A node mounting an already-built router under `path`.
    pub fn new_nested(path: &str, router: Router) -> (r: Self)
        ensures
            is_mount_node(r, path@, router),
            mountable_node(r),
    {
        RouteNode {
            path: copy_text(path),
            node_type: RouteNodeType::Nested { router, middleware: Vec::new() },
        }
    }

    /// Attach middleware to just this node's endpoints.
    pub fn with(self, layer: Layer) -> (r: Self)
        ensures
            wrapped_node(self, seq![layer@], r),
            mountable_node(self) ==> mountable_node(r),
    {
        let mut nodes: Vec<RouteNode> = Vec::new();
        nodes.push(self);
        let mut one: Vec<Layer> = Vec::new();
        one.push(layer);
        assert(stack(one@) =~= seq![layer@]);
        let ghost before = nodes@;
        assert(mountable_node(self) ==> mountable(before));
        let mut wrapped = wrap_nodes(nodes, &one);
        assert(wrapped_node(before[0], seq![layer@], wrapped@[0]));
        assert(mountable_node(self) ==> mountable_node(wrapped@[0]));
        wrapped.remove(0)
    }

    /// Add nodes at this node's path.
    fn extend_with_nodes(self, added: Vec<RouteNode>) -> (r: Self)
        requires
            mountable_node(self),
            mountable(added@),
        ensures
            is_extended(r, self, added@),
            mountable_node(r),
    {
        proof {
            reveal_with_fuel(mountable_node, 2);
        }
        let RouteNode { path, node_type } = self;
        let mut nodes = match node_type {
            RouteNodeType::Route(route) => route.into_mounted_nodes(),
            terminal => {
                let mut nodes: Vec<RouteNode> = Vec::new();
                nodes.push(RouteNode { path: String::new(), node_type: terminal });
                nodes
            },
        };
        let ghost base = nodes@;
        assert(mountable(base));
        let mut added = added;
        let ghost more = added@;
        nodes.append(&mut added);
        proof {
            assert forall|i: int| 0 <= i < nodes@.len() implies mountable_node(
                #[trigger] nodes@[i],
            ) by {
                if i < base.len() {
                    assert(nodes@[i] == base[i]);
                } else {
                    assert(nodes@[i] == more[i - base.len()]);
                }
            }
            assert(nodes@.skip(base.len() as int) =~= more);
            assert(nodes@.take(base.len() as int) =~= base);
        }
        RouteNode {
            path,
            node_type: RouteNodeType::Route(
                Route {
                    nodes,
                    layers: Vec::new(),
                    fallback: None,
                    method_not_allowed: None,
                },
            ),
        }
    }

    /// Attach a handler for an HTTP method at the current path.
    pub fn on(self, method: &str, handler: Handler) -> (r: Self)
        requires
            mountable_node(self),
        ensures
            gains_handler(r, self, Some(method@), handler),
            mountable_node(r),
    {
        let node = endpoint_node_from_handler(
            "",
            MethodFilter::Exact(copy_text(method)),
            handler,
        );
        let mut added: Vec<RouteNode> = Vec::new();
        added.push(node);
        assert(added@ =~= seq![node]);
        self.extend_with_nodes(added)
    }

    /// Attach a handler that answers every method reaching this path.
    pub fn any(self, handler: Handler) -> (r: Self)
        requires
            mountable_node(self),
        ensures
            gains_handler(r, self, None, handler),
            mountable_node(r),
    {
        let node = endpoint_node_from_handler("", MethodFilter::Any, handler);
        let mut added: Vec<RouteNode> = Vec::new();
        added.push(node);
        assert(added@ =~= seq![node]);
        self.extend_with_nodes(added)
    }

    /// Attach a GET handler to the current path.
    pub fn at(self, handler: Handler) -> (r: Self)
        requires
            mountable_node(self),
        ensures
            gains_handler(r, self, Some("GET"@), handler),
            mountable_node(r),
    {
        self.on("GET", handler)
    }

    /// Alias for [`RouteNode::at`].
    pub fn get(self, handler: Handler) -> (r: Self)
        requires
            mountable_node(self),
        ensures
            gains_handler(r, self, Some("GET"@), handler),
            mountable_node(r),
    {
        self.on("GET", handler)
    }

    /// Attach a POST handler to the current path.
    pub fn post(self, handler: Handler) -> (r: Self)
        requires
            mountable_node(self),
        ensures
            gains_handler(r, self, Some("POST"@), handler),
            mountable_node(r),
    {
        self.on("POST", handler)
    }

    /// Attach a PATCH handler to the current path.
    pub fn patch(self, handler: Handler) -> (r: Self)
        requires
            mountable_node(self),
        ensures
            gains_handler(r, self, Some("PATCH"@), handler),
            mountable_node(r),
    {
        self.on("PATCH", handler)
    }

    /// Attach a PUT handler to the current path.
    pub fn put(self, handler: Handler) -> (r: Self)
        requires
            mountable_node(self),
        ensures
            gains_handler(r, self, Some("PUT"@), handler),
            mountable_node(r),
    {
        self.on("PUT", handler)
    }

    /// Attach a DELETE handler to the current path.
    pub fn delete(self, handler: Handler) -> (r: Self)
        requires
            mountable_node(self),
        ensures
            gains_handler(r, self, Some("DELETE"@), handler),
            mountable_node(r),
    {
        self.on("DELETE", handler)
    }

    /// Attach a HEAD handler to the current path.
    pub fn head(self, handler: Handler) -> (r: Self)
        requires
            mountable_node(self),
        ensures
            gains_handler(r, self, Some("HEAD"@), handler),
            mountable_node(r),
    {
        self.on("HEAD", handler)
    }

    /// Attach an OPTIONS handler to the current path.
    pub fn options(self, handler: Handler) -> (r: Self)
        requires
            mountable_node(self),
        ensures
            gains_handler(r, self, Some("OPTIONS"@), handler),
            mountable_node(r),
    {
        self.on("OPTIONS", handler)
    }

    /// Attach a TRACE handler to the current path.
    pub fn trace(self, handler: Handler) -> (r: Self)
        requires
            mountable_node(self),
        ensures
            gains_handler(r, self, Some("TRACE"@), handler),
            mountable_node(r),
    {
        self.on("TRACE", handler)
    }

    /// Attach a handler that upgrades to a WebSocket at the current path.
    pub fn ws(self, handler: Handler) -> (r: Self)
        requires
            mountable_node(self),
        ensures
            gains_handler(r, self, Some("GET"@), handler),
            mountable_node(r),
    {
        self.on("GET", handler)
    }

    /// Attach additional child routes under the current path.
    pub fn route<R: Routes>(self, routes: R) -> (r: Self)
        requires
            mountable_node(self),
            routes.can_mount(),
        ensures
            exists|nodes: Seq<RouteNode>|
                #[trigger] is_extended(r, self, nodes) && routes.stands_for(nodes),
            mountable_node(r),
    {
        let added = routes.into_route_nodes();
        self.extend_with_nodes(added)
    }

    /// Mount an already-built router under the current path.
    pub fn nest(self, router: Router) -> (r: Self)
        requires
            mountable_node(self),
        ensures
            exists|node: RouteNode|
                #[trigger] is_extended(r, self, seq![node]) && is_mount_node(node, ""@, router),
            mountable_node(r),
    {
        let node = RouteNode::new_nested("", router);
        let mut added: Vec<RouteNode> = Vec::new();
        added.push(node);
        assert(added@ =~= seq![node]);
        self.extend_with_nodes(added)
    }
}

/// A handler's endpoint node.
fn endpoint_node_from_handler(path: &str, method: MethodFilter, handler: Handler) -> (r: RouteNode)
    ensures
        is_endpoint_node(
            r,
            path@,
            match method {
                MethodFilter::Exact(exact) => Some(exact@),
                MethodFilter::Any => None,
            },
            handler,
        ),
        mountable_node(r),
{
    RouteNode::new_endpoint(
        path,
        method,
        handler.endpoint,
        Some(handler.doc),
        handler.requirements,
    )
}

/// Turns a path into routing nodes.
pub trait CreateRouteNode: Sized {
    /// The path segment.
    spec fn segment(&self) -> Seq<char>;

    /// The path segment as a string.
    fn into_segment(self) -> (r: String)
        ensures
            r@ == self.segment(),
    ;

    /// Attach a handler for an arbitrary HTTP method, keeping its OpenAPI metadata.
    fn on(self, method: &str, handler: Handler) -> (r: RouteNode)
        ensures
            is_endpoint_node(r, self.segment(), Some(method@), handler),
            mountable_node(r),
    {
        let path = self.into_segment();
        endpoint_node_from_handler(path.as_str(), MethodFilter::Exact(copy_text(method)), handler)
    }

    /// Attach a GET handler to the path.
    fn at(self, handler: Handler) -> (r: RouteNode)
        ensures
            is_endpoint_node(r, self.segment(), Some("GET"@), handler),
            mountable_node(r),
    {
        self.on("GET", handler)
    }

    /// Alias for [`CreateRouteNode::at`].
    fn get(self, handler: Handler) -> (r: RouteNode)
        ensures
            is_endpoint_node(r, self.segment(), Some("GET"@), handler),
            mountable_node(r),
    {
        self.on("GET", handler)
    }

    /// Attach a POST handler to the path.
    fn post(self, handler: Handler) -> (r: RouteNode)
        ensures
            is_endpoint_node(r, self.segment(), Some("POST"@), handler),
            mountable_node(r),
    {
        self.on("POST", handler)
    }

    /// Attach a PATCH handler to the path.
    fn patch(self, handler: Handler) -> (r: RouteNode)
        ensures
            is_endpoint_node(r, self.segment(), Some("PATCH"@), handler),
            mountable_node(r),
    {
        self.on("PATCH", handler)
    }

    /// Attach a PUT handler to the path.
    fn put(self, handler: Handler) -> (r: RouteNode)
        ensures
            is_endpoint_node(r, self.segment(), Some("PUT"@), handler),
            mountable_node(r),
    {
        self.on("PUT", handler)
    }

    /// Attach a DELETE handler to the path.
    fn delete(self, handler: Handler) -> (r: RouteNode)
        ensures
            is_endpoint_node(r, self.segment(), Some("DELETE"@), handler),
            mountable_node(r),
    {
        self.on("DELETE", handler)
    }

    /// Attach a HEAD handler to the path.
    fn head(self, handler: Handler) -> (r: RouteNode)
        ensures
            is_endpoint_node(r, self.segment(), Some("HEAD"@), handler),
            mountable_node(r),
    {
        self.on("HEAD", handler)
    }

    /// Attach an OPTIONS handler to the path.
    fn options(self, handler: Handler) -> (r: RouteNode)
        ensures
            is_endpoint_node(r, self.segment(), Some("OPTIONS"@), handler),
            mountable_node(r),
    {
        self.on("OPTIONS", handler)
    }

    /// Attach a TRACE handler to the path.
    fn trace(self, handler: Handler) -> (r: RouteNode)
        ensures
            is_endpoint_node(r, self.segment(), Some("TRACE"@), handler),
            mountable_node(r),
    {
        self.on("TRACE", handler)
    }

    /// Attach a handler that upgrades to a WebSocket to the path.
    fn ws(self, handler: Handler) -> (r: RouteNode)
        ensures
            is_endpoint_node(r, self.segment(), Some("GET"@), handler),
            mountable_node(r),
    {
        self.on("GET", handler)
    }

    /// Attach a handler that answers every method reaching this path.
    fn any(self, handler: Handler) -> (r: RouteNode)
        ensures
            is_endpoint_node(r, self.segment(), None, handler),
            mountable_node(r),
    {
        let path = self.into_segment();
        endpoint_node_from_handler(path.as_str(), MethodFilter::Any, handler)
    }

    /// Mount nested routes under the current path segment.
    fn route<R: Routes>(self, routes: R) -> (r: RouteNode)
        requires
            routes.can_mount(),
        ensures
            r.path@ == self.segment(),
            r.node_type matches RouteNodeType::Route(route) && routes.stands_for(route.nodes@)
                && route.layers@.len() == 0,
            mountable_node(r),
    {
        let path = self.into_segment();
        let route = Route::new(routes);
        proof {
            reveal_with_fuel(mountable_node, 2);
        }
        RouteNode { path, node_type: RouteNodeType::Route(route) }
    }

    /// Mount an already-built router under the current path segment. It sees paths with the
    /// prefix removed, and keeps its own 404 and 405.
    fn nest(self, router: Router) -> (r: RouteNode)
        ensures
            is_mount_node(r, self.segment(), router),
            mountable_node(r),
    {
        let path = self.into_segment();
        RouteNode::new_nested(path.as_str(), router)
    }
}

impl<'a> CreateRouteNode for &'a str {
    open spec fn segment(&self) -> Seq<char> {
        self@
    }

    fn into_segment(self) -> (r: String) {
        copy_text(self)
    }
}

impl CreateRouteNode for String {
    open spec fn segment(&self) -> Seq<char> {
        self@
    }

    fn into_segment(self) -> (r: String) {
        self
    }
}

/// The node that an address leads to: a position among the nodes, then among those of the group that
/// stands there, and so on.
pub open spec fn node_at(nodes: Seq<RouteNode>, address: Seq<int>) -> Option<RouteNode>
    decreases address.len(),
{
    if address.len() == 0 || !(0 <= address[0] < nodes.len()) {
        None
    } else if address.len() == 1 {
        Some(nodes[address[0]])
    } else {
        match nodes[address[0]].node_type {
            RouteNodeType::Route(route) => node_at(route.nodes@, address.drop_first()),
            _ => None,
        }
    }
}

/// The paths of the nodes on the way to an address, one behind the other.
pub open spec fn way_to(nodes: Seq<RouteNode>, address: Seq<int>) -> Seq<char>
    decreases address.len(),
{
    if address.len() == 0 || !(0 <= address[0] < nodes.len()) {
        Seq::empty()
    } else if address.len() == 1 {
        nodes[address[0]].path@
    } else {
        match nodes[address[0]].node_type {
            RouteNodeType::Route(route) => nodes[address[0]].path@ + way_to(
                route.nodes@,
                address.drop_first(),
            ),
            _ => Seq::empty(),
        }
    }
}

/// Whether an endpoint is what a node at the end of a way stands for: its handler under the way's
/// path, or the mount point of its router there or below.
pub open spec fn registers(
    flat: FlatView,
    mounted: Seq<Router>,
    node: RouteNode,
    way: Seq<char>,
) -> bool {
    match node.node_type {
        RouteNodeType::Endpoint { endpoint, method, openapi, requirements, middleware } => {
            &&& flat.path == collapse(way)
            &&& flat.method == method
            &&& flat.target == TargetView::Endpoint(endpoint)
            &&& flat.middleware == stack(middleware@)
            &&& flat.requirements == requirements@
        },
        RouteNodeType::Nested { router, middleware } => {
            &&& flat.path == collapse(way) || flat.path == collapse(way + "/{*skyzen_nested}"@)
            &&& flat.method is Any
            &&& flat.middleware == stack(middleware@)
            &&& flat.requirements.len() == 0
            &&& flat.target matches TargetView::Mounted { prefix, router: index } && prefix
                == collapse(way) && 0 <= index < mounted.len() && mounted[index] == router
        },
        RouteNodeType::Route(_) => false,
    }
}

/// Whether flattened routes start with others.
spec fn continues(sofar: FlatRoutesView, flat: FlatRoutesView) -> bool {
    &&& sofar.flats.len() <= flat.flats.len()
    &&& sofar.mounted.len() <= flat.mounted.len()
    &&& forall|k: int| 0 <= k < sofar.flats.len() ==> #[trigger] flat.flats[k] == sofar.flats[k]
    &&& forall|k: int|
        0 <= k < sofar.mounted.len() ==> #[trigger] flat.mounted[k] == sofar.mounted[k]
}

proof fn lemma_node_continues(prefix: Seq<char>, node: RouteNode, sofar: FlatRoutesView)
    ensures
        flat_node(prefix, node, sofar) matches Ok(next) ==> continues(sofar, next),
    decreases node, 0int,
{
    reveal_with_fuel(flat_node, 2);
    match node.node_type {
        RouteNodeType::Route(route) => {
            lemma_nodes_continue(joined(prefix, node.path@), route.nodes@, 0, sofar);
        },
        _ => {},
    }
}

proof fn lemma_nodes_continue(
    prefix: Seq<char>,
    nodes: Seq<RouteNode>,
    from: int,
    sofar: FlatRoutesView,
)
    ensures
        flat_nodes(prefix, nodes, from, sofar) matches Ok(next) ==> continues(sofar, next),
    decreases nodes, nodes.len() - from,
{
    reveal_with_fuel(flat_nodes, 2);
    if 0 <= from < nodes.len() {
        lemma_node_continues(prefix, nodes[from], sofar);
        match flat_node(prefix, nodes[from], sofar) {
            Ok(next) => {
                lemma_nodes_continue(prefix, nodes, from + 1, next);
            },
            Err(_) => {},
        }
    }
}

proof fn lemma_registered_later(
    flat: FlatView,
    mounted: Seq<Router>,
    later: Seq<Router>,
    node: RouteNode,
    way: Seq<char>,
)
    requires
        registers(flat, mounted, node, way),
        mounted.len() <= later.len(),
        forall|k: int| 0 <= k < mounted.len() ==> #[trigger] later[k] == mounted[k],
    ensures
        registers(flat, later, node, way),
{
}

/// Where an endpoint with a path stands among flattened routes.
spec fn stands_at(
    flat: FlatRoutesView,
    from: int,
    k: int,
    path: Seq<char>,
    node: RouteNode,
    way: Seq<char>,
) -> bool {
    from <= k < flat.flats.len() && flat.flats[k].path == path && registers(
        flat.flats[k],
        flat.mounted,
        node,
        way,
    )
}

proof fn lemma_every_node_is_registered(
    prefix: Seq<char>,
    nodes: Seq<RouteNode>,
    from: int,
    sofar: FlatRoutesView,
    address: Seq<int>,
)
    requires
        0 <= from,
        address.len() > 0,
        from <= address[0],
        flat_nodes(prefix, nodes, from, sofar) is Ok,
        node_at(nodes, address) is Some,
        !(node_at(nodes, address)->0.node_type is Route),
    ensures
        ({
            let flat = flat_nodes(prefix, nodes, from, sofar)->Ok_0;
            let node = node_at(nodes, address)->0;
            let way = prefix + way_to(nodes, address);
            &&& exists|k: int| #[trigger]
                stands_at(flat, sofar.flats.len() as int, k, collapse(way), node, way)
            &&& node.node_type is Nested ==> exists|k: int| #[trigger]
                stands_at(
                    flat,
                    sofar.flats.len() as int,
                    k,
                    collapse(way + "/{*skyzen_nested}"@),
                    node,
                    way,
                )
        }),
    decreases nodes, nodes.len() - from,
{
    reveal_with_fuel(flat_nodes, 2);
    reveal_with_fuel(flat_node, 2);
    reveal_with_fuel(node_at, 2);
    reveal_with_fuel(way_to, 2);
    let here = nodes[from];
    let next = flat_node(prefix, here, sofar)->Ok_0;
    let flat = flat_nodes(prefix, nodes, from, sofar)->Ok_0;
    let node = node_at(nodes, address)->0;
    let way = prefix + way_to(nodes, address);
    let below = "/{*skyzen_nested}"@;
    lemma_node_continues(prefix, here, sofar);
    lemma_nodes_continue(prefix, nodes, from + 1, next);
    if address[0] > from {
        lemma_every_node_is_registered(prefix, nodes, from + 1, next, address);
        let start = next.flats.len() as int;
        let k = choose|k: int| #[trigger] stands_at(flat, start, k, collapse(way), node, way);
        assert(stands_at(flat, sofar.flats.len() as int, k, collapse(way), node, way));
        if node.node_type is Nested {
            let k = choose|k: int| #[trigger]
                stands_at(flat, start, k, collapse(way + below), node, way);
            assert(stands_at(flat, sofar.flats.len() as int, k, collapse(way + below), node, way));
        }
    } else if address.len() == 1 {
        let k = sofar.flats.len() as int;
        lemma_collapse_behind(prefix + here.path@, below);
        assert(next.flats[k].path == collapse(way));
        assert(registers(next.flats[k], next.mounted, node, way));
        lemma_registered_later(next.flats[k], next.mounted, flat.mounted, node, way);
        assert(flat.flats[k] == next.flats[k]);
        assert(stands_at(flat, k, k, collapse(way), node, way));
        if node.node_type is Nested {
            assert(registers(next.flats[k + 1], next.mounted, node, way));
            lemma_registered_later(next.flats[k + 1], next.mounted, flat.mounted, node, way);
            assert(flat.flats[k + 1] == next.flats[k + 1]);
            assert(stands_at(flat, k, k + 1, collapse(way + below), node, way));
        }
    } else {
        match here.node_type {
            RouteNodeType::Route(route) => {
                let inner = joined(prefix, here.path@);
                let rest = address.drop_first();
                let tail = way_to(route.nodes@, rest);
                let start = sofar.flats.len() as int;
                lemma_every_node_is_registered(inner, route.nodes@, 0, sofar, rest);
                assert(way =~= prefix + here.path@ + tail);
                lemma_collapse_behind(prefix + here.path@, tail);
                lemma_collapse_behind(prefix + here.path@, tail + below);
                assert(inner + tail + below =~= inner + (tail + below));
                assert(way + below =~= prefix + here.path@ + (tail + below));
                let k = choose|k: int| #[trigger]
                    stands_at(next, start, k, collapse(inner + tail), node, inner + tail);
                assert(registers(next.flats[k], next.mounted, node, way));
                lemma_registered_later(next.flats[k], next.mounted, flat.mounted, node, way);
                assert(flat.flats[k] == next.flats[k]);
                assert(stands_at(flat, start, k, collapse(way), node, way));
                if node.node_type is Nested {
                    let k = choose|k: int| #[trigger]
                        stands_at(
                            next,
                            start,
                            k,
                            collapse(inner + tail + below),
                            node,
                            inner + tail,
                        );
                    assert(registers(next.flats[k], next.mounted, node, way));
                    lemma_registered_later(next.flats[k], next.mounted, flat.mounted, node, way);
                    assert(flat.flats[k] == next.flats[k]);
                    assert(stands_at(flat, start, k, collapse(way + below), node, way));
                }
            },
            _ => {},
        }
    }
}

/// Every handler in a tree is registered under the paths that lead to it, one behind the other, with
/// its own method, middleware and requirements; every router mounted in it is reached at its path
/// and below.
pub proof fn every_node_of_a_tree_is_registered(route: Route, address: Seq<int>)
    requires
        flattened(route) is Ok,
        node_at(route.nodes@, address) is Some,
        !(node_at(route.nodes@, address)->0.node_type is Route),
    ensures
        ({
            let flat = flattened(route)->Ok_0;
            let node = node_at(route.nodes@, address)->0;
            let way = way_to(route.nodes@, address);
            &&& exists|k: int|
                0 <= k < flat.flats.len() && (#[trigger] flat.flats[k]).path == collapse(way)
                    && registers(flat.flats[k], flat.mounted, node, way)
            &&& node.node_type is Nested ==> exists|k: int|
                0 <= k < flat.flats.len() && (#[trigger] flat.flats[k]).path == collapse(
                    way + "/{*skyzen_nested}"@,
                ) && registers(flat.flats[k], flat.mounted, node, way)
        }),
{
    reveal_strlit("");
    let flat = flattened(route)->Ok_0;
    let node = node_at(route.nodes@, address)->0;
    let way = way_to(route.nodes@, address);
    let below = "/{*skyzen_nested}"@;
    lemma_every_node_is_registered(""@, route.nodes@, 0, no_routes(), address);
    assert(""@ + way =~= way);
    let k = choose|k: int| #[trigger] stands_at(flat, 0, k, collapse(way), node, way);
    assert(flat.flats[k].path == collapse(way));
    if node.node_type is Nested {
        let k = choose|k: int| #[trigger] stands_at(flat, 0, k, collapse(way + below), node, way);
        assert(flat.flats[k].path == collapse(way + below));
    }
}

proof fn lemma_every_endpoint_has_a_node(
    prefix: Seq<char>,
    nodes: Seq<RouteNode>,
    from: int,
    sofar: FlatRoutesView,
    k: int,
) -> (address: Seq<int>)
    requires
        0 <= from,
        flat_nodes(prefix, nodes, from, sofar) is Ok,
        sofar.flats.len() <= k < flat_nodes(prefix, nodes, from, sofar)->Ok_0.flats.len(),
    ensures
        address.len() > 0,
        from <= address[0],
        node_at(nodes, address) is Some,
        registers(
            flat_nodes(prefix, nodes, from, sofar)->Ok_0.flats[k],
            flat_nodes(prefix, nodes, from, sofar)->Ok_0.mounted,
            node_at(nodes, address)->0,
            prefix + way_to(nodes, address),
        ),
    decreases nodes, nodes.len() - from,
{
    reveal_with_fuel(flat_nodes, 2);
    reveal_with_fuel(flat_node, 2);
    reveal_with_fuel(node_at, 2);
    reveal_with_fuel(way_to, 2);
    let here = nodes[from];
    let next = flat_node(prefix, here, sofar)->Ok_0;
    let flat = flat_nodes(prefix, nodes, from, sofar)->Ok_0;
    lemma_node_continues(prefix, here, sofar);
    lemma_nodes_continue(prefix, nodes, from + 1, next);
    if k >= next.flats.len() {
        lemma_every_endpoint_has_a_node(prefix, nodes, from + 1, next, k)
    } else {
        assert(flat.flats[k] == next.flats[k]);
        match here.node_type {
            RouteNodeType::Route(route) => {
                let inner = joined(prefix, here.path@);
                let below = "/{*skyzen_nested}"@;
                let rest = lemma_every_endpoint_has_a_node(inner, route.nodes@, 0, sofar, k);
                let tail = way_to(route.nodes@, rest);
                let node = node_at(route.nodes@, rest)->0;
                let address = seq![from] + rest;
                assert(address.drop_first() =~= rest);
                assert(prefix + way_to(nodes, address) =~= prefix + here.path@ + tail);
                lemma_collapse_behind(prefix + here.path@, tail);
                lemma_collapse_behind(prefix + here.path@, tail + below);
                assert(inner + tail + below =~= inner + (tail + below));
                assert(prefix + here.path@ + tail + below =~= prefix + here.path@ + (tail + below));
                lemma_registered_later(
                    next.flats[k],
                    next.mounted,
                    flat.mounted,
                    node,
                    inner + tail,
                );
                address
            },
            _ => {
                let address = seq![from];
                lemma_collapse_behind(prefix + here.path@, "/{*skyzen_nested}"@);
                assert(registers(next.flats[k], next.mounted, here, prefix + here.path@));
                lemma_registered_later(
                    next.flats[k],
                    next.mounted,
                    flat.mounted,
                    here,
                    prefix + here.path@,
                );
                address
            },
        }
    }
}

/// Nothing is registered that does not stand in the tree.
pub proof fn every_endpoint_stands_in_the_tree(route: Route, k: int)
    requires
        flattened(route) is Ok,
        0 <= k < flattened(route)->Ok_0.flats.len(),
    ensures
        exists|address: Seq<int>|
            #[trigger] node_at(route.nodes@, address) is Some && registers(
                flattened(route)->Ok_0.flats[k],
                flattened(route)->Ok_0.mounted,
                node_at(route.nodes@, address)->0,
                way_to(route.nodes@, address),
            ),
{
    reveal_strlit("");
    let address = lemma_every_endpoint_has_a_node(""@, route.nodes@, 0, no_routes(), k);
    assert(""@ + way_to(route.nodes@, address) =~= way_to(route.nodes@, address));
    assert(node_at(route.nodes@, address) is Some);
}

/// Whether a node at the end of a way can be registered: its path starts with a slash, and a mounted
/// router's has no parameters.
pub open spec fn can_be_registered(node: RouteNode, way: Seq<char>) -> bool {
    match node.node_type {
        RouteNodeType::Route(_) => true,
        RouteNodeType::Endpoint { .. } => way.len() > 0 && way[0] == '/',
        RouteNodeType::Nested { .. } => way.len() > 0 && way[0] == '/' && !collapse(way).contains('{'),
    }
}

proof fn lemma_registered_is_usable(
    prefix: Seq<char>,
    nodes: Seq<RouteNode>,
    from: int,
    sofar: FlatRoutesView,
    address: Seq<int>,
)
    requires
        0 <= from,
        address.len() > 0,
        from <= address[0],
        flat_nodes(prefix, nodes, from, sofar) is Ok,
        node_at(nodes, address) is Some,
    ensures
        can_be_registered(node_at(nodes, address)->0, prefix + way_to(nodes, address)),
    decreases nodes, nodes.len() - from,
{
    reveal_with_fuel(flat_nodes, 2);
    reveal_with_fuel(flat_node, 2);
    reveal_with_fuel(node_at, 2);
    reveal_with_fuel(way_to, 2);
    let here = nodes[from];
    if address[0] > from {
        let next = flat_node(prefix, here, sofar)->Ok_0;
        lemma_registered_is_usable(prefix, nodes, from + 1, next, address);
    } else if address.len() == 1 {
        collapse_keeps_the_last_character(prefix + here.path@);
    } else {
        match here.node_type {
            RouteNodeType::Route(route) => {
                let inner = joined(prefix, here.path@);
                let tail = way_to(route.nodes@, address.drop_first());
                lemma_registered_is_usable(inner, route.nodes@, 0, sofar, address.drop_first());
                assert(prefix + way_to(nodes, address) =~= prefix + here.path@ + tail);
                lemma_collapse_behind(prefix + here.path@, tail);
                collapse_keeps_the_last_character(prefix + here.path@ + tail);
                collapse_keeps_the_last_character(inner + tail);
            },
            _ => {},
        }
    }
}

proof fn lemma_a_refused_tree_has_an_unusable_node(
    prefix: Seq<char>,
    nodes: Seq<RouteNode>,
    from: int,
    sofar: FlatRoutesView,
) -> (address: Seq<int>)
    requires
        0 <= from,
        flat_nodes(prefix, nodes, from, sofar) is Err,
    ensures
        address.len() > 0,
        from <= address[0],
        node_at(nodes, address) is Some,
        !can_be_registered(node_at(nodes, address)->0, prefix + way_to(nodes, address)),
        ({
            let path = collapse(prefix + way_to(nodes, address));
            let error = flat_nodes(prefix, nodes, from, sofar)->Err_0;
            if path.len() > 0 && path[0] == '/' {
                error == (BuildErrorView::NestedPatternPrefix { path })
            } else {
                error == (BuildErrorView::InvalidPath { path })
            }
        }),
    decreases nodes, nodes.len() - from,
{
    reveal_with_fuel(flat_nodes, 2);
    reveal_with_fuel(flat_node, 2);
    reveal_with_fuel(node_at, 2);
    reveal_with_fuel(way_to, 2);
    let here = nodes[from];
    match flat_node(prefix, here, sofar) {
        Ok(next) => lemma_a_refused_tree_has_an_unusable_node(prefix, nodes, from + 1, next),
        Err(_) => match here.node_type {
            RouteNodeType::Route(route) => {
                let inner = joined(prefix, here.path@);
                let rest = lemma_a_refused_tree_has_an_unusable_node(inner, route.nodes@, 0, sofar);
                let tail = way_to(route.nodes@, rest);
                let address = seq![from] + rest;
                assert(address.drop_first() =~= rest);
                assert(prefix + way_to(nodes, address) =~= prefix + here.path@ + tail);
                lemma_collapse_behind(prefix + here.path@, tail);
                collapse_keeps_the_last_character(prefix + here.path@ + tail);
                collapse_keeps_the_last_character(inner + tail);
                address
            },
            _ => {
                collapse_keeps_the_last_character(prefix + here.path@);
                assert(prefix + way_to(nodes, seq![from]) =~= prefix + here.path@);
                seq![from]
            },
        },
    }
}

/// A tree is refused for its paths exactly where some handler's path, or that of a mounted router,
/// does not start with a slash, or a mounted router's has a parameter; the error names that path.
pub proof fn a_tree_is_refused_for_an_unusable_path(route: Route)
    ensures
        flattened(route) is Ok <==> (forall|address: Seq<int>|
            (#[trigger] node_at(route.nodes@, address)) is Some ==> can_be_registered(
                node_at(route.nodes@, address)->0,
                way_to(route.nodes@, address),
            )),
        flattened(route) matches Err(error) ==> exists|address: Seq<int>|
            {
                let path = collapse(way_to(route.nodes@, address));
                &&& #[trigger] node_at(route.nodes@, address) is Some
                &&& !can_be_registered(
                    node_at(route.nodes@, address)->0,
                    way_to(route.nodes@, address),
                )
                &&& error == if path.len() > 0 && path[0] == '/' {
                    BuildErrorView::NestedPatternPrefix { path }
                } else {
                    BuildErrorView::InvalidPath { path }
                }
            },
{
    reveal_strlit("");
    let nodes = route.nodes@;
    assert forall|address: Seq<int>| ""@ + #[trigger] way_to(nodes, address) == way_to(
        nodes,
        address,
    ) by {
        assert(""@ + way_to(nodes, address) =~= way_to(nodes, address));
    }
    match flattened(route) {
        Ok(_) => {
            assert forall|address: Seq<int>| (#[trigger] node_at(nodes, address)) is Some implies
                can_be_registered(node_at(nodes, address)->0, way_to(nodes, address)) by {
                lemma_registered_is_usable(""@, nodes, 0, no_routes(), address);
                assert(""@ + way_to(nodes, address) == way_to(nodes, address));
            }
        },
        Err(error) => {
            let address = lemma_a_refused_tree_has_an_unusable_node(""@, nodes, 0, no_routes());
            assert(""@ + way_to(nodes, address) == way_to(nodes, address));
            assert(node_at(nodes, address) is Some);
        },
    }
}

/// A handler's node stands at its segment and answers its method, or any, with the handler; it has
/// the handler's documentation and needs what the handler needs.
pub proof fn a_handler_stands_at_its_segment(
    node: RouteNode,
    segment: Seq<char>,
    method: Seq<char>,
    handler: Handler,
)
    ensures
        is_endpoint_node(node, segment, Some(method), handler) || is_endpoint_node(
            node,
            segment,
            None,
            handler,
        ) ==> {
            &&& node.path@ == segment
            &&& node.node_type is Endpoint
            &&& node.node_type->endpoint == handler.endpoint
            &&& node.node_type->openapi == Some(handler.doc)
            &&& node.node_type->requirements == handler.requirements
            &&& node.node_type->Endpoint_middleware@.len() == 0
        },
        is_endpoint_node(node, segment, Some(method), handler) ==> node.node_type->method is Exact
            && node.node_type->method->Exact_0@ == method,
        is_endpoint_node(node, segment, None, handler) ==> node.node_type->method is Any,
{
}

/// A mounted router stands at its segment, with nothing around it.
pub proof fn a_mounted_router_stands_at_its_segment(
    node: RouteNode,
    segment: Seq<char>,
    router: Router,
)
    requires
        is_mount_node(node, segment, router),
    ensures
        node.path@ == segment,
        node.node_type is Nested,
        node.node_type->router == router,
        node.node_type->Nested_middleware@.len() == 0,
{
}

/// A node that gains a handler stays where it is and keeps what it had: the handler comes last, at
/// the same path, and an endpoint or a mounted router that was there comes first, as it was.
pub proof fn a_node_keeps_what_it_had(
    node: RouteNode,
    before: RouteNode,
    method: Option<Seq<char>>,
    handler: Handler,
)
    requires
        gains_handler(node, before, method, handler),
    ensures
        node.path == before.path,
        node.node_type is Route,
        ({
            let nodes = node.node_type->Route_0.nodes@;
            &&& nodes.len() > 0
            &&& is_endpoint_node(nodes.last(), ""@, method, handler)
            &&& !(before.node_type is Route) ==> nodes.len() == 2 && nodes[0].path@.len() == 0
                && nodes[0].node_type == before.node_type
            &&& before.node_type is Route ==> nodes.len()
                == before.node_type->Route_0.nodes@.len() + 1 && forall|i: int|
                0 <= i < nodes.len() - 1 ==> #[trigger] nodes[i].path
                    == before.node_type->Route_0.nodes@[i].path
        }),
        node.node_type->Route_0.layers@.len() == 0,
        node.node_type->Route_0.fallback is None,
        node.node_type->Route_0.method_not_allowed is None,
{
    let added = choose|added: RouteNode| #[trigger]
        is_extended(node, before, seq![added]) && is_endpoint_node(added, ""@, method, handler);
    let nodes = node.node_type->Route_0.nodes@;
    assert(nodes.skip(nodes.len() - 1)[0] == added);
    let kept = nodes.take(nodes.len() - 1);
    if before.node_type is Route {
        let had = before.node_type->Route_0.nodes@;
        assert forall|i: int| 0 <= i < nodes.len() - 1 implies #[trigger] nodes[i].path
            == had[i].path by {
            assert(kept[i] == nodes[i]);
            assert(wrapped_node(had[i], stack(before.node_type->Route_0.layers@), kept[i]));
        }
    } else {
        assert(kept[0] == nodes[0]);
    }
}

} // verus!
