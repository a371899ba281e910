//! Routing: trees of routes, built routers and what they answer.

use skyzen::handler::error_response;
use skyzen::middleware::auth::{auth_requirement, AuthMiddleware};
use skyzen::openapi::document::{
    aggregate_parameter_schema, build_operation, build_parameters, build_request_body,
    build_responses, doc_summary, method_to_http_method, path_parameter_names, redoc, redoc_route,
    scalar, trim_crate, BodySchema, HttpMethod, OpenApiRedocDisabledError, OpenApiRedocEndpoint,
    ParameterIn,
};
use skyzen::openapi::entry::RouteHandlerDoc;
use skyzen::openapi::registry::{describe_handler, find_handler_spec, Components, HandlerSpec};
use skyzen::openapi::schema::{
    ExtractorSchema, ParameterLocation, ResponseSchema, SchemaRef, SchemaShape,
};
use skyzen::extract::path::Path;
use skyzen::openapi::builtins::Query;
use skyzen::routing::param::Params;
use skyzen::routing::path::{
    join_path, percent_decode, rewrite_target, strip_prefix, NestedPathError,
};
use skyzen::routing::router::{
    build, Dispatch, Layer, MethodFilter, NotFound, Requirement, Route, RouteBuildError, RouteNode,
    Router, Target,
};
use skyzen::routing::tree::{CreateRouteNode, Handler};

fn handler(endpoint: u64) -> Handler {
    Handler {
        endpoint,
        doc: RouteHandlerDoc {
            handler_type: format!("app::handler_{endpoint}"),
            spec: None,
        },
        requirements: vec![],
    }
}

fn documented(endpoint: u64, spec: usize) -> Handler {
    Handler {
        endpoint,
        doc: RouteHandlerDoc {
            handler_type: "app::documented".to_owned(),
            spec: Some(spec),
        },
        requirements: vec![],
    }
}

fn layer(id: u64) -> Layer {
    Layer {
        id,
        provisions: vec![],
    }
}

fn built(route: Route) -> Router {
    build(route).unwrap_or_else(|error| panic!("{}", error.message()))
}

fn refused(route: Route) -> RouteBuildError {
    match build(route) {
        Ok(_) => panic!("the route is valid"),
        Err(error) => error,
    }
}

fn nodes(list: Vec<RouteNode>) -> Route {
    Route::new(list)
}

// How a request was answered: by which handler, with what, and through which middleware.
#[derive(Debug, PartialEq)]
enum Answer {
    Endpoint(u64),
    NotAllowedHandler(u64, Vec<String>),
    NotAllowed(Option<String>),
    Fallback(u64),
    NotFound,
}

struct Seen {
    answer: Answer,
    params: Vec<(String, String)>,
    uri: String,
    layers: Vec<u64>,
    discard_body: bool,
}

fn ids(layers: &[Layer]) -> Vec<u64> {
    layers.iter().map(|layer| layer.id).collect()
}

fn pairs(params: &Params) -> Vec<(String, String)> {
    (0..params.len())
        .map(|index| {
            let (name, value) = params.pair(index);
            (name.to_owned(), value.to_owned())
        })
        .collect()
}

fn send(router: &Router, uri: &str, method: &str) -> Seen {
    let path = match uri.find('?') {
        Some(at) => &uri[..at],
        None => uri,
    };
    let mut seen = Seen {
        answer: Answer::NotFound,
        params: vec![],
        uri: uri.to_owned(),
        layers: ids(router.layers()),
        discard_body: false,
    };
    match router.dispatch(path, method) {
        Dispatch::Run {
            app,
            params,
            discard_body,
        } => {
            seen.layers.extend(ids(&app.middleware));
            match &app.target {
                Target::Endpoint(endpoint) => {
                    seen.answer = Answer::Endpoint(*endpoint);
                    seen.params = pairs(&params);
                    seen.discard_body = discard_body;
                }
                Target::Mounted {
                    prefix,
                    router: index,
                } => {
                    let inner = router.mounted(*index).expect("the mounted router");
                    let stripped = strip_prefix(uri, prefix).expect("the mount prefix");
                    let mut inside = send(inner, &stripped, method);
                    seen.layers.extend(inside.layers);
                    inside.layers = seen.layers;
                    return inside;
                }
            }
        }
        Dispatch::RunMethodNotAllowed(endpoint, allowed) => {
            seen.answer = Answer::NotAllowedHandler(endpoint, allowed.methods().clone());
        }
        Dispatch::AnswerMethodNotAllowed(allow) => seen.answer = Answer::NotAllowed(allow),
        Dispatch::RunFallback(endpoint) => seen.answer = Answer::Fallback(endpoint),
        Dispatch::AnswerNotFound => seen.answer = Answer::NotFound,
    }
    seen
}

fn get(router: &Router, uri: &str) -> Seen {
    send(router, uri, "GET")
}

fn param(seen: &Seen, name: &str) -> String {
    Params::new(seen.params.clone()).get(name).unwrap().to_owned()
}

fn listing(router: &Router) -> Vec<(String, String)> {
    router
        .routes()
        .iter()
        .map(|(method, path)| (method.text(), path.clone()))
        .collect()
}

fn pair(method: &str, path: &str) -> (String, String) {
    (method.to_owned(), path.to_owned())
}

#[test]
fn routes_requests_and_populates_params() {
    let router = built(nodes(vec!["/hello/{name}".at(handler(1))]));
    let seen = get(&router, "/hello/Ada");
    assert_eq!(seen.answer, Answer::Endpoint(1));
    assert_eq!(param(&seen, "name"), "Ada");
}

#[test]
fn returns_method_not_allowed_with_allow_header() {
    let router = built(nodes(vec![
        "/items".at(handler(1)),
        "/items".post(handler(2)),
    ]));
    match send(&router, "/items", "DELETE").answer {
        Answer::NotAllowed(Some(allow)) => {
            let methods: Vec<&str> = allow.split(", ").collect();
            assert!(methods.contains(&"GET"));
            assert!(methods.contains(&"POST"));
            assert!(methods.contains(&"HEAD"));
        }
        other => panic!("{other:?}"),
    }
}

#[test]
fn head_requests_fall_back_to_get_handler() {
    let router = built(nodes(vec!["/doc".at(handler(1))]));
    let seen = send(&router, "/doc", "HEAD");
    assert_eq!(seen.answer, Answer::Endpoint(1));
    assert!(seen.discard_body, "HEAD response body must be empty");
    assert!(!get(&router, "/doc").discard_body);
}

#[test]
fn an_upgrade_handler_answers_get_beside_other_methods() {
    let router = built(nodes(vec![
        "/live".ws(handler(1)).post(handler(2)),
        "/room".post(handler(3)).ws(handler(4)),
    ]));
    assert_eq!(get(&router, "/live").answer, Answer::Endpoint(1));
    assert_eq!(send(&router, "/live", "POST").answer, Answer::Endpoint(2));
    assert_eq!(get(&router, "/room").answer, Answer::Endpoint(4));
}

#[test]
fn matches_wildcard_routes() {
    let router = built(nodes(vec!["/files/{*path}".at(handler(1))]));
    let seen = get(&router, "/files/a/b/c.txt");
    assert_eq!(param(&seen, "path"), "a/b/c.txt");
}

#[test]
fn prefers_static_segments_over_params() {
    let router = built(nodes(vec![
        "/items/{id}".at(handler(1)),
        "/items/new".at(handler(2)),
    ]));
    assert_eq!(get(&router, "/items/new").answer, Answer::Endpoint(2));
    let by_id = get(&router, "/items/42");
    assert_eq!(by_id.answer, Answer::Endpoint(1));
    assert_eq!(param(&by_id, "id"), "42");
}

#[test]
fn treats_trailing_slash_as_distinct_route() {
    let router = built(nodes(vec!["/dir".at(handler(1)), "/dir/".at(handler(2))]));
    assert_eq!(get(&router, "/dir").answer, Answer::Endpoint(1));
    assert_eq!(get(&router, "/dir/").answer, Answer::Endpoint(2));
}

#[test]
fn populates_multiple_params() {
    let router = built(nodes(vec!["/users/{user}/posts/{post}".at(handler(1))]));
    let seen = get(&router, "/users/ada/posts/17");
    assert_eq!(param(&seen, "user"), "ada");
    assert_eq!(param(&seen, "post"), "17");
}

#[test]
fn percent_decodes_params() {
    let router = built(nodes(vec!["/hello/{name}".at(handler(1))]));
    let seen = get(&router, "/hello/John%20Doe");
    assert_eq!(param(&seen, "name"), "John Doe");
    let seen = get(&router, "/hello/50%25off");
    assert_eq!(param(&seen, "name"), "50%off");
}

#[test]
fn invalid_percent_sequences_are_kept() {
    assert_eq!(percent_decode("50%"), "50%");
    assert_eq!(percent_decode("50%zz"), "50%zz");
    assert_eq!(percent_decode("%ff"), "%ff");
    assert_eq!(percent_decode("%E2%98%83"), "\u{2603}");
}

#[test]
fn params_can_be_extracted_multiple_times() {
    let router = built(nodes(vec!["/hello/{name}".at(handler(1))]));
    let stored = Params::new(get(&router, "/hello/Ada").params);
    let first = Params::extract(Some(&stored));
    let second = Params::extract(Some(&stored));
    assert_eq!(first.get("name").unwrap(), "Ada");
    assert_eq!(second.get("name").unwrap(), "Ada");
}

#[test]
fn mounts_nested_routes_under_prefix() {
    let router = built(nodes(vec![
        "/api".route(vec!["/v1".route(vec!["/ping".at(handler(1))])]),
    ]));
    assert_eq!(get(&router, "/api/v1/ping").answer, Answer::Endpoint(1));
}

#[test]
fn a_node_mounts_a_whole_route() {
    let inner = nodes(vec!["/ping".at(handler(1)), "/pong".post(handler(2))]);
    let router = built(nodes(vec![RouteNode::new_route("/api", inner)]));
    assert_eq!(get(&router, "/api/ping").answer, Answer::Endpoint(1));
    assert_eq!(send(&router, "/api/pong", "POST").answer, Answer::Endpoint(2));
    assert_eq!(get(&router, "/ping").answer, Answer::NotFound);
}

#[test]
fn collapses_duplicate_separators_between_mount_and_child() {
    let router = built(nodes(vec!["/api/".route(vec!["/v1".at(handler(1))])]));
    assert_eq!(listing(&router), vec![pair("GET", "/api/v1")]);
    assert_eq!(get(&router, "/api/v1").answer, Answer::Endpoint(1));
    assert_eq!(join_path("/api/", "/v1"), "/api/v1");
}

#[test]
fn rejects_a_mount_prefix_without_a_leading_slash() {
    let error = refused(nodes(vec!["api".route(vec!["/v1".at(handler(1))])]));
    match &error {
        RouteBuildError::InvalidPath { path } => assert_eq!(path, "api/v1"),
        _ => panic!("expected an invalid-path error"),
    }
    assert!(error.message().contains("api/v1"));
}

#[test]
fn routes_lists_every_registration() {
    let router = built(nodes(vec![
        "/items".at(handler(1)).post(handler(2)),
        "/health".any(handler(3)),
    ]));
    assert_eq!(router.routes().len(), 3);
    assert!(matches!(router.routes()[0].0, MethodFilter::Any));
    assert_eq!(router.routes()[0].1, "/health");
    assert!(matches!(&router.routes()[1].0, MethodFilter::Exact(method) if method == "GET"));
    assert_eq!(router.routes()[1].1, "/items");
    assert!(matches!(&router.routes()[2].0, MethodFilter::Exact(method) if method == "POST"));
    assert_eq!(router.routes()[2].1, "/items");
}

#[test]
fn applies_route_middleware_to_endpoints() {
    let router = built(nodes(vec!["/ping".at(handler(1))]).middleware(layer(7)));
    assert_eq!(get(&router, "/ping").layers, vec![7]);
    let aliased = built(nodes(vec!["/ping".at(handler(1))]).with(layer(7)));
    assert_eq!(get(&aliased, "/ping").layers, vec![7]);
}

#[test]
fn node_middleware_covers_only_its_own_node() {
    let router = built(nodes(vec![
        "/marked".at(handler(1)).with(layer(7)),
        "/plain".at(handler(2)),
    ]));
    assert_eq!(get(&router, "/marked").layers, vec![7]);
    assert_eq!(get(&router, "/plain").layers, Vec::<u64>::new());
}

#[test]
fn later_middleware_wraps_earlier_middleware() {
    let router = built(
        nodes(vec!["/ping".at(handler(1)).with(layer(1))])
            .with(layer(2))
            .with(layer(3)),
    );
    assert_eq!(get(&router, "/ping").layers, vec![3, 2, 1]);
}

#[test]
fn layering_an_endpoint_applies_the_last_wrapper_outermost() {
    let router = built(nodes(vec!["/".at(handler(1))])).layer(layer(1)).layer(layer(2));
    assert_eq!(get(&router, "/").layers, vec![2, 1]);
}

#[test]
fn closure_middleware_shares_its_captured_state() {
    let router = built(nodes(vec!["/ping".at(handler(1))]).layer(layer(7)));
    assert_eq!(get(&router, "/ping").layers, vec![7]);
    let missing = get(&router, "/missing");
    assert_eq!(missing.answer, Answer::NotFound);
    assert_eq!(missing.layers, vec![7]);
}

#[test]
fn prevents_duplicate_methods() {
    let error = refused(nodes(vec!["/dup".at(handler(1)), "/dup".at(handler(2))]));
    assert!(matches!(
        error,
        RouteBuildError::RepeatedMethod { path, method } if path == "/dup" && method == "GET"
    ));
}

#[test]
fn prevents_duplicate_catch_all_handlers() {
    let error = refused(nodes(vec!["/dup".any(handler(1)), "/dup".any(handler(2))]));
    assert!(matches!(error, RouteBuildError::RepeatedAny { path } if path == "/dup"));
}

#[test]
fn conflicting_patterns_are_refused() {
    let error = refused(nodes(vec!["/a/{x}".at(handler(1)), "/a/{y}".at(handler(2))]));
    assert!(matches!(error, RouteBuildError::MatchitError(_)));
    assert!(!error.message().is_empty());
}

#[test]
fn a_path_has_at_most_twenty_five_parameters() {
    let pattern = |count: usize| -> String {
        (0..count).map(|number| format!("/{{p{number}}}")).collect()
    };
    let router = built(nodes(vec![pattern(25).as_str().at(handler(1))]));
    let path = "/x".repeat(25);
    assert_eq!(get(&router, &path).answer, Answer::Endpoint(1));
    assert_eq!(get(&router, &path).params.len(), 25);
    match refused(nodes(vec![pattern(26).as_str().at(handler(1))])) {
        RouteBuildError::MatchitError(text) => assert_eq!(text, "Too many route parameters."),
        _ => panic!("expected the pattern to be refused"),
    }
}

#[test]
fn doubled_braces_are_no_parameters() {
    let pattern = "/{a}{{".repeat(13);
    let router = built(nodes(vec![pattern.as_str().at(handler(1))]));
    let seen = get(&router, &"/x{".repeat(13));
    assert_eq!(seen.answer, Answer::Endpoint(1));
    assert_eq!(seen.params.len(), 13);

    let router = built(nodes(vec!["/{{literal}}".at(handler(1))]));
    assert_eq!(get(&router, "/{literal}").answer, Answer::Endpoint(1));
    assert_eq!(get(&router, "/literal").answer, Answer::NotFound);
}

#[test]
fn doubled_braces_let_a_capture_span_segments() {
    let router = built(nodes(vec![
        "/{a}{{b}}".at(handler(1)),
        "/{x}{y}".at(handler(2)),
    ]));
    let seen = get(&router, "/zz/q");
    assert_eq!(seen.answer, Answer::Endpoint(2));
    assert_eq!(param(&seen, "x"), "zz/");
    assert_eq!(param(&seen, "y"), "q");
}

#[test]
fn misread_braces_are_refused() {
    for pattern in ["/{ab}{{c}}", "/{\u{e9}}{{"] {
        for before in [vec![], vec!["/other".at(handler(2))]] {
            let mut all = before;
            all.push(pattern.at(handler(1)));
            match refused(nodes(all)) {
                RouteBuildError::MatchitError(text) => assert!(!text.is_empty()),
                _ => panic!("expected the pattern to be refused"),
            }
        }
    }
}

fn refusal(patterns: &[&str]) -> String {
    let list = patterns.iter().map(|pattern| pattern.at(handler(1))).collect();
    match refused(nodes(list)) {
        RouteBuildError::MatchitError(text) => text,
        _ => panic!("expected the pattern to be refused"),
    }
}

const CONFLICT: &str = "Insertion failed due to conflict with previously registered route: ";
const TWO_PARAMETERS: &str = "Only one parameter is allowed per path segment";
const NO_PARAMETER: &str = "Parameters must be registered with a valid name";

#[test]
fn misread_braces_are_judged_by_the_routes_before() {
    assert_eq!(refusal(&["/{ab}{{c}}"]), NO_PARAMETER);
    assert_eq!(refusal(&["/{*rest}", "/{ab}{{c}}"]), NO_PARAMETER);
    assert_eq!(refusal(&["/{ab}{{/{d}"]), TWO_PARAMETERS);
    assert_eq!(
        refusal(&["/{*rest}", "/{ab}{{/{d}"]),
        format!("{CONFLICT}/{{*rest}}")
    );
    assert_eq!(refusal(&["/{x}{{b}}", "/{ab}{{/{d}"]), TWO_PARAMETERS);
    assert_eq!(refusal(&[&format!("/{{ab}}{}", "{{".repeat(30))]), NO_PARAMETER);
}

#[test]
fn a_parameter_behind_its_letter_in_braces_is_accepted() {
    let router = built(nodes(vec!["/{{a}}{b}/{c}{{d}}".at(handler(1))]));
    let seen = get(&router, "/{a}x/y{d}");
    assert_eq!(seen.answer, Answer::Endpoint(1));
    assert_eq!(param(&seen, "b"), "x");
    assert_eq!(param(&seen, "c"), "y");

    let router = built(nodes(vec![
        "/x{{a}}{qq}/{r}{{".at(handler(1)),
        "/x{{a}}{other}/s".at(handler(2)),
    ]));
    assert_eq!(get(&router, "/x{a}1/2{").answer, Answer::Endpoint(1));
    assert_eq!(get(&router, "/x{a}1/s").answer, Answer::Endpoint(2));
}

#[test]
fn a_conflict_behind_a_letter_in_braces_is_told() {
    let known = "/x{{a}}{qq}/{r}{{";
    assert_eq!(
        refusal(&[known, "/x{{a}}{*z}"]),
        format!("{CONFLICT}/x{{a}}/{{a}}{{")
    );
    assert_eq!(
        refusal(&[known, "/x{{a}}{q}.png", "/x{{a}}{*z}"]),
        format!("{CONFLICT}/x{{a}}.png")
    );
    assert_eq!(
        refusal(&["/x{{a}}{q}.png", "/x{{a}}{*z}"]),
        format!("{CONFLICT}/x{{a}}.png")
    );
    assert_eq!(
        refusal(&["/x{{a}}{qq}/{r}{{/{s}", "/x{{a}}{*z}"]),
        format!("{CONFLICT}/x{{a}}/{{qq}}{{r}}")
    );
    assert_eq!(
        refusal(&[known, "/x{{a}}{p}/{s}{{"]),
        format!("{CONFLICT}/x{{a}}{{qq}}/{{r}}{{")
    );
    assert!(build(nodes(vec![known.at(handler(1)), "/y{{a}}{*z}".at(handler(2))])).is_ok());
}

#[test]
fn joining_paths_is_associative() {
    let parts = ["", "/", "api", "/api", "/api/", "//v1//", "{id}"];
    for a in parts {
        for b in parts {
            for c in parts {
                assert_eq!(
                    join_path(&join_path(a, b), c),
                    join_path(a, &join_path(b, c))
                );
            }
        }
    }
    assert_eq!(join_path("/api/", "/v1//x"), "/api/v1/x");
}

#[test]
fn decoding_undoes_encoding() {
    for text in ["", "plain", "a b/c%d", "\u{e9}\u{20ac}\u{1f600}", "100%25"] {
        let upper: String = text.bytes().map(|byte| format!("%{byte:02X}")).collect();
        let lower: String = text.bytes().map(|byte| format!("%{byte:02x}")).collect();
        let sparse = text.replace('%', "%25").replace(' ', "%20");
        assert_eq!(percent_decode(&upper), text);
        assert_eq!(percent_decode(&lower), text);
        assert_eq!(percent_decode(&sparse), text);
    }
}

#[test]
fn captured_values_make_the_pattern_the_path() {
    let router = built(nodes(vec![
        "/users/{id}/files/{*path}".at(handler(1)),
        "/images/img{id}.png".at(handler(2)),
    ]));
    let seen = get(&router, "/users/7/files/a/b.txt");
    assert_eq!(
        seen.params,
        vec![
            ("id".to_owned(), "7".to_owned()),
            ("path".to_owned(), "a/b.txt".to_owned())
        ]
    );
    let seen = get(&router, "/images/img42.png");
    assert_eq!(seen.params, vec![("id".to_owned(), "42".to_owned())]);
    assert_eq!(get(&router, "/users//files/a").answer, Answer::NotFound);
    assert_eq!(get(&router, "/users/7/files/").answer, Answer::NotFound);
}

#[test]
fn routes_distinct_methods_on_same_path() {
    let router = built(nodes(vec![
        "/items".at(handler(1)),
        "/items".post(handler(2)),
    ]));
    assert_eq!(get(&router, "/items").answer, Answer::Endpoint(1));
    assert_eq!(send(&router, "/items", "POST").answer, Answer::Endpoint(2));
}

#[test]
fn chains_handlers_on_route_node() {
    let router = built(nodes(vec!["/items".at(handler(1)).post(handler(2))]));
    assert_eq!(get(&router, "/items").answer, Answer::Endpoint(1));
    assert_eq!(send(&router, "/items", "POST").answer, Answer::Endpoint(2));
}

#[test]
fn routes_extended_http_method_builders() {
    let router = built(nodes(vec![
        "/items".patch(handler(1)),
        "/items".head(handler(2)),
        "/items".options(handler(3)),
        "/items".trace(handler(4)),
        "/items".on("CONNECT", handler(5)),
    ]));
    for (method, expected) in [
        ("PATCH", 1),
        ("HEAD", 2),
        ("OPTIONS", 3),
        ("TRACE", 4),
        ("CONNECT", 5),
    ] {
        assert_eq!(
            send(&router, "/items", method).answer,
            Answer::Endpoint(expected)
        );
    }
}

#[test]
fn a_node_takes_a_handler_for_each_method() {
    let node = "/items"
        .at(handler(1))
        .put(handler(2))
        .delete(handler(3))
        .patch(handler(4))
        .head(handler(5))
        .options(handler(6))
        .trace(handler(7))
        .any(handler(8));
    let router = built(nodes(vec![node]));
    for (method, expected) in [
        ("GET", 1),
        ("PUT", 2),
        ("DELETE", 3),
        ("PATCH", 4),
        ("HEAD", 5),
        ("OPTIONS", 6),
        ("TRACE", 7),
        ("POST", 8),
    ] {
        assert_eq!(
            send(&router, "/items", method).answer,
            Answer::Endpoint(expected)
        );
    }
}

#[test]
fn any_answers_every_method_but_yields_to_exact_registrations() {
    let router = built(nodes(vec![
        "/thing".any(handler(1)),
        "/thing".post(handler(2)),
    ]));
    for (method, expected) in [("GET", 1), ("DELETE", 1), ("POST", 2)] {
        assert_eq!(
            send(&router, "/thing", method).answer,
            Answer::Endpoint(expected)
        );
    }
}

#[test]
fn exposes_api_docs_at_root() {
    let router = built(nodes(vec!["/ping".at(handler(1))]).enable_api_doc(9));
    assert_eq!(get(&router, "/api-docs").answer, Answer::Endpoint(9));
    assert_eq!(get(&router, "/ping").answer, Answer::Endpoint(1));

    let response = scalar(true, "{}").respond().unwrap();
    assert!(response.content_type.contains("text/html"));
    assert!(response.body.contains("@scalar/api-reference"));
    assert!(response.body.contains("id=\"api-reference\""));
}

#[test]
fn redoc_route_serves_redoc_html() {
    let router = built(nodes(vec![redoc_route(9, "/redoc"), "/ping".at(handler(1))]));
    assert_eq!(get(&router, "/redoc").answer, Answer::Endpoint(9));
    assert_eq!(get(&router, "/redoc/page").answer, Answer::Endpoint(9));

    let response = redoc(true, "{\"openapi\":\"3.1.0\"}").respond().unwrap();
    assert!(response.body.contains("redoc"));
    assert!(response.body.contains("3.1.0"));
}

#[test]
fn a_redoc_page_keeps_the_order_of_the_document() {
    let document = "{\"openapi\":\"3.1.0\",\"info\":{\"title\":\"t\",\"contact\":{}},\"components\":{}}";
    let response = redoc(true, document).respond().unwrap();
    assert!(response.body.contains(document), "{}", response.body);
}

#[test]
fn documentation_can_be_disabled() {
    for endpoint in [
        redoc(false, "{}"),
        redoc(true, "not json"),
        scalar(false, "{}"),
        OpenApiRedocEndpoint::disabled(),
    ] {
        assert!(matches!(endpoint.respond(), Err(OpenApiRedocDisabledError)));
    }
    assert_eq!(OpenApiRedocDisabledError.status(), 501);
}

#[test]
fn returns_not_found_for_missing_routes() {
    let router = built(Route::new(()));
    assert_eq!(get(&router, "/unknown").answer, Answer::NotFound);
    assert_eq!(NotFound.status(), 404);
    assert_eq!(
        error_response(NotFound.status(), &NotFound.message()),
        r#"{"error":"Route not found."}"#
    );
}

#[test]
fn a_fallback_handler_replaces_the_built_in_404() {
    let router = built(nodes(vec!["/known".at(handler(1))]).fallback(handler(2)));
    assert_eq!(get(&router, "/nowhere").answer, Answer::Fallback(2));
    assert_eq!(get(&router, "/known").answer, Answer::Endpoint(1));
}

#[test]
fn a_method_not_allowed_handler_can_read_the_registered_methods() {
    let router = built(nodes(vec!["/items".at(handler(1))]).method_not_allowed(handler(2)));
    assert_eq!(
        send(&router, "/items", "DELETE").answer,
        Answer::NotAllowedHandler(2, vec!["GET".to_owned(), "HEAD".to_owned()])
    );
}

#[test]
fn a_router_layer_wraps_the_not_found_path() {
    let router = built(nodes(vec!["/known".at(handler(1))]).layer(layer(7)));
    let seen = get(&router, "/nowhere");
    assert_eq!(seen.answer, Answer::NotFound);
    assert_eq!(seen.layers, vec![7]);
}

#[test]
fn a_post_build_router_layer_also_wraps_everything() {
    let router = built(nodes(vec!["/known".at(handler(1))])).layer(layer(7));
    let seen = send(&router, "/known", "DELETE");
    assert!(matches!(seen.answer, Answer::NotAllowed(_)));
    assert_eq!(seen.layers, vec![7]);
}

fn widget_spec() -> HandlerSpec {
    HandlerSpec {
        handler_type: "app::create_widget".to_owned(),
        operation_name: "create_widget".to_owned(),
        docs: Some(" Creates a widget.\n\n More about it.".to_owned()),
        deprecated: false,
        parameters: vec![Some(ExtractorSchema {
            location: ParameterLocation::Body,
            content_type: Some("application/json".to_owned()),
            schema: Some(0),
        })],
        parameter_names: vec!["body".to_owned()],
        response: Some(vec![ResponseSchema {
            status: None,
            description: None,
            schema: Some(1),
            content_type: Some("application/json".to_owned()),
        }]),
        schemas: vec![("CreateWidget".to_owned(), 0), ("Widget".to_owned(), 1)],
    }
}

#[test]
fn openapi_collects_typed_request_and_response_schemas() {
    let openapi = nodes(vec!["/widgets".post(documented(1, 0))]).openapi(&vec![widget_spec()]);
    let operation = openapi
        .operations()
        .iter()
        .find(|operation| operation.path == "/widgets" && operation.method == "POST")
        .expect("expected POST /widgets operation");
    assert!(operation
        .parameters
        .iter()
        .any(|parameter| parameter.schema.schema.is_some()));
    assert!(operation
        .responses
        .iter()
        .any(|response| response.schema.is_some()));
    assert_eq!(
        openapi.schemas().list(),
        &vec![("CreateWidget".to_owned(), 0), ("Widget".to_owned(), 1)]
    );
}

#[test]
fn openapi_collects_typed_form_request_and_response_schemas() {
    let form = "application/x-www-form-urlencoded";
    let mut spec = widget_spec();
    spec.parameters = vec![Some(ExtractorSchema {
        location: ParameterLocation::Body,
        content_type: Some(form.to_owned()),
        schema: Some(0),
    })];
    spec.response = Some(vec![ResponseSchema {
        status: None,
        description: None,
        schema: Some(0),
        content_type: Some(form.to_owned()),
    }]);
    let openapi = nodes(vec!["/login".post(documented(1, 0))]).openapi(&vec![spec]);
    let operation = &openapi.operations()[0];
    assert!(operation.parameters.iter().any(|parameter| {
        parameter.schema.content_type == Some(form.to_owned()) && parameter.schema.schema.is_some()
    }));
    assert!(operation.responses.iter().any(|response| {
        response.content_type == Some(form.to_owned()) && response.schema.is_some()
    }));
}

#[test]
fn openapi_emits_query_and_path_parameters_not_request_body() {
    let spec = HandlerSpec {
        handler_type: "app::list_items".to_owned(),
        operation_name: "list_items".to_owned(),
        docs: None,
        deprecated: false,
        parameters: vec![Some(Query::<u8>::openapi(Some(0))), None],
        parameter_names: vec!["query".to_owned(), "_params".to_owned()],
        response: None,
        schemas: vec![],
    };
    let shapes = vec![
        SchemaShape::Object {
            properties: vec![("page".to_owned(), 1), ("tag".to_owned(), 2)],
            required: vec!["page".to_owned()],
        },
        SchemaShape::Other,
        SchemaShape::Other,
    ];
    let openapi = nodes(vec!["/items/{id}".at(documented(1, 0))]).openapi(&vec![spec]);
    let paths = openapi.build_paths(&shapes);
    assert_eq!(paths.len(), 1);
    assert_eq!(paths[0].path, "/items/{id}");
    assert_eq!(paths[0].method, HttpMethod::Get);
    let operation = &paths[0].operation;
    let find = |name: &str| {
        operation
            .parameters
            .iter()
            .find(|parameter| parameter.name == name)
            .expect("a parameter")
    };
    assert_eq!(find("id").parameter_in, ParameterIn::Path);
    assert!(find("id").required);
    assert_eq!(find("page").parameter_in, ParameterIn::Query);
    assert!(find("page").required);
    assert_eq!(find("tag").parameter_in, ParameterIn::Query);
    assert!(!find("tag").required);
    assert!(
        operation.request_body.is_none(),
        "a GET with query/path params must not declare a request body"
    );
}

#[test]
fn a_documented_operation_has_its_body_responses_and_summary() {
    let openapi = nodes(vec!["/widgets".post(documented(1, 0))]).openapi(&vec![widget_spec()]);
    let op = &openapi.operations()[0];
    let shapes = vec![SchemaShape::Other, SchemaShape::Other];
    assert!(build_parameters(&shapes, op).is_empty());
    let body = build_request_body(op).unwrap();
    assert_eq!(body.content[0].0, "application/json");
    assert!(matches!(
        body.content[0].1,
        BodySchema::Single(SchemaRef::Declared(0))
    ));
    let responses = build_responses(op);
    assert_eq!(responses[0].status, 200);
    assert_eq!(
        responses[0].content,
        Some(("application/json".to_owned(), SchemaRef::Declared(1)))
    );
    let operation = build_operation(&shapes, op);
    assert_eq!(operation.operation_id, "create_widget");
    assert_eq!(operation.summary, "Creates a widget.");
    assert!(!operation.deprecated);
}

#[test]
fn several_body_arguments_are_combined() {
    let combined = aggregate_parameter_schema(vec![
        ("a".to_owned(), SchemaRef::Text),
        ("b".to_owned(), SchemaRef::Anything),
    ]);
    assert!(matches!(combined, BodySchema::Combined(list) if list.len() == 2));
}

#[test]
fn document_texts_are_cut_as_documented() {
    assert_eq!(trim_crate("my_crate::users::get"), "users::get");
    assert_eq!(trim_crate("get"), "get");
    assert_eq!(
        path_parameter_names("/a/{x}/b/{*rest}"),
        vec!["x".to_owned(), "rest".to_owned()]
    );
    assert_eq!(
        doc_summary("First line\nof it.\n\nSecond."),
        Some("First line of it.".to_owned())
    );
    assert_eq!(doc_summary("  \n"), None);
    assert_eq!(method_to_http_method("PATCH"), Some(HttpMethod::Patch));
    assert_eq!(method_to_http_method("CONNECT"), None);
}

#[test]
fn the_first_definition_of_a_schema_stands() {
    let mut components = Components::new();
    components.register("B", 1);
    components.register("A", 2);
    components.register("B", 3);
    components.register_type("C", 4, &vec![("A".to_owned(), 5), ("D".to_owned(), 6)]);
    assert_eq!(
        components.list(),
        &vec![
            ("A".to_owned(), 2),
            ("B".to_owned(), 1),
            ("C".to_owned(), 4),
            ("D".to_owned(), 6)
        ]
    );
}

#[test]
fn handlers_are_described_by_their_type() {
    let registry = vec![widget_spec()];
    assert_eq!(find_handler_spec(&registry, "app::create_widget"), Some(0));
    assert_eq!(describe_handler(&registry, "app::other").spec, None);
}

#[test]
fn a_mounted_router_sees_paths_without_its_prefix() {
    let inner = built(nodes(vec!["/users".at(handler(1)), "/".at(handler(2))]));
    let router = built(nodes(vec!["/api".nest(inner), "/health".at(handler(3))]));

    let seen = get(&router, "/api/users");
    assert_eq!(seen.answer, Answer::Endpoint(1));
    assert_eq!(seen.uri, "/users");
    assert_eq!(get(&router, "/api").answer, Answer::Endpoint(2));
    assert_eq!(get(&router, "/health").answer, Answer::Endpoint(3));
}

#[test]
fn a_mounted_router_keeps_its_own_fallback_and_405() {
    let inner = built(nodes(vec!["/users".at(handler(1))]).fallback(handler(2)));
    let router = built(nodes(vec!["/api".nest(inner)]).fallback(handler(3)));

    assert_eq!(get(&router, "/api/nope").answer, Answer::Fallback(2));
    assert_eq!(get(&router, "/nope").answer, Answer::Fallback(3));
    assert!(matches!(
        send(&router, "/api/users", "DELETE").answer,
        Answer::NotAllowed(_)
    ));
}

#[test]
fn a_mounted_router_keeps_the_query_string() {
    let inner = built(nodes(vec!["/search".at(handler(1))]));
    let router = built(nodes(vec!["/api".nest(inner)]));
    let seen = get(&router, "/api/search?q=rust");
    assert_eq!(seen.answer, Answer::Endpoint(1));
    assert_eq!(seen.uri, "/search?q=rust");
}

#[test]
fn a_router_mounted_at_the_root_or_a_trailing_slash_still_routes() {
    for (prefix, path) in [("/", "/users"), ("/api/", "/api/users")] {
        let inner = built(nodes(vec!["/users".at(handler(1))]));
        let router = built(nodes(vec![prefix.nest(inner)]));
        let seen = get(&router, path);
        assert_eq!(
            seen.answer,
            Answer::Endpoint(1),
            "a router mounted at `{prefix}` should answer `{path}`"
        );
        assert_eq!(seen.uri, "/users", "mounted at `{prefix}`");
    }
}

#[test]
fn a_router_cannot_be_mounted_under_a_pattern_prefix() {
    let inner = built(nodes(vec!["/x".at(handler(1))]));
    let error = refused(nodes(vec!["/tenants/{tenant}".nest(inner)]));
    assert!(matches!(error, RouteBuildError::NestedPatternPrefix { .. }));
}

#[test]
fn a_mounted_router_re_exports_its_operations_under_the_prefix() {
    let inner = built(nodes(vec!["/widgets".post(documented(1, 0))]));
    let router = built(nodes(vec!["/api".nest(inner)]));
    assert!(router
        .openapi_entries()
        .iter()
        .any(|entry| entry.path == "/api/widgets" && entry.method == "POST"));
}

#[test]
fn a_path_extractor_types_the_route_pattern_parameter_exactly_once() {
    let spec = HandlerSpec {
        handler_type: "app::show_item".to_owned(),
        operation_name: "show_item".to_owned(),
        docs: None,
        deprecated: false,
        parameters: vec![Some(ExtractorSchema {
            schema: Some(0),
            ..Path::<u64>::openapi()
        })],
        parameter_names: vec!["path".to_owned()],
        response: None,
        schemas: vec![],
    };
    // Schema 1 is the integer that the field `id` of schema 0 has.
    let shapes = vec![
        SchemaShape::Object {
            properties: vec![("id".to_owned(), 1)],
            required: vec!["id".to_owned()],
        },
        SchemaShape::Other,
    ];
    let openapi = nodes(vec!["/items/{id}".at(documented(1, 0))]).openapi(&vec![spec]);
    let parameters = build_parameters(&shapes, &openapi.operations()[0]);
    let described: Vec<_> = parameters
        .iter()
        .filter(|parameter| parameter.name == "id")
        .collect();
    assert_eq!(
        described.len(),
        1,
        "the route pattern and the extractor describe the same parameter"
    );
    assert_eq!(described[0].parameter_in, ParameterIn::Path);
    assert!(described[0].required);
    assert_eq!(
        described[0].schema,
        SchemaRef::Declared(1),
        "the extractor's type must replace the untyped string default"
    );
}

#[test]
fn a_path_extractor_deserializes_the_captured_segments() {
    let router = built(nodes(vec!["/users/{user}/posts/{post}".at(handler(1))]));
    let seen = get(&router, "/users/ada/posts/17");
    assert_eq!(
        seen.params,
        vec![pair("user", "ada"), pair("post", "17")]
    );
}

fn needs_user(endpoint: u64) -> Handler {
    Handler {
        requirements: vec![auth_requirement(3, "AuthUser<User>")],
        ..handler(endpoint)
    }
}

#[test]
fn an_unauthenticated_route_is_rejected_at_build_time() {
    let error = refused(nodes(vec!["/me".at(needs_user(1))]));
    assert!(
        error.message().contains("AuthMiddleware"),
        "the error should name the fix: {}",
        error.message()
    );
    let fallback = refused(nodes(vec![]).fallback(needs_user(1)));
    assert!(matches!(fallback, RouteBuildError::MissingProvision { .. }));
}

#[test]
fn application_state_and_the_authenticated_user_no_longer_share_a_slot() {
    let me = Handler {
        requirements: vec![
            auth_requirement(3, "AuthUser<User>"),
            Requirement {
                key: 4,
                description: "State<User>".to_owned(),
                hint: "`.with(State(value))`".to_owned(),
            },
        ],
        ..handler(1)
    };
    let route = nodes(vec!["/me".at(me)])
        .with(AuthMiddleware::new(0u64).as_layer(1, 3))
        .with(Layer {
            id: 2,
            provisions: vec![4],
        });
    assert!(route.try_build().is_ok());
}

#[test]
fn an_alarm_handler_is_kept_with_the_router() {
    let router = nodes(vec!["/ping".at(handler(1))])
        .on_alarm(handler(5))
        .with(layer(6))
        .enable_api_doc(9)
        .try_build()
        .unwrap_or_else(|error| panic!("{}", error.message()));
    assert_eq!(router.alarm_endpoint(), Some(5));
    assert_eq!(get(&router, "/ping").layers, vec![6]);
    assert_eq!(get(&router, "/api-docs").answer, Answer::Endpoint(9));
    assert!(!router.is_programmable());
    assert!(router.enable_programmable_router().is_programmable());
}

fn rewrite(uri: &str, prefix: &str) -> String {
    strip_prefix(uri, prefix).expect("prefix should strip")
}

#[test]
fn strips_the_prefix_and_keeps_the_query() {
    assert_eq!(rewrite("/api/users?page=2", "/api"), "/users?page=2");
    assert_eq!(rewrite("/api/users", "/api"), "/users");
}

#[test]
fn the_bare_mount_point_becomes_the_root() {
    assert_eq!(rewrite("/api", "/api"), "/");
    assert_eq!(rewrite("/api/", "/api"), "/");
}

#[test]
fn an_absolute_uri_keeps_its_authority() {
    assert_eq!(
        rewrite("http://localhost/api/users", "/api"),
        "http://localhost/users"
    );
}

#[test]
fn other_paths_are_not_under_a_prefix() {
    assert_eq!(strip_prefix("/other", "/api"), None);
    assert_eq!(
        rewrite_target("/api/x", Some("y=1"), "/api"),
        Some("/x?y=1".to_owned())
    );
    let error = NestedPathError("/other".to_owned());
    assert_eq!(error.status(), 500);
    assert!(error.message().contains("/other"));
}
