//! Middleware: compression, CORS, limits and errors.

use std::io::Read;
use std::time::Duration;

use flate2::read::{GzDecoder, ZlibDecoder};

use skyzen::handler::{error_response, handler_outcome, HandlerError};
use skyzen::middleware::compression::{
    accepted_encodings, ensure_vary_accept_encoding, parse_part, CompressionEncoding,
    CompressionError, CompressionLevel, CompressionMiddleware, Offer, ParsedEncoding, Rewritten,
    FULL_QUALITY,
};
use skyzen::middleware::cors::{Cors, CorsAction, CorsConfigError, CorsRequest};
use skyzen::middleware::error_handling::ErrorHandlingMiddleware;
use skyzen::middleware::headers::{HeaderField, HeaderUpdate};
use skyzen::middleware::limits::{
    BodyLimit, Race, RequestBodyLimit, RequestTimeout, Timeout,
    DEFAULT_BODY_LIMIT,
};

fn texts(list: &[&str]) -> Vec<String> {
    list.iter().map(|text| (*text).to_owned()).collect()
}

fn inserted(updates: &[HeaderUpdate], wanted: &str) -> Option<String> {
    let mut found = None;
    for update in updates {
        if let HeaderUpdate::Insert(name, value) = update {
            if name == wanted {
                found = Some(value.clone());
            }
        }
    }
    found
}

fn appended(updates: &[HeaderUpdate], wanted: &str) -> Vec<String> {
    let mut found = Vec::new();
    for update in updates {
        if let HeaderUpdate::Append(name, value) = update {
            if name == wanted {
                found.push(value.clone());
            }
        }
    }
    found
}

fn rank(quality: &Option<String>) -> u32 {
    match quality {
        None => FULL_QUALITY,
        Some(text) => match text.parse::<f32>() {
            Ok(value) if value > 0.0 && value <= 1.0 => value.to_bits(),
            _ => 0,
        },
    }
}

fn offers(header: &[&str]) -> Vec<Offer> {
    accepted_encodings(&texts(header))
        .into_iter()
        .map(|preference| Offer {
            encoding: preference.encoding,
            rank: rank(&preference.quality),
        })
        .collect()
}

fn decode_gzip(body: &[u8]) -> String {
    let mut output = String::new();
    GzDecoder::new(body).read_to_string(&mut output).unwrap();
    output
}

fn decode_deflate(body: &[u8]) -> String {
    let mut output = String::new();
    ZlibDecoder::new(body).read_to_string(&mut output).unwrap();
    output
}

fn rewrite(
    middleware: &CompressionMiddleware,
    header: &[&str],
    payload: &str,
    vary: &HeaderField,
) -> Option<Rewritten> {
    let encoding = middleware.encoding_for(&texts(header), rank)?;
    Some(
        middleware
            .compress_response(payload.as_bytes().to_vec(), encoding, vary)
            .unwrap(),
    )
}

#[test]
fn compresses_with_gzip_when_client_accepts() {
    let middleware = CompressionMiddleware::new().minimum_size(0);
    let payload = "Hello World!".repeat(50);

    let response = rewrite(&middleware, &["gzip"], &payload, &HeaderField::Absent).unwrap();

    assert_eq!(decode_gzip(&response.body), payload);
    assert_eq!(
        inserted(&response.updates, "content-encoding"),
        Some("gzip".to_owned())
    );
    assert_eq!(
        inserted(&response.updates, "content-length"),
        Some(format!("{}", response.body.len()))
    );
    assert_eq!(response.vary, Some("Accept-Encoding".to_owned()));
}

#[test]
fn skips_compression_without_matching_encoding() {
    let middleware = CompressionMiddleware::new().minimum_size(0);
    assert_eq!(middleware.negotiate_encoding(&offers(&[])), None);
    assert_eq!(middleware.negotiate_encoding(&offers(&["br, identity"])), None);
    assert_eq!(middleware.negotiate_encoding(&offers(&["gzip;q=0"])), None);
}

#[test]
fn only_an_eligible_response_gets_an_encoding() {
    let middleware = CompressionMiddleware::new();
    let header = texts(&["gzip"]);
    let choose = |method: &str, status: u16, encoded: bool, empty: Option<bool>| {
        middleware.choose_encoding(&header, rank, method, status, encoded, empty)
    };
    assert_eq!(choose("GET", 200, false, None), Some(CompressionEncoding::Gzip));
    assert_eq!(choose("HEAD", 200, false, None), None);
    assert_eq!(choose("GET", 204, false, None), None);
    assert_eq!(choose("GET", 200, true, None), None);
    assert_eq!(choose("GET", 200, false, Some(true)), None);
}

#[test]
fn honors_deflate_quality_order() {
    let middleware = CompressionMiddleware::new().minimum_size(0);
    let payload = "payload".repeat(80);

    let response = rewrite(
        &middleware,
        &["gzip;q=0.5, deflate;q=1"],
        &payload,
        &HeaderField::Absent,
    )
    .unwrap();

    assert_eq!(decode_deflate(&response.body), payload);
    assert_eq!(
        inserted(&response.updates, "content-encoding"),
        Some("deflate".to_owned())
    );
}

#[test]
fn enforces_minimum_size() {
    let payload = "tiny";
    let middleware = CompressionMiddleware::new().minimum_size(payload.len() + 1);

    let response = rewrite(&middleware, &["gzip"], payload, &HeaderField::Absent).unwrap();

    assert_eq!(inserted(&response.updates, "content-encoding"), None);
    assert_eq!(response.body, payload.as_bytes());
}

#[test]
fn appends_vary_header_once() {
    let middleware = CompressionMiddleware::new().minimum_size(0);
    let payload = "payload".repeat(60);
    let vary = HeaderField::Text("Accept-Language".to_owned());

    let response = rewrite(&middleware, &["gzip"], &payload, &vary).unwrap();
    let written = response.vary.unwrap();
    assert_eq!(written, "Accept-Language, Accept-Encoding");

    let again = HeaderField::Text(written);
    let response = rewrite(&middleware, &["gzip"], &payload, &again).unwrap();
    let unchanged = response.vary.unwrap_or("Accept-Language, Accept-Encoding".to_owned());
    assert_eq!(unchanged, "Accept-Language, Accept-Encoding");
}

#[test]
fn a_body_that_would_grow_is_kept() {
    let middleware = CompressionMiddleware::new().minimum_size(0);
    let response = rewrite(&middleware, &["gzip"], "abc", &HeaderField::Absent).unwrap();
    assert_eq!(response.body, b"abc");
    assert_eq!(inserted(&response.updates, "content-encoding"), None);
    let failed = middleware.finish_response(
        b"abc".to_vec(),
        None,
        CompressionEncoding::Gzip,
        &HeaderField::Absent,
    );
    assert!(matches!(failed, Err(CompressionError)));
    assert_eq!(CompressionError.status(), 500);
}

#[test]
fn negotiation_prefers_the_best_rank_then_the_earlier_offer_then_the_servers_order() {
    let middleware = CompressionMiddleware::new();
    assert_eq!(
        middleware.negotiate_encoding(&offers(&["deflate;q=0.4, gzip;q=0.6"])),
        Some(CompressionEncoding::Gzip)
    );
    assert_eq!(
        middleware.negotiate_encoding(&offers(&["deflate", "gzip"])),
        Some(CompressionEncoding::Deflate)
    );
    assert_eq!(
        middleware.negotiate_encoding(&offers(&["*"])),
        Some(CompressionEncoding::Gzip)
    );
    let deflate_first = CompressionMiddleware::new()
        .encodings(vec![CompressionEncoding::Deflate, CompressionEncoding::Gzip]);
    assert_eq!(
        deflate_first.negotiate_encoding(&offers(&["*"])),
        Some(CompressionEncoding::Deflate)
    );
}

#[test]
fn only_some_responses_are_eligible() {
    let middleware = CompressionMiddleware::new();
    assert!(middleware.is_response_eligible("GET", 200, false, Some(false)));
    assert!(!middleware.is_response_eligible("HEAD", 200, false, Some(false)));
    assert!(!middleware.is_response_eligible("GET", 204, false, Some(false)));
    assert!(!middleware.is_response_eligible("GET", 200, true, Some(false)));
    assert!(!middleware.is_response_eligible("GET", 200, false, Some(true)));
}

#[test]
fn levels_and_encodings_have_their_names() {
    assert_eq!(CompressionLevel::Fast.number(), 1);
    assert_eq!(CompressionLevel::Best.number(), 9);
    assert_eq!(CompressionLevel::Precise(4).number(), 4);
    assert_eq!(CompressionEncoding::Deflate.header_value(), "deflate");
    assert!(matches!(
        ParsedEncoding::from_token("GZIP"),
        ParsedEncoding::Specific(CompressionEncoding::Gzip)
    ));
    assert_eq!(parse_part(" gzip ; q=0.25 ").quality, Some("0.25".to_owned()));
    assert_eq!(
        ensure_vary_accept_encoding(&HeaderField::Absent),
        Some("Accept-Encoding".to_owned())
    );
}

#[test]
fn a_second_vary_update_changes_nothing() {
    for (before, after) in [
        ("", "Accept-Encoding"),
        ("Accept-Language", "Accept-Language, Accept-Encoding"),
        ("Origin, Accept-Language", "Origin, Accept-Language, Accept-Encoding"),
    ] {
        let field = HeaderField::Text(before.to_owned());
        assert_eq!(ensure_vary_accept_encoding(&field), Some(after.to_owned()));
        let field = HeaderField::Text(after.to_owned());
        assert_eq!(ensure_vary_accept_encoding(&field), None);
    }
    for listed in ["accept-encoding", "Origin, ACCEPT-ENCODING , Accept"] {
        let field = HeaderField::Text(listed.to_owned());
        assert_eq!(ensure_vary_accept_encoding(&field), None);
    }
}

#[test]
fn faster_and_better_levels_both_decode() {
    let payload = "abcabcabc".repeat(40);
    for level in [CompressionLevel::Fast, CompressionLevel::Best] {
        let middleware = CompressionMiddleware::new().minimum_size(0).level(level);
        let response = rewrite(&middleware, &["gzip"], &payload, &HeaderField::Absent).unwrap();
        assert_eq!(decode_gzip(&response.body), payload);
    }
}

const APP: &str = "https://app.lexo.cool";

fn cors() -> Cors {
    Cors::builder()
        .allow_origin(APP)
        .allow_methods(&texts(&["GET", "DELETE"]))
        .allow_credentials(true)
        .build()
        .unwrap_or_else(|error| panic!("{}", error.message()))
}

fn preflight(requested: Option<&str>) -> CorsRequest {
    CorsRequest {
        method: "OPTIONS".to_owned(),
        origin: Some(APP.to_owned()),
        asks_for_method: true,
        requested_headers: requested.map(|headers| headers.to_owned()),
    }
}

fn plain_request(origin: Option<&str>) -> CorsRequest {
    CorsRequest {
        method: "GET".to_owned(),
        origin: origin.map(|origin| origin.to_owned()),
        asks_for_method: false,
        requested_headers: None,
    }
}

#[test]
fn preflight_on_an_unregistered_method_still_gets_cors_headers() {
    match cors().decide(&preflight(None)) {
        CorsAction::Preflight(updates) => {
            assert_eq!(
                inserted(&updates, "access-control-allow-origin"),
                Some(APP.to_owned())
            );
            assert_eq!(
                inserted(&updates, "access-control-allow-methods"),
                Some("GET, DELETE".to_owned())
            );
            assert_eq!(
                inserted(&updates, "access-control-allow-credentials"),
                Some("true".to_owned())
            );
        }
        _ => panic!("a preflight is answered by the layer"),
    }
}

#[test]
fn any_header_is_allowed_by_echoing_what_is_asked_for() {
    let listed = vec!["x-listed".to_owned()];
    let layer = Cors::builder()
        .allow_origin(APP)
        .allow_headers(&listed)
        .allow_headers_any()
        .max_age(600)
        .build()
        .unwrap();
    match layer.decide(&preflight(Some("x-asked, x-also"))) {
        CorsAction::Preflight(updates) => {
            assert_eq!(
                inserted(&updates, "access-control-allow-headers"),
                Some("x-asked, x-also".to_owned())
            );
            assert_eq!(
                inserted(&updates, "access-control-max-age"),
                Some("600".to_owned())
            );
        }
        _ => panic!("a preflight is answered by the layer"),
    }
}

#[test]
fn preflight_on_an_unmatched_path_is_answered_instead_of_404() {
    assert!(matches!(
        cors().decide(&preflight(None)),
        CorsAction::Preflight(updates)
            if inserted(&updates, "access-control-allow-origin").is_some()
    ));
}

#[test]
fn normal_responses_are_decorated_and_vary_by_origin() {
    match cors().decide(&plain_request(Some(APP))) {
        CorsAction::Decorate(updates) => {
            assert_eq!(
                inserted(&updates, "access-control-allow-origin"),
                Some(APP.to_owned())
            );
            assert_eq!(appended(&updates, "vary"), vec!["origin".to_owned()]);
        }
        _ => panic!("a listed origin is decorated"),
    }
}

#[test]
fn an_unlisted_origin_is_left_undecorated() {
    assert!(matches!(
        cors().decide(&plain_request(Some("https://evil.lexo.cool"))),
        CorsAction::PassThrough
    ));
    assert!(matches!(
        cors().decide(&plain_request(None)),
        CorsAction::PassThrough
    ));
}

#[test]
fn credentials_with_a_wildcard_origin_is_rejected_at_construction() {
    let error = Cors::builder()
        .allow_origin_any()
        .allow_credentials(true)
        .build()
        .err()
        .unwrap();
    assert!(matches!(error, CorsConfigError::CredentialsWithAnyOrigin));
}

#[test]
fn a_layer_without_an_origin_is_rejected() {
    let error = Cors::builder().build().err().unwrap();
    assert!(matches!(error, CorsConfigError::NoOrigin));
}

#[test]
fn invalid_values_are_rejected_at_construction() {
    let error = Cors::builder().allow_origin("bad\norigin").build().err().unwrap();
    assert!(matches!(error, CorsConfigError::InvalidValue { .. }));
    assert!(!error.message().is_empty());
}

#[test]
fn a_permissive_layer_echoes_requested_headers() {
    let cors = Cors::permissive();
    match cors.decide(&preflight(Some("x-one, x-two"))) {
        CorsAction::Preflight(updates) => {
            assert_eq!(
                inserted(&updates, "access-control-allow-origin"),
                Some("*".to_owned())
            );
            assert_eq!(
                inserted(&updates, "access-control-allow-headers"),
                Some("x-one, x-two".to_owned())
            );
            assert_eq!(appended(&updates, "vary"), Vec::<String>::new());
        }
        _ => panic!("a preflight is answered by the layer"),
    }
    assert_eq!(
        cors.allow_origin_for(&Some("https://anyone.example".to_owned())),
        Some("*".to_owned())
    );
}

#[test]
fn configured_headers_and_age_are_announced() {
    let cors = Cors::builder()
        .allow_origins(&texts(&[APP, "https://two.example"]))
        .allow_headers(&texts(&["x-a", "x-b"]))
        .expose_headers(&texts(&["x-c"]))
        .max_age(600)
        .build()
        .unwrap_or_else(|error| panic!("{}", error.message()));
    match cors.decide(&preflight(None)) {
        CorsAction::Preflight(updates) => {
            assert_eq!(
                inserted(&updates, "access-control-allow-headers"),
                Some("x-a, x-b".to_owned())
            );
            assert_eq!(
                inserted(&updates, "access-control-max-age"),
                Some("600".to_owned())
            );
        }
        _ => panic!("a preflight is answered by the layer"),
    }
    match cors.decide(&plain_request(Some("https://two.example"))) {
        CorsAction::Decorate(updates) => assert_eq!(
            inserted(&updates, "access-control-expose-headers"),
            Some("x-c".to_owned())
        ),
        _ => panic!("a listed origin is decorated"),
    }
}

#[test]
fn router_publishes_the_default_limit() {
    assert_eq!(
        RequestBodyLimit::or_default(None).max_bytes(),
        Some(DEFAULT_BODY_LIMIT)
    );
    assert_eq!(DEFAULT_BODY_LIMIT, 2 * 1024 * 1024);
}

#[test]
fn route_middleware_overrides_the_default() {
    let limit = RequestBodyLimit::or_default(Some(BodyLimit::max(64).limit()));
    assert_eq!(limit.max_bytes(), Some(64));
}

#[test]
fn the_limit_can_be_lifted() {
    let limit = RequestBodyLimit::or_default(Some(BodyLimit::disabled().limit()));
    assert_eq!(limit.max_bytes(), None);
    assert_eq!(RequestBodyLimit::disabled().max_bytes(), None);
    assert_eq!(RequestBodyLimit::new(3).max_bytes(), Some(3));
    assert_eq!(BodyLimit::default().limit(), RequestBodyLimit::default());
    assert_eq!(RequestBodyLimit::default().max_bytes(), Some(2097152));
}

#[test]
fn a_slow_endpoint_is_abandoned_with_408() {
    let timeout = Timeout::new(Duration::from_millis(20));
    let outcome: Result<&str, RequestTimeout> = timeout.outcome(Race::Elapsed);
    assert_eq!(outcome.unwrap_err().status(), 408);
}

#[test]
fn a_prompt_endpoint_is_untouched() {
    let timeout = Timeout::new(Duration::from_secs(5));
    assert_eq!(timeout.outcome(Race::Answered("fast")).unwrap(), "fast");
    assert_eq!(timeout.budget(), Duration::from_secs(5));
}

#[test]
fn error_handling_middleware_preserves_error_status() {
    let middleware = ErrorHandlingMiddleware::new(9u64);
    assert_eq!(*middleware.function(), 9);
    assert_eq!(middleware.response_status(418, None), 418);
    assert_eq!(middleware.response_status(418, Some(202)), 202);
}

#[test]
fn server_errors_are_not_shown_to_clients() {
    let detail = "database password is hunter2";
    assert!(!error_response(500, detail).contains("hunter2"));
    assert!(error_response(500, detail).contains("Internal server error"));
    assert!(error_response(400, "bad id").contains("bad id"));
}

#[test]
fn a_handler_reports_which_step_failed() {
    let ok: Result<u8, HandlerError<&str, &str>> = handler_outcome(Ok(()), Ok(1));
    assert!(matches!(ok, Ok(1)));
    let extract: Result<u8, HandlerError<&str, &str>> = handler_outcome(Err("x"), Ok(1));
    assert!(matches!(extract, Err(HandlerError::ExtractorError("x"))));
    let respond: Result<u8, HandlerError<&str, &str>> = handler_outcome(Ok(()), Err("y"));
    assert!(matches!(respond, Err(HandlerError::ResponderError("y"))));
}
