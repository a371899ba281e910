//! Extractors: client addresses, path parameters, query strings and typed headers.

use std::collections::BTreeMap;

use headers::{ContentType, Header, HeaderMapExt, UserAgent};
use http::header::{HeaderMap, HeaderValue, CONTENT_TYPE, USER_AGENT};

use skyzen::extract::client_ip::{
    parse_forwarded, parse_forwarded_for_value, parse_ip_addr_with_optional_port,
    parse_x_forwarded_for, select_client_ip, settle, split_once, trim, AddressText, ClientIp,
    ClientIpError,
};
use skyzen::extract::path::{Path, PathDeserializer, PathError, UnitVariant};
use skyzen::extract::query::QueryError;
use skyzen::extract::typed_header::{TypedHeader, TypedHeaderError};
use skyzen::openapi::builtins::Query;
use skyzen::openapi::schema::ParameterLocation;
use skyzen::routing::param::{MissingParam, Params};

// The addresses to try, in order; the first that reads is the client's.
fn candidates(text: AddressText) -> (String, Option<String>) {
    match text {
        AddressText::Ipv6(address) => (address, None),
        AddressText::Plain {
            address,
            without_port,
        } => (address, without_port),
    }
}

// Stand-ins for the parsers of addresses: digits and dots, or hexadecimal digits and colons.
fn ipv4(text: &String) -> Option<String> {
    let parts: Vec<&str> = text.split('.').collect();
    let valid = parts.len() == 4 && parts.iter().all(|part| part.parse::<u8>().is_ok());
    valid.then(|| text.clone())
}

fn ipv6(text: &String) -> Option<String> {
    let valid = text.contains("::") && text.chars().all(|c| c == ':' || c.is_ascii_hexdigit());
    valid.then(|| text.clone())
}

fn ip(text: &String) -> Option<String> {
    ipv4(text).or_else(|| ipv6(text))
}

fn extract(
    forwarded: Option<&[u8]>,
    x_forwarded_for: Option<&[u8]>,
    peer: Option<&str>,
) -> Result<String, ClientIpError> {
    let forwarded = forwarded.map(<[u8]>::to_vec);
    let x_forwarded_for = x_forwarded_for.map(<[u8]>::to_vec);
    ClientIp::extract(
        forwarded.as_ref(),
        x_forwarded_for.as_ref(),
        peer.map(str::to_owned),
        ip,
        ipv6,
    )
    .map(|client| client.0)
}

fn forwarded(header: &[u8]) -> (String, Option<String>) {
    candidates(parse_forwarded(&header.to_vec()).unwrap().unwrap())
}

fn x_forwarded_for(header: &[u8]) -> (String, Option<String>) {
    candidates(parse_x_forwarded_for(&header.to_vec()).unwrap().unwrap())
}

#[test]
fn test_forwarded_1() {
    let addr = forwarded(b" for =192.0.2.43;  proto=https, for=198.51.100.17 ;by=\"[::1]:1234\";host=\"example.com\"");
    assert_eq!(addr.0, "192.0.2.43");
}

#[test]
fn test_forwarded_2() {
    let addr = forwarded(b"For=\"[2001:db8:cafe::17]:4711\"");
    assert_eq!(addr.0, "2001:db8:cafe::17");
}

#[test]
fn test_forwarded_3() {
    let addr = forwarded(b"  fOr =\"192.0.2.55\" ,  for =   \"192.0.2.43\" ,");
    assert_eq!(addr.0, "192.0.2.55");
}

#[test]
fn test_forwarded_with_ipv4_port() {
    let addr = forwarded(b"for=198.51.100.17:443");
    assert_eq!(addr.0, "198.51.100.17:443");
    assert_eq!(addr.1, Some("198.51.100.17".to_owned()));
    // The whole text is no address, so the text without the port is the client's.
    assert_eq!(settle(None, addr.1), Ok("198.51.100.17".to_owned()));
}

#[test]
fn test_forwarded_with_unquoted_ipv6_port() {
    let addr = forwarded(b"for=[2001:db8:cafe::17]:4711");
    assert_eq!(addr.0, "2001:db8:cafe::17");
}

#[test]
fn test_x_forwarded_for_1() {
    let addr = x_forwarded_for(b"192.0.2.21,192.0.2.34,2001:db8:cafe::17");
    assert_eq!(addr.0, "192.0.2.21");
}

#[test]
fn test_x_forwarded_for_2() {
    let addr = x_forwarded_for(b" 2001:db8:cafe::17, 192.0.2.21");
    assert_eq!(addr.0, "2001:db8:cafe::17");
}

#[test]
fn rejects_invalid_forwarded_header() {
    let parsed = parse_forwarded(&b"for".to_vec());
    assert!(matches!(
        parsed,
        Err(ClientIpError::InvalidForwardedHeader)
    ));
    let error = extract(Some(b"for"), None, Some("10.0.0.1"));
    assert!(matches!(error, Err(ClientIpError::InvalidForwardedHeader)));
}

#[test]
fn rejects_unparsable_forwarded_address() {
    let (address, without_port) = forwarded(b"for=_hidden");
    assert_eq!(address, "_hidden");
    assert_eq!(without_port, None);
    let error = extract(Some(b"for=_hidden"), None, None);
    assert!(matches!(error, Err(ClientIpError::AddrParseError)));
}

#[test]
fn the_client_is_found_through_headers_and_peer() {
    let client = extract(
        Some(b"proto=https;for=198.51.100.17:443"),
        Some(b"192.0.2.21"),
        Some("10.0.0.1"),
    );
    assert_eq!(client, Ok("198.51.100.17".to_owned()));
    let client = extract(Some(b"for=\"[2001:db8::17]:4711\""), None, None);
    assert_eq!(client, Ok("2001:db8::17".to_owned()));
    let client = extract(
        Some(b"proto=https"),
        Some(b" 192.0.2.21 , 192.0.2.34"),
        Some("10.0.0.1"),
    );
    assert_eq!(client, Ok("192.0.2.21".to_owned()));
    // An address in this header has no port.
    let client = extract(None, Some(b"192.0.2.21:80"), Some("10.0.0.1"));
    assert_eq!(client, Err(ClientIpError::AddrParseError));
    let client = extract(None, None, Some("10.0.0.1"));
    assert_eq!(client, Ok("10.0.0.1".to_owned()));
    let client = extract(None, None, None);
    assert_eq!(client, Err(ClientIpError::MissingRemoteAddr));
}

#[test]
fn the_forwarded_header_comes_before_the_others() {
    let both = select_client_ip(Some(Ok(Some(1u8))), Some(Ok(Some(2))), Some(3));
    assert_eq!(both, Ok(1));
    let second = select_client_ip(None, Some(Ok(Some(2u8))), Some(3));
    assert_eq!(second, Ok(2));
    let peer = select_client_ip(None, None, Some(3u8));
    assert_eq!(peer, Ok(3));
    let nobody: Result<u8, ClientIpError> = select_client_ip(None, None, None);
    assert!(matches!(nobody, Err(ClientIpError::MissingRemoteAddr)));
    assert_eq!(ClientIpError::InvalidForwardedHeader.status(), 400);
}

#[test]
fn header_pieces_are_cut_as_bytes() {
    assert_eq!(
        split_once(&b"a=b=c".to_vec(), 61),
        Some((b"a".to_vec(), b"b=c".to_vec()))
    );
    assert_eq!(split_once(&b"abc".to_vec(), 61), None);
    assert_eq!(trim(&b" x y  ".to_vec()), b"x y".to_vec());
    assert!(matches!(
        parse_ip_addr_with_optional_port("[::1]:80"),
        Ok(AddressText::Ipv6(address)) if address == "::1"
    ));
    assert!(parse_forwarded_for_value(&vec![34, 255, 34]).is_err());
    assert!(matches!(
        parse_x_forwarded_for(&vec![255]),
        Err(ClientIpError::InvalidUtf8)
    ));
}

fn params(pairs: &[(&str, &str)]) -> Params {
    Params::new(
        pairs
            .iter()
            .map(|(name, value)| ((*name).to_owned(), (*value).to_owned()))
            .collect(),
    )
}

fn number<T: std::str::FromStr>(text: &str) -> Result<T, String>
where
    T::Err: std::fmt::Display,
{
    text.parse::<T>().map_err(|error| error.to_string())
}

#[test]
fn deserializes_a_single_primitive() {
    let param = PathDeserializer::new(params(&[("id", "42")])).single().unwrap();
    let id: u64 = param.parse("u64", number(&param.value)).unwrap();
    assert_eq!(id, 42);
}

#[test]
fn a_value_is_read_from_the_stored_parameters() {
    let read = |captures: PathDeserializer| -> Result<u64, PathError> {
        let param = captures.single()?;
        param.parse("u64", number(&param.value))
    };
    let stored = params(&[("id", "42")]);
    assert_eq!(Path::extract(Some(&stored), read).unwrap().0, 42);
    let error = Path::extract(None, read).unwrap_err();
    assert_eq!(
        error.message(),
        "Invalid path parameters: the route captures 0 parameters, but the handler asks for a single value"
    );
    let stored = params(&[("id", "x")]);
    assert!(Path::extract(Some(&stored), read).is_err());
}

#[test]
fn deserializes_a_tuple_in_capture_order() {
    let mut de = PathDeserializer::new(params(&[("user", "ada"), ("post", "17")]));
    de.tuple(2).unwrap();
    let user = de.next().unwrap();
    assert_eq!(de.remaining(), 1);
    let post = de.next().unwrap();
    assert_eq!(user.value, "ada");
    let number: u32 = post.parse("u32", number(&post.value)).unwrap();
    assert_eq!(number, 17);
    assert!(de.next().is_none());
}

#[test]
fn deserializes_a_named_struct() {
    let mut de = PathDeserializer::new(params(&[("user", "ada"), ("post", "17")]));
    let mut fields = BTreeMap::new();
    while let Some(param) = de.next() {
        fields.insert(param.name, param.value);
    }
    assert_eq!(fields["user"], "ada");
    assert_eq!(fields["post"], "17");
}

#[test]
fn a_type_mismatch_names_the_parameter() {
    let mut de = PathDeserializer::new(params(&[("user", "ada"), ("post", "seventeen")]));
    de.next();
    let post = de.next().unwrap();
    let error = post
        .parse::<u32>("u32", number(&post.value))
        .unwrap_err();
    assert_eq!(error.status(), 400);
    let message = error.message();
    assert!(
        message.contains("`post`") && message.contains("u32"),
        "rejection should name the parameter and the type, got {message}"
    );
}

#[test]
fn a_tuple_of_the_wrong_arity_is_rejected() {
    let error = PathDeserializer::new(params(&[("id", "42")])).tuple(2).unwrap_err();
    assert_eq!(error.status(), 400);
    assert!(error.message().contains("asks for 2"));
}

#[test]
fn a_primitive_needs_exactly_one_capture() {
    let de = PathDeserializer::new(params(&[("user", "ada"), ("post", "17")]));
    let error = de.single().unwrap_err();
    assert_eq!(error.status(), 400);
    assert!(error.message().contains("single value"));
}

#[test]
fn an_optional_target_is_absent_without_captures() {
    assert!(PathDeserializer::new(Params::empty()).is_none());
    assert!(!PathDeserializer::new(params(&[("id", "1")])).is_none());
    assert_eq!(PathError::new("why").status(), 400);
    assert!(PathError::new("why").message().ends_with("why"));
    let variant = UnitVariant {
        value: "red".to_owned(),
    };
    assert!(variant.carries_data().message().contains("red"));
    assert_eq!(Path::<u64>::openapi().location, ParameterLocation::Path);
}

#[test]
fn parameters_are_read_by_name() {
    let params = params(&[("id", "42"), ("id", "43")]);
    assert_eq!(params.get("id").unwrap(), "42");
    let missing: MissingParam = params.get("name").unwrap_err();
    assert!(missing.message().contains("name"));
    assert_eq!(Params::extract(Some(&params)).len(), 2);
    assert_eq!(Params::extract(None).len(), 0);
}

fn parse_query<T: serde::de::DeserializeOwned>(query: Option<&str>) -> Result<T, QueryError> {
    let parsed = Query::extract(query, |text: &String| {
        serde_html_form::from_str(text).map_err(|error| error.to_string())
    });
    parsed.map(|query| query.0)
}

#[test]
fn collects_repeated_keys_into_a_sequence() {
    let filter: BTreeMap<String, Vec<String>> = parse_query(Some("tags=a&tags=b")).unwrap();
    assert_eq!(filter["tags"], vec!["a".to_owned(), "b".to_owned()]);
}

#[test]
fn an_absent_sequence_stays_none() {
    let filter: BTreeMap<String, Vec<String>> = parse_query(None).unwrap();
    assert_eq!(filter.get("tags"), None);
}

#[test]
fn parses_struct_from_query_string() {
    let search: BTreeMap<String, String> = parse_query(Some("q=rust&page=2")).unwrap();
    assert_eq!(search["q"], "rust");
    assert_eq!(search["page"].parse::<u8>(), Ok(2));
}

#[test]
fn surfaces_bad_request_for_invalid_payload() {
    let error = parse_query::<BTreeMap<String, u8>>(Some("page=two")).unwrap_err();
    assert_eq!(error.status(), 400);
    let message = error.message();
    assert!(
        message.starts_with("Failed to parse query string: "),
        "rejection should keep its prefix, got {message}"
    );
    assert!(
        message.contains("invalid digit"),
        "rejection should carry the parser's detail, got {message}"
    );
}

fn typed<H: Header>(headers: &HeaderMap) -> Result<TypedHeader<H>, TypedHeaderError> {
    TypedHeader::extract(
        H::name().as_str(),
        headers.contains_key(H::name()),
        headers.typed_get::<H>(),
    )
}

#[test]
fn reads_a_typed_request_header() {
    let mut headers = HeaderMap::new();
    headers.insert(USER_AGENT, HeaderValue::from_static("skyzen/1"));
    let agent = typed::<UserAgent>(&headers).unwrap().0;
    assert_eq!(agent.as_str(), "skyzen/1");
}

#[test]
fn an_absent_header_names_itself() {
    let error = typed::<UserAgent>(&HeaderMap::new()).unwrap_err();
    assert_eq!(error.status(), 400);
    assert!(error.message().contains("`user-agent`"));
    assert!(matches!(error, TypedHeaderError::Missing(ref name) if name == "user-agent"));
}

#[test]
fn a_malformed_header_is_distinguished_from_an_absent_one() {
    let mut headers = HeaderMap::new();
    headers.insert(CONTENT_TYPE, HeaderValue::from_static("not a media type"));
    let error = typed::<ContentType>(&headers).unwrap_err();
    assert!(matches!(error, TypedHeaderError::Invalid(_)));
    assert!(error.message().contains("malformed"));
    assert_eq!(
        TypedHeader::<UserAgent>::openapi(4).location,
        ParameterLocation::Header
    );
    assert_eq!(TypedHeader::<UserAgent>::openapi(4).schema, Some(4));
}
