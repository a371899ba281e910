//! What built-in types describe of themselves.

use skyzen::openapi::builtins::{
    client_ip_schema, params_schema, peer_addr_schema, Form, IgnoreOpenApi, Json, PartialSchema,
    PrettyJson, Query, SchemaProbe, SimpleType, State,
};
use skyzen::openapi::schema::SchemaRef;

struct Payload;

impl PartialSchema for Payload {
    fn schema() -> SchemaRef {
        SchemaRef::Declared(11)
    }
}

fn schema_of<T: PartialSchema>() -> SchemaRef {
    T::schema()
}

#[test]
fn built_in_route_and_address_schemas_expose_stable_metadata() {
    assert_eq!(params_schema().title, Some("Params"));
    assert_eq!(params_schema().kind, SimpleType::Object);
    assert_eq!(
        params_schema().description,
        "Route parameters extracted from the current path"
    );
    assert_eq!(client_ip_schema().kind, SimpleType::Text);
    assert_eq!(
        client_ip_schema().description,
        "Client IP address (may be forwarded)"
    );
    assert_eq!(peer_addr_schema().kind, SimpleType::Text);
}

#[test]
fn form_and_query_wrappers_forward_inner_schema() {
    let inner = schema_of::<Payload>();
    assert_eq!(schema_of::<Form<Payload>>(), inner);
    assert_eq!(schema_of::<Query<Payload>>(), inner);
}

#[test]
fn json_wrappers_forward_inner_schema() {
    let inner = schema_of::<Payload>();
    assert_eq!(schema_of::<Json<Payload>>(), inner);
    assert_eq!(schema_of::<PrettyJson<Payload>>(), inner);
}

#[test]
fn state_and_ignore_openapi_use_empty_schema() {
    assert_eq!(schema_of::<State<String>>(), SchemaRef::Anything);
    assert_eq!(schema_of::<IgnoreOpenApi<String>>(), SchemaRef::Anything);
}

#[test]
fn a_probe_finds_the_schema_a_type_declares() {
    assert_eq!(
        SchemaProbe::<Payload>::new().maybe_schema(),
        Some(SchemaRef::Declared(11))
    );
}
