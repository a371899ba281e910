//! Behind a functions host: mounting triggers and answering invocations.

use serde_json::Value;

use skyzen::runtime::azure::{
    acknowledged, answer, check_route_collision, count_of, decode_message, failed, judge_route,
    mount, succeeded, tagged_body, BindingValue, EnvelopeError, FunctionsHost, Invocation,
    InvokeRequest, InvokeResponse, MetadataValue, MountError, QueueTrigger,
    CUSTOM_HANDLER_PORT_ENV,
};
use skyzen::runtime::consumer::{QueueBatchDisposition, QueueMessageDisposition, QueueRetry};

const TRIGGER: QueueTrigger = QueueTrigger {
    function: "process",
    queue: "jobs",
};

fn texts(list: &[&str]) -> Vec<String> {
    list.iter().map(|text| (*text).to_owned()).collect()
}

// The envelope a host sends, read from its JSON.
fn envelope(json: &str) -> InvokeRequest {
    let value: Value = serde_json::from_str(json).expect("valid JSON");
    let mut request = InvokeRequest {
        data: vec![],
        metadata: vec![],
    };
    for (name, value) in value["Data"].as_object().expect("data") {
        let binding = match value {
            Value::String(text) => BindingValue::Text(text.clone()),
            other => BindingValue::Json(serde_json::to_vec(other).expect("bytes")),
        };
        request.data.push((name.clone(), binding));
    }
    for (name, value) in value["Metadata"].as_object().expect("metadata") {
        let value = match value {
            Value::Number(number) => match number.as_u64() {
                Some(number) => MetadataValue::Number(number),
                None => MetadataValue::Other,
            },
            Value::String(text) => MetadataValue::Text(text.clone()),
            _ => MetadataValue::Other,
        };
        request.metadata.push((name.clone(), value));
    }
    request
}

const INVOCATION: &str = r#"{"Data":{"message":"{ \"job\": \"resize\" }"},"Metadata":{"DequeueCount":1,"Id":"800ae4b3-bdd2-4c08-badd-f08e5a34b865"}}"#;
const BASE64_INVOCATION: &str =
    r#"{"Data":{"message":"skyzen-b64:AAH/"},"Metadata":{"DequeueCount":"2"}}"#;

#[test]
fn a_queue_invocation_decodes_into_a_one_message_batch() {
    let batch = envelope(INVOCATION).into_batch(&TRIGGER, 7).unwrap_or_else(|error| {
        panic!("{}", error.message())
    });

    assert_eq!(batch.queue, "jobs");
    assert_eq!(batch.messages.len(), 1);
    assert_eq!(batch.messages[0].body, b"{ \"job\": \"resize\" }");
    assert_eq!(batch.messages[0].id, "800ae4b3-bdd2-4c08-badd-f08e5a34b865");
    assert_eq!(batch.messages[0].timestamp_ms, 7);
    assert_eq!(envelope(INVOCATION).attempts(), 1);
}

#[test]
fn the_storage_queue_envelope_is_reversed_the_way_the_producer_wrote_it() {
    let request = envelope(BASE64_INVOCATION);
    assert_eq!(request.attempts(), 2);
    let batch = request.into_batch(&TRIGGER, 0).unwrap_or_else(|error| {
        panic!("{}", error.message())
    });
    assert_eq!(batch.messages[0].body, vec![0x00, 0x01, 0xff]);
}

#[test]
fn escaped_and_malformed_bodies_are_told_apart() {
    assert_eq!(
        decode_message(&BindingValue::Text("skyzen-utf8:skyzen-b64:x".to_owned())).ok(),
        Some(b"skyzen-b64:x".to_vec())
    );
    let error = decode_message(&BindingValue::Text("skyzen-b64:***".to_owned())).err().unwrap();
    assert!(matches!(error, EnvelopeError::MalformedBase64(_)));
    assert!(tagged_body(Ok(vec![1])).is_ok());
    assert!(tagged_body(Err("bad".to_owned())).is_err());
    assert_eq!(count_of(&MetadataValue::Text("12".to_owned())), Some(12));
    assert_eq!(count_of(&MetadataValue::Number(3)), Some(3));
    assert_eq!(count_of(&MetadataValue::Other), None);
}

#[test]
fn an_invocation_carrying_more_than_the_trigger_binding_is_refused() {
    let envelope = envelope(r#"{"Data":{"message":"one","extra":"two"},"Metadata":{}}"#);
    let error = match envelope.into_batch(&TRIGGER, 0) {
        Ok(_) => panic!("a queue trigger declares exactly one binding"),
        Err(error) => error,
    };
    assert!(matches!(error, EnvelopeError::UnexpectedBindings(_)));
    assert!(error.message().contains("extra"), "{}", error.message());
}

#[test]
fn a_message_the_host_parsed_as_json_keeps_its_bytes() {
    let envelope = envelope(r#"{"Data":{"message":{"job":"resize"}},"Metadata":{}}"#);
    let batch = envelope.into_batch(&TRIGGER, 0).unwrap_or_else(|error| {
        panic!("{}", error.message())
    });
    assert_eq!(batch.messages[0].body, br#"{"job":"resize"}"#);
}

#[test]
fn a_successful_invocation_answers_with_the_hosts_own_envelope() {
    let response = succeeded();
    assert_eq!(response.status, 200);
    assert!(response.logs.is_empty());
}

#[test]
fn a_failed_invocation_answers_with_a_status_the_host_retries() {
    let response = failed("the queue handler failed");
    assert_eq!(response.status, 500);
    assert_eq!(
        response.logs,
        vec!["skyzen: the queue handler failed".to_owned()]
    );
}

fn mounted(
    routes: &[&str],
    has_handler: bool,
    triggers: Vec<QueueTrigger>,
) -> Result<FunctionsHost<&'static str, u8>, MountError> {
    mount("router", 0u8, has_handler, &texts(routes), triggers)
}

#[test]
fn a_trigger_that_shadows_a_literal_route_refuses_to_mount() {
    let error = match mounted(&["/process", "/health"], true, vec![TRIGGER]) {
        Ok(_) => panic!("the route and the trigger cannot both own /process"),
        Err(error) => error,
    };
    assert!(matches!(error, MountError::RouteCollision { .. }));
    let rendered = error.message();
    assert!(rendered.contains("process"), "{rendered}");
}

#[test]
fn a_trigger_beside_unrelated_routes_mounts_cleanly() {
    assert!(mounted(&["/health", "/jobs/{id}"], true, vec![TRIGGER]).is_ok());
}

#[test]
fn a_parameterized_route_that_would_also_match_is_a_warning_not_a_refusal() {
    assert!(check_route_collision("process", &texts(&["/{name}"])).is_ok());
    assert!(judge_route("process", Some("/{name}")).is_ok());
    assert!(judge_route("process", None).is_ok());
    assert!(judge_route("process", Some("/process")).is_err());
}

#[test]
fn routes_that_are_refused_do_not_stand_in_the_way() {
    let routes = texts(&[
        "/{a}/\u{e9}",
        "/{a}/\u{e8}",
        "/{a}/\u{ea}{*x}/y",
        "/{a}/\u{ea}{*x}/y",
        "/{*z}",
        "/process",
    ]);
    assert!(check_route_collision("process", &routes).is_err());
    assert!(check_route_collision("other", &routes).is_ok());
}

#[test]
fn a_trigger_declared_twice_refuses_to_mount() {
    assert!(matches!(
        mounted(&[], true, vec![TRIGGER, TRIGGER]),
        Err(MountError::DuplicateFunction { .. })
    ));
}

#[test]
fn a_trigger_with_no_queue_handler_refuses_to_mount() {
    let error = match mounted(&[], false, vec![TRIGGER]) {
        Ok(_) => panic!("there is nothing to hand the message to"),
        Err(error) => error,
    };
    assert!(matches!(error, MountError::NoQueueHandler { .. }));
    assert!(error.message().contains("#[skyzen::queue]"));
}

#[test]
fn an_application_with_no_triggers_mounts_and_changes_nothing() {
    assert!(mounted(&["/health"], false, vec![]).is_ok());
}

// What answers a request: an invocation's response, or nothing where the router answers.
fn respond(method: &str, path: &str, body: &str) -> Option<InvokeResponse> {
    let host = mounted(&["/health"], true, vec![TRIGGER])
        .unwrap_or_else(|error| panic!("{}", error.message()));
    assert_eq!(*host.endpoint(), "router");
    assert_eq!(*host.consumers(), 0);
    let trigger = host.trigger_for(method, path)?;
    if serde_json::from_str::<Value>(body).is_err() {
        let error = EnvelopeError::Malformed("expected value".to_owned());
        return Some(answer(Invocation::Unreadable(error)));
    }
    Some(match envelope(body).into_batch(&trigger, 0) {
        Ok(_) => answer(Invocation::Handled(QueueBatchDisposition::ack_all())),
        Err(error) => answer(Invocation::Unreadable(error)),
    })
}

#[test]
fn a_posted_invocation_at_the_trigger_path_reaches_the_queue_handler() {
    assert_eq!(respond("POST", "/process", INVOCATION).unwrap().status, 200);
}

#[test]
fn another_method_at_the_trigger_path_is_the_routers_to_answer() {
    assert!(respond("GET", "/process", "").is_none());
}

#[test]
fn a_post_to_any_other_path_is_the_routers_to_answer() {
    assert!(respond("POST", "/health", "").is_none());
}

#[test]
fn an_invocation_the_handler_cannot_be_given_tells_the_host_to_redeliver() {
    assert_eq!(
        respond("POST", "/process", "not an envelope").unwrap().status,
        500
    );
}

#[test]
fn only_an_acknowledged_invocation_is_done() {
    let retry = QueueRetry { delay_seconds: None };
    assert!(acknowledged(&QueueBatchDisposition::ack_all()));
    assert!(!acknowledged(&QueueBatchDisposition::retry_all(retry)));
    assert!(!acknowledged(&QueueBatchDisposition::PerMessage(vec![
        QueueMessageDisposition::Retry(retry)
    ])));
    let retried = answer(Invocation::Handled(QueueBatchDisposition::retry_all(retry)));
    assert_eq!(retried.status, 500);
    assert_eq!(answer(Invocation::Failed).status, 500);
    assert!(EnvelopeError::BodyUnavailable.message().contains("consumed"));
    assert!(EnvelopeError::Unreadable("reset".to_owned()).message().contains("reset"));
    assert_eq!(CUSTOM_HANDLER_PORT_ENV, "FUNCTIONS_CUSTOMHANDLER_PORT");
}
