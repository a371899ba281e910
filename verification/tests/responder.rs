//! Responders: event streams and JSON.

use skyzen::middleware::headers::HeaderUpdate;
use skyzen::openapi::builtins::PrettyJson;
use skyzen::responder::json::{respond, PrettyJsonError};
use skyzen::responder::sse::{
    stream_headers, Event, IntoStream, KeepAlive, KeepAliveStep, Polled, SendError,
    DEFAULT_CHANNEL_CAPACITY,
};

fn wire(event: Event) -> String {
    String::from_utf8(event.finalize()).unwrap()
}

fn pairs(updates: &[HeaderUpdate]) -> Vec<(String, String)> {
    let mut list = Vec::new();
    for update in updates {
        if let HeaderUpdate::Insert(name, value) = update {
            list.push((name.clone(), value.clone()));
        }
    }
    list
}

#[test]
fn formats_data_event_with_id_and_event_name() {
    let event = Event::data("hello");
    assert!(event.can_set_id() && event.can_set_event());
    let bytes = event.id("evt-1").event("message").finalize();

    assert_eq!(
        String::from_utf8(bytes).unwrap(),
        "data:hello\nid:evt-1\nevent:message\n\n"
    );
}

#[test]
fn json_event_serializes_payload() {
    assert_eq!(
        wire(Event::json("{\"name\":\"skyzen\"}")),
        "data:{\"name\":\"skyzen\"}\n\n"
    );
}

#[test]
fn comment_and_retry_events_have_expected_wire_format() {
    assert_eq!(wire(Event::comment("keepalive")), ":keepalive\n\n");
    assert_eq!(wire(Event::retry(1500)), "retry:1500\n\n");
    assert_eq!(
        wire(Event::retry(u128::MAX)),
        "retry:340282366920938463463374607431768211455\n\n"
    );
}

#[test]
fn data_event_splits_multiple_lines() {
    assert_eq!(
        wire(Event::data("hello\nworld")),
        "data:hello\ndata:world\n\n"
    );
}

#[test]
fn data_event_handles_crlf_and_cr_terminators() {
    assert_eq!(
        wire(Event::data("a\r\nb\rc")),
        "data:a\ndata:b\ndata:c\n\n"
    );
}

#[test]
fn id_strips_stray_newlines_to_protect_framing() {
    assert_eq!(wire(Event::data("x").id("a\nb")), "data:x\nid:ab\n\n");
}

#[test]
fn a_field_can_be_set_once() {
    let event = Event::data("x").id("1");
    assert!(!event.can_set_id());
    assert!(event.can_set_event());
    assert!(!Event::data("x").event("e").can_set_event());
}

#[test]
fn an_event_is_one_block() {
    let texts = ["", "\n", "\r\n\r\n", "a\n\nb\r\rc\n", " x", "\u{e9}\u{20ac}\n"];
    for text in texts {
        for event in [
            Event::data(text),
            Event::data(text).id(text).event(text),
            Event::data("x").event(text).id(text),
            Event::comment(text),
            Event::retry(5),
        ] {
            let bytes = event.finalize();
            assert!(!bytes.contains(&b'\r'));
            assert!(bytes.ends_with(b"\n\n"));
            let blank = bytes.windows(2).filter(|pair| pair == b"\n\n").count();
            assert_eq!(blank, 1);
        }
    }
}

#[test]
fn only_data_events_take_an_id_and_a_name() {
    for event in [Event::comment("c"), Event::retry(5)] {
        assert!(!event.can_set_id());
        assert!(!event.can_set_event());
    }
    for event in [Event::data("x"), Event::json("{}")] {
        assert!(event.can_set_id());
        let named = event.event("e");
        assert!(named.can_set_id());
        let marked = named.id("1");
        assert!(!marked.can_set_id());
        assert!(!marked.can_set_event());
    }
}

// What a client reads back of the data lines of an event.
fn received(wire: &str) -> String {
    let mut lines = Vec::new();
    for line in wire.split('\n') {
        if let Some(value) = line.strip_prefix("data:") {
            lines.push(value);
        }
    }
    lines.join("\n")
}

#[test]
fn a_payload_reaches_the_client() {
    for payload in ["", "one", "a\nb", "\n", "a\n", "é\n\n☃"] {
        assert_eq!(received(&wire(Event::data(payload))), payload);
    }
}

#[test]
fn from_stream_sets_headers_and_serializes_event_stream() {
    assert_eq!(
        pairs(&stream_headers()),
        vec![
            ("content-type".to_owned(), "text/event-stream".to_owned()),
            ("cache-control".to_owned(), "no-cache".to_owned()),
        ]
    );
    let mut stream: IntoStream<std::vec::IntoIter<Result<Event, ()>>, ()> =
        IntoStream::new(vec![Ok(Event::data("hello"))].into_iter());
    let mut inner = stream.into_inner();
    let first = IntoStream::<(), ()>::item(inner.next()).unwrap().unwrap();
    assert_eq!(first, b"data:hello\n\n");
    stream = IntoStream::new(inner);
    assert!(IntoStream::<(), ()>::item(stream.into_inner().next()).is_none());
}

#[test]
fn sender_reports_error_after_stream_is_dropped() {
    assert_eq!(SendError.status(), 500);
    assert!(!SendError.message().is_empty());
    assert!(DEFAULT_CHANNEL_CAPACITY > 0);
}

#[test]
fn keep_alive_sends_a_comment_while_the_stream_is_idle() {
    let mut keep_alive = KeepAlive::new();
    assert!(matches!(
        keep_alive.on_stream(Polled::<u8>::Pending),
        KeepAliveStep::AskTimer
    ));
    match keep_alive.on_timer::<u8>(true) {
        KeepAliveStep::Heartbeat(bytes) => assert_eq!(bytes, b":\n\n"),
        _ => panic!("an idle stream is kept alive"),
    }
    assert!(matches!(
        keep_alive.on_timer::<u8>(false),
        KeepAliveStep::Wait
    ));
    assert!(matches!(
        keep_alive.on_stream(Polled::Item(7u8)),
        KeepAliveStep::Forward(7)
    ));
    assert!(matches!(
        keep_alive.on_stream(Polled::<u8>::End),
        KeepAliveStep::Done
    ));
    assert!(keep_alive.finished());
}

#[test]
fn writes_pretty_json_body_and_content_type() {
    let body = "{\n  \"name\": \"Lexo\",\n  \"age\": 17\n}";
    let payload = respond(Some(body.as_bytes().to_vec())).unwrap();
    assert_eq!(
        pairs(&payload.updates),
        vec![("content-type".to_owned(), "application/json".to_owned())]
    );
    assert_eq!(payload.body, body.as_bytes());
}

#[test]
fn surfaces_serialization_errors() {
    let error = respond(None).err().unwrap();
    assert_eq!(error.status(), 500);
    assert_eq!(error.message(), PrettyJsonError.message());
}

#[test]
fn openapi_includes_wrapped_schema_and_dependencies() {
    let schema = PrettyJson::<u8>::openapi(Some(2));
    assert_eq!(schema.content_type, Some("application/json".to_owned()));
    assert_eq!(schema.schema, Some(2));
    assert_eq!(schema.status, None);
}
