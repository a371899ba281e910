//! Durable objects: connections, storage, alarms and events.

use std::collections::hash_map::DefaultHasher;
use std::hash::{Hash, Hasher};
use std::sync::{Arc, Mutex};

use serde_json::Value;

use skyzen::durable::alarm::{current_unix_ms, timer_delay, AlarmScheduler};
use skyzen::durable::connections::{
    DurableConnections, DurableConnectionsInner, DurableConnectionsNotConfigured,
};
use skyzen::durable::context::DurableContext;
use skyzen::durable::error::{closed_websocket, invalid_url, lock_poisoned, DurableObjectError};
use skyzen::durable::id::DurableObjectId;
use skyzen::durable::kv::{DurableKvStore, ListOptions};
use skyzen::durable::native::{
    alarm_request, conclude_event, finish_event, on_command, on_incoming, EventOutcome, Incoming,
    NativeConnections, NativeDurableNamespace, ObjectState, SessionAction, SocketCommand,
    WebSocketSession, ALARM_REQUEST_PATH,
};
use skyzen::durable::websocket::{
    HibernationError, HibernationWebSocketUpgrade, WebSocketConnection, WebSocketConnectionInner, WebSocketEvent,
    WebSocketMessage,
};

#[derive(Debug, Default)]
struct MockSocketState {
    text_messages: Vec<String>,
    binary_messages: Vec<Vec<u8>>,
    close_calls: Vec<(u16, String)>,
    tags: Vec<String>,
    attachment: Option<Vec<u8>>,
    fail_text: Option<DurableObjectError>,
    fail_binary: Option<DurableObjectError>,
}

struct MockSocketInner {
    state: Arc<Mutex<MockSocketState>>,
}

fn error_clone(error: &DurableObjectError) -> DurableObjectError {
    match error {
        DurableObjectError::Runtime(message) => DurableObjectError::Runtime(message.clone()),
        DurableObjectError::Serialization(message) => {
            DurableObjectError::Serialization(message.clone())
        }
        DurableObjectError::WebSocket(message) => DurableObjectError::WebSocket(message.clone()),
    }
}

impl WebSocketConnectionInner for MockSocketInner {
    fn send_text(&self, text: &str) -> Result<(), DurableObjectError> {
        let mut state = self.state.lock().unwrap();
        if let Some(error) = &state.fail_text {
            return Err(error_clone(error));
        }
        state.text_messages.push(text.to_owned());
        Ok(())
    }

    fn send_binary(&self, data: &[u8]) -> Result<(), DurableObjectError> {
        let mut state = self.state.lock().unwrap();
        if let Some(error) = &state.fail_binary {
            return Err(error_clone(error));
        }
        state.binary_messages.push(data.to_vec());
        Ok(())
    }

    fn close(&self, code: u16, reason: &str) -> Result<(), DurableObjectError> {
        let mut state = self.state.lock().unwrap();
        state.close_calls.push((code, reason.to_owned()));
        Ok(())
    }

    fn tags(&self) -> Result<Vec<String>, DurableObjectError> {
        Ok(self.state.lock().unwrap().tags.clone())
    }

    fn get_attachment_raw(&self) -> Result<Option<Vec<u8>>, DurableObjectError> {
        Ok(self.state.lock().unwrap().attachment.clone())
    }

    fn set_attachment_raw(&self, data: &[u8]) -> Result<(), DurableObjectError> {
        self.state.lock().unwrap().attachment = Some(data.to_vec());
        Ok(())
    }
}

#[derive(Debug, Default)]
struct MockConnectionsState {
    sockets: Vec<Arc<Mutex<MockSocketState>>>,
    auto_response: Option<(String, String)>,
    clear_calls: usize,
    fail_all: Option<DurableObjectError>,
}

struct MockConnectionsInner {
    state: Arc<Mutex<MockConnectionsState>>,
}

fn socket_connection(state: Arc<Mutex<MockSocketState>>) -> WebSocketConnection {
    WebSocketConnection::new(Box::new(MockSocketInner { state }))
}

impl DurableConnectionsInner for MockConnectionsInner {
    fn all(&self) -> Result<Vec<WebSocketConnection>, DurableObjectError> {
        let state = self.state.lock().unwrap();
        if let Some(error) = &state.fail_all {
            return Err(error_clone(error));
        }
        Ok(state.sockets.iter().cloned().map(socket_connection).collect())
    }

    fn by_tag(&self, tag: &str) -> Result<Vec<WebSocketConnection>, DurableObjectError> {
        let state = self.state.lock().unwrap();
        Ok(state
            .sockets
            .iter()
            .filter(|socket| socket.lock().unwrap().tags.iter().any(|value| value == tag))
            .cloned()
            .map(socket_connection)
            .collect())
    }

    fn set_auto_response(&self, request: &str, response: &str) -> Result<(), DurableObjectError> {
        let mut state = self.state.lock().unwrap();
        state.auto_response = Some((request.to_owned(), response.to_owned()));
        Ok(())
    }

    fn clear_auto_response(&self) -> Result<(), DurableObjectError> {
        let mut state = self.state.lock().unwrap();
        state.auto_response = None;
        state.clear_calls += 1;
        Ok(())
    }
}

fn socket(tags: &[&str]) -> Arc<Mutex<MockSocketState>> {
    Arc::new(Mutex::new(MockSocketState {
        tags: tags.iter().map(|tag| (*tag).to_owned()).collect(),
        ..MockSocketState::default()
    }))
}

fn connections_with_state(state: Arc<Mutex<MockConnectionsState>>) -> DurableConnections {
    DurableConnections::new(Box::new(MockConnectionsInner { state }))
}

fn connections_of(sockets: Vec<Arc<Mutex<MockSocketState>>>) -> DurableConnections {
    connections_with_state(Arc::new(Mutex::new(MockConnectionsState {
        sockets,
        ..MockConnectionsState::default()
    })))
}

fn to_json(value: &Value) -> Result<String, String> {
    serde_json::to_string(value).map_err(|error| error.to_string())
}

#[test]
fn broadcast_json_sends_to_all_connections() {
    let first = socket(&["room-1"]);
    let second = socket(&["room-1", "admin"]);
    let connections = connections_of(vec![Arc::clone(&first), Arc::clone(&second)]);

    let mut payload = serde_json::Map::new();
    payload.insert("room".to_owned(), Value::from("room-1"));
    connections
        .broadcast_json(to_json(&Value::Object(payload)))
        .unwrap();

    assert_eq!(
        first.lock().unwrap().text_messages,
        vec![r#"{"room":"room-1"}"#.to_owned()]
    );
    assert_eq!(
        second.lock().unwrap().text_messages,
        vec![r#"{"room":"room-1"}"#.to_owned()]
    );
}

#[test]
fn by_tag_returns_only_matching_connections() {
    let room = socket(&["room-1"]);
    let other = socket(&["room-2"]);
    let connections = connections_of(vec![room, other]);

    let matches = connections.by_tag("room-1").unwrap_or_else(|_| panic!("by_tag"));

    assert_eq!(matches.len(), 1);
    assert_eq!(matches[0].tags().unwrap(), vec!["room-1".to_owned()]);
}

#[test]
fn broadcast_binary_propagates_socket_failures() {
    let failing = socket(&["room-1"]);
    failing.lock().unwrap().fail_binary =
        Some(DurableObjectError::WebSocket("send failed".to_owned()));
    let connections = connections_of(vec![failing]);

    let error = connections.broadcast_binary(b"ping").unwrap_err();

    assert!(matches!(error, DurableObjectError::WebSocket(_)));
}

#[test]
fn a_broadcast_reaches_each_connection_until_one_fails() {
    let first = socket(&[]);
    let failing = socket(&[]);
    let last = socket(&[]);
    failing.lock().unwrap().fail_text = Some(DurableObjectError::WebSocket("gone".to_owned()));
    let connections = connections_of(vec![
        Arc::clone(&first),
        Arc::clone(&failing),
        Arc::clone(&last),
    ]);

    let error = connections.broadcast_text("hi").unwrap_err();

    assert_eq!(error.message(), closed_message("gone"));
    assert_eq!(first.lock().unwrap().text_messages, vec!["hi".to_owned()]);
    assert!(last.lock().unwrap().text_messages.is_empty());
}

fn closed_message(detail: &str) -> String {
    DurableObjectError::WebSocket(detail.to_owned()).message()
}

#[test]
fn a_broadcast_that_cannot_be_serialized_reaches_nobody() {
    let only = socket(&[]);
    let connections = connections_of(vec![Arc::clone(&only)]);

    let error = connections.broadcast_json(Err("no".to_owned())).unwrap_err();

    assert!(matches!(error, DurableObjectError::Serialization(_)));
    assert!(only.lock().unwrap().text_messages.is_empty());
}

#[test]
fn listing_failures_stop_a_broadcast() {
    let connections = connections_with_state(Arc::new(Mutex::new(MockConnectionsState {
        fail_all: Some(DurableObjectError::Runtime("down".to_owned())),
        ..MockConnectionsState::default()
    })));
    assert!(connections.all().is_err());
    assert!(matches!(
        connections.broadcast_text("hi"),
        Err(DurableObjectError::Runtime(_))
    ));
}

#[test]
fn auto_response_operations_delegate_to_inner_handle() {
    let state = Arc::new(Mutex::new(MockConnectionsState::default()));
    let connections = connections_with_state(Arc::clone(&state));

    connections.set_auto_response("ping", "pong").unwrap();
    assert_eq!(
        state.lock().unwrap().auto_response,
        Some(("ping".to_owned(), "pong".to_owned()))
    );
    connections.clear_auto_response().unwrap();

    let state = state.lock().unwrap();
    assert_eq!(state.auto_response, None);
    assert_eq!(state.clear_calls, 1);
}

#[test]
fn extractor_reads_injected_connections_from_request_extensions() {
    let state = Arc::new(Mutex::new(MockConnectionsState::default()));
    let connections = connections_with_state(state);

    let extracted =
        DurableConnections::extract(Some(connections)).unwrap_or_else(|_| panic!("extract"));

    extracted.set_auto_response("ping", "pong").unwrap();
}

#[test]
fn extractor_errors_when_connections_are_missing() {
    match DurableConnections::extract(None) {
        Ok(_) => panic!("connections out of nothing"),
        Err(error) => {
            assert_eq!(error.status(), 500);
            assert_eq!(error.message(), DurableConnectionsNotConfigured.message());
        }
    }
}

fn attachment(room: &str, revision: u32) -> Value {
    let mut map = serde_json::Map::new();
    map.insert("revision".to_owned(), Value::from(revision));
    map.insert("room".to_owned(), Value::from(room));
    Value::Object(map)
}

fn parse(bytes: &Vec<u8>) -> Result<Value, String> {
    serde_json::from_slice(bytes).map_err(|error| error.to_string())
}

#[test]
fn send_json_serializes_payload_as_text_message() {
    let state = Arc::new(Mutex::new(MockSocketState::default()));
    let connection = socket_connection(Arc::clone(&state));

    connection
        .send_json(Ok(r#"{"room":"room-1","revision":7}"#.to_owned()))
        .unwrap();

    assert_eq!(
        state.lock().unwrap().text_messages,
        vec![r#"{"room":"room-1","revision":7}"#.to_owned()]
    );
}

#[test]
fn send_json_rejects_non_finite_numbers() {
    let connection = socket_connection(Arc::new(Mutex::new(MockSocketState::default())));

    let error = connection
        .send_json(Err("expected serialization failure".to_owned()))
        .unwrap_err();

    assert!(matches!(error, DurableObjectError::Serialization(_)));
    assert!(error.message().contains("expected serialization failure"));
}

#[test]
fn attachment_round_trips_through_raw_storage() {
    let state = Arc::new(Mutex::new(MockSocketState::default()));
    let connection = socket_connection(Arc::clone(&state));
    let attachment = attachment("general", 3);

    connection
        .set_attachment(serde_json::to_vec(&attachment).map_err(|error| error.to_string()))
        .unwrap();
    let restored = connection.attachment(parse).unwrap().unwrap();

    assert_eq!(restored, attachment);
    assert!(state.lock().unwrap().attachment.is_some());
}

#[test]
fn attachment_reports_deserialization_errors_for_invalid_bytes() {
    let state = Arc::new(Mutex::new(MockSocketState {
        attachment: Some(b"{".to_vec()),
        ..MockSocketState::default()
    }));
    let connection = socket_connection(state);

    let error = connection.attachment(parse).unwrap_err();

    assert!(matches!(error, DurableObjectError::Serialization(_)));
}

#[test]
fn a_connection_without_an_attachment_has_none() {
    let connection = socket_connection(Arc::new(Mutex::new(MockSocketState::default())));
    assert_eq!(connection.attachment(parse).unwrap(), None);
    assert!(matches!(
        connection.set_attachment(Err("no".to_owned())),
        Err(DurableObjectError::Serialization(_))
    ));
}

#[test]
fn close_and_tags_delegate_to_inner_handle() {
    let state = Arc::new(Mutex::new(MockSocketState {
        tags: vec!["room-1".to_owned(), "admin".to_owned()],
        ..MockSocketState::default()
    }));
    let connection = socket_connection(Arc::clone(&state));

    assert_eq!(
        connection.tags().unwrap(),
        vec!["room-1".to_owned(), "admin".to_owned()]
    );
    connection.close(1000, "done").unwrap();
    connection.send_binary(b"bye").unwrap();

    assert_eq!(
        state.lock().unwrap().close_calls,
        vec![(1000, "done".to_owned())]
    );
    assert_eq!(state.lock().unwrap().binary_messages, vec![b"bye".to_vec()]);
}

#[test]
fn hibernation_upgrade_preserves_tag_order() {
    let upgrade = HibernationWebSocketUpgrade::new().tag("room-1").tag("presence");
    assert_eq!(upgrade.tags().len(), 2);
    let tags = upgrade.into_tags();

    assert_eq!(tags, vec!["room-1".to_owned(), "presence".to_owned()]);
}

#[test]
fn a_hibernation_upgrade_switches_protocols_once_its_socket_is_accepted() {
    let upgrade = || HibernationWebSocketUpgrade::new().tag("room-1");
    let accept = |state: &u8, tags: &[String]| -> Result<String, DurableObjectError> {
        if *state == 1 {
            Ok(tags.join(","))
        } else {
            Err(closed_websocket())
        }
    };
    let answer = upgrade().respond_to(Some(1u8), accept).unwrap();
    assert_eq!(answer.status, 101);
    assert_eq!(answer.client, "room-1");
    let refused = upgrade().respond_to(Some(2u8), accept).unwrap_err();
    assert_eq!(refused, HibernationError::AcceptFailed);
    assert_eq!(refused.status(), 500);
    assert_eq!(
        refused.message(),
        "Failed to accept hibernation websocket connection."
    );
    let missing = upgrade().respond_to(None::<u8>, accept).unwrap_err();
    assert_eq!(missing, HibernationError::DurableStateMissing);
    assert!(missing.message().starts_with("DurableObjectState missing"));
}

#[test]
fn a_context_hands_out_what_it_was_made_of() {
    let id = DurableObjectId::new("id".to_owned(), Some("name".to_owned()));
    let context = DurableContext::new(1u8, 2u16, 3u32, connections_of(vec![]), id);
    assert_eq!(*context.kv(), 1);
    assert_eq!(*context.sql(), 2);
    assert_eq!(*context.alarm(), 3);
    assert_eq!(context.id().as_str(), "id");
    assert_eq!(context.id().name(), Some("name"));
    assert_eq!(context.connections().all().map(|all| all.len()).ok(), Some(0));
}

#[test]
fn errors_say_what_went_wrong() {
    assert!(matches!(lock_poisoned(), DurableObjectError::Runtime(_)));
    assert!(matches!(closed_websocket(), DurableObjectError::WebSocket(_)));
    assert!(invalid_url("bad").message().contains("bad"));
}

// An object that counts its hits, as the runtime drives it: it is loaded before an event and saved
// after it.
fn hit(state: &mut ObjectState, persist: bool) -> String {
    let parsed = match state.bytes_to_load(persist) {
        Some(bytes) => Some(
            String::from_utf8(bytes.clone())
                .map_err(|error| error.to_string())
                .and_then(|text| text.parse::<u32>().map_err(|error| error.to_string())),
        ),
        None => None,
    };
    let count = ObjectState::load_object(parsed, 0u32).unwrap() + 1;
    finish_event(
        state,
        persist,
        EventOutcome::Fetched,
        Ok(format!("{count}").into_bytes()),
    )
    .unwrap();
    format!("{count}")
}

#[test]
fn persist_false_skips_the_framework_state_round_trip() {
    let mut blob = ObjectState::new();
    for expected in ["1", "2", "3"] {
        assert_eq!(hit(&mut blob, true), expected);
    }

    let mut scratch = ObjectState::new();
    for _ in 0..3u32 {
        assert_eq!(hit(&mut scratch, false), "1");
    }
}

#[test]
fn native_durable_namespace_persists_db_per_object() {
    let mut namespace = NativeDurableNamespace::new("Counter");
    let a = namespace.id_from_name("a").unwrap();
    let b = namespace.id_from_name("b").unwrap();
    let slot_a = namespace.slot_for(a.as_str());
    let slot_b = namespace.slot_for(b.as_str());
    assert_ne!(slot_a, slot_b);
    assert_eq!(namespace.slot_for(a.as_str()), slot_a);

    let mut slots = vec![ObjectState::new(), ObjectState::new()];
    assert_eq!(hit(&mut slots[slot_a], true), "1");
    assert_eq!(hit(&mut slots[slot_a], true), "2");
    assert_eq!(hit(&mut slots[slot_b], true), "1");
}

#[test]
fn ids_are_written_as_documented() {
    let mut namespace = NativeDurableNamespace::new("Counter");
    let hashed = namespace.id_from_hash("a", 255);
    assert_eq!(hashed.as_str(), "native:Counter:00000000000000ff");
    assert_eq!(hashed.name(), Some("a"));
    let mut hasher = DefaultHasher::new();
    "Counter".hash(&mut hasher);
    "a".hash(&mut hasher);
    let named = namespace.id_from_name("a").unwrap();
    assert_eq!(
        named.as_str(),
        format!("native:Counter:{:016x}", hasher.finish())
    );
    assert_eq!(named.name(), Some("a"));
    let first = namespace.new_unique_id().unwrap();
    let second = namespace.new_unique_id().unwrap();
    assert_eq!(first.as_str(), "native:Counter:1");
    assert_ne!(first.as_str(), second.as_str());
    assert_eq!(first.name(), None);
    assert_eq!(namespace.id_from_string("x").unwrap().as_str(), "x");
    let blank = namespace.id_from_string("  ").unwrap_err();
    assert!(blank.message().contains("durable object id cannot be empty"));
    assert_eq!(ALARM_REQUEST_PATH, "/__skyzen_alarm");
}

#[test]
fn a_stub_reaches_the_object_it_was_asked_for() {
    let namespace = NativeDurableNamespace::new("Counter");
    let stub = namespace.get_by_name("a").unwrap();
    let named = namespace.id_from_name("a").unwrap();
    assert_eq!(stub.id().as_str(), named.as_str());
    assert_eq!(stub.id().name(), Some("a"));
    assert_eq!(namespace.get("x").unwrap().id().as_str(), "x");
    assert!(namespace.get(" ").is_err());

    let request = stub.fetch_url("https://object/increment?by=2").unwrap();
    assert_eq!(request.method, "GET");
    assert_eq!(request.uri, "https://object/increment?by=2");
    let error = stub.fetch_url("not a url").unwrap_err();
    assert_eq!(
        error.message(),
        "durable object error: invalid durable URL: invalid uri character"
    );

    let alarm = alarm_request();
    assert_eq!(alarm.method, "POST");
    assert_eq!(alarm.uri, "/__skyzen_alarm");
}

#[test]
fn native_alarm_scheduler_fires_scheduled_alarm() {
    let mut alarm = AlarmScheduler::new();
    assert_eq!(alarm.get_alarm(), None);
    let timer = alarm.set_alarm(1_050);
    assert_eq!(alarm.get_alarm(), Some(1_050));
    assert_eq!(timer_delay(timer.scheduled_time_ms, 1_000), 50);
    assert!(alarm.timer_elapsed(timer.generation));
    assert_eq!(alarm.get_alarm(), None);
    assert!(!alarm.timer_elapsed(timer.generation));
}

#[test]
fn a_later_change_supersedes_a_started_timer() {
    let mut alarm = AlarmScheduler::new();
    let first = alarm.set_alarm(10);
    let second = alarm.set_alarm(20);
    assert!(!alarm.timer_elapsed(first.generation));
    assert_eq!(alarm.get_alarm(), Some(20));
    alarm.delete_alarm();
    assert!(!alarm.timer_elapsed(second.generation));
    assert_eq!(timer_delay(i64::MIN, i64::MAX), 0);
    assert_eq!(timer_delay(i64::MAX, i64::MIN), u64::MAX);
    assert_eq!(current_unix_ms(Some(7)), 7);
    assert_eq!(current_unix_ms(None), 0);
    assert_eq!(current_unix_ms(Some(u128::MAX)), i64::MAX);
}

#[test]
fn native_durable_namespace_runs_alarm_handler() {
    let mut state = ObjectState::new();
    for _ in 0..2 {
        let count = match state.bytes_to_load(true) {
            Some(bytes) => bytes[0] + 1,
            None => 1,
        };
        finish_event(
            &mut state,
            true,
            EventOutcome::Alarm(Ok(())),
            Ok(vec![count]),
        )
        .unwrap();
    }
    assert_eq!(state.bytes_to_load(true), Some(&vec![2u8]));
}

#[test]
fn event_outcomes_are_reported() {
    assert!(conclude_event(EventOutcome::Fetched).is_ok());
    assert!(conclude_event(EventOutcome::NoAlarmHandler).is_err());
    assert!(matches!(
        conclude_event(EventOutcome::Alarm(Err("boom".to_owned()))),
        Err(DurableObjectError::Runtime(_))
    ));
    assert!(matches!(
        conclude_event(EventOutcome::Socket(Err(closed_websocket()))),
        Err(DurableObjectError::WebSocket(_))
    ));
    let mut state = ObjectState::new();
    assert!(matches!(
        state.save_object(true, Err("no".to_owned())),
        Err(DurableObjectError::Serialization(_))
    ));
    assert!(matches!(
        ObjectState::load_object(Some(Err("no".to_owned())), 0u8),
        Err(DurableObjectError::Serialization(_))
    ));
}

#[test]
fn sockets_are_listed_until_they_are_removed() {
    let mut connections = NativeConnections::new();
    assert!(connections.can_register());
    let first = connections.register(vec!["room".to_owned()]);
    let second = connections.register(vec!["room".to_owned(), "admin".to_owned()]);
    assert_eq!(connections.connections(None), vec![first, second]);
    assert_eq!(connections.connections(Some("admin")), vec![second]);
    connections.remove(first);
    assert_eq!(connections.connections(Some("room")), vec![second]);
    connections.store_auto_response(Some(("ping".to_owned(), "pong".to_owned())));
    assert_eq!(connections.auto_response("ping"), Some("pong".to_owned()));
    assert_eq!(connections.auto_response("other"), None);
    connections.store_auto_response(None);
    assert_eq!(connections.auto_response("ping"), None);
}

#[test]
fn a_session_answers_dispatches_and_leaves() {
    let mut connections = NativeConnections::new();
    connections.store_auto_response(Some(("ping".to_owned(), "pong".to_owned())));
    let mut session = WebSocketSession::open(&mut connections, vec!["room".to_owned()]);
    assert_eq!(connections.connections(None), vec![session.id()]);

    let action = session.on_incoming(
        Incoming::Message(WebSocketMessage::Text("ping".to_owned())),
        &connections,
    );
    assert!(matches!(action, SessionAction::SendText(text) if text == "pong"));
    session.on_done(Ok(()));
    assert!(session.is_waiting());

    let action = session.on_incoming(
        Incoming::Message(WebSocketMessage::Text("hello".to_owned())),
        &connections,
    );
    assert!(matches!(
        action,
        SessionAction::Dispatch(WebSocketEvent::Message(WebSocketMessage::Text(text)))
            if text == "hello"
    ));
    session.on_done(Ok(()));

    let action = session.on_command(Some(SocketCommand::Binary(vec![1, 2])));
    assert!(matches!(action, SessionAction::SendBinary(bytes) if bytes == vec![1, 2]));
    session.on_done(Ok(()));

    let action = session.on_incoming(Incoming::Close, &connections);
    assert!(matches!(
        action,
        SessionAction::Dispatch(WebSocketEvent::Close { .. })
    ));
    session.on_done(Ok(()));
    assert!(!session.is_waiting());
    assert!(session.leave(&mut connections).is_ok());
    assert!(connections.connections(None).is_empty());
}

#[test]
fn a_failed_action_ends_a_session_with_its_error() {
    let mut connections = NativeConnections::new();
    let mut session = WebSocketSession::open(&mut connections, vec![]);
    session.on_incoming(Incoming::Ping(vec![9]), &connections);
    session.on_done(Err(closed_websocket()));
    assert!(!session.is_waiting());
    assert!(session.leave(&mut connections).is_err());
    assert!(connections.connections(None).is_empty());
}

#[test]
fn incoming_frames_and_commands_decide_the_next_step() {
    let connections = NativeConnections::new();
    assert!(matches!(
        on_incoming(Incoming::Ping(vec![1]), &connections).action,
        SessionAction::SendPong(_)
    ));
    assert!(matches!(
        on_incoming(Incoming::Pong, &connections).action,
        SessionAction::Nothing
    ));
    assert!(on_incoming(Incoming::End, &connections).stop);
    assert!(on_incoming(Incoming::Failed("reset".to_owned()), &connections).stop);
    let closing = on_command(Some(SocketCommand::Close {
        code: 1000,
        reason: "done".to_owned(),
    }));
    assert!(matches!(
        closing.action,
        SessionAction::SendClose { code: 1000, .. }
    ));
    assert!(on_command(None).stop);
}

fn store(entries: &[(&str, &str)]) -> DurableKvStore {
    let mut store = DurableKvStore::new();
    for (key, value) in entries {
        store.put(key, value.as_bytes().to_vec());
    }
    store
}

fn keys(rows: Vec<(String, Vec<u8>)>) -> Vec<String> {
    rows.into_iter().map(|row| row.0).collect()
}

fn everything() -> ListOptions {
    ListOptions {
        prefix: None,
        start: None,
        end: None,
        limit: None,
        reverse: false,
    }
}

#[test]
fn a_read_gives_back_the_last_write() {
    let mut kv = store(&[("b", "1"), ("a", "2"), ("b", "3")]);
    assert_eq!(kv.get("b"), Some(b"3".to_vec()));
    assert_eq!(kv.get("a"), Some(b"2".to_vec()));
    assert_eq!(kv.get("c"), None);
    assert!(kv.delete("a"));
    assert!(!kv.delete("a"));
    assert_eq!(kv.get("a"), None);
    kv.put_multiple(&vec![
        ("x".to_owned(), vec![1]),
        ("y".to_owned(), vec![2]),
        ("x".to_owned(), vec![3]),
    ]);
    assert_eq!(
        kv.get_multiple(&vec!["x".to_owned(), "nope".to_owned(), "y".to_owned()]),
        vec![("x".to_owned(), vec![3]), ("y".to_owned(), vec![2])]
    );
    assert_eq!(kv.delete_multiple(&vec!["x".to_owned(), "nope".to_owned()]), 1);
    kv.delete_all();
    assert_eq!(kv.list(&everything()), vec![]);
}

#[test]
fn a_listing_is_sorted_filtered_and_bounded() {
    let kv = store(&[("c", ""), ("a", ""), ("ab", ""), ("b", ""), ("aa", "")]);
    assert_eq!(keys(kv.list(&everything())), vec!["a", "aa", "ab", "b", "c"]);
    let prefixed = ListOptions {
        prefix: Some("a".to_owned()),
        ..everything()
    };
    assert_eq!(keys(kv.list(&prefixed)), vec!["a", "aa", "ab"]);
    let ranged = ListOptions {
        start: Some("aa".to_owned()),
        end: Some("b".to_owned()),
        ..everything()
    };
    assert_eq!(keys(kv.list(&ranged)), vec!["ab"]);
    let reversed = ListOptions {
        reverse: true,
        limit: Some(2),
        ..everything()
    };
    assert_eq!(keys(kv.list(&reversed)), vec!["c", "b"]);
}
