//! WebSockets of a Durable Object.

use vstd::prelude::*;

use crate::durable::error::DurableObjectError;
use crate::text::copy_text;
#[allow(unused_imports)]
use crate::text::texts;

verus! {

/// A message on a WebSocket.
#[derive(Debug)]
pub enum WebSocketMessage {
    /// A text.
    Text(String),
    /// Bytes.
    Binary(Vec<u8>),
}

/// A WebSocket event delivered to an object.
#[derive(Debug)]
pub enum WebSocketEvent {
    /// A message was received from the client.
    Message(WebSocketMessage),
    /// The connection was closed by the client.
    Close {
        /// The close code.
        code: u16,
        /// The close reason.
        reason: String,
        /// Whether the close was clean.
        was_clean: bool,
    },
    /// An error occurred on the connection.
    Error(String),
}

/// Platform-specific WebSocket connection operations.
///
/// Each operation acts on a connection that others use too, so what it returns is not fixed by its
/// arguments: the specification of a platform says which results are possible.
pub trait WebSocketConnectionInner: Send + Sync {
    /// Whether sending a text may have this result.
    open spec fn text_result(&self, text: Seq<char>, r: Result<(), DurableObjectError>) -> bool {
        true
    }

    /// Whether sending bytes may have this result.
    open spec fn binary_result(&self, data: Seq<u8>, r: Result<(), DurableObjectError>) -> bool {
        true
    }

    /// Whether closing may have this result.
    open spec fn close_result(
        &self,
        code: u16,
        reason: Seq<char>,
        r: Result<(), DurableObjectError>,
    ) -> bool {
        true
    }

    /// Whether asking for the tags may have this result.
    open spec fn tags_result(&self, r: Result<Vec<String>, DurableObjectError>) -> bool {
        true
    }

    /// Whether asking for the attachment may have this result.
    open spec fn attachment_result(&self, r: Result<Option<Vec<u8>>, DurableObjectError>) -> bool {
        true
    }

    /// Whether storing an attachment may have this result.
    open spec fn store_result(&self, data: Seq<u8>, r: Result<(), DurableObjectError>) -> bool {
        true
    }

    /// Send a text message.
    fn send_text(&self, text: &str) -> (r: Result<(), DurableObjectError>)
        ensures
            self.text_result(text@, r),
    ;

    /// Send binary data.
    fn send_binary(&self, data: &[u8]) -> (r: Result<(), DurableObjectError>)
        ensures
            self.binary_result(data@, r),
    ;

    /// Close the connection.
    fn close(&self, code: u16, reason: &str) -> (r: Result<(), DurableObjectError>)
        ensures
            self.close_result(code, reason@, r),
    ;

    /// Get tags for this connection.
    fn tags(&self) -> (r: Result<Vec<String>, DurableObjectError>)
        ensures
            self.tags_result(r),
    ;

    /// Get the attachment.
    fn get_attachment_raw(&self) -> (r: Result<Option<Vec<u8>>, DurableObjectError>)
        ensures
            self.attachment_result(r),
    ;

    /// Set the attachment.
    fn set_attachment_raw(&self, data: &[u8]) -> (r: Result<(), DurableObjectError>)
        ensures
            self.store_result(data@, r),
    ;
}

/// Opaque handle to a hibernating WebSocket connection.
pub struct WebSocketConnection {
    inner: Box<dyn WebSocketConnectionInner>,
}

/// Whether a connection does what its handle does.
pub open spec fn acts_as(
    connection: WebSocketConnection,
    inner: Box<dyn WebSocketConnectionInner>,
) -> bool {
    &&& forall|text: Seq<char>, x: Result<(), DurableObjectError>|
        connection.text_result(text, x) == inner.text_result(text, x)
    &&& forall|data: Seq<u8>, x: Result<(), DurableObjectError>|
        connection.binary_result(data, x) == inner.binary_result(data, x)
    &&& forall|code: u16, reason: Seq<char>, x: Result<(), DurableObjectError>|
        connection.close_result(code, reason, x) == inner.close_result(code, reason, x)
    &&& forall|x: Result<Vec<String>, DurableObjectError>|
        connection.tags_result(x) == inner.tags_result(x)
    &&& forall|x: Result<Option<Vec<u8>>, DurableObjectError>|
        connection.attachment_result(x) == inner.attachment_result(x)
    &&& forall|data: Seq<u8>, x: Result<(), DurableObjectError>|
        connection.store_result(data, x) == inner.store_result(data, x)
}

/// What an attachment is read as, given the stored bytes and what a parser made of them.
pub open spec fn attachment_read<T>(
    raw: Result<Option<Vec<u8>>, DurableObjectError>,
    parsed: Option<Result<T, String>>,
    r: Result<Option<T>, DurableObjectError>,
) -> bool {
    match raw {
        Err(error) => r == Err::<Option<T>, DurableObjectError>(error),
        Ok(None) => r == Ok::<Option<T>, DurableObjectError>(None),
        Ok(Some(_)) => match parsed {
            Some(Ok(value)) => r == Ok::<Option<T>, DurableObjectError>(Some(value)),
            Some(Err(message)) => r == Err::<Option<T>, DurableObjectError>(
                DurableObjectError::Serialization(message),
            ),
            None => false,
        },
    }
}

/// Whether the parser gave `parsed` for the stored bytes, if there are any.
pub open spec fn parser_gave<T, P: Fn(&Vec<u8>) -> Result<T, String>>(
    parse: P,
    raw: Result<Option<Vec<u8>>, DurableObjectError>,
    parsed: Option<Result<T, String>>,
) -> bool {
    match raw {
        Ok(Some(bytes)) => parsed is Some && call_ensures(parse, (&bytes,), parsed->0),
        _ => true,
    }
}

impl WebSocketConnection {
    /// Whether sending a text may have this result.
    pub closed spec fn text_result(
        &self,
        text: Seq<char>,
        r: Result<(), DurableObjectError>,
    ) -> bool {
        self.inner.text_result(text, r)
    }

    /// Whether sending bytes may have this result.
    pub closed spec fn binary_result(
        &self,
        data: Seq<u8>,
        r: Result<(), DurableObjectError>,
    ) -> bool {
        self.inner.binary_result(data, r)
    }

    /// Whether closing may have this result.
    pub closed spec fn close_result(
        &self,
        code: u16,
        reason: Seq<char>,
        r: Result<(), DurableObjectError>,
    ) -> bool {
        self.inner.close_result(code, reason, r)
    }

    /// Whether asking for the tags may have this result.
    pub closed spec fn tags_result(&self, r: Result<Vec<String>, DurableObjectError>) -> bool {
        self.inner.tags_result(r)
    }

    /// Whether asking for the attachment may have this result.
    pub closed spec fn attachment_result(
        &self,
        r: Result<Option<Vec<u8>>, DurableObjectError>,
    ) -> bool {
        self.inner.attachment_result(r)
    }

    /// Whether storing an attachment may have this result.
    pub closed spec fn store_result(
        &self,
        data: Seq<u8>,
        r: Result<(), DurableObjectError>,
    ) -> bool {
        self.inner.store_result(data, r)
    }

    /// Create from a platform-specific inner handle.
    pub fn new(inner: Box<dyn WebSocketConnectionInner>) -> (r: Self)
        ensures
            acts_as(r, inner),
    {
        WebSocketConnection { inner }
    }

    /// Send a text message to this connection.
    pub fn send_text(&self, text: &str) -> (r: Result<(), DurableObjectError>)
        ensures
            self.text_result(text@, r),
    {
        self.inner.send_text(text)
    }

    /// Send binary data to this connection.
    pub fn send_binary(&self, data: &[u8]) -> (r: Result<(), DurableObjectError>)
        ensures
            self.binary_result(data@, r),
    {
        self.inner.send_binary(data)
    }

    /// Send a value that was serialized to JSON as text; one that could not be is not sent.
    pub fn send_json(&self, json: Result<String, String>) -> (r: Result<(), DurableObjectError>)
        ensures
            match json {
                Ok(text) => self.text_result(text@, r),
                Err(message) => r == Err::<(), DurableObjectError>(
                    DurableObjectError::Serialization(message),
                ),
            },
    {
        match json {
            Ok(text) => self.send_text(text.as_str()),
            Err(message) => Err(DurableObjectError::Serialization(message)),
        }
    }

    /// Close this connection with a code and reason.
    pub fn close(&self, code: u16, reason: &str) -> (r: Result<(), DurableObjectError>)
        ensures
            self.close_result(code, reason@, r),
    {
        self.inner.close(code, reason)
    }

    /// Get the tags associated with this connection.
    pub fn tags(&self) -> (r: Result<Vec<String>, DurableObjectError>)
        ensures
            self.tags_result(r),
    {
        self.inner.tags()
    }

    /// Whether the attachment is read as `r`, where the platform gave `raw` and the parser `parsed`.
    pub open spec fn reads_attachment<T, P: Fn(&Vec<u8>) -> Result<T, String>>(
        &self,
        parse: P,
        raw: Result<Option<Vec<u8>>, DurableObjectError>,
        parsed: Option<Result<T, String>>,
        r: Result<Option<T>, DurableObjectError>,
    ) -> bool {
        &&& self.attachment_result(raw)
        &&& parser_gave(parse, raw, parsed)
        &&& attachment_read(raw, parsed, r)
    }

    /// Get the attachment of this connection, read with `parse`. Bytes that `parse` refuses are a
    /// serialization error.
    pub fn attachment<T, P: Fn(&Vec<u8>) -> Result<T, String>>(&self, parse: P) -> (r: Result<
        Option<T>,
        DurableObjectError,
    >)
        requires
            forall|bytes: &Vec<u8>| call_requires(parse, (bytes,)),
        ensures
            exists|raw: Result<Option<Vec<u8>>, DurableObjectError>, parsed: Option<
                Result<T, String>,
            >| #[trigger] self.reads_attachment(parse, raw, parsed, r),
    {
        let raw = self.inner.get_attachment_raw();
        let ghost given = raw;
        assert(self.attachment_result(given));
        match raw {
            Err(error) => {
                let r = Err(error);
                assert(self.reads_attachment(parse, given, None::<Result<T, String>>, r));
                r
            },
            Ok(None) => {
                let r = Ok(None);
                assert(self.reads_attachment(parse, given, None::<Result<T, String>>, r));
                r
            },
            Ok(Some(bytes)) => {
                let parsed = parse(&bytes);
                let ghost result = parsed;
                match parsed {
                    Ok(value) => {
                        let r = Ok(Some(value));
                        assert(self.reads_attachment(parse, given, Some(result), r));
                        r
                    },
                    Err(message) => {
                        let r = Err(DurableObjectError::Serialization(message));
                        assert(self.reads_attachment(parse, given, Some(result), r));
                        r
                    },
                }
            },
        }
    }

    /// Set the attachment of this connection to a value that was serialized; one that could not be
    /// is not stored.
    pub fn set_attachment(&self, serialized: Result<Vec<u8>, String>) -> (r: Result<
        (),
        DurableObjectError,
    >)
        ensures
            match serialized {
                Ok(bytes) => self.store_result(bytes@, r),
                Err(message) => r == Err::<(), DurableObjectError>(
                    DurableObjectError::Serialization(message),
                ),
            },
    {
        match serialized {
            Ok(bytes) => self.inner.set_attachment_raw(bytes.as_slice()),
            Err(message) => Err(DurableObjectError::Serialization(message)),
        }
    }
}

/// Responder that accepts a WebSocket for hibernation.
#[derive(Debug)]
pub struct HibernationWebSocketUpgrade {
    tags: Vec<String>,
}

impl HibernationWebSocketUpgrade {
    /// The tags, in the order they were added.
    pub closed spec fn labels(&self) -> Seq<Seq<char>> {
        texts(self.tags@)
    }

    /// An upgrade without tags.
    pub fn new() -> (r: Self)
        ensures
            r.labels() == Seq::<Seq<char>>::empty(),
    {
        let r = HibernationWebSocketUpgrade { tags: Vec::new() };
        assert(r.labels() =~= Seq::<Seq<char>>::empty());
        r
    }

    /// Add a tag to categorize this connection.
    pub fn tag(self, tag: &str) -> (r: Self)
        ensures
            r.labels() == self.labels().push(tag@),
    {
        let mut upgrade = self;
        upgrade.tags.push(tag.to_owned());
        assert(upgrade.labels() =~= self.labels().push(tag@));
        upgrade
    }

    /// The tags that will be applied to this connection.
    pub fn tags(&self) -> (r: &[String])
        ensures
            texts(r@) == self.labels(),
    {
        self.tags.as_slice()
    }

    /// Consume and return the tags.
    pub fn into_tags(self) -> (r: Vec<String>)
        ensures
            texts(r@) == self.labels(),
    {
        self.tags
    }
}

/// Why a hibernation upgrade fails.
#[derive(Debug, Clone, Copy, PartialEq, Eq)]
pub enum HibernationError {
    /// The request carries no handle on the object's runtime.
    DurableStateMissing,
    /// The runtime did not accept the socket.
    AcceptFailed,
}

impl HibernationError {
    /// The error's text.
    pub fn message(&self) -> (r: String)
        ensures
            r@ == match self {
                HibernationError::DurableStateMissing =>
                "DurableObjectState missing in request extensions for hibernation websocket upgrade."@,
                HibernationError::AcceptFailed =>
                "Failed to accept hibernation websocket connection."@,
            },
    {
        match self {
            HibernationError::DurableStateMissing => copy_text(
                "DurableObjectState missing in request extensions for hibernation websocket upgrade.",
            ),
            HibernationError::AcceptFailed => copy_text(
                "Failed to accept hibernation websocket connection.",
            ),
        }
    }

    /// The status the error is answered with.
    pub fn status(&self) -> (r: u16)
        ensures
            r == 500,
    {
        500
    }
}

/// The answer to an upgrade that was accepted.
#[derive(Debug)]
pub struct Switching<S> {
    /// Its status.
    pub status: u16,
    /// The client's end of the socket.
    pub client: S,
}

/// Whether the runtime behind `state` may have given `accepted` for a socket with tags.
pub open spec fn may_accept<D, S, F: Fn(&D, &[String]) -> Result<S, DurableObjectError>>(
    accept: F,
    state: D,
    tags: Seq<Seq<char>>,
    accepted: Result<S, DurableObjectError>,
) -> bool {
    exists|given: &[String]| texts(given@) == tags && #[trigger] call_ensures(
        accept,
        (&state, given),
        accepted,
    )
}

impl HibernationWebSocketUpgrade {
    /// Have the socket accepted with the tags, by the handle on the object's runtime that the
    /// request carries, and switch protocols.
    pub fn respond_to<D, S, F: Fn(&D, &[String]) -> Result<S, DurableObjectError>>(
        self,
        durable_state: Option<D>,
        accept: F,
    ) -> (r: Result<Switching<S>, HibernationError>)
        requires
            forall|state: &D, tags: &[String]| call_requires(accept, (state, tags)),
        ensures
            match durable_state {
                None => r == Err::<Switching<S>, HibernationError>(
                    HibernationError::DurableStateMissing,
                ),
                Some(state) => exists|accepted: Result<S, DurableObjectError>| #[trigger]
                    may_accept(accept, state, self.labels(), accepted) && match accepted {
                        Ok(client) => r == Ok::<Switching<S>, HibernationError>(
                            Switching { status: 101, client },
                        ),
                        Err(_) => r == Err::<Switching<S>, HibernationError>(
                            HibernationError::AcceptFailed,
                        ),
                    },
            },
    {
        match durable_state {
            None => Err(HibernationError::DurableStateMissing),
            Some(state) => {
                let accepted = accept(&state, self.tags.as_slice());
                assert(may_accept(accept, state, self.labels(), accepted));
                match accepted {
                    Ok(client) => Ok(Switching { status: 101, client }),
                    Err(_) => Err(HibernationError::AcceptFailed),
                }
            },
        }
    }
}

/// An attachment is what was parsed of the bytes that were stored; where none were stored there is
/// none, and a failure to get them is passed on.
pub proof fn an_attachment_is_what_was_stored<T>(
    raw: Result<Option<Vec<u8>>, DurableObjectError>,
    parsed: Option<Result<T, String>>,
    r: Result<Option<T>, DurableObjectError>,
)
    requires
        attachment_read(raw, parsed, r),
    ensures
        raw is Err ==> r is Err && r->Err_0 == raw->Err_0,
        raw is Ok && raw->Ok_0 is None <==> r is Ok && r->Ok_0 is None,
        r is Ok && r->Ok_0 is Some ==> raw is Ok && parsed is Some && parsed->0 is Ok
            && parsed->0->Ok_0 == r->Ok_0->0,
        raw is Ok && r is Err ==> parsed is Some && parsed->0 is Err && r->Err_0
            == DurableObjectError::Serialization(parsed->0->Err_0),
{
}

} // verus!
