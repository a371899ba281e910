//! All WebSocket connections of a Durable Object.

use vstd::prelude::*;

use crate::durable::error::DurableObjectError;
use crate::durable::websocket::WebSocketConnection;
#[allow(unused_imports)]
use crate::text::copy_text;

verus! {

/// Platform-specific connection management operations.
///
/// Connections come and go while an object runs, so what an operation returns is not fixed by its
/// arguments: the specification of a platform says which results are possible.
pub trait DurableConnectionsInner: Send + Sync {
    /// Whether listing all connections may have this result.
    open spec fn all_result(&self, r: Result<Vec<WebSocketConnection>, DurableObjectError>) -> bool {
        true
    }

    /// Whether listing the connections with a tag may have this result.
    open spec fn tag_result(
        &self,
        tag: Seq<char>,
        r: Result<Vec<WebSocketConnection>, DurableObjectError>,
    ) -> bool {
        true
    }

    /// Whether setting the automatic response may have this result.
    open spec fn set_result(
        &self,
        request: Seq<char>,
        response: Seq<char>,
        r: Result<(), DurableObjectError>,
    ) -> bool {
        true
    }

    /// Whether clearing the automatic response may have this result.
    open spec fn clear_result(&self, r: Result<(), DurableObjectError>) -> bool {
        true
    }

    /// Get all connected WebSockets.
    fn all(&self) -> (r: Result<Vec<WebSocketConnection>, DurableObjectError>)
        ensures
            self.all_result(r),
    ;

    /// Get WebSockets matching a tag.
    fn by_tag(&self, tag: &str) -> (r: Result<Vec<WebSocketConnection>, DurableObjectError>)
        ensures
            self.tag_result(tag@, r),
    ;

    /// Set the automatic response.
    fn set_auto_response(&self, request: &str, response: &str) -> (r: Result<
        (),
        DurableObjectError,
    >)
        ensures
            self.set_result(request@, response@, r),
    ;

    /// Clear the automatic response.
    fn clear_auto_response(&self) -> (r: Result<(), DurableObjectError>)
        ensures
            self.clear_result(r),
    ;
}

/// Manage all WebSocket connections on a Durable Object.
pub struct DurableConnections {
    inner: Box<dyn DurableConnectionsInner>,
}

/// Whether connections are managed as their handle manages them.
pub open spec fn manages_as(
    connections: DurableConnections,
    inner: Box<dyn DurableConnectionsInner>,
) -> bool {
    &&& forall|x: Result<Vec<WebSocketConnection>, DurableObjectError>|
        connections.all_result(x) == inner.all_result(x)
    &&& forall|tag: Seq<char>, x: Result<Vec<WebSocketConnection>, DurableObjectError>|
        connections.tag_result(tag, x) == inner.tag_result(tag, x)
    &&& forall|request: Seq<char>, response: Seq<char>, x: Result<(), DurableObjectError>|
        connections.set_result(request, response, x) == inner.set_result(request, response, x)
    &&& forall|x: Result<(), DurableObjectError>|
        connections.clear_result(x) == inner.clear_result(x)
}

/// Whether sending a text to the connections of a list, from `from` on, may have this result: each
/// is sent to in turn, and the first failure ends it.
pub open spec fn text_sent(
    list: Seq<WebSocketConnection>,
    from: int,
    text: Seq<char>,
    r: Result<(), DurableObjectError>,
) -> bool
    decreases list.len() - from,
{
    if from < 0 || from >= list.len() {
        r == Ok::<(), DurableObjectError>(())
    } else {
        ||| list[from].text_result(text, r) && r is Err
        ||| list[from].text_result(text, Ok(())) && text_sent(list, from + 1, text, r)
    }
}

/// Whether sending bytes to the connections of a list, from `from` on, may have this result: each is
/// sent to in turn, and the first failure ends it.
pub open spec fn binary_sent(
    list: Seq<WebSocketConnection>,
    from: int,
    data: Seq<u8>,
    r: Result<(), DurableObjectError>,
) -> bool
    decreases list.len() - from,
{
    if from < 0 || from >= list.len() {
        r == Ok::<(), DurableObjectError>(())
    } else {
        ||| list[from].binary_result(data, r) && r is Err
        ||| list[from].binary_result(data, Ok(())) && binary_sent(list, from + 1, data, r)
    }
}

/// Whether a broadcast of a text may have this result, given what listing the connections gave.
pub open spec fn text_broadcast(
    listed: Result<Vec<WebSocketConnection>, DurableObjectError>,
    text: Seq<char>,
    r: Result<(), DurableObjectError>,
) -> bool {
    match listed {
        Ok(list) => text_sent(list@, 0, text, r),
        Err(error) => r == Err::<(), DurableObjectError>(error),
    }
}

/// Whether a broadcast of bytes may have this result, given what listing the connections gave.
pub open spec fn binary_broadcast(
    listed: Result<Vec<WebSocketConnection>, DurableObjectError>,
    data: Seq<u8>,
    r: Result<(), DurableObjectError>,
) -> bool {
    match listed {
        Ok(list) => binary_sent(list@, 0, data, r),
        Err(error) => r == Err::<(), DurableObjectError>(error),
    }
}

fn send_text_from(list: &Vec<WebSocketConnection>, from: usize, text: &str) -> (r: Result<
    (),
    DurableObjectError,
>)
    requires
        from <= list.len(),
    ensures
        text_sent(list@, from as int, text@, r),
    decreases list.len() - from,
{
    if from >= list.len() {
        return Ok(());
    }
    match list[from].send_text(text) {
        Ok(unit) => {
            assert(unit == ());
            send_text_from(list, from + 1, text)
        },
        Err(error) => Err(error),
    }
}

fn send_binary_from(list: &Vec<WebSocketConnection>, from: usize, data: &[u8]) -> (r: Result<
    (),
    DurableObjectError,
>)
    requires
        from <= list.len(),
    ensures
        binary_sent(list@, from as int, data@, r),
    decreases list.len() - from,
{
    if from >= list.len() {
        return Ok(());
    }
    match list[from].send_binary(data) {
        Ok(unit) => {
            assert(unit == ());
            send_binary_from(list, from + 1, data)
        },
        Err(error) => Err(error),
    }
}

impl DurableConnections {
    /// Whether listing all connections may have this result.
    pub closed spec fn all_result(
        &self,
        r: Result<Vec<WebSocketConnection>, DurableObjectError>,
    ) -> bool {
        self.inner.all_result(r)
    }

    /// Whether listing the connections with a tag may have this result.
    pub closed spec fn tag_result(
        &self,
        tag: Seq<char>,
        r: Result<Vec<WebSocketConnection>, DurableObjectError>,
    ) -> bool {
        self.inner.tag_result(tag, r)
    }

    /// Whether setting the automatic response may have this result.
    pub closed spec fn set_result(
        &self,
        request: Seq<char>,
        response: Seq<char>,
        r: Result<(), DurableObjectError>,
    ) -> bool {
        self.inner.set_result(request, response, r)
    }

    /// Whether clearing the automatic response may have this result.
    pub closed spec fn clear_result(&self, r: Result<(), DurableObjectError>) -> bool {
        self.inner.clear_result(r)
    }

    /// Create from a platform-specific inner handle.
    pub fn new(inner: Box<dyn DurableConnectionsInner>) -> (r: Self)
        ensures
            manages_as(r, inner),
    {
        DurableConnections { inner }
    }

    /// Get all connected WebSockets.
    pub fn all(&self) -> (r: Result<Vec<WebSocketConnection>, DurableObjectError>)
        ensures
            self.all_result(r),
    {
        self.inner.all()
    }

    /// Get WebSockets matching a tag.
    pub fn by_tag(&self, tag: &str) -> (r: Result<Vec<WebSocketConnection>, DurableObjectError>)
        ensures
            self.tag_result(tag@, r),
    {
        self.inner.by_tag(tag)
    }

    /// Broadcast a text message to all connections; the first failure ends the broadcast.
    pub fn broadcast_text(&self, text: &str) -> (r: Result<(), DurableObjectError>)
        ensures
            exists|listed: Result<Vec<WebSocketConnection>, DurableObjectError>| #[trigger]
                self.all_result(listed) && text_broadcast(listed, text@, r),
    {
        let listed = self.all();
        let ghost given = listed;
        match listed {
            Ok(list) => {
                let r = send_text_from(&list, 0, text);
                assert(self.all_result(given) && text_broadcast(given, text@, r));
                r
            },
            Err(error) => {
                assert(self.all_result(given) && text_broadcast(given, text@, Err(error)));
                Err(error)
            },
        }
    }

    /// Broadcast binary data to all connections; the first failure ends the broadcast.
    pub fn broadcast_binary(&self, data: &[u8]) -> (r: Result<(), DurableObjectError>)
        ensures
            exists|listed: Result<Vec<WebSocketConnection>, DurableObjectError>| #[trigger]
                self.all_result(listed) && binary_broadcast(listed, data@, r),
    {
        let listed = self.all();
        let ghost given = listed;
        match listed {
            Ok(list) => {
                let r = send_binary_from(&list, 0, data);
                assert(self.all_result(given) && binary_broadcast(given, data@, r));
                r
            },
            Err(error) => {
                assert(self.all_result(given) && binary_broadcast(
                    given,
                    data@,
                    Err(error),
                ));
                Err(error)
            },
        }
    }

    /// Broadcast a value that was serialized to JSON; one that could not be is not sent to anyone.
    pub fn broadcast_json(&self, json: Result<String, String>) -> (r: Result<
        (),
        DurableObjectError,
    >)
        ensures
            match json {
                Ok(text) => exists|listed: Result<Vec<WebSocketConnection>, DurableObjectError>|
                 #[trigger]
                    self.all_result(listed) && text_broadcast(listed, text@, r),
                Err(message) => r == Err::<(), DurableObjectError>(
                    DurableObjectError::Serialization(message),
                ),
            },
    {
        match json {
            Ok(text) => self.broadcast_text(text.as_str()),
            Err(message) => Err(DurableObjectError::Serialization(message)),
        }
    }

    /// Set the automatic response for ping/pong-style keep-alive.
    pub fn set_auto_response(&self, request: &str, response: &str) -> (r: Result<
        (),
        DurableObjectError,
    >)
        ensures
            self.set_result(request@, response@, r),
    {
        self.inner.set_auto_response(request, response)
    }

    /// Clear the automatic response.
    pub fn clear_auto_response(&self) -> (r: Result<(), DurableObjectError>)
        ensures
            self.clear_result(r),
    {
        self.inner.clear_auto_response()
    }
}

/// The connections of an object were asked for where there are none.
#[derive(Debug, Clone, Copy)]
pub struct DurableConnectionsNotConfigured;

impl DurableConnectionsNotConfigured {
    /// The error's text.
    pub fn message(&self) -> (r: String)
        ensures
            r@
                == "DurableConnections not configured. Ensure a DurableConnectionsInner implementation is injected."@,
    {
        copy_text(
            "DurableConnections not configured. Ensure a DurableConnectionsInner implementation is injected.",
        )
    }

    /// The status the error is answered with.
    pub fn status(&self) -> (r: u16)
        ensures
            r == 500,
    {
        500
    }
}

impl DurableConnections {
    /// The connections a handler extracts from what was stored with the request.
    pub fn extract(stored: Option<DurableConnections>) -> (r: Result<
        DurableConnections,
        DurableConnectionsNotConfigured,
    >)
        ensures
            match stored {
                Some(connections) => r == Ok::<
                    DurableConnections,
                    DurableConnectionsNotConfigured,
                >(connections),
                None => r is Err,
            },
    {
        match stored {
            Some(connections) => Ok(connections),
            None => Err(DurableConnectionsNotConfigured),
        }
    }
}

/// A broadcast that succeeds was sent to every connection.
pub proof fn a_broadcast_reaches_every_connection(
    list: Seq<WebSocketConnection>,
    from: int,
    text: Seq<char>,
)
    requires
        0 <= from,
        text_sent(list, from, text, Ok(())),
    ensures
        forall|i: int|
            from <= i < list.len() ==> (#[trigger] list[i]).text_result(text, Ok(())),
    decreases list.len() - from,
{
    if from < list.len() {
        a_broadcast_reaches_every_connection(list, from + 1, text);
    }
}

/// A broadcast of a text that succeeds was sent to every connection; one that fails was sent up to
/// the first connection that failed, and reports that failure.
pub proof fn a_text_is_sent_to_everyone(
    list: Seq<WebSocketConnection>,
    from: int,
    text: Seq<char>,
    r: Result<(), DurableObjectError>,
)
    requires
        0 <= from <= list.len(),
        text_sent(list, from, text, r),
    ensures
        r is Ok ==> forall|i: int|
            from <= i < list.len() ==> (#[trigger] list[i]).text_result(text, Ok(())),
        r is Err ==> exists|i: int|
            from <= i < list.len() && (#[trigger] list[i]).text_result(text, r) && forall|j: int|
                from <= j < i ==> (#[trigger] list[j]).text_result(text, Ok(())),
    decreases list.len() - from,
{
    if from < list.len() {
        if list[from].text_result(text, r) && r is Err {
            assert(list[from].text_result(text, r));
        } else {
            a_text_is_sent_to_everyone(list, from + 1, text, r);
            if r is Err {
                let i = choose|i: int|
                    from + 1 <= i < list.len() && (#[trigger] list[i]).text_result(text, r)
                        && forall|j: int|
                        from + 1 <= j < i ==> (#[trigger] list[j]).text_result(text, Ok(()));
                assert(list[i].text_result(text, r));
            }
        }
    }
}

/// A broadcast of bytes that succeeds was sent to every connection; one that fails was sent up to the
/// first connection that failed, and reports that failure.
pub proof fn bytes_are_sent_to_everyone(
    list: Seq<WebSocketConnection>,
    from: int,
    data: Seq<u8>,
    r: Result<(), DurableObjectError>,
)
    requires
        0 <= from <= list.len(),
        binary_sent(list, from, data, r),
    ensures
        r is Ok ==> forall|i: int|
            from <= i < list.len() ==> (#[trigger] list[i]).binary_result(data, Ok(())),
        r is Err ==> exists|i: int|
            from <= i < list.len() && (#[trigger] list[i]).binary_result(data, r) && forall|j: int|
                from <= j < i ==> (#[trigger] list[j]).binary_result(data, Ok(())),
    decreases list.len() - from,
{
    if from < list.len() {
        if list[from].binary_result(data, r) && r is Err {
            assert(list[from].binary_result(data, r));
        } else {
            bytes_are_sent_to_everyone(list, from + 1, data, r);
            if r is Err {
                let i = choose|i: int|
                    from + 1 <= i < list.len() && (#[trigger] list[i]).binary_result(data, r)
                        && forall|j: int|
                        from + 1 <= j < i ==> (#[trigger] list[j]).binary_result(data, Ok(()));
                assert(list[i].binary_result(data, r));
            }
        }
    }
}

/// A broadcast goes to all connections that were listed; where they could not be listed it fails with
/// that error.
pub proof fn a_broadcast_goes_to_what_was_listed(
    list: Vec<WebSocketConnection>,
    error: DurableObjectError,
    text: Seq<char>,
    data: Seq<u8>,
    r: Result<(), DurableObjectError>,
    i: int,
)
    requires
        0 <= i < list@.len(),
    ensures
        text_broadcast(Ok(list), text, r) && r is Ok ==> list@[i].text_result(text, Ok(())),
        binary_broadcast(Ok(list), data, r) && r is Ok ==> list@[i].binary_result(data, Ok(())),
        text_broadcast(Err(error), text, r) ==> r == Err::<(), DurableObjectError>(error),
        binary_broadcast(Err(error), data, r) ==> r == Err::<(), DurableObjectError>(error),
{
    if text_broadcast(Ok(list), text, r) {
        a_text_is_sent_to_everyone(list@, 0, text, r);
    }
    if binary_broadcast(Ok(list), data, r) {
        bytes_are_sent_to_everyone(list@, 0, data, r);
    }
}

} // verus!
