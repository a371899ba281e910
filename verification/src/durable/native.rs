//! Durable Objects in one process: identities, instances, stored state and socket sessions.

use std::collections::hash_map::DefaultHasher;
use std::hash::Hasher;

#[allow(unused_imports)]
use vstd::arithmetic::div_mod::lemma_mod_breakdown;
#[allow(unused_imports)]
use vstd::arithmetic::power::pow;
use vstd::prelude::*;
#[allow(unused_imports)]
use vstd::std_specs::hash::DefaultHasherAdditionalSpecFns;
use vstd::string::StringExecFns;
#[allow(unused_imports)]
use vstd::utf8::{encode_utf8, encode_utf8_decode_utf8};

#[allow(unused_imports)]
use crate::durable::error::is_invalid_url_error;
use crate::durable::error::{invalid_url, DurableObjectError};
use crate::durable::id::DurableObjectId;
use crate::durable::websocket::{WebSocketEvent, WebSocketMessage};
use crate::routing::path::parse_uri;
#[allow(unused_imports)]
use crate::routing::path::uri_parts;
use crate::routing::router::lists;
#[allow(unused_imports)]
use crate::text::{
    decimal, lemma_decimal_is_injective, optional_bytes, optional_str, optional_text, texts, trim,
};
use crate::text::{copy_text, decimal_text, same, trim_text, Padding};

verus! {

/// The path an alarm is delivered at.
pub const ALARM_REQUEST_PATH: &'static str = "/__skyzen_alarm";

/// The character of a hexadecimal digit.
pub open spec fn hex_char(d: int) -> char {
    if d < 10 {
        (('0' as u32) + d) as char
    } else {
        (('a' as u32) + d - 10) as char
    }
}

/// The last `width` hexadecimal digits of a number.
pub open spec fn hex(n: nat, width: nat) -> Seq<char>
    decreases width,
{
    if width == 0 {
        Seq::empty()
    } else {
        hex(n / 16, (width - 1) as nat).push(hex_char((n % 16) as int))
    }
}

fn hex_digit_char(d: u64) -> (r: char)
    requires
        d < 16,
    ensures
        r == hex_char(d as int),
{
    if d < 10 {
        (48u8 + d as u8) as char
    } else {
        (97u8 + (d as u8 - 10)) as char
    }
}

fn hex_text(n: u64, width: u8) -> (r: String)
    ensures
        r@ == hex(n as nat, width as nat),
    decreases width,
{
    if width == 0 {
        String::new()
    } else {
        let mut text = hex_text(n / 16, width - 1);
        text.push(hex_digit_char(n % 16));
        text
    }
}

/// The text of the ID that a name stands for.
pub open spec fn named_id(class: Seq<char>, hash: u64) -> Seq<char> {
    "native:"@ + class + ":"@ + hex(hash as nat, 16)
}

/// What is hashed of a class and a name: their bytes, each followed by a byte that no text has.
pub open spec fn hashed_bytes(class: Seq<char>, name: Seq<char>) -> Seq<Seq<u8>> {
    seq![encode_utf8(class), seq![255u8], encode_utf8(name), seq![255u8]]
}

/// The text of the ID of a name of a class.
pub open spec fn id_of_name(class: Seq<char>, name: Seq<char>) -> Seq<char> {
    named_id(class, DefaultHasher::spec_finish(hashed_bytes(class, name)))
}

fn hash_of(class: &str, name: &str) -> (r: u64)
    ensures
        r == DefaultHasher::spec_finish(hashed_bytes(class@, name@)),
{
    let mut end: Vec<u8> = Vec::new();
    end.push(255);
    let mut hasher = DefaultHasher::new();
    hasher.write(class.as_bytes_vec().as_slice());
    hasher.write(end.as_slice());
    hasher.write(name.as_bytes_vec().as_slice());
    hasher.write(end.as_slice());
    assert(end@ =~= seq![255u8]);
    assert(hasher@ =~= hashed_bytes(class@, name@));
    hasher.finish()
}

/// The text of the ID with a number.
pub open spec fn numbered_id(class: Seq<char>, number: u64) -> Seq<char> {
    "native:"@ + class + ":"@ + decimal(number as nat)
}

/// A namespace of objects of one class.
#[derive(Debug)]
pub struct NativeDurableNamespace {
    class: String,
    next_id: u64,
    instances: Vec<String>,
}

impl NativeDurableNamespace {
    /// The class.
    pub closed spec fn class(&self) -> Seq<char> {
        self.class@
    }

    /// The number of the next unique ID.
    pub closed spec fn next_number(&self) -> u64 {
        self.next_id
    }

    /// The IDs of the instances that were used, in the order they were first used.
    pub closed spec fn instances(&self) -> Seq<Seq<char>> {
        texts(self.instances@)
    }

    /// Whether no instance occurs twice.
    pub open spec fn wf(&self) -> bool {
        self.instances().no_duplicates()
    }

    /// A namespace without instances.
    pub fn new(class: &str) -> (r: Self)
        ensures
            r.class() == class@,
            r.next_number() == 1,
            r.instances() == Seq::<Seq<char>>::empty(),
            r.wf(),
    {
        let r = NativeDurableNamespace { class: copy_text(class), next_id: 1, instances: Vec::new() };
        assert(r.instances() =~= Seq::<Seq<char>>::empty());
        r
    }

    /// The ID a name stands for. It is the same whenever it is asked for.
    pub fn id_from_name(&self, name: &str) -> (r: Result<DurableObjectId, DurableObjectError>)
        ensures
            r matches Ok(id) && id.text() == id_of_name(self.class(), name@) && id.given_name()
                == Some(name@),
    {
        Ok(self.id_from_hash(name, hash_of(self.class.as_str(), name)))
    }

    /// The ID a name stands for, given the hash of the class and the name.
    pub fn id_from_hash(&self, name: &str, hash: u64) -> (r: DurableObjectId)
        ensures
            r.text() == named_id(self.class(), hash),
            r.given_name() == Some(name@),
    {
        let mut text = copy_text("native:");
        text.append(self.class.as_str());
        text.append(":");
        let digits = hex_text(hash, 16);
        text.append(digits.as_str());
        DurableObjectId::new(text, Some(copy_text(name)))
    }

    /// The ID with a given text, which may not be blank.
    pub fn id_from_string(&self, id: &str) -> (r: Result<DurableObjectId, DurableObjectError>)
        ensures
            match r {
                Ok(parsed) => trim(id@, Padding::WhiteSpace).len() > 0 && parsed.text() == id@
                    && parsed.given_name() is None,
                Err(error) => trim(id@, Padding::WhiteSpace).len() == 0 && is_blank_id_error(error),
            },
    {
        let trimmed = trim_text(id, Padding::WhiteSpace);
        if trimmed.as_str().unicode_len() == 0 {
            Err(DurableObjectError::Runtime(copy_text("durable object id cannot be empty")))
        } else {
            Ok(DurableObjectId::new(copy_text(id), None))
        }
    }

    /// Allocate a new unique ID.
    pub fn new_unique_id(&mut self) -> (r: Result<DurableObjectId, DurableObjectError>)
        ensures
            r matches Ok(id) && id.text() == numbered_id(
                old(self).class(),
                old(self).next_number(),
            ) && id.given_name() is None,
            final(self).class() == old(self).class(),
            final(self).instances() == old(self).instances(),
            final(self).next_number() == if old(self).next_number() == u64::MAX {
                0
            } else {
                old(self).next_number() + 1
            },
    {
        let number = self.next_id;
        if self.next_id == u64::MAX {
            self.next_id = 0;
        } else {
            self.next_id = self.next_id + 1;
        }
        let mut text = copy_text("native:");
        text.append(self.class.as_str());
        text.append(":");
        let digits = decimal_text(number);
        text.append(digits.as_str());
        Ok(DurableObjectId::new(text, None))
    }

    /// The object with an ID, which may not be blank.
    pub fn get(&self, id: &str) -> (r: Result<NativeDurableObjectStub, DurableObjectError>)
        ensures
            match r {
                Ok(stub) => trim(id@, Padding::WhiteSpace).len() > 0 && stub.target().text() == id@
                    && stub.target().given_name() is None,
                Err(error) => trim(id@, Padding::WhiteSpace).len() == 0 && is_blank_id_error(error),
            },
    {
        match self.id_from_string(id) {
            Ok(id) => Ok(NativeDurableObjectStub { id }),
            Err(error) => Err(error),
        }
    }

    /// The object with a name.
    pub fn get_by_name(&self, name: &str) -> (r: Result<
        NativeDurableObjectStub,
        DurableObjectError,
    >)
        ensures
            r matches Ok(stub) && stub.target().text() == id_of_name(self.class(), name@)
                && stub.target().given_name() == Some(name@),
    {
        match self.id_from_name(name) {
            Ok(id) => Ok(NativeDurableObjectStub { id }),
            Err(error) => Err(error),
        }
    }

    /// The instance of an ID, which is created when it is first asked for.
    pub fn slot_for(&mut self, id: &str) -> (r: usize)
        requires
            old(self).wf(),
        ensures
            final(self).wf(),
            final(self).class() == old(self).class(),
            final(self).next_number() == old(self).next_number(),
            final(self).instances() == if old(self).instances().contains(id@) {
                old(self).instances()
            } else {
                old(self).instances().push(id@)
            },
            r < final(self).instances().len(),
            final(self).instances()[r as int] == id@,
    {
        let ghost before = self.instances();
        let mut i: usize = 0;
        while i < self.instances.len()
            invariant
                i <= self.instances.len(),
                *self == *old(self),
                before == self.instances(),
                before.len() == self.instances.len(),
                before.no_duplicates(),
                forall|j: int| 0 <= j < i ==> #[trigger] before[j] != id@,
            decreases self.instances.len() - i,
        {
            assert(before[i as int] == self.instances@[i as int]@);
            if same(self.instances[i].as_str(), id) {
                assert(before.contains(id@));
                return i;
            }
            i = i + 1;
        }
        assert(!before.contains(id@));
        self.instances.push(copy_text(id));
        assert(self.instances() =~= before.push(id@));
        i
    }
}

/// One object of a namespace.
#[derive(Debug, Clone)]
pub struct NativeDurableObjectStub {
    id: DurableObjectId,
}

/// A request that is made up for an object.
#[derive(Debug)]
pub struct ObjectRequest {
    /// Its method.
    pub method: &'static str,
    /// Its URI.
    pub uri: String,
}

impl NativeDurableObjectStub {
    /// The ID of the object.
    pub closed spec fn target(&self) -> DurableObjectId {
        self.id
    }

    /// The ID of the object.
    pub fn id(&self) -> (r: &DurableObjectId)
        ensures
            *r == self.target(),
    {
        &self.id
    }

    /// The request that asks the object for a URL.
    pub fn fetch_url(&self, url: &str) -> (r: Result<ObjectRequest, DurableObjectError>)
        ensures
            match uri_parts(url@) {
                Ok(_) => r matches Ok(request) && request.method@ == "GET"@ && request.uri@ == url@,
                Err(text) => r matches Err(error) && is_invalid_url_error(error, text),
            },
    {
        match parse_uri(url) {
            Ok(_) => Ok(ObjectRequest { method: "GET", uri: copy_text(url) }),
            Err(text) => Err(invalid_url(text.as_str())),
        }
    }
}

/// The request that tells an object of its alarm.
pub fn alarm_request() -> (r: ObjectRequest)
    ensures
        r.method@ == "POST"@,
        r.uri@ == ALARM_REQUEST_PATH@,
{
    ObjectRequest { method: "POST", uri: copy_text(ALARM_REQUEST_PATH) }
}

/// Whether an error reports a blank ID.
pub open spec fn is_blank_id_error(error: DurableObjectError) -> bool {
    error matches DurableObjectError::Runtime(msg) && msg@ == "durable object id cannot be empty"@
}

/// Unique IDs of a class with different numbers are different.
pub proof fn unique_ids_differ(class: Seq<char>, a: u64, b: u64)
    requires
        a != b,
    ensures
        numbered_id(class, a) != numbered_id(class, b),
{
    let head = "native:"@ + class + ":"@;
    if numbered_id(class, a) == numbered_id(class, b) {
        let x = numbered_id(class, a);
        assert(x.subrange(head.len() as int, x.len() as int) =~= decimal(a as nat));
        assert(x.subrange(head.len() as int, x.len() as int) =~= decimal(b as nat));
        lemma_decimal_is_injective(a as nat, b as nat);
    }
}

/// The state of an object that the framework keeps between events.
#[derive(Debug)]
pub struct ObjectState {
    state: Option<Vec<u8>>,
}

impl ObjectState {
    /// The stored bytes, if any were stored.
    pub closed spec fn stored(&self) -> Option<Seq<u8>> {
        optional_bytes(self.state)
    }

    /// Nothing stored.
    pub fn new() -> (r: Self)
        ensures
            r.stored() is None,
    {
        ObjectState { state: None }
    }

    /// The bytes to restore the object from. There are none for an object that keeps its own state,
    /// and before anything was stored: such an object starts from its default.
    pub fn bytes_to_load(&self, persist: bool) -> (r: Option<&Vec<u8>>)
        ensures
            match r {
                Some(bytes) => loaded_from(self.stored(), persist) == Some(bytes@),
                None => loaded_from(self.stored(), persist) is None,
            },
    {
        if !persist {
            return None;
        }
        match &self.state {
            Some(bytes) => Some(bytes),
            None => None,
        }
    }

    /// The object, given what parsing the stored bytes gave.
    pub fn load_object<T>(parsed: Option<Result<T, String>>, default: T) -> (r: Result<
        T,
        DurableObjectError,
    >)
        ensures
            match parsed {
                Some(Ok(object)) => r == Ok::<T, DurableObjectError>(object),
                Some(Err(message)) => r == Err::<T, DurableObjectError>(
                    DurableObjectError::Serialization(message),
                ),
                None => r == Ok::<T, DurableObjectError>(default),
            },
    {
        match parsed {
            Some(Ok(object)) => Ok(object),
            Some(Err(message)) => Err(DurableObjectError::Serialization(message)),
            None => Ok(default),
        }
    }

    /// Store the object that was serialized. The state stays as it is where the object keeps its own
    /// state, and where it could not be serialized, which is an error.
    pub fn save_object(&mut self, persist: bool, serialized: Result<Vec<u8>, String>) -> (r: Result<
        (),
        DurableObjectError,
    >)
        ensures
            match serialized {
                Ok(bytes) => r is Ok && final(self).stored() == stored_after(
                    old(self).stored(),
                    bytes@,
                    persist,
                ),
                Err(message) => final(self).stored() == old(self).stored() && if persist {
                    r == Err::<(), DurableObjectError>(DurableObjectError::Serialization(message))
                } else {
                    r is Ok
                },
            },
    {
        if !persist {
            return Ok(());
        }
        match serialized {
            Ok(bytes) => {
                self.state = Some(bytes);
                Ok(())
            },
            Err(message) => Err(DurableObjectError::Serialization(message)),
        }
    }
}

/// What came of an event that an object handled.
#[derive(Debug)]
pub enum EventOutcome {
    /// A request was answered; errors of its handler are answers too.
    Fetched,
    /// There is no handler for alarms.
    NoAlarmHandler,
    /// The alarm handler ran, or failed with a text.
    Alarm(Result<(), String>),
    /// The socket handler ran, or failed.
    Socket(Result<(), DurableObjectError>),
}

/// What follows from an event: whether the object is stored, or the error that is reported.
pub open spec fn event_result(outcome: EventOutcome, r: Result<(), DurableObjectError>) -> bool {
    match outcome {
        EventOutcome::Fetched => r is Ok,
        EventOutcome::NoAlarmHandler => r is Err && is_missing_alarm_error(r->Err_0),
        EventOutcome::Alarm(Ok(_)) => r is Ok,
        EventOutcome::Alarm(Err(message)) => r == Err::<(), DurableObjectError>(
            DurableObjectError::Runtime(message),
        ),
        EventOutcome::Socket(Ok(_)) => r is Ok,
        EventOutcome::Socket(Err(error)) => r == Err::<(), DurableObjectError>(error),
    }
}

/// Whether an error reports that there is no handler for alarms.
pub open spec fn is_missing_alarm_error(error: DurableObjectError) -> bool {
    error matches DurableObjectError::Runtime(msg) && msg@
        == "No alarm handler registered. Use Route::on_alarm(handler)."@
}

/// What follows from an event: the object is stored where this succeeds, and only there.
pub fn conclude_event(outcome: EventOutcome) -> (r: Result<(), DurableObjectError>)
    ensures
        event_result(outcome, r),
{
    match outcome {
        EventOutcome::Fetched => Ok(()),
        EventOutcome::NoAlarmHandler => Err(
            DurableObjectError::Runtime(
                copy_text("No alarm handler registered. Use Route::on_alarm(handler)."),
            ),
        ),
        EventOutcome::Alarm(Ok(_)) => Ok(()),
        EventOutcome::Alarm(Err(message)) => Err(DurableObjectError::Runtime(message)),
        EventOutcome::Socket(Ok(_)) => Ok(()),
        EventOutcome::Socket(Err(error)) => Err(error),
    }
}

/// The sockets of a registry.
pub open spec fn socket_views(sockets: Seq<(u64, Vec<String>)>) -> Seq<(u64, Seq<Seq<char>>)> {
    sockets.map_values(|s: (u64, Vec<String>)| (s.0, texts(s.1@)))
}

/// The first `to` sockets, without the one with an ID.
pub open spec fn without_socket(
    sockets: Seq<(u64, Seq<Seq<char>>)>,
    id: u64,
    to: int,
) -> Seq<(u64, Seq<Seq<char>>)>
    decreases to,
{
    if to <= 0 || to > sockets.len() {
        Seq::empty()
    } else {
        let earlier = without_socket(sockets, id, to - 1);
        if sockets[to - 1].0 == id {
            earlier
        } else {
            earlier.push(sockets[to - 1])
        }
    }
}

/// Whether a socket is asked for: all are, or those with a tag.
pub open spec fn carries(tags: Seq<Seq<char>>, tag: Option<Seq<char>>) -> bool {
    match tag {
        Some(tag) => tags.contains(tag),
        None => true,
    }
}

/// The IDs of those of the first `to` sockets that are asked for.
pub open spec fn matching_ids(
    sockets: Seq<(u64, Seq<Seq<char>>)>,
    tag: Option<Seq<char>>,
    to: int,
) -> Seq<u64>
    decreases to,
{
    if to <= 0 || to > sockets.len() {
        Seq::empty()
    } else {
        let earlier = matching_ids(sockets, tag, to - 1);
        if carries(sockets[to - 1].1, tag) {
            earlier.push(sockets[to - 1].0)
        } else {
            earlier
        }
    }
}

/// A text that is answered without the object being asked, and its answer.
pub open spec fn pair_view(pair: Option<(String, String)>) -> Option<(Seq<char>, Seq<char>)> {
    match pair {
        Some(pair) => Some((pair.0@, pair.1@)),
        None => None,
    }
}

/// The answer to a message, if it is answered without the object being asked.
pub open spec fn automatic_answer(
    pair: Option<(Seq<char>, Seq<char>)>,
    message: Seq<char>,
) -> Option<Seq<char>> {
    match pair {
        Some(pair) => if pair.0 == message {
            Some(pair.1)
        } else {
            None
        },
        None => None,
    }
}

/// The sockets one object has accepted, and the message it answers by itself.
#[derive(Debug)]
pub struct NativeConnections {
    next_id: u64,
    sockets: Vec<(u64, Vec<String>)>,
    auto_response: Option<(String, String)>,
}

impl NativeConnections {
    /// The ID of the next socket.
    pub closed spec fn next(&self) -> u64 {
        self.next_id
    }

    /// The sockets with their tags, in the order they were accepted.
    pub closed spec fn sockets(&self) -> Seq<(u64, Seq<Seq<char>>)> {
        socket_views(self.sockets@)
    }

    /// The message that is answered without the object being asked, and its answer.
    pub closed spec fn pair(&self) -> Option<(Seq<char>, Seq<char>)> {
        pair_view(self.auto_response)
    }

    /// Whether the IDs of the sockets are distinct, and less than the next.
    pub open spec fn wf(&self) -> bool {
        &&& forall|i: int|
            0 <= i < self.sockets().len() ==> (#[trigger] self.sockets()[i]).0 < self.next()
        &&& forall|i: int, j: int|
            0 <= i < j < self.sockets().len() ==> (#[trigger] self.sockets()[i]).0 < (
            #[trigger] self.sockets()[j]).0
    }

    /// No sockets.
    pub fn new() -> (r: Self)
        ensures
            r.next() == 0,
            r.sockets() == Seq::<(u64, Seq<Seq<char>>)>::empty(),
            r.pair() is None,
            r.wf(),
    {
        let r = NativeConnections { next_id: 0, sockets: Vec::new(), auto_response: None };
        assert(r.sockets() =~= Seq::<(u64, Seq<Seq<char>>)>::empty());
        r
    }

    /// Whether another socket can be told apart from those accepted before.
    pub fn can_register(&self) -> (r: bool)
        ensures
            r == (self.next() < u64::MAX),
    {
        self.next_id < u64::MAX
    }

    /// Accept a socket.
    pub fn register(&mut self, tags: Vec<String>) -> (r: u64)
        requires
            old(self).wf(),
            old(self).next() < u64::MAX,
        ensures
            final(self).wf(),
            r == old(self).next(),
            final(self).next() == old(self).next() + 1,
            final(self).sockets() == old(self).sockets().push((r, texts(tags@))),
            final(self).pair() == old(self).pair(),
    {
        let ghost before = self.sockets();
        let id = self.next_id;
        self.next_id = id + 1;
        self.sockets.push((id, tags));
        assert(self.sockets() =~= before.push((id, texts(tags@))));
        id
    }

    /// Forget a socket.
    pub fn remove(&mut self, id: u64)
        requires
            old(self).wf(),
        ensures
            final(self).wf(),
            final(self).next() == old(self).next(),
            final(self).sockets() == without_socket(
                old(self).sockets(),
                id,
                old(self).sockets().len() as int,
            ),
            final(self).pair() == old(self).pair(),
    {
        let ghost before = self.sockets();
        let ghost count = before.len() as int;
        let mut i: usize = 0;
        proof {
            lemma_without_keeps_all(before, id, 0);
        }
        while i < self.sockets.len() && self.sockets[i].0 != id
            invariant
                i <= self.sockets.len(),
                *self == *old(self),
                before == self.sockets(),
                before.len() == self.sockets.len(),
                forall|j: int| 0 <= j < i ==> (#[trigger] before[j]).0 != id,
            decreases self.sockets.len() - i,
        {
            assert(before[i as int].0 == self.sockets@[i as int].0);
            i = i + 1;
        }
        proof {
            lemma_without_keeps_all(before, id, i as int);
        }
        if i < self.sockets.len() {
            proof {
                assert(before[i as int].0 == self.sockets@[i as int].0);
                lemma_without_drops_one(before, id, i as int, count);
            }
            let _removed = self.sockets.remove(i);
            assert(self.sockets() =~= before.remove(i as int));
        } else {
            assert(before.take(count) =~= before);
        }
    }

    /// The answer to a message, if it is answered without the object being asked.
    pub fn auto_response(&self, message: &str) -> (r: Option<String>)
        ensures
            optional_text(r) == automatic_answer(self.pair(), message@),
    {
        match &self.auto_response {
            Some(pair) => if same(pair.0.as_str(), message) {
                Some(copy_text(pair.1.as_str()))
            } else {
                None
            },
            None => None,
        }
    }

    /// The IDs of all sockets, or only of those with a tag.
    pub fn connections(&self, tag: Option<&str>) -> (r: Vec<u64>)
        ensures
            r@ == matching_ids(
                self.sockets(),
                optional_str(tag),
                self.sockets().len() as int,
            ),
    {
        let ghost all = self.sockets();
        let ghost wanted = optional_str(tag);
        let mut out: Vec<u64> = Vec::new();
        let mut i: usize = 0;
        while i < self.sockets.len()
            invariant
                i <= self.sockets.len(),
                all == self.sockets(),
                all.len() == self.sockets.len(),
                wanted == optional_str(tag),
                out@ == matching_ids(all, wanted, i as int),
            decreases self.sockets.len() - i,
        {
            assert(all[i as int] == (
                self.sockets@[i as int].0,
                texts(self.sockets@[i as int].1@),
            ));
            let is_wanted = match tag {
                Some(tag) => lists(&self.sockets[i].1, tag),
                None => true,
            };
            if is_wanted {
                out.push(self.sockets[i].0);
            }
            i = i + 1;
        }
        out
    }

    /// Remember a message to answer without the object being asked, or forget it.
    pub fn store_auto_response(&mut self, pair: Option<(String, String)>)
        ensures
            final(self).next() == old(self).next(),
            final(self).sockets() == old(self).sockets(),
            final(self).pair() == pair_view(pair),
            old(self).wf() ==> final(self).wf(),
    {
        self.auto_response = pair;
    }
}

proof fn lemma_without_keeps_all(sockets: Seq<(u64, Seq<Seq<char>>)>, id: u64, to: int)
    requires
        0 <= to <= sockets.len(),
        forall|j: int| 0 <= j < to ==> (#[trigger] sockets[j]).0 != id,
    ensures
        without_socket(sockets, id, to) == sockets.take(to),
    decreases to,
{
    if to > 0 {
        lemma_without_keeps_all(sockets, id, to - 1);
        assert(sockets.take(to - 1).push(sockets[to - 1]) =~= sockets.take(to));
    } else {
        assert(sockets.take(0) =~= Seq::empty());
    }
}

proof fn lemma_without_drops_one(
    sockets: Seq<(u64, Seq<Seq<char>>)>,
    id: u64,
    at: int,
    to: int,
)
    requires
        0 <= at < to <= sockets.len(),
        sockets[at].0 == id,
        forall|i: int, j: int|
            0 <= i < j < sockets.len() ==> (#[trigger] sockets[i]).0 < (#[trigger] sockets[j]).0,
        forall|j: int| 0 <= j < at ==> (#[trigger] sockets[j]).0 != id,
    ensures
        without_socket(sockets, id, to) == sockets.take(to).remove(at),
        to == sockets.len() ==> without_socket(sockets, id, to) == sockets.remove(at),
    decreases to,
{
    if to == at + 1 {
        lemma_without_keeps_all(sockets, id, at);
        assert(sockets.take(to).remove(at) =~= sockets.take(at));
    } else {
        lemma_without_drops_one(sockets, id, at, to - 1);
        assert(sockets[at].0 < sockets[to - 1].0);
        assert(sockets.take(to - 1).remove(at).push(sockets[to - 1]) =~= sockets.take(to).remove(
            at,
        ));
    }
    assert(sockets.take(sockets.len() as int) =~= sockets);
}

proof fn lemma_without_has_no_such(sockets: Seq<(u64, Seq<Seq<char>>)>, id: u64, to: int)
    ensures
        forall|i: int|
            0 <= i < without_socket(sockets, id, to).len() ==> (#[trigger] without_socket(
                sockets,
                id,
                to,
            )[i]).0 != id,
    decreases to,
{
    if 0 < to <= sockets.len() {
        let earlier = without_socket(sockets, id, to - 1);
        lemma_without_has_no_such(sockets, id, to - 1);
        assert forall|i: int| 0 <= i < without_socket(sockets, id, to).len() implies (
        #[trigger] without_socket(sockets, id, to)[i]).0 != id by {
            if i < earlier.len() {
                assert(without_socket(sockets, id, to)[i] == earlier[i]);
            }
        }
    }
}

/// A socket that was forgotten is not among the sockets any more.
pub proof fn a_removed_socket_is_gone(sockets: Seq<(u64, Seq<Seq<char>>)>, id: u64)
    ensures
        forall|i: int|
            0 <= i < without_socket(sockets, id, sockets.len() as int).len() ==> (
            #[trigger] without_socket(sockets, id, sockets.len() as int)[i]).0 != id,
{
    lemma_without_has_no_such(sockets, id, sockets.len() as int);
}

/// What a client's socket gave.
#[derive(Debug)]
pub enum Incoming {
    /// A message.
    Message(WebSocketMessage),
    /// A ping.
    Ping(Vec<u8>),
    /// A pong.
    Pong,
    /// The client closes the connection.
    Close,
    /// The connection ended.
    End,
    /// The connection failed.
    Failed(String),
}

/// What an object wants done with a socket.
#[derive(Debug)]
pub enum SocketCommand {
    /// Send a text.
    Text(String),
    /// Send bytes.
    Binary(Vec<u8>),
    /// Close the connection.
    Close {
        /// The close code.
        code: u16,
        /// The close reason.
        reason: String,
    },
}

/// What a session does next.
#[derive(Debug)]
pub enum SessionAction {
    /// Send a text to the client.
    SendText(String),
    /// Send bytes to the client.
    SendBinary(Vec<u8>),
    /// Answer a ping.
    SendPong(Vec<u8>),
    /// Close the connection.
    SendClose {
        /// The close code.
        code: u16,
        /// The close reason.
        reason: String,
    },
    /// Deliver an event to the object.
    Dispatch(WebSocketEvent),
    /// Nothing.
    Nothing,
}

/// What a session does next, and whether it ends with that.
#[derive(Debug)]
pub struct SessionStep {
    /// What to do.
    pub action: SessionAction,
    /// Whether the session ends.
    pub stop: bool,
}

/// Whether a step is the one that follows from what the client's socket gave.
pub open spec fn is_incoming_step(
    incoming: Incoming,
    pair: Option<(Seq<char>, Seq<char>)>,
    step: SessionStep,
) -> bool {
    match incoming {
        Incoming::Message(WebSocketMessage::Text(text)) => !step.stop && match automatic_answer(
            pair,
            text@,
        ) {
            Some(answer) => step.action matches SessionAction::SendText(sent) && sent@ == answer,
            None => step.action == SessionAction::Dispatch(
                WebSocketEvent::Message(WebSocketMessage::Text(text)),
            ),
        },
        Incoming::Message(WebSocketMessage::Binary(data)) => !step.stop && step.action
            == SessionAction::Dispatch(WebSocketEvent::Message(WebSocketMessage::Binary(data))),
        Incoming::Ping(data) => !step.stop && step.action == SessionAction::SendPong(data),
        Incoming::Pong => !step.stop && step.action is Nothing,
        Incoming::Close => step.stop && is_clean_close(step.action),
        Incoming::End => step.stop && is_clean_close(step.action),
        Incoming::Failed(error) => step.stop && step.action == SessionAction::Dispatch(
            WebSocketEvent::Error(error),
        ),
    }
}

/// Whether an action tells the object that the connection was closed cleanly.
pub open spec fn is_clean_close(action: SessionAction) -> bool {
    action matches SessionAction::Dispatch(
        WebSocketEvent::Close { code, reason, was_clean },
    ) && code == 1000 && reason@ == ""@ && was_clean
}

/// What follows from what the client's socket gave: a message that is answered automatically does
/// not reach the object, others do; pings are answered, pongs are not; and the session ends where
/// the connection does, after the object was told.
pub fn on_incoming(incoming: Incoming, connections: &NativeConnections) -> (r: SessionStep)
    ensures
        is_incoming_step(incoming, connections.pair(), r),
{
    match incoming {
        Incoming::Message(WebSocketMessage::Text(text)) => {
            match connections.auto_response(text.as_str()) {
                Some(answer) => SessionStep { action: SessionAction::SendText(answer), stop: false },
                None => SessionStep {
                    action: SessionAction::Dispatch(
                        WebSocketEvent::Message(WebSocketMessage::Text(text)),
                    ),
                    stop: false,
                },
            }
        },
        Incoming::Message(WebSocketMessage::Binary(data)) => SessionStep {
            action: SessionAction::Dispatch(
                WebSocketEvent::Message(WebSocketMessage::Binary(data)),
            ),
            stop: false,
        },
        Incoming::Ping(data) => SessionStep { action: SessionAction::SendPong(data), stop: false },
        Incoming::Pong => SessionStep { action: SessionAction::Nothing, stop: false },
        Incoming::Close => closing_step(),
        Incoming::End => closing_step(),
        Incoming::Failed(error) => SessionStep {
            action: SessionAction::Dispatch(WebSocketEvent::Error(error)),
            stop: true,
        },
    }
}

fn closing_step() -> (r: SessionStep)
    ensures
        r.stop,
        is_clean_close(r.action),
{
    SessionStep {
        action: SessionAction::Dispatch(
            WebSocketEvent::Close { code: 1000, reason: copy_text(""), was_clean: true },
        ),
        stop: true,
    }
}

/// Whether a step is the one that follows from what the object wants done with a socket.
pub open spec fn is_command_step(command: Option<SocketCommand>, step: SessionStep) -> bool {
    match command {
        Some(SocketCommand::Text(text)) => !step.stop && step.action == SessionAction::SendText(
            text,
        ),
        Some(SocketCommand::Binary(data)) => !step.stop && step.action
            == SessionAction::SendBinary(data),
        Some(SocketCommand::Close { code, reason }) => step.stop && step.action == (
        SessionAction::SendClose { code, reason }),
        None => step.stop && step.action is Nothing,
    }
}

/// What follows from what the object wants done with a socket. The session ends with a close, and
/// where nobody can want anything any more.
pub fn on_command(command: Option<SocketCommand>) -> (r: SessionStep)
    ensures
        is_command_step(command, r),
{
    match command {
        Some(SocketCommand::Text(text)) => SessionStep {
            action: SessionAction::SendText(text),
            stop: false,
        },
        Some(SocketCommand::Binary(data)) => SessionStep {
            action: SessionAction::SendBinary(data),
            stop: false,
        },
        Some(SocketCommand::Close { code, reason }) => SessionStep {
            action: SessionAction::SendClose { code, reason },
            stop: true,
        },
        None => SessionStep { action: SessionAction::Nothing, stop: true },
    }
}

/// The session of a socket: it waits for the client or the object, does what follows, and ends with
/// the socket being forgotten.
#[derive(Debug)]
pub struct WebSocketSession {
    id: u64,
    phase: SessionPhase,
}

/// Where a session is.
#[derive(Debug)]
pub enum SessionPhase {
    /// It waits for the client or the object.
    Waiting,
    /// It does something; where `stop` is set it ends after that.
    Acting {
        /// Whether it ends after that.
        stop: bool,
    },
    /// It ended; the socket is to be forgotten.
    Leaving(Result<(), DurableObjectError>),
}

/// The phase after an action: an action that fails ends the session, and so does the last one.
pub open spec fn is_phase_after(
    stop: bool,
    result: Result<(), DurableObjectError>,
    phase: SessionPhase,
) -> bool {
    match result {
        Err(error) => phase == SessionPhase::Leaving(Err(error)),
        Ok(_) => if stop {
            phase matches SessionPhase::Leaving(ended) && ended is Ok
        } else {
            phase is Waiting
        },
    }
}

impl WebSocketSession {
    /// The ID of the socket.
    pub closed spec fn socket(&self) -> u64 {
        self.id
    }

    /// Where the session is.
    pub closed spec fn phase(&self) -> SessionPhase {
        self.phase
    }

    /// Start the session of a socket that is accepted with tags.
    pub fn open(connections: &mut NativeConnections, tags: Vec<String>) -> (r: Self)
        requires
            old(connections).wf(),
            old(connections).next() < u64::MAX,
        ensures
            final(connections).wf(),
            final(connections).next() == old(connections).next() + 1,
            final(connections).sockets() == old(connections).sockets().push(
                (r.socket(), texts(tags@)),
            ),
            final(connections).pair() == old(connections).pair(),
            r.socket() == old(connections).next(),
            r.phase() is Waiting,
    {
        let id = connections.register(tags);
        WebSocketSession { id, phase: SessionPhase::Waiting }
    }

    /// The ID of the socket.
    pub fn id(&self) -> (r: u64)
        ensures
            r == self.socket(),
    {
        self.id
    }

    /// Whether the session waits for the client or the object.
    pub fn is_waiting(&self) -> (r: bool)
        ensures
            r == (self.phase() is Waiting),
    {
        matches!(self.phase, SessionPhase::Waiting)
    }

    /// Take what the client's socket gave, and say what to do.
    pub fn on_incoming(&mut self, incoming: Incoming, connections: &NativeConnections) -> (r:
        SessionAction)
        requires
            old(self).phase() is Waiting,
        ensures
            final(self).socket() == old(self).socket(),
            final(self).phase() matches SessionPhase::Acting { stop } && is_incoming_step(
                incoming,
                connections.pair(),
                (SessionStep { action: r, stop }),
            ),
    {
        let step = on_incoming(incoming, connections);
        self.phase = SessionPhase::Acting { stop: step.stop };
        step.action
    }

    /// Take what the object wants done, and say what to do.
    pub fn on_command(&mut self, command: Option<SocketCommand>) -> (r: SessionAction)
        requires
            old(self).phase() is Waiting,
        ensures
            final(self).socket() == old(self).socket(),
            final(self).phase() matches SessionPhase::Acting { stop } && is_command_step(
                command,
                (SessionStep { action: r, stop }),
            ),
    {
        let step = on_command(command);
        self.phase = SessionPhase::Acting { stop: step.stop };
        step.action
    }

    /// Take how the action ended.
    pub fn on_done(&mut self, result: Result<(), DurableObjectError>)
        requires
            old(self).phase() is Acting,
        ensures
            final(self).socket() == old(self).socket(),
            old(self).phase() matches SessionPhase::Acting { stop } && is_phase_after(
                stop,
                result,
                final(self).phase(),
            ),
    {
        let stop = match &self.phase {
            SessionPhase::Acting { stop } => *stop,
            _ => true,
        };
        self.phase = match result {
            Err(error) => SessionPhase::Leaving(Err(error)),
            Ok(_) => if stop {
                SessionPhase::Leaving(Ok(()))
            } else {
                SessionPhase::Waiting
            },
        };
    }

    /// End the session: forget its socket, and say how it ended.
    pub fn leave(self, connections: &mut NativeConnections) -> (r: Result<(), DurableObjectError>)
        requires
            self.phase() is Leaving,
            old(connections).wf(),
        ensures
            self.phase() matches SessionPhase::Leaving(outcome) && r == outcome,
            final(connections).wf(),
            final(connections).next() == old(connections).next(),
            final(connections).sockets() == without_socket(
                old(connections).sockets(),
                self.socket(),
                old(connections).sockets().len() as int,
            ),
            final(connections).pair() == old(connections).pair(),
    {
        connections.remove(self.id);
        match self.phase {
            SessionPhase::Leaving(outcome) => outcome,
            _ => Ok(()),
        }
    }
}

/// Store the object after an event, if the event went well: the whole of what follows from an event
/// that was handled.
pub fn finish_event(
    state: &mut ObjectState,
    persist: bool,
    outcome: EventOutcome,
    serialized: Result<Vec<u8>, String>,
) -> (r: Result<(), DurableObjectError>)
    ensures
        exists|concluded: Result<(), DurableObjectError>| #[trigger]
            event_result(outcome, concluded) && match concluded {
                Err(error) => r == Err::<(), DurableObjectError>(error) && final(state).stored()
                    == old(state).stored(),
                Ok(_) => match serialized {
                    Ok(bytes) => r is Ok && final(state).stored() == stored_after(
                        old(state).stored(),
                        bytes@,
                        persist,
                    ),
                    Err(message) => final(state).stored() == old(state).stored() && if persist {
                        r == Err::<(), DurableObjectError>(
                            DurableObjectError::Serialization(message),
                        )
                    } else {
                        r is Ok
                    },
                },
            },
{
    let concluded = conclude_event(outcome);
    let ghost given = concluded;
    assert(event_result(outcome, given));
    match concluded {
        Err(error) => Err(error),
        Ok(_) => state.save_object(persist, serialized),
    }
}

/// What is stored after an event is what the next one starts from, for an object whose state the
/// framework keeps; one that keeps its own starts from its default every time.
pub proof fn the_next_event_starts_from_what_was_stored(
    before: Option<Seq<u8>>,
    bytes: Seq<u8>,
    persist: bool,
)
    ensures
        ({
            let after = stored_after(before, bytes, persist);
            loaded_from(after, persist) == if persist {
                Some(bytes)
            } else {
                None::<Seq<u8>>
            }
        }),
{
}

/// What is stored after an object was saved as these bytes.
pub open spec fn stored_after(before: Option<Seq<u8>>, bytes: Seq<u8>, persist: bool) -> Option<
    Seq<u8>,
> {
    if persist {
        Some(bytes)
    } else {
        before
    }
}

/// The bytes an object is restored from, if it does not start from its default.
pub open spec fn loaded_from(stored: Option<Seq<u8>>, persist: bool) -> Option<Seq<u8>> {
    if persist {
        stored
    } else {
        None
    }
}

/// What a hexadecimal digit stands for.
pub open spec fn hex_digit_value(c: char) -> int {
    if '0' <= c <= '9' {
        c as int - '0' as int
    } else {
        c as int - 'a' as int + 10
    }
}

/// What hexadecimal digits stand for.
pub open spec fn hex_value(s: Seq<char>) -> int
    decreases s.len(),
{
    if s.len() == 0 {
        0
    } else {
        hex_value(s.drop_last()) * 16 + hex_digit_value(s.last())
    }
}

/// Hexadecimal digits, as many as asked for, stand for the number, as far as they reach.
pub proof fn hexadecimal_digits_stand_for_the_number(n: nat, width: nat)
    ensures
        hex(n, width).len() == width,
        forall|i: int|
            0 <= i < width ==> '0' <= #[trigger] hex(n, width)[i] <= '9' || 'a' <= hex(n, width)[i]
                <= 'f',
        hex_value(hex(n, width)) == n % pow(16, width) as nat,
        pow(16, width) > 0,
    decreases width,
{
    reveal(pow);
    if width > 0 {
        let less = (width - 1) as nat;
        hexadecimal_digits_stand_for_the_number(n / 16, less);
        let all = hex(n, width);
        let d = (n % 16) as int;
        assert(all.drop_last() =~= hex(n / 16, less));
        assert(all.last() == hex_char(d));
        assert(hex_char(d) as u32 == if d < 10 {
            '0' as u32 + d
        } else {
            'a' as u32 + d - 10
        });
        assert(hex_digit_value(all.last()) == d);
        let m = pow(16, less);
        assert(pow(16, width) == 16 * m);
        assert((n as int) % (16 * m) == ((n as int) / 16 % m) * 16 + (n as int) % 16) by {
            lemma_mod_breakdown(n as int, 16, m);
        }
    } else {
        assert(n % 1 == 0);
    }
}

/// The ID of a name starts with the kind and the class and ends in its hash; different hashes of a
/// class have different IDs.
pub proof fn an_id_tells_its_class(class: Seq<char>, hash: u64, other: u64)
    ensures
        named_id(class, hash) == "native:"@ + class + ":"@ + hex(hash as nat, 16),
        named_id(class, hash) == named_id(class, other) ==> hash == other,
{
    let head = "native:"@ + class + ":"@;
    let a = named_id(class, hash);
    hexadecimal_digits_stand_for_the_number(hash as nat, 16);
    hexadecimal_digits_stand_for_the_number(other as nat, 16);
    assert(pow(16, 16) == 0x1_0000_0000_0000_0000) by {
        reveal(pow);
        reveal_with_fuel(pow, 17);
    }
    let m = pow(16, 16) as nat;
    assert(m == 0x1_0000_0000_0000_0000);
    assert((hash as nat) % 0x1_0000_0000_0000_0000 == hash);
    assert((other as nat) % 0x1_0000_0000_0000_0000 == other);
    assert(hex_value(hex(hash as nat, 16)) == hash);
    assert(hex_value(hex(other as nat, 16)) == other);
    if a == named_id(class, other) {
        assert(a.subrange(head.len() as int, a.len() as int) =~= hex(hash as nat, 16));
        assert(a.subrange(head.len() as int, a.len() as int) =~= hex(other as nat, 16));
    }
}

/// Different names, and names of different classes, are hashed from different bytes.
pub proof fn names_are_hashed_apart(
    class: Seq<char>,
    name: Seq<char>,
    other_class: Seq<char>,
    other_name: Seq<char>,
)
    requires
        hashed_bytes(class, name) == hashed_bytes(other_class, other_name),
    ensures
        class == other_class,
        name == other_name,
{
    let a = hashed_bytes(class, name);
    let b = hashed_bytes(other_class, other_name);
    assert(a[0] == b[0] && a[2] == b[2]);
    encode_utf8_decode_utf8(class);
    encode_utf8_decode_utf8(other_class);
    encode_utf8_decode_utf8(name);
    encode_utf8_decode_utf8(other_name);
}

/// A socket that is forgotten takes no other with it.
pub proof fn other_sockets_stay(
    sockets: Seq<(u64, Seq<Seq<char>>)>,
    id: u64,
    to: int,
    socket: (u64, Seq<Seq<char>>),
)
    requires
        0 <= to <= sockets.len(),
    ensures
        without_socket(sockets, id, to).contains(socket) <==> sockets.take(to).contains(socket)
            && socket.0 != id,
    decreases to,
{
    if to > 0 {
        other_sockets_stay(sockets, id, to - 1, socket);
        let earlier = without_socket(sockets, id, to - 1);
        let all = without_socket(sockets, id, to);
        let seen = sockets.take(to);
        let before = sockets.take(to - 1);
        assert(seen =~= before.push(sockets[to - 1]));
        assert(seen[to - 1] == sockets[to - 1]);
        if before.contains(socket) {
            let i = choose|i: int| 0 <= i < before.len() && before[i] == socket;
            assert(seen[i] == socket);
        }
        if seen.contains(socket) && sockets[to - 1] != socket {
            let i = choose|i: int| 0 <= i < seen.len() && seen[i] == socket;
            assert(before[i] == socket);
        }
        if earlier.contains(socket) {
            let i = choose|i: int| 0 <= i < earlier.len() && earlier[i] == socket;
            assert(all[i] == socket);
        }
        if all.contains(socket) {
            let i = choose|i: int| 0 <= i < all.len() && all[i] == socket;
            if i < earlier.len() {
                assert(earlier[i] == socket);
            } else {
                assert(socket == sockets[to - 1]);
            }
        }
        if sockets[to - 1] == socket && socket.0 != id {
            assert(all[all.len() - 1] == socket);
        }
    }
}

/// Asking for a tag gives the sockets that carry it, and asking for all gives all.
pub proof fn every_tagged_socket_is_found(
    sockets: Seq<(u64, Seq<Seq<char>>)>,
    tag: Seq<char>,
    to: int,
    id: u64,
)
    requires
        0 <= to <= sockets.len(),
    ensures
        matching_ids(sockets, Some(tag), to).contains(id) <==> exists|i: int|
            0 <= i < to && (#[trigger] sockets[i]).0 == id && sockets[i].1.contains(tag),
        matching_ids(sockets, None, to).len() == to,
        forall|i: int|
            0 <= i < to ==> #[trigger] matching_ids(sockets, None, to)[i] == sockets[i].0,
    decreases to,
{
    if to > 0 {
        every_tagged_socket_is_found(sockets, tag, to - 1, id);
        let earlier = matching_ids(sockets, Some(tag), to - 1);
        let all = matching_ids(sockets, Some(tag), to);
        let last = sockets[to - 1];
        if earlier.contains(id) {
            let i = choose|i: int| 0 <= i < earlier.len() && earlier[i] == id;
            assert(all[i] == id);
        }
        if last.0 == id && last.1.contains(tag) {
            assert(all[all.len() - 1] == id);
        }
        if all.contains(id) {
            let i = choose|i: int| 0 <= i < all.len() && all[i] == id;
            if i < earlier.len() {
                assert(earlier[i] == id);
            } else {
                assert(last.0 == id);
            }
        }
    }
}

/// Only the very text that was set is answered automatically, with the answer that was set.
pub proof fn only_the_set_text_is_answered(
    request: Seq<char>,
    answer: Seq<char>,
    message: Seq<char>,
)
    ensures
        automatic_answer(Some((request, answer)), request) == Some(answer),
        message != request ==> automatic_answer(Some((request, answer)), message) is None,
        automatic_answer(None, message) is None,
{
}

/// What a client sends reaches the object as it was sent, unless it is answered automatically; pings
/// are answered with what they carried. Only the end of a connection ends its session, and the
/// object is told of it.
pub proof fn what_a_client_sends_reaches_the_object(
    incoming: Incoming,
    pair: Option<(Seq<char>, Seq<char>)>,
    step: SessionStep,
)
    requires
        is_incoming_step(incoming, pair, step),
    ensures
        step.stop <==> incoming is Close || incoming is End || incoming is Failed,
        incoming is Ping ==> step.action == SessionAction::SendPong(incoming->Ping_0),
        incoming is Pong ==> step.action is Nothing,
        incoming matches Incoming::Message(message) ==> {
            ||| step.action == SessionAction::Dispatch(WebSocketEvent::Message(message))
            ||| message is Text && step.action is SendText && pair == Some(
                (message->Text_0@, step.action->SendText_0@),
            )
        },
        incoming matches Incoming::Message(WebSocketMessage::Text(text)) ==> (pair matches Some(set)
            ==> (set.0 == text@ <==> step.action is SendText)),
        incoming is Failed ==> step.action == SessionAction::Dispatch(
            WebSocketEvent::Error(incoming->Failed_0),
        ),
        incoming is Close || incoming is End ==> (step.action matches SessionAction::Dispatch(
            WebSocketEvent::Close { code, reason, was_clean },
        ) && code == 1000 && reason@.len() == 0 && was_clean),
{
    reveal_strlit("");
}

/// What the object wants sent is sent as it is. A close ends the session, and so does the end of all
/// who could want something.
pub proof fn what_the_object_wants_is_done(command: Option<SocketCommand>, step: SessionStep)
    requires
        is_command_step(command, step),
    ensures
        step.stop <==> command is None || command->0 is Close,
        command matches Some(SocketCommand::Text(text)) ==> step.action == SessionAction::SendText(
            text,
        ),
        command matches Some(SocketCommand::Binary(data)) ==> step.action
            == SessionAction::SendBinary(data),
        command matches Some(SocketCommand::Close { code, reason }) ==> step.action == (
        SessionAction::SendClose { code, reason }),
        command is None ==> step.action is Nothing,
{
}

/// A session goes on after an action that succeeded, unless that was its last one; it ends with the
/// error of one that failed.
pub proof fn a_session_goes_on_while_it_can(
    stop: bool,
    result: Result<(), DurableObjectError>,
    phase: SessionPhase,
)
    requires
        is_phase_after(stop, result, phase),
    ensures
        phase is Waiting <==> result is Ok && !stop,
        phase is Leaving <==> result is Err || stop,
        phase is Leaving && result is Err ==> phase->Leaving_0 == result,
        phase is Leaving && result is Ok ==> phase->Leaving_0 is Ok,
{
}

/// An event fails exactly where its handler failed or is missing, with the handler's error.
pub proof fn an_event_fails_with_its_handler(
    outcome: EventOutcome,
    r: Result<(), DurableObjectError>,
)
    requires
        event_result(outcome, r),
    ensures
        r is Ok <==> outcome is Fetched || (outcome is Alarm && outcome->Alarm_0 is Ok) || (
        outcome is Socket && outcome->Socket_0 is Ok),
        outcome matches EventOutcome::Alarm(Err(message)) ==> r == Err::<(), DurableObjectError>(
            DurableObjectError::Runtime(message),
        ),
        outcome matches EventOutcome::Socket(Err(error)) ==> r == Err::<(), DurableObjectError>(
            error,
        ),
        outcome is NoAlarmHandler ==> r is Err && r->Err_0 is Runtime,
{
}

/// An object that keeps its own state leaves what was stored as it is.
pub proof fn only_kept_state_is_stored(before: Option<Seq<u8>>, bytes: Seq<u8>)
    ensures
        stored_after(before, bytes, true) == Some(bytes),
        stored_after(before, bytes, false) == before,
        loaded_from(Some(bytes), true) == Some(bytes),
        loaded_from(None, true) is None,
        loaded_from(before, false) is None,
{
}

/// The ID of a name is made of its class and of the hash of both.
pub proof fn an_id_is_made_of_class_and_name(class: Seq<char>, name: Seq<char>)
    ensures
        id_of_name(class, name) == named_id(
            class,
            DefaultHasher::spec_finish(
                seq![encode_utf8(class), seq![255u8], encode_utf8(name), seq![255u8]],
            ),
        ),
{
}

} // verus!
