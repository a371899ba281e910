//! Running behind the Azure Functions host.
//!
//! The host starts an application as a web server. It forwards HTTP requests as they are, and posts
//! each queue message to a path named after a function.

use base64::Engine;

use vstd::prelude::*;
#[allow(unused_imports)]
use vstd::string::StringExecFns;
#[allow(unused_imports)]
use vstd::utf8::encode_utf8;

#[allow(unused_imports)]
use crate::routing::table::{inserted, is_literal, matched, patterns, turned_down};
use crate::routing::table;
use crate::runtime::consumer::{
    QueueBatch, QueueBatchDisposition, QueueMessage, QueueMessageDisposition,
};
#[allow(unused_imports)]
use crate::text::{
    a_numeral_is_read_back, bounded_numeral, decimal, join, optional_str, texts,
};
use crate::text::{
    copy_bytes, copy_text, decimal_text, join_texts, parse_number, same, strip_prefix,
};

verus! {

/// The environment variable the Functions host sets, and the sign of running under it.
pub const CUSTOM_HANDLER_PORT_ENV: &'static str = "FUNCTIONS_CUSTOMHANDLER_PORT";

/// A function that a queue triggers.
#[derive(Debug, Clone, Copy, PartialEq, Eq)]
pub struct QueueTrigger {
    /// The function's name, which is the path the host posts the message to.
    pub function: &'static str,
    /// The queue behind it.
    pub queue: &'static str,
}

/// Why an application cannot be served under the Functions host.
#[derive(Debug, Clone, PartialEq, Eq)]
pub enum MountError {
    /// A queue trigger is declared but the application has no handler for it.
    NoQueueHandler {
        /// The first such function.
        function: String,
    },
    /// Two triggers claim the same function name.
    DuplicateFunction {
        /// The name declared twice.
        function: String,
    },
    /// A trigger's path is already served by a route of the application's own.
    RouteCollision {
        /// The function whose path is taken.
        function: String,
        /// The route pattern that takes it.
        route: String,
    },
}

/// A mount error with its texts as sequences of characters.
pub enum MountErrorView {
    /// See [`MountError::NoQueueHandler`].
    NoQueueHandler {
        /// The first such function.
        function: Seq<char>,
    },
    /// See [`MountError::DuplicateFunction`].
    DuplicateFunction {
        /// The name declared twice.
        function: Seq<char>,
    },
    /// See [`MountError::RouteCollision`].
    RouteCollision {
        /// The function whose path is taken.
        function: Seq<char>,
        /// The route pattern that takes it.
        route: Seq<char>,
    },
}

impl View for MountError {
    type V = MountErrorView;

    open spec fn view(&self) -> MountErrorView {
        match self {
            MountError::NoQueueHandler { function } => MountErrorView::NoQueueHandler {
                function: function@,
            },
            MountError::DuplicateFunction { function } => MountErrorView::DuplicateFunction {
                function: function@,
            },
            MountError::RouteCollision { function, route } => MountErrorView::RouteCollision {
                function: function@,
                route: route@,
            },
        }
    }
}

/// The text of a mount error.
pub open spec fn mount_message(error: MountErrorView) -> Seq<char> {
    match error {
        MountErrorView::NoQueueHandler { function } =>
        "[[azure.queue_triggers]] declares the function `"@ + function
            + "`, but this application has no #[skyzen::queue] handler to give its messages to"@,
        MountErrorView::DuplicateFunction { function } =>
        "[[azure.queue_triggers]] declares the function `"@ + function
            + "` twice; every Functions name is a distinct URL path, so one would shadow the other"@,
        MountErrorView::RouteCollision { function, route } =>
        "[[azure.queue_triggers]] declares the function `"@ + function
            + "`, whose queue messages arrive at `/"@ + function
            + "` — which this application already serves as `"@ + route
            + "`. Rename the function, or the route"@,
    }
}

impl MountError {
    /// The error's text.
    pub fn message(&self) -> (r: String)
        ensures
            r@ == mount_message(self@),
    {
        let mut text = copy_text("[[azure.queue_triggers]] declares the function `");
        match self {
            MountError::NoQueueHandler { function } => {
                text.append(function.as_str());
                text.append(
                    "`, but this application has no #[skyzen::queue] handler to give its messages to",
                );
            },
            MountError::DuplicateFunction { function } => {
                text.append(function.as_str());
                text.append(
                    "` twice; every Functions name is a distinct URL path, so one would shadow the other",
                );
            },
            MountError::RouteCollision { function, route } => {
                text.append(function.as_str());
                text.append("`, whose queue messages arrive at `/");
                text.append(function.as_str());
                text.append("` — which this application already serves as `");
                text.append(route.as_str());
                text.append("`. Rename the function, or the route");
            },
        }
        text
    }
}

/// The first `to` routes that a path matcher takes, each with its index.
pub open spec fn accepted(routes: Seq<Seq<char>>, to: int) -> Seq<(Seq<char>, usize)>
    decreases to,
{
    if to <= 0 || to > routes.len() {
        Seq::empty()
    } else {
        let earlier = accepted(routes, to - 1);
        if turned_down(patterns(earlier), routes[to - 1]) is None {
            earlier.push((routes[to - 1], (to - 1) as usize))
        } else {
            earlier
        }
    }
}

/// The route that a path matcher finds for a path, if any.
pub open spec fn found_route(routes: Seq<Seq<char>>, path: Seq<char>) -> Option<Seq<char>> {
    match matched(accepted(routes, routes.len() as int), path) {
        Some((index, params)) => Some(routes[index as int]),
        None => None,
    }
}

/// The path that messages for a function arrive at.
pub open spec fn trigger_path(function: Seq<char>) -> Seq<char> {
    "/"@ + function
}

/// What is wrong with a trigger whose path finds a route. A route that is the path itself would
/// never be reached; a route that merely also matches the path only loses that one.
pub open spec fn collision(function: Seq<char>, found: Option<Seq<char>>) -> Option<MountErrorView> {
    match found {
        Some(route) => if route == trigger_path(function) {
            Some(MountErrorView::RouteCollision { function, route })
        } else {
            None
        },
        None => None,
    }
}

/// The function names of a list of triggers.
pub open spec fn functions(triggers: Seq<QueueTrigger>) -> Seq<Seq<char>> {
    triggers.map_values(|t: QueueTrigger| t.function@)
}

/// What is wrong with the triggers from an index on: the first of them that has no handler, or the
/// name of an earlier one, or the path of a route.
pub open spec fn mount_error(
    names: Seq<Seq<char>>,
    declares_handler: bool,
    routes: Seq<Seq<char>>,
    from: int,
) -> Option<MountErrorView>
    decreases names.len() - from,
{
    if from < 0 || from >= names.len() {
        None
    } else if !declares_handler {
        Some(MountErrorView::NoQueueHandler { function: names[from] })
    } else if names.take(from).contains(names[from]) {
        Some(MountErrorView::DuplicateFunction { function: names[from] })
    } else if collision(names[from], found_route(routes, trigger_path(names[from]))) is Some {
        collision(names[from], found_route(routes, trigger_path(names[from])))
    } else {
        mount_error(names, declares_handler, routes, from + 1)
    }
}

fn path_of(function: &str) -> (r: String)
    ensures
        r@ == trigger_path(function@),
{
    let mut path = copy_text("/");
    path.append(function);
    path
}

/// Judge a trigger by the route that its path finds.
pub fn judge_route(function: &str, found: Option<&str>) -> (r: Result<(), MountError>)
    ensures
        match r {
            Ok(_) => collision(
                function@,
                optional_str(found),
            ) is None,
            Err(error) => collision(function@, optional_str(found))
                == Some(error@),
        },
{
    match found {
        Some(route) => {
            let path = path_of(function);
            if same(route, path.as_str()) {
                Err(
                    MountError::RouteCollision {
                        function: copy_text(function),
                        route: copy_text(route),
                    },
                )
            } else {
                Ok(())
            }
        },
        None => Ok(()),
    }
}

proof fn lemma_accepted_indices(routes: Seq<Seq<char>>, to: int)
    requires
        0 <= to <= routes.len(),
        routes.len() <= usize::MAX,
    ensures
        forall|k: int|
            0 <= k < accepted(routes, to).len() ==> (#[trigger] accepted(routes, to)[k]).1 < to
                && accepted(routes, to)[k].0 == routes[accepted(routes, to)[k].1 as int],
    decreases to,
{
    if to > 0 {
        let earlier = accepted(routes, to - 1);
        lemma_accepted_indices(routes, to - 1);
        assert forall|k: int| 0 <= k < accepted(routes, to).len() implies (
        #[trigger] accepted(routes, to)[k]).1 < to && accepted(routes, to)[k].0
            == routes[accepted(routes, to)[k].1 as int] by {
            if k < earlier.len() {
                assert(accepted(routes, to)[k] == earlier[k]);
            }
        }
    }
}

/// The entries of those routes that were kept.
spec fn kept_entries(routes: Seq<Seq<char>>, kept: Seq<usize>) -> Seq<(Seq<char>, usize)> {
    kept.map_values(|i: usize| (routes[i as int], i))
}

/// Whether a path matcher takes entries one after the other.
spec fn can_be_inserted(entries: Seq<(Seq<char>, usize)>) -> bool {
    forall|k: int|
        0 <= k < entries.len() ==> turned_down(
            patterns(entries.take(k)),
            (#[trigger] entries[k]).0,
        ) is None
}

proof fn lemma_accepted_can_be_inserted(routes: Seq<Seq<char>>, to: int)
    requires
        0 <= to <= routes.len(),
    ensures
        can_be_inserted(accepted(routes, to)),
    decreases to,
{
    if to > 0 {
        let earlier = accepted(routes, to - 1);
        let all = accepted(routes, to);
        lemma_accepted_can_be_inserted(routes, to - 1);
        assert forall|k: int| 0 <= k < all.len() implies turned_down(
            patterns(all.take(k)),
            (#[trigger] all[k]).0,
        ) is None by {
            if k < earlier.len() {
                assert(all[k] == earlier[k]);
                assert(all.take(k) =~= earlier.take(k));
            } else {
                assert(all.take(k) =~= earlier);
            }
        }
    }
}

fn insert_kept(routes: &Vec<String>, kept: &Vec<usize>) -> (r: matchit::Router<usize>)
    requires
        forall|k: int| 0 <= k < kept.len() ==> #[trigger] kept@[k] < routes.len(),
        can_be_inserted(kept_entries(texts(routes@), kept@)),
    ensures
        inserted(r) == kept_entries(texts(routes@), kept@),
{
    let ghost entries = kept_entries(texts(routes@), kept@);
    let mut matcher = table::new_table();
    let mut earlier: Vec<String> = Vec::new();
    let mut k: usize = 0;
    assert(inserted(matcher) =~= entries.take(0));
    assert(texts(earlier@) =~= patterns(entries.take(0)));
    while k < kept.len()
        invariant
            k <= kept.len(),
            texts(earlier@) == patterns(entries.take(k as int)),
            entries == kept_entries(texts(routes@), kept@),
            can_be_inserted(entries),
            forall|j: int| 0 <= j < kept.len() ==> #[trigger] kept@[j] < routes.len(),
            inserted(matcher) == entries.take(k as int),
        decreases kept.len() - k,
    {
        let at = kept[k];
        assert(entries[k as int] == (routes@[at as int]@, at));
        match table::add_pattern(matcher, &earlier, routes[at].as_str(), at) {
            Ok(filled) => {
                matcher = filled;
            },
            Err(_) => {
                return table::new_table();
            },
        }
        let ghost before = earlier@;
        earlier.push(copy_text(routes[at].as_str()));
        k = k + 1;
        assert(entries.take(k as int) =~= entries.take(k - 1).push((routes@[at as int]@, at)));
        assert(texts(earlier@) =~= texts(before).push(routes@[at as int]@));
        assert(patterns(entries.take(k as int)) =~= patterns(entries.take(k - 1)).push(
            routes@[at as int]@,
        ));
    }
    assert(entries.take(k as int) =~= entries);
    matcher
}

/// A path matcher that holds the routes it takes.
fn matcher_of(routes: &Vec<String>) -> (r: matchit::Router<usize>)
    ensures
        inserted(r) == accepted(texts(routes@), routes.len() as int),
{
    let ghost all = texts(routes@);
    let mut matcher = table::new_table();
    let mut kept: Vec<usize> = Vec::new();
    let mut earlier: Vec<String> = Vec::new();
    let mut i: usize = 0;
    assert(kept_entries(all, kept@) =~= accepted(all, 0));
    assert(texts(earlier@) =~= patterns(accepted(all, 0)));
    while i < routes.len()
        invariant
            i <= routes.len(),
            all == texts(routes@),
            forall|j: int| 0 <= j < kept.len() ==> #[trigger] kept@[j] < routes.len(),
            kept_entries(all, kept@) == accepted(all, i as int),
            texts(earlier@) == patterns(accepted(all, i as int)),
            inserted(matcher) == accepted(all, i as int),
        decreases routes.len() - i,
    {
        assert(all[i as int] == routes@[i as int]@);
        match table::add_pattern(matcher, &earlier, routes[i].as_str(), i) {
            Ok(filled) => {
                matcher = filled;
                let ghost before = kept@;
                let ghost known = earlier@;
                kept.push(i);
                earlier.push(copy_text(routes[i].as_str()));
                assert(kept_entries(all, kept@) =~= kept_entries(all, before).push(
                    (all[i as int], i),
                ));
                assert(texts(earlier@) =~= texts(known).push(all[i as int]));
                assert(patterns(accepted(all, i + 1)) =~= patterns(accepted(all, i as int)).push(
                    all[i as int],
                ));
            },
            Err(_) => {
                proof {
                    lemma_accepted_can_be_inserted(all, i as int);
                }
                matcher = insert_kept(routes, &kept);
            },
        }
        i = i + 1;
    }
    matcher
}

/// Judge a trigger by the routes of the application.
pub fn check_route_collision(function: &str, routes: &Vec<String>) -> (r: Result<(), MountError>)
    ensures
        match r {
            Ok(_) => collision(
                function@,
                found_route(texts(routes@), trigger_path(function@)),
            ) is None,
            Err(error) => collision(function@, found_route(texts(routes@), trigger_path(function@)))
                == Some(error@),
        },
        is_literal(trigger_path(function@)) && patterns(
            accepted(texts(routes@), routes.len() as int),
        ).contains(trigger_path(function@)) ==> r is Err,
{
    let path = path_of(function);
    let matcher = matcher_of(routes);
    let ghost all = texts(routes@);
    let ghost entries = accepted(all, all.len() as int);
    proof {
        assert(routes@.len() == routes.len());
        lemma_accepted_indices(all, all.len() as int);
        if is_literal(path@) && patterns(entries).contains(path@) {
            let k = choose|k: int| 0 <= k < patterns(entries).len() && patterns(entries)[k] == path@;
            assert(entries[k].0 == path@);
        }
    }
    match table::at(&matcher, path.as_str()) {
        Some((index, params)) => {
            proof {
                let k = choose|k: int| 0 <= k < entries.len() && (#[trigger] entries[k]).1 == index;
                assert(entries[k].1 < routes.len());
                assert(all[index as int] == routes@[index as int]@);
            }
            judge_route(function, Some(routes[index].as_str()))
        },
        None => judge_route(function, None),
    }
}

/// An application wrapped for the Functions host: queue triggers first, then everything else.
#[derive(Debug)]
pub struct FunctionsHost<E, C> {
    endpoint: E,
    consumers: C,
    triggers: Vec<QueueTrigger>,
}

/// The first trigger, at or after `from`, with a name.
pub open spec fn trigger_named(
    triggers: Seq<QueueTrigger>,
    name: Seq<char>,
    from: int,
) -> Option<QueueTrigger>
    decreases triggers.len() - from,
{
    if from < 0 || from >= triggers.len() {
        None
    } else if triggers[from].function@ == name {
        Some(triggers[from])
    } else {
        trigger_named(triggers, name, from + 1)
    }
}

/// The trigger a request is for: a message is posted, to the path of a function.
pub open spec fn triggered(
    triggers: Seq<QueueTrigger>,
    method: Seq<char>,
    path: Seq<char>,
) -> Option<QueueTrigger> {
    if method == "POST"@ && "/"@.is_prefix_of(path) {
        trigger_named(triggers, path.subrange("/"@.len() as int, path.len() as int), 0)
    } else {
        None
    }
}

/// Wrap an application so that the declared queue triggers are answered before it sees them.
///
/// A trigger without a handler, a name declared twice, and a trigger whose path the application
/// serves itself are refused.
pub fn mount<E, C>(
    endpoint: E,
    consumers: C,
    declares_handler: bool,
    routes: &Vec<String>,
    triggers: Vec<QueueTrigger>,
) -> (r: Result<FunctionsHost<E, C>, MountError>)
    ensures
        match r {
            Ok(host) => mount_error(
                functions(triggers@),
                declares_handler,
                texts(routes@),
                0,
            ) is None && host.app() == endpoint && host.handlers() == consumers && host.declared()
                == triggers@,
            Err(error) => mount_error(functions(triggers@), declares_handler, texts(routes@), 0)
                == Some(error@),
        },
{
    let ghost names = functions(triggers@);
    let ghost served = texts(routes@);
    let mut i: usize = 0;
    while i < triggers.len()
        invariant
            i <= triggers.len(),
            names == functions(triggers@),
            served == texts(routes@),
            mount_error(names, declares_handler, served, 0) == mount_error(
                names,
                declares_handler,
                served,
                i as int,
            ),
        decreases triggers.len() - i,
    {
        assert(names[i as int] == triggers@[i as int].function@);
        let function = triggers[i].function;
        if !declares_handler {
            return Err(MountError::NoQueueHandler { function: copy_text(function) });
        }
        let mut j: usize = 0;
        while j < i
            invariant
                j <= i < triggers.len(),
                names == functions(triggers@),
                served == texts(routes@),
                function == triggers@[i as int].function,
                names[i as int] == function@,
                declares_handler,
                mount_error(names, declares_handler, served, 0) == mount_error(
                    names,
                    declares_handler,
                    served,
                    i as int,
                ),
                forall|k: int| 0 <= k < j ==> #[trigger] names[k] != function@,
            decreases i - j,
        {
            assert(names[j as int] == triggers@[j as int].function@);
            if same(triggers[j].function, function) {
                assert(names.take(i as int)[j as int] == function@);
                assert(names.take(i as int).contains(names[i as int]));
                return Err(MountError::DuplicateFunction { function: copy_text(function) });
            }
            j = j + 1;
        }
        assert(!names.take(i as int).contains(names[i as int])) by {
            if names.take(i as int).contains(names[i as int]) {
                let k = choose|k: int|
                    0 <= k < names.take(i as int).len() && names.take(i as int)[k]
                        == names[i as int];
                assert(names[k] == function@);
            }
        }
        match check_route_collision(function, routes) {
            Ok(_) => {},
            Err(error) => {
                return Err(error);
            },
        }
        i = i + 1;
    }
    Ok(FunctionsHost { endpoint, consumers, triggers })
}

impl<E, C> FunctionsHost<E, C> {
    /// The application.
    pub closed spec fn app(&self) -> E {
        self.endpoint
    }

    /// The application's consumers.
    pub closed spec fn handlers(&self) -> C {
        self.consumers
    }

    /// The triggers.
    pub closed spec fn declared(&self) -> Seq<QueueTrigger> {
        self.triggers@
    }

    /// The application.
    pub fn endpoint(&self) -> (r: &E)
        ensures
            *r == self.app(),
    {
        &self.endpoint
    }

    /// The application's consumers.
    pub fn consumers(&self) -> (r: &C)
        ensures
            *r == self.handlers(),
    {
        &self.consumers
    }

    /// The trigger a request is for, if it is for one at all.
    pub fn trigger_for(&self, method: &str, path: &str) -> (r: Option<QueueTrigger>)
        ensures
            r == triggered(self.declared(), method@, path@),
    {
        if !same(method, "POST") {
            return None;
        }
        let name = match strip_prefix(path, "/") {
            Some(name) => name,
            None => {
                return None;
            },
        };
        let mut i: usize = 0;
        while i < self.triggers.len()
            invariant
                i <= self.triggers.len(),
                triggered(self.triggers@, method@, path@) == trigger_named(
                    self.triggers@,
                    name@,
                    0,
                ),
                trigger_named(self.triggers@, name@, 0) == trigger_named(
                    self.triggers@,
                    name@,
                    i as int,
                ),
            decreases self.triggers.len() - i,
        {
            if same(self.triggers[i].function, name.as_str()) {
                return Some(self.triggers[i]);
            }
            i = i + 1;
        }
        None
    }
}

/// Whether a decision over one message acknowledges it. Decisions for another number of messages do
/// not.
pub open spec fn is_acknowledged(disposition: QueueBatchDisposition) -> bool {
    match disposition {
        QueueBatchDisposition::All(decision) => decision is Ack,
        QueueBatchDisposition::PerMessage(decisions) => decisions@.len() == 1 && decisions@[0] is Ack,
    }
}

/// Whether a decision over one message acknowledges it.
pub fn acknowledged(disposition: &QueueBatchDisposition) -> (r: bool)
    ensures
        r == is_acknowledged(*disposition),
{
    match disposition {
        QueueBatchDisposition::All(decision) => matches!(decision, QueueMessageDisposition::Ack),
        QueueBatchDisposition::PerMessage(decisions) => decisions.len() == 1 && matches!(
            decisions[0],
            QueueMessageDisposition::Ack
        ),
    }
}

/// What can go wrong reading an invocation the host sent.
#[derive(Debug, Clone, PartialEq, Eq)]
pub enum EnvelopeError {
    /// The request body was already taken.
    BodyUnavailable,
    /// The body could not be read to the end.
    Unreadable(String),
    /// The body is not the host's JSON envelope.
    Malformed(String),
    /// The envelope does not hold exactly one input binding.
    UnexpectedBindings(Vec<String>),
    /// The message is tagged as base64 but is not.
    MalformedBase64(String),
}

/// The text of an envelope error.
pub open spec fn envelope_message(error: EnvelopeError) -> Seq<char> {
    match error {
        EnvelopeError::BodyUnavailable =>
        "the invocation body had already been consumed before the trigger could read it"@,
        EnvelopeError::Unreadable(error) => "the invocation body could not be read: "@ + error@,
        EnvelopeError::Malformed(error) =>
        "the invocation body is not an Azure Functions custom handler envelope: "@ + error@,
        EnvelopeError::UnexpectedBindings(names) => "the invocation carried "@ + decimal(
            names@.len(),
        ) + " input bindings ("@ + join(texts(names@), ", "@)
            + "); a Skyzen queue trigger declares exactly one"@,
        EnvelopeError::MalformedBase64(error) =>
        "the message is tagged `skyzen-b64:` but is not valid base64: "@ + error@,
    }
}

impl EnvelopeError {
    /// The error's text.
    pub fn message(&self) -> (r: String)
        ensures
            r@ == envelope_message(*self),
    {
        match self {
            EnvelopeError::BodyUnavailable => copy_text(
                "the invocation body had already been consumed before the trigger could read it",
            ),
            EnvelopeError::Unreadable(error) => {
                let mut text = copy_text("the invocation body could not be read: ");
                text.append(error.as_str());
                text
            },
            EnvelopeError::Malformed(error) => {
                let mut text = copy_text(
                    "the invocation body is not an Azure Functions custom handler envelope: ",
                );
                text.append(error.as_str());
                text
            },
            EnvelopeError::UnexpectedBindings(names) => {
                let mut text = copy_text("the invocation carried ");
                let count = decimal_text(names.len() as u64);
                text.append(count.as_str());
                text.append(" input bindings (");
                let joined = join_texts(names, ", ");
                text.append(joined.as_str());
                text.append("); a Skyzen queue trigger declares exactly one");
                text
            },
            EnvelopeError::MalformedBase64(error) => {
                let mut text = copy_text(
                    "the message is tagged `skyzen-b64:` but is not valid base64: ",
                );
                text.append(error.as_str());
                text
            },
        }
    }
}

/// What the host hands over for a binding.
#[derive(Debug)]
pub enum BindingValue {
    /// A text.
    Text(String),
    /// Any other JSON value, serialized.
    Json(Vec<u8>),
}

/// What the host says about a message.
#[derive(Debug)]
pub enum MetadataValue {
    /// A natural number.
    Number(u64),
    /// A text.
    Text(String),
    /// Anything else.
    Other,
}

/// An invocation as the host sends it.
#[derive(Debug)]
pub struct InvokeRequest {
    /// The input bindings by name, ordered by name.
    pub data: Vec<(String, BindingValue)>,
    /// What the host says about the message, ordered by name.
    pub metadata: Vec<(String, MetadataValue)>,
}

/// The bytes or the error that `base64` makes of a text in the standard alphabet.
pub uninterp spec fn base64_decoded(encoded: Seq<char>) -> Result<Seq<u8>, Seq<char>>;

/// The bytes of a result, or its error.
pub open spec fn decoded_view(r: Result<Vec<u8>, String>) -> Result<Seq<u8>, Seq<char>> {
    match r {
        Ok(bytes) => Ok(bytes@),
        Err(error) => Err(error@),
    }
}

/// Decodes a text with the `STANDARD` engine of `base64`. The result is named, not described.
#[verifier::external_body]
fn decode_base64(encoded: &str) -> (r: Result<Vec<u8>, String>)
    ensures
        decoded_view(r) == base64_decoded(encoded@),
{
    base64::engine::general_purpose::STANDARD.decode(encoded).map_err(|error| error.to_string())
}

/// The bytes of a message: those a producer wrote. A producer tags what is not text, and text that
/// could be taken for a tag.
pub open spec fn message_body(value: BindingValue) -> Result<Seq<u8>, Seq<char>> {
    match value {
        BindingValue::Json(bytes) => Ok(bytes@),
        BindingValue::Text(text) => if "skyzen-b64:"@.is_prefix_of(text@) {
            base64_decoded(text@.subrange("skyzen-b64:"@.len() as int, text@.len() as int))
        } else if "skyzen-utf8:"@.is_prefix_of(text@) {
            Ok(
                encode_utf8(
                    text@.subrange("skyzen-utf8:"@.len() as int, text@.len() as int),
                ),
            )
        } else {
            Ok(encode_utf8(text@))
        },
    }
}

/// Whether a message was decoded as it is to be.
pub open spec fn is_decoded(
    r: Result<Vec<u8>, EnvelopeError>,
    expected: Result<Seq<u8>, Seq<char>>,
) -> bool {
    match expected {
        Ok(bytes) => r is Ok && r->Ok_0@ == bytes,
        Err(error) => r is Err && (r->Err_0 matches EnvelopeError::MalformedBase64(text) && text@
            == error),
    }
}

/// The body of a message that was tagged as base64, given what decoding it gave.
pub fn tagged_body(decoded: Result<Vec<u8>, String>) -> (r: Result<Vec<u8>, EnvelopeError>)
    ensures
        is_decoded(r, decoded_view(decoded)),
{
    match decoded {
        Ok(bytes) => Ok(bytes),
        Err(error) => Err(EnvelopeError::MalformedBase64(error)),
    }
}

/// The bytes of a message, with the tag of its producer undone.
pub fn decode_message(value: &BindingValue) -> (r: Result<Vec<u8>, EnvelopeError>)
    ensures
        is_decoded(r, message_body(*value)),
{
    match value {
        BindingValue::Json(bytes) => Ok(copy_bytes(bytes)),
        BindingValue::Text(text) => {
            if let Some(encoded) = strip_prefix(text.as_str(), "skyzen-b64:") {
                return tagged_body(decode_base64(encoded.as_str()));
            }
            if let Some(escaped) = strip_prefix(text.as_str(), "skyzen-utf8:") {
                return Ok(escaped.as_str().as_bytes_vec());
            }
            Ok(text.as_str().as_bytes_vec())
        },
    }
}

/// A count, which some hosts write as a number and others as a text.
pub open spec fn count(value: MetadataValue) -> Option<u64> {
    match value {
        MetadataValue::Number(n) => Some(n),
        MetadataValue::Text(text) => bounded_numeral(text@, u64::MAX),
        MetadataValue::Other => None,
    }
}

/// A count, which some hosts write as a number and others as a text.
pub fn count_of(value: &MetadataValue) -> (r: Option<u64>)
    ensures
        r == count(*value),
{
    match value {
        MetadataValue::Number(n) => Some(*n),
        MetadataValue::Text(text) => parse_number(text.as_str(), u64::MAX),
        MetadataValue::Other => None,
    }
}

/// The index of the first entry, at or after `from`, with a name; or the length.
pub open spec fn metadata_index(
    metadata: Seq<(String, MetadataValue)>,
    name: Seq<char>,
    from: int,
) -> int
    decreases metadata.len() - from,
{
    if from < 0 || from >= metadata.len() {
        metadata.len() as int
    } else if metadata[from].0@ == name {
        from
    } else {
        metadata_index(metadata, name, from + 1)
    }
}

/// The ID the host reports for a message, or an empty one.
pub open spec fn reported_id(metadata: Seq<(String, MetadataValue)>) -> Seq<char> {
    let at = metadata_index(metadata, "Id"@, 0);
    if at < metadata.len() {
        match metadata[at].1 {
            MetadataValue::Text(id) => id@,
            _ => ""@,
        }
    } else {
        ""@
    }
}

/// How often the host says it delivered a message, or 0.
pub open spec fn reported_attempts(metadata: Seq<(String, MetadataValue)>) -> u64 {
    let at = metadata_index(metadata, "DequeueCount"@, 0);
    if at < metadata.len() {
        match count(metadata[at].1) {
            Some(n) => n,
            None => 0,
        }
    } else {
        0
    }
}

/// The names of the bindings of an invocation.
pub open spec fn binding_names(data: Seq<(String, BindingValue)>) -> Seq<Seq<char>> {
    data.map_values(|d: (String, BindingValue)| d.0@)
}

fn find_metadata(metadata: &Vec<(String, MetadataValue)>, name: &str) -> (r: usize)
    ensures
        r == metadata_index(metadata@, name@, 0),
        r <= metadata.len(),
{
    let mut i: usize = 0;
    while i < metadata.len()
        invariant
            i <= metadata.len(),
            metadata_index(metadata@, name@, 0) == metadata_index(metadata@, name@, i as int),
        decreases metadata.len() - i,
    {
        if same(metadata[i].0.as_str(), name) {
            return i;
        }
        i = i + 1;
    }
    i
}

/// Whether an invocation became the batch it is to become.
pub open spec fn is_batch(
    request: InvokeRequest,
    trigger: QueueTrigger,
    now_ms: i64,
    r: Result<QueueBatch, EnvelopeError>,
) -> bool {
    if request.data@.len() != 1 {
        r is Err && (r->Err_0 matches EnvelopeError::UnexpectedBindings(names) && texts(names@)
            == binding_names(request.data@))
    } else {
        match message_body(request.data@[0].1) {
            Ok(body) => r is Ok && r->Ok_0.queue@ == trigger.queue@ && r->Ok_0.messages@.len() == 1
                && r->Ok_0.messages@[0].id@ == reported_id(request.metadata@)
                && r->Ok_0.messages@[0].timestamp_ms == now_ms && r->Ok_0.messages@[0].body@ == body,
            Err(error) => r is Err && (r->Err_0 matches EnvelopeError::MalformedBase64(text)
                && text@ == error),
        }
    }
}

impl InvokeRequest {
    /// How often the host says it delivered the message.
    pub fn attempts(&self) -> (r: u64)
        ensures
            r == reported_attempts(self.metadata@),
    {
        let at = find_metadata(&self.metadata, "DequeueCount");
        if at < self.metadata.len() {
            match count_of(&self.metadata[at].1) {
                Some(n) => n,
                None => 0,
            }
        } else {
            0
        }
    }

    fn id(&self) -> (r: String)
        ensures
            r@ == reported_id(self.metadata@),
    {
        let at = find_metadata(&self.metadata, "Id");
        if at < self.metadata.len() {
            match &self.metadata[at].1 {
                MetadataValue::Text(id) => copy_text(id.as_str()),
                _ => copy_text(""),
            }
        } else {
            copy_text("")
        }
    }

    fn names(&self) -> (r: Vec<String>)
        ensures
            texts(r@) == binding_names(self.data@),
    {
        let mut names: Vec<String> = Vec::new();
        let mut i: usize = 0;
        while i < self.data.len()
            invariant
                i <= self.data.len(),
                names.len() == i,
                forall|j: int| 0 <= j < i ==> (#[trigger] names@[j])@ == self.data@[j].0@,
            decreases self.data.len() - i,
        {
            names.push(copy_text(self.data[i].0.as_str()));
            i = i + 1;
        }
        assert(texts(names@) =~= binding_names(self.data@));
        names
    }

    /// Turn one invocation into the batch of one message that the handler is given.
    pub fn into_batch(self, trigger: &QueueTrigger, now_ms: i64) -> (r: Result<
        QueueBatch,
        EnvelopeError,
    >)
        ensures
            is_batch(self, *trigger, now_ms, r),
    {
        if self.data.len() != 1 {
            return Err(EnvelopeError::UnexpectedBindings(self.names()));
        }
        let body = match decode_message(&self.data[0].1) {
            Ok(body) => body,
            Err(error) => {
                return Err(error);
            },
        };
        let mut messages: Vec<QueueMessage> = Vec::new();
        messages.push(QueueMessage { id: self.id(), timestamp_ms: now_ms, body });
        Ok(QueueBatch { queue: copy_text(trigger.queue), messages })
    }
}

/// What came of an invocation.
#[derive(Debug)]
pub enum Invocation {
    /// It could not be read.
    Unreadable(EnvelopeError),
    /// The handler decided.
    Handled(QueueBatchDisposition),
    /// The handler failed.
    Failed,
}

/// The answer to the host: a status, and lines for its log. The host delivers the message again
/// unless the status says that all went well.
#[derive(Debug)]
pub struct InvokeResponse {
    /// The status.
    pub status: u16,
    /// The lines.
    pub logs: Vec<String>,
}

/// The reason for which an invocation failed, if it did.
pub open spec fn failure_reason(invocation: Invocation) -> Option<Seq<char>> {
    match invocation {
        Invocation::Unreadable(error) => Some(envelope_message(error)),
        Invocation::Handled(disposition) => if is_acknowledged(disposition) {
            None
        } else {
            Some("the handler asked for this message to be retried"@)
        },
        Invocation::Failed => Some("the queue handler failed"@),
    }
}

/// The answer to an invocation that went well.
pub fn succeeded() -> (r: InvokeResponse)
    ensures
        r.status == 200,
        r.logs@.len() == 0,
{
    InvokeResponse { status: 200, logs: Vec::new() }
}

/// The answer to an invocation that failed.
pub fn failed(reason: &str) -> (r: InvokeResponse)
    ensures
        r.status == 500,
        texts(r.logs@) == seq!["skyzen: "@ + reason@],
{
    let mut line = copy_text("skyzen: ");
    line.append(reason);
    let mut logs: Vec<String> = Vec::new();
    logs.push(line);
    assert(texts(logs@) =~= seq!["skyzen: "@ + reason@]);
    InvokeResponse { status: 500, logs }
}

/// The answer to an invocation.
pub fn answer(invocation: Invocation) -> (r: InvokeResponse)
    ensures
        match failure_reason(invocation) {
            None => r.status == 200 && r.logs@.len() == 0,
            Some(reason) => r.status == 500 && texts(r.logs@) == seq!["skyzen: "@ + reason],
        },
{
    match invocation {
        Invocation::Unreadable(error) => {
            let reason = error.message();
            failed(reason.as_str())
        },
        Invocation::Handled(disposition) => if acknowledged(&disposition) {
            succeeded()
        } else {
            failed("the handler asked for this message to be retried")
        },
        Invocation::Failed => failed("the queue handler failed"),
    }
}

/// The host considers a message done exactly when the handler acknowledged it.
pub proof fn only_acknowledged_messages_are_done(invocation: Invocation)
    ensures
        failure_reason(invocation) is None <==> (invocation matches Invocation::Handled(
            disposition,
        ) && is_acknowledged(disposition)),
{
}

/// A message that is posted to the path of a declared function is for its trigger. Other paths and
/// other methods are for no trigger.
pub proof fn a_message_is_posted_to_its_function(
    triggers: Seq<QueueTrigger>,
    method: Seq<char>,
    name: Seq<char>,
    path: Seq<char>,
)
    ensures
        triggered(triggers, "POST"@, seq!['/'] + name) is Some <==> exists|i: int|
            0 <= i < triggers.len() && (#[trigger] triggers[i]).function@ == name,
        triggered(triggers, "POST"@, seq!['/'] + name) is Some ==> triggers.contains(
            triggered(triggers, "POST"@, seq!['/'] + name)->0,
        ) && triggered(triggers, "POST"@, seq!['/'] + name)->0.function@ == name,
        method != "POST"@ ==> triggered(triggers, method, path) is None,
        path.len() == 0 || path[0] != '/' ==> triggered(triggers, method, path) is None,
{
    reveal_strlit("/");
    assert("/"@ =~= seq!['/']);
    let whole = seq!['/'] + name;
    assert("/"@ =~= whole.subrange(0, 1));
    assert(whole.subrange(1, whole.len() as int) =~= name);
    lemma_trigger_named(triggers, name, 0);
    if "/"@.is_prefix_of(path) {
        assert(path.subrange(0, 1)[0] == "/"@[0]);
    }
}

proof fn lemma_trigger_named(triggers: Seq<QueueTrigger>, name: Seq<char>, from: int)
    requires
        0 <= from <= triggers.len(),
    ensures
        trigger_named(triggers, name, from) is Some <==> exists|i: int|
            from <= i < triggers.len() && (#[trigger] triggers[i]).function@ == name,
        trigger_named(triggers, name, from) is Some ==> triggers.contains(
            trigger_named(triggers, name, from)->0,
        ) && trigger_named(triggers, name, from)->0.function@ == name,
    decreases triggers.len() - from,
{
    if from < triggers.len() {
        lemma_trigger_named(triggers, name, from + 1);
        if triggers[from].function@ != name && exists|i: int|
            from <= i < triggers.len() && (#[trigger] triggers[i]).function@ == name {
            let i = choose|i: int|
                from <= i < triggers.len() && (#[trigger] triggers[i]).function@ == name;
            assert(from + 1 <= i);
        }
    }
}

/// Whether nothing is wrong with the trigger at an index: there is a handler, no earlier trigger has
/// its name, and no route is its path.
pub open spec fn is_mountable(
    names: Seq<Seq<char>>,
    declares_handler: bool,
    routes: Seq<Seq<char>>,
    i: int,
) -> bool {
    &&& declares_handler
    &&& forall|j: int| 0 <= j < i ==> #[trigger] names[j] != names[i]
    &&& found_route(routes, seq!['/'] + names[i]) != Some(seq!['/'] + names[i])
}

/// Triggers are mounted if nothing is wrong with any of them; otherwise the first with which something
/// is wrong is reported, by its name.
pub proof fn the_first_wrong_trigger_is_reported(
    names: Seq<Seq<char>>,
    declares_handler: bool,
    routes: Seq<Seq<char>>,
    from: int,
)
    requires
        0 <= from <= names.len(),
    ensures
        ({
            let error = mount_error(names, declares_handler, routes, from);
            &&& error is None <==> forall|i: int|
                from <= i < names.len() ==> #[trigger] is_mountable(
                    names,
                    declares_handler,
                    routes,
                    i,
                )
            &&& error is Some ==> exists|i: int|
                from <= i < names.len() && !(#[trigger] is_mountable(
                    names,
                    declares_handler,
                    routes,
                    i,
                )) && (forall|j: int|
                    from <= j < i ==> is_mountable(names, declares_handler, routes, j)) && error
                    == Some(
                    if !declares_handler {
                        MountErrorView::NoQueueHandler { function: names[i] }
                    } else if exists|j: int| 0 <= j < i && #[trigger] names[j] == names[i] {
                        MountErrorView::DuplicateFunction { function: names[i] }
                    } else {
                        MountErrorView::RouteCollision {
                            function: names[i],
                            route: seq!['/'] + names[i],
                        }
                    },
                )
        }),
    decreases names.len() - from,
{
    reveal_strlit("/");
    if from < names.len() {
        assert("/"@ + names[from] =~= seq!['/'] + names[from]);
        let earlier = names.take(from);
        if earlier.contains(names[from]) {
            let j = choose|j: int| 0 <= j < earlier.len() && earlier[j] == names[from];
            assert(names[j] == names[from]);
        } else {
            assert forall|j: int| 0 <= j < from implies #[trigger] names[j] != names[from] by {
                assert(earlier[j] == names[j]);
            }
        }
        if is_mountable(names, declares_handler, routes, from) {
            the_first_wrong_trigger_is_reported(names, declares_handler, routes, from + 1);
            let error = mount_error(names, declares_handler, routes, from + 1);
            if error is None {
                assert forall|i: int| from <= i < names.len() implies #[trigger] is_mountable(
                    names,
                    declares_handler,
                    routes,
                    i,
                ) by {
                    if i > from {
                        assert(is_mountable(names, declares_handler, routes, i));
                    }
                }
            }
        } else {
            assert(!is_mountable(names, declares_handler, routes, from));
        }
    }
}

/// A path finds a route only among the routes, and every route is tried against those before it that
/// were taken.
pub proof fn every_route_is_tried(routes: Seq<Seq<char>>, to: int, i: int)
    requires
        0 <= i < to <= routes.len(),
        routes.len() <= usize::MAX,
    ensures
        accepted(routes, to).contains((routes[i], i as usize)) <==> turned_down(
            patterns(accepted(routes, i)),
            routes[i],
        ) is None,
        forall|k: int|
            0 <= k < accepted(routes, to).len() ==> (#[trigger] accepted(routes, to)[k]).1 < to
                && accepted(routes, to)[k].0 == routes[accepted(routes, to)[k].1 as int],
    decreases to,
{
    let all = accepted(routes, to);
    let earlier = accepted(routes, to - 1);
    if i < to - 1 {
        every_route_is_tried(routes, to - 1, i);
        if earlier.contains((routes[i], i as usize)) {
            let k = choose|k: int| 0 <= k < earlier.len() && earlier[k] == (routes[i], i as usize);
            assert(all[k] == earlier[k]);
        }
        if all.contains((routes[i], i as usize)) {
            let k = choose|k: int| 0 <= k < all.len() && all[k] == (routes[i], i as usize);
            if k < earlier.len() {
                assert(all[k] == earlier[k]);
            }
        }
    } else {
        if to > 1 {
            every_route_is_tried(routes, to - 1, 0);
        }
        if turned_down(patterns(earlier), routes[i]) is None {
            assert(all[all.len() - 1] == (routes[i], i as usize));
        } else if all.contains((routes[i], i as usize)) {
            let k = choose|k: int| 0 <= k < all.len() && all[k] == (routes[i], i as usize);
            assert(earlier[k].1 < to - 1);
        }
    }
    assert forall|k: int| 0 <= k < all.len() implies (#[trigger] all[k]).1 < to && all[k].0
        == routes[all[k].1 as int] by {
        if k < earlier.len() {
            assert(all[k] == earlier[k]);
        }
    }
}

/// A producer's tag is undone; a text without one is the message, and so is any other value.
pub proof fn a_tag_is_undone(
    tagged: String,
    escaped: String,
    plain: String,
    bytes: Vec<u8>,
    text: Seq<char>,
)
    requires
        tagged@ == "skyzen-b64:"@ + text,
        escaped@ == "skyzen-utf8:"@ + text,
        !"skyzen-b64:"@.is_prefix_of(plain@),
        !"skyzen-utf8:"@.is_prefix_of(plain@),
    ensures
        message_body(BindingValue::Text(tagged)) == base64_decoded(text),
        message_body(BindingValue::Text(escaped)) == Ok::<Seq<u8>, Seq<char>>(encode_utf8(text)),
        message_body(BindingValue::Text(plain)) == Ok::<Seq<u8>, Seq<char>>(encode_utf8(plain@)),
        message_body(BindingValue::Json(bytes)) == Ok::<Seq<u8>, Seq<char>>(bytes@),
{
    reveal_strlit("skyzen-b64:");
    reveal_strlit("skyzen-utf8:");
    let b64 = "skyzen-b64:"@;
    let utf8 = "skyzen-utf8:"@;
    assert(b64 =~= tagged@.subrange(0, b64.len() as int));
    assert(tagged@.subrange(b64.len() as int, tagged@.len() as int) =~= text);
    assert(utf8 =~= escaped@.subrange(0, utf8.len() as int));
    assert(escaped@.subrange(utf8.len() as int, escaped@.len() as int) =~= text);
    assert(b64[7] == 'b' && utf8[7] == 'u');
    assert(b64.len() == 11);
    if b64.is_prefix_of(escaped@) {
        assert(escaped@[7] == 'u');
        assert(escaped@.subrange(0, b64.len() as int)[7] == b64[7]);
    }
}

/// A decision over one message acknowledges it if it says so of all messages, or of the one.
pub proof fn one_acknowledgement_is_needed(
    decision: QueueMessageDisposition,
    decisions: Vec<QueueMessageDisposition>,
)
    ensures
        is_acknowledged(QueueBatchDisposition::All(decision)) <==> decision
            == QueueMessageDisposition::Ack,
        decisions@ == seq![decision] ==> (is_acknowledged(
            QueueBatchDisposition::PerMessage(decisions),
        ) <==> decision == QueueMessageDisposition::Ack),
        decisions@.len() != 1 ==> !is_acknowledged(QueueBatchDisposition::PerMessage(decisions)),
{
}

proof fn lemma_metadata_index(metadata: Seq<(String, MetadataValue)>, name: Seq<char>, from: int, at: int)
    requires
        0 <= from <= at < metadata.len(),
        metadata[at].0@ == name,
        forall|i: int| 0 <= i < at ==> (#[trigger] metadata[i]).0@ != name,
    ensures
        metadata_index(metadata, name, from) == at,
    decreases at - from,
{
    if from < at {
        lemma_metadata_index(metadata, name, from + 1, at);
    }
}

proof fn lemma_no_metadata(metadata: Seq<(String, MetadataValue)>, name: Seq<char>, from: int)
    requires
        0 <= from <= metadata.len(),
        forall|i: int| 0 <= i < metadata.len() ==> (#[trigger] metadata[i]).0@ != name,
    ensures
        metadata_index(metadata, name, from) == metadata.len(),
    decreases metadata.len() - from,
{
    if from < metadata.len() {
        lemma_no_metadata(metadata, name, from + 1);
    }
}

/// A message has the ID that the host reports for it as a text, and otherwise an empty one.
pub proof fn a_message_has_its_reported_id(
    metadata: Seq<(String, MetadataValue)>,
    at: int,
    id: String,
)
    ensures
        0 <= at < metadata.len() && metadata[at].0@ == "Id"@ && (forall|i: int|
            0 <= i < at ==> (#[trigger] metadata[i]).0@ != "Id"@) ==> {
            &&& metadata[at].1 == MetadataValue::Text(id) ==> reported_id(metadata) == id@
            &&& !(metadata[at].1 is Text) ==> reported_id(metadata).len() == 0
        },
        (forall|i: int| 0 <= i < metadata.len() ==> (#[trigger] metadata[i]).0@ != "Id"@)
            ==> reported_id(metadata).len() == 0,
{
    reveal_strlit("");
    if 0 <= at < metadata.len() && metadata[at].0@ == "Id"@ && (forall|i: int|
        0 <= i < at ==> (#[trigger] metadata[i]).0@ != "Id"@) {
        lemma_metadata_index(metadata, "Id"@, 0, at);
    }
    if forall|i: int| 0 <= i < metadata.len() ==> (#[trigger] metadata[i]).0@ != "Id"@ {
        lemma_no_metadata(metadata, "Id"@, 0);
    }
}

/// Deliveries are counted as the host counts them, whether it writes a number or a numeral; without a
/// count there are none.
pub proof fn deliveries_are_counted_as_reported(
    metadata: Seq<(String, MetadataValue)>,
    at: int,
    n: u64,
)
    ensures
        0 <= at < metadata.len() && metadata[at].0@ == "DequeueCount"@ && (forall|i: int|
            0 <= i < at ==> (#[trigger] metadata[i]).0@ != "DequeueCount"@) ==> {
            &&& metadata[at].1 == MetadataValue::Number(n) ==> reported_attempts(metadata) == n
            &&& metadata[at].1 is Text && metadata[at].1->Text_0@ == decimal(n as nat)
                ==> reported_attempts(metadata) == n
            &&& metadata[at].1 is Other ==> reported_attempts(metadata) == 0
        },
        (forall|i: int| 0 <= i < metadata.len() ==> (#[trigger] metadata[i]).0@ != "DequeueCount"@)
            ==> reported_attempts(metadata) == 0,
{
    a_numeral_is_read_back(n as nat, u64::MAX, seq!['x'], 0);
    if 0 <= at < metadata.len() && metadata[at].0@ == "DequeueCount"@ && (forall|i: int|
        0 <= i < at ==> (#[trigger] metadata[i]).0@ != "DequeueCount"@) {
        lemma_metadata_index(metadata, "DequeueCount"@, 0, at);
    }
    if forall|i: int| 0 <= i < metadata.len() ==> (#[trigger] metadata[i]).0@ != "DequeueCount"@ {
        lemma_no_metadata(metadata, "DequeueCount"@, 0);
    }
}

/// An invocation with one binding becomes a batch of the message it carries, for the trigger's queue;
/// one with another number of bindings is refused.
pub proof fn an_invocation_carries_one_message(
    request: InvokeRequest,
    trigger: QueueTrigger,
    now_ms: i64,
    r: Result<QueueBatch, EnvelopeError>,
)
    requires
        is_batch(request, trigger, now_ms, r),
    ensures
        r is Ok ==> request.data@.len() == 1 && r->Ok_0.messages@.len() == 1 && r->Ok_0.queue@
            == trigger.queue@ && r->Ok_0.messages@[0].timestamp_ms == now_ms,
        r is Ok && request.data@[0].1 is Json ==> r->Ok_0.messages@[0].body@
            == request.data@[0].1->Json_0@,
        request.data@.len() == 1 && request.data@[0].1 is Json ==> r is Ok,
        request.data@.len() != 1 ==> r is Err && r->Err_0 is UnexpectedBindings
            && r->Err_0->UnexpectedBindings_0@.len() == request.data@.len(),
        request.data@.len() == 1 && r is Err ==> r->Err_0 is MalformedBase64,
{
    if request.data@.len() != 1 {
        assert(texts(r->Err_0->UnexpectedBindings_0@).len() == binding_names(request.data@).len());
    }
}

} // verus!
