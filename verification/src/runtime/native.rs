//! Running as a server: options, platforms, connections and shutdown.

use vstd::prelude::*;
#[allow(unused_imports)]
use vstd::string::StringExecFns;
#[allow(unused_imports)]
use vstd::utf8::encode_utf8;

use crate::runtime::azure::MountError;
#[allow(unused_imports)]
use crate::runtime::azure::mount_message;
use crate::runtime::consumer::ConsumerFatal;
#[allow(unused_imports)]
use crate::text::{
    a_numeral_is_read_back, a_numeral_stands_for_its_number, a_text_without_padding_stays,
    bounded_numeral, decimal, is_blank_text, is_digit, is_digits, lemma_decimal_is_not_empty,
    lemma_trim_padded, may_parse, optional_text, texts, trim,
};
use crate::text::{copy_text, parse_number, same, strip_prefix, trim_text, Padding};

verus! {

/// How long outstanding work is given to finish after the accept loop stops, in seconds.
pub const SHUTDOWN_GRACE_PERIOD_SECS: u64 = 30;

/// How long a connection may take to send its first bytes, in seconds.
pub const HANDSHAKE_TIMEOUT_SECS: u64 = 10;

/// The environment variable that AWS Lambda sets.
pub const LAMBDA_RUNTIME_API_ENV: &'static str = "AWS_LAMBDA_RUNTIME_API";

/// The values of the options that choose an address, as they were given.
#[derive(Debug)]
pub struct CliOptions {
    /// The whole address.
    pub listen: Option<String>,
    /// The host alone.
    pub host: Option<String>,
    /// The port alone.
    pub port: Option<String>,
}

/// The values of the options as sequences of characters.
pub struct CliView {
    /// The whole address.
    pub listen: Option<Seq<char>>,
    /// The host alone.
    pub host: Option<Seq<char>>,
    /// The port alone.
    pub port: Option<Seq<char>>,
}

impl View for CliOptions {
    type V = CliView;

    open spec fn view(&self) -> CliView {
        CliView {
            listen: optional_text(self.listen),
            host: optional_text(self.host),
            port: optional_text(self.port),
        }
    }
}

/// An option that chooses an address.
#[derive(Debug, Clone, Copy, PartialEq, Eq)]
pub enum CliOption {
    /// The whole address.
    Listen,
    /// The host alone.
    Host,
    /// The port alone.
    Port,
}

/// The option that an argument gives a value to by itself, with that value.
pub open spec fn inline_option(arg: Seq<char>) -> Option<(CliOption, Seq<char>)> {
    if "--listen="@.is_prefix_of(arg) {
        Some((CliOption::Listen, arg.subrange("--listen="@.len() as int, arg.len() as int)))
    } else if "--addr="@.is_prefix_of(arg) {
        Some((CliOption::Listen, arg.subrange("--addr="@.len() as int, arg.len() as int)))
    } else if "--host="@.is_prefix_of(arg) {
        Some((CliOption::Host, arg.subrange("--host="@.len() as int, arg.len() as int)))
    } else if "--port="@.is_prefix_of(arg) {
        Some((CliOption::Port, arg.subrange("--port="@.len() as int, arg.len() as int)))
    } else {
        None
    }
}

/// The option whose value is the next argument.
pub open spec fn split_option(arg: Seq<char>) -> Option<CliOption> {
    if arg == "--listen"@ || arg == "--addr"@ {
        Some(CliOption::Listen)
    } else if arg == "--host"@ {
        Some(CliOption::Host)
    } else if arg == "--port"@ || arg == "-p"@ {
        Some(CliOption::Port)
    } else {
        None
    }
}

/// The options after one of them was given a value.
pub open spec fn with_option(options: CliView, option: CliOption, value: Seq<char>) -> CliView {
    match option {
        CliOption::Listen => CliView { listen: Some(value), ..options },
        CliOption::Host => CliView { host: Some(value), ..options },
        CliOption::Port => CliView { port: Some(value), ..options },
    }
}

/// The options after the arguments from `from` on; what is given later counts.
pub open spec fn options_from(args: Seq<Seq<char>>, from: int, options: CliView) -> CliView
    decreases args.len() - from,
{
    if from < 0 || from >= args.len() {
        options
    } else {
        match inline_option(args[from]) {
            Some((option, value)) => options_from(
                args,
                from + 1,
                with_option(options, option, value),
            ),
            None => match split_option(args[from]) {
                Some(option) => if from + 1 < args.len() {
                    options_from(args, from + 2, with_option(options, option, args[from + 1]))
                } else {
                    options
                },
                None => options_from(args, from + 1, options),
            },
        }
    }
}

/// The options of a program, given its arguments; the first of them is the program's name.
pub open spec fn options_of(args: Seq<Seq<char>>) -> CliView {
    options_from(args, 1, CliView { listen: None, host: None, port: None })
}

fn parse_inline(arg: &str) -> (r: Option<(CliOption, String)>)
    ensures
        match r {
            Some(found) => inline_option(arg@) == Some((found.0, found.1@)),
            None => inline_option(arg@) is None,
        },
{
    if let Some(value) = strip_prefix(arg, "--listen=") {
        return Some((CliOption::Listen, value));
    }
    if let Some(value) = strip_prefix(arg, "--addr=") {
        return Some((CliOption::Listen, value));
    }
    if let Some(value) = strip_prefix(arg, "--host=") {
        return Some((CliOption::Host, value));
    }
    if let Some(value) = strip_prefix(arg, "--port=") {
        return Some((CliOption::Port, value));
    }
    None
}

fn parse_split(arg: &str) -> (r: Option<CliOption>)
    ensures
        r == split_option(arg@),
{
    if same(arg, "--listen") || same(arg, "--addr") {
        Some(CliOption::Listen)
    } else if same(arg, "--host") {
        Some(CliOption::Host)
    } else if same(arg, "--port") || same(arg, "-p") {
        Some(CliOption::Port)
    } else {
        None
    }
}

fn set_option(options: &mut CliOptions, option: CliOption, value: String)
    ensures
        final(options)@ == with_option(old(options)@, option, value@),
{
    match option {
        CliOption::Listen => {
            options.listen = Some(value);
        },
        CliOption::Host => {
            options.host = Some(value);
        },
        CliOption::Port => {
            options.port = Some(value);
        },
    }
}

/// Read the options that choose an address from a program's arguments.
pub fn parse_cli(args: &Vec<String>) -> (r: CliOptions)
    ensures
        r@ == options_of(texts(args@)),
{
    let ghost all = texts(args@);
    let mut options = CliOptions { listen: None, host: None, port: None };
    let mut i: usize = 1;
    while i < args.len()
        invariant
            1 <= i,
            all == texts(args@),
            options_of(all) == options_from(all, i as int, options@),
        decreases args.len() - i,
    {
        assert(all[i as int] == args@[i as int]@);
        if let Some((option, value)) = parse_inline(args[i].as_str()) {
            set_option(&mut options, option, value);
            i = i + 1;
        } else if let Some(option) = parse_split(args[i].as_str()) {
            if i + 1 < args.len() {
                assert(all[i + 1] == args@[i + 1]@);
                set_option(&mut options, option, copy_text(args[i + 1].as_str()));
                i = i + 2;
            } else {
                return options;
            }
        } else {
            i = i + 1;
        }
    }
    options
}

/// An address that options asked for.
#[derive(Debug, Clone, Copy, PartialEq, Eq)]
pub struct ListenOverride<A> {
    /// The address to bind.
    pub addr: A,
    /// Whether an option named the whole of it.
    pub explicit: bool,
}

/// What the options ask for.
#[derive(Debug)]
pub enum ListenRequest {
    /// Nothing.
    Default,
    /// An address as a whole.
    Whole(String),
    /// The default address with another host or port.
    Adjust {
        /// The host.
        host: Option<String>,
        /// The port.
        port: Option<String>,
    },
}

impl CliOptions {
    /// What the options ask for: a whole address counts more than a host or a port.
    pub fn request(self) -> (r: ListenRequest)
        ensures
            match self.listen {
                Some(address) => r == ListenRequest::Whole(address),
                None => if self.host is None && self.port is None {
                    r is Default
                } else {
                    r == (ListenRequest::Adjust { host: self.host, port: self.port })
                },
            },
    {
        match self.listen {
            Some(address) => ListenRequest::Whole(address),
            None => {
                if self.host.is_none() && self.port.is_none() {
                    ListenRequest::Default
                } else {
                    ListenRequest::Adjust { host: self.host, port: self.port }
                }
            },
        }
    }
}

/// The address that a whole address asks for; one that cannot be read is ignored.
pub fn whole_override<A>(parsed: Option<A>) -> (r: Option<ListenOverride<A>>)
    ensures
        match parsed {
            Some(addr) => r == Some(ListenOverride { addr, explicit: true }),
            None => r is None,
        },
{
    match parsed {
        Some(addr) => Some(ListenOverride { addr, explicit: true }),
        None => None,
    }
}

/// The address, as host and port, that another host or port asks for. A host that cannot be read, or
/// a port that is none, has both ignored.
pub open spec fn adjusted<I>(
    base: (I, u16),
    host: Option<Option<I>>,
    port: Option<Seq<char>>,
) -> Option<ListenOverride<(I, u16)>> {
    let new_port = match port {
        Some(text) => match bounded_numeral(text, 65535) {
            Some(number) => Some(number as u16),
            None => None,
        },
        None => Some(base.1),
    };
    let new_host = match host {
        Some(parsed) => parsed,
        None => Some(base.0),
    };
    match (new_host, new_port) {
        (Some(ip), Some(number)) => Some(ListenOverride { addr: (ip, number), explicit: false }),
        _ => None,
    }
}

/// The address, as host and port, that another host or port asks for.
pub fn adjusted_override<I>(
    base: (I, u16),
    host: Option<Option<I>>,
    port: &Option<String>,
) -> (r: Option<ListenOverride<(I, u16)>>)
    ensures
        r == adjusted(base, host, optional_text(*port)),
{
    let (base_ip, base_port) = base;
    let number: u16 = match port {
        Some(text) => match parse_number(text.as_str(), 65535) {
            Some(number) => number as u16,
            None => {
                return None;
            },
        },
        None => base_port,
    };
    let ip = match host {
        Some(parsed) => match parsed {
            Some(ip) => ip,
            None => {
                return None;
            },
        },
        None => base_ip,
    };
    Some(ListenOverride { addr: (ip, number), explicit: false })
}

/// What options come to: the address they ask for, given what the whole address and the host are read
/// as and where a server binds otherwise.
pub open spec fn overridden<I>(
    options: CliView,
    whole: Option<(I, u16)>,
    base: (I, u16),
    ip: Option<I>,
) -> Option<ListenOverride<(I, u16)>> {
    match options.listen {
        Some(_) => match whole {
            Some(addr) => Some(ListenOverride { addr, explicit: true }),
            None => None,
        },
        None => if options.host is None && options.port is None {
            None
        } else {
            adjusted(
                base,
                match options.host {
                    Some(_) => Some(ip),
                    None => None,
                },
                options.port,
            )
        },
    }
}

/// Whether options come to `r`, where the parsers gave `whole` and `ip` and a server otherwise binds
/// `otherwise`. Only what the options ask for is parsed, and the other address is only asked for
/// where it is adjusted.
pub open spec fn comes_to<
    I,
    A: Fn(&String) -> Option<(I, u16)>,
    H: Fn(&String) -> Option<I>,
    B: Fn() -> (I, u16),
>(
    options: CliView,
    parse_address: A,
    parse_host: H,
    base: B,
    whole: Option<(I, u16)>,
    otherwise: (I, u16),
    ip: Option<I>,
    r: Option<ListenOverride<(I, u16)>>,
) -> bool {
    &&& options.listen matches Some(text) ==> may_parse(parse_address, text, whole)
    &&& options.listen is None && (options.host is Some || options.port is Some) ==> call_ensures(
        base,
        (),
        otherwise,
    )
    &&& options.listen is None && options.host is Some ==> may_parse(
        parse_host,
        options.host->Some_0,
        ip,
    )
    &&& r == overridden(options, whole, otherwise, ip)
}

/// The address that a program's arguments ask for. `--listen` and `--addr` name it as a whole;
/// `--host` and `--port` adjust where a server otherwise binds, which `base` says. Values that
/// cannot be read are ignored.
pub fn apply_cli_overrides<
    I,
    A: Fn(&String) -> Option<(I, u16)>,
    H: Fn(&String) -> Option<I>,
    B: Fn() -> (I, u16),
>(args: &Vec<String>, parse_address: A, parse_host: H, base: B) -> (r: Option<
    ListenOverride<(I, u16)>,
>)
    requires
        forall|text: &String| call_requires(parse_address, (text,)),
        forall|text: &String| call_requires(parse_host, (text,)),
        call_requires(base, ()),
    ensures
        exists|whole: Option<(I, u16)>, otherwise: (I, u16), ip: Option<I>| #[trigger]
            comes_to(
                options_of(texts(args@)),
                parse_address,
                parse_host,
                base,
                whole,
                otherwise,
                ip,
                r,
            ),
{
    let options = parse_cli(args);
    let ghost view = options@;
    match options.request() {
        ListenRequest::Whole(text) => {
            let whole = parse_address(&text);
            assert(may_parse(parse_address, text@, whole));
            let ghost parsed = whole;
            let r = whole_override(whole);
            assert(comes_to(
                view,
                parse_address,
                parse_host,
                base,
                parsed,
                arbitrary(),
                None::<I>,
                r,
            ));
            r
        },
        ListenRequest::Default => {
            let r: Option<ListenOverride<(I, u16)>> = None;
            assert(comes_to(
                view,
                parse_address,
                parse_host,
                base,
                None::<(I, u16)>,
                arbitrary(),
                None::<I>,
                r,
            ));
            r
        },
        ListenRequest::Adjust { host, port } => {
            let otherwise = base();
            let ghost bound = otherwise;
            match host {
                Some(text) => {
                    let ip = parse_host(&text);
                    assert(may_parse(parse_host, text@, ip));
                    let ghost parsed = ip;
                    let r = adjusted_override(otherwise, Some(ip), &port);
                    assert(comes_to(
                        view,
                        parse_address,
                        parse_host,
                        base,
                        None::<(I, u16)>,
                        bound,
                        parsed,
                        r,
                    ));
                    r
                },
                None => {
                    let r = adjusted_override(otherwise, None, &port);
                    assert(comes_to(
                        view,
                        parse_address,
                        parse_host,
                        base,
                        None::<(I, u16)>,
                        bound,
                        None::<I>,
                        r,
                    ));
                    r
                },
            }
        },
    }
}

/// The address a server binds where no option asks for one: the configured one, which must be
/// readable, or the default.
pub fn server_addr<A>(configured: Option<Option<A>>, default: A) -> (r: A)
    requires
        configured != Some(None::<A>),
    ensures
        match configured {
            Some(Some(addr)) => r == addr,
            _ => r == default,
        },
{
    match configured {
        Some(Some(addr)) => addr,
        _ => default,
    }
}

/// Where a process runs.
#[derive(Debug, Clone, Copy, PartialEq, Eq)]
pub enum Platform {
    /// An ordinary server.
    Server,
    /// AWS Lambda.
    Lambda,
    /// The Azure Functions host, which waits on a port.
    AzureFunctions {
        /// The port.
        port: u16,
    },
}

/// A reason for which the runtime refuses to start.
#[derive(Debug)]
pub enum StartupError {
    /// The process is inside Lambda but was built without the adapter for it.
    LambdaFeatureMissing,
    /// The Functions host named a port that is not a port.
    CustomHandlerPort {
        /// What it said instead.
        value: String,
    },
}

/// A text in quotes, as Rust writes it for debugging.
pub uninterp spec fn quoted(text: Seq<char>) -> Seq<char>;

/// Formats a text with the `Debug` of `str`. The result is named, not described.
#[verifier::external_body]
fn quote(text: &str) -> (r: String)
    ensures
        r@ == quoted(text@),
{
    format!("{text:?}")
}

/// The text of the error for a port that is not a port, given the port in quotes.
pub fn port_message(quoted_value: &str) -> (r: String)
    ensures
        r@ == "the Azure Functions host set FUNCTIONS_CUSTOMHANDLER_PORT to "@ + quoted_value@
            + ", which is not a port number"@,
{
    let mut text = copy_text("the Azure Functions host set FUNCTIONS_CUSTOMHANDLER_PORT to ");
    text.append(quoted_value);
    text.append(", which is not a port number");
    text
}

impl StartupError {
    /// The error's text.
    pub fn message(&self) -> (r: String)
        ensures
            r@ == match self {
                StartupError::LambdaFeatureMissing =>
                "this process is running inside AWS Lambda (AWS_LAMBDA_RUNTIME_API is set), but it was built without Skyzen's Lambda adapter. Add `features = [\"lambda\"]` to the skyzen dependency and redeploy"@,
                StartupError::CustomHandlerPort { value } =>
                "the Azure Functions host set FUNCTIONS_CUSTOMHANDLER_PORT to "@ + quoted(value@)
                    + ", which is not a port number"@,
            },
    {
        match self {
            StartupError::LambdaFeatureMissing => copy_text(
                "this process is running inside AWS Lambda (AWS_LAMBDA_RUNTIME_API is set), but it was built without Skyzen's Lambda adapter. Add `features = [\"lambda\"]` to the skyzen dependency and redeploy",
            ),
            StartupError::CustomHandlerPort { value } => {
                let shown = quote(value.as_str());
                port_message(shown.as_str())
            },
        }
    }
}

/// Where a process runs, by what its environment says.
pub open spec fn detected(lambda: bool, functions_port: Option<Seq<char>>) -> Option<Platform> {
    if lambda {
        Some(Platform::Lambda)
    } else {
        match functions_port {
            None => Some(Platform::Server),
            Some(text) => match bounded_numeral(trim(text, Padding::WhiteSpace), 65535) {
                Some(port) => Some(Platform::AzureFunctions { port: port as u16 }),
                None => None,
            },
        }
    }
}

impl Platform {
    /// Where this process runs, by what its environment says. A port of the Functions host that is
    /// not a port is an error: the host would wait on another one forever.
    pub fn detect(lambda: bool, functions_port: Option<String>) -> (r: Result<
        Platform,
        StartupError,
    >)
        ensures
            match detected(lambda, optional_text(functions_port)) {
                Some(platform) => r == Ok::<Platform, StartupError>(platform),
                None => r is Err && (r->Err_0 matches StartupError::CustomHandlerPort { value }
                    && functions_port == Some(value)),
            },
    {
        if lambda {
            return Ok(Platform::Lambda);
        }
        match functions_port {
            None => Ok(Platform::Server),
            Some(text) => {
                let trimmed = trim_text(text.as_str(), Padding::WhiteSpace);
                match parse_number(trimmed.as_str(), 65535) {
                    Some(port) => Ok(Platform::AzureFunctions { port: port as u16 }),
                    None => Err(StartupError::CustomHandlerPort { value: text }),
                }
            },
        }
    }
}

/// The address to serve the Functions host at: the one it waits on, unless an option named another
/// as a whole.
pub open spec fn functions_address_for<A>(listen: Option<ListenOverride<A>>, host: A) -> A {
    match listen {
        Some(asked) => if asked.explicit {
            asked.addr
        } else {
            host
        },
        None => host,
    }
}

/// The address to serve the Functions host at.
pub fn functions_address<A>(listen: Option<ListenOverride<A>>, host: A) -> (r: A)
    ensures
        r == functions_address_for(listen, host),
{
    match listen {
        Some(asked) => if asked.explicit {
            asked.addr
        } else {
            host
        },
        None => host,
    }
}

/// How a process runs an application.
#[derive(Debug)]
pub enum LaunchPlan<A> {
    /// It does not; it ends with an error before anything else.
    Refuse(StartupError),
    /// It hands over to the adapter for AWS Lambda: no listener is bound, no queue is polled, and no
    /// cleanup runs.
    HandOver,
    /// It serves at an address.
    Serve {
        /// Where to listen.
        address: ServeAddress<A>,
        /// Whether the queue triggers of the Functions host are mounted. Its host then delivers
        /// messages; otherwise the consumers poll.
        mounts_triggers: bool,
    },
}

/// Where a server listens.
#[derive(Debug)]
pub enum ServeAddress<A> {
    /// At this address.
    At(A),
    /// Where a server binds when nothing asks for an address.
    Default,
}

/// Whether a plan is the one for a platform.
pub open spec fn is_planned<I>(
    platform: Result<Platform, StartupError>,
    has_lambda_adapter: bool,
    listen: Option<ListenOverride<(I, u16)>>,
    localhost: I,
    plan: LaunchPlan<(I, u16)>,
) -> bool {
    match platform {
        Err(error) => plan == LaunchPlan::<(I, u16)>::Refuse(error),
        Ok(Platform::Lambda) => if has_lambda_adapter {
            plan is HandOver
        } else {
            plan matches LaunchPlan::Refuse(error) && error is LambdaFeatureMissing
        },
        Ok(Platform::Server) => plan == (LaunchPlan::Serve {
            address: match listen {
                Some(asked) => ServeAddress::At(asked.addr),
                None => ServeAddress::Default,
            },
            mounts_triggers: false,
        }),
        Ok(Platform::AzureFunctions { port }) => plan == (LaunchPlan::Serve {
            address: ServeAddress::At(functions_address_for(listen, (localhost, port))),
            mounts_triggers: true,
        }),
    }
}

/// How to run an application on the platform that was detected.
pub fn plan_launch<I>(
    platform: Result<Platform, StartupError>,
    has_lambda_adapter: bool,
    listen: Option<ListenOverride<(I, u16)>>,
    localhost: I,
) -> (r: LaunchPlan<(I, u16)>)
    ensures
        is_planned(platform, has_lambda_adapter, listen, localhost, r),
{
    match platform {
        Err(error) => LaunchPlan::Refuse(error),
        Ok(Platform::Lambda) => if has_lambda_adapter {
            LaunchPlan::HandOver
        } else {
            LaunchPlan::Refuse(StartupError::LambdaFeatureMissing)
        },
        Ok(Platform::Server) => LaunchPlan::Serve {
            address: match listen {
                Some(asked) => ServeAddress::At(asked.addr),
                None => ServeAddress::Default,
            },
            mounts_triggers: false,
        },
        Ok(Platform::AzureFunctions { port }) => LaunchPlan::Serve {
            address: ServeAddress::At(functions_address(listen, (localhost, port))),
            mounts_triggers: true,
        },
    }
}

/// What the accept loop had left to clean up when it stopped.
#[derive(Debug, Clone, Copy, PartialEq, Eq)]
pub struct Shutdown {
    /// Connections and batches that were cut off because they did not finish in time.
    pub severed: usize,
}

/// Why the runtime stopped before it could shut down on its own terms.
#[derive(Debug)]
pub enum RuntimeFailure {
    /// The listener could not be bound, or the accept loop failed.
    Listener(String),
    /// A queue consumer cannot run at all.
    QueueConsumer(ConsumerFatal),
    /// The triggers of the Functions host cannot be mounted.
    Mount(MountError),
}

impl RuntimeFailure {
    /// The error's text.
    pub fn message(&self) -> (r: String)
        ensures
            r@ == match self {
                RuntimeFailure::Listener(error) => "the listener failed: "@ + error@,
                RuntimeFailure::QueueConsumer(fatal) => "the queue consumer for `"@ + fatal.queue@
                    + "` cannot run: "@ + fatal.reason@,
                RuntimeFailure::Mount(error) => mount_message(error@),
            },
    {
        match self {
            RuntimeFailure::Listener(error) => {
                let mut text = copy_text("the listener failed: ");
                text.append(error.as_str());
                text
            },
            RuntimeFailure::QueueConsumer(fatal) => {
                let mut text = copy_text("the queue consumer for `");
                text.append(fatal.queue.as_str());
                text.append("` cannot run: ");
                text.append(fatal.reason.as_str());
                text
            },
            RuntimeFailure::Mount(error) => error.message(),
        }
    }
}

/// What an accept loop is told.
#[derive(Debug)]
pub enum AcceptEvent<S> {
    /// To shut down.
    Interrupted,
    /// A consumer cannot run; `None` where its channel was closed.
    ConsumerReport(Option<ConsumerFatal>),
    /// A connection came.
    Connection(S),
    /// A connection could not be accepted.
    AcceptFailed,
    /// No connection can come any more.
    Exhausted,
}

/// What an accept loop does next.
#[derive(Debug)]
pub enum AcceptStep<S> {
    /// Serve a connection and go on.
    Serve(S),
    /// Go on.
    Continue,
    /// Stop accepting.
    Stop,
}

/// The accept loop of a server.
#[derive(Debug)]
pub struct AcceptLoop {
    fatal: Option<ConsumerFatal>,
}

impl AcceptLoop {
    /// The consumer that cannot run, if one reported that.
    pub closed spec fn report(&self) -> Option<ConsumerFatal> {
        self.fatal
    }

    /// A loop that was told nothing yet.
    pub fn new() -> (r: Self)
        ensures
            r.report() is None,
    {
        AcceptLoop { fatal: None }
    }

    /// What follows from an event. A consumer that can never run stops the server, so that it is not
    /// left running half alive; a connection that fails does not.
    pub fn on_event<S>(&mut self, event: AcceptEvent<S>) -> (r: AcceptStep<S>)
        ensures
            match event {
                AcceptEvent::Interrupted => r is Stop,
                AcceptEvent::ConsumerReport(Some(_)) => r is Stop,
                AcceptEvent::ConsumerReport(None) => r is Continue,
                AcceptEvent::Connection(stream) => r == AcceptStep::Serve(stream),
                AcceptEvent::AcceptFailed => r is Continue,
                AcceptEvent::Exhausted => r is Stop,
            },
            final(self).report() == match event {
                AcceptEvent::ConsumerReport(Some(fatal)) => Some(fatal),
                _ => old(self).report(),
            },
    {
        match event {
            AcceptEvent::Interrupted => AcceptStep::Stop,
            AcceptEvent::ConsumerReport(report) => match report {
                Some(fatal) => {
                    self.fatal = Some(fatal);
                    AcceptStep::Stop
                },
                None => AcceptStep::Continue,
            },
            AcceptEvent::Connection(stream) => AcceptStep::Serve(stream),
            AcceptEvent::AcceptFailed => AcceptStep::Continue,
            AcceptEvent::Exhausted => AcceptStep::Stop,
        }
    }

    /// How the server ended, given how much work was cut off.
    pub fn finish(self, severed: usize) -> (r: Result<Shutdown, RuntimeFailure>)
        ensures
            match self.report() {
                Some(fatal) => r == Err::<Shutdown, RuntimeFailure>(
                    RuntimeFailure::QueueConsumer(fatal),
                ),
                None => r == Ok::<Shutdown, RuntimeFailure>(Shutdown { severed }),
            },
    {
        match self.fatal {
            Some(fatal) => Err(RuntimeFailure::QueueConsumer(fatal)),
            None => Ok(Shutdown { severed }),
        }
    }
}

/// How much work is cut off: none where all of it finished, and otherwise what still holds a guard.
pub fn severed_work(drained: bool, guards: usize) -> (r: usize)
    ensures
        r == if drained {
            0
        } else {
            guards
        },
{
    if drained {
        0
    } else {
        guards
    }
}

/// How a server's end is reported.
#[derive(Debug, Clone, Copy, PartialEq, Eq)]
pub enum EndReport {
    /// All work finished.
    Graceful,
    /// Work was cut off.
    Severed(usize),
    /// The server failed, and the process ends with an error.
    Failed,
}

/// How a server's end is reported.
pub fn end_report(outcome: &Result<Shutdown, RuntimeFailure>) -> (r: EndReport)
    ensures
        match outcome {
            Ok(shutdown) => if shutdown.severed == 0 {
                r is Graceful
            } else {
                r == EndReport::Severed(shutdown.severed)
            },
            Err(_) => r is Failed,
        },
{
    match outcome {
        Ok(shutdown) => if shutdown.severed == 0 {
            EndReport::Graceful
        } else {
            EndReport::Severed(shutdown.severed)
        },
        Err(_) => EndReport::Failed,
    }
}

/// The bytes an HTTP/2 connection starts with.
pub fn http2_preface() -> (r: Vec<u8>)
    ensures
        r@ == encode_utf8("PRI * HTTP/2.0\r\n\r\nSM\r\n\r\n"@),
{
    "PRI * HTTP/2.0\r\n\r\nSM\r\n\r\n".as_bytes_vec()
}

/// Tells by its first bytes which protocol a connection speaks.
#[derive(Debug)]
pub struct Sniffer {
    preface: Vec<u8>,
    buffer: Vec<u8>,
}

/// Whether more bytes are needed to tell: those that came are all as expected, but not yet all that
/// are expected.
pub open spec fn undecided(buffer: Seq<u8>, preface: Seq<u8>) -> bool {
    buffer.len() < preface.len() && buffer.is_prefix_of(preface)
}

impl Sniffer {
    /// The bytes that are expected.
    pub closed spec fn expected(&self) -> Seq<u8> {
        self.preface@
    }

    /// The bytes that came.
    pub closed spec fn seen(&self) -> Seq<u8> {
        self.buffer@
    }

    /// Nothing came yet.
    pub fn new(preface: Vec<u8>) -> (r: Self)
        ensures
            r.expected() == preface@,
            r.seen() == Seq::<u8>::empty(),
    {
        Sniffer { preface, buffer: Vec::new() }
    }

    /// How many more bytes to read, or none where it can be told.
    pub fn wants(&self) -> (r: usize)
        ensures
            r == if undecided(self.seen(), self.expected()) {
                self.expected().len() - self.seen().len()
            } else {
                0
            },
    {
        if self.buffer.len() >= self.preface.len() {
            return 0;
        }
        let mut i: usize = 0;
        while i < self.buffer.len()
            invariant
                i <= self.buffer.len() < self.preface.len(),
                forall|j: int| 0 <= j < i ==> self.buffer@[j] == self.preface@[j],
            decreases self.buffer.len() - i,
        {
            if self.buffer[i] != self.preface[i] {
                return 0;
            }
            i = i + 1;
        }
        assert(self.buffer@ =~= self.preface@.subrange(0, self.buffer@.len() as int));
        self.preface.len() - self.buffer.len()
    }

    /// Take bytes that were read.
    pub fn feed(&mut self, bytes: &Vec<u8>)
        ensures
            final(self).expected() == old(self).expected(),
            final(self).seen() == old(self).seen() + bytes@,
    {
        let ghost before = self.buffer@;
        let mut i: usize = 0;
        assert(before + bytes@.take(0) =~= before);
        while i < bytes.len()
            invariant
                i <= bytes.len(),
                self.preface == old(self).preface,
                self.buffer@ == before + bytes@.take(i as int),
            decreases bytes.len() - i,
        {
            self.buffer.push(bytes[i]);
            i = i + 1;
            assert(self.buffer@ =~= before + bytes@.take(i as int));
        }
        assert(bytes@.take(i as int) =~= bytes@);
    }

    /// Whether the bytes that came start an HTTP/2 connection.
    pub fn is_http2(&self) -> (r: bool)
        ensures
            r == self.expected().is_prefix_of(self.seen()),
    {
        if self.buffer.len() < self.preface.len() {
            return false;
        }
        let mut i: usize = 0;
        while i < self.preface.len()
            invariant
                i <= self.preface.len() <= self.buffer.len(),
                forall|j: int| 0 <= j < i ==> self.buffer@[j] == self.preface@[j],
            decreases self.preface.len() - i,
        {
            if self.buffer[i] != self.preface[i] {
                assert(!(self.preface@ =~= self.buffer@.subrange(
                    0,
                    self.preface@.len() as int,
                )));
                return false;
            }
            i = i + 1;
        }
        assert(self.preface@ =~= self.buffer@.subrange(0, self.preface@.len() as int));
        true
    }

    /// The connection with the bytes that came put back in front.
    pub fn into_prefixed<C>(self, inner: C) -> (r: Prefixed<C>)
        ensures
            r.pending() == self.seen(),
            r.rest() == inner,
            r.wf(),
    {
        Prefixed::new(inner, self.buffer)
    }
}

/// A connection with bytes put back in front.
#[derive(Debug)]
pub struct Prefixed<C> {
    buffer: Vec<u8>,
    pos: usize,
    inner: C,
}

impl<C> Prefixed<C> {
    /// The bytes that were put back and not read again yet.
    pub closed spec fn pending(&self) -> Seq<u8> {
        self.buffer@.subrange(self.pos as int, self.buffer@.len() as int)
    }

    /// The connection.
    pub closed spec fn rest(&self) -> C {
        self.inner
    }

    /// Whether no more was read again than was put back.
    pub closed spec fn wf(&self) -> bool {
        self.pos <= self.buffer@.len()
    }

    /// Put bytes back in front of a connection.
    pub fn new(inner: C, buffer: Vec<u8>) -> (r: Self)
        ensures
            r.pending() == buffer@,
            r.rest() == inner,
            r.wf(),
    {
        let r = Prefixed { buffer, pos: 0, inner };
        assert(r.pending() =~= buffer@);
        r
    }

    /// Read at most `capacity` of the bytes that were put back. `None` where all of them were read
    /// again, and the connection itself is to be read.
    pub fn read(&mut self, capacity: usize) -> (r: Option<Vec<u8>>)
        requires
            old(self).wf(),
        ensures
            final(self).wf(),
            final(self).rest() == old(self).rest(),
            match r {
                Some(bytes) => old(self).pending().len() > 0 && bytes@.len() == if capacity
                    < old(self).pending().len() {
                    capacity as nat
                } else {
                    old(self).pending().len()
                } && bytes@ + final(self).pending() == old(self).pending(),
                None => old(self).pending().len() == 0 && final(self).pending().len() == 0,
            },
    {
        if self.pos >= self.buffer.len() {
            return None;
        }
        let available = self.buffer.len() - self.pos;
        let n: usize = if capacity < available {
            capacity
        } else {
            available
        };
        let ghost before = self.pending();
        let mut out: Vec<u8> = Vec::new();
        let mut i: usize = 0;
        assert(before.take(0) =~= out@);
        while i < n
            invariant
                i <= n,
                self.pos + n <= self.buffer.len(),
                before == self.buffer@.subrange(self.pos as int, self.buffer@.len() as int),
                out@ == before.take(i as int),
                *self == *old(self),
            decreases n - i,
        {
            out.push(self.buffer[self.pos + i]);
            i = i + 1;
            assert(before.take(i as int) =~= before.take(i - 1).push(before[i - 1]));
        }
        self.pos = self.pos + n;
        assert(out@ + self.pending() =~= before);
        if self.pos == self.buffer.len() {
            self.buffer = Vec::new();
            self.pos = 0;
        }
        assert(out@ + self.pending() =~= before);
        Some(out)
    }

    /// The connection.
    pub fn inner_mut(&mut self) -> (r: &mut C)
        ensures
            *r == old(self).rest(),
            final(self).rest() == *final(r),
            final(self).pending() == old(self).pending(),
            old(self).wf() ==> final(self).wf(),
    {
        &mut self.inner
    }
}

/// However the bytes of a connection arrive, the protocol is told by them alone: reading stops as
/// soon as it can be told, or where the connection ends, and a connection is taken for HTTP/2
/// exactly where it starts as one.
pub proof fn sniffing_depends_on_the_bytes_alone(
    stream: Seq<u8>,
    seen: Seq<u8>,
    preface: Seq<u8>,
)
    requires
        seen.is_prefix_of(stream),
        !undecided(seen, preface) || seen == stream,
    ensures
        preface.is_prefix_of(seen) == preface.is_prefix_of(stream),
{
    assert(seen =~= stream.subrange(0, seen.len() as int));
    if preface.is_prefix_of(seen) {
        assert(preface =~= stream.subrange(0, preface.len() as int)) by {
            assert(preface =~= seen.subrange(0, preface.len() as int));
        }
    }
    if preface.is_prefix_of(stream) {
        assert(preface =~= stream.subrange(0, preface.len() as int));
        if seen.len() < preface.len() {
            assert(seen =~= preface.subrange(0, seen.len() as int));
        } else {
            assert(preface =~= seen.subrange(0, preface.len() as int));
        }
    }
}


proof fn lemma_options_shift(head: Seq<Seq<char>>, tail: Seq<Seq<char>>, from: int, options: CliView)
    requires
        0 <= from,
    ensures
        options_from(head + tail, head.len() + from, options) == options_from(tail, from, options),
    decreases tail.len() - from,
{
    let all = head + tail;
    if from < tail.len() {
        assert(all[head.len() + from] == tail[from]);
        match inline_option(tail[from]) {
            Some((option, value)) => {
                lemma_options_shift(head, tail, from + 1, with_option(options, option, value));
            },
            None => match split_option(tail[from]) {
                Some(option) => {
                    if from + 1 < tail.len() {
                        assert(all[head.len() + from + 1] == tail[from + 1]);
                        lemma_options_shift(
                            head,
                            tail,
                            from + 2,
                            with_option(options, option, tail[from + 1]),
                        );
                    }
                },
                None => {
                    lemma_options_shift(head, tail, from + 1, options);
                },
            },
        }
    }
}

proof fn lemma_inline(name: Seq<char>, value: Seq<char>)
    ensures
        name.is_prefix_of(name + value),
        (name + value).subrange(name.len() as int, (name + value).len() as int) == value,
{
    assert(name =~= (name + value).subrange(0, name.len() as int));
    assert((name + value).subrange(name.len() as int, (name + value).len() as int) =~= value);
}

proof fn lemma_inline_options(value: Seq<char>)
    ensures
        inline_option("--listen="@ + value) == Some((CliOption::Listen, value)),
        inline_option("--addr="@ + value) == Some((CliOption::Listen, value)),
        inline_option("--host="@ + value) == Some((CliOption::Host, value)),
        inline_option("--port="@ + value) == Some((CliOption::Port, value)),
{
    reveal_strlit("--listen=");
    reveal_strlit("--addr=");
    reveal_strlit("--host=");
    reveal_strlit("--port=");
    lemma_inline("--listen="@, value);
    lemma_inline("--addr="@, value);
    lemma_inline("--host="@, value);
    lemma_inline("--port="@, value);
    assert(("--addr="@ + value)[2] == 'a');
    assert(("--host="@ + value)[2] == 'h');
    assert(("--port="@ + value)[2] == 'p');
    assert forall|prefix: Seq<char>, text: Seq<char>|
        prefix.len() > 2 && text.len() > 2 && #[trigger] prefix.is_prefix_of(text) implies prefix[2]
        == text[2] by {
        assert(prefix[2] == text.subrange(0, prefix.len() as int)[2]);
    }
    assert("--listen="@[2] == 'l' && "--addr="@[2] == 'a' && "--host="@[2] == 'h' && "--port="@[2]
        == 'p');
    assert("--listen="@.len() > 2 && "--addr="@.len() > 2 && "--host="@.len() > 2
        && "--port="@.len() > 2);
}

proof fn lemma_split_options()
    ensures
        inline_option("--listen"@) is None,
        inline_option("--addr"@) is None,
        inline_option("--host"@) is None,
        inline_option("--port"@) is None,
        inline_option("-p"@) is None,
        split_option("--listen"@) == Some(CliOption::Listen),
        split_option("--addr"@) == Some(CliOption::Listen),
        split_option("--host"@) == Some(CliOption::Host),
        split_option("--port"@) == Some(CliOption::Port),
        split_option("-p"@) == Some(CliOption::Port),
{
    reveal_strlit("--listen=");
    reveal_strlit("--addr=");
    reveal_strlit("--host=");
    reveal_strlit("--port=");
    reveal_strlit("--listen");
    reveal_strlit("--addr");
    reveal_strlit("--host");
    reveal_strlit("--port");
    reveal_strlit("-p");
    assert("--listen="@.len() == 9 && "--addr="@.len() == 7 && "--host="@.len() == 7
        && "--port="@.len() == 7);
    assert("--listen"@.len() == 8 && "--addr"@.len() == 6 && "--host"@.len() == 6
        && "--port"@.len() == 6 && "-p"@.len() == 2);
    assert("--listen"@[2] == 'l' && "--addr"@[2] == 'a' && "--host"@[2] == 'h' && "--port"@[2]
        == 'p');
    assert("--addr="@[2] == 'a' && "--host="@[2] == 'h' && "--port="@[2] == 'p');
    assert forall|prefix: Seq<char>, text: Seq<char>|
        prefix.len() > 2 && text.len() > 2 && #[trigger] prefix.is_prefix_of(text) implies prefix[2]
        == text[2] by {
        assert(prefix[2] == text.subrange(0, prefix.len() as int)[2]);
    }
    assert("--host"@ != "--addr"@ && "--host"@ != "--listen"@);
    assert("--port"@ != "--addr"@ && "--port"@ != "--listen"@ && "--port"@ != "--host"@);
}

/// An option sets its own value and no other, behind an equals sign or as the next argument, and
/// reading goes on behind it.
pub proof fn an_option_sets_its_value(value: Seq<char>, rest: Seq<Seq<char>>, options: CliView)
    ensures
        ({
            let listen = options_from(
                rest,
                0,
                CliView { listen: Some(value), host: options.host, port: options.port },
            );
            let host = options_from(
                rest,
                0,
                CliView { listen: options.listen, host: Some(value), port: options.port },
            );
            let port = options_from(
                rest,
                0,
                CliView { listen: options.listen, host: options.host, port: Some(value) },
            );
            &&& options_from(seq!["--listen="@ + value] + rest, 0, options) == listen
            &&& options_from(seq!["--addr="@ + value] + rest, 0, options) == listen
            &&& options_from(seq!["--listen"@, value] + rest, 0, options) == listen
            &&& options_from(seq!["--addr"@, value] + rest, 0, options) == listen
            &&& options_from(seq!["--host="@ + value] + rest, 0, options) == host
            &&& options_from(seq!["--host"@, value] + rest, 0, options) == host
            &&& options_from(seq!["--port="@ + value] + rest, 0, options) == port
            &&& options_from(seq!["--port"@, value] + rest, 0, options) == port
            &&& options_from(seq!["-p"@, value] + rest, 0, options) == port
        }),
{
    lemma_inline_options(value);
    lemma_split_options();
    lemma_one_argument("--listen="@ + value, rest, options, CliOption::Listen, value);
    lemma_one_argument("--addr="@ + value, rest, options, CliOption::Listen, value);
    lemma_one_argument("--host="@ + value, rest, options, CliOption::Host, value);
    lemma_one_argument("--port="@ + value, rest, options, CliOption::Port, value);
    lemma_two_arguments("--listen"@, rest, options, CliOption::Listen, value);
    lemma_two_arguments("--addr"@, rest, options, CliOption::Listen, value);
    lemma_two_arguments("--host"@, rest, options, CliOption::Host, value);
    lemma_two_arguments("--port"@, rest, options, CliOption::Port, value);
    lemma_two_arguments("-p"@, rest, options, CliOption::Port, value);
}

proof fn lemma_one_argument(
    arg: Seq<char>,
    rest: Seq<Seq<char>>,
    options: CliView,
    option: CliOption,
    value: Seq<char>,
)
    requires
        inline_option(arg) == Some((option, value)),
    ensures
        options_from(seq![arg] + rest, 0, options) == options_from(
            rest,
            0,
            with_option(options, option, value),
        ),
{
    lemma_options_shift(seq![arg], rest, 0, with_option(options, option, value));
}

proof fn lemma_two_arguments(
    arg: Seq<char>,
    rest: Seq<Seq<char>>,
    options: CliView,
    option: CliOption,
    value: Seq<char>,
)
    requires
        inline_option(arg) is None,
        split_option(arg) == Some(option),
    ensures
        options_from(seq![arg, value] + rest, 0, options) == options_from(
            rest,
            0,
            with_option(options, option, value),
        ),
{
    lemma_options_shift(seq![arg, value], rest, 0, with_option(options, option, value));
}

/// The program's name and arguments that start with no dash are passed over, and so is an option
/// whose value is missing.
pub proof fn other_arguments_are_passed_over(
    name: Seq<char>,
    other: Seq<char>,
    rest: Seq<Seq<char>>,
    options: CliView,
)
    requires
        other.len() == 0 || other[0] != '-',
    ensures
        options_of(seq![name] + rest) == options_from(
            rest,
            0,
            CliView { listen: None, host: None, port: None },
        ),
        options_from(seq![other] + rest, 0, options) == options_from(rest, 0, options),
        options_from(seq!["--listen"@], 0, options) == options,
        options_from(seq!["--host"@], 0, options) == options,
        options_from(seq!["--port"@], 0, options) == options,
{
    lemma_split_options();
    lemma_options_shift(seq![name], rest, 0, CliView { listen: None, host: None, port: None });
    lemma_options_shift(seq![other], rest, 0, options);
    reveal_strlit("--listen=");
    reveal_strlit("--addr=");
    reveal_strlit("--host=");
    reveal_strlit("--port=");
    reveal_strlit("--listen");
    reveal_strlit("--addr");
    reveal_strlit("--host");
    reveal_strlit("--port");
    reveal_strlit("-p");
    assert forall|prefix: Seq<char>|
        prefix.len() > 0 && #[trigger] prefix.is_prefix_of(other) implies prefix[0] == other[0] by {
        assert(prefix[0] == other.subrange(0, prefix.len() as int)[0]);
    }
    assert("--listen="@[0] == '-' && "--addr="@[0] == '-' && "--host="@[0] == '-' && "--port="@[0]
        == '-');
    assert("--listen"@[0] == '-' && "--addr"@[0] == '-' && "--host"@[0] == '-' && "--port"@[0]
        == '-' && "-p"@[0] == '-');
    assert("--listen="@.len() > 0 && "--addr="@.len() > 0 && "--host="@.len() > 0
        && "--port="@.len() > 0);
    assert("--listen"@.len() > 0 && "--addr"@.len() > 0 && "--host"@.len() > 0 && "--port"@.len()
        > 0 && "-p"@.len() > 0);
}

/// A whole address is taken as it is; a host or a port replaces that part of where a server binds
/// otherwise. What cannot be read has no effect.
pub proof fn options_replace_their_part<I>(
    options: CliView,
    whole: (I, u16),
    base: (I, u16),
    ip: I,
    host: Seq<char>,
    port: u16,
)
    ensures
        ({
            let host_only = CliView { listen: None, host: Some(host), port: None };
            let port_only = CliView { listen: None, host: None, port: Some(decimal(port as nat)) };
            let both = CliView { listen: None, host: Some(host), port: Some(decimal(port as nat)) };
            let bad_port = CliView { listen: None, host: options.host, port: Some(Seq::empty()) };
            &&& options.listen is Some ==> overridden(options, Some(whole), base, Some(ip)) == Some(
                ListenOverride { addr: whole, explicit: true },
            )
            &&& options.listen is Some ==> overridden(options, None, base, Some(ip)) is None
            &&& overridden(host_only, Some(whole), base, Some(ip)) == Some(
                ListenOverride { addr: (ip, base.1), explicit: false },
            )
            &&& overridden(port_only, Some(whole), base, Some(ip)) == Some(
                ListenOverride { addr: (base.0, port), explicit: false },
            )
            &&& overridden(both, Some(whole), base, Some(ip)) == Some(
                ListenOverride { addr: (ip, port), explicit: false },
            )
            &&& overridden(host_only, Some(whole), base, None) is None
            &&& overridden(both, Some(whole), base, None) is None
            &&& overridden(bad_port, Some(whole), base, Some(ip)) is None
            &&& overridden(
                CliView { listen: None, host: None, port: None },
                Some(whole),
                base,
                Some(ip),
            ) is None
        }),
{
    a_numeral_is_read_back(port as nat, 65535, seq!['x'], 0);
}

/// A process inside Lambda is told first, then one that a Functions host waits for at a port; white
/// space around the port does not count, and a port that is none is refused.
pub proof fn a_platform_is_told_by_its_environment(
    lead: Seq<char>,
    port: nat,
    tail: Seq<char>,
    said: Option<Seq<char>>,
)
    requires
        is_blank_text(lead, Padding::WhiteSpace),
        is_blank_text(tail, Padding::WhiteSpace),
    ensures
        detected(true, said) == Some(Platform::Lambda),
        detected(false, None) == Some(Platform::Server),
        port <= 65535 ==> detected(false, Some(lead + decimal(port) + tail)) == Some(
            Platform::AzureFunctions { port: port as u16 },
        ),
        port > 65535 ==> detected(false, Some(lead + decimal(port) + tail)) is None,
        detected(false, Some(lead)) is None,
{
    let text = decimal(port);
    a_numeral_is_read_back(port, 65535, seq!['x'], 0);
    a_numeral_stands_for_its_number(port);
    lemma_decimal_is_not_empty(port);
    assert(is_digit(text[0]) && is_digit(text[text.len() - 1]));
    a_text_without_padding_stays(text, Padding::WhiteSpace);
    lemma_trim_padded(lead, text, tail, Padding::WhiteSpace);
    let none = Seq::<char>::empty();
    lemma_trim_padded(lead, none, none, Padding::WhiteSpace);
    assert(lead + none + none =~= lead);
    a_text_without_padding_stays(none, Padding::WhiteSpace);
}

/// A server serves where it is asked to, or by default; the Functions host is served at its port
/// unless a whole address was given, and has its triggers mounted; Lambda is handed over to its
/// adapter. Without the adapter, or where the platform is not known, nothing starts.
pub proof fn a_platform_is_served_its_way<I>(
    listen: Option<ListenOverride<(I, u16)>>,
    localhost: I,
    port: u16,
    error: StartupError,
    has_lambda_adapter: bool,
    plan: LaunchPlan<(I, u16)>,
)
    ensures
        is_planned(Err(error), has_lambda_adapter, listen, localhost, plan) ==> plan
            == LaunchPlan::<(I, u16)>::Refuse(error),
        is_planned(Ok(Platform::Lambda), true, listen, localhost, plan) ==> plan is HandOver,
        is_planned(Ok(Platform::Lambda), false, listen, localhost, plan) ==> plan is Refuse
            && plan->Refuse_0 is LambdaFeatureMissing,
        is_planned(Ok(Platform::Server), has_lambda_adapter, listen, localhost, plan) ==> {
            &&& plan is Serve
            &&& !plan->mounts_triggers
            &&& listen is None <==> plan->address is Default
            &&& listen is Some ==> plan->address == ServeAddress::At(listen->0.addr)
        },
        is_planned(
            Ok(Platform::AzureFunctions { port }),
            has_lambda_adapter,
            listen,
            localhost,
            plan,
        ) ==> {
            &&& plan is Serve
            &&& plan->mounts_triggers
            &&& listen is Some && listen->0.explicit ==> plan->address == ServeAddress::At(
                listen->0.addr,
            )
            &&& listen is None || !listen->0.explicit ==> plan->address == ServeAddress::At(
                (localhost, port),
            )
        },
{
}

/// More bytes are wanted only where what came is a proper beginning of what is expected.
pub proof fn a_different_byte_decides(buffer: Seq<u8>, preface: Seq<u8>, at: int)
    ensures
        0 <= at < buffer.len() && at < preface.len() && buffer[at] != preface[at] ==> !undecided(
            buffer,
            preface,
        ),
        buffer.len() >= preface.len() ==> !undecided(buffer, preface),
        buffer.len() < preface.len() && (forall|i: int|
            0 <= i < buffer.len() ==> #[trigger] buffer[i] == preface[i]) ==> undecided(
            buffer,
            preface,
        ),
{
    if undecided(buffer, preface) {
        assert(buffer =~= preface.subrange(0, buffer.len() as int));
    }
    if buffer.len() < preface.len() && (forall|i: int|
        0 <= i < buffer.len() ==> #[trigger] buffer[i] == preface[i]) {
        assert(buffer =~= preface.subrange(0, buffer.len() as int));
    }
}

} // verus!
