//! Starting, serving and shutting down.

use skyzen::runtime::azure::MountError;
use skyzen::runtime::consumer::ConsumerFatal;
use skyzen::runtime::context::{WorkerContextError, WorkerContextNotConfigured};
use skyzen::runtime::edge::{
    extract_properties, plan_response, sends_body, status_forbids_body, upgraded_socket,
    ResponsePlan,
};
use skyzen::runtime::native::{
    apply_cli_overrides, end_report, functions_address, http2_preface, plan_launch, port_message,
    server_addr, severed_work, AcceptEvent, AcceptLoop, AcceptStep, EndReport, LaunchPlan,
    ListenOverride, Platform, Prefixed, RuntimeFailure, ServeAddress, Shutdown, Sniffer,
    StartupError, HANDSHAKE_TIMEOUT_SECS, LAMBDA_RUNTIME_API_ENV, SHUTDOWN_GRACE_PERIOD_SECS,
};

// A host and a port; a host is four numbers.
type Address = (String, u16);

fn host(text: &str) -> Option<String> {
    let parts: Vec<&str> = text.split('.').collect();
    if parts.len() == 4 && parts.iter().all(|part| part.parse::<u8>().is_ok()) {
        Some(text.to_owned())
    } else {
        None
    }
}

fn address(text: &str) -> Option<Address> {
    let (ip, port) = text.split_once(':')?;
    Some((host(ip)?, port.parse().ok()?))
}

fn local(port: u16) -> Address {
    ("127.0.0.1".to_owned(), port)
}

#[test]
fn server_addr_defaults_to_random_localhost_port() {
    assert_eq!(server_addr(None, local(0)), local(0));
}

#[test]
fn server_addr_uses_environment_override() {
    assert_eq!(
        server_addr(Some(address("127.0.0.1:4012")), local(0)),
        local(4012)
    );
}

#[test]
fn a_plain_process_is_detected_as_an_ordinary_server() {
    assert!(matches!(Platform::detect(false, None), Ok(Platform::Server)));
}

#[test]
fn the_lambda_runtime_api_is_detected_before_anything_binds_a_listener() {
    assert!(matches!(Platform::detect(true, None), Ok(Platform::Lambda)));
}

#[test]
fn lambda_outranks_the_functions_port_when_somehow_both_are_set() {
    assert!(matches!(
        Platform::detect(true, Some("7071".to_owned())),
        Ok(Platform::Lambda)
    ));
}

#[test]
fn the_functions_custom_handler_port_is_detected_and_parsed() {
    assert!(matches!(
        Platform::detect(false, Some("7071".to_owned())),
        Ok(Platform::AzureFunctions { port: 7071 })
    ));
    assert!(matches!(
        Platform::detect(false, Some(" 7071\n".to_owned())),
        Ok(Platform::AzureFunctions { port: 7071 })
    ));
}

#[test]
fn a_functions_port_that_is_not_a_port_stops_the_process_rather_than_guessing() {
    let error = Platform::detect(false, Some("not-a-port".to_owned())).unwrap_err();
    assert!(matches!(error, StartupError::CustomHandlerPort { .. }));
    assert!(error.message().contains("not-a-port"), "{}", error.message());
    assert!(Platform::detect(false, Some("65536".to_owned())).is_err());
}

#[test]
fn a_lambda_without_the_feature_names_the_feature_it_needs() {
    let error = StartupError::LambdaFeatureMissing.message();

    assert!(error.contains("features = [\"lambda\"]"), "{error}");
    assert!(error.contains(LAMBDA_RUNTIME_API_ENV), "{error}");
}

#[test]
fn a_strange_port_is_quoted() {
    let error = StartupError::CustomHandlerPort {
        value: "7\n".to_owned(),
    };
    assert_eq!(error.message(), port_message("\"7\\n\""));
    assert!(error.message().contains("\"7\\n\""));
}

fn overrides(args: &[&str], base: Address) -> Option<ListenOverride<Address>> {
    let args: Vec<String> = args.iter().map(|arg| (*arg).to_owned()).collect();
    apply_cli_overrides(
        &args,
        |text: &String| address(text),
        |text: &String| host(text),
        || base.clone(),
    )
}

#[test]
fn apply_cli_overrides_accepts_listen_aliases_and_split_flags() {
    assert_eq!(
        overrides(&["skyzen", "--addr", "127.0.0.1:5050"], local(0)),
        Some(ListenOverride {
            addr: local(5050),
            explicit: true,
        })
    );
    assert_eq!(
        overrides(&["skyzen", "--host", "127.0.0.1", "-p", "6060"], local(0)),
        Some(ListenOverride {
            addr: local(6060),
            explicit: false,
        })
    );
}

#[test]
fn apply_cli_overrides_returns_none_for_invalid_values() {
    let base = local(7000);
    assert_eq!(
        overrides(&["skyzen", "--listen", "bad-address"], base.clone()),
        None
    );
    assert_eq!(
        overrides(
            &["skyzen", "--host=invalid-host", "--port=7001"],
            base.clone()
        ),
        None
    );
    assert_eq!(
        overrides(&["skyzen", "--host=127.0.0.1", "--port=bad-port"], base.clone()),
        None
    );
    assert_eq!(
        overrides(&["skyzen", "--port=8080"], base),
        Some(ListenOverride {
            addr: local(8080),
            explicit: false,
        })
    );
}

#[test]
fn the_last_of_several_options_counts() {
    assert_eq!(
        overrides(&["skyzen", "--port=1", "run", "--port", "2", "-p"], local(0)),
        Some(ListenOverride {
            addr: local(2),
            explicit: false,
        })
    );
    assert_eq!(overrides(&["--port=1"], local(0)), None);
    assert_eq!(overrides(&["skyzen", "serve"], local(0)), None);
}

#[test]
fn the_functions_host_keeps_its_port_unless_an_option_names_another() {
    let explicit = ListenOverride {
        addr: local(9),
        explicit: true,
    };
    let adjusted = ListenOverride {
        addr: local(9),
        explicit: false,
    };
    assert_eq!(functions_address(Some(explicit), local(7071)), local(9));
    assert_eq!(functions_address(Some(adjusted), local(7071)), local(7071));
    assert_eq!(functions_address(None, local(7071)), local(7071));
}

#[test]
fn the_platform_decides_how_the_process_runs() {
    let ip = || "127.0.0.1".to_owned();
    let asked = || {
        Some(ListenOverride {
            addr: local(9),
            explicit: false,
        })
    };
    assert!(matches!(
        plan_launch(Ok(Platform::Server), false, asked(), ip()),
        LaunchPlan::Serve { address: ServeAddress::At(addr), mounts_triggers: false }
            if addr == local(9)
    ));
    assert!(matches!(
        plan_launch(Ok(Platform::Server), false, None, ip()),
        LaunchPlan::Serve { address: ServeAddress::Default, mounts_triggers: false }
    ));
    assert!(matches!(
        plan_launch(Ok(Platform::AzureFunctions { port: 7071 }), false, asked(), ip()),
        LaunchPlan::Serve { address: ServeAddress::At(addr), mounts_triggers: true }
            if addr == local(7071)
    ));
    assert!(matches!(
        plan_launch(Ok(Platform::Lambda), true, asked(), ip()),
        LaunchPlan::HandOver
    ));
    assert!(matches!(
        plan_launch(Ok(Platform::Lambda), false, asked(), ip()),
        LaunchPlan::Refuse(StartupError::LambdaFeatureMissing)
    ));
    let broken = Platform::detect(false, Some("x".to_owned()));
    assert!(matches!(
        plan_launch(broken, true, None, ip()),
        LaunchPlan::Refuse(StartupError::CustomHandlerPort { .. })
    ));
}

#[test]
fn draining_returns_once_every_connection_guard_is_dropped() {
    assert_eq!(severed_work(false, 1), 1);
    assert_eq!(severed_work(true, 0), 0);
    assert_eq!(SHUTDOWN_GRACE_PERIOD_SECS, 30);
    assert_eq!(HANDSHAKE_TIMEOUT_SECS, 10);
}

#[test]
fn the_accept_loop_serves_until_it_is_stopped() {
    let mut accept = AcceptLoop::new();
    assert!(matches!(
        accept.on_event(AcceptEvent::Connection(1)),
        AcceptStep::Serve(1)
    ));
    assert!(matches!(
        accept.on_event(AcceptEvent::<u8>::AcceptFailed),
        AcceptStep::Continue
    ));
    assert!(matches!(
        accept.on_event(AcceptEvent::<u8>::ConsumerReport(None)),
        AcceptStep::Continue
    ));
    assert!(matches!(
        accept.on_event(AcceptEvent::<u8>::Interrupted),
        AcceptStep::Stop
    ));
    let outcome = accept.finish(2);
    assert!(matches!(outcome, Ok(Shutdown { severed: 2 })));
    assert_eq!(end_report(&outcome), EndReport::Severed(2));
    assert_eq!(end_report(&Ok(Shutdown { severed: 0 })), EndReport::Graceful);
}

#[test]
fn a_consumer_that_cannot_run_stops_the_server() {
    let mut accept = AcceptLoop::new();
    let fatal = ConsumerFatal {
        queue: "jobs".to_owned(),
        reason: "push only".to_owned(),
    };
    assert!(matches!(
        accept.on_event(AcceptEvent::<u8>::ConsumerReport(Some(fatal))),
        AcceptStep::Stop
    ));
    let outcome = accept.finish(0);
    assert_eq!(end_report(&outcome), EndReport::Failed);
    match outcome {
        Err(failure) => assert_eq!(
            failure.message(),
            "the queue consumer for `jobs` cannot run: push only"
        ),
        Ok(_) => panic!("the server stopped for a reason"),
    }
    assert_eq!(
        RuntimeFailure::Listener("in use".to_owned()).message(),
        "the listener failed: in use"
    );
    let mount = RuntimeFailure::Mount(MountError::DuplicateFunction {
        function: "f".to_owned(),
    });
    assert!(mount.message().contains("`f` twice"));
}

// Reads from chunks as a connection would, then says what was sniffed and what is read after it.
fn sniff(chunks: &[&[u8]]) -> (bool, Vec<u8>) {
    let mut inner: Vec<u8> = Vec::new();
    let mut sniffer = Sniffer::new(http2_preface());
    let mut rest = chunks.iter().map(|chunk| chunk.to_vec());
    loop {
        let wanted = sniffer.wants();
        if wanted == 0 {
            break;
        }
        if inner.is_empty() {
            match rest.next() {
                Some(chunk) => inner = chunk,
                None => break,
            }
        }
        let taken: Vec<u8> = inner.drain(..wanted.min(inner.len())).collect();
        sniffer.feed(&taken);
    }
    for chunk in rest {
        inner.extend(chunk);
    }
    let is_http2 = sniffer.is_http2();
    let mut stream = sniffer.into_prefixed(inner);
    let mut read = Vec::new();
    while let Some(bytes) = stream.read(16) {
        read.extend(bytes);
    }
    read.extend(stream.inner_mut().iter());
    (is_http2, read)
}

const HTTP2_PREFACE: &[u8] = b"PRI * HTTP/2.0\r\n\r\nSM\r\n\r\n";

#[test]
fn sniff_protocol_detects_http2_preface_and_replays_buffered_bytes() {
    assert_eq!(http2_preface(), HTTP2_PREFACE);
    let payload = [HTTP2_PREFACE, b"rest"].concat();
    let (is_h2, read) = sniff(&[&payload]);
    assert!(is_h2);
    assert_eq!(read, payload);
}

#[test]
fn sniff_protocol_distinguishes_http1_and_preserves_writes() {
    let payload = b"GET / HTTP/1.1\r\n\r\n".to_vec();
    let (is_h2, read) = sniff(&[&payload]);
    assert!(!is_h2);
    assert_eq!(read, payload);

    let mut stream = Prefixed::new(Vec::<u8>::new(), payload);
    stream.inner_mut().extend(b"pong");
    assert_eq!(*stream.inner_mut(), b"pong".to_vec());
}

#[test]
fn prefixed_reads_buffer_before_inner_stream() {
    let mut stream = Prefixed::new(b"tail".to_vec(), b"head".to_vec());
    assert_eq!(stream.read(3), Some(b"hea".to_vec()));
    assert_eq!(stream.read(3), Some(b"d".to_vec()));
    assert_eq!(stream.read(3), None);
    assert_eq!(*stream.inner_mut(), b"tail".to_vec());
}

#[test]
fn sniff_detects_split_http2_preface() {
    let (is_h2, _) = sniff(&[
        &HTTP2_PREFACE[..5],
        &HTTP2_PREFACE[5..12],
        &HTTP2_PREFACE[12..],
    ]);
    assert!(is_h2);
}

#[test]
fn sniff_preserves_bytes_on_split_mismatch() {
    let payload = b"GET / HTTP/1.1\r\n\r\n".to_vec();
    let (is_h2, restored) = sniff(&[&payload[..3], &payload[3..10], &payload[10..]]);
    assert!(!is_h2);
    assert_eq!(restored, payload);
}

#[test]
fn a_short_connection_is_not_http2() {
    let (is_h2, read) = sniff(&[&HTTP2_PREFACE[..10]]);
    assert!(!is_h2);
    assert_eq!(read, &HTTP2_PREFACE[..10]);
}

#[test]
fn fetch_null_body_statuses_are_named_exhaustively() {
    assert!(status_forbids_body(204));
    assert!(status_forbids_body(205));
    assert!(status_forbids_body(304));
    assert!(!status_forbids_body(200));
    assert!(!status_forbids_body(206));
}

#[test]
fn requests_without_bodies_send_none() {
    assert!(!sends_body("GET", None));
    assert!(!sends_body("HEAD", Some(false)));
    assert!(!sends_body("POST", Some(true)));
    assert!(sends_body("POST", None));
}

#[test]
fn upgrades_hand_over_a_socket() {
    assert!(matches!(
        plan_response(101, Some(1), Some(2)),
        ResponsePlan::Upgrade(1)
    ));
    assert!(matches!(
        plan_response(101, None, Some(2)),
        ResponsePlan::Upgrade(2)
    ));
    assert!(matches!(
        plan_response::<u8>(101, None, None),
        ResponsePlan::Fail(_)
    ));
    assert!(matches!(
        plan_response(204, Some(1), None),
        ResponsePlan::WithoutBody
    ));
    assert!(matches!(
        plan_response(200, None, Some(1)),
        ResponsePlan::WithBody
    ));
    assert_eq!(upgraded_socket(101, Some(1)), Ok(Some(1)));
    assert_eq!(upgraded_socket(200, Some(1)), Ok(None));
    assert!(upgraded_socket::<u8>(101, None).is_err());
}

#[test]
fn unreadable_metadata_is_told_apart_from_missing_metadata() {
    assert_eq!(extract_properties(Some(Ok(5))).ok(), Some(5));
    let broken = extract_properties::<u8>(Some(Err("bad colo".to_owned()))).err().unwrap();
    assert!(broken.message().ends_with(": bad colo"));
    let missing = extract_properties::<u8>(None).err().unwrap();
    assert!(missing.message().starts_with("this request carried no `request.cf`"));
    assert_eq!(missing.status(), 500);
}

#[test]
fn a_missing_execution_context_is_reported() {
    assert_eq!(WorkerContextNotConfigured::extract(Some(1)).ok(), Some(1));
    let missing = WorkerContextNotConfigured::extract::<u8>(None).err().unwrap();
    assert_eq!(missing.status(), 500);
    assert!(missing.message().starts_with("Execution context not available"));
    let refused = WorkerContextError::new("closed");
    assert_eq!(
        refused.message(),
        "the runtime refused post-response work: closed"
    );
    assert_eq!(refused.status(), 500);
    assert!(WorkerContextError::missing_method("waitUntil")
        .message()
        .contains("`waitUntil`"));
}
