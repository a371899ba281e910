//! Queue consumers, driven over a queue in memory.

use skyzen::runtime::consumer::{
    attempts, build_batch, message_label, no_handler_message, panic_message, process_batch,
    retry_or_default, settle_batch, ConsumerConfig, ConsumerFatal, ConsumerLoop, ConsumerStep,
    HandlerOutcome, IntoQueueDisposition, QueueBatch, QueueBatchDisposition,
    QueueMessageDisposition, QueueRetry, Received, ReceivedMessage, INITIAL_BACKOFF,
};

const MILLIS: u128 = 1_000_000;

fn config(queue: &str) -> ConsumerConfig {
    ConsumerConfig {
        queue: queue.to_owned(),
        concurrency: 1,
        batch_size: 10,
        poll_wait: 20 * MILLIS,
        visibility_timeout: Some(200 * MILLIS),
        default_retry: QueueRetry {
            delay_seconds: Some(0),
        },
    }
}

fn retry_now() -> QueueRetry {
    QueueRetry {
        delay_seconds: Some(0),
    }
}

// A queue in memory: every message is visible until it is acknowledged.
struct Queue {
    messages: Vec<(Vec<u8>, u32)>,
    pulls: bool,
}

impl Queue {
    fn new(bodies: &[&str]) -> Self {
        Queue {
            messages: bodies.iter().map(|body| (body.as_bytes().to_vec(), 0)).collect(),
            pulls: true,
        }
    }

    fn receive(&mut self, max: usize) -> Vec<ReceivedMessage> {
        let mut out = Vec::new();
        for (index, message) in self.messages.iter_mut().enumerate().take(max) {
            message.1 += 1;
            out.push(ReceivedMessage {
                id: Some(format!("{index}")),
                receipt: format!("receipt-{index}"),
                body: message.0.clone(),
                attempts: Some(message.1),
            });
        }
        out
    }

    fn settle(&mut self, decisions: &[QueueMessageDisposition]) {
        for index in (0..decisions.len()).rev() {
            if decisions[index] == QueueMessageDisposition::Ack {
                self.messages.remove(index);
            }
        }
    }
}

struct Run {
    batches: Vec<Vec<String>>,
    attempts: Vec<Option<u32>>,
    fatal: Option<ConsumerFatal>,
}

// Runs a consumer until `turns` batches were handled or there is nothing left to receive, then
// tells it to stop.
fn drive(
    queue: &mut Queue,
    config: ConsumerConfig,
    turns: usize,
    decide: impl Fn(usize, &QueueBatch) -> HandlerOutcome,
) -> Run {
    let name = config.queue.clone();
    let default_retry = config.default_retry;
    let mut consumer = ConsumerLoop::new(config);
    let mut run = Run {
        batches: vec![],
        attempts: vec![],
        fatal: None,
    };
    let mut received = vec![];
    let mut idle = 0;
    let mut step = consumer.turn(false);
    loop {
        step = match step {
            ConsumerStep::Receive(options) => {
                received = queue.receive(options.max_messages);
                let outcome = if !queue.pulls {
                    Received::Unsupported("no pull-based consumption".to_owned())
                } else if received.is_empty() {
                    Received::Empty { elapsed: 0 }
                } else {
                    Received::Batch
                };
                consumer.on_received(outcome)
            }
            ConsumerStep::Process => {
                let batch = build_batch(&name, &received, 5);
                let call = run.batches.len();
                run.attempts.push(attempts(&received));
                run.batches.push(
                    batch
                        .messages
                        .iter()
                        .map(|message| String::from_utf8(message.body.clone()).unwrap())
                        .collect(),
                );
                let decisions =
                    process_batch(decide(call, &batch), batch.messages.len(), default_retry);
                queue.settle(&decisions);
                consumer.turn(run.batches.len() >= turns)
            }
            ConsumerStep::Idle(_) => {
                idle += 1;
                consumer.on_idle(idle > 3)
            }
            ConsumerStep::NextTurn => consumer.turn(run.batches.len() >= turns),
            ConsumerStep::Report(fatal) => {
                run.fatal = Some(fatal);
                return run;
            }
            ConsumerStep::Stop => return run,
        };
    }
}

#[test]
fn dispositions_mirror_the_cloudflare_conversions() {
    let unit: Result<QueueBatchDisposition, String> = ().into_queue_disposition();
    assert_eq!(unit.unwrap(), QueueBatchDisposition::ack_all());
    assert_eq!(
        Ok::<(), String>(()).into_queue_disposition().unwrap(),
        QueueBatchDisposition::ack_all()
    );
    let retry = QueueRetry { delay_seconds: None };
    let kept: Result<QueueBatchDisposition, String> =
        QueueBatchDisposition::retry_all(retry).into_queue_disposition();
    assert_eq!(kept.unwrap(), QueueBatchDisposition::retry_all(retry));
    let error = Err::<QueueBatchDisposition, String>("no".to_owned())
        .into_queue_disposition()
        .unwrap_err();
    assert!(error.contains("no"));
}

#[test]
fn processes_a_batch_and_acknowledges_every_message() {
    let mut queue = Queue::new(&["one", "two"]);
    let run = drive(&mut queue, config("jobs"), 1, |_, _| {
        HandlerOutcome::Decided(QueueBatchDisposition::ack_all())
    });
    assert!(run.fatal.is_none());
    assert_eq!(run.batches[0], vec!["one".to_owned(), "two".to_owned()]);
    assert!(queue.messages.is_empty(), "acked messages are deleted");
}

#[test]
fn a_retried_message_comes_back_with_another_attempt() {
    let mut queue = Queue::new(&["retry-me"]);
    let run = drive(&mut queue, config("jobs"), 2, |call, _| {
        HandlerOutcome::Decided(if call == 0 {
            QueueBatchDisposition::retry_all(retry_now())
        } else {
            QueueBatchDisposition::ack_all()
        })
    });
    assert!(run.fatal.is_none());
    assert_eq!(run.batches.len(), 2, "the message was redelivered");
    assert_eq!(run.batches[1], vec!["retry-me".to_owned()]);
    assert_eq!(run.attempts, vec![Some(1), Some(2)]);
    assert!(queue.messages.is_empty(), "the retry was acked");
}

#[test]
fn a_failing_handler_retries_the_whole_batch() {
    let mut queue = Queue::new(&["poison"]);
    let run = drive(&mut queue, config("jobs"), 2, |_, _| HandlerOutcome::Failed);
    assert!(run.fatal.is_none());
    assert!(run.batches.len() >= 2);
    assert_eq!(queue.messages.len(), 1);
    assert_eq!(queue.messages[0].0, b"poison".to_vec());
}

#[test]
fn a_panicking_handler_retries_the_batch_and_keeps_polling() {
    let mut queue = Queue::new(&["boom"]);
    let run = drive(&mut queue, config("jobs"), 2, |call, _| {
        if call == 0 {
            HandlerOutcome::Panicked
        } else {
            HandlerOutcome::Decided(QueueBatchDisposition::ack_all())
        }
    });
    assert!(run.fatal.is_none());
    assert!(queue.messages.is_empty(), "the retry was acked");
}

#[test]
fn a_mismatched_per_message_decision_retries_rather_than_settling_by_index() {
    let mut queue = Queue::new(&["a", "b"]);
    let run = drive(&mut queue, config("jobs"), 2, |call, _| {
        HandlerOutcome::Decided(if call == 0 {
            QueueBatchDisposition::PerMessage(vec![QueueMessageDisposition::Ack])
        } else {
            QueueBatchDisposition::ack_all()
        })
    });
    assert!(run.fatal.is_none());
    assert_eq!(run.batches[1].len(), 2, "neither message was acked");
    assert_eq!(queue.messages.len(), 0, "the retry was acked");
}

#[test]
fn a_push_only_backend_reports_a_fatal_consumer() {
    let mut queue = Queue::new(&[]);
    queue.pulls = false;
    let run = drive(&mut queue, config("pushed"), 1, |_, _| HandlerOutcome::Failed);
    let fatal = run.fatal.expect("the consumer reports it cannot run");
    assert_eq!(fatal.queue, "pushed");
    assert!(fatal.reason.contains("pull-based"));
    assert_eq!(run.batches.len(), 0, "no batch ever reached the handler");
}

#[test]
fn shutdown_finishes_and_settles_the_batch_in_flight() {
    let mut consumer = ConsumerLoop::new(config("jobs"));
    assert!(matches!(
        consumer.on_received(Received::Batch),
        ConsumerStep::Process
    ));
    // The runtime begins to shut down while the handler works: the batch is settled first.
    let decisions = process_batch(
        HandlerOutcome::Decided(QueueBatchDisposition::ack_all()),
        1,
        retry_now(),
    );
    assert_eq!(decisions, vec![QueueMessageDisposition::Ack]);
    assert!(matches!(consumer.turn(true), ConsumerStep::Stop));
}

#[test]
fn failing_receives_back_off() {
    let mut slow = config("jobs");
    slow.poll_wait = 3 * INITIAL_BACKOFF;
    let mut consumer = ConsumerLoop::new(slow);
    let mut pauses = vec![];
    for _ in 0..3 {
        match consumer.on_received(Received::Failed) {
            ConsumerStep::Idle(pause) => pauses.push(pause),
            _ => panic!("a failed receive is followed by a pause"),
        }
    }
    assert_eq!(
        pauses,
        vec![INITIAL_BACKOFF, 2 * INITIAL_BACKOFF, 3 * INITIAL_BACKOFF]
    );
    assert!(matches!(
        consumer.on_received(Received::Batch),
        ConsumerStep::Process
    ));
    assert!(matches!(
        consumer.on_received(Received::Failed),
        ConsumerStep::Idle(INITIAL_BACKOFF)
    ));
    assert!(matches!(
        consumer.on_received(Received::Interrupted),
        ConsumerStep::Stop
    ));
    assert!(matches!(consumer.on_idle(true), ConsumerStep::Stop));
}

#[test]
fn decisions_are_applied_message_by_message() {
    let later = QueueRetry {
        delay_seconds: Some(9),
    };
    let unset = QueueRetry { delay_seconds: None };
    assert_eq!(retry_or_default(unset, later), later);
    assert_eq!(retry_or_default(retry_now(), later), retry_now());
    let decisions = settle_batch(
        &QueueBatchDisposition::PerMessage(vec![
            QueueMessageDisposition::Ack,
            QueueMessageDisposition::Retry(unset),
        ]),
        2,
        later,
    );
    assert_eq!(
        decisions,
        vec![
            QueueMessageDisposition::Ack,
            QueueMessageDisposition::Retry(later)
        ]
    );
}

#[test]
fn messages_and_panics_are_labelled() {
    let message = ReceivedMessage {
        id: None,
        receipt: "receipt".to_owned(),
        body: vec![],
        attempts: None,
    };
    assert_eq!(message_label(&message), "receipt");
    assert_eq!(panic_message(Some("literal"), None), "literal");
    assert_eq!(panic_message(None, Some("owned".to_owned())), "owned");
    assert!(!panic_message(None, None).is_empty());
    assert!(!no_handler_message().is_empty());
}
