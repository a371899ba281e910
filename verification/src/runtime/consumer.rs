//! Consuming queues by polling them.
//!
//! Delivery is at least once: a batch is settled only after the handler returned, so what a process
//! that dies leaves behind is delivered again.

#[allow(unused_imports)]
use vstd::arithmetic::power2::{lemma2_to64, lemma_pow2_pos, lemma_pow2_unfold, pow2};
use vstd::prelude::*;

use crate::text::{copy_bytes, copy_text};

verus! {

/// The shortest pause after a failed receive, in nanoseconds; it doubles with each failure in a row.
pub const INITIAL_BACKOFF: u128 = 1000000000;

/// The longest span of time, in nanoseconds.
pub const LONGEST_SPAN: u128 = 18446744073709551615999999999;

/// When a message that is to be retried is delivered again.
#[derive(Debug, Clone, Copy, PartialEq, Eq)]
pub struct QueueRetry {
    /// The delay, or what is configured where it is `None`.
    pub delay_seconds: Option<u32>,
}

/// How one message is settled.
#[derive(Debug, Clone, Copy, PartialEq, Eq)]
pub enum QueueMessageDisposition {
    /// It is done.
    Ack,
    /// It is to be delivered again.
    Retry(QueueRetry),
}

/// How a batch is settled.
#[derive(Debug, Clone, PartialEq, Eq)]
pub enum QueueBatchDisposition {
    /// All messages alike.
    All(QueueMessageDisposition),
    /// Each message by its own decision.
    PerMessage(Vec<QueueMessageDisposition>),
}

impl QueueBatchDisposition {
    /// All messages are done.
    pub fn ack_all() -> (r: Self)
        ensures
            r == QueueBatchDisposition::All(QueueMessageDisposition::Ack),
    {
        QueueBatchDisposition::All(QueueMessageDisposition::Ack)
    }

    /// All messages are to be delivered again.
    pub fn retry_all(retry: QueueRetry) -> (r: Self)
        ensures
            r == QueueBatchDisposition::All(QueueMessageDisposition::Retry(retry)),
    {
        QueueBatchDisposition::All(QueueMessageDisposition::Retry(retry))
    }
}

/// Converts what a handler returns into how the batch is settled.
///
/// Returning nothing acknowledges the batch, a disposition settles it, and an error is passed on.
pub trait IntoQueueDisposition<E>: Sized {
    /// How the batch is settled.
    spec fn decision(&self) -> Result<QueueBatchDisposition, E>;

    /// How the batch is settled.
    fn into_queue_disposition(self) -> (r: Result<QueueBatchDisposition, E>)
        ensures
            r == self.decision(),
    ;
}

impl<E> IntoQueueDisposition<E> for () {
    open spec fn decision(&self) -> Result<QueueBatchDisposition, E> {
        Ok(QueueBatchDisposition::All(QueueMessageDisposition::Ack))
    }

    fn into_queue_disposition(self) -> (r: Result<QueueBatchDisposition, E>) {
        Ok(QueueBatchDisposition::ack_all())
    }
}

impl<E> IntoQueueDisposition<E> for Result<(), E> {
    open spec fn decision(&self) -> Result<QueueBatchDisposition, E> {
        match self {
            Ok(_) => Ok(QueueBatchDisposition::All(QueueMessageDisposition::Ack)),
            Err(error) => Err(*error),
        }
    }

    fn into_queue_disposition(self) -> (r: Result<QueueBatchDisposition, E>) {
        match self {
            Ok(_) => Ok(QueueBatchDisposition::ack_all()),
            Err(error) => Err(error),
        }
    }
}

impl<E> IntoQueueDisposition<E> for QueueBatchDisposition {
    open spec fn decision(&self) -> Result<QueueBatchDisposition, E> {
        Ok(*self)
    }

    fn into_queue_disposition(self) -> (r: Result<QueueBatchDisposition, E>) {
        Ok(self)
    }
}

impl<E> IntoQueueDisposition<E> for Result<QueueBatchDisposition, E> {
    open spec fn decision(&self) -> Result<QueueBatchDisposition, E> {
        *self
    }

    fn into_queue_disposition(self) -> (r: Result<QueueBatchDisposition, E>) {
        self
    }
}

/// A message as a backend delivers it.
#[derive(Debug)]
pub struct ReceivedMessage {
    /// The message's ID, where the backend assigns one.
    pub id: Option<String>,
    /// What the message is settled by.
    pub receipt: String,
    /// The contents.
    pub body: Vec<u8>,
    /// How often it was delivered, where the backend counts.
    pub attempts: Option<u32>,
}

/// A message as a handler sees it.
#[derive(Debug)]
pub struct QueueMessage {
    /// The message's ID.
    pub id: String,
    /// When it was received, in milliseconds since the epoch.
    pub timestamp_ms: i64,
    /// The contents.
    pub body: Vec<u8>,
}

/// A message as plain values.
pub struct QueueMessageView {
    /// The message's ID.
    pub id: Seq<char>,
    /// When it was received, in milliseconds since the epoch.
    pub timestamp_ms: i64,
    /// The contents.
    pub body: Seq<u8>,
}

impl View for QueueMessage {
    type V = QueueMessageView;

    open spec fn view(&self) -> QueueMessageView {
        QueueMessageView { id: self.id@, timestamp_ms: self.timestamp_ms, body: self.body@ }
    }
}

/// The messages of a list.
pub open spec fn message_views(messages: Seq<QueueMessage>) -> Seq<QueueMessageView> {
    messages.map_values(|m: QueueMessage| m@)
}

/// The messages a handler sees.
#[derive(Debug)]
pub struct QueueBatch {
    /// The queue.
    pub queue: String,
    /// The messages.
    pub messages: Vec<QueueMessage>,
}

/// What a message is called: its ID, or what it is settled by.
pub open spec fn label_of(message: ReceivedMessage) -> Seq<char> {
    match message.id {
        Some(id) => id@,
        None => message.receipt@,
    }
}

/// The messages a handler sees, given what was delivered.
pub open spec fn delivered(messages: Seq<ReceivedMessage>, timestamp_ms: i64) -> Seq<
    QueueMessageView,
> {
    messages.map_values(
        |m: ReceivedMessage|
            QueueMessageView { id: label_of(m), timestamp_ms, body: m.body@ },
    )
}

/// What a message is called: its ID, or what it is settled by where the backend assigns none.
pub fn message_label(message: &ReceivedMessage) -> (r: &str)
    ensures
        r@ == label_of(*message),
{
    match &message.id {
        Some(id) => id.as_str(),
        None => message.receipt.as_str(),
    }
}

/// The batch a handler receives, from what the backend delivered.
pub fn build_batch(queue: &str, messages: &Vec<ReceivedMessage>, timestamp_ms: i64) -> (r:
    QueueBatch)
    ensures
        r.queue@ == queue@,
        message_views(r.messages@) == delivered(messages@, timestamp_ms),
{
    let mut out: Vec<QueueMessage> = Vec::new();
    let mut i: usize = 0;
    assert(message_views(out@) =~= delivered(messages@, timestamp_ms).take(0));
    while i < messages.len()
        invariant
            i <= messages.len(),
            message_views(out@) == delivered(messages@, timestamp_ms).take(i as int),
        decreases messages.len() - i,
    {
        let ghost before = message_views(out@);
        let id = copy_text(message_label(&messages[i]));
        let message = QueueMessage { id, timestamp_ms, body: copy_bytes(&messages[i].body) };
        out.push(message);
        i = i + 1;
        assert(message_views(out@) =~= before.push(message@));
        assert(delivered(messages@, timestamp_ms).take(i as int) =~= delivered(
            messages@,
            timestamp_ms,
        ).take(i - 1).push(delivered(messages@, timestamp_ms)[i - 1]));
    }
    assert(delivered(messages@, timestamp_ms).take(i as int) =~= delivered(
        messages@,
        timestamp_ms,
    ));
    QueueBatch { queue: copy_text(queue), messages: out }
}

/// The most deliveries that the first `to` messages report, if any reports one.
pub open spec fn most_attempts(messages: Seq<ReceivedMessage>, to: int) -> Option<u32>
    decreases to,
{
    if to <= 0 || to > messages.len() {
        None
    } else {
        let earlier = most_attempts(messages, to - 1);
        match (earlier, messages[to - 1].attempts) {
            (Some(a), Some(b)) => Some(
                if b > a {
                    b
                } else {
                    a
                },
            ),
            (None, b) => b,
            (a, None) => a,
        }
    }
}

/// The most deliveries that any message of a batch reports.
pub fn attempts(messages: &Vec<ReceivedMessage>) -> (r: Option<u32>)
    ensures
        r == most_attempts(messages@, messages.len() as int),
{
    let mut most: Option<u32> = None;
    let mut i: usize = 0;
    while i < messages.len()
        invariant
            i <= messages.len(),
            most == most_attempts(messages@, i as int),
        decreases messages.len() - i,
    {
        if let Some(b) = messages[i].attempts {
            most = match most {
                Some(a) => Some(
                    if b > a {
                        b
                    } else {
                        a
                    },
                ),
                None => Some(b),
            };
        }
        i = i + 1;
    }
    most
}

/// What came of handing a batch to the handler.
#[derive(Debug)]
pub enum HandlerOutcome {
    /// The handler decided.
    Decided(QueueBatchDisposition),
    /// The handler returned an error.
    Failed,
    /// The handler panicked.
    Panicked,
}

/// How a batch is settled: as the handler decided, and otherwise it is retried.
pub open spec fn settled_by(outcome: HandlerOutcome, default_retry: QueueRetry) ->
    QueueBatchDisposition {
    match outcome {
        HandlerOutcome::Decided(disposition) => disposition,
        HandlerOutcome::Failed => QueueBatchDisposition::All(
            QueueMessageDisposition::Retry(default_retry),
        ),
        HandlerOutcome::Panicked => QueueBatchDisposition::All(
            QueueMessageDisposition::Retry(default_retry),
        ),
    }
}

/// The retry that is applied: the handler's own delay, or the configured one.
pub open spec fn applied_retry(retry: QueueRetry, default_retry: QueueRetry) -> QueueRetry {
    if retry.delay_seconds is Some {
        retry
    } else {
        default_retry
    }
}

/// A decision with the retry that is applied.
pub open spec fn applied(
    decision: QueueMessageDisposition,
    default_retry: QueueRetry,
) -> QueueMessageDisposition {
    match decision {
        QueueMessageDisposition::Ack => QueueMessageDisposition::Ack,
        QueueMessageDisposition::Retry(retry) => QueueMessageDisposition::Retry(
            applied_retry(retry, default_retry),
        ),
    }
}

/// How the message at an index is settled. Where a handler decides message by message for another
/// number of messages, none of its decisions counts and all messages are retried.
pub open spec fn decision_for(
    disposition: QueueBatchDisposition,
    count: nat,
    default_retry: QueueRetry,
    index: int,
) -> QueueMessageDisposition {
    match disposition {
        QueueBatchDisposition::All(decision) => applied(decision, default_retry),
        QueueBatchDisposition::PerMessage(decisions) => if decisions@.len() == count {
            applied(decisions@[index], default_retry)
        } else {
            QueueMessageDisposition::Retry(applied_retry(default_retry, default_retry))
        },
    }
}

/// The retry that is applied: the handler's own delay, or the configured one.
pub fn retry_or_default(retry: QueueRetry, default_retry: QueueRetry) -> (r: QueueRetry)
    ensures
        r == applied_retry(retry, default_retry),
{
    if retry.delay_seconds.is_some() {
        retry
    } else {
        default_retry
    }
}

fn apply(decision: QueueMessageDisposition, default_retry: QueueRetry) -> (r:
    QueueMessageDisposition)
    ensures
        r == applied(decision, default_retry),
{
    match decision {
        QueueMessageDisposition::Ack => QueueMessageDisposition::Ack,
        QueueMessageDisposition::Retry(retry) => QueueMessageDisposition::Retry(
            retry_or_default(retry, default_retry),
        ),
    }
}

/// How each message of a batch is settled.
pub fn settle_batch(
    disposition: &QueueBatchDisposition,
    count: usize,
    default_retry: QueueRetry,
) -> (r: Vec<QueueMessageDisposition>)
    ensures
        r@.len() == count,
        forall|i: int|
            0 <= i < count ==> #[trigger] r@[i] == decision_for(
                *disposition,
                count as nat,
                default_retry,
                i,
            ),
{
    let mut out: Vec<QueueMessageDisposition> = Vec::new();
    let mut i: usize = 0;
    while i < count
        invariant
            i <= count,
            out@.len() == i,
            forall|j: int|
                0 <= j < i ==> #[trigger] out@[j] == decision_for(
                    *disposition,
                    count as nat,
                    default_retry,
                    j,
                ),
        decreases count - i,
    {
        let decision = match disposition {
            QueueBatchDisposition::All(decision) => apply(*decision, default_retry),
            QueueBatchDisposition::PerMessage(decisions) => if decisions.len() == count {
                apply(decisions[i], default_retry)
            } else {
                apply(QueueMessageDisposition::Retry(default_retry), default_retry)
            },
        };
        out.push(decision);
        i = i + 1;
    }
    out
}

/// How a batch is settled, given what came of handing it to the handler. A handler that fails or
/// panics has its batch retried.
pub fn process_batch(outcome: HandlerOutcome, count: usize, default_retry: QueueRetry) -> (r: Vec<
    QueueMessageDisposition,
>)
    ensures
        r@.len() == count,
        forall|i: int|
            0 <= i < count ==> #[trigger] r@[i] == decision_for(
                settled_by(outcome, default_retry),
                count as nat,
                default_retry,
                i,
            ),
{
    let disposition = match outcome {
        HandlerOutcome::Decided(disposition) => disposition,
        HandlerOutcome::Failed => QueueBatchDisposition::retry_all(default_retry),
        HandlerOutcome::Panicked => QueueBatchDisposition::retry_all(default_retry),
    };
    settle_batch(&disposition, count, default_retry)
}

/// The message a panicking handler carried, where it carried a printable one.
pub fn panic_message(literal: Option<&'static str>, owned: Option<String>) -> (r: String)
    ensures
        r@ == match literal {
            Some(text) => text@,
            None => match owned {
                Some(text) => text@,
                None => "<non-string panic payload>"@,
            },
        },
{
    match literal {
        Some(text) => copy_text(text),
        None => match owned {
            Some(text) => text,
            None => copy_text("<non-string panic payload>"),
        },
    }
}

/// The error of an application that is handed a batch and has no handler.
pub fn no_handler_message() -> (r: String)
    ensures
        r@ == "this application declares no #[skyzen::queue] handler"@,
{
    copy_text("this application declares no #[skyzen::queue] handler")
}

/// A consumer that can never run against the backend it was pointed at.
#[derive(Debug, Clone)]
pub struct ConsumerFatal {
    /// The queue that cannot be consumed.
    pub queue: String,
    /// What the backend said when asked to receive.
    pub reason: String,
}

/// How a queue is polled. Spans of time are in nanoseconds.
#[derive(Debug, Clone)]
pub struct ConsumerConfig {
    /// The queue.
    pub queue: String,
    /// How many polling loops run at once.
    pub concurrency: usize,
    /// Most messages to take in one receive.
    pub batch_size: usize,
    /// How long a receive may wait for a message, and the loop's idle pace.
    pub poll_wait: u128,
    /// How long a received batch stays invisible, or the queue's own default.
    pub visibility_timeout: Option<u128>,
    /// The retry for a message to be retried without a delay of its own.
    pub default_retry: QueueRetry,
}

/// What a receive asks for.
#[derive(Debug, Clone, Copy, PartialEq, Eq)]
pub struct ReceiveOptions {
    /// Most messages to take.
    pub max_messages: usize,
    /// How long to wait for a message.
    pub wait: u128,
    /// How long received messages stay invisible, or the queue's own default.
    pub visibility_timeout: Option<u128>,
}

impl ConsumerConfig {
    /// What every receive of this consumer asks for; it always says how long to wait.
    pub fn receive_options(&self) -> (r: ReceiveOptions)
        ensures
            r.max_messages == self.batch_size,
            r.wait == self.poll_wait,
            r.visibility_timeout == self.visibility_timeout,
    {
        ReceiveOptions {
            max_messages: self.batch_size,
            wait: self.poll_wait,
            visibility_timeout: self.visibility_timeout,
        }
    }
}

/// What came of a receive.
#[derive(Debug)]
pub enum Received {
    /// The runtime began to shut down.
    Interrupted,
    /// No message came within the time that elapsed.
    Empty {
        /// How long the receive took.
        elapsed: u128,
    },
    /// Messages came.
    Batch,
    /// The backend cannot be polled at all.
    Unsupported(String),
    /// The receive failed.
    Failed,
}

/// What a polling loop does next.
#[derive(Debug)]
pub enum ConsumerStep {
    /// Receive.
    Receive(ReceiveOptions),
    /// Hand the batch to the handler, settle it, and take the next turn.
    Process,
    /// Sleep for a while, and take the next turn.
    Idle(u128),
    /// Take the next turn.
    NextTurn,
    /// Report that this consumer can never run, and end.
    Report(ConsumerFatal),
    /// End.
    Stop,
}

/// A pause after another failure.
pub open spec fn doubled(backoff: u128) -> u128 {
    if backoff > LONGEST_SPAN / 2 {
        LONGEST_SPAN
    } else {
        (backoff * 2) as u128
    }
}

/// The pause after as many failures in a row.
pub open spec fn backoff_after(failures: nat) -> u128
    decreases failures,
{
    if failures == 0 {
        INITIAL_BACKOFF
    } else {
        doubled(backoff_after((failures - 1) as nat))
    }
}

/// One polling loop.
#[derive(Debug)]
pub struct ConsumerLoop {
    config: ConsumerConfig,
    backoff: u128,
}

/// Whether a step is the one that follows from a receive.
pub open spec fn is_step_after(
    config: ConsumerConfig,
    backoff: u128,
    received: Received,
    step: ConsumerStep,
) -> bool {
    match received {
        Received::Interrupted => step is Stop,
        Received::Empty { elapsed } => if config.poll_wait >= elapsed {
            step == ConsumerStep::Idle((config.poll_wait - elapsed) as u128)
        } else {
            step is NextTurn
        },
        Received::Batch => step is Process,
        Received::Unsupported(reason) => step matches ConsumerStep::Report(fatal) && fatal.queue@
            == config.queue@ && fatal.reason == reason,
        Received::Failed => step == ConsumerStep::Idle(
            if backoff < config.poll_wait {
                backoff
            } else {
                config.poll_wait
            },
        ),
    }
}

impl ConsumerLoop {
    /// How the queue is polled.
    pub closed spec fn rules(&self) -> ConsumerConfig {
        self.config
    }

    /// The pause after the next failed receive.
    pub closed spec fn pause(&self) -> u128 {
        self.backoff
    }

    /// A loop that did not start yet.
    pub fn new(config: ConsumerConfig) -> (r: Self)
        ensures
            r.rules() == config,
            r.pause() == backoff_after(0),
    {
        ConsumerLoop { config, backoff: INITIAL_BACKOFF }
    }

    /// Take a turn: receive, unless the runtime began to shut down.
    pub fn turn(&self, stop_is_closed: bool) -> (r: ConsumerStep)
        ensures
            if stop_is_closed {
                r is Stop
            } else {
                r matches ConsumerStep::Receive(options) && options.max_messages
                    == self.rules().batch_size && options.wait == self.rules().poll_wait
                    && options.visibility_timeout == self.rules().visibility_timeout
            },
    {
        if stop_is_closed {
            ConsumerStep::Stop
        } else {
            ConsumerStep::Receive(self.config.receive_options())
        }
    }

    /// What follows from a receive. A receive that succeeds resets the pause; one that fails doubles
    /// it, and the loop sleeps for the pause, but no longer than its idle pace.
    pub fn on_received(&mut self, received: Received) -> (r: ConsumerStep)
        ensures
            is_step_after(old(self).rules(), old(self).pause(), received, r),
            final(self).rules() == old(self).rules(),
            final(self).pause() == match received {
                Received::Empty { elapsed } => INITIAL_BACKOFF,
                Received::Batch => INITIAL_BACKOFF,
                Received::Failed => doubled(old(self).pause()),
                _ => old(self).pause(),
            },
    {
        match received {
            Received::Interrupted => ConsumerStep::Stop,
            Received::Empty { elapsed } => {
                self.backoff = INITIAL_BACKOFF;
                if self.config.poll_wait >= elapsed {
                    ConsumerStep::Idle(self.config.poll_wait - elapsed)
                } else {
                    ConsumerStep::NextTurn
                }
            },
            Received::Batch => {
                self.backoff = INITIAL_BACKOFF;
                ConsumerStep::Process
            },
            Received::Unsupported(reason) => ConsumerStep::Report(
                ConsumerFatal { queue: copy_text(self.config.queue.as_str()), reason },
            ),
            Received::Failed => {
                let delay: u128 = if self.backoff < self.config.poll_wait {
                    self.backoff
                } else {
                    self.config.poll_wait
                };
                if self.backoff > LONGEST_SPAN / 2 {
                    self.backoff = LONGEST_SPAN;
                } else {
                    self.backoff = self.backoff * 2;
                }
                ConsumerStep::Idle(delay)
            },
        }
    }

    /// What follows from a sleep: the next turn, unless the runtime began to shut down.
    pub fn on_idle(&self, interrupted: bool) -> (r: ConsumerStep)
        ensures
            if interrupted {
                r is Stop
            } else {
                r is NextTurn
            },
    {
        if interrupted {
            ConsumerStep::Stop
        } else {
            ConsumerStep::NextTurn
        }
    }
}

/// The pause never gets shorter from one failure to the next, and never exceeds the longest span.
pub proof fn backoff_grows(failures: nat)
    ensures
        INITIAL_BACKOFF <= backoff_after(failures) <= backoff_after(failures + 1) <= LONGEST_SPAN,
    decreases failures,
{
    if failures > 0 {
        backoff_grows((failures - 1) as nat);
    }
}

/// A handler that decides message by message for another number of messages has nothing settled as
/// done.
pub proof fn a_mismatched_decision_acknowledges_nothing(
    decisions: Vec<QueueMessageDisposition>,
    count: nat,
    default_retry: QueueRetry,
    index: int,
)
    requires
        decisions@.len() != count,
    ensures
        decision_for(
            QueueBatchDisposition::PerMessage(decisions),
            count,
            default_retry,
            index,
        ) == QueueMessageDisposition::Retry(default_retry),
{
}

/// A batch whose handler failed or panicked is retried as a whole.
pub proof fn a_failed_batch_is_retried(
    outcome: HandlerOutcome,
    count: nat,
    default_retry: QueueRetry,
    index: int,
)
    requires
        !(outcome is Decided),
    ensures
        decision_for(settled_by(outcome, default_retry), count, default_retry, index)
            == QueueMessageDisposition::Retry(default_retry),
{
}

/// A handler sees every message that was delivered, in order, with its contents.
pub proof fn a_handler_sees_what_was_delivered(
    messages: Seq<ReceivedMessage>,
    timestamp_ms: i64,
    i: int,
)
    requires
        0 <= i < messages.len(),
    ensures
        ({
            let seen = delivered(messages, timestamp_ms);
            &&& seen.len() == messages.len()
            &&& seen[i].body == messages[i].body@
            &&& seen[i].timestamp_ms == timestamp_ms
            &&& messages[i].id is Some ==> seen[i].id == messages[i].id->0@
            &&& messages[i].id is None ==> seen[i].id == messages[i].receipt@
        }),
{
}

/// The attempts of a batch are the most that any of its messages reports.
pub proof fn no_message_has_more_attempts(messages: Seq<ReceivedMessage>, to: int)
    requires
        0 <= to <= messages.len(),
    ensures
        ({
            let most = most_attempts(messages, to);
            &&& forall|i: int|
                0 <= i < to && (#[trigger] messages[i]).attempts is Some ==> most is Some
                    && messages[i].attempts->0 <= most->0
            &&& most is Some ==> exists|i: int|
                0 <= i < to && (#[trigger] messages[i]).attempts == most
        }),
    decreases to,
{
    if to > 0 {
        no_message_has_more_attempts(messages, to - 1);
        let most = most_attempts(messages, to);
        let earlier = most_attempts(messages, to - 1);
        if most is Some {
            if messages[to - 1].attempts == most {
            } else {
                assert(earlier == most);
                let i = choose|i: int|
                    0 <= i < to - 1 && (#[trigger] messages[i]).attempts == earlier;
                assert(messages[i].attempts == most);
            }
        }
    }
}

/// A message is settled as its handler decided, with the configured delay where it named none.
pub proof fn a_handler_settles_its_messages(
    decisions: Vec<QueueMessageDisposition>,
    retry: QueueRetry,
    default_retry: QueueRetry,
    count: nat,
    index: int,
)
    requires
        decisions@.len() == count,
        0 <= index < count,
    ensures
        ({
            let ack = QueueBatchDisposition::All(QueueMessageDisposition::Ack);
            let again = QueueBatchDisposition::All(QueueMessageDisposition::Retry(retry));
            let each = QueueBatchDisposition::PerMessage(decisions);
            let settled = |decided: QueueBatchDisposition|
                decision_for(
                    settled_by(HandlerOutcome::Decided(decided), default_retry),
                    count,
                    default_retry,
                    index,
                );
            &&& settled(ack) == QueueMessageDisposition::Ack
            &&& settled(again) == QueueMessageDisposition::Retry(
                if retry.delay_seconds is Some {
                    retry
                } else {
                    default_retry
                },
            )
            &&& settled(each) is Ack <==> decisions@[index] is Ack
            &&& decisions@[index] == QueueMessageDisposition::Retry(retry) ==> settled(each)
                == settled(again)
        }),
{
}

/// A handler that returns nothing acknowledges its batch, one that returns a disposition settles it
/// so, and an error is passed on.
pub proof fn what_is_returned_decides<E>(disposition: QueueBatchDisposition, error: E)
    ensures
        ({
            let done: Result<QueueBatchDisposition, E> = Ok(
                QueueBatchDisposition::All(QueueMessageDisposition::Ack),
            );
            let failed: Result<QueueBatchDisposition, E> = Err(error);
            let decided: Result<QueueBatchDisposition, E> = Ok(disposition);
            let unit: Result<(), E> = Ok(());
            let unit_failed: Result<(), E> = Err(error);
            &&& IntoQueueDisposition::<E>::decision(&()) == done
            &&& unit.decision() == done
            &&& unit_failed.decision() == failed
            &&& IntoQueueDisposition::<E>::decision(&disposition) == decided
            &&& decided.decision() == decided
            &&& failed.decision() == failed
        }),
{
}

/// The pause starts at one second and doubles with every failure, up to the longest span.
pub proof fn the_pause_doubles(failures: nat)
    ensures
        backoff_after(failures) == if 1000000000 * pow2(failures) <= LONGEST_SPAN {
            1000000000 * pow2(failures)
        } else {
            LONGEST_SPAN as nat
        },
        pow2(failures) >= 1,
    decreases failures,
{
    lemma2_to64();
    lemma_pow2_pos(failures);
    if failures > 0 {
        the_pause_doubles((failures - 1) as nat);
        lemma_pow2_unfold(failures);
    }
}

/// After an empty receive the loop keeps its pace; after a failed one it sleeps for the pause, but no
/// longer than its pace. A batch is processed, an unsupported queue is reported, and an interrupted
/// receive ends the loop.
pub proof fn a_loop_keeps_its_pace(
    config: ConsumerConfig,
    backoff: u128,
    received: Received,
    step: ConsumerStep,
)
    requires
        is_step_after(config, backoff, received, step),
    ensures
        received is Interrupted <==> step is Stop,
        received is Batch <==> step is Process,
        received is Unsupported <==> step is Report,
        step is Idle ==> step->Idle_0 <= config.poll_wait,
        received is Empty && received->elapsed <= config.poll_wait ==> step is Idle
            && received->elapsed + step->Idle_0 == config.poll_wait,
        received is Empty && received->elapsed > config.poll_wait <==> step is NextTurn,
        received is Failed ==> step is Idle && step->Idle_0 <= backoff && (step->Idle_0 == backoff
            || step->Idle_0 == config.poll_wait),
        received is Unsupported ==> step->Report_0.queue@ == config.queue@ && step->Report_0.reason
            == received->Unsupported_0,
        !(step is Receive),
{
}

} // verus!
