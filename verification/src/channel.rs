//! The queues that messages travel through.
//!
//! Events enter one queue of `crossbeam_channel` from every monitor; the
//! server takes them out again and hands a copy to each client through a
//! queue of `tokio`.
//!
//! A sending end keeps a log: every message that was handed to it, in order,
//! each with whether the queue took it. The queue has another end that some
//! other thread holds, so which of the two happens is up to that thread; what
//! is handed over, and how often, is not.
use crossbeam_channel::{Receiver, Sender};
use tokio::sync::mpsc::{UnboundedReceiver, UnboundedSender};
use vstd::prelude::*;

verus! {

/// The sending end of a `crossbeam_channel` queue.
#[verifier::external_type_specification]
#[verifier::external_body]
#[verifier::reject_recursive_types(T)]
pub struct ExSender<T>(crossbeam_channel::Sender<T>);

/// The receiving end of a `crossbeam_channel` queue.
#[verifier::external_type_specification]
#[verifier::external_body]
#[verifier::reject_recursive_types(T)]
pub struct ExReceiver<T>(crossbeam_channel::Receiver<T>);

/// The sending end of an unbounded `tokio` queue.
#[verifier::external_type_specification]
#[verifier::external_body]
#[verifier::reject_recursive_types(T)]
pub struct ExUnboundedSender<T>(tokio::sync::mpsc::UnboundedSender<T>);

/// The receiving end of an unbounded `tokio` queue.
#[verifier::external_type_specification]
#[verifier::external_body]
#[verifier::reject_recursive_types(T)]
pub struct ExUnboundedReceiver<T>(tokio::sync::mpsc::UnboundedReceiver<T>);

/// How many messages the queue behind `tx` was made to hold; `None` for a
/// queue without a limit.
pub uninterp spec fn queue_limit(tx: Sender<Vec<u8>>) -> Option<nat>;

/// Whether `tx` and `rx` are the two ends of one event queue.
pub uninterp spec fn event_queue_ends(tx: Sender<Vec<u8>>, rx: Receiver<Vec<u8>>) -> bool;

/// What was handed to the sending end `tx` of an event queue: each message,
/// and whether the queue took it.
pub uninterp spec fn event_log(tx: Sender<Vec<u8>>) -> Seq<(Seq<u8>, bool)>;

/// Whether `tx` and `rx` are the two ends of one client's queue.
pub uninterp spec fn client_queue_ends(
    tx: UnboundedSender<Vec<u8>>,
    rx: UnboundedReceiver<Vec<u8>>,
) -> bool;

/// What was handed to the sending end `tx` of a client's queue: each message,
/// and whether the queue took it.
pub uninterp spec fn client_log(tx: UnboundedSender<Vec<u8>>) -> Seq<(Seq<u8>, bool)>;

/// Calls `crossbeam_channel::unbounded`, which makes a queue without a limit
/// and returns its two ends. Nothing was handed to it yet.
#[verifier::external_body]
fn unbounded_queue() -> (ends: (Sender<Vec<u8>>, Receiver<Vec<u8>>))
    ensures
        queue_limit(ends.0) is None,
        event_queue_ends(ends.0, ends.1),
        event_log(ends.0) == Seq::<(Seq<u8>, bool)>::empty(),
{
    crossbeam_channel::unbounded()
}

/// Calls `tokio::sync::mpsc::unbounded_channel`, which makes a queue and
/// returns its two ends. Nothing was handed to it yet.
#[verifier::external_body]
fn unbounded_client_queue() -> (ends: (UnboundedSender<Vec<u8>>, UnboundedReceiver<Vec<u8>>))
    ensures
        client_queue_ends(ends.0, ends.1),
        client_log(ends.0) == Seq::<(Seq<u8>, bool)>::empty(),
{
    tokio::sync::mpsc::unbounded_channel()
}

/// Calls `tokio::sync::mpsc::UnboundedSender::send`, which hands the message
/// to the queue once. It does not wait; the queue took the message if the call
/// returns `Ok`, and an error holds the message that was passed in. Whether
/// the receiving end is still open, and so which of the two comes back, is up
/// to other tasks. The sending end stays that of the same queue.
#[verifier::external_body]
fn offer_message(tx: &mut UnboundedSender<Vec<u8>>, message: Vec<u8>) -> (sent: Result<
    (),
    Vec<u8>,
>)
    ensures
        client_log(*final(tx)) == client_log(*old(tx)).push((message@, sent is Ok)),
        sent matches Err(back) ==> back@ == message@,
        forall|rx: UnboundedReceiver<Vec<u8>>| #[trigger]
            client_queue_ends(*final(tx), rx) == client_queue_ends(*old(tx), rx),
{
    tx.send(message).map_err(|refused| refused.0)
}

/// What became of a message.
#[derive(Debug, PartialEq, Eq)]
pub enum Delivery {
    /// There was nothing to send, or nowhere to send it.
    Skipped,
    /// The queue took the message.
    Queued,
    /// Nobody holds the other end any more; the message came back.
    Refused(Vec<u8>),
}

/// Whether handing over `message`, and nothing else, turns the log `before`
/// into `after`, and `delivery` is what the log says of it.
pub open spec fn handed_over(
    before: Seq<(Seq<u8>, bool)>,
    after: Seq<(Seq<u8>, bool)>,
    message: Seq<u8>,
    delivery: Delivery,
) -> bool {
    &&& after == before.push((message, delivery is Queued))
    &&& delivery !is Skipped
    &&& delivery matches Delivery::Refused(back) ==> back@ == message
}

/// Whether both sending ends lead into the same client's queue.
pub open spec fn same_client_queue(
    tx: UnboundedSender<Vec<u8>>,
    other: UnboundedSender<Vec<u8>>,
) -> bool {
    forall|rx: UnboundedReceiver<Vec<u8>>| #[trigger]
        client_queue_ends(other, rx) == client_queue_ends(tx, rx)
}

/// The messages in a log.
pub open spec fn messages(log: Seq<(Seq<u8>, bool)>) -> Seq<Seq<u8>> {
    Seq::new(log.len(), |i: int| log[i].0)
}

/// Whether some messages were handed over one after another: `logs` are the
/// logs before and after each.
pub open spec fn handed_one_by_one(
    logs: Seq<Seq<(Seq<u8>, bool)>>,
    sent_messages: Seq<Seq<u8>>,
    deliveries: Seq<Delivery>,
) -> bool {
    &&& logs.len() == sent_messages.len() + 1
    &&& deliveries.len() == sent_messages.len()
    &&& forall|i: int|
        #![trigger sent_messages[i]]
        0 <= i < sent_messages.len() ==> handed_over(
            logs[i],
            logs[i + 1],
            sent_messages[i],
            deliveries[i],
        )
}

/// The entries that some messages add to a log.
pub open spec fn entries(sent_messages: Seq<Seq<u8>>, deliveries: Seq<Delivery>) -> Seq<
    (Seq<u8>, bool),
> {
    Seq::new(sent_messages.len(), |i: int| (sent_messages[i], deliveries[i] is Queued))
}

/// Messages that are handed over one after another stand in the log in that
/// order, each once, behind what was there, and with nothing between them.
pub proof fn lemma_handed_over_in_order(
    logs: Seq<Seq<(Seq<u8>, bool)>>,
    sent_messages: Seq<Seq<u8>>,
    deliveries: Seq<Delivery>,
)
    requires
        handed_one_by_one(logs, sent_messages, deliveries),
    ensures
        logs.last() == logs[0] + entries(sent_messages, deliveries),
    decreases sent_messages.len(),
{
    if sent_messages.len() == 0 {
        assert(logs[0] + entries(sent_messages, deliveries) =~= logs.last());
    } else {
        let n = sent_messages.len() - 1;
        let head = sent_messages.drop_last();
        assert forall|i: int| #![trigger head[i]] 0 <= i < head.len() implies handed_over(
            logs.drop_last()[i],
            logs.drop_last()[i + 1],
            head[i],
            deliveries.drop_last()[i],
        ) by {
            assert(head[i] == sent_messages[i]);
        }
        lemma_handed_over_in_order(logs.drop_last(), head, deliveries.drop_last());
        assert(handed_over(logs[n], logs[n + 1], sent_messages[n], deliveries[n]));
        assert(logs.drop_last().last() == logs[n]);
        assert(logs[n + 1] =~= logs[0] + entries(sent_messages, deliveries));
    }
}

/// The way into the event queue, which never makes a monitor wait.
pub struct EventSink {
    tx: Sender<Vec<u8>>,
}

/// Calls `crossbeam_channel::Sender::send`, which hands the message to the
/// queue once. On a queue without a limit it does not wait; the queue took the
/// message if the call returns `Ok`, and an error holds the message that was
/// passed in. Whether the receiving end is still held, and so which of the two
/// comes back, is up to other threads. The sending end stays that of the same
/// queue.
#[verifier::external_body]
fn queue_message(sink: &mut EventSink, message: Vec<u8>) -> (sent: Result<(), Vec<u8>>)
    requires
        queue_limit(old(sink).tx) is None,
    ensures
        event_log(final(sink).tx) == event_log(old(sink).tx).push((message@, sent is Ok)),
        sent matches Err(back) ==> back@ == message@,
        queue_limit(final(sink).tx) is None,
        forall|rx: Receiver<Vec<u8>>| #[trigger]
            event_queue_ends(final(sink).tx, rx) == event_queue_ends(old(sink).tx, rx),
{
    sink.tx.send(message).map_err(|refused| refused.0)
}

impl View for EventSink {
    type V = Seq<(Seq<u8>, bool)>;

    /// What was handed to the queue: each message, and whether it was taken.
    closed spec fn view(&self) -> Seq<(Seq<u8>, bool)> {
        event_log(self.tx)
    }
}

impl EventSink {
    /// Whether `rx` is the other end of the queue.
    pub closed spec fn feeds(&self, rx: Receiver<Vec<u8>>) -> bool {
        event_queue_ends(self.tx, rx)
    }

    /// Whether both sinks lead into the same queue.
    pub open spec fn same_queue(&self, other: &EventSink) -> bool {
        forall|rx: Receiver<Vec<u8>>| #[trigger] self.feeds(rx) == other.feeds(rx)
    }

    #[verifier::type_invariant]
    spec fn never_full(&self) -> bool {
        queue_limit(self.tx) is None
    }

    /// Hands `frame` to the queue.
    pub fn send(&mut self, frame: Vec<u8>) -> (delivery: Delivery)
        ensures
            handed_over(old(self)@, final(self)@, frame@, delivery),
            final(self).same_queue(old(self)),
    {
        proof {
            use_type_invariant(&*self);
        }
        match queue_message(self, frame) {
            Ok(()) => Delivery::Queued,
            Err(back) => Delivery::Refused(back),
        }
    }
}

/// Whether `message`, and nothing else, was handed to the sink, if there is one,
/// and `delivery` is what became of it. Without a sink there is nothing to do.
pub open spec fn sent(
    before: Option<EventSink>,
    after: Option<EventSink>,
    message: Seq<u8>,
    delivery: Delivery,
) -> bool {
    match (before, after) {
        (Some(old_sink), Some(new_sink)) => {
            &&& handed_over(old_sink@, new_sink@, message, delivery)
            &&& new_sink.same_queue(&old_sink)
        },
        (None, None) => delivery is Skipped,
        _ => false,
    }
}

/// Makes the event queue: the sink for the monitors and the end that the
/// server reads from.
pub fn event_channel() -> (ends: (EventSink, Receiver<Vec<u8>>))
    ensures
        ends.0@ == Seq::<(Seq<u8>, bool)>::empty(),
        ends.0.feeds(ends.1),
{
    let (tx, rx) = unbounded_queue();
    (EventSink { tx }, rx)
}

/// Makes a queue within the server: to one client, or to all of them.
pub fn client_channel() -> (ends: (UnboundedSender<Vec<u8>>, UnboundedReceiver<Vec<u8>>))
    ensures
        client_queue_ends(ends.0, ends.1),
        client_log(ends.0) == Seq::<(Seq<u8>, bool)>::empty(),
{
    unbounded_client_queue()
}

/// Hands `frame` to one client's queue.
pub fn offer(tx: &mut UnboundedSender<Vec<u8>>, frame: Vec<u8>) -> (delivery: Delivery)
    ensures
        handed_over(client_log(*old(tx)), client_log(*final(tx)), frame@, delivery),
        same_client_queue(*old(tx), *final(tx)),
{
    match offer_message(tx, frame) {
        Ok(()) => Delivery::Queued,
        Err(back) => Delivery::Refused(back),
    }
}

/// Handing over a message adds one entry at the end of the log, with the
/// message unaltered, and leaves the others alone. The entry says that the
/// message was taken exactly if the delivery does, and a refused message comes
/// back whole.
pub proof fn lemma_handed_over_once(
    before: Seq<(Seq<u8>, bool)>,
    after: Seq<(Seq<u8>, bool)>,
    message: Seq<u8>,
    delivery: Delivery,
)
    requires
        handed_over(before, after, message, delivery),
    ensures
        after.len() == before.len() + 1,
        forall|i: int| 0 <= i < before.len() ==> #[trigger] after[i] == before[i],
        after[before.len() as int].0 == message,
        match delivery {
            Delivery::Skipped => false,
            Delivery::Queued => after[before.len() as int].1,
            Delivery::Refused(back) => !after[before.len() as int].1 && back@ == message,
        },
{
}

/// The messages in a log are those of its entries, taken or not.
pub proof fn lemma_messages(log: Seq<(Seq<u8>, bool)>)
    ensures
        messages(log).len() == log.len(),
        forall|i: int| 0 <= i < log.len() ==> #[trigger] messages(log)[i] == log[i].0,
{
}

/// Sending through a sink hands over the message, whatever it is, once and to
/// the same queue; without a sink nothing happens.
pub proof fn lemma_sent_once(
    before: Option<EventSink>,
    after: Option<EventSink>,
    message: Seq<u8>,
    delivery: Delivery,
    rx: Receiver<Vec<u8>>,
)
    requires
        sent(before, after, message, delivery),
    ensures
        before is None <==> after is None,
        before is None ==> delivery == Delivery::Skipped,
        before matches Some(sink) ==> {
            &&& after->0@ == sink@.push((message, delivery == Delivery::Queued))
            &&& delivery != Delivery::Skipped
            &&& delivery matches Delivery::Refused(back) ==> back@ == message
            &&& after->0.feeds(rx) <==> sink.feeds(rx)
        },
{
    if let Some(sink) = before {
        assert(after->0.same_queue(&sink));
    }
}

} // verus!
