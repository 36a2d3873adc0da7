//! The decisions of the WebSocket server.
//!
//! The server takes events out of the event queue, hands a copy to each
//! client's queue, accepts new clients, and for each client alternates
//! between sending what its queue holds and answering what it receives.
use crate::channel::{self, Delivery};
use tokio::sync::mpsc::{UnboundedReceiver, UnboundedSender};
use vstd::prelude::*;

verus! {

/// The address that the server listens on.
pub const WS_BIND_ADDR: &'static str = "127.0.0.1:12345";

/// What taking an event out of the event queue came to.
pub enum Received {
    /// An event.
    Event(Vec<u8>),
    /// No event in the time allowed.
    Timeout,
    /// No event any more: the queue is empty and nobody can fill it.
    Disconnected,
}

/// Whether a loop goes on.
#[derive(Clone, Copy, PartialEq, Eq, Structural, Debug)]
pub enum Flow {
    Continue,
    Stop,
}

/// Whether the loop that empties the event queue goes on: a loop that waits in
/// vain ends once the program does.
pub open spec fn bridge_flow(received: Received, running: bool) -> Flow {
    match received {
        Received::Event(_) => Flow::Continue,
        Received::Timeout => if running {
            Flow::Continue
        } else {
            Flow::Stop
        },
        Received::Disconnected => Flow::Stop,
    }
}

/// Whether a step of that loop turns the log `before` of the server's queue
/// into `after`: an event is passed on once, and nothing else is.
pub open spec fn passed_on(
    before: Seq<(Seq<u8>, bool)>,
    after: Seq<(Seq<u8>, bool)>,
    received: Received,
    delivery: Delivery,
) -> bool {
    match received {
        Received::Event(event) => channel::handed_over(before, after, event@, delivery),
        Received::Timeout | Received::Disconnected => after == before && delivery is Skipped,
    }
}

/// Passes an event on to the server's own queue, and decides whether to wait
/// for another.
pub fn bridge_step(tx: &mut UnboundedSender<Vec<u8>>, received: Received, running: bool) -> (step: (
    Flow,
    Delivery,
))
    ensures
        step.0 == bridge_flow(received, running),
        passed_on(
            channel::client_log(*old(tx)),
            channel::client_log(*final(tx)),
            received,
            step.1,
        ),
        channel::same_client_queue(*old(tx), *final(tx)),
{
    match received {
        Received::Event(event) => (Flow::Continue, channel::offer(tx, event)),
        Received::Timeout => {
            if running {
                (Flow::Continue, Delivery::Skipped)
            } else {
                (Flow::Stop, Delivery::Skipped)
            }
        },
        Received::Disconnected => (Flow::Stop, Delivery::Skipped),
    }
}

/// The items whose delivery at the same place was not refused, in order.
pub open spec fn retained<T>(items: Seq<T>, deliveries: Seq<Delivery>) -> Seq<T>
    decreases items.len(),
{
    if items.len() == 0 {
        Seq::empty()
    } else {
        let head = retained(items.drop_last(), deliveries);
        if deliveries[items.len() - 1] is Refused {
            head
        } else {
            head.push(items.last())
        }
    }
}

/// The items whose delivery at the same place was refused, in order.
pub open spec fn dismissed<T>(items: Seq<T>, deliveries: Seq<Delivery>) -> Seq<T>
    decreases items.len(),
{
    if items.len() == 0 {
        Seq::empty()
    } else {
        let head = dismissed(items.drop_last(), deliveries);
        if deliveries[items.len() - 1] is Refused {
            head.push(items.last())
        } else {
            head
        }
    }
}

/// Where the item at `i` goes among those that stay: how many before it stay.
pub open spec fn place(deliveries: Seq<Delivery>, i: int) -> nat
    decreases i,
{
    if i <= 0 {
        0
    } else {
        place(deliveries, i - 1) + (if deliveries[i - 1] is Refused {
            0nat
        } else {
            1
        })
    }
}

/// Puts those that stayed and those that left back into one sequence.
pub open spec fn rejoined<T>(stayed: Seq<T>, gone: Seq<T>, deliveries: Seq<Delivery>) -> Seq<T> {
    Seq::new(
        deliveries.len(),
        |i: int|
            if deliveries[i] is Refused {
                gone[i - place(deliveries, i)]
            } else {
                stayed[place(deliveries, i) as int]
            },
    )
}

/// Whether every client was handed `event` once, and nothing else, and the
/// deliveries are what became of it.
pub open spec fn all_offered(
    before: Seq<UnboundedSender<Vec<u8>>>,
    after: Seq<UnboundedSender<Vec<u8>>>,
    event: Seq<u8>,
    deliveries: Seq<Delivery>,
) -> bool {
    &&& after.len() == before.len()
    &&& deliveries.len() == before.len()
    &&& forall|i: int|
        #![trigger after[i]]
        0 <= i < before.len() ==> {
            &&& channel::handed_over(
                channel::client_log(before[i]),
                channel::client_log(after[i]),
                event,
                deliveries[i],
            )
            &&& channel::same_client_queue(before[i], after[i])
        }
}

/// What a broadcast does to the clients `before`: everyone is handed the event
/// once; those that took it stay, those that refused it are gone.
pub open spec fn broadcast_done(
    before: Seq<UnboundedSender<Vec<u8>>>,
    stayed: Seq<UnboundedSender<Vec<u8>>>,
    gone: Seq<UnboundedSender<Vec<u8>>>,
    event: Seq<u8>,
    deliveries: Seq<Delivery>,
) -> bool {
    let offered = rejoined(stayed, gone, deliveries);
    &&& all_offered(before, offered, event, deliveries)
    &&& stayed == retained(offered, deliveries)
    &&& gone == dismissed(offered, deliveries)
}

/// The clients that are connected, by their queues.
pub struct ClientList {
    clients: Vec<UnboundedSender<Vec<u8>>>,
}

impl View for ClientList {
    type V = Seq<UnboundedSender<Vec<u8>>>;

    closed spec fn view(&self) -> Seq<UnboundedSender<Vec<u8>>> {
        self.clients@
    }
}

impl ClientList {
    /// No client yet.
    pub fn new() -> (list: ClientList)
        ensures
            list@ == Seq::<UnboundedSender<Vec<u8>>>::empty(),
    {
        ClientList { clients: Vec::new() }
    }

    /// Adds a client behind the others.
    pub fn join(&mut self, client: UnboundedSender<Vec<u8>>)
        ensures
            final(self)@ == old(self)@.push(client),
    {
        self.clients.push(client);
    }

    /// Makes the queue of a new client, and adds the client behind the others.
    /// What comes back is the end from which the client is served.
    pub fn connect(&mut self) -> (rx: UnboundedReceiver<Vec<u8>>)
        ensures
            final(self)@.len() == old(self)@.len() + 1,
            final(self)@.drop_last() == old(self)@,
            channel::client_queue_ends(final(self)@.last(), rx),
            channel::client_log(final(self)@.last()) == Seq::<(Seq<u8>, bool)>::empty(),
    {
        let (tx, rx) = channel::client_channel();
        self.join(tx);
        assert(self@.drop_last() =~= old(self)@);
        rx
    }

    /// Takes out the clients whose delivery was refused, and returns them.
    pub fn retain(&mut self, deliveries: &Vec<Delivery>) -> (gone: Vec<UnboundedSender<Vec<u8>>>)
        requires
            deliveries@.len() == old(self)@.len(),
        ensures
            final(self)@ == retained(old(self)@, deliveries@),
            gone@ == dismissed(old(self)@, deliveries@),
    {
        let n: usize = self.clients.len();
        let mut gone: Vec<UnboundedSender<Vec<u8>>> = Vec::new();
        let mut i: usize = 0;
        let mut kept: usize = 0;
        let ghost all = self.clients@;
        assert(all.take(0) =~= Seq::empty());
        assert(self.clients@ =~= retained(all.take(0), deliveries@) + all.skip(0));
        while i < n
            invariant
                i <= n,
                n == all.len(),
                n == deliveries@.len(),
                kept <= i,
                kept == retained(all.take(i as int), deliveries@).len(),
                self.clients@ == retained(all.take(i as int), deliveries@) + all.skip(i as int),
                gone@ == dismissed(all.take(i as int), deliveries@),
            decreases n - i,
        {
            let ghost done = retained(all.take(i as int), deliveries@);
            assert(all.take(i + 1).drop_last() =~= all.take(i as int));
            assert(self.clients@[kept as int] == all[i as int]);
            let refused: bool = match &deliveries[i] {
                Delivery::Refused(_) => true,
                _ => false,
            };
            if refused {
                gone.push(self.clients.remove(kept));
                assert(self.clients@ =~= done + all.skip(i + 1));
            } else {
                kept = kept + 1;
                assert(done + all.skip(i as int) =~= done.push(all[i as int]) + all.skip(i + 1));
            }
            i = i + 1;
        }
        assert(all.take(n as int) =~= all);
        assert(all.skip(n as int) =~= Seq::empty());
        assert(self.clients@ =~= retained(all, deliveries@));
        gone
    }

    /// Hands a copy of `event` to every client.
    pub fn offer_all(&mut self, event: &Vec<u8>) -> (deliveries: Vec<Delivery>)
        ensures
            all_offered(old(self)@, final(self)@, event@, deliveries@),
    {
        let mut deliveries: Vec<Delivery> = Vec::new();
        let mut i: usize = 0;
        let ghost before = self.clients@;
        while i < self.clients.len()
            invariant
                i <= self.clients@.len(),
                before == old(self).clients@,
                self.clients@.len() == before.len(),
                deliveries@.len() == i,
                forall|j: int|
                    #![trigger self.clients@[j]]
                    0 <= j < i ==> {
                        &&& channel::handed_over(
                            channel::client_log(before[j]),
                            channel::client_log(self.clients@[j]),
                            event@,
                            deliveries@[j],
                        )
                        &&& channel::same_client_queue(before[j], self.clients@[j])
                    },
                forall|j: int| i <= j < before.len() ==> self.clients@[j] == before[j],
            decreases self.clients@.len() - i,
        {
            let copy = event.clone();
            assert(copy@ =~= event@);
            deliveries.push(channel::offer(&mut self.clients[i], copy));
            i = i + 1;
        }
        deliveries
    }

    /// Hands a copy of `event` to every client, and takes out those that are
    /// gone. What comes back is what became of each copy, and the queues of
    /// those that are gone.
    pub fn broadcast(&mut self, event: &Vec<u8>) -> (outcome: (
        Vec<Delivery>,
        Vec<UnboundedSender<Vec<u8>>>,
    ))
        ensures
            broadcast_done(old(self)@, final(self)@, outcome.1@, event@, outcome.0@),
    {
        let deliveries = self.offer_all(event);
        let ghost offered = self@;
        let gone = self.retain(&deliveries);
        proof {
            lemma_rejoined(offered, deliveries@);
        }
        (deliveries, gone)
    }
}

/// What waiting for a client to connect came to.
#[derive(Clone, Copy, PartialEq, Eq, Structural, Debug)]
pub enum AcceptEvent {
    /// Whether the server could be bound to its address.
    Bound(bool),
    /// A client connected and spoke the protocol.
    Connected,
    /// A client connected and did not.
    HandshakeFailed,
    /// The connection could not be accepted.
    AcceptFailed,
    /// Nothing in the time allowed; is the program still running?
    Tick(bool),
}

/// What the accepting loop does next.
#[derive(Clone, Copy, PartialEq, Eq, Structural, Debug)]
pub enum AcceptAction {
    /// Add the client to the list, serve it, and wait for another.
    Join,
    /// Wait for another.
    Wait,
    /// Leave the loop.
    Stop,
}

/// What the accepting loop does after `event`. A failed connection does not
/// end it, only the end of the program does, or an address that is taken.
pub open spec fn accept_action(event: AcceptEvent) -> AcceptAction {
    match event {
        AcceptEvent::Connected => AcceptAction::Join,
        AcceptEvent::Bound(true)
        | AcceptEvent::HandshakeFailed
        | AcceptEvent::AcceptFailed
        | AcceptEvent::Tick(true) => AcceptAction::Wait,
        AcceptEvent::Bound(false) | AcceptEvent::Tick(false) => AcceptAction::Stop,
    }
}

/// Decides what the accepting loop does next.
pub fn accept_connections(event: AcceptEvent) -> (action: AcceptAction)
    ensures
        action == accept_action(event),
{
    match event {
        AcceptEvent::Connected => AcceptAction::Join,
        AcceptEvent::HandshakeFailed | AcceptEvent::AcceptFailed => AcceptAction::Wait,
        AcceptEvent::Bound(going) | AcceptEvent::Tick(going) => if going {
            AcceptAction::Wait
        } else {
            AcceptAction::Stop
        },
    }
}

/// What the loop that serves one client has just learnt.
pub enum ClientEvent {
    /// The client's queue holds this message.
    Outgoing(Vec<u8>),
    /// Whether a message could be sent.
    Sent(bool),
    /// The client sent a ping with this data.
    Ping(Vec<u8>),
    /// Whether a pong could be sent.
    PongSent(bool),
    /// The client closed the connection.
    Close,
    /// Receiving failed.
    Failed,
    /// The connection is at its end.
    Ended,
    /// The client sent something else.
    Other,
}

/// What the loop that serves one client does next.
#[derive(Debug, PartialEq, Eq)]
pub enum ClientAction {
    /// Send this as a binary message.
    SendBinary(Vec<u8>),
    /// Send a pong with this data.
    SendPong(Vec<u8>),
    /// Wait for the queue or the client.
    Wait,
    /// Leave the loop.
    Stop,
}

/// What the loop that serves one client does after `event`.
pub open spec fn client_action(event: ClientEvent) -> ClientAction {
    match event {
        ClientEvent::Outgoing(message) => ClientAction::SendBinary(message),
        ClientEvent::Ping(data) => ClientAction::SendPong(data),
        ClientEvent::Sent(true) | ClientEvent::PongSent(_) | ClientEvent::Other => ClientAction::Wait,
        ClientEvent::Sent(false)
        | ClientEvent::Close
        | ClientEvent::Failed
        | ClientEvent::Ended => ClientAction::Stop,
    }
}

/// Decides what the loop that serves one client does next.
pub fn handle_client(event: ClientEvent) -> (action: ClientAction)
    ensures
        action == client_action(event),
        match event {
            ClientEvent::Outgoing(message) => action == ClientAction::SendBinary(message),
            ClientEvent::Sent(sent) => if sent {
                action is Wait
            } else {
                action is Stop
            },
            ClientEvent::Ping(data) => action == ClientAction::SendPong(data),
            ClientEvent::PongSent(_) => action is Wait,
            ClientEvent::Close | ClientEvent::Failed | ClientEvent::Ended => action is Stop,
            ClientEvent::Other => action is Wait,
        },
{
    match event {
        ClientEvent::Outgoing(message) => ClientAction::SendBinary(message),
        ClientEvent::Sent(sent) => if sent {
            ClientAction::Wait
        } else {
            ClientAction::Stop
        },
        ClientEvent::Ping(data) => ClientAction::SendPong(data),
        ClientEvent::PongSent(_) => ClientAction::Wait,
        ClientEvent::Close | ClientEvent::Failed | ClientEvent::Ended => ClientAction::Stop,
        ClientEvent::Other => ClientAction::Wait,
    }
}

/// While nobody refuses, nobody leaves.
pub proof fn lemma_nobody_leaves<T>(items: Seq<T>, deliveries: Seq<Delivery>)
    requires
        items.len() <= deliveries.len(),
        forall|i: int| 0 <= i < items.len() ==> deliveries[i] !is Refused,
    ensures
        retained(items, deliveries) == items,
    decreases items.len(),
{
    if items.len() > 0 {
        lemma_nobody_leaves(items.drop_last(), deliveries);
        assert(items.drop_last().push(items.last()) =~= items);
    } else {
        assert(retained(items, deliveries) =~= items);
    }
}

/// A client that took the event stays, behind exactly those before it that
/// took it too: clients keep their order, and none leaves because of another.
pub proof fn lemma_stays_in_place<T>(items: Seq<T>, deliveries: Seq<Delivery>, i: int)
    requires
        0 <= i < items.len(),
        items.len() <= deliveries.len(),
        deliveries[i] !is Refused,
    ensures
        place(deliveries, i) < retained(items, deliveries).len(),
        retained(items, deliveries)[place(deliveries, i) as int] == items[i],
        retained(items, deliveries).len() == place(deliveries, items.len() as int),
    decreases items.len(),
{
    lemma_lengths(items.drop_last(), deliveries);
    lemma_lengths(items, deliveries);
    if i < items.len() - 1 {
        lemma_stays_in_place(items.drop_last(), deliveries, i);
    }
}

/// A client that refused the event leaves, behind exactly those before it that
/// refused it too.
pub proof fn lemma_leaves_in_place<T>(items: Seq<T>, deliveries: Seq<Delivery>, i: int)
    requires
        0 <= i < items.len(),
        items.len() <= deliveries.len(),
        deliveries[i] is Refused,
    ensures
        0 <= i - place(deliveries, i) < dismissed(items, deliveries).len(),
        dismissed(items, deliveries)[i - place(deliveries, i)] == items[i],
    decreases items.len(),
{
    lemma_lengths(items.drop_last(), deliveries);
    lemma_lengths(items, deliveries);
    if i < items.len() - 1 {
        lemma_leaves_in_place(items.drop_last(), deliveries, i);
    }
}

/// How many stay and how many leave.
proof fn lemma_lengths<T>(items: Seq<T>, deliveries: Seq<Delivery>)
    ensures
        retained(items, deliveries).len() == place(deliveries, items.len() as int),
        dismissed(items, deliveries).len() == items.len() - place(deliveries, items.len() as int),
    decreases items.len(),
{
    if items.len() > 0 {
        lemma_lengths(items.drop_last(), deliveries);
    }
}

/// Nobody is lost between those that stay and those that leave.
proof fn lemma_rejoined<T>(items: Seq<T>, deliveries: Seq<Delivery>)
    requires
        items.len() == deliveries.len(),
    ensures
        rejoined(retained(items, deliveries), dismissed(items, deliveries), deliveries) == items,
{
    let joined = rejoined(retained(items, deliveries), dismissed(items, deliveries), deliveries);
    assert forall|i: int| 0 <= i < items.len() implies joined[i] == items[i] by {
        if deliveries[i] is Refused {
            lemma_leaves_in_place(items, deliveries, i);
        } else {
            lemma_stays_in_place(items, deliveries, i);
        }
    }
    assert(joined =~= items);
}

/// The events among what a loop received.
pub open spec fn events_received(received: Seq<Received>) -> Seq<Seq<u8>>
    decreases received.len(),
{
    if received.len() == 0 {
        Seq::empty()
    } else {
        let head = events_received(received.drop_last());
        match received.last() {
            Received::Event(event) => head.push(event@),
            _ => head,
        }
    }
}

/// The loop that empties the event queue hands on every event that it receives
/// exactly once, unaltered and in order, and nothing else: `logs` are the logs
/// of the server's queue before and after each step.
pub proof fn lemma_events_passed_on_in_order(
    logs: Seq<Seq<(Seq<u8>, bool)>>,
    received: Seq<Received>,
    deliveries: Seq<Delivery>,
)
    requires
        logs.len() == received.len() + 1,
        deliveries.len() == received.len(),
        forall|i: int|
            #![trigger received[i]]
            0 <= i < received.len() ==> passed_on(
                logs[i],
                logs[i + 1],
                received[i],
                deliveries[i],
            ),
    ensures
        channel::messages(logs.last()) == channel::messages(logs[0]) + events_received(received),
    decreases received.len(),
{
    if received.len() == 0 {
        assert(channel::messages(logs[0]) + events_received(received) =~= channel::messages(
            logs.last(),
        ));
    } else {
        let n = received.len() - 1;
        let head = received.drop_last();
        assert forall|i: int| #![trigger head[i]] 0 <= i < head.len() implies passed_on(
            logs.drop_last()[i],
            logs.drop_last()[i + 1],
            head[i],
            deliveries.drop_last()[i],
        ) by {
            assert(head[i] == received[i]);
        }
        lemma_events_passed_on_in_order(logs.drop_last(), head, deliveries.drop_last());
        assert(passed_on(logs[n], logs[n + 1], received[n], deliveries[n]));
        assert(logs.drop_last().last() == logs[n]);
        let before = channel::messages(logs[0]) + events_received(head);
        assert(channel::messages(logs[n]) == before);
        if let Received::Event(event) = received[n] {
            assert(channel::messages(logs[n + 1]) =~= before.push(event@));
        }
        assert(channel::messages(logs[n + 1]) =~= channel::messages(logs[0]) + events_received(
            received,
        ));
    }
}

/// One broadcast: the clients before it, those that stayed and those that left,
/// the event, and what became of each copy.
pub struct Round {
    pub before: Seq<UnboundedSender<Vec<u8>>>,
    pub stayed: Seq<UnboundedSender<Vec<u8>>>,
    pub gone: Seq<UnboundedSender<Vec<u8>>>,
    pub event: Seq<u8>,
    pub deliveries: Seq<Delivery>,
}

/// The events of some broadcasts.
pub open spec fn round_events(rounds: Seq<Round>) -> Seq<Seq<u8>> {
    Seq::new(rounds.len(), |k: int| rounds[k].event)
}

/// Whether each of the broadcasts was made, and between two of them clients
/// only joined, behind the others.
pub open spec fn rounds_made(rounds: Seq<Round>) -> bool {
    &&& forall|k: int|
        #![trigger rounds[k]]
        0 <= k < rounds.len() ==> broadcast_done(
            rounds[k].before,
            rounds[k].stayed,
            rounds[k].gone,
            rounds[k].event,
            rounds[k].deliveries,
        )
    &&& forall|k: int|
        #![trigger rounds[k]]
        0 < k < rounds.len() ==> {
            &&& rounds[k - 1].stayed.len() <= rounds[k].before.len()
            &&& rounds[k].before.take(rounds[k - 1].stayed.len() as int) == rounds[k - 1].stayed
        }
}

/// Whether one client took part in all the broadcasts, from the place `places[k]`
/// in the one at `k`, and took every event.
pub open spec fn took_part(rounds: Seq<Round>, places: Seq<int>) -> bool {
    &&& places.len() == rounds.len() + 1
    &&& forall|k: int|
        #![trigger rounds[k]]
        0 <= k < rounds.len() ==> {
            &&& 0 <= places[k] < rounds[k].before.len()
            &&& rounds[k].deliveries[places[k]] !is Refused
            &&& places[k + 1] == place(rounds[k].deliveries, places[k])
        }
}

/// A client that stays is handed every event from the first broadcast on
/// exactly once, unaltered and in order, and nothing else, whoever else joins
/// or leaves meanwhile.
pub proof fn lemma_client_gets_every_event(rounds: Seq<Round>, places: Seq<int>)
    requires
        rounds.len() > 0,
        rounds_made(rounds),
        took_part(rounds, places),
    ensures
        0 <= places.last() < rounds.last().stayed.len(),
        channel::messages(channel::client_log(rounds.last().stayed[places.last()]))
            == channel::messages(channel::client_log(rounds[0].before[places[0]])) + round_events(
            rounds,
        ),
    decreases rounds.len(),
{
    let n = rounds.len() - 1;
    let round = rounds[n];
    let offered = rejoined(round.stayed, round.gone, round.deliveries);
    let i = places[n];
    let first = channel::messages(channel::client_log(rounds[0].before[places[0]]));
    lemma_stays_in_place(offered, round.deliveries, i);
    assert(offered[i] == round.stayed[places[n + 1]]);
    let was = channel::messages(channel::client_log(round.before[i]));
    let now = channel::messages(channel::client_log(offered[i]));
    assert(now =~= was.push(round.event));
    if n == 0 {
        assert(was.push(round.event) =~= first + round_events(rounds));
    } else {
        let head = rounds.drop_last();
        assert forall|k: int| 0 <= k < head.len() implies #[trigger] head[k] == rounds[k] by {}
        assert(rounds_made(head)) by {
            assert forall|k: int| #![trigger head[k]] 0 < k < head.len() implies {
                &&& head[k - 1].stayed.len() <= head[k].before.len()
                &&& head[k].before.take(head[k - 1].stayed.len() as int) == head[k - 1].stayed
            } by {
                assert(head[k] == rounds[k] && head[k - 1] == rounds[k - 1]);
            }
        }
        assert(took_part(head, places.drop_last())) by {
            assert forall|k: int| #![trigger head[k]] 0 <= k < head.len() implies {
                &&& 0 <= places.drop_last()[k] < head[k].before.len()
                &&& head[k].deliveries[places.drop_last()[k]] !is Refused
                &&& places.drop_last()[k + 1] == place(
                    head[k].deliveries,
                    places.drop_last()[k],
                )
            } by {
                assert(head[k] == rounds[k]);
            }
        }
        lemma_client_gets_every_event(head, places.drop_last());
        let stayed = rounds[n - 1].stayed;
        assert(round.before.take(stayed.len() as int) == stayed);
        assert(stayed[i] == round.before[i]);
        assert(now =~= first + round_events(rounds)) by {
            assert(round_events(rounds) =~= round_events(head).push(round.event));
        }
    }
}

/// The loop that empties the event queue ends only when nobody can fill it any
/// more, or when it has waited in vain and the program is to end. An event
/// never ends it.
pub proof fn lemma_bridge_decisions(event: Vec<u8>, running: bool)
    ensures
        bridge_flow(Received::Event(event), running) == Flow::Continue,
        bridge_flow(Received::Disconnected, running) == Flow::Stop,
        bridge_flow(Received::Timeout, true) == Flow::Continue,
        bridge_flow(Received::Timeout, false) == Flow::Stop,
{
}

/// An event adds itself to the log of the server's queue, unaltered and once;
/// without an event the log stays as it is.
pub proof fn lemma_event_passed_on(
    before: Seq<(Seq<u8>, bool)>,
    after: Seq<(Seq<u8>, bool)>,
    event: Vec<u8>,
    delivery: Delivery,
)
    ensures
        passed_on(before, after, Received::Event(event), delivery) ==> {
            &&& after.len() == before.len() + 1
            &&& after.drop_last() == before
            &&& after.last().0 == event@
            &&& after.last().1 <==> delivery == Delivery::Queued
        },
        passed_on(before, after, Received::Timeout, delivery) ==> after == before && delivery
            == Delivery::Skipped,
        passed_on(before, after, Received::Disconnected, delivery) ==> after == before && delivery
            == Delivery::Skipped,
{
    if passed_on(before, after, Received::Event(event), delivery) {
        assert(after.drop_last() =~= before);
    }
}

/// A client joins exactly if it connected and spoke the protocol; connections
/// that fail do not end the server, only an address that is taken does, or the
/// end of the program.
pub proof fn lemma_accept_decisions()
    ensures
        accept_action(AcceptEvent::Bound(true)) == AcceptAction::Wait,
        accept_action(AcceptEvent::Bound(false)) == AcceptAction::Stop,
        accept_action(AcceptEvent::Connected) == AcceptAction::Join,
        accept_action(AcceptEvent::HandshakeFailed) == AcceptAction::Wait,
        accept_action(AcceptEvent::AcceptFailed) == AcceptAction::Wait,
        accept_action(AcceptEvent::Tick(true)) == AcceptAction::Wait,
        accept_action(AcceptEvent::Tick(false)) == AcceptAction::Stop,
{
}

/// A message for the client is sent as it is, and a ping is answered with its
/// own data. A message that could not be sent, a close, a failure and the end
/// of the connection end the loop; nothing else does, not even a pong that
/// could not be sent.
pub proof fn lemma_client_decisions(data: Vec<u8>, sent: bool)
    ensures
        client_action(ClientEvent::Outgoing(data)) == ClientAction::SendBinary(data),
        client_action(ClientEvent::Ping(data)) == ClientAction::SendPong(data),
        client_action(ClientEvent::Sent(true)) == ClientAction::Wait,
        client_action(ClientEvent::Sent(false)) == ClientAction::Stop,
        client_action(ClientEvent::PongSent(sent)) == ClientAction::Wait,
        client_action(ClientEvent::Close) == ClientAction::Stop,
        client_action(ClientEvent::Failed) == ClientAction::Stop,
        client_action(ClientEvent::Ended) == ClientAction::Stop,
        client_action(ClientEvent::Other) == ClientAction::Wait,
{
}

/// One more client stays, behind the others that do, unless its delivery was
/// refused; it leaves, behind the others that do, if it was.
pub proof fn lemma_one_more<T>(items: Seq<T>, item: T, deliveries: Seq<Delivery>)
    requires
        items.len() < deliveries.len(),
    ensures
        retained(Seq::<T>::empty(), deliveries) == Seq::<T>::empty(),
        dismissed(Seq::<T>::empty(), deliveries) == Seq::<T>::empty(),
        match deliveries[items.len() as int] {
            Delivery::Refused(_) => {
                &&& retained(items.push(item), deliveries) == retained(items, deliveries)
                &&& dismissed(items.push(item), deliveries) == dismissed(items, deliveries).push(
                    item,
                )
            },
            _ => {
                &&& retained(items.push(item), deliveries) == retained(items, deliveries).push(item)
                &&& dismissed(items.push(item), deliveries) == dismissed(items, deliveries)
            },
        },
{
    assert(items.push(item).drop_last() =~= items);
}

/// Every client is offered the event: the log of each grows by the event,
/// unaltered and once, and the delivery says whether it was taken.
pub proof fn lemma_everyone_offered(
    before: Seq<UnboundedSender<Vec<u8>>>,
    after: Seq<UnboundedSender<Vec<u8>>>,
    event: Seq<u8>,
    deliveries: Seq<Delivery>,
    i: int,
)
    requires
        all_offered(before, after, event, deliveries),
        0 <= i < before.len(),
    ensures
        after.len() == before.len(),
        deliveries.len() == before.len(),
        channel::client_log(after[i]) == channel::client_log(before[i]).push(
            (event, deliveries[i] == Delivery::Queued),
        ),
        deliveries[i] != Delivery::Skipped,
        forall|rx: UnboundedReceiver<Vec<u8>>|
            channel::client_queue_ends(before[i], rx) ==> #[trigger] channel::client_queue_ends(
                after[i],
                rx,
            ),
{
    let client = after[i];
    assert(channel::same_client_queue(before[i], after[i]));
}

/// A broadcast reaches every client: one that took the event is among those
/// that stay, one that refused it among those that left, each with a log that
/// has grown by the event, unaltered and once. Nobody else is in either list.
pub proof fn lemma_broadcast_reaches_everyone(
    before: Seq<UnboundedSender<Vec<u8>>>,
    stayed: Seq<UnboundedSender<Vec<u8>>>,
    gone: Seq<UnboundedSender<Vec<u8>>>,
    event: Seq<u8>,
    deliveries: Seq<Delivery>,
    i: int,
)
    requires
        broadcast_done(before, stayed, gone, event, deliveries),
        0 <= i < before.len(),
    ensures
        stayed.len() + gone.len() == before.len(),
        match deliveries[i] {
            Delivery::Skipped => false,
            Delivery::Queued => exists|j: int|
                0 <= j < stayed.len() && #[trigger] channel::client_log(stayed[j])
                    == channel::client_log(before[i]).push((event, true))
                    && channel::same_client_queue(before[i], stayed[j]),
            Delivery::Refused(back) => back@ == event && exists|j: int|
                0 <= j < gone.len() && #[trigger] channel::client_log(gone[j])
                    == channel::client_log(before[i]).push((event, false))
                    && channel::same_client_queue(before[i], gone[j]),
        },
{
    let offered = rejoined(stayed, gone, deliveries);
    lemma_everyone_offered(before, offered, event, deliveries, i);
    lemma_lengths(offered, deliveries);
    let client = offered[i];
    if deliveries[i] is Refused {
        lemma_leaves_in_place(offered, deliveries, i);
        let j = i - place(deliveries, i);
        assert(gone[j] == offered[i]);
    } else {
        lemma_stays_in_place(offered, deliveries, i);
        let j = place(deliveries, i) as int;
        assert(stayed[j] == offered[i]);
    }
}

} // verus!
