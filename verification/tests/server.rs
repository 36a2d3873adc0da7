use jerkmon::channel::{client_channel, offer, Delivery};
use jerkmon::websocket::{
    accept_connections, bridge_step, handle_client, AcceptAction, AcceptEvent, ClientAction, ClientEvent, ClientList,
    Flow, Received, WS_BIND_ADDR,
};
use tokio::sync::mpsc::{unbounded_channel, UnboundedSender};

fn outcomes(outcome: (Vec<Delivery>, Vec<UnboundedSender<Vec<u8>>>)) -> Vec<Option<Vec<u8>>> {
    let (deliveries, gone) = outcome;
    let refused = deliveries.iter().filter(|delivery| matches!(delivery, Delivery::Refused(_)));
    assert_eq!(gone.len(), refused.count());
    deliveries
        .into_iter()
        .map(|delivery| match delivery {
            Delivery::Skipped => panic!("nothing was offered"),
            Delivery::Queued => None,
            Delivery::Refused(back) => Some(back),
        })
        .collect()
}

#[test]
fn the_server_is_local() {
    assert_eq!(WS_BIND_ADDR, "127.0.0.1:12345");
}

#[test]
fn a_message_is_offered_to_a_queue() {
    let (mut tx, mut rx) = unbounded_channel();
    assert_eq!(offer(&mut tx, vec![1, 2]), Delivery::Queued);
    assert_eq!(rx.try_recv().unwrap(), vec![1, 2]);
    drop(rx);
    assert!(matches!(offer(&mut tx, vec![3]), Delivery::Refused(back) if back == [3]));
}

#[test]
fn events_are_passed_on_to_the_server() {
    let (mut tx, mut rx) = unbounded_channel();
    assert_eq!(bridge_step(&mut tx, Received::Event(vec![9]), true), (Flow::Continue, Delivery::Queued));
    assert_eq!(bridge_step(&mut tx, Received::Event(vec![8]), false), (Flow::Continue, Delivery::Queued));
    assert_eq!(rx.try_recv().unwrap(), vec![9]);
    assert_eq!(rx.try_recv().unwrap(), vec![8]);
    assert_eq!(bridge_step(&mut tx, Received::Timeout, true), (Flow::Continue, Delivery::Skipped));
    assert_eq!(bridge_step(&mut tx, Received::Timeout, false), (Flow::Stop, Delivery::Skipped));
    assert_eq!(bridge_step(&mut tx, Received::Disconnected, true), (Flow::Stop, Delivery::Skipped));
    assert!(rx.try_recv().is_err());
    drop(rx);
    let (flow, delivery) = bridge_step(&mut tx, Received::Event(vec![7]), true);
    assert_eq!(flow, Flow::Continue);
    assert!(matches!(delivery, Delivery::Refused(back) if back == [7]));
}

#[test]
fn every_client_gets_every_event() {
    let mut clients = ClientList::new();
    let mut queues = Vec::new();
    for _ in 0..3 {
        let (tx, rx) = unbounded_channel();
        clients.join(tx);
        queues.push(rx);
    }
    assert_eq!(outcomes(clients.broadcast(&vec![1])), vec![None, None, None]);
    assert_eq!(outcomes(clients.broadcast(&vec![2, 2])).len(), 3);
    for rx in queues.iter_mut() {
        assert_eq!(rx.try_recv().unwrap(), vec![1]);
        assert_eq!(rx.try_recv().unwrap(), vec![2, 2]);
        assert!(rx.try_recv().is_err());
    }
}

#[test]
fn clients_that_are_gone_are_taken_out() {
    let mut clients = ClientList::new();
    let (tx1, mut rx1) = unbounded_channel();
    let (tx2, rx2) = unbounded_channel();
    let (tx3, mut rx3) = unbounded_channel();
    clients.join(tx1);
    clients.join(tx2);
    clients.join(tx3);
    drop(rx2);
    assert_eq!(outcomes(clients.broadcast(&vec![5])), vec![None, Some(vec![5]), None]);
    assert_eq!(outcomes(clients.broadcast(&vec![6])), vec![None, None]);
    assert_eq!(rx1.try_recv().unwrap(), vec![5]);
    assert_eq!(rx1.try_recv().unwrap(), vec![6]);
    assert_eq!(rx3.try_recv().unwrap(), vec![5]);
    assert_eq!(rx3.try_recv().unwrap(), vec![6]);
}

#[test]
fn clients_keep_their_order() {
    let mut clients = ClientList::new();
    let mut queues = Vec::new();
    for _ in 0..4 {
        let (tx, rx) = unbounded_channel();
        clients.join(tx);
        queues.push(rx);
    }
    let mut gone = clients.retain(&vec![
        Delivery::Refused(vec![]),
        Delivery::Queued,
        Delivery::Refused(vec![]),
        Delivery::Skipped,
    ]);
    assert_eq!(gone.len(), 2);
    assert_eq!(offer(&mut gone[1], vec![7]), Delivery::Queued);
    assert_eq!(queues[2].try_recv().unwrap(), vec![7]);
    queues[3].close();
    assert_eq!(outcomes(clients.broadcast(&vec![1])), vec![None, Some(vec![1])]);
    assert_eq!(queues[1].try_recv().unwrap(), vec![1]);
    assert!(queues[0].try_recv().is_err());
}

#[test]
fn a_new_client_reads_from_its_own_queue() {
    let mut clients = ClientList::new();
    let mut first = clients.connect();
    assert_eq!(outcomes(clients.broadcast(&vec![1])), vec![None]);
    let mut second = clients.connect();
    assert_eq!(outcomes(clients.broadcast(&vec![2])), vec![None, None]);
    assert_eq!(first.try_recv().unwrap(), vec![1]);
    assert_eq!(first.try_recv().unwrap(), vec![2]);
    assert_eq!(second.try_recv().unwrap(), vec![2]);
    assert!(second.try_recv().is_err());
    drop(first);
    assert_eq!(outcomes(clients.broadcast(&vec![3])), vec![Some(vec![3]), None]);
}

#[test]
fn the_ends_of_a_queue_belong_together() {
    let (mut tx, mut rx) = client_channel();
    assert_eq!(offer(&mut tx, vec![6]), Delivery::Queued);
    assert_eq!(rx.try_recv().unwrap(), vec![6]);
}

#[test]
fn nobody_hears_without_clients() {
    let mut clients = ClientList::new();
    assert!(outcomes(clients.broadcast(&vec![1])).is_empty());
}

#[test]
fn a_client_hears_everything_from_its_first_event_on() {
    let mut clients = ClientList::new();
    let first = clients.connect();
    let mut second = clients.connect();
    clients.broadcast(&vec![1]);
    drop(first);
    clients.broadcast(&vec![2]);
    let mut third = clients.connect();
    clients.broadcast(&vec![3]);
    clients.broadcast(&vec![4]);
    for event in 1..=4u8 {
        assert_eq!(second.try_recv().unwrap(), vec![event]);
    }
    assert!(second.try_recv().is_err());
    assert_eq!(third.try_recv().unwrap(), vec![3]);
    assert_eq!(third.try_recv().unwrap(), vec![4]);
    assert!(third.try_recv().is_err());
}

#[test]
fn an_offer_reaches_everyone_before_anyone_leaves() {
    let mut clients = ClientList::new();
    let mut first = clients.connect();
    drop(clients.connect());
    assert_eq!(clients.offer_all(&vec![8]), vec![Delivery::Queued, Delivery::Refused(vec![8])]);
    assert_eq!(clients.offer_all(&vec![9]).len(), 2);
    assert_eq!(first.try_recv().unwrap(), vec![8]);
    assert_eq!(first.try_recv().unwrap(), vec![9]);
}

#[test]
fn failed_connections_do_not_end_the_server() {
    assert_eq!(accept_connections(AcceptEvent::Bound(true)), AcceptAction::Wait);
    assert_eq!(accept_connections(AcceptEvent::Bound(false)), AcceptAction::Stop);
    assert_eq!(accept_connections(AcceptEvent::Connected), AcceptAction::Join);
    assert_eq!(accept_connections(AcceptEvent::HandshakeFailed), AcceptAction::Wait);
    assert_eq!(accept_connections(AcceptEvent::AcceptFailed), AcceptAction::Wait);
    assert_eq!(accept_connections(AcceptEvent::Tick(true)), AcceptAction::Wait);
    assert_eq!(accept_connections(AcceptEvent::Tick(false)), AcceptAction::Stop);
}

#[test]
fn a_ping_is_answered_with_its_data() {
    assert_eq!(handle_client(ClientEvent::Ping(vec![1, 2, 3])), ClientAction::SendPong(vec![1, 2, 3]));
    assert_eq!(handle_client(ClientEvent::PongSent(false)), ClientAction::Wait);
    assert_eq!(handle_client(ClientEvent::PongSent(true)), ClientAction::Wait);
}

#[test]
fn a_client_is_served_until_it_is_gone() {
    assert_eq!(handle_client(ClientEvent::Outgoing(vec![4])), ClientAction::SendBinary(vec![4]));
    assert_eq!(handle_client(ClientEvent::Sent(true)), ClientAction::Wait);
    assert_eq!(handle_client(ClientEvent::Sent(false)), ClientAction::Stop);
    assert_eq!(handle_client(ClientEvent::Close), ClientAction::Stop);
    assert_eq!(handle_client(ClientEvent::Failed), ClientAction::Stop);
    assert_eq!(handle_client(ClientEvent::Ended), ClientAction::Stop);
    assert_eq!(handle_client(ClientEvent::Other), ClientAction::Wait);
}
