use remote64::intercom::{
    fan_out_targets, on_received, BidirectionalChannel, BroadcastNetwork, Event, Received, Step,
    TurnEnd, TwoWayChannel,
};

fn next(ch: &BidirectionalChannel<Event, Event>) -> Option<Event> {
    ch.recv.try_recv().ok()
}

#[test]
fn broadcast_reaches_all_others_only() {
    let mut net: BroadcastNetwork<Event> = BroadcastNetwork::new();
    let a = net.endpoint();
    let b = net.endpoint();
    let c = net.endpoint();
    assert_eq!(net.endpoints(), 3);
    a.send.send(Event::Foo).unwrap();
    b.send.send(Event::Deadbeef("Fish".to_owned())).unwrap();
    let pass = net.dispatch();
    assert!(pass.detached.is_empty());
    assert_eq!(pass.offers.len(), 2);
    assert_eq!((pass.offers[0].source, pass.offers[0].targets.clone()), (0, vec![1, 2]));
    assert_eq!((pass.offers[1].source, pass.offers[1].targets.clone()), (1, vec![0, 2]));
    assert_eq!(pass.offers[0].delivered, vec![true, true]);
    assert!(pass.ends.iter().all(|e| matches!(e, TurnEnd::Drained)));
    assert_eq!(next(&b), Some(Event::Foo));
    assert_eq!(next(&c), Some(Event::Foo));
    assert_eq!(next(&c), Some(Event::Deadbeef("Fish".to_owned())));
    assert_eq!(next(&a), Some(Event::Deadbeef("Fish".to_owned())));
    assert_eq!(next(&a), None);
    assert_eq!(next(&b), None);
    assert_eq!(next(&c), None);
}

#[test]
fn closed_endpoint_leaves_after_one_pass() {
    let mut net: BroadcastNetwork<Event> = BroadcastNetwork::new();
    let a = net.endpoint();
    let b = net.endpoint();
    let c = net.endpoint();
    let (a_send, a_recv) = a.split();
    a_send.send(Event::Bar).unwrap();
    drop(a_send);
    let pass = net.dispatch();
    assert_eq!(pass.detached, vec![0]);
    assert_eq!(pass.closed, vec![true, false, false]);
    assert!(matches!(pass.ends[0], TurnEnd::Closed));
    // the message sent before the sender closed was still offered
    assert_eq!(pass.offers.len(), 1);
    assert_eq!(pass.offers[0].targets, vec![1, 2]);
    assert_eq!(net.endpoints(), 2);
    assert_eq!(next(&b), Some(Event::Bar));
    assert_eq!(next(&c), Some(Event::Bar));
    c.send.send(Event::Kill).unwrap();
    assert!(net.dispatch().detached.is_empty());
    assert_eq!(next(&b), Some(Event::Kill));
    assert!(a_recv.try_recv().is_err());
}

#[test]
fn two_way_channel_ends_talk_to_each_other() {
    let (x, y) = TwoWayChannel::<u32, String>::new(Some(2));
    x.send.send(5).unwrap();
    y.send.send("hi".to_owned()).unwrap();
    assert_eq!(y.recv.try_recv(), Ok(5));
    assert_eq!(x.recv.try_recv(), Ok("hi".to_owned()));
}

#[test]
fn receive_decisions() {
    assert_eq!(fan_out_targets(4, 1), vec![0, 2, 3]);
    assert_eq!(fan_out_targets(1, 0), Vec::<usize>::new());
    match on_received(2, 3, &Received::Message(Event::Foo)) {
        Step::Offer(t) => assert_eq!(t, vec![0, 1]),
        _ => panic!("a message must be offered"),
    }
    assert!(matches!(on_received::<Event>(0, 3, &Received::Empty), Step::Next));
    assert!(matches!(on_received::<Event>(0, 3, &Received::Disconnected), Step::Detach));
}

#[test]
fn full_destination_does_not_stop_the_others() {
    let mut net: BroadcastNetwork<Event> = BroadcastNetwork::new();
    let a = net.endpoint();
    let b = net.endpoint();
    let c = net.endpoint();
    // b's receiving side is gone: deliveries to it fail
    let (_b_send, b_recv) = b.split();
    drop(b_recv);
    a.send.send(Event::Foo).unwrap();
    a.send.send(Event::Bar).unwrap();
    let pass = net.dispatch();
    assert_eq!(pass.offers.len(), 2);
    assert_eq!(pass.offers[0].delivered, vec![false, true]);
    assert_eq!(c.recv.try_recv(), Ok(Event::Foo));
    assert_eq!(c.recv.try_recv(), Ok(Event::Bar));
    assert!(a.recv.try_recv().is_err());
}
