use crossbeam_channel::{unbounded, Receiver, Sender};
use remote64::frame::Frame;
use remote64::intercom::{BidirectionalChannel, InterMessage};
use remote64::packet::{Feature, Packet, ServerInfo};
use remote64::session::{
    Liveness, MessageOutcome, SocketManager, FRAME_RING_CAPACITY, INFO_HEADER, INFO_VERSION, PING_INTERVAL_MS,
    PONG_TIMEOUT_MS,
};
use remote64::transport::SocketConnection;

/// A connection whose far ends the test holds: what the test sends on the
/// first arrives at the manager, what the manager sends arrives on the second.
fn connection(name: &str) -> (SocketConnection, Sender<Vec<u8>>, Receiver<Vec<u8>>) {
    let (to_manager, manager_in) = unbounded();
    let (manager_out, from_manager) = unbounded();
    let conn = SocketConnection { send: manager_out, recv: manager_in, peer: name.to_owned() };
    (conn, to_manager, from_manager)
}

fn frame(tag: u8) -> Frame {
    Frame::new(vec![tag; 6], vec![tag as u32])
}

#[test]
fn first_client_is_serviced_and_others_denied() {
    let mut sm = SocketManager::new(vec![Feature::LivePlayback]);
    let (c1, _, _) = connection("a");
    let (c2, _, _) = connection("b");
    sm.enqueue(c1, 0);
    assert!(sm.promote());
    assert!(sm.is_serviced(0));
    sm.enqueue(c2, 5);
    assert!(!sm.promote());
    assert!(!sm.is_serviced(1));
    assert_eq!(sm.respond(1, Packet::FrameRequest(5), 6), Some(Packet::RequestDenied));
    assert_eq!(sm.respond(0, Packet::FrameRequest(5), 6), Some(Packet::FrameResponse(vec![])));
}

#[test]
fn timed_out_head_is_replaced() {
    let mut sm = SocketManager::new(vec![]);
    let (c1, _, _) = connection("a");
    let (c2, _, _) = connection("b");
    sm.enqueue(c1, 0);
    sm.enqueue(c2, 0);
    assert!(sm.promote());
    // the second client keeps answering, the first does not
    assert_eq!(sm.respond(1, Packet::Pong, 20_000), None);
    let now = PONG_TIMEOUT_MS + 1;
    assert_eq!(sm.keepalive(0, now), Liveness::Expired);
    assert_eq!(sm.keepalive(1, now), Liveness::PingDue);
    assert!(sm.remove_sessions(&vec![0]));
    assert_eq!(sm.len(), 1);
    assert!(!sm.is_serviced(0));
    assert!(sm.promote());
    assert!(sm.is_serviced(0));
}

#[test]
fn keepalive_pings_on_interval() {
    let mut sm = SocketManager::new(vec![]);
    let (c1, _, _) = connection("a");
    sm.enqueue(c1, 100);
    assert_eq!(sm.keepalive(0, 100 + PING_INTERVAL_MS), Liveness::Alive);
    assert_eq!(sm.keepalive(0, 101 + PING_INTERVAL_MS), Liveness::PingDue);
    assert_eq!(sm.keepalive(0, 102 + PING_INTERVAL_MS), Liveness::Alive);
    assert_eq!(sm.keepalive(0, 101 + PONG_TIMEOUT_MS), Liveness::Expired);
    // a clock that reads earlier than the last pong never expires a client
    assert_eq!(sm.keepalive(0, 0), Liveness::Alive);
}

#[test]
fn requests_are_answered() {
    let mut sm = SocketManager::new(vec![Feature::AudioRecording]);
    let (c1, _, _) = connection("a");
    let (c2, _, _) = connection("b");
    sm.enqueue(c1, 0);
    sm.enqueue(c2, 0);
    assert_eq!(sm.respond(1, Packet::QueueRequest, 0), Some(Packet::QueueResponse(1)));
    assert_eq!(sm.respond(0, Packet::Ping, 0), Some(Packet::Pong));
    assert_eq!(
        sm.respond(0, Packet::InfoRequest, 0),
        Some(Packet::InfoResponse(ServerInfo {
            header: INFO_HEADER,
            version: INFO_VERSION,
            features: vec![Feature::AudioRecording],
        }))
    );
    assert_eq!(sm.respond(0, Packet::RequestDenied, 0), None);
    assert_eq!(sm.respond(0, Packet::Unknown(vec![0x42]), 0), None);
}

#[test]
fn frames_leave_the_ring_oldest_first() {
    let mut sm = SocketManager::new(vec![]);
    let (c1, _, _) = connection("a");
    sm.enqueue(c1, 0);
    sm.promote();
    for t in 0..3u8 {
        sm.store_frame(frame(t));
    }
    assert_eq!(sm.respond(0, Packet::FrameRequest(2), 0), Some(Packet::FrameResponse(vec![frame(0), frame(1)])));
    assert_eq!(sm.ring_len(), 1);
    assert_eq!(sm.respond(0, Packet::FrameRequest(9), 0), Some(Packet::FrameResponse(vec![frame(2)])));
    assert_eq!(sm.ring_len(), 0);
}

#[test]
fn ring_keeps_the_newest_frames() {
    let mut sm = SocketManager::new(vec![]);
    let (c1, _, _) = connection("a");
    sm.enqueue(c1, 0);
    sm.promote();
    for t in 0..(FRAME_RING_CAPACITY as u8 + 5) {
        sm.store_frame(frame(t));
    }
    assert_eq!(sm.ring_len(), FRAME_RING_CAPACITY);
    assert_eq!(sm.respond(0, Packet::FrameRequest(1), 0), Some(Packet::FrameResponse(vec![frame(5)])));
}

#[test]
fn service_pass_over_channels() {
    let mut sm = SocketManager::new(vec![]);
    let (bus_side, manager_side) = BidirectionalChannel::<InterMessage, InterMessage>::new(None);
    let (c1, to1, from1) = connection("a");
    let (c2, to2, from2) = connection("b");
    sm.enqueue(c1, 0);
    sm.enqueue(c2, 0);
    bus_side.send.send(InterMessage::LatestFrame(frame(1))).unwrap();
    let pass = sm.service(&manager_side, 1);
    assert!(pass.started && !pass.stopped && pass.removed.is_empty() && pass.taken == 0);
    assert!(matches!(bus_side.recv.try_recv(), Ok(InterMessage::StartRecording)));
    assert_eq!(sm.ring_len(), 1);

    to2.send(Packet::FrameRequest(3).serialize()).unwrap();
    to1.send(Packet::FrameRequest(3).serialize()).unwrap();
    to1.send(vec![]).unwrap();
    let pass = sm.service(&manager_side, 2);
    assert_eq!(pass.taken, 1);
    assert_eq!(from2.try_recv(), Ok(Packet::RequestDenied.serialize()));
    assert_eq!(from1.try_recv(), Ok(Packet::FrameResponse(vec![frame(1)]).serialize()));
    assert!(from1.try_recv().is_err());

    // the serviced client closes; the next one is promoted on the next pass
    to1.send(Packet::Close.serialize()).unwrap();
    let pass = sm.service(&manager_side, 3);
    assert!(pass.stopped && !pass.started);
    assert_eq!(pass.removed, vec![0]);
    assert_eq!(sm.len(), 1);
    assert!(matches!(bus_side.recv.try_recv(), Ok(InterMessage::StopRecording)));
    sm.service(&manager_side, 4);
    assert!(matches!(bus_side.recv.try_recv(), Ok(InterMessage::StartRecording)));
    assert!(sm.is_serviced(0));

    // the remaining client stops answering pings
    sm.service(&manager_side, 4 + PONG_TIMEOUT_MS + 1);
    assert_eq!(sm.len(), 0);
    drop(to2);
}

#[test]
fn malformed_messages_change_nothing() {
    let mut sm = SocketManager::new(vec![]);
    let (c1, _, _) = connection("a");
    sm.enqueue(c1, 0);
    sm.promote();
    assert!(matches!(sm.on_message(0, &[], 5), MessageOutcome::Malformed));
    assert!(matches!(sm.on_message(0, &[0x06], 5), MessageOutcome::Malformed));
    assert_eq!(sm.len(), 1);
    assert!(sm.is_serviced(0));
    assert!(matches!(sm.on_message(0, &Packet::Close.serialize(), 5), MessageOutcome::Closed));
    assert!(matches!(sm.on_message(0, &[0x01], 5), MessageOutcome::Answered(Some(Packet::Pong))));
    assert_eq!(sm.len(), 1);
}
