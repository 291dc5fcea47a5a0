use crossbeam_channel::unbounded;
use remote64::flow::{
    on_bus_message, on_server_packet, BusAction, requested_frames, BufferController, ClientAction, Refill, SocketManager,
    LOW_WATER_MARK, REQUEST_FLOOR, REQUEST_INTERVAL_MS,
};
use remote64::frame::Frame;
use remote64::intercom::{BidirectionalChannel, InterMessage};
use remote64::packet::Packet;
use remote64::transport::SocketConnection;

#[test]
fn starving_backlog_requests_up_to_the_mark() {
    assert_eq!(requested_frames(0), 35);
    let mut bc = BufferController::new(0);
    assert_eq!(bc.poll(0, REQUEST_INTERVAL_MS + 1), Some(Refill { count: 35, starving: true }));
    assert_eq!(bc.last_request, REQUEST_INTERVAL_MS + 1);
}

#[test]
fn full_backlog_requests_nothing() {
    let mut bc = BufferController::new(0);
    assert_eq!(bc.poll(40, 5_000), None);
    assert_eq!(bc.poll(LOW_WATER_MARK, 5_000), None);
    assert_eq!(bc.last_request, 0);
}

#[test]
fn request_size_has_a_floor() {
    assert_eq!(requested_frames(30), REQUEST_FLOOR as u32);
    assert_eq!(requested_frames(15), 20);
    assert_eq!(requested_frames(10), 25);
    let mut bc = BufferController::new(0);
    assert_eq!(bc.poll(34, 2_000), Some(Refill { count: 20, starving: false }));
}

#[test]
fn requests_wait_for_the_interval() {
    let mut bc = BufferController::new(1_000);
    assert_eq!(bc.poll(0, 1_500), None);
    assert_eq!(bc.poll(0, 2_000), None);
    assert!(bc.poll(0, 2_001).is_some());
    assert_eq!(bc.poll(0, 2_500), None);
}

#[test]
fn client_answers_server_packets() {
    assert!(matches!(on_server_packet(Packet::Ping), ClientAction::Reply(Packet::Pong)));
    let frames = vec![Frame::new(vec![1, 2, 3], vec![])];
    match on_server_packet(Packet::FrameResponse(frames.clone())) {
        ClientAction::Forward(InterMessage::BulkFrames(fs)) => assert_eq!(fs, frames),
        _ => panic!("frames were not forwarded"),
    }
    assert!(matches!(on_server_packet(Packet::Pong), ClientAction::Ignore));
}

#[test]
fn client_pump_relays_both_ways() {
    let (to_client, client_in) = unbounded();
    let (client_out, from_client) = unbounded();
    let sm = SocketManager {
        socket: SocketConnection { send: client_out, recv: client_in, peer: "server".to_owned() },
    };
    let (bus_side, client_side) = BidirectionalChannel::<InterMessage, InterMessage>::new(None);
    to_client.send(Packet::Ping.serialize()).unwrap();
    to_client.send(Packet::FrameResponse(vec![]).serialize()).unwrap();
    bus_side.send.send(InterMessage::SocketPacket(Packet::FrameRequest(35))).unwrap();
    assert!(sm.pump(&client_side).running);
    assert_eq!(from_client.try_recv(), Ok(Packet::Pong.serialize()));
    assert_eq!(from_client.try_recv(), Ok(Packet::FrameRequest(35).serialize()));
    assert!(matches!(bus_side.recv.try_recv(), Ok(InterMessage::BulkFrames(fs)) if fs.is_empty()));
    bus_side.send.send(InterMessage::Kill).unwrap();
    bus_side.send.send(InterMessage::SocketPacket(Packet::Ping)).unwrap();
    let pass = sm.pump(&client_side);
    assert!(!pass.running);
    assert_eq!(pass.from_bus.len(), 1);
    assert!(matches!(pass.from_bus[0], InterMessage::Kill));
    // what came after the Kill stays on the bus
    assert!(from_client.try_recv().is_err());
}

#[test]
fn client_handles_bus_messages() {
    match on_bus_message(&InterMessage::SocketPacket(Packet::FrameRequest(20))) {
        BusAction::Send(b) => assert_eq!(b, vec![0x07, 0, 0, 0, 20]),
        _ => panic!("the packet must be sent"),
    }
    assert!(matches!(on_bus_message(&InterMessage::Kill), BusAction::Stop));
    assert!(matches!(on_bus_message(&InterMessage::StartRecording), BusAction::Ignore));
}
