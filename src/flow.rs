//! The client's flow control: it keeps a local backlog of frames near a
//! low-water mark by pulling frames from the server, never waiting for an
//! answer.

use vstd::prelude::*;
use crate::intercom::{try_deliver, try_receive, Endpoint, InterMessage, Received, DRAIN_LIMIT};
use crate::packet::{packet_bytes, packet_fits, Packet, PacketView};
use crate::session::since;
use crate::transport::SocketConnection;

verus! {

/// Frames are requested while fewer than this many are queued locally.
pub const LOW_WATER_MARK: usize = 35;

/// A request asks for at least this many frames.
pub const REQUEST_FLOOR: usize = 20;

/// Requests are at least this many milliseconds apart.
pub const REQUEST_INTERVAL_MS: u64 = 1000;

/// The number of frames to ask for with `backlog` frames queued locally:
/// enough to reach the low-water mark, and never fewer than the floor.
pub open spec fn request_size(backlog: int) -> int {
    if LOW_WATER_MARK - backlog > REQUEST_FLOOR {
        LOW_WATER_MARK - backlog
    } else {
        REQUEST_FLOOR as int
    }
}

/// A pull of frames that the client is to send.
#[derive(Clone, Copy, Debug, PartialEq, Eq, Structural)]
pub struct Refill {
    /// How many frames to request.
    pub count: u32,
    /// Whether the local backlog ran dry.
    pub starving: bool,
}

/// The number of frames to request with `backlog` frames queued locally.
pub fn requested_frames(backlog: usize) -> (r: u32)
    requires
        backlog < LOW_WATER_MARK,
    ensures
        r == request_size(backlog as int),
{
    let missing = LOW_WATER_MARK - backlog;
    if missing > REQUEST_FLOOR {
        missing as u32
    } else {
        REQUEST_FLOOR as u32
    }
}

/// Decides, on each poll, whether to pull more frames.
pub struct BufferController {
    /// When the last request went out, in milliseconds.
    pub last_request: u64,
}

impl BufferController {
    /// A controller started at `now`; its first request comes an interval
    /// later.
    pub fn new(now: u64) -> (r: BufferController)
        ensures
            r.last_request == now,
    {
        BufferController { last_request: now }
    }

    /// The request to send at time `now` with `backlog` frames queued
    /// locally: one below the low-water mark once the interval since the last
    /// request has passed, none otherwise.
    pub fn poll(&mut self, backlog: usize, now: u64) -> (r: Option<Refill>)
        ensures
            r is Some <==> backlog < LOW_WATER_MARK && since(now, old(self).last_request)
                > REQUEST_INTERVAL_MS,
            r matches Some(f) ==> f.count == request_size(backlog as int) && f.starving == (backlog
                == 0),
            final(self).last_request == if r is Some {
                now
            } else {
                old(self).last_request
            },
    {
        if backlog < LOW_WATER_MARK && now >= self.last_request && now - self.last_request
            > REQUEST_INTERVAL_MS {
            self.last_request = now;
            Some(Refill { count: requested_frames(backlog), starving: backlog == 0 })
        } else {
            None
        }
    }
}

/// What the client does with a packet from the server.
pub enum ClientAction {
    /// Send this packet back to the server.
    Reply(Packet),
    /// Hand this message to the rest of the client over the bus.
    Forward(InterMessage),
    Ignore,
}

/// The client's answer to a packet from the server: a ping is answered with
/// a pong, a batch of frames goes to the bus, anything else is ignored.
pub fn on_server_packet(packet: Packet) -> (r: ClientAction)
    ensures
        packet@ == PacketView::Ping ==> r matches ClientAction::Reply(Packet::Pong),
        packet is FrameResponse ==> (r matches ClientAction::Forward(InterMessage::BulkFrames(fs))
            && packet == Packet::FrameResponse(fs)),
        !(packet@ == PacketView::Ping) && !(packet is FrameResponse) ==> r is Ignore,
{
    match packet {
        Packet::Ping => ClientAction::Reply(Packet::Pong),
        Packet::FrameResponse(frames) => ClientAction::Forward(InterMessage::BulkFrames(frames)),
        _ => ClientAction::Ignore,
    }
}

/// What the client does with a message from the bus.
pub enum BusAction {
    /// Send these bytes to the server.
    Send(Vec<u8>),
    /// End the connection loop.
    Stop,
    Ignore,
}

/// The client's handling of a bus message: a packet for the server is
/// serialized for sending (dropped where it is too large for the wire),
/// `Kill` stops the loop, anything else is ignored.
pub fn on_bus_message(msg: &InterMessage) -> (r: BusAction)
    ensures
        msg is Kill ==> r is Stop,
        msg matches InterMessage::SocketPacket(p) ==> if packet_fits(p@) {
            r matches BusAction::Send(b) && b@ == packet_bytes(p@)
        } else {
            r is Ignore
        },
        !(msg is Kill) && !(msg is SocketPacket) ==> r is Ignore,
{
    match msg {
        InterMessage::SocketPacket(packet) => {
            if packet.fits() {
                BusAction::Send(packet.serialize())
            } else {
                BusAction::Ignore
            }
        },
        InterMessage::Kill => BusAction::Stop,
        _ => BusAction::Ignore,
    }
}

/// What one pass of the client's connection loop did.
pub struct PumpPass {
    /// Whether the loop goes on; `false` once the bus asked to stop.
    pub running: bool,
    /// The messages taken from the bus in this pass, in order.
    pub from_bus: Vec<InterMessage>,
}

/// The client's end of its connection to the server.
pub struct SocketManager {
    pub socket: SocketConnection,
}

impl SocketManager {
    /// One pass of the client's connection loop: answers what the server
    /// sent, as [`on_server_packet`] decides, then handles what the bus
    /// hands over, as [`on_bus_message`] decides, up to [`DRAIN_LIMIT`]
    /// messages each way. The pass stops at the first `Kill`, and only a
    /// `Kill` stops the loop.
    pub fn pump(&self, endpoint: &Endpoint) -> (r: PumpPass)
        ensures
            !r.running <==> (r.from_bus@.len() > 0 && r.from_bus@.last() is Kill),
            forall|k: int| 0 <= k < r.from_bus@.len() - 1 ==> !(#[trigger] r.from_bus@[k] is Kill),
    {
        let mut budget: usize = DRAIN_LIMIT;
        while budget > 0
            decreases budget,
        {
            match try_receive(&self.socket.recv) {
                Received::Message(bytes) => {
                    match Packet::deserialize(bytes.as_slice()) {
                        Ok(packet) => match on_server_packet(packet) {
                            ClientAction::Reply(reply) => {
                                if reply.fits() {
                                    let _ = try_deliver(&self.socket.send, reply.serialize());
                                }
                            },
                            ClientAction::Forward(msg) => {
                                let _ = try_deliver(&endpoint.send, msg);
                            },
                            ClientAction::Ignore => {},
                        },
                        Err(_) => {},
                    }
                    budget = budget - 1;
                },
                _ => {
                    budget = 0;
                },
            }
        }
        let mut from_bus: Vec<InterMessage> = Vec::new();
        let mut budget: usize = DRAIN_LIMIT;
        while budget > 0
            invariant
                forall|k: int| 0 <= k < from_bus@.len() ==> !(#[trigger] from_bus@[k] is Kill),
            decreases budget,
        {
            match try_receive(&endpoint.recv) {
                Received::Message(msg) => {
                    match on_bus_message(&msg) {
                        BusAction::Send(bytes) => {
                            let _ = try_deliver(&self.socket.send, bytes);
                        },
                        BusAction::Stop => {
                            from_bus.push(msg);
                            return PumpPass { running: false, from_bus };
                        },
                        BusAction::Ignore => {},
                    }
                    from_bus.push(msg);
                    budget = budget - 1;
                },
                _ => {
                    budget = 0;
                },
            }
        }
        PumpPass { running: true, from_bus }
    }
}

} // verus!
