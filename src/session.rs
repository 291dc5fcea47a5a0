//! The server's admission queue. Connected clients wait in arrival order;
//! the one at the head is serviced and alone may pull frames from the ring
//! of recently captured frames. Clients that stop answering pings are
//! dropped.

use vstd::prelude::*;
use crossbeam_queue::SegQueue;
use crate::frame::{frame_fits, lemma_frame_fits, Frame, MAX_FRAME_SAMPLES};
use crate::intercom::{
    ascending_below, lemma_ascending_room, try_deliver, try_receive, without_positions, Endpoint,
    InterMessage, Received, DRAIN_LIMIT,
};
use crate::packet::{
    frame_views, packet_fits, packet_of, Feature, Packet, PacketView, ServerInfo, ServerInfoView,
};
use crate::transport::SocketConnection;

verus! {

#[verifier::external_type_specification]
#[verifier::external_body]
#[verifier::reject_recursive_types(T)]
pub struct ExSegQueue<T>(crossbeam_queue::SegQueue<T>);

/// The frames a queue holds, oldest first.
pub uninterp spec fn queued_frames(q: SegQueue<Frame>) -> Seq<Frame>;

/// Relies on `crossbeam_queue::SegQueue::new`: a queue that holds nothing.
#[verifier::external_body]
fn ring_new() -> (r: SegQueue<Frame>)
    ensures
        queued_frames(r) == Seq::<Frame>::empty(),
{
    SegQueue::new()
}

/// Relies on `crossbeam_queue::SegQueue::push_mut`: adds `f` at the tail.
#[verifier::external_body]
fn ring_push(q: &mut SegQueue<Frame>, f: Frame)
    ensures
        queued_frames(*final(q)) == queued_frames(*old(q)).push(f),
{
    q.push_mut(f)
}

/// Relies on `crossbeam_queue::SegQueue::pop_mut`: takes the frame at the
/// head, or `None` where the queue is empty.
#[verifier::external_body]
fn ring_pop(q: &mut SegQueue<Frame>) -> (r: Option<Frame>)
    ensures
        queued_frames(*old(q)).len() == 0 ==> r is None && queued_frames(*final(q))
            == queued_frames(*old(q)),
        queued_frames(*old(q)).len() > 0 ==> r == Some(queued_frames(*old(q))[0])
            && queued_frames(*final(q)) == queued_frames(*old(q)).drop_first(),
{
    q.pop_mut()
}

/// Relies on `crossbeam_queue::SegQueue::len`: the number of frames held.
#[verifier::external_body]
fn ring_len(q: &SegQueue<Frame>) -> (r: usize)
    ensures
        r == queued_frames(*q).len(),
{
    q.len()
}

/// The protocol header announced in server descriptions ("RM64").
pub const INFO_HEADER: [u8; 4] = [0x52, 0x4D, 0x36, 0x34];

pub const INFO_VERSION: u16 = 0x0000;

/// A client that has not answered a ping for longer than this is dropped.
pub const PONG_TIMEOUT_MS: u64 = 22_000;

/// A client is pinged when it was last pinged longer ago than this.
pub const PING_INTERVAL_MS: u64 = 10_000;

/// The ring keeps at most this many frames, dropping the oldest.
pub const FRAME_RING_CAPACITY: usize = 60;

/// Milliseconds from `then` to `now`; none where `now` is earlier.
pub open spec fn since(now: u64, then: u64) -> int {
    if now >= then {
        now - then
    } else {
        0
    }
}

/// One connected client. Times are milliseconds on the server's monotonic
/// clock.
pub struct SocketClient {
    pub socket: SocketConnection,
    /// When the server last pinged this client.
    pub last_ping: u64,
    /// When this client last answered a ping.
    pub last_pong: u64,
    /// Whether this client still waits for its turn; `false` once serviced.
    pub waiting: bool,
}

impl SocketClient {
    /// A client that connected at `now` and waits for its turn.
    pub fn new(socket: SocketConnection, now: u64) -> (r: SocketClient)
        ensures
            r.socket == socket,
            r.last_ping == now,
            r.last_pong == now,
            r.waiting,
    {
        SocketClient { socket, last_ping: now, last_pong: now, waiting: true }
    }
}

/// What the keep-alive check decided for one client.
#[derive(Clone, Copy, Debug, PartialEq, Eq, Structural)]
pub enum Liveness {
    /// The client has not answered for too long and must be dropped.
    Expired,
    /// The client must be pinged now.
    PingDue,
    Alive,
}

/// Whether every client behind the head still waits.
pub open spec fn only_head_serviced(q: Seq<SocketClient>) -> bool {
    forall|i: int| 1 <= i < q.len() ==> #[trigger] q[i].waiting
}

/// Whether every frame fits a frame response record.
pub open spec fn frames_fit(frames: Seq<Frame>) -> bool {
    forall|i: int| 0 <= i < frames.len() ==> frame_fits(#[trigger] frames[i].audio@.len() as int)
}

/// `a` with its `last_pong` set to `now`.
pub open spec fn ponged(a: SocketClient, now: u64) -> SocketClient {
    SocketClient { last_pong: now, ..a }
}

/// `a` with its `last_ping` set to `now`.
pub open spec fn pinged(a: SocketClient, now: u64) -> SocketClient {
    SocketClient { last_ping: now, ..a }
}

/// `a` marked as serviced.
pub open spec fn serviced(a: SocketClient) -> SocketClient {
    SocketClient { waiting: false, ..a }
}

/// The keep-alive decision for a client at time `now`.
pub open spec fn liveness(c: SocketClient, now: u64) -> Liveness {
    if since(now, c.last_pong) > PONG_TIMEOUT_MS {
        Liveness::Expired
    } else if since(now, c.last_ping) > PING_INTERVAL_MS {
        Liveness::PingDue
    } else {
        Liveness::Alive
    }
}

/// How many frames a request for `n` takes from a ring that holds `ring`.
pub open spec fn granted(n: u32, ring: Seq<Frame>) -> int {
    if (n as int) < ring.len() {
        n as int
    } else {
        ring.len() as int
    }
}

/// The reply of a server with queue `q`, frame ring `ring` and description
/// `info` to `p`, received from the client at `index`.
pub open spec fn reply_for(
    q: Seq<SocketClient>,
    ring: Seq<Frame>,
    info: ServerInfoView,
    index: int,
    p: PacketView,
) -> Option<PacketView> {
    match p {
        PacketView::InfoRequest => Some(PacketView::InfoResponse(info)),
        PacketView::QueueRequest => Some(PacketView::QueueResponse(index as u32)),
        PacketView::Ping => Some(PacketView::Pong),
        PacketView::FrameRequest(n) => if q[index].waiting {
            Some(PacketView::RequestDenied)
        } else {
            Some(PacketView::FrameResponse(frame_views(ring.take(granted(n, ring)))))
        },
        _ => None,
    }
}

/// The queue after `p` from the client at `index` arrived at `now`: a pong
/// records the time, nothing else changes it.
pub open spec fn queue_after(q: Seq<SocketClient>, index: int, p: PacketView, now: u64) -> Seq<
    SocketClient,
> {
    match p {
        PacketView::Pong => q.update(index, ponged(q[index], now)),
        _ => q,
    }
}

/// The frame ring after `p` from the client at `index`: the serviced
/// client's frame request takes the frames it is granted.
pub open spec fn ring_after(q: Seq<SocketClient>, ring: Seq<Frame>, index: int, p: PacketView) -> Seq<
    Frame,
> {
    match p {
        PacketView::FrameRequest(n) => if q[index].waiting {
            ring
        } else {
            ring.skip(granted(n, ring))
        },
        _ => ring,
    }
}

/// The newest [`FRAME_RING_CAPACITY`] frames of `s`.
pub open spec fn capped(s: Seq<Frame>) -> Seq<Frame> {
    if s.len() > FRAME_RING_CAPACITY {
        s.skip(s.len() - FRAME_RING_CAPACITY)
    } else {
        s
    }
}

/// Capping after every added frame keeps the same frames as capping once.
pub proof fn lemma_capped_push(s: Seq<Frame>, f: Frame)
    ensures
        capped(capped(s).push(f)) == capped(s.push(f)),
{
    if s.len() > FRAME_RING_CAPACITY {
        assert(capped(capped(s).push(f)) =~= capped(s.push(f)));
    }
}

/// `q` after promoting its head, where the head still waits.
pub open spec fn promoted(q: Seq<SocketClient>) -> Seq<SocketClient> {
    if q.len() > 0 && q[0].waiting {
        q.update(0, serviced(q[0]))
    } else {
        q
    }
}

/// `before` with the pong time of `after`: the client as the keep-alive
/// check saw it.
pub open spec fn answered(before: SocketClient, after: SocketClient) -> SocketClient {
    SocketClient { last_pong: after.last_pong, ..before }
}

/// How one client may have changed in a pass at time `now`: its messages
/// may have recorded a pong at `now`, and a client due a ping was marked as
/// pinged at `now`. Nothing else about it changes.
pub open spec fn client_passed(before: SocketClient, after: SocketClient, now: u64) -> bool {
    &&& after.socket == before.socket
    &&& after.waiting == before.waiting
    &&& (after.last_pong == before.last_pong || after.last_pong == now)
    &&& after.last_ping == if liveness(answered(before, after), now) == Liveness::PingDue {
        now
    } else {
        before.last_ping
    }
}

/// Whether `mid` is `q` after every client's turn in a pass at time `now`,
/// with every client that the keep-alive check found expired in `gone`.
pub open spec fn clients_passed(
    q: Seq<SocketClient>,
    mid: Seq<SocketClient>,
    now: u64,
    gone: Seq<usize>,
) -> bool {
    &&& mid.len() == q.len()
    &&& forall|i: int| 0 <= i < q.len() ==> #[trigger] client_passed(q[i], mid[i], now)
    &&& forall|i: int|
        0 <= i < q.len() && liveness(answered(q[i], mid[i]), now) == Liveness::Expired
            ==> #[trigger] gone.contains(i as usize)
}

/// Whether the queue `fin` is what a pass at `now` leaves of `q`: each
/// client took its turn, then those in `gone` left and the others kept
/// their order.
pub open spec fn queue_passed(q: Seq<SocketClient>, fin: Seq<SocketClient>, now: u64, gone: Seq<usize>) -> bool {
    exists|mid: Seq<SocketClient>|
        clients_passed(q, mid, now, gone) && #[trigger] without_positions(mid, gone) == fin
}

/// Whether the ring `fin` is what is left of `ring` once its `taken` oldest
/// frames went out, with frames then added at the tail under the cap.
pub open spec fn ring_passed(ring: Seq<Frame>, fin: Seq<Frame>, taken: int) -> bool {
    exists|added: Seq<Frame>| fin == #[trigger] capped(ring.skip(taken) + added)
}

/// A head that no removal touches stays the head.
pub proof fn lemma_without_positions_head(q: Seq<SocketClient>, gone: Seq<usize>)
    requires
        ascending_below(gone, q.len()),
        q.len() > 0,
        !gone.contains(0usize),
    ensures
        without_positions(q, gone).len() > 0,
        without_positions(q, gone)[0] == q[0],
    decreases gone.len(),
{
    if gone.len() > 0 {
        lemma_ascending_room(gone, q.len());
        let at = gone.last() as int;
        assert(gone[gone.len() - 1] + 1 <= q.len());
        assert(at != 0) by {
            assert(gone[gone.len() - 1] == gone.last());
        }
        let init = gone.drop_last();
        assert forall|i: int| 0 <= i < init.len() implies #[trigger] init[i] < q.len() - 1 by {
            assert(init[i] == gone[i]);
            assert(gone[i] + (gone.len() - i) <= q.len());
        }
        assert(!init.contains(0usize)) by {
            if init.contains(0usize) {
                let k = choose|k: int| 0 <= k < init.len() && init[k] == 0usize;
                assert(gone[k] == 0usize);
            }
        }
        lemma_without_positions_head(q.remove(at), init);
    }
}

/// Removing any client keeps every client behind the head waiting.
pub proof fn lemma_remove_keeps_order(q: Seq<SocketClient>, at: int)
    requires
        only_head_serviced(q),
        0 <= at < q.len(),
    ensures
        only_head_serviced(q.remove(at)),
{
    let r = q.remove(at);
    assert forall|i: int| 1 <= i < r.len() implies #[trigger] r[i].waiting by {
        if i < at {
            assert(r[i] == q[i]);
        } else {
            assert(r[i] == q[i + 1]);
        }
    }
}

pub proof fn lemma_without_positions_keeps_order(q: Seq<SocketClient>, gone: Seq<usize>)
    requires
        only_head_serviced(q),
        ascending_below(gone, q.len()),
    ensures
        only_head_serviced(without_positions(q, gone)),
        without_positions(q, gone).len() == q.len() - gone.len(),
    decreases gone.len(),
{
    if gone.len() > 0 {
        lemma_ascending_room(gone, q.len());
        let at = gone.last() as int;
        assert(gone[gone.len() - 1] + 1 <= q.len());
        lemma_remove_keeps_order(q, at);
        let init = gone.drop_last();
        assert forall|i: int| 0 <= i < init.len() implies #[trigger] init[i] < q.len() - 1 by {
            assert(init[i] == gone[i]);
            assert(gone[i] + (gone.len() - i) <= q.len());
        }
        assert(ascending_below(init, (q.len() - 1) as nat));
        lemma_without_positions_keeps_order(q.remove(at), init);
    }
}

/// The server's queue of clients, its description, and the ring of recent
/// frames.
pub struct SocketManager {
    server_info: ServerInfo,
    client_queue: Vec<SocketClient>,
    frames: SegQueue<Frame>,
}

impl SocketManager {
    /// The connected clients, first come first.
    pub closed spec fn queue(&self) -> Seq<SocketClient> {
        self.client_queue@
    }

    /// The frames in the ring, oldest first.
    pub closed spec fn ring(&self) -> Seq<Frame> {
        queued_frames(self.frames)
    }

    /// What the server announces of itself.
    pub closed spec fn info(&self) -> ServerInfoView {
        self.server_info@
    }

    /// Only the head of the queue can be serviced, and the ring stays within
    /// its capacity and holds frames that fit a response.
    pub open spec fn wf(&self) -> bool {
        &&& only_head_serviced(self.queue())
        &&& self.ring().len() <= FRAME_RING_CAPACITY
        &&& frames_fit(self.ring())
    }

    /// A manager with no client and no frame that announces `features`.
    pub fn new(features: Vec<Feature>) -> (r: SocketManager)
        ensures
            r.wf(),
            r.queue() == Seq::<SocketClient>::empty(),
            r.ring() == Seq::<Frame>::empty(),
            r.info() == (ServerInfoView {
                header: INFO_HEADER@,
                version: INFO_VERSION,
                features: features@,
            }),
    {
        let server_info = ServerInfo { header: INFO_HEADER, version: INFO_VERSION, features };
        SocketManager { server_info, client_queue: Vec::new(), frames: ring_new() }
    }

    /// The number of connected clients.
    pub fn len(&self) -> (r: usize)
        ensures
            r == self.queue().len(),
    {
        self.client_queue.len()
    }

    /// The number of frames in the ring.
    pub fn ring_len(&self) -> (r: usize)
        ensures
            r == self.ring().len(),
    {
        ring_len(&self.frames)
    }

    /// Whether the client at `index` is the serviced one.
    pub fn is_serviced(&self, index: usize) -> (r: bool)
        requires
            index < self.queue().len(),
        ensures
            r == !self.queue()[index as int].waiting,
    {
        !self.client_queue[index].waiting
    }

    /// Puts a client that connected at `now` at the tail of the queue.
    pub fn enqueue(&mut self, socket: SocketConnection, now: u64)
        requires
            old(self).wf(),
        ensures
            final(self).wf(),
            final(self).queue() == old(self).queue().push(
                SocketClient { socket, last_ping: now, last_pong: now, waiting: true },
            ),
            final(self).ring() == old(self).ring(),
            final(self).info() == old(self).info(),
    {
        self.client_queue.push(SocketClient::new(socket, now));
    }

    /// Services the head of the queue if it still waits; returns whether it
    /// was promoted, which starts a recording.
    pub fn promote(&mut self) -> (r: bool)
        requires
            old(self).wf(),
        ensures
            final(self).wf(),
            r == (old(self).queue().len() > 0 && old(self).queue()[0].waiting),
            r ==> final(self).queue() == old(self).queue().update(0, serviced(old(self).queue()[0])),
            !r ==> final(self).queue() == old(self).queue(),
            final(self).ring() == old(self).ring(),
            final(self).info() == old(self).info(),
    {
        if self.client_queue.len() > 0 && self.client_queue[0].waiting {
            self.client_queue[0].waiting = false;
            true
        } else {
            false
        }
    }

    /// Adds a newly captured frame to the ring, dropping the oldest frames
    /// beyond its capacity.
    pub fn store_frame(&mut self, frame: Frame)
        requires
            old(self).wf(),
            frame_fits(frame.audio@.len() as int),
        ensures
            final(self).wf(),
            final(self).ring() == capped(old(self).ring().push(frame)),
            final(self).queue() == old(self).queue(),
            final(self).info() == old(self).info(),
    {
        let ghost all = old(self).ring().push(frame);
        ring_push(&mut self.frames, frame);
        if ring_len(&self.frames) > FRAME_RING_CAPACITY {
            let _ = ring_pop(&mut self.frames);
            assert(all.drop_first() =~= all.skip(1));
        }
        proof {
            assert forall|i: int| 0 <= i < self.ring().len() implies frame_fits(
                #[trigger] self.ring()[i].audio@.len() as int,
            ) by {
                let j = if all.len() > FRAME_RING_CAPACITY {
                    i + 1
                } else {
                    i
                };
                assert(self.ring()[i] == all[j]);
                if j < old(self).ring().len() {
                    assert(all[j] == old(self).ring()[j]);
                    assert(frame_fits(old(self).ring()[j].audio@.len() as int));
                } else {
                    assert(all[j] == frame);
                }
            }
        }
    }

    /// Takes up to `n` of the oldest frames from the ring.
    fn take_frames(&mut self, n: u32) -> (r: Vec<Frame>)
        requires
            old(self).wf(),
        ensures
            final(self).wf(),
            r@ == old(self).ring().take(granted(n, old(self).ring())),
            final(self).ring() == old(self).ring().skip(granted(n, old(self).ring())),
            final(self).queue() == old(self).queue(),
            final(self).info() == old(self).info(),
    {
        let available = ring_len(&self.frames);
        let count: usize = if available <= n as usize {
            available
        } else {
            n as usize
        };
        let ghost ring0 = self.ring();
        let mut out: Vec<Frame> = Vec::new();
        let mut i: usize = 0;
        while i < count
            invariant
                count <= ring0.len(),
                count == granted(n, ring0),
                i <= count,
                out@ == ring0.take(i as int),
                self.ring() == ring0.skip(i as int),
                self.queue() == old(self).queue(),
                self.info() == old(self).info(),
            decreases count - i,
        {
            let f = ring_pop(&mut self.frames);
            match f {
                Some(frame) => {
                    out.push(frame);
                },
                None => {},
            }
            assert(ring0.skip(i as int).drop_first() =~= ring0.skip(i + 1));
            assert(ring0.take(i + 1) =~= ring0.take(i as int).push(ring0[i as int]));
            i = i + 1;
        }
        proof {
            assert forall|j: int| 0 <= j < self.ring().len() implies frame_fits(
                #[trigger] self.ring()[j].audio@.len() as int,
            ) by {
                assert(self.ring()[j] == ring0[j + count]);
            }
        }
        out
    }

    /// The reply to `packet` from the client at `index`, received at `now`.
    /// A frame request from the serviced client takes up to the requested
    /// number of the oldest frames; from any other client it is denied. A
    /// pong records the time; packets a server does not expect are ignored.
    pub fn respond(&mut self, index: usize, packet: Packet, now: u64) -> (r: Option<Packet>)
        requires
            old(self).wf(),
            index < old(self).queue().len(),
        ensures
            final(self).wf(),
            final(self).info() == old(self).info(),
            r matches Some(p) ==> packet_fits(p@),
            match r {
                Some(p) => reply_for(old(self).queue(), old(self).ring(), old(self).info(), index as int, packet@)
                    == Some(p@),
                None => reply_for(old(self).queue(), old(self).ring(), old(self).info(), index as int, packet@)
                    is None,
            },
            final(self).queue() == queue_after(old(self).queue(), index as int, packet@, now),
            final(self).ring() == ring_after(old(self).queue(), old(self).ring(), index as int, packet@),
    {
        match packet {
            Packet::InfoRequest => {
                let info = ServerInfo {
                    header: self.server_info.header,
                    version: self.server_info.version,
                    features: copy_features(&self.server_info.features),
                };
                Some(Packet::InfoResponse(info))
            },
            Packet::QueueRequest => Some(Packet::QueueResponse(index as u32)),
            Packet::Ping => Some(Packet::Pong),
            Packet::Pong => {
                self.client_queue[index].last_pong = now;
                None
            },
            Packet::FrameRequest(n) => {
                if self.client_queue[index].waiting {
                    Some(Packet::RequestDenied)
                } else {
                    let ghost ring0 = self.ring();
                    let frames = self.take_frames(n);
                    proof {
                        assert(frames@.len() <= FRAME_RING_CAPACITY);
                        assert forall|i: int| 0 <= i < frame_views(frames@).len() implies frame_fits(
                            #[trigger] frame_views(frames@)[i].audio.len() as int,
                        ) by {
                            assert(frames@[i] == ring0[i]);
                        }
                    }
                    Some(Packet::FrameResponse(frames))
                }
            },
            _ => None,
        }
    }

    /// The keep-alive check of the client at `index` at time `now`. A client
    /// that is due a ping is marked as pinged at `now`.
    pub fn keepalive(&mut self, index: usize, now: u64) -> (r: Liveness)
        requires
            old(self).wf(),
            index < old(self).queue().len(),
        ensures
            final(self).wf(),
            r == liveness(old(self).queue()[index as int], now),
            r == Liveness::PingDue ==> final(self).queue() == old(self).queue().update(
                index as int,
                pinged(old(self).queue()[index as int], now),
            ),
            r != Liveness::PingDue ==> final(self).queue() == old(self).queue(),
            final(self).ring() == old(self).ring(),
            final(self).info() == old(self).info(),
    {
        let last_pong = self.client_queue[index].last_pong;
        let last_ping = self.client_queue[index].last_ping;
        if now >= last_pong && now - last_pong > PONG_TIMEOUT_MS {
            Liveness::Expired
        } else if now >= last_ping && now - last_ping > PING_INTERVAL_MS {
            self.client_queue[index].last_ping = now;
            Liveness::PingDue
        } else {
            Liveness::Alive
        }
    }

    /// Drops the clients at the positions in `gone`; the others keep their
    /// order. Returns whether the serviced client was among them, which ends
    /// its recording.
    pub fn remove_sessions(&mut self, gone: &Vec<usize>) -> (r: bool)
        requires
            old(self).wf(),
            ascending_below(gone@, old(self).queue().len()),
        ensures
            final(self).wf(),
            final(self).queue() == without_positions(old(self).queue(), gone@),
            final(self).queue().len() == old(self).queue().len() - gone@.len(),
            r == (gone@.len() > 0 && gone@[0] == 0 && !old(self).queue()[0].waiting),
            final(self).ring() == old(self).ring(),
            final(self).info() == old(self).info(),
    {
        let ghost q0 = self.client_queue@;
        let n = self.client_queue.len();
        let stopped = gone.len() > 0 && gone[0] == 0 && !self.client_queue[0].waiting;
        let mut k: usize = gone.len();
        proof {
            lemma_ascending_room(gone@, n as nat);
            lemma_without_positions_keeps_order(q0, gone@);
            assert(gone@.subrange(0, k as int) =~= gone@);
        }
        while k > 0
            invariant
                k <= gone@.len(),
                ascending_below(gone@, n as nat),
                forall|j: int| 0 <= j < gone@.len() ==> #[trigger] gone@[j] + (gone@.len() - j) <= n,
                self.client_queue@.len() == n - (gone@.len() - k),
                without_positions(q0, gone@) == without_positions(
                    self.client_queue@,
                    gone@.subrange(0, k as int),
                ),
                self.ring() == old(self).ring(),
                self.info() == old(self).info(),
            decreases k,
        {
            k = k - 1;
            assert(gone@[k as int] + (gone@.len() - k) <= n);
            let _ = self.client_queue.remove(gone[k]);
            assert(gone@.subrange(0, k + 1).drop_last() =~= gone@.subrange(0, k as int));
            assert(gone@.subrange(0, k + 1).last() == gone@[k as int]);
        }
        assert(without_positions(self.client_queue@, gone@.subrange(0, 0)) == self.client_queue@);
        stopped
    }
}

/// What one message from a client led to.
pub enum MessageOutcome {
    /// The message is not a packet; it is skipped and changes nothing.
    Malformed,
    /// The client closes its session.
    Closed,
    /// The reply to send, if any, as [`SocketManager::respond`] gives it.
    Answered(Option<Packet>),
}

/// What one pass of the manager did.
pub struct ServicePass {
    /// The head of the queue was promoted; `StartRecording` went out.
    pub started: bool,
    /// The serviced client left; `StopRecording` went out.
    pub stopped: bool,
    /// The positions, after promotion, of the clients that left.
    pub removed: Vec<usize>,
    /// How many frames left the ring for clients.
    pub taken: usize,
}

impl SocketManager {
    /// Handles one message `msg` from the client at `index`, received at
    /// `now`: a malformed message is skipped, `Close` ends the session, and
    /// any other packet is answered by [`SocketManager::respond`].
    pub fn on_message(&mut self, index: usize, msg: &[u8], now: u64) -> (r: MessageOutcome)
        requires
            old(self).wf(),
            index < old(self).queue().len(),
        ensures
            final(self).wf(),
            final(self).info() == old(self).info(),
            match packet_of(msg@) {
                Err(_) => r is Malformed && final(self).queue() == old(self).queue()
                    && final(self).ring() == old(self).ring(),
                Ok(PacketView::Close) => r is Closed && final(self).queue() == old(self).queue()
                    && final(self).ring() == old(self).ring(),
                Ok(p) => (r matches MessageOutcome::Answered(reply) && match reply {
                    Some(rp) => reply_for(old(self).queue(), old(self).ring(), old(self).info(), index as int, p)
                        == Some(rp@) && packet_fits(rp@),
                    None => reply_for(old(self).queue(), old(self).ring(), old(self).info(), index as int, p)
                        is None,
                }) && final(self).queue() == queue_after(old(self).queue(), index as int, p, now)
                    && final(self).ring() == ring_after(old(self).queue(), old(self).ring(), index as int, p),
            },
    {
        match Packet::deserialize(msg) {
            Ok(Packet::Close) => MessageOutcome::Closed,
            Ok(packet) => MessageOutcome::Answered(self.respond(index, packet, now)),
            Err(_) => MessageOutcome::Malformed,
        }
    }

    /// Sends `packet` to the client at `index`; a full or closed connection
    /// drops it.
    fn send_to(&self, index: usize, packet: &Packet)
        requires
            index < self.queue().len(),
            packet_fits(packet@),
    {
        let bytes = packet.serialize();
        let _ = try_deliver(&self.client_queue[index].socket.send, bytes);
    }

    /// Answers what the client at `index` sent, up to [`DRAIN_LIMIT`]
    /// messages, each through [`SocketManager::on_message`]. Returns whether
    /// the client closed its session, by a `Close` packet or by its
    /// connection going away.
    fn serve_client(&mut self, index: usize, now: u64) -> (closed: bool)
        requires
            old(self).wf(),
            index < old(self).queue().len(),
        ensures
            final(self).wf(),
            final(self).info() == old(self).info(),
            final(self).queue().len() == old(self).queue().len(),
            final(self).queue() == old(self).queue().update(
                index as int,
                answered(old(self).queue()[index as int], final(self).queue()[index as int]),
            ),
            final(self).queue()[index as int].last_pong == old(self).queue()[index as int].last_pong
                || final(self).queue()[index as int].last_pong == now,
            final(self).ring().len() <= old(self).ring().len(),
            final(self).ring() == old(self).ring().skip(
                old(self).ring().len() - final(self).ring().len(),
            ),
            old(self).queue()[index as int].waiting ==> final(self).ring() == old(self).ring(),
    {
        let ghost q0 = self.queue();
        let ghost r0 = self.ring();
        let mut closed = false;
        let mut budget: usize = DRAIN_LIMIT;
        while budget > 0
            invariant
                self.wf(),
                self.info() == old(self).info(),
                q0 == old(self).queue(),
                r0 == old(self).ring(),
                index < q0.len(),
                self.queue().len() == q0.len(),
                self.queue() == q0.update(index as int, answered(q0[index as int], self.queue()[index as int])),
                self.queue()[index as int].last_pong == q0[index as int].last_pong
                    || self.queue()[index as int].last_pong == now,
                self.ring().len() <= r0.len(),
                self.ring() == r0.skip(r0.len() - self.ring().len()),
                q0[index as int].waiting ==> self.ring() == r0,
            decreases budget,
        {
            match try_receive(&self.client_queue[index].socket.recv) {
                Received::Message(bytes) => {
                    let ghost ring1 = self.ring();
                    let ghost q1 = self.queue();
                    match self.on_message(index, bytes.as_slice(), now) {
                        MessageOutcome::Closed => {
                            closed = true;
                        },
                        MessageOutcome::Answered(reply) => {
                            match reply {
                                Some(p) => self.send_to(index, &p),
                                None => {},
                            }
                        },
                        MessageOutcome::Malformed => {},
                    }
                    proof {
                        assert(q1[index as int].waiting == q0[index as int].waiting);
                        assert(self.ring() =~= r0.skip(r0.len() - self.ring().len()));
                        assert(self.queue() =~= q0.update(
                            index as int,
                            answered(q0[index as int], self.queue()[index as int]),
                        ));
                    }
                    budget = budget - 1;
                },
                Received::Empty => {
                    budget = 0;
                },
                Received::Disconnected => {
                    closed = true;
                    budget = 0;
                },
            }
        }
        closed
    }

    /// One pass of the manager at time `now`: promotes the head of the queue
    /// (asking `endpoint` to start recording), answers every client, pings
    /// those that are due, drops those that closed or stopped answering
    /// (asking to stop recording where the serviced client went), and moves
    /// the frames captured meanwhile from `endpoint` into the ring. A
    /// captured frame with more than [`MAX_FRAME_SAMPLES`] samples cannot be
    /// sent and is dropped; the frames added in `ring_passed` are the others.
    pub fn service(&mut self, endpoint: &Endpoint, now: u64) -> (r: ServicePass)
        requires
            old(self).wf(),
        ensures
            final(self).wf(),
            final(self).info() == old(self).info(),
            r.started == (old(self).queue().len() > 0 && old(self).queue()[0].waiting),
            ascending_below(r.removed@, old(self).queue().len()),
            queue_passed(promoted(old(self).queue()), final(self).queue(), now, r.removed@),
            final(self).queue().len() == old(self).queue().len() - r.removed@.len(),
            r.stopped == (r.removed@.len() > 0 && r.removed@[0] == 0 && old(self).queue().len() > 0
                && !promoted(old(self).queue())[0].waiting),
            old(self).queue().len() > 0 && !r.removed@.contains(0usize) ==> {
                &&& final(self).queue().len() > 0
                &&& final(self).queue()[0].socket == old(self).queue()[0].socket
                &&& !final(self).queue()[0].waiting
            },
            r.taken <= old(self).ring().len(),
            r.taken > 0 ==> old(self).queue().len() > 0,
            ring_passed(old(self).ring(), final(self).ring(), r.taken as int),
    {
        let ghost r0 = self.ring();
        let ring_before = ring_len(&self.frames);
        let started = self.promote();
        if started {
            let _ = try_deliver(&endpoint.send, InterMessage::StartRecording);
        }
        let ghost p = self.queue();
        assert(p == promoted(old(self).queue()));
        let n = self.client_queue.len();
        let mut gone: Vec<usize> = Vec::new();
        let mut i: usize = 0;
        while i < n
            invariant
                self.wf(),
                self.info() == old(self).info(),
                p == promoted(old(self).queue()),
                p.len() == n,
                self.queue().len() == n,
                i <= n,
                ascending_below(gone@, i as nat),
                forall|j: int| 0 <= j < i ==> #[trigger] client_passed(p[j], self.queue()[j], now),
                forall|j: int|
                    0 <= j < i && liveness(answered(p[j], self.queue()[j]), now) == Liveness::Expired
                        ==> #[trigger] gone@.contains(j as usize),
                forall|j: int| i <= j < n ==> self.queue()[j] == p[j],
                self.ring().len() <= r0.len(),
                self.ring() == r0.skip(r0.len() - self.ring().len()),
                ring_before == r0.len(),
                n == 0 ==> self.ring() == r0,
            decreases n - i,
        {
            let ghost qa = self.queue();
            let closed = self.serve_client(i, now);
            let ghost qb = self.queue();
            let live = self.keepalive(i, now);
            let ghost before = gone@;
            if closed || live == Liveness::Expired {
                gone.push(i);
            } else if live == Liveness::PingDue {
                self.send_to(i, &Packet::Ping);
            }
            proof {
                assert(qb[i as int] == answered(p[i as int], qb[i as int]));
                assert(answered(p[i as int], self.queue()[i as int]) == qb[i as int]);
                assert(client_passed(p[i as int], self.queue()[i as int], now));
                assert forall|j: int|
                    0 <= j < i + 1 && liveness(answered(p[j], self.queue()[j]), now) == Liveness::Expired
                        implies #[trigger] gone@.contains(j as usize) by {
                    if j < i {
                        assert(self.queue()[j] == qa[j]);
                        assert(before.contains(j as usize));
                        let k = choose|k: int| 0 <= k < before.len() && before[k] == j as usize;
                        assert(gone@[k] == j as usize);
                    } else {
                        assert(gone@[gone@.len() - 1] == i);
                    }
                }
                assert forall|j: int| 0 <= j < i + 1 implies #[trigger] client_passed(
                    p[j],
                    self.queue()[j],
                    now,
                ) by {
                    if j < i {
                        assert(self.queue()[j] == qa[j]);
                    }
                }
                assert(self.ring() =~= r0.skip(r0.len() - self.ring().len()));
            }
            i = i + 1;
        }
        let ghost mid = self.queue();
        proof {
            if n > 0 {
                assert(client_passed(p[0], mid[0], now));
            }
        }
        let stopped = self.remove_sessions(&gone);
        if stopped {
            let _ = try_deliver(&endpoint.send, InterMessage::StopRecording);
        }
        let taken: usize = ring_before - ring_len(&self.frames);
        assert(self.ring() =~= r0.skip(taken as int));
        let ghost base = self.ring();
        let ghost added: Seq<Frame> = Seq::empty();
        assert(base + added =~= base);
        let mut budget: usize = DRAIN_LIMIT;
        while budget > 0
            invariant
                self.wf(),
                self.info() == old(self).info(),
                self.queue() == without_positions(mid, gone@),
                base.len() <= FRAME_RING_CAPACITY,
                self.ring() == capped(base + added),
            decreases budget,
        {
            match try_receive(&endpoint.recv) {
                Received::Message(InterMessage::LatestFrame(frame)) => {
                    if frame.audio.len() <= MAX_FRAME_SAMPLES {
                        proof {
                            lemma_frame_fits(frame.audio@.len() as int);
                            lemma_capped_push(base + added, frame);
                            assert((base + added).push(frame) =~= base + added.push(frame));
                        }
                        self.store_frame(frame);
                        proof {
                            added = added.push(frame);
                        }
                    }
                    budget = budget - 1;
                },
                Received::Message(_) => {
                    budget = budget - 1;
                },
                _ => {
                    budget = 0;
                },
            }
        }
        proof {
            if n > 0 && !gone@.contains(0usize) {
                lemma_without_positions_head(mid, gone@);
                assert(client_passed(p[0], mid[0], now));
            }
            assert(clients_passed(p, mid, now, gone@));
            assert(without_positions(mid, gone@) == self.queue());
            assert(capped(r0.skip(taken as int) + added) == self.ring());
        }
        ServicePass { started, stopped, removed: gone, taken }
    }
}

/// A copy of a list of features.
fn copy_features(features: &Vec<Feature>) -> (r: Vec<Feature>)
    ensures
        r@ == features@,
{
    let mut out: Vec<Feature> = Vec::new();
    let mut i: usize = 0;
    while i < features.len()
        invariant
            i <= features@.len(),
            out@ == features@.subrange(0, i as int),
        decreases features@.len() - i,
    {
        out.push(features[i]);
        i = i + 1;
        assert(out@ =~= features@.subrange(0, i as int));
    }
    assert(features@.subrange(0, i as int) =~= features@);
    out
}

} // verus!
