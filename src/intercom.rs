//! The intercom bus: an in-process network of two-way channels. A message
//! that one endpoint sends reaches every other endpoint, never the sender.

use vstd::prelude::*;
use crossbeam_channel::{Receiver, Sender};
use crate::frame::Frame;
use crate::packet::Packet;

verus! {

#[verifier::external_type_specification]
#[verifier::external_body]
#[verifier::reject_recursive_types(T)]
pub struct ExSender<T>(crossbeam_channel::Sender<T>);

#[verifier::external_type_specification]
#[verifier::external_body]
#[verifier::reject_recursive_types(T)]
pub struct ExReceiver<T>(crossbeam_channel::Receiver<T>);

/// What a receive that does not wait found.
pub enum Received<T> {
    Message(T),
    /// Nothing is waiting, and a sender is still attached.
    Empty,
    /// Nothing is waiting, and every sender is gone.
    Disconnected,
}

/// Relies on `crossbeam_channel::unbounded`: a new channel without a
/// capacity limit, as its sending and its receiving end.
#[verifier::external_body]
pub(crate) fn unbounded_channel<T>() -> (Sender<T>, Receiver<T>) {
    crossbeam_channel::unbounded()
}

/// Relies on `crossbeam_channel::bounded`: a new channel that holds at most
/// `cap` messages. It panics only for a capacity too large to set up.
#[verifier::external_body]
pub(crate) fn bounded_channel<T>(cap: usize) -> (Sender<T>, Receiver<T>)
    requires
        cap <= u32::MAX,
{
    crossbeam_channel::bounded(cap)
}

/// Relies on `crossbeam_channel::Receiver::try_recv`: takes the next waiting
/// message without blocking, or tells why there is none.
#[verifier::external_body]
pub(crate) fn try_receive<T>(r: &Receiver<T>) -> Received<T> {
    match r.try_recv() {
        Ok(m) => Received::Message(m),
        Err(crossbeam_channel::TryRecvError::Empty) => Received::Empty,
        Err(crossbeam_channel::TryRecvError::Disconnected) => Received::Disconnected,
    }
}

/// Relies on `crossbeam_channel::Sender::try_send`: queues `m` without
/// blocking; `false` where the channel is full or its receiver is gone, and
/// the message is dropped.
#[verifier::external_body]
pub(crate) fn try_deliver<T>(s: &Sender<T>, m: T) -> bool {
    s.try_send(m).is_ok()
}

/// One end of a two-way channel: it sends `A`s to the other end and receives
/// the `B`s sent from there.
#[derive(Debug)]
#[verifier::reject_recursive_types(A)]
#[verifier::reject_recursive_types(B)]
pub struct BidirectionalChannel<A, B> {
    pub send: Sender<A>,
    pub recv: Receiver<B>,
}

impl<A, B> BidirectionalChannel<A, B> {
    /// Both ends of a new two-way channel; each direction holds at most
    /// `bound` messages, or any number where `bound` is `None`.
    pub fn new(bound: Option<usize>) -> (BidirectionalChannel<A, B>, BidirectionalChannel<B, A>)
        requires
            bound matches Some(b) ==> b <= u32::MAX,
    {
        let (send1, recv1) = match bound {
            Some(b) => bounded_channel::<A>(b),
            None => unbounded_channel::<A>(),
        };
        let (send2, recv2) = match bound {
            Some(b) => bounded_channel::<B>(b),
            None => unbounded_channel::<B>(),
        };
        (
            BidirectionalChannel { send: send1, recv: recv2 },
            BidirectionalChannel { send: send2, recv: recv1 },
        )
    }

    pub fn split(self) -> (r: (Sender<A>, Receiver<B>))
        ensures
            r.0 == self.send,
            r.1 == self.recv,
    {
        (self.send, self.recv)
    }
}

/// The endpoints that a message from endpoint `from` goes to, out of `n`:
/// all of them but `from`, in order.
pub open spec fn fan_out(n: nat, from: nat) -> Seq<nat> {
    upto(n).filter(others(from))
}

/// The positions below `n`, in order.
pub open spec fn upto(n: nat) -> Seq<nat> {
    Seq::new(n, |j: int| j as nat)
}

/// Holds of every position but `from`.
pub open spec fn others(from: nat) -> spec_fn(nat) -> bool {
    |j: nat| j != from
}

/// The positions below `n` but `from`, in order.
pub open spec fn all_but(n: nat, from: nat) -> Seq<nat> {
    Seq::new(
        if from < n {
            (n - 1) as nat
        } else {
            n
        },
        |k: int|
            if k < from {
                k as nat
            } else {
                (k + 1) as nat
            },
    )
}

/// Fan-out: a message from endpoint `from` goes to every other endpoint of
/// the `n`, once each, in order, and never back to `from`.
pub proof fn lemma_fan_out(n: nat, from: nat)
    ensures
        fan_out(n, from) == all_but(n, from),
        !fan_out(n, from).contains(from),
    decreases n,
{
    reveal(Seq::filter);
    if n > 0 {
        let m = (n - 1) as nat;
        lemma_fan_out(m, from);
        assert(upto(n).drop_last() =~= upto(m));
        assert(upto(n).last() == m);
        if m == from {
            assert(fan_out(n, from) == fan_out(m, from));
        } else {
            assert(fan_out(n, from) == fan_out(m, from).push(m));
        }
        assert(fan_out(n, from) =~= all_but(n, from));
    } else {
        assert(fan_out(n, from) =~= all_but(n, from));
    }
    if fan_out(n, from).contains(from) {
        let k = choose|k: int| 0 <= k < fan_out(n, from).len() && fan_out(n, from)[k] == from;
        assert(all_but(n, from)[k] == from);
    }
}

/// `s` without the elements at the positions in `gone`.
pub open spec fn without_positions<T>(s: Seq<T>, gone: Seq<usize>) -> Seq<T>
    decreases gone.len(),
{
    if gone.len() == 0 {
        s
    } else {
        without_positions(s.remove(gone.last() as int), gone.drop_last())
    }
}

/// Whether the positions are strictly increasing and below `n`.
pub open spec fn ascending_below(gone: Seq<usize>, n: nat) -> bool {
    &&& forall|i: int, j: int| 0 <= i < j < gone.len() ==> gone[i] < gone[j]
    &&& forall|i: int| 0 <= i < gone.len() ==> #[trigger] gone[i] < n
}

/// Consecutive strictly increasing positions below `n` leave room: the one
/// at `j` is followed by `len - j - 1` larger ones.
pub proof fn lemma_ascending_room(gone: Seq<usize>, n: nat)
    requires
        ascending_below(gone, n),
    ensures
        forall|j: int| 0 <= j < gone.len() ==> #[trigger] gone[j] + (gone.len() - j) <= n,
    decreases gone.len(),
{
    if gone.len() > 0 {
        let init = gone.drop_last();
        assert(ascending_below(init, gone.last() as nat));
        lemma_ascending_room(init, gone.last() as nat);
        assert forall|j: int| 0 <= j < gone.len() implies #[trigger] gone[j] + (gone.len() - j) <= n by {
            if j < gone.len() - 1 {
                assert(init[j] == gone[j]);
            }
        }
    }
}

/// At most this many messages are taken from one endpoint in one pass, so
/// that a busy sender cannot hold up the others; the rest wait for the next
/// pass, still in order.
pub const DRAIN_LIMIT: usize = 4096;

/// A network of two-way channels in which every endpoint broadcasts to all
/// the others.
#[verifier::reject_recursive_types(T)]
pub struct BroadcastNetwork<T: Clone> {
    channels: Vec<BidirectionalChannel<T, T>>,
}

impl<T: Clone> BroadcastNetwork<T> {
    /// The network's own ends of the attached endpoints' channels, in the
    /// order the endpoints were attached.
    pub closed spec fn attached(&self) -> Seq<BidirectionalChannel<T, T>> {
        self.channels@
    }

    /// The number of attached endpoints.
    pub open spec fn size(&self) -> nat {
        self.attached().len()
    }

    pub fn new() -> (r: Self)
        ensures
            r.size() == 0,
    {
        BroadcastNetwork { channels: Vec::new() }
    }

    /// The number of attached endpoints.
    pub fn endpoints(&self) -> (r: usize)
        ensures
            r == self.size(),
    {
        self.channels.len()
    }

    /// Attaches a new endpoint. It receives what every other endpoint sends,
    /// never what it sends itself.
    pub fn endpoint(&mut self) -> (r: BidirectionalChannel<T, T>)
        ensures
            final(self).size() == old(self).size() + 1,
            final(self).attached().drop_last() == old(self).attached(),
    {
        let (outer, inner) = BidirectionalChannel::<T, T>::new(None);
        self.channels.push(inner);
        assert(self.channels@.drop_last() =~= old(self).channels@);
        outer
    }

    /// Offers `msg` to each endpoint in `targets`, in order. A full or closed
    /// endpoint drops it.
    /// Returns, for each target in order, whether it took the message; a
    /// failed delivery does not stop the offers to the targets after it.
    fn offer(&self, targets: &Vec<usize>, msg: &T) -> (r: Vec<bool>)
        requires
            forall|k: int| 0 <= k < targets@.len() ==> #[trigger] targets@[k] < self.size(),
        ensures
            r@.len() == targets@.len(),
    {
        let mut delivered: Vec<bool> = Vec::new();
        let mut k: usize = 0;
        while k < targets.len()
            invariant
                k <= targets@.len(),
                delivered@.len() == k,
                forall|m: int| 0 <= m < targets@.len() ==> #[trigger] targets@[m] < self.size(),
            decreases targets@.len() - k,
        {
            let ok = try_deliver(&self.channels[targets[k]].send, msg.clone());
            delivered.push(ok);
            k = k + 1;
        }
        delivered
    }

    /// One pass over the network. At each endpoint in turn, every waiting
    /// message (up to [`DRAIN_LIMIT`]) is offered to all the other endpoints,
    /// in the order taken, as [`on_received`] decides; each offer is logged
    /// in `offers`. The turn of an endpoint ends when it has nothing waiting
    /// (`Drained`, a `Next` step), when its sending side is gone (`Closed`, a
    /// `Detach` step) or at the limit (`Limit`). Closed endpoints are then
    /// detached; a sender's channel reports itself gone only once it is
    /// empty, so no message it sent is lost.
    pub fn dispatch(&mut self) -> (r: DispatchPass)
        ensures
            r.closed@.len() == old(self).size(),
            r.ends@.len() == old(self).size(),
            forall|i: int| 0 <= i < r.ends@.len() ==> #[trigger] r.closed@[i] == (r.ends@[i] is Closed),
            forall|k: int| 0 <= k < r.offers@.len() ==> #[trigger] offer_ok(r.offers@[k], old(self).size()),
            forall|a: int, b: int|
                0 <= a <= b < r.offers@.len() ==> r.offers@[a].source <= r.offers@[b].source,
            r.detached@ == true_positions(r.closed@),
            ascending_below(r.detached@, old(self).size()),
            final(self).attached() == without_positions(old(self).attached(), r.detached@),
            final(self).size() == old(self).size() - r.detached@.len(),
    {
        let mut gone: Vec<usize> = Vec::new();
        let mut closed: Vec<bool> = Vec::new();
        let mut ends: Vec<TurnEnd> = Vec::new();
        let mut offers: Vec<Offered> = Vec::new();
        let n = self.channels.len();
        let mut i: usize = 0;
        while i < n
            invariant
                n == self.channels@.len(),
                self.channels@ == old(self).channels@,
                i <= n,
                closed@.len() == i,
                ends@.len() == i,
                forall|j: int| 0 <= j < i ==> #[trigger] closed@[j] == (ends@[j] is Closed),
                gone@ == true_positions(closed@),
                ascending_below(gone@, i as nat),
                forall|k: int| 0 <= k < offers@.len() ==> #[trigger] offer_ok(offers@[k], n as nat),
                forall|k: int| 0 <= k < offers@.len() ==> #[trigger] offers@[k].source < i,
                forall|a: int, b: int|
                    0 <= a <= b < offers@.len() ==> offers@[a].source <= offers@[b].source,
            decreases n - i,
        {
            let mut end = TurnEnd::Limit;
            let mut budget: usize = DRAIN_LIMIT;
            while budget > 0
                invariant
                    n == self.channels@.len(),
                    self.channels@ == old(self).channels@,
                    i < n,
                    forall|k: int| 0 <= k < offers@.len() ==> #[trigger] offer_ok(offers@[k], n as nat),
                    forall|k: int| 0 <= k < offers@.len() ==> #[trigger] offers@[k].source <= i,
                    forall|a: int, b: int|
                        0 <= a <= b < offers@.len() ==> offers@[a].source <= offers@[b].source,
                decreases budget,
            {
                let got = try_receive(&self.channels[i].recv);
                match on_received(i, n, &got) {
                    Step::Offer(targets) => {
                        match got {
                            Received::Message(msg) => {
                                let delivered = self.offer(&targets, &msg);
                                let ghost before = offers@;
                                offers.push(Offered { source: i, targets, delivered });
                                proof {
                                    assert forall|k: int| 0 <= k < offers@.len() implies #[trigger] offer_ok(
                                        offers@[k],
                                        n as nat,
                                    ) by {
                                        if k < before.len() {
                                            assert(offers@[k] == before[k]);
                                        }
                                    }
                                    assert forall|k: int| 0 <= k < offers@.len() implies #[trigger] offers@[k].source
                                        <= i by {
                                        if k < before.len() {
                                            assert(offers@[k] == before[k]);
                                        }
                                    }
                                    assert forall|a: int, b: int|
                                        0 <= a <= b < offers@.len() implies offers@[a].source
                                        <= offers@[b].source by {
                                        assert(offers@[a].source <= i);
                                        if b < before.len() {
                                            assert(offers@[a] == before[a]);
                                            assert(offers@[b] == before[b]);
                                        }
                                    }
                                }
                            },
                            _ => {},
                        }
                        budget = budget - 1;
                    },
                    Step::Next => {
                        end = TurnEnd::Drained;
                        budget = 0;
                    },
                    Step::Detach => {
                        end = TurnEnd::Closed;
                        budget = 0;
                    },
                }
            }
            let detach = match end {
                TurnEnd::Closed => true,
                _ => false,
            };
            let ghost before = closed@;
            let ghost ends_before = ends@;
            closed.push(detach);
            ends.push(end);
            assert(closed@.drop_last() =~= before);
            assert forall|j: int| 0 <= j < i + 1 implies #[trigger] closed@[j] == (ends@[j] is Closed) by {
                if j < i {
                    assert(closed@[j] == before[j]);
                    assert(ends@[j] == ends_before[j]);
                }
            }
            if detach {
                gone.push(i);
            }
            i = i + 1;
        }
        let ghost kept = self.channels@;
        let mut k: usize = gone.len();
        proof {
            lemma_ascending_room(gone@, n as nat);
            assert(gone@.subrange(0, k as int) =~= gone@);
        }
        while k > 0
            invariant
                k <= gone@.len(),
                ascending_below(gone@, n as nat),
                forall|j: int| 0 <= j < gone@.len() ==> #[trigger] gone@[j] + (gone@.len() - j) <= n,
                self.channels@.len() == n - (gone@.len() - k),
                without_positions(kept, gone@) == without_positions(
                    self.channels@,
                    gone@.subrange(0, k as int),
                ),
            decreases k,
        {
            k = k - 1;
            assert(gone@[k as int] + (gone@.len() - k) <= n);
            self.channels.remove(gone[k]);
            assert(gone@.subrange(0, k + 1).drop_last() =~= gone@.subrange(0, k as int));
            assert(gone@.subrange(0, k + 1).last() == gone@[k as int]);
        }
        assert(without_positions(self.channels@, gone@.subrange(0, 0)) == self.channels@);
        DispatchPass { closed, detached: gone, offers, ends }
    }
}

/// One message offered during a dispatch pass.
pub struct Offered {
    /// The endpoint the message came from.
    pub source: usize,
    /// The endpoints it was offered to, in order.
    pub targets: Vec<usize>,
    /// For each target, whether it took the message.
    pub delivered: Vec<bool>,
}

/// Whether an offer in a network of `n` endpoints came from one of them,
/// went to every other one, in order, and was tried at each.
pub open spec fn offer_ok(o: Offered, n: nat) -> bool {
    &&& o.source < n
    &&& o.targets@.map_values(|j: usize| j as nat) == fan_out(n, o.source as nat)
    &&& o.delivered@.len() == o.targets@.len()
}

/// How the turn of one endpoint in a dispatch pass ended.
pub enum TurnEnd {
    /// Nothing more was waiting.
    Drained,
    /// Its sending side is gone.
    Closed,
    /// [`DRAIN_LIMIT`] messages were taken; the rest wait for the next pass.
    Limit,
}

/// What one dispatch pass found.
pub struct DispatchPass {
    /// For each endpoint, in order, whether its receive reported that its
    /// sending side is gone.
    pub closed: Vec<bool>,
    /// The positions, before the pass, of the endpoints detached.
    pub detached: Vec<usize>,
    /// Every message taken, in the order taken, with where it was offered.
    pub offers: Vec<Offered>,
    /// For each endpoint, in order, how its turn ended.
    pub ends: Vec<TurnEnd>,
}

/// The positions of the `true` flags, in order.
pub open spec fn true_positions(flags: Seq<bool>) -> Seq<usize>
    decreases flags.len(),
{
    if flags.len() == 0 {
        seq![]
    } else if flags.last() {
        true_positions(flags.drop_last()).push((flags.len() - 1) as usize)
    } else {
        true_positions(flags.drop_last())
    }
}

/// What the dispatch does after one receive at an endpoint.
pub enum Step {
    /// A message came: offer it to these endpoints.
    Offer(Vec<usize>),
    /// Nothing waits: move on to the next endpoint.
    Next,
    /// The sending side is gone: detach the endpoint.
    Detach,
}

/// The endpoints, out of `n`, that a message from endpoint `from` goes to:
/// every one but `from`, in order.
pub fn fan_out_targets(n: usize, from: usize) -> (r: Vec<usize>)
    ensures
        r@.map_values(|j: usize| j as nat) == fan_out(n as nat, from as nat),
        forall|k: int| 0 <= k < r@.len() ==> #[trigger] r@[k] < n,
{
    let mut offered: Vec<usize> = Vec::new();
    let mut j: usize = 0;
    while j < n
        invariant
            j <= n,
            offered@.map_values(|k: usize| k as nat) == upto(j as nat).filter(others(from as nat)),
            forall|k: int| 0 <= k < offered@.len() ==> #[trigger] offered@[k] < j,
        decreases n - j,
    {
        let ghost prefix = upto(j as nat);
        let ghost before = offered@.map_values(|k: usize| k as nat);
        if j != from {
            offered.push(j);
            assert(offered@.map_values(|k: usize| k as nat) =~= before.push(j as nat));
        }
        proof {
            reveal(Seq::filter);
            let next = upto((j + 1) as nat);
            assert(next.drop_last() =~= prefix);
            assert(next.last() == j as nat);
            assert(next.filter(others(from as nat)) == if j != from {
                prefix.filter(others(from as nat)).push(j as nat)
            } else {
                prefix.filter(others(from as nat))
            });
        }
        j = j + 1;
    }
    offered
}

/// The decision after a receive at endpoint `i` of `n`: a message is offered
/// to every other endpoint, an empty channel moves the pass on, and a gone
/// sender detaches the endpoint.
pub fn on_received<T>(i: usize, n: usize, got: &Received<T>) -> (s: Step)
    ensures
        got is Message ==> (s matches Step::Offer(t) && t@.map_values(|j: usize| j as nat)
            == fan_out(n as nat, i as nat)),
        s matches Step::Offer(t) ==> forall|k: int| 0 <= k < t@.len() ==> #[trigger] t@[k] < n,
        got is Empty ==> s is Next,
        got is Disconnected ==> s is Detach,
{
    match got {
        Received::Message(_) => Step::Offer(fan_out_targets(n, i)),
        Received::Empty => Step::Next,
        Received::Disconnected => Step::Detach,
    }
}

/// What the parts of a program tell each other over the bus.
#[derive(Clone, Debug)]
pub enum InterMessage {
    /// A packet to send to the peer.
    SocketPacket(Packet),
    /// The frame just captured.
    LatestFrame(Frame),
    /// Frames just received.
    BulkFrames(Vec<Frame>),
    StartRecording,
    StopRecording,
    /// Tells a receiving loop to end.
    Kill,
}

/// An endpoint of a bus that carries [`InterMessage`]s.
pub type Endpoint = BidirectionalChannel<InterMessage, InterMessage>;

/// The same two-way channel under its other name.
pub type TwoWayChannel<A, B> = BidirectionalChannel<A, B>;

/// A small event vocabulary for exercising a bus.
#[derive(Clone, Debug, PartialEq)]
pub enum Event {
    Foo,
    Bar,
    Deadbeef(String),
    Kill,
}

} // verus!
