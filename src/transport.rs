//! Message framing over a byte stream: each message travels as a 4-byte
//! big-endian length followed by its payload. The reading side keeps the
//! bytes of a message that has not fully arrived and hands out each message
//! once its last byte is in.

use vstd::prelude::*;
use crate::bytes::{be32, be32_value, get_u32, lemma_be32_round_trip, put_u32};
use crate::frame::{append_bytes, copy_range};
use crossbeam_channel::{Receiver, Sender};

verus! {

/// One length-delimited message, as the transport carries it.
pub type Message = Vec<u8>;

/// The channels of one connection: what is sent on `send` goes out to the
/// peer, and each message the peer sends arrives on `recv`.
pub struct SocketConnection {
    pub send: Sender<Message>,
    pub recv: Receiver<Message>,
    /// The peer's address, as text.
    pub peer: String,
}

/// One message as it travels: its length, then its bytes.
pub open spec fn message_wire(m: Seq<u8>) -> Seq<u8> {
    be32(m.len() as u32) + m
}

/// Messages written back to back.
pub open spec fn stream_wire(msgs: Seq<Seq<u8>>) -> Seq<u8>
    decreases msgs.len(),
{
    if msgs.len() == 0 {
        seq![]
    } else {
        message_wire(msgs[0]) + stream_wire(msgs.drop_first())
    }
}

/// The complete messages at the front of `s`, and the bytes after them that
/// do not yet make a whole message.
pub open spec fn split_stream(s: Seq<u8>) -> (Seq<Seq<u8>>, Seq<u8>)
    decreases s.len(),
{
    if s.len() < 4 {
        (seq![], s)
    } else {
        let n = be32_value(s) as int;
        if s.len() < 4 + n {
            (seq![], s)
        } else {
            let (ms, rest) = split_stream(s.subrange(4 + n, s.len() as int));
            (seq![s.subrange(4, 4 + n)] + ms, rest)
        }
    }
}

/// Whether every message can be written with a 32-bit length.
pub open spec fn messages_fit(msgs: Seq<Seq<u8>>) -> bool {
    forall|i: int| 0 <= i < msgs.len() ==> #[trigger] msgs[i].len() <= u32::MAX
}

/// Bytes that arrive in two pieces split into the same messages as when
/// they arrive at once: the second piece continues what the first left over.
pub proof fn lemma_split_stream_append(a: Seq<u8>, b: Seq<u8>)
    ensures
        split_stream(a + b) == ({
            let (m1, r1) = split_stream(a);
            let (m2, r2) = split_stream(r1 + b);
            (m1 + m2, r2)
        }),
    decreases a.len(),
{
    let s = a + b;
    if a.len() >= 4 {
        assert(s.subrange(0, 4) =~= a.subrange(0, 4));
        assert(be32_value(s) == be32_value(s.subrange(0, 4)));
        assert(be32_value(a) == be32_value(a.subrange(0, 4)));
        let n = be32_value(a) as int;
        if a.len() >= 4 + n {
            let a2 = a.subrange(4 + n, a.len() as int);
            assert(s.subrange(4 + n, s.len() as int) =~= a2 + b);
            assert(s.subrange(4, 4 + n) =~= a.subrange(4, 4 + n));
            lemma_split_stream_append(a2, b);
            let (m1, r1) = split_stream(a2);
            let (m2, r2) = split_stream(r1 + b);
            assert(seq![a.subrange(4, 4 + n)] + (m1 + m2) =~= (seq![a.subrange(4, 4 + n)] + m1)
                + m2);
        } else {
            assert(seq![] + split_stream(a + b).0 =~= split_stream(a + b).0);
        }
    } else {
        assert(seq![] + split_stream(a + b).0 =~= split_stream(a + b).0);
    }
}

/// Stream round trip: messages written back to back on one connection are
/// read back as the same messages, unmodified and in order, with nothing
/// left over.
pub proof fn lemma_stream_round_trip(msgs: Seq<Seq<u8>>)
    requires
        messages_fit(msgs),
    ensures
        split_stream(stream_wire(msgs)) == (msgs, Seq::<u8>::empty()),
    decreases msgs.len(),
{
    if msgs.len() == 0 {
        assert(split_stream(Seq::<u8>::empty()) == (Seq::<Seq<u8>>::empty(), Seq::<u8>::empty()));
    } else {
        let m = msgs[0];
        let rest = msgs.drop_first();
        assert(m.len() <= u32::MAX);
        assert forall|i: int| 0 <= i < rest.len() implies #[trigger] rest[i].len() <= u32::MAX by {
            assert(rest[i] == msgs[i + 1]);
        }
        lemma_stream_round_trip(rest);
        let n = m.len() as u32;
        lemma_be32_round_trip(n);
        let s = stream_wire(msgs);
        assert(s =~= be32(n) + m + stream_wire(rest));
        assert(s.subrange(0, 4) =~= be32(n));
        assert(be32_value(s) == be32_value(s.subrange(0, 4)));
        assert(s.subrange(4, 4 + n) =~= m);
        assert(s.subrange(4 + n, s.len() as int) =~= stream_wire(rest));
        assert(seq![m] + rest =~= msgs);
    }
}

/// The bytes that carry `msg` on the stream.
pub fn frame_message(msg: &[u8]) -> (r: Vec<u8>)
    requires
        msg@.len() <= u32::MAX,
    ensures
        r@ == message_wire(msg@),
{
    let mut out: Vec<u8> = Vec::new();
    put_u32(&mut out, msg.len() as u32);
    append_bytes(&mut out, msg);
    out
}

/// The reading side of a connection: the bytes received so far that do not
/// yet make a whole message.
pub struct Reassembler {
    pending: Vec<u8>,
}

impl Reassembler {
    /// The bytes held back, waiting for the rest of their message.
    pub closed spec fn pending(&self) -> Seq<u8> {
        self.pending@
    }

    /// Whether the held bytes hold no complete message.
    pub open spec fn wf(&self) -> bool {
        split_stream(self.pending()).0.len() == 0
    }

    pub fn new() -> (r: Reassembler)
        ensures
            r.pending() == Seq::<u8>::empty(),
            r.wf(),
    {
        Reassembler { pending: Vec::new() }
    }

    /// The number of bytes held back.
    pub fn buffered(&self) -> (r: usize)
        ensures
            r == self.pending().len(),
    {
        self.pending.len()
    }

    /// Takes in the next bytes read from the stream and returns every message
    /// they complete, in order.
    pub fn feed(&mut self, bytes: &[u8]) -> (r: Vec<Vec<u8>>)
        ensures
            r@.map_values(|m: Vec<u8>| m@) == split_stream(old(self).pending() + bytes@).0,
            final(self).pending() == split_stream(old(self).pending() + bytes@).1,
            final(self).wf(),
    {
        append_bytes(&mut self.pending, bytes);
        let ghost whole = self.pending@;
        let mut out: Vec<Vec<u8>> = Vec::new();
        let mut pos: usize = 0;
        let len = self.pending.len();
        assert(whole.subrange(0, len as int) =~= whole);
        assert(out@.map_values(|m: Vec<u8>| m@) + split_stream(whole).0 =~= split_stream(whole).0);
        loop
            invariant
                pos <= len,
                len == self.pending@.len(),
                whole == self.pending@,
                whole == old(self).pending@ + bytes@,
                split_stream(whole) == ({
                    let (ms, rest) = split_stream(whole.subrange(pos as int, len as int));
                    (out@.map_values(|m: Vec<u8>| m@) + ms, rest)
                }),
            ensures
                pos <= len,
                len == self.pending@.len(),
                whole == self.pending@,
                whole == old(self).pending@ + bytes@,
                split_stream(whole) == ({
                    let (ms, rest) = split_stream(whole.subrange(pos as int, len as int));
                    (out@.map_values(|m: Vec<u8>| m@) + ms, rest)
                }),
                split_stream(whole.subrange(pos as int, len as int)) == (
                    Seq::<Seq<u8>>::empty(),
                    whole.subrange(pos as int, len as int),
                ),
            decreases len - pos,
        {
            let ghost here = whole.subrange(pos as int, len as int);
            if len - pos < 4 {
                break;
            }
            let n = get_u32(self.pending.as_slice(), pos);
            assert(whole.subrange(pos as int, pos + 4) =~= here.subrange(0, 4));
            assert(be32_value(here) == be32_value(here.subrange(0, 4)));
            if len - pos - 4 < n as usize {
                break;
            }
            let end: usize = pos + 4 + n as usize;
            let msg = copy_range(self.pending.as_slice(), pos + 4, end);
            proof {
                assert(here.subrange(4, 4 + n) =~= whole.subrange(pos + 4, end as int));
                assert(here.subrange(4 + n, here.len() as int) =~= whole.subrange(
                    end as int,
                    len as int,
                ));
            }
            let ghost before = out@.map_values(|m: Vec<u8>| m@);
            out.push(msg);
            proof {
                assert(out@.map_values(|m: Vec<u8>| m@) =~= before.push(msg@));
                let (ms, rest) = split_stream(whole.subrange(end as int, len as int));
                assert(before + (seq![msg@] + ms) =~= before.push(msg@) + ms);
            }
            pos = end;
        }
        let rest = copy_range(self.pending.as_slice(), pos, len);
        proof {
            let here = whole.subrange(pos as int, len as int);
            assert(out@.map_values(|m: Vec<u8>| m@) + Seq::<Seq<u8>>::empty() =~= out@.map_values(
                |m: Vec<u8>| m@,
            ));
        }
        self.pending = rest;
        out
    }
}

} // verus!
