//! The application protocol: tagged packets and their byte encoding. The
//! first byte of a packet is its tag; every multi-byte field is big-endian.

use vstd::prelude::*;
use crate::bytes::{
    be16, be16_value, be32, be32_value, get_u16, get_u32, lemma_be16_round_trip,
    lemma_be32_round_trip, put_u16, put_u32,
};
use crate::frame::{
    append_bytes, copy_range, frame_bytes, frame_decodes_back, frame_fits, frame_lossless, frame_of,
    lemma_frame_bytes_round_trip, lemma_frame_fits, lemma_samples_wire_len,
    video_block, Frame, FrameView, MAX_FRAME_SAMPLES,
};

verus! {

pub const ID_PING: u8 = 0x01;

pub const ID_PONG: u8 = 0x02;

pub const ID_INFO_REQ: u8 = 0x03;

pub const ID_INFO_RES: u8 = 0x04;

pub const ID_QUEUE_REQ: u8 = 0x05;

pub const ID_QUEUE_RES: u8 = 0x06;

pub const ID_FRAME_REQ: u8 = 0x07;

pub const ID_FRAME_RES: u8 = 0x08;

pub const ID_CLOSE: u8 = 0x09;

pub const ID_REQ_DENIED: u8 = 0xFE;

pub const ID_UNKNOWN: u8 = 0xFF;

/// Why a byte buffer does not decode to a packet.
#[derive(Clone, Copy, Debug, PartialEq, Eq, Structural)]
pub enum PacketError {
    /// The buffer holds no byte at all.
    Empty,
    /// The buffer is too short (or, for a queue response, too long) for the
    /// fields its tag announces.
    UnexpectedLength,
}

/// A capability a server may offer.
#[derive(Clone, Copy, Debug, PartialEq, Eq, Structural)]
pub enum Feature {
    LivePlayback,
    AudioRecording,
    InputHandling,
    /// Stands for any code this side does not know.
    Invalid,
}

impl Feature {
    /// The byte that stands for this feature on the wire.
    pub open spec fn spec_code(self) -> u8 {
        match self {
            Feature::LivePlayback => 0x01,
            Feature::AudioRecording => 0x02,
            Feature::InputHandling => 0x03,
            Feature::Invalid => 0x00,
        }
    }

    /// The feature a wire byte stands for; unknown codes give `Invalid`.
    pub open spec fn spec_from_code(b: u8) -> Feature {
        if b == 0x01 {
            Feature::LivePlayback
        } else if b == 0x02 {
            Feature::AudioRecording
        } else if b == 0x03 {
            Feature::InputHandling
        } else {
            Feature::Invalid
        }
    }

    pub fn code(self) -> (r: u8)
        ensures
            r == self.spec_code(),
    {
        match self {
            Feature::LivePlayback => 0x01,
            Feature::AudioRecording => 0x02,
            Feature::InputHandling => 0x03,
            Feature::Invalid => 0x00,
        }
    }

    pub fn from_code(b: u8) -> (r: Feature)
        ensures
            r == Feature::spec_from_code(b),
    {
        if b == 0x01 {
            Feature::LivePlayback
        } else if b == 0x02 {
            Feature::AudioRecording
        } else if b == 0x03 {
            Feature::InputHandling
        } else {
            Feature::Invalid
        }
    }
}

impl Default for Feature {
    fn default() -> (r: Feature)
        ensures
            r == Feature::Invalid,
    {
        Feature::Invalid
    }
}

impl From<u8> for Feature {
    fn from(b: u8) -> (r: Feature) {
        Feature::from_code(b)
    }
}

impl vstd::std_specs::convert::FromSpecImpl<u8> for Feature {
    open spec fn obeys_from_spec() -> bool {
        true
    }

    open spec fn from_spec(b: u8) -> Feature {
        Feature::spec_from_code(b)
    }
}

impl From<Feature> for u8 {
    fn from(f: Feature) -> (r: u8) {
        f.code()
    }
}

impl vstd::std_specs::convert::FromSpecImpl<Feature> for u8 {
    open spec fn obeys_from_spec() -> bool {
        true
    }

    open spec fn from_spec(f: Feature) -> u8 {
        f.spec_code()
    }
}

/// The protocol header, version and capabilities a server announces.
#[derive(Clone, Debug, PartialEq)]
pub struct ServerInfo {
    pub header: [u8; 4],
    pub version: u16,
    pub features: Vec<Feature>,
}

/// The mathematical value of a [`ServerInfo`].
pub struct ServerInfoView {
    pub header: Seq<u8>,
    pub version: u16,
    pub features: Seq<Feature>,
}

impl View for ServerInfo {
    type V = ServerInfoView;

    open spec fn view(&self) -> ServerInfoView {
        ServerInfoView { header: self.header@, version: self.version, features: self.features@ }
    }
}

/// The wire bytes of the features, one code each.
pub open spec fn feature_codes(features: Seq<Feature>) -> Seq<u8> {
    features.map_values(|f: Feature| f.spec_code())
}

/// The bytes of a server description: header, big-endian version, then one
/// code per feature.
pub open spec fn info_bytes(info: ServerInfoView) -> Seq<u8> {
    info.header + be16(info.version) + feature_codes(info.features)
}

impl ServerInfo {
    pub fn serialize(&self) -> (r: Vec<u8>)
        ensures
            r@ == info_bytes(self@),
    {
        let mut raw: Vec<u8> = Vec::new();
        append_bytes(&mut raw, self.header.as_slice());
        put_u16(&mut raw, self.version);
        let ghost head = raw@;
        let mut i: usize = 0;
        while i < self.features.len()
            invariant
                i <= self.features@.len(),
                head == self.header@ + be16(self.version),
                raw@ == head + feature_codes(self.features@.subrange(0, i as int)),
            decreases self.features@.len() - i,
        {
            raw.push(self.features[i].code());
            i = i + 1;
            assert(raw@ =~= head + feature_codes(self.features@.subrange(0, i as int)));
        }
        assert(self.features@.subrange(0, i as int) =~= self.features@);
        raw
    }
}

/// One tagged message of the application protocol.
#[derive(Clone, Debug, PartialEq)]
pub enum Packet {
    Ping,
    Pong,
    InfoRequest,
    InfoResponse(ServerInfo),
    QueueRequest,
    /// The zero-based position of the asking client in the server's queue.
    QueueResponse(u32),
    /// Asks for up to this many frames.
    FrameRequest(u32),
    FrameResponse(Vec<Frame>),
    RequestDenied,
    Close,
    /// A packet with a tag this side does not know: all its bytes, tag
    /// included.
    Unknown(Vec<u8>),
}

/// The mathematical value of a [`Packet`].
pub enum PacketView {
    Ping,
    Pong,
    InfoRequest,
    InfoResponse(ServerInfoView),
    QueueRequest,
    QueueResponse(u32),
    FrameRequest(u32),
    FrameResponse(Seq<FrameView>),
    RequestDenied,
    Close,
    Unknown(Seq<u8>),
}

/// The views of a sequence of frames.
pub open spec fn frame_views(frames: Seq<Frame>) -> Seq<FrameView> {
    frames.map_values(|f: Frame| f@)
}

impl View for Packet {
    type V = PacketView;

    open spec fn view(&self) -> PacketView {
        match self {
            Packet::Ping => PacketView::Ping,
            Packet::Pong => PacketView::Pong,
            Packet::InfoRequest => PacketView::InfoRequest,
            Packet::InfoResponse(info) => PacketView::InfoResponse(info@),
            Packet::QueueRequest => PacketView::QueueRequest,
            Packet::QueueResponse(n) => PacketView::QueueResponse(*n),
            Packet::FrameRequest(n) => PacketView::FrameRequest(*n),
            Packet::FrameResponse(frames) => PacketView::FrameResponse(frame_views(frames@)),
            Packet::RequestDenied => PacketView::RequestDenied,
            Packet::Close => PacketView::Close,
            Packet::Unknown(raw) => PacketView::Unknown(raw@),
        }
    }
}

/// The tag byte of each packet variant.
pub open spec fn packet_id(p: PacketView) -> u8 {
    match p {
        PacketView::Ping => ID_PING,
        PacketView::Pong => ID_PONG,
        PacketView::InfoRequest => ID_INFO_REQ,
        PacketView::InfoResponse(_) => ID_INFO_RES,
        PacketView::QueueRequest => ID_QUEUE_REQ,
        PacketView::QueueResponse(_) => ID_QUEUE_RES,
        PacketView::FrameRequest(_) => ID_FRAME_REQ,
        PacketView::FrameResponse(_) => ID_FRAME_RES,
        PacketView::RequestDenied => ID_REQ_DENIED,
        PacketView::Close => ID_CLOSE,
        PacketView::Unknown(_) => ID_UNKNOWN,
    }
}

/// One frame of a frame response: its length, then its bytes.
pub open spec fn frame_record(f: FrameView) -> Seq<u8> {
    be32(frame_bytes(f).len() as u32) + frame_bytes(f)
}

/// The records of a frame response, in order.
pub open spec fn records_wire(frames: Seq<FrameView>) -> Seq<u8>
    decreases frames.len(),
{
    if frames.len() == 0 {
        seq![]
    } else {
        frame_record(frames[0]) + records_wire(frames.drop_first())
    }
}

/// Whether `p` can be written with 32-bit counts and lengths.
pub open spec fn packet_fits(p: PacketView) -> bool {
    match p {
        PacketView::FrameResponse(frames) => frames.len() <= u32::MAX && forall|i: int|
            0 <= i < frames.len() ==> frame_fits(#[trigger] frames[i].audio.len() as int),
        _ => true,
    }
}

/// The bytes a packet serializes to.
pub open spec fn packet_bytes(p: PacketView) -> Seq<u8> {
    seq![packet_id(p)] + match p {
        PacketView::InfoResponse(info) => info_bytes(info),
        PacketView::QueueResponse(n) => be32(n),
        PacketView::FrameRequest(n) => be32(n),
        PacketView::FrameResponse(frames) => be32(frames.len() as u32) + records_wire(frames),
        PacketView::Unknown(raw) => raw,
        _ => seq![],
    }
}

/// The `count` frames whose records start `data`, or `None` where a record
/// is cut short.
pub open spec fn records_of(data: Seq<u8>, count: nat) -> Option<Seq<FrameView>>
    decreases count,
{
    if count == 0 {
        Some(seq![])
    } else if data.len() < 4 {
        None
    } else {
        let n = be32_value(data) as int;
        if data.len() < 4 + n {
            None
        } else {
            match records_of(data.subrange(4 + n, data.len() as int), (count - 1) as nat) {
                Some(rest) => Some(seq![frame_of(data.subrange(4, 4 + n))] + rest),
                None => None,
            }
        }
    }
}

/// What a byte buffer decodes to.
pub open spec fn packet_of(data: Seq<u8>) -> Result<PacketView, PacketError> {
    if data.len() == 0 {
        Err(PacketError::Empty)
    } else {
        let tag = data[0];
        if tag == ID_PING {
            Ok(PacketView::Ping)
        } else if tag == ID_PONG {
            Ok(PacketView::Pong)
        } else if tag == ID_INFO_REQ {
            Ok(PacketView::InfoRequest)
        } else if tag == ID_INFO_RES {
            if data.len() < 7 {
                Err(PacketError::UnexpectedLength)
            } else {
                Ok(
                    PacketView::InfoResponse(
                        ServerInfoView {
                            header: data.subrange(1, 5),
                            version: be16_value(data.subrange(5, 7)),
                            features: data.subrange(7, data.len() as int).map_values(
                                |b: u8| Feature::spec_from_code(b),
                            ),
                        },
                    ),
                )
            }
        } else if tag == ID_QUEUE_REQ {
            Ok(PacketView::QueueRequest)
        } else if tag == ID_QUEUE_RES {
            if data.len() != 5 {
                Err(PacketError::UnexpectedLength)
            } else {
                Ok(PacketView::QueueResponse(be32_value(data.subrange(1, 5))))
            }
        } else if tag == ID_FRAME_REQ {
            if data.len() < 5 {
                Err(PacketError::UnexpectedLength)
            } else {
                Ok(PacketView::FrameRequest(be32_value(data.subrange(1, 5))))
            }
        } else if tag == ID_FRAME_RES {
            if data.len() < 5 {
                Err(PacketError::UnexpectedLength)
            } else {
                match records_of(
                    data.subrange(5, data.len() as int),
                    be32_value(data.subrange(1, 5)) as nat,
                ) {
                    Some(frames) => Ok(PacketView::FrameResponse(frames)),
                    None => Err(PacketError::UnexpectedLength),
                }
            }
        } else if tag == ID_REQ_DENIED {
            Ok(PacketView::RequestDenied)
        } else if tag == ID_CLOSE {
            Ok(PacketView::Close)
        } else {
            Ok(PacketView::Unknown(data))
        }
    }
}


/// A frame that fits its record writes fewer bytes than a 32-bit length can
/// count.
pub proof fn lemma_frame_bytes_len(f: FrameView)
    requires
        frame_fits(f.audio.len() as int),
    ensures
        frame_bytes(f).len() <= u32::MAX,
        frame_bytes(f).len() == 4 + video_block(f.video, f.audio.len() as int).len() + 4
            * f.audio.len(),
{
    lemma_samples_wire_len(f.audio);
}

pub proof fn lemma_records_wire_push(frames: Seq<FrameView>, f: FrameView)
    ensures
        records_wire(frames.push(f)) == records_wire(frames) + frame_record(f),
    decreases frames.len(),
{
    if frames.len() == 0 {
        assert(frames.push(f).drop_first() =~= Seq::<FrameView>::empty());
        assert(frames.push(f)[0] == f);
        assert(records_wire(Seq::<FrameView>::empty()) == Seq::<u8>::empty());
        assert(records_wire(frames.push(f)) =~= frame_record(f) + records_wire(
            Seq::<FrameView>::empty(),
        ));
        assert(records_wire(frames) == Seq::<u8>::empty());
    } else {
        assert(frames.push(f).drop_first() =~= frames.drop_first().push(f));
        lemma_records_wire_push(frames.drop_first(), f);
        assert(records_wire(frames.push(f)) =~= records_wire(frames) + frame_record(f));
    }
}

/// Records written for lossless frames read back as the same frames.
pub proof fn lemma_records_round_trip(frames: Seq<FrameView>)
    requires
        forall|i: int| 0 <= i < frames.len() ==> #[trigger] frame_lossless(frames[i]),
        forall|i: int| 0 <= i < frames.len() ==> frame_fits(#[trigger] frames[i].audio.len() as int),
    ensures
        records_of(records_wire(frames), frames.len()) == Some(frames),
    decreases frames.len(),
{
    if frames.len() > 0 {
        let f = frames[0];
        let rest = frames.drop_first();
        assert(frame_lossless(frames[0]));
        assert(frame_fits(frames[0].audio.len() as int));
        assert forall|i: int| 0 <= i < rest.len() implies #[trigger] frame_lossless(rest[i]) by {
            assert(rest[i] == frames[i + 1]);
        }
        assert forall|i: int| 0 <= i < rest.len() implies frame_fits(
            #[trigger] rest[i].audio.len() as int,
        ) by {
            assert(rest[i] == frames[i + 1]);
        }
        lemma_records_round_trip(rest);
        lemma_frame_bytes_len(f);
        let body = frame_bytes(f);
        let n = body.len() as u32;
        lemma_be32_round_trip(n);
        let data = records_wire(frames);
        assert(data =~= be32(n) + body + records_wire(rest));
        assert(data.subrange(0, 4) =~= be32(n));
        assert(be32_value(data) == be32_value(data.subrange(0, 4)));
        assert(data.subrange(4, 4 + n) =~= body);
        assert(data.subrange(4 + n, data.len() as int) =~= records_wire(rest));
        lemma_frame_bytes_round_trip(f);
        assert(seq![f] + rest =~= frames);
    }
}

/// Packet round trip: every packet other than `Unknown` that fits its
/// 32-bit counts, and whose frames compress losslessly, decodes from its
/// own serialization to itself.
pub proof fn lemma_packet_round_trip(p: Packet)
    requires
        packet_fits(p@),
        !(p is Unknown),
        p matches Packet::FrameResponse(frames) ==> forall|i: int|
            0 <= i < frames@.len() ==> #[trigger] frame_lossless(frames@[i]@),
    ensures
        packet_of(packet_bytes(p@)) == Ok::<PacketView, PacketError>(p@),
{
    let data = packet_bytes(p@);
    match p {
        Packet::InfoResponse(info) => {
            let v = info@;
            lemma_be16_round_trip(v.version);
            assert(data.subrange(1, 5) =~= v.header);
            assert(data.subrange(5, 7) =~= be16(v.version));
            assert(data.subrange(7, data.len() as int).map_values(
                |b: u8| Feature::spec_from_code(b),
            ) =~= v.features);
        },
        Packet::QueueResponse(n) => {
            lemma_be32_round_trip(n);
            assert(data.subrange(1, 5) =~= be32(n));
        },
        Packet::FrameRequest(n) => {
            lemma_be32_round_trip(n);
            assert(data.subrange(1, 5) =~= be32(n));
        },
        Packet::FrameResponse(frames) => {
            let fv = frame_views(frames@);
            let n = fv.len() as u32;
            lemma_be32_round_trip(n);
            assert(data.subrange(1, 5) =~= be32(n));
            assert(data.subrange(5, data.len() as int) =~= records_wire(fv));
            assert forall|i: int| 0 <= i < fv.len() implies #[trigger] frame_lossless(fv[i]) by {
                assert(frame_lossless(frames@[i]@));
            }
            lemma_records_round_trip(fv);
        },
        _ => {},
    }
}

impl Packet {
    pub fn id(&self) -> (r: u8)
        ensures
            r == packet_id(self@),
    {
        match self {
            Packet::Ping => ID_PING,
            Packet::Pong => ID_PONG,
            Packet::InfoRequest => ID_INFO_REQ,
            Packet::InfoResponse(_) => ID_INFO_RES,
            Packet::QueueRequest => ID_QUEUE_REQ,
            Packet::QueueResponse(_) => ID_QUEUE_RES,
            Packet::FrameRequest(_) => ID_FRAME_REQ,
            Packet::FrameResponse(_) => ID_FRAME_RES,
            Packet::RequestDenied => ID_REQ_DENIED,
            Packet::Close => ID_CLOSE,
            Packet::Unknown(_) => ID_UNKNOWN,
        }
    }

    /// Whether this packet can be written with 32-bit counts and lengths.
    pub fn fits(&self) -> (r: bool)
        ensures
            r == packet_fits(self@),
    {
        match self {
            Packet::FrameResponse(frames) => {
                if frames.len() > 0xFFFF_FFFFusize {
                    return false;
                }
                let ghost fv = frame_views(frames@);
                let mut i: usize = 0;
                while i < frames.len()
                    invariant
                        i <= frames@.len(),
                        fv == frame_views(frames@),
                        self@ == PacketView::FrameResponse(fv),
                        forall|j: int| 0 <= j < i ==> frame_fits(#[trigger] fv[j].audio.len() as int),
                    decreases frames@.len() - i,
                {
                    proof {
                        lemma_frame_fits(frames@[i as int].audio@.len() as int);
                        assert(fv[i as int] == frames@[i as int]@);
                    }
                    if frames[i].audio.len() > MAX_FRAME_SAMPLES {
                        assert(!frame_fits(fv[i as int].audio.len() as int));
                        assert(self@ == PacketView::FrameResponse(fv));
                        assert(!packet_fits(PacketView::FrameResponse(fv)));
                        return false;
                    }
                    i = i + 1;
                }
                true
            },
            _ => true,
        }
    }

    /// The tag byte, then the variant's fields.
    pub fn serialize(&self) -> (r: Vec<u8>)
        requires
            packet_fits(self@),
        ensures
            r@ == packet_bytes(self@),
            self@ matches PacketView::FrameResponse(frames) ==> forall|i: int|
                0 <= i < frames.len() ==> #[trigger] frame_decodes_back(frames[i]),
    {
        let mut raw: Vec<u8> = Vec::new();
        raw.push(self.id());
        let ghost head = raw@;
        match self {
            Packet::InfoResponse(info) => {
                let body = info.serialize();
                append_bytes(&mut raw, body.as_slice());
            },
            Packet::QueueResponse(n) => put_u32(&mut raw, *n),
            Packet::FrameRequest(n) => put_u32(&mut raw, *n),
            Packet::FrameResponse(frames) => {
                put_u32(&mut raw, frames.len() as u32);
                let ghost fv = frame_views(frames@);
                let ghost start = raw@;
                let mut i: usize = 0;
                while i < frames.len()
                    invariant
                        i <= frames@.len(),
                        fv == frame_views(frames@),
                        packet_fits(PacketView::FrameResponse(fv)),
                        raw@ == start + records_wire(fv.subrange(0, i as int)),
                        forall|j: int| 0 <= j < i ==> #[trigger] frame_decodes_back(fv[j]),
                    decreases frames@.len() - i,
                {
                    assert(frame_fits(fv[i as int].audio.len() as int));
                    let body = frames[i].serialize();
                    proof {
                        lemma_frame_bytes_len(fv[i as int]);
                    }
                    put_u32(&mut raw, body.len() as u32);
                    append_bytes(&mut raw, body.as_slice());
                    proof {
                        lemma_records_wire_push(fv.subrange(0, i as int), fv[i as int]);
                        assert(fv.subrange(0, i as int).push(fv[i as int]) =~= fv.subrange(
                            0,
                            i + 1,
                        ));
                    }
                    i = i + 1;
                    assert(raw@ =~= start + records_wire(fv.subrange(0, i as int)));
                }
                assert(fv.subrange(0, i as int) =~= fv);
            },
            Packet::Unknown(data) => append_bytes(&mut raw, data.as_slice()),
            _ => {},
        }
        assert(raw@ =~= packet_bytes(self@));
        raw
    }

    /// Decodes one packet; unknown tags give `Unknown` with every byte.
    pub fn deserialize(data: &[u8]) -> (r: Result<Packet, PacketError>)
        ensures
            match r {
                Ok(p) => packet_of(data@) == Ok::<PacketView, PacketError>(p@),
                Err(e) => packet_of(data@) == Err::<PacketView, PacketError>(e),
            },
    {
        if data.len() == 0 {
            return Err(PacketError::Empty);
        }
        let tag = data[0];
        if tag == ID_PING {
            Ok(Packet::Ping)
        } else if tag == ID_PONG {
            Ok(Packet::Pong)
        } else if tag == ID_INFO_REQ {
            Ok(Packet::InfoRequest)
        } else if tag == ID_INFO_RES {
            if data.len() < 7 {
                return Err(PacketError::UnexpectedLength);
            }
            let header: [u8; 4] = [data[1], data[2], data[3], data[4]];
            let version = get_u16(data, 5);
            let mut features: Vec<Feature> = Vec::new();
            let mut i: usize = 7;
            while i < data.len()
                invariant
                    7 <= i <= data@.len(),
                    features@ =~= data@.subrange(7, i as int).map_values(
                        |b: u8| Feature::spec_from_code(b),
                    ),
                decreases data@.len() - i,
            {
                features.push(Feature::from_code(data[i]));
                i = i + 1;
            }
            let info = ServerInfo { header, version, features };
            assert(header@.len() == 4);
            assert(header@[0] == data@[1]);
            assert(info@.header =~= data@.subrange(1, 5));
            Ok(Packet::InfoResponse(info))
        } else if tag == ID_QUEUE_REQ {
            Ok(Packet::QueueRequest)
        } else if tag == ID_QUEUE_RES {
            if data.len() != 5 {
                return Err(PacketError::UnexpectedLength);
            }
            Ok(Packet::QueueResponse(get_u32(data, 1)))
        } else if tag == ID_FRAME_REQ {
            if data.len() < 5 {
                return Err(PacketError::UnexpectedLength);
            }
            Ok(Packet::FrameRequest(get_u32(data, 1)))
        } else if tag == ID_FRAME_RES {
            if data.len() < 5 {
                return Err(PacketError::UnexpectedLength);
            }
            let count = get_u32(data, 1);
            match read_records(data, 5, count) {
                Some(frames) => Ok(Packet::FrameResponse(frames)),
                None => Err(PacketError::UnexpectedLength),
            }
        } else if tag == ID_REQ_DENIED {
            Ok(Packet::RequestDenied)
        } else if tag == ID_CLOSE {
            Ok(Packet::Close)
        } else {
            let raw = copy_range(data, 0, data.len());
            assert(raw@ =~= data@);
            Ok(Packet::Unknown(raw))
        }
    }
}

/// Reads `count` frame records starting at `from`.
fn read_records(data: &[u8], from: usize, count: u32) -> (r: Option<Vec<Frame>>)
    requires
        from <= data@.len(),
    ensures
        match r {
            Some(frames) => records_of(data@.subrange(from as int, data@.len() as int), count as nat)
                == Some(frame_views(frames@)),
            None => records_of(data@.subrange(from as int, data@.len() as int), count as nat) is None,
        },
{
    let ghost whole = records_of(data@.subrange(from as int, data@.len() as int), count as nat);
    let mut frames: Vec<Frame> = Vec::new();
    let mut pos: usize = from;
    let mut i: u32 = 0;
    while i < count
        invariant
            from <= pos <= data@.len(),
            i <= count,
            whole == records_of(data@.subrange(from as int, data@.len() as int), count as nat),
            match records_of(data@.subrange(pos as int, data@.len() as int), (count - i) as nat) {
                Some(rest) => whole == Some(frame_views(frames@) + rest),
                None => whole is None,
            },
        decreases count - i,
    {
        let ghost here = data@.subrange(pos as int, data@.len() as int);
        if data.len() - pos < 4 {
            return None;
        }
        let n = get_u32(data, pos);
        assert(data@.subrange(pos as int, pos + 4) =~= here.subrange(0, 4));
        assert(be32_value(here) == be32_value(here.subrange(0, 4)));
        if data.len() - pos - 4 < n as usize {
            return None;
        }
        let end: usize = pos + 4 + n as usize;
        let body = copy_range(data, pos + 4, end);
        let frame = Frame::deserialize(body);
        proof {
            assert(here.subrange(4, 4 + n) =~= data@.subrange(pos + 4, end as int));
            assert(here.subrange(4 + n, here.len() as int) =~= data@.subrange(
                end as int,
                data@.len() as int,
            ));
        }
        let ghost before = frame_views(frames@);
        frames.push(frame);
        proof {
            assert(frame_views(frames@) =~= before.push(frame@));
            match records_of(data@.subrange(end as int, data@.len() as int), (count - i - 1) as nat) {
                Some(rest) => {
                    assert(before + (seq![frame@] + rest) =~= before.push(frame@) + rest);
                },
                None => {},
            }
        }
        pos = end;
        i = i + 1;
    }
    assert(records_of(data@.subrange(pos as int, data@.len() as int), 0) == Some(Seq::<FrameView>::empty()));
    assert(frame_views(frames@) + Seq::<FrameView>::empty() =~= frame_views(frames@));
    Some(frames)
}

} // verus!
