//! One unit of synchronized media and its wire layout: a 4-byte big-endian
//! length, that many bytes of compressed video, then the audio samples as
//! 4-byte big-endian IEEE-754 bit patterns.

use vstd::prelude::*;
use crate::bytes::{be32, be32_value, get_u32, lemma_be32_round_trip, put_u32};
use crate::compress::{zstd_decode, zstd_decoded, zstd_encode, zstd_encoded};

verus! {

/// Compression level applied to video payloads.
pub const COMPRESSION_LEVEL: i32 = 3;

/// Uncompressed RGB video bytes and the audio samples that go with them.
/// Each sample is held as the bit pattern of a 32-bit float (`f32::to_bits`).
#[derive(Clone, Debug, PartialEq)]
pub struct Frame {
    pub video: Vec<u8>,
    pub audio: Vec<u32>,
}

/// The mathematical value of a [`Frame`].
pub struct FrameView {
    pub video: Seq<u8>,
    pub audio: Seq<u32>,
}

impl View for Frame {
    type V = FrameView;

    open spec fn view(&self) -> FrameView {
        FrameView { video: self.video@, audio: self.audio@ }
    }
}

/// The frame with no image and no sound.
pub open spec fn empty_frame() -> FrameView {
    FrameView { video: seq![], audio: seq![] }
}

/// Audio samples written one after another, 4 big-endian bytes each.
pub open spec fn samples_wire(audio: Seq<u32>) -> Seq<u8>
    decreases audio.len(),
{
    if audio.len() == 0 {
        seq![]
    } else {
        samples_wire(audio.drop_last()) + be32(audio.last())
    }
}

/// The samples read from `bytes` in 4-byte strides; a remainder shorter than
/// 4 bytes is dropped.
pub open spec fn samples_of(bytes: Seq<u8>) -> Seq<u32> {
    Seq::new(bytes.len() / 4, |i: int| be32_value(bytes.subrange(4 * i, 4 * i + 4)))
}

/// The layout of a frame whose compressed video is `block`.
pub open spec fn frame_wire(block: Seq<u8>, audio: Seq<u32>) -> Seq<u8> {
    be32(block.len() as u32) + block + samples_wire(audio)
}

/// Whether a record holding a video block of `block_len` bytes and
/// `audio_len` samples stays within a 32-bit length.
pub open spec fn record_fits(block_len: int, audio_len: int) -> bool {
    4 + block_len + 4 * audio_len <= u32::MAX
}

/// The video block sent for `video`: its compressed form, or nothing where
/// compression fails or would not fit the record.
pub open spec fn video_block(video: Seq<u8>, audio_len: int) -> Seq<u8> {
    match zstd_encoded(video, COMPRESSION_LEVEL as int) {
        Some(b) => if record_fits(b.len() as int, audio_len) {
            b
        } else {
            seq![]
        },
        None => seq![],
    }
}

/// The bytes a frame serializes to.
pub open spec fn frame_bytes(f: FrameView) -> Seq<u8> {
    frame_wire(video_block(f.video, f.audio.len() as int), f.audio)
}

/// Whether a frame of `audio_len` samples can be serialized at all.
pub open spec fn frame_fits(audio_len: int) -> bool {
    record_fits(0, audio_len)
}

/// The most samples one frame can carry.
pub const MAX_FRAME_SAMPLES: usize = 0x3FFF_FFFE;

pub proof fn lemma_frame_fits(audio_len: int)
    requires
        0 <= audio_len,
    ensures
        frame_fits(audio_len) <==> audio_len <= MAX_FRAME_SAMPLES,
{
}

/// The compressed video block and the samples that `data` holds, or `None`
/// where it is too short for its length field or for the block it declares.
pub open spec fn frame_parts(data: Seq<u8>) -> Option<(Seq<u8>, Seq<u32>)> {
    if data.len() < 4 {
        None
    } else {
        let n = be32_value(data) as int;
        if data.len() < 4 + n {
            None
        } else {
            Some((data.subrange(4, 4 + n), samples_of(data.subrange(4 + n, data.len() as int))))
        }
    }
}

/// The frame that `data` decodes to: the decompressed video and the samples,
/// or the empty frame where the layout or the compressed block is invalid.
pub open spec fn frame_of(data: Seq<u8>) -> FrameView {
    match frame_parts(data) {
        Some((block, audio)) => match zstd_decoded(block) {
            Some(v) => FrameView { video: v, audio },
            None => empty_frame(),
        },
        None => empty_frame(),
    }
}

/// Whether the compressed form of `f`'s video, where compression succeeds,
/// decompresses back to the same bytes.
pub open spec fn frame_decodes_back(f: FrameView) -> bool {
    zstd_encoded(f.video, COMPRESSION_LEVEL as int) matches Some(b) ==> zstd_decoded(b) == Some(
        f.video,
    )
}

/// Whether the video of `f` compresses into a block that fits its record.
pub open spec fn frame_compresses(f: FrameView) -> bool {
    zstd_encoded(f.video, COMPRESSION_LEVEL as int) matches Some(b) && record_fits(
        b.len() as int,
        f.audio.len() as int,
    )
}

/// Whether the video of `f` compresses into a block that fits its record and
/// decompresses back to the same bytes.
pub open spec fn frame_lossless(f: FrameView) -> bool {
    frame_compresses(f) && frame_decodes_back(f)
}

pub proof fn lemma_samples_wire_len(audio: Seq<u32>)
    ensures
        samples_wire(audio).len() == 4 * audio.len(),
    decreases audio.len(),
{
    if audio.len() > 0 {
        lemma_samples_wire_len(audio.drop_last());
    }
}

pub proof fn lemma_samples_wire_at(audio: Seq<u32>, i: int)
    requires
        0 <= i < audio.len(),
    ensures
        samples_wire(audio).subrange(4 * i, 4 * i + 4) == be32(audio[i]),
    decreases audio.len(),
{
    let init = audio.drop_last();
    lemma_samples_wire_len(init);
    if i < audio.len() - 1 {
        lemma_samples_wire_at(init, i);
        assert(samples_wire(audio).subrange(4 * i, 4 * i + 4) =~= samples_wire(init).subrange(
            4 * i,
            4 * i + 4,
        ));
    } else {
        assert(samples_wire(audio).subrange(4 * i, 4 * i + 4) =~= be32(audio.last()));
    }
}

/// Samples read back from their wire form are the samples written.
pub proof fn lemma_samples_round_trip(audio: Seq<u32>)
    ensures
        samples_of(samples_wire(audio)) == audio,
{
    lemma_samples_wire_len(audio);
    assert forall|i: int| 0 <= i < audio.len() implies #[trigger] samples_of(
        samples_wire(audio),
    )[i] == audio[i] by {
        lemma_samples_wire_at(audio, i);
        lemma_be32_round_trip(audio[i]);
    }
    assert(samples_of(samples_wire(audio)) =~= audio);
}

/// Frame round trip: the layout written for a video block and samples reads
/// back as the same block and the same samples. With the block being the
/// compressed video, the video sent decompresses to the same bytes.
pub proof fn lemma_frame_round_trip(block: Seq<u8>, audio: Seq<u32>)
    requires
        block.len() <= u32::MAX,
    ensures
        frame_parts(frame_wire(block, audio)) == Some((block, audio)),
{
    let data = frame_wire(block, audio);
    let n = block.len() as u32;
    lemma_be32_round_trip(n);
    lemma_samples_wire_len(audio);
    assert(data.subrange(0, 4) =~= be32(n));
    assert(be32_value(data) == be32_value(data.subrange(0, 4)));
    assert(data.subrange(4, 4 + n) =~= block);
    assert(data.subrange(4 + n, data.len() as int) =~= samples_wire(audio));
    lemma_samples_round_trip(audio);
}

/// A serialized lossless frame deserializes to itself.
pub proof fn lemma_frame_bytes_round_trip(f: FrameView)
    requires
        frame_lossless(f),
    ensures
        frame_of(frame_bytes(f)) == f,
{
    lemma_frame_round_trip(video_block(f.video, f.audio.len() as int), f.audio);
}

/// Appends `src` to `out`.
pub fn append_bytes(out: &mut Vec<u8>, src: &[u8])
    ensures
        final(out)@ == old(out)@ + src@,
{
    let mut i: usize = 0;
    while i < src.len()
        invariant
            i <= src@.len(),
            out@ == old(out)@ + src@.subrange(0, i as int),
        decreases src@.len() - i,
    {
        out.push(src[i]);
        i = i + 1;
        assert(out@ =~= old(out)@ + src@.subrange(0, i as int));
    }
    assert(src@.subrange(0, i as int) =~= src@);
}

/// The bytes of `src` from `from` up to `to`.
pub fn copy_range(src: &[u8], from: usize, to: usize) -> (r: Vec<u8>)
    requires
        from <= to <= src@.len(),
    ensures
        r@ == src@.subrange(from as int, to as int),
{
    let mut out: Vec<u8> = Vec::new();
    let mut i: usize = from;
    while i < to
        invariant
            from <= i <= to,
            to <= src@.len(),
            out@ == src@.subrange(from as int, i as int),
        decreases to - i,
    {
        out.push(src[i]);
        i = i + 1;
        assert(out@ =~= src@.subrange(from as int, i as int));
    }
    out
}

impl Default for Frame {
    fn default() -> (r: Frame)
        ensures
            r@ == empty_frame(),
    {
        Frame::empty()
    }
}

impl Frame {
    pub fn new(uncompressed_video: Vec<u8>, audio: Vec<u32>) -> (r: Frame)
        ensures
            r.video@ == uncompressed_video@,
            r.audio@ == audio@,
    {
        Frame { video: uncompressed_video, audio }
    }

    /// The frame with no image and no sound.
    pub fn empty() -> (r: Frame)
        ensures
            r@ == empty_frame(),
    {
        Frame { video: Vec::new(), audio: Vec::new() }
    }

    /// Lays out a frame from its already-compressed video block and samples.
    pub fn pack(block: &[u8], audio: &[u32]) -> (r: Vec<u8>)
        requires
            block@.len() <= u32::MAX,
        ensures
            r@ == frame_wire(block@, audio@),
    {
        let mut out: Vec<u8> = Vec::new();
        put_u32(&mut out, block.len() as u32);
        append_bytes(&mut out, block);
        let ghost head = out@;
        let mut i: usize = 0;
        while i < audio.len()
            invariant
                i <= audio@.len(),
                head == be32(block@.len() as u32) + block@,
                out@ == head + samples_wire(audio@.subrange(0, i as int)),
            decreases audio@.len() - i,
        {
            put_u32(&mut out, audio[i]);
            let ghost done = audio@.subrange(0, i as int);
            i = i + 1;
            assert(audio@.subrange(0, i as int).drop_last() =~= done);
            assert(out@ =~= head + samples_wire(audio@.subrange(0, i as int)));
        }
        assert(audio@.subrange(0, i as int) =~= audio@);
        out
    }

    /// Splits a frame's layout into its compressed video block and samples;
    /// `None` where `data` is shorter than its length field or than the block
    /// it declares.
    pub fn unpack(data: &[u8]) -> (r: Option<(Vec<u8>, Vec<u32>)>)
        ensures
            match r {
                Some((b, a)) => frame_parts(data@) == Some((b@, a@)),
                None => frame_parts(data@) is None,
            },
    {
        if data.len() < 4 {
            return None;
        }
        let n = get_u32(data, 0);
        assert(be32_value(data@) == be32_value(data@.subrange(0, 4)));
        if data.len() - 4 < n as usize {
            return None;
        }
        let start: usize = 4 + n as usize;
        let block = copy_range(data, 4, start);
        let ghost rest = data@.subrange(start as int, data@.len() as int);
        let mut audio: Vec<u32> = Vec::new();
        let mut pos: usize = start;
        let mut i: usize = 0;
        while data.len() - pos >= 4
            invariant
                start <= pos <= data@.len(),
                pos == start + 4 * i,
                rest == data@.subrange(start as int, data@.len() as int),
                audio@ =~= Seq::new(
                    i as nat,
                    |k: int| be32_value(rest.subrange(4 * k, 4 * k + 4)),
                ),
            decreases data@.len() - pos,
        {
            let x = get_u32(data, pos);
            assert(data@.subrange(pos as int, pos + 4) =~= rest.subrange(4 * i, 4 * i + 4));
            audio.push(x);
            pos = pos + 4;
            i = i + 1;
        }
        assert(i == rest.len() / 4);
        assert(audio@ =~= samples_of(rest));
        Some((block, audio))
    }

    /// The wire form of this frame: the video compressed at
    /// [`COMPRESSION_LEVEL`], or an empty block where that fails.
    pub fn serialize(&self) -> (r: Vec<u8>)
        requires
            frame_fits(self.audio@.len() as int),
        ensures
            r@ == frame_bytes(self@),
            frame_decodes_back(self@),
    {
        let block = match zstd_encode(self.video.as_slice(), COMPRESSION_LEVEL) {
            Some(b) => {
                if b.len() <= 0xFFFF_FFFBusize && self.audio.len() <= (0xFFFF_FFFBusize - b.len())
                    / 4 {
                    proof {
                        let m = 0xFFFF_FFFBusize - b.len();
                        let a = self.audio.len();
                        assert(4 * a <= m) by (nonlinear_arith)
                            requires
                                a <= m / 4,
                        ;
                    }
                    b
                } else {
                    proof {
                        let m = 0xFFFF_FFFBint - b.len();
                        let a = self.audio.len() as int;
                        if b.len() <= 0xFFFF_FFFBusize {
                            assert(4 * a > m) by (nonlinear_arith)
                                requires
                                    a > m / 4,
                                    m >= 0,
                            ;
                        }
                    }
                    Vec::new()
                }
            },
            None => Vec::new(),
        };
        Frame::pack(block.as_slice(), self.audio.as_slice())
    }

    /// The frame that `data` holds; the empty frame where `data` is too short
    /// or its video block does not decompress.
    pub fn deserialize(data: Vec<u8>) -> (r: Frame)
        ensures
            r@ == frame_of(data@),
    {
        match Frame::unpack(data.as_slice()) {
            Some((block, audio)) => match zstd_decode(block.as_slice()) {
                Some(video) => Frame { video, audio },
                None => Frame::empty(),
            },
            None => Frame::empty(),
        }
    }
}

} // verus!
