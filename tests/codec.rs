use remote64::frame::{Frame, MAX_FRAME_SAMPLES};
use remote64::packet::{
    Feature, Packet, PacketError, ServerInfo, ID_CLOSE, ID_FRAME_REQ, ID_FRAME_RES, ID_INFO_RES,
    ID_QUEUE_RES, ID_UNKNOWN,
};

fn sample_info() -> ServerInfo {
    ServerInfo {
        header: [0x52, 0x4D, 0x36, 0x34],
        version: 0x0102,
        features: vec![Feature::LivePlayback, Feature::InputHandling, Feature::Invalid],
    }
}

fn sample_frame(w: usize, h: usize, samples: &[f32]) -> Frame {
    let mut video = Vec::with_capacity(w * h * 3);
    for i in 0..w * h * 3 {
        video.push((i % 251) as u8 / 3);
    }
    Frame::new(video, samples.iter().map(|s| s.to_bits()).collect())
}

#[test]
fn fixed_packets_round_trip() {
    let packets = vec![
        Packet::Ping,
        Packet::Pong,
        Packet::InfoRequest,
        Packet::QueueRequest,
        Packet::RequestDenied,
        Packet::Close,
        Packet::QueueResponse(7),
        Packet::QueueResponse(u32::MAX),
        Packet::FrameRequest(35),
        Packet::InfoResponse(sample_info()),
    ];
    for p in packets {
        assert_eq!(Packet::deserialize(&p.serialize()), Ok(p));
    }
}

#[test]
fn frame_response_round_trip() {
    let frames = vec![
        sample_frame(8, 6, &[0.5, -1.25, 3.0]),
        sample_frame(0, 0, &[]),
        sample_frame(16, 4, &[f32::MIN, f32::MAX]),
    ];
    let p = Packet::FrameResponse(frames);
    assert_eq!(Packet::deserialize(&p.serialize()), Ok(p));
    let empty = Packet::FrameResponse(vec![]);
    assert_eq!(empty.serialize(), vec![ID_FRAME_RES, 0, 0, 0, 0]);
    assert_eq!(Packet::deserialize(&empty.serialize()), Ok(empty));
}

#[test]
fn empty_and_short_queue_response() {
    assert_eq!(Packet::deserialize(&[]), Err(PacketError::Empty));
    assert_eq!(Packet::deserialize(&[ID_QUEUE_RES]), Err(PacketError::UnexpectedLength));
    assert_eq!(Packet::deserialize(&[ID_QUEUE_RES, 0, 0, 0, 1, 9]), Err(PacketError::UnexpectedLength));
}

#[test]
fn short_fields_are_rejected() {
    assert_eq!(Packet::deserialize(&[ID_INFO_RES, 1, 2, 3, 4, 5]), Err(PacketError::UnexpectedLength));
    assert_eq!(Packet::deserialize(&[ID_FRAME_REQ, 0, 0, 1]), Err(PacketError::UnexpectedLength));
    assert_eq!(Packet::deserialize(&[ID_FRAME_RES, 0, 0]), Err(PacketError::UnexpectedLength));
    // one frame announced, its record cut short
    assert_eq!(
        Packet::deserialize(&[ID_FRAME_RES, 0, 0, 0, 1, 0, 0, 0, 9, 1, 2]),
        Err(PacketError::UnexpectedLength)
    );
}

#[test]
fn exact_wire_bytes() {
    assert_eq!(Packet::Ping.serialize(), vec![0x01]);
    assert_eq!(Packet::Close.serialize(), vec![ID_CLOSE]);
    assert_eq!(Packet::RequestDenied.serialize(), vec![0xFE]);
    assert_eq!(Packet::QueueResponse(0x0102_0304).serialize(), vec![ID_QUEUE_RES, 1, 2, 3, 4]);
    assert_eq!(Packet::FrameRequest(35).serialize(), vec![ID_FRAME_REQ, 0, 0, 0, 35]);
    assert_eq!(sample_info().serialize(), vec![0x52, 0x4D, 0x36, 0x34, 0x01, 0x02, 0x01, 0x03, 0x00]);
    assert_eq!(
        Packet::InfoResponse(sample_info()).serialize(),
        vec![ID_INFO_RES, 0x52, 0x4D, 0x36, 0x34, 0x01, 0x02, 0x01, 0x03, 0x00]
    );
    assert_eq!(Packet::Unknown(vec![0x42, 7]).serialize(), vec![ID_UNKNOWN, 0x42, 7]);
}

#[test]
fn unknown_tags_keep_every_byte() {
    assert_eq!(Packet::deserialize(&[0x42, 1, 2]), Ok(Packet::Unknown(vec![0x42, 1, 2])));
    assert_eq!(Packet::deserialize(&[ID_UNKNOWN]), Ok(Packet::Unknown(vec![ID_UNKNOWN])));
}

#[test]
fn trailing_bytes_after_fixed_packets_are_ignored() {
    assert_eq!(Packet::deserialize(&[0x01, 9, 9]), Ok(Packet::Ping));
    assert_eq!(Packet::deserialize(&[ID_FRAME_REQ, 0, 0, 0, 2, 7]), Ok(Packet::FrameRequest(2)));
}

#[test]
fn unknown_feature_codes_decode_to_invalid() {
    let p = Packet::deserialize(&[ID_INFO_RES, 1, 2, 3, 4, 0, 5, 0x02, 0x77]).unwrap();
    assert_eq!(
        p,
        Packet::InfoResponse(ServerInfo {
            header: [1, 2, 3, 4],
            version: 5,
            features: vec![Feature::AudioRecording, Feature::Invalid],
        })
    );
    assert_eq!(Feature::from_code(0x01), Feature::LivePlayback);
    assert_eq!(Feature::from_code(0x00), Feature::Invalid);
    assert_eq!(Feature::InputHandling.code(), 0x03);
    assert_eq!(Feature::default(), Feature::Invalid);
}

#[test]
fn frame_round_trip_full_resolution() {
    let samples: Vec<f32> = (0..1470).map(|i| (i as f32 * 0.01).sin()).collect();
    let f = sample_frame(720, 480, &samples);
    let back = Frame::deserialize(f.serialize());
    assert_eq!(back.video, f.video);
    let back_samples: Vec<f32> = back.audio.iter().map(|b| f32::from_bits(*b)).collect();
    assert_eq!(back_samples, samples);
}

#[test]
fn frame_video_is_compressed() {
    let f = Frame::new(vec![7u8; 720 * 480 * 3], vec![]);
    let wire = f.serialize();
    let (block, audio) = Frame::unpack(&wire).unwrap();
    assert!(block.len() < f.video.len());
    assert_ne!(block, f.video);
    assert!(audio.is_empty());
    assert_eq!(Frame::deserialize(wire).video, f.video);
}

#[test]
fn frame_layout_bytes() {
    let wire = Frame::pack(&[9, 8], &[1.0f32.to_bits()]);
    assert_eq!(wire, vec![0, 0, 0, 2, 9, 8, 0x3F, 0x80, 0, 0]);
    assert_eq!(Frame::unpack(&wire), Some((vec![9, 8], vec![1.0f32.to_bits()])));
    // a remainder shorter than a sample is dropped
    let mut longer = wire.clone();
    longer.extend_from_slice(&[1, 2, 3]);
    assert_eq!(Frame::unpack(&longer), Some((vec![9, 8], vec![1.0f32.to_bits()])));
    // declared block longer than the data
    assert_eq!(Frame::unpack(&[0, 0, 0, 5, 1]), None);
    assert_eq!(Frame::unpack(&[0, 0, 0]), None);
}

#[test]
fn short_or_invalid_frames_decode_empty() {
    assert_eq!(Frame::deserialize(vec![]), Frame::empty());
    assert_eq!(Frame::deserialize(vec![0, 0, 9]), Frame::empty());
    assert_eq!(Frame::deserialize(vec![0, 0, 0, 9, 1, 2]), Frame::empty());
    // a block that is not zstd data
    assert_eq!(Frame::deserialize(vec![0, 0, 0, 2, 1, 2, 0, 0, 0, 0]), Frame::empty());
}

#[test]
fn oversized_frames_do_not_fit() {
    let ok = Packet::FrameResponse(vec![Frame::new(vec![], vec![0; 4])]);
    assert!(ok.fits());
    assert!(Packet::Ping.fits());
    assert!(MAX_FRAME_SAMPLES as u64 * 4 + 4 <= u32::MAX as u64);
}

#[test]
fn feature_conversions() {
    assert_eq!(Feature::from(0x02u8), Feature::AudioRecording);
    assert_eq!(Feature::from(0x09u8), Feature::Invalid);
    assert_eq!(u8::from(Feature::LivePlayback), 0x01);
    assert_eq!(u8::from(Feature::Invalid), 0x00);
}

#[test]
fn default_frame_is_empty() {
    assert_eq!(Frame::default(), Frame::empty());
    assert!(Frame::default().video.is_empty() && Frame::default().audio.is_empty());
    assert_eq!(Frame::empty().serialize().len(), 4 + Frame::unpack(&Frame::empty().serialize()).unwrap().0.len());
}
