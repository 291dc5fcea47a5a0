use remote64::transport::{frame_message, Reassembler};

fn message(len: usize, seed: u8) -> Vec<u8> {
    (0..len).map(|i| (i as u8).wrapping_mul(31).wrapping_add(seed)).collect()
}

#[test]
fn messages_arrive_whole_and_in_order() {
    let msgs = vec![message(0, 1), message(1, 2), message(70000, 3)];
    let mut stream = Vec::new();
    for m in &msgs {
        stream.extend_from_slice(&frame_message(m));
    }
    for chunk in [1usize, 3, 1000, 65536, stream.len()] {
        let mut r = Reassembler::new();
        let mut got = Vec::new();
        for piece in stream.chunks(chunk) {
            got.extend(r.feed(piece));
        }
        assert_eq!(got, msgs);
        assert_eq!(r.buffered(), 0);
    }
}

#[test]
fn partial_messages_wait() {
    let mut r = Reassembler::new();
    assert!(r.feed(&[0, 0, 0]).is_empty());
    assert!(r.feed(&[3, 10, 11]).is_empty());
    assert_eq!(r.buffered(), 6);
    assert_eq!(r.feed(&[12, 0, 0]), vec![vec![10, 11, 12]]);
    assert_eq!(r.buffered(), 2);
}

#[test]
fn framing_bytes() {
    assert_eq!(frame_message(&[]), vec![0, 0, 0, 0]);
    assert_eq!(frame_message(&[5, 6]), vec![0, 0, 0, 2, 5, 6]);
}
