use remote64::pixels::{rgb565_to_rgb, rgb_to_words};
use remote64::util::InfCell;

#[test]
fn rgb565_channels() {
    // low byte first: pure red, pure green, pure blue, white
    let buf = [0x00, 0xF8, 0xE0, 0x07, 0x1F, 0x00, 0xFF, 0xFF, 0x55];
    assert_eq!(
        rgb565_to_rgb(&buf),
        vec![0xF8, 0, 0, 0, 0xFC, 0, 0, 0, 0xF8, 0xF8, 0xFC, 0xF8]
    );
}

#[test]
fn rgb_words() {
    assert_eq!(rgb_to_words(&[0x12, 0x34, 0x56, 0xFF, 0, 1, 9]), vec![0x0012_3456, 0x00FF_0001]);
}

#[test]
fn cell_hands_out_its_value() {
    let mut c = InfCell::new(vec![1, 2]);
    c.get_mut().push(3);
    assert_eq!(c.get(), &vec![1, 2, 3]);
    assert_eq!(c.into_inner(), vec![1, 2, 3]);
}
