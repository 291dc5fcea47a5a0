//! Pixel formats met between capture, network and display: 16-bit RGB565
//! as captured (low byte first), 24-bit RGB as sent, and 0RGB words as
//! shown in a window.

use vstd::prelude::*;

verus! {

/// The red, green and blue bytes of the RGB565 pixel whose low byte is `lo`
/// and high byte is `hi`; each channel fills the high bits of its byte.
pub open spec fn rgb565(lo: u8, hi: u8) -> (u8, u8, u8) {
    (hi & 0xF8u8, (((hi & 0x07u8) as u8) << 5u8) | (((lo & 0xE0u8) as u8) >> 3u8), ((lo & 0x1Fu8)
        as u8) << 3u8)
}

/// The 0RGB word of a pixel.
pub open spec fn word_of(r: u8, g: u8, b: u8) -> u32 {
    ((r as u32) << 16u32) | ((g as u32) << 8u32) | (b as u32)
}

/// Converts a captured RGB565 buffer into RGB bytes, three per pixel; a
/// trailing odd byte is ignored.
pub fn rgb565_to_rgb(buf: &[u8]) -> (r: Vec<u8>)
    ensures
        r@.len() == 3 * (buf@.len() / 2),
        forall|i: int|
            0 <= i < buf@.len() / 2 ==> {
                let (red, green, blue) = #[trigger] rgb565(buf@[2 * i], buf@[2 * i + 1]);
                r@[3 * i] == red && r@[3 * i + 1] == green && r@[3 * i + 2] == blue
            },
{
    let mut out: Vec<u8> = Vec::new();
    let mut i: usize = 0;
    let mut pos: usize = 0;
    let pixels = buf.len() / 2;
    while i < pixels
        invariant
            pixels == buf@.len() / 2,
            i <= pixels,
            pos == 2 * i,
            out@.len() == 3 * i,
            forall|k: int|
                0 <= k < i ==> {
                    let (red, green, blue) = #[trigger] rgb565(buf@[2 * k], buf@[2 * k + 1]);
                    out@[3 * k] == red && out@[3 * k + 1] == green && out@[3 * k + 2] == blue
                },
        decreases pixels - i,
    {
        let lo = buf[pos];
        let hi = buf[pos + 1];
        out.push(hi & 0xF8u8);
        out.push(((hi & 0x07u8) << 5u8) | ((lo & 0xE0u8) >> 3u8));
        out.push((lo & 0x1Fu8) << 3u8);
        i = i + 1;
        pos = pos + 2;
    }
    out
}

/// Packs RGB bytes, three per pixel, into 0RGB words; a trailing partial
/// pixel is ignored.
pub fn rgb_to_words(rgb: &[u8]) -> (r: Vec<u32>)
    ensures
        r@.len() == rgb@.len() / 3,
        forall|i: int|
            0 <= i < rgb@.len() / 3 ==> #[trigger] r@[i] == word_of(
                rgb@[3 * i],
                rgb@[3 * i + 1],
                rgb@[3 * i + 2],
            ),
{
    let mut out: Vec<u32> = Vec::new();
    let mut i: usize = 0;
    let mut pos: usize = 0;
    let pixels = rgb.len() / 3;
    while i < pixels
        invariant
            pixels == rgb@.len() / 3,
            i <= pixels,
            pos == 3 * i,
            out@.len() == i,
            forall|k: int|
                0 <= k < i ==> #[trigger] out@[k] == word_of(
                    rgb@[3 * k],
                    rgb@[3 * k + 1],
                    rgb@[3 * k + 2],
                ),
        decreases pixels - i,
    {
        let red = rgb[pos];
        let green = rgb[pos + 1];
        let blue = rgb[pos + 2];
        out.push(((red as u32) << 16u32) | ((green as u32) << 8u32) | (blue as u32));
        i = i + 1;
        pos = pos + 3;
    }
    out
}

} // verus!
