//! Pixel-buffer arithmetic for decoded images.

use vstd::prelude::*;

verus! {

/// One color channel of a premultiplied pixel, scaled back by its alpha and
/// rounded to nearest.
pub open spec fn unpremultiplied(channel: u8, alpha: u8) -> u8 {
    let value = (channel as int * 255 + alpha as int / 2) / alpha as int;
    if value > 255 {
        255
    } else {
        value as u8
    }
}

/// What `unpremultiply` leaves at byte `i` of a buffer that held `before`.
pub open spec fn unpremultiplied_byte(before: Seq<u8>, i: int) -> u8 {
    let base = i - i % 4;
    let alpha = before[base + 3];
    if base + 4 > before.len() || i % 4 == 3 || alpha == 255 || alpha == 0 {
        before[i]
    } else {
        unpremultiplied(before[i], alpha)
    }
}

/// Converts premultiplied RGBA (or BGRA) pixels to straight alpha in place.
/// Opaque and fully transparent pixels, and a trailing partial pixel, are
/// left as they are.
pub fn unpremultiply(pixels: &mut [u8])
    ensures
        final(pixels)@.len() == old(pixels)@.len(),
        forall|i: int|
            0 <= i < old(pixels)@.len() ==> #[trigger] final(pixels)@[i] == unpremultiplied_byte(
                old(pixels)@,
                i,
            ),
{
    let ghost before = pixels@;
    let len = pixels.len();
    let mut base: usize = 0;
    while len - base >= 4
        invariant
            len == pixels@.len(),
            before.len() == len,
            base % 4 == 0,
            base <= len,
            forall|i: int|
                0 <= i < base ==> #[trigger] pixels@[i] == unpremultiplied_byte(before, i),
            forall|i: int| base <= i < len ==> #[trigger] pixels@[i] == before[i],
        decreases len - base,
    {
        let alpha = pixels[base + 3];
        if alpha != 255 && alpha != 0 {
            let mut channel: usize = 0;
            while channel < 3
                invariant
                    len == pixels@.len(),
                    before.len() == len,
                    base % 4 == 0,
                    base + 4 <= len,
                    alpha == before[base + 3],
                    alpha != 255 && alpha != 0,
                    channel <= 3,
                    forall|i: int|
                        0 <= i < base ==> #[trigger] pixels@[i] == unpremultiplied_byte(before, i),
                    forall|i: int|
                        base <= i < base + channel ==> #[trigger] pixels@[i] == unpremultiplied(
                            before[i],
                            alpha,
                        ),
                    forall|i: int| base + channel <= i < len ==> #[trigger] pixels@[i] == before[i],
                decreases 3 - channel,
            {
                let value = pixels[base + channel] as u32;
                let scaled = (value * 255 + (alpha as u32) / 2) / (alpha as u32);
                let clamped: u8 = if scaled > 255 {
                    255
                } else {
                    scaled as u8
                };
                pixels[base + channel] = clamped;
                channel += 1;
            }
        }
        proof {
            assert forall|i: int| base <= i < base + 4 implies #[trigger] pixels@[i]
                == unpremultiplied_byte(before, i) by {
                assert(i - i % 4 == base);
            }
        }
        base += 4;
    }
    proof {
        assert forall|i: int| base <= i < len implies #[trigger] pixels@[i] == unpremultiplied_byte(
            before,
            i,
        ) by {
            assert(i - i % 4 + 4 > len);
        }
    }
}

} // verus!
