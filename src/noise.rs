use vstd::prelude::*;
use crate::pixel::Pixel;
use crate::random::random_in_range;

verus! {

/// Channel value that noise pixels never reach in their colour channels, and
/// that every noise pixel has as its last channel.
pub const OPAQUE: u8 = 255;

/// A noise pixel: colour channels below 255, last channel 255.
pub open spec fn is_noise_pixel(p: Pixel) -> bool {
    p[0] < OPAQUE && p[1] < OPAQUE && p[2] < OPAQUE && p[3] == OPAQUE
}

/// Builds a `width` by `height` grid of random opaque pixels, each colour
/// channel drawn from 0 to 254.
pub fn generate_unsorted_image(width: u32, height: u32) -> (r: Vec<Vec<Pixel>>)
    ensures
        r.len() == height,
        forall|y: int| 0 <= y < height ==> #[trigger] r@[y]@.len() == width,
        forall|y: int, x: int|
            0 <= y < height && 0 <= x < width ==> is_noise_pixel(#[trigger] r@[y]@[x]),
{
    let mut out: Vec<Vec<Pixel>> = Vec::new();
    let mut y: u32 = 0;
    while y < height
        invariant
            y <= height,
            out.len() == y,
            forall|k: int| 0 <= k < y ==> #[trigger] out@[k]@.len() == width,
            forall|k: int, x: int|
                0 <= k < y && 0 <= x < width ==> is_noise_pixel(#[trigger] out@[k]@[x]),
        decreases height - y,
    {
        let mut row: Vec<Pixel> = Vec::new();
        let mut x: u32 = 0;
        while x < width
            invariant
                x <= width,
                row.len() == x,
                forall|i: int| 0 <= i < x ==> is_noise_pixel(#[trigger] row@[i]),
            decreases width - x,
        {
            let r = random_in_range(0, OPAQUE as usize) as u8;
            let g = random_in_range(0, OPAQUE as usize) as u8;
            let b = random_in_range(0, OPAQUE as usize) as u8;
            row.push([r, g, b, OPAQUE]);
            x += 1;
        }
        out.push(row);
        y += 1;
    }
    out
}

} // verus!
