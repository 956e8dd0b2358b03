//! Rendering data as a grayscale bitmap.
//!
//! The pixel grid is computed here; encoding it as an image file is the
//! embedding program's part.

use vstd::prelude::*;

verus! {

/// Lays data out row-major on a pixel grid: one byte per pixel, missing
/// bytes drawn as white.
pub fn draw_bitmap(data: &Vec<u8>, width: usize, height: usize) -> (r: Vec<u8>)
    requires
        width * height <= usize::MAX,
    ensures
        r@.len() == width * height,
        forall|p: int|
            0 <= p < r@.len() ==> #[trigger] r@[p] == (if p < data@.len() {
                data@[p]
            } else {
                255u8
            }),
{
    let size = width * height;
    let mut bitmap: Vec<u8> = Vec::new();
    let mut p: usize = 0;
    while p < size
        invariant
            0 <= p <= size,
            bitmap@.len() == p,
            forall|q: int|
                0 <= q < bitmap@.len() ==> #[trigger] bitmap@[q] == (if q < data@.len() {
                    data@[q]
                } else {
                    255u8
                }),
        decreases size - p,
    {
        let pixel = if p < data.len() {
            data[p]
        } else {
            255
        };
        bitmap.push(pixel);
        p += 1;
    }
    bitmap
}

} // verus!
