//! Stencil buffers: four bytes per pixel, the first three encoding a segment index.

use vstd::prelude::*;
use crate::codec::{decode, segment_index_to_rgb, INDEX_RANGE};

verus! {

/// Bytes per pixel of a generated stencil.
pub const BYTES_PER_PIXEL: u32 = 4;

/// Row-major position of column `x`, row `y` on a canvas `w` pixels wide.
pub open spec fn pos(w: int, x: int, y: int) -> int {
    y * w + x
}

/// The segment index that pixel `p` of a stencil buffer stores.
pub open spec fn stencil_index(data: Seq<u8>, p: int) -> int {
    decode(data[4 * p], data[4 * p + 1], data[4 * p + 2])
}

/// Pixel `p` of a stencil buffer stores segment index `i` (modulo the codec's
/// range) and is opaque.
pub open spec fn pixel_is(data: Seq<u8>, p: int, i: int) -> bool {
    &&& stencil_index(data, p) == i % (INDEX_RANGE as int)
    &&& data[4 * p + 3] == 255
}

/// Row-major positions are distinct and ordered row by row.
pub proof fn lemma_pos_order(w: int, x1: int, y1: int, x2: int, y2: int)
    requires
        0 <= x1 < w,
        0 <= x2 < w,
        0 <= y1,
        0 <= y2,
    ensures
        y1 < y2 ==> pos(w, x1, y1) < pos(w, x2, y2),
        y1 == y2 && x1 < x2 ==> pos(w, x1, y1) < pos(w, x2, y2),
        pos(w, x1, y1) == pos(w, x2, y2) ==> x1 == x2 && y1 == y2,
        0 <= pos(w, x1, y1),
{
    assert(y1 < y2 ==> y1 * w + x1 < y2 * w + x2) by (nonlinear_arith)
        requires
            0 <= x1 < w,
            0 <= x2 < w,
    {
        if y1 < y2 {
            assert(y1 * w + w <= y2 * w);
        }
    }
    assert(y2 < y1 ==> y2 * w + x2 < y1 * w + x1) by (nonlinear_arith)
        requires
            0 <= x1 < w,
            0 <= x2 < w,
    {
        if y2 < y1 {
            assert(y2 * w + w <= y1 * w);
        }
    }
    assert(0 <= y1 * w) by (nonlinear_arith)
        requires
            0 <= y1,
            0 <= w,
    ;
}

/// A position below `w * h` is one of the canvas.
pub proof fn lemma_pos_bound(w: int, h: int, x: int, y: int)
    requires
        0 <= x < w,
        0 <= y < h,
    ensures
        0 <= pos(w, x, y) < w * h,
{
    assert(0 <= y * w + x < w * h) by (nonlinear_arith)
        requires
            0 <= x < w,
            0 <= y < h,
    {
        assert(y * w + w <= h * w);
    }
}

/// Writes segment index `segment_index` into the pixel whose bytes start at
/// `pixel_start_index`, with alpha 255, and returns where the next pixel starts.
pub fn fill_pixel_with_segindex(container: &mut Vec<u8>, pixel_start_index: usize, segment_index: u32) -> (next: usize)
    requires
        pixel_start_index + 4 <= old(container)@.len(),
    ensures
        next == pixel_start_index + 4,
        final(container)@.len() == old(container)@.len(),
        forall|j: int|
            0 <= j < old(container)@.len() && !(pixel_start_index <= j < next) ==> final(container)@[j]
                == old(container)@[j],
        decode(
            final(container)@[pixel_start_index as int],
            final(container)@[pixel_start_index + 1],
            final(container)@[pixel_start_index + 2],
        ) == segment_index as int % (INDEX_RANGE as int),
        final(container)@[pixel_start_index + 3] == 255,
{
    let _len = container.len();
    let segment_color = segment_index_to_rgb(segment_index);
    container.set(pixel_start_index, segment_color.0);
    container.set(pixel_start_index + 1, segment_color.1);
    container.set(pixel_start_index + 2, segment_color.2);
    container.set(pixel_start_index + 3, 255);
    pixel_start_index + 4
}

/// Writes segment index `index` (kept modulo the codec's range) into pixel `p`.
pub fn fill_pixel(container: &mut Vec<u8>, p: usize, index: u64)
    requires
        4 * p + 4 <= old(container)@.len(),
    ensures
        final(container)@.len() == old(container)@.len(),
        pixel_is(final(container)@, p as int, index as int),
        forall|j: int|
            0 <= j < old(container)@.len() && !(4 * p <= j < 4 * p + 4) ==> final(container)@[j]
                == old(container)@[j],
{
    let _len = container.len();
    let ind = (index % INDEX_RANGE) as u32;
    fill_pixel_with_segindex(container, 4 * p, ind);
    proof {
        assert(ind as int % (INDEX_RANGE as int) == index as int % (INDEX_RANGE as int));
    }
}

/// A stencil buffer of `n` pixels, every one storing segment index 0 and opaque.
pub fn blank_stencil(n: usize) -> (container: Vec<u8>)
    requires
        4 * n <= usize::MAX,
    ensures
        container@.len() == 4 * n,
        forall|p: int| 0 <= p < n ==> #[trigger] pixel_is(container@, p, 0),
{
    let mut container: Vec<u8> = Vec::with_capacity(4 * n);
    let mut i: usize = 0;
    while i < n
        invariant
            i <= n,
            4 * n <= usize::MAX,
            container@.len() == 4 * i,
            forall|p: int| 0 <= p < i ==> #[trigger] pixel_is(container@, p, 0),
        decreases n - i,
    {
        let ghost prev = container@;
        container.push(0);
        container.push(0);
        container.push(0);
        container.push(255);
        proof {
            assert forall|p: int| 0 <= p < i + 1 implies #[trigger] pixel_is(container@, p, 0) by {
                if p < i {
                    assert(pixel_is(prev, p, 0));
                    assert(container@[4 * p] == prev[4 * p]);
                    assert(container@[4 * p + 1] == prev[4 * p + 1]);
                    assert(container@[4 * p + 2] == prev[4 * p + 2]);
                    assert(container@[4 * p + 3] == prev[4 * p + 3]);
                }
            }
        }
        i = i + 1;
    }
    container
}

} // verus!
