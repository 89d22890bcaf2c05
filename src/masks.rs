//! The mask grid: boolean masks tiled over the canvas, each mask with its own
//! range of segment indices.

use vstd::prelude::*;
use crate::arith::{ceil_div, div_ceil, lemma_ceil_div};
use crate::codec::INDEX_RANGE;
use crate::generators::StencilError;
use crate::image_tools::BoolMask;
use crate::stencil::{blank_stencil, fill_pixel, lemma_pos_bound, lemma_pos_order, pixel_is, pos};

verus! {

/// Index of column `x`, row `y` within one mask's tiling: the tiles are
/// numbered row by row.
pub open spec fn mask_local(w: int, mw: int, mh: int, x: int, y: int) -> int {
    x / mw + (y / mh) * ceil_div(w, mw)
}

/// Number of indices one mask's tiling uses on a `w` by `h` canvas.
pub open spec fn mask_count(w: int, h: int, mw: int, mh: int) -> int {
    ceil_div(w, mw) * ceil_div(h, mh)
}

/// Some cell is off in every mask.
pub open spec fn some_cell_uncovered(masks: Seq<BoolMask>) -> bool {
    exists|x: int, y: int|
        0 <= x < masks[0].width && 0 <= y < masks[0].height && #[trigger] all_off(masks, x, y)
}

/// Cell `(x, y)` is off in every mask.
pub open spec fn all_off(masks: Seq<BoolMask>, x: int, y: int) -> bool {
    forall|k: int| 0 <= k < masks.len() ==> !(#[trigger] masks[k].at(x, y))
}

/// The first index of the mask grid: 1 when index 0 is needed for pixels that
/// no mask covers, else 0.
pub open spec fn mask_start(masks: Seq<BoolMask>) -> int {
    if some_cell_uncovered(masks) { 1 } else { 0 }
}

/// Segment index of column `x`, row `y` once the first `k` masks are tiled,
/// mask `i` using the indices from `start + i * count`: that of the last of
/// them that is on there, or 0 where none is.
pub open spec fn mask_grid_index(masks: Seq<BoolMask>, k: int, start: int, w: int, h: int, x: int, y: int) -> int
    decreases k,
{
    if k <= 0 {
        0
    } else {
        let m = masks[k - 1];
        if m.at(x % m.width as int, y % m.height as int) {
            start + (k - 1) * mask_count(w, h, m.width as int, m.height as int) + mask_local(
                w,
                m.width as int,
                m.height as int,
                x,
                y,
            )
        } else {
            mask_grid_index(masks, k - 1, start, w, h, x, y)
        }
    }
}

/// All masks are well formed, non-empty and of one size.
pub open spec fn masks_valid(masks: Seq<BoolMask>) -> bool {
    &&& masks.len() > 0
    &&& forall|k: int| 0 <= k < masks.len() ==> (#[trigger] masks[k]).wf()
    &&& masks[0].width > 0
    &&& masks[0].height > 0
    &&& forall|k: int|
        0 <= k < masks.len() ==> (#[trigger] masks[k]).width == masks[0].width && masks[k].height
            == masks[0].height
}

/// Cell `(x, y)` is off in every mask.
fn all_masks_off(masks: &Vec<BoolMask>, x: u32, y: u32) -> (r: bool)
    requires
        masks_valid(masks@),
        x < masks@[0].width,
        y < masks@[0].height,
    ensures
        r == all_off(masks@, x as int, y as int),
{
    let mut k: usize = 0;
    while k < masks.len()
        invariant
            k <= masks@.len(),
            masks_valid(masks@),
            x < masks@[0].width,
            y < masks@[0].height,
            forall|j: int| 0 <= j < k ==> !(#[trigger] masks@[j].at(x as int, y as int)),
        decreases masks@.len() - k,
    {
        let m = &masks[k];
        proof {
            lemma_pos_bound(m.width as int, m.height as int, x as int, y as int);
        }
        let _n = m.cells.len();
        if m.cells[(y as usize) * (m.width as usize) + (x as usize)] {
            assert(masks@[k as int].at(x as int, y as int));
            return false;
        }
        k = k + 1;
    }
    true
}

/// Whether index 0 must be kept for pixels that no mask covers.
fn find_start(masks: &Vec<BoolMask>) -> (start: u32)
    requires
        masks_valid(masks@),
    ensures
        start == mask_start(masks@),
{
    let mask_width = masks[0].width;
    let mask_height = masks[0].height;
    let mut y: u32 = 0;
    while y < mask_height
        invariant
            masks_valid(masks@),
            mask_width == masks@[0].width,
            mask_height == masks@[0].height,
            y <= mask_height,
            forall|xx: int, yy: int| 0 <= xx < mask_width && 0 <= yy < y ==> !#[trigger] all_off(masks@, xx, yy),
        decreases mask_height - y,
    {
        let mut x: u32 = 0;
        while x < mask_width
            invariant
                masks_valid(masks@),
                mask_width == masks@[0].width,
                mask_height == masks@[0].height,
                y < mask_height,
                x <= mask_width,
                forall|xx: int, yy: int| 0 <= xx < mask_width && 0 <= yy < y ==> !#[trigger] all_off(masks@, xx, yy),
                forall|xx: int| 0 <= xx < x ==> !#[trigger] all_off(masks@, xx, y as int),
            decreases mask_width - x,
        {
            if all_masks_off(masks, x, y) {
                assert(some_cell_uncovered(masks@));
                return 1;
            }
            x = x + 1;
        }
        y = y + 1;
    }
    0
}

/// Pixel `p` has the same four bytes in both buffers.
pub open spec fn same_pixel(a: Seq<u8>, b: Seq<u8>, p: int) -> bool {
    &&& a[4 * p] == b[4 * p]
    &&& a[4 * p + 1] == b[4 * p + 1]
    &&& a[4 * p + 2] == b[4 * p + 2]
    &&& a[4 * p + 3] == b[4 * p + 3]
}

/// Paints the tiling of one mask: where the mask is on, the pixel gets index
/// `base` plus its tile's number; elsewhere the buffer is kept.
fn paint_mask(container: &mut Vec<u8>, mask: &BoolMask, width: u32, height: u32, start: u64, Ghost(base): Ghost<int>)
    requires
        mask.wf(),
        mask.width > 0,
        mask.height > 0,
        old(container)@.len() == 4 * (width * height),
        4 * (width * height) <= usize::MAX,
        start < INDEX_RANGE,
        start == base % (INDEX_RANGE as int),
    ensures
        final(container)@.len() == old(container)@.len(),
        forall|x: int, y: int|
            0 <= x < width && 0 <= y < height && #[trigger] mask.at(x % mask.width as int, y % mask.height as int) ==> pixel_is(
                final(container)@,
                pos(width as int, x, y),
                base + mask_local(width as int, mask.width as int, mask.height as int, x, y),
            ),
        forall|x: int, y: int|
            0 <= x < width && 0 <= y < height && !mask.at(x % mask.width as int, y % mask.height as int) ==> #[trigger] same_pixel(
                final(container)@,
                old(container)@,
                pos(width as int, x, y),
            ),
{
    let mask_width = mask.width;
    let mask_height = mask.height;
    let segments_per_row = div_ceil(width, mask_width);
    proof {
        lemma_ceil_div(width as int, mask_width as int);
    }
    let _cells = mask.cells.len();
    let ghost old_c = container@;
    let ghost w = width as int;
    let ghost mw = mask_width as int;
    let ghost mh = mask_height as int;
    let mut y: u32 = 0;
    let mut p: usize = 0;
    while y < height
        invariant
            y <= height,
            mask.wf(),
            mask_width == mask.width,
            mask_height == mask.height,
            mw == mask_width,
            mh == mask_height,
            mask_width > 0,
            mask_height > 0,
            mask_width * mask_height <= usize::MAX,
            w == width,
            segments_per_row == ceil_div(w, mw),
            segments_per_row <= width,
            start < INDEX_RANGE,
            start == base % (INDEX_RANGE as int),
            4 * (width * height) <= usize::MAX,
            p == pos(w, 0, y as int),
            container@.len() == old_c.len(),
            old_c.len() == 4 * (width * height),
            forall|j: int| 4 * p <= j < old_c.len() ==> container@[j] == old_c[j],
            forall|xx: int, yy: int|
                0 <= xx < width && 0 <= yy < y && #[trigger] mask.at(xx % mw, yy % mh) ==> pixel_is(
                    container@,
                    pos(w, xx, yy),
                    base + mask_local(w, mw, mh, xx, yy),
                ),
            forall|xx: int, yy: int|
                0 <= xx < width && 0 <= yy < y && !mask.at(xx % mw, yy % mh) ==> #[trigger] same_pixel(
                    container@,
                    old_c,
                    pos(w, xx, yy),
                ),
        decreases height - y,
    {
        let mut x: u32 = 0;
        while x < width
            invariant
                y < height,
                x <= width,
                mask.wf(),
                mask_width == mask.width,
                mask_height == mask.height,
                mw == mask_width,
                mh == mask_height,
                mask_width > 0,
                mask_height > 0,
                mask_width * mask_height <= usize::MAX,
                w == width,
                segments_per_row == ceil_div(w, mw),
                segments_per_row <= width,
                start < INDEX_RANGE,
                start == base % (INDEX_RANGE as int),
                4 * (width * height) <= usize::MAX,
                p == pos(w, x as int, y as int),
                container@.len() == old_c.len(),
                old_c.len() == 4 * (width * height),
                forall|j: int| 4 * p <= j < old_c.len() ==> container@[j] == old_c[j],
                forall|xx: int, yy: int|
                    0 <= xx < width && 0 <= yy < y && #[trigger] mask.at(xx % mw, yy % mh) ==> pixel_is(
                        container@,
                        pos(w, xx, yy),
                        base + mask_local(w, mw, mh, xx, yy),
                    ),
                forall|xx: int, yy: int|
                    0 <= xx < width && 0 <= yy < y && !mask.at(xx % mw, yy % mh) ==> #[trigger] same_pixel(
                        container@,
                        old_c,
                        pos(w, xx, yy),
                    ),
                forall|xx: int|
                    0 <= xx < x && #[trigger] mask.at(xx % mw, y as int % mh) ==> pixel_is(
                        container@,
                        pos(w, xx, y as int),
                        base + mask_local(w, mw, mh, xx, y as int),
                    ),
                forall|xx: int|
                    0 <= xx < x && !mask.at(xx % mw, y as int % mh) ==> #[trigger] same_pixel(
                        container@,
                        old_c,
                        pos(w, xx, y as int),
                    ),
            decreases width - x,
        {
            let sx = x % mask_width;
            let sy = y % mask_height;
            proof {
                lemma_pos_bound(mw, mh, sx as int, sy as int);
                lemma_pos_bound(w, height as int, x as int, y as int);
            }
            let ghost before = container@;
            if mask.cells[(sy as usize) * (mask_width as usize) + (sx as usize)] {
                let segment_x = x / mask_width;
                let segment_y = y / mask_height;
                assert((segment_y as int) * (segments_per_row as int) <= (u32::MAX as int) * (u32::MAX as int))
                    by (nonlinear_arith)
                    requires
                        segment_y <= u32::MAX,
                        segments_per_row <= u32::MAX,
                ;
                let local: u64 = segment_x as u64 + (segment_y as u64) * (segments_per_row as u64);
                fill_pixel(container, p, start + local);
                proof {
                    vstd::arithmetic::div_mod::lemma_add_mod_noop(base, local as int, INDEX_RANGE as int);
                    assert((start as int + local as int) % (INDEX_RANGE as int) == (base + local as int) % (INDEX_RANGE as int)) by {
                        vstd::arithmetic::div_mod::lemma_add_mod_noop(start as int, local as int, INDEX_RANGE as int);
                        vstd::arithmetic::div_mod::lemma_mod_twice(base, INDEX_RANGE as int);
                    }
                }
            }
            proof {
                assert forall|xx: int, yy: int|
                    0 <= xx < width && 0 <= yy < y && #[trigger] mask.at(xx % mw, yy % mh) implies pixel_is(
                        container@,
                        pos(w, xx, yy),
                        base + mask_local(w, mw, mh, xx, yy),
                    ) by {
                    lemma_pos_order(w, xx, yy, x as int, y as int);
                    lemma_pos_bound(w, height as int, xx, yy);
                    assert(pixel_is(before, pos(w, xx, yy), base + mask_local(w, mw, mh, xx, yy)));
                }
                assert forall|xx: int, yy: int|
                    0 <= xx < width && 0 <= yy < y && !mask.at(xx % mw, yy % mh) implies #[trigger] same_pixel(
                        container@,
                        old_c,
                        pos(w, xx, yy),
                    ) by {
                    lemma_pos_order(w, xx, yy, x as int, y as int);
                    lemma_pos_bound(w, height as int, xx, yy);
                    assert(same_pixel(before, old_c, pos(w, xx, yy)));
                }
                assert forall|xx: int| 0 <= xx < x + 1 && #[trigger] mask.at(xx % mw, y as int % mh) implies pixel_is(
                    container@,
                    pos(w, xx, y as int),
                    base + mask_local(w, mw, mh, xx, y as int),
                ) by {
                    if xx < x {
                        lemma_pos_order(w, xx, y as int, x as int, y as int);
                        assert(pixel_is(before, pos(w, xx, y as int), base + mask_local(w, mw, mh, xx, y as int)));
                    }
                }
                assert forall|xx: int| 0 <= xx < x + 1 && !mask.at(xx % mw, y as int % mh) implies #[trigger] same_pixel(
                    container@,
                    old_c,
                    pos(w, xx, y as int),
                ) by {
                    if xx < x {
                        lemma_pos_order(w, xx, y as int, x as int, y as int);
                        assert(same_pixel(before, old_c, pos(w, xx, y as int)));
                    }
                }
            }
            p = p + 1;
            x = x + 1;
        }
        assert(pos(w, x as int, y as int) == pos(w, 0, y + 1)) by (nonlinear_arith)
            requires
                x == w,
        ;
        y = y + 1;
    }
    proof {
        assert forall|x: int, y: int|
            0 <= x < width && 0 <= y < height && !mask.at(x % mask.width as int, y % mask.height as int) implies #[trigger] same_pixel(
                container@,
                old_c,
                pos(width as int, x, y),
            ) by {
            assert(same_pixel(container@, old_c, pos(w, x, y)));
        }
    }
}

/// Tiles every mask over a `width` by `height` canvas, in order. Mask `k`
/// uses the indices from `mask_start(masks) + k * count`, where `count` is the
/// number of its tiles, so the masks' ranges never overlap; where masks
/// overlap the later one wins, and pixels that no mask covers keep index 0.
pub fn generate_from_masks(width: u32, height: u32, masks: &Vec<BoolMask>) -> (r: Result<Vec<u8>, StencilError>)
    requires
        forall|k: int| 0 <= k < masks@.len() ==> (#[trigger] masks@[k]).wf(),
        4 * (width * height) <= usize::MAX,
    ensures
        r == Err::<Vec<u8>, StencilError>(StencilError::NoMasks) <==> masks@.len() == 0,
        r == Err::<Vec<u8>, StencilError>(StencilError::InconsistentMaskSize) <==> masks@.len() > 0 && exists|k: int|
            0 <= k < masks@.len() && ((#[trigger] masks@[k]).width != masks@[0].width || masks@[k].height
                != masks@[0].height),
        r == Err::<Vec<u8>, StencilError>(StencilError::ZeroSize) <==> masks@.len() > 0 && (forall|k: int|
            0 <= k < masks@.len() ==> (#[trigger] masks@[k]).width == masks@[0].width && masks@[k].height
                == masks@[0].height) && (masks@[0].width == 0 || masks@[0].height == 0),
        r is Ok <==> masks_valid(masks@),
        r matches Ok(container) ==> {
            &&& container@.len() == 4 * (width * height)
            &&& forall|x: int, y: int|
                0 <= x < width && 0 <= y < height ==> #[trigger] pixel_is(
                    container@,
                    pos(width as int, x, y),
                    mask_grid_index(masks@, masks@.len() as int, mask_start(masks@), width as int, height as int, x, y),
                )
        },
{
    if masks.len() == 0 {
        return Err(StencilError::NoMasks);
    }
    let mask_width = masks[0].width;
    let mask_height = masks[0].height;
    let mut k: usize = 0;
    while k < masks.len()
        invariant
            k <= masks@.len(),
            mask_width == masks@[0].width,
            mask_height == masks@[0].height,
            forall|j: int|
                0 <= j < k ==> (#[trigger] masks@[j]).width == mask_width && masks@[j].height == mask_height,
        decreases masks@.len() - k,
    {
        if masks[k].width != mask_width || masks[k].height != mask_height {
            assert(masks@[k as int].width != masks@[0].width || masks@[k as int].height != masks@[0].height);
            return Err(StencilError::InconsistentMaskSize);
        }
        k = k + 1;
    }
    if mask_width == 0 || mask_height == 0 {
        return Err(StencilError::ZeroSize);
    }
    assert(masks_valid(masks@));
    let start = find_start(masks);
    let segments_per_row = div_ceil(width, mask_width);
    let segment_rows = div_ceil(height, mask_height);
    proof {
        lemma_ceil_div(width as int, mask_width as int);
        lemma_ceil_div(height as int, mask_height as int);
        vstd::arithmetic::mul::lemma_mul_upper_bound(segment_rows as int, height as int, segments_per_row as int, width as int);
        vstd::arithmetic::mul::lemma_mul_upper_bound(height as int, u32::MAX as int, width as int, u32::MAX as int);
    }
    let segments_per_mask: u64 = (segment_rows as u64) * (segments_per_row as u64);
    let ghost count = mask_count(width as int, height as int, mask_width as int, mask_height as int);
    assert(segments_per_mask == count) by {
        vstd::arithmetic::mul::lemma_mul_is_commutative(segment_rows as int, segments_per_row as int);
    }
    let n: usize = (width as usize) * (height as usize);
    let mut container = blank_stencil(n);
    let mut base: u64 = start as u64;
    let mut k: usize = 0;
    proof {
        assert forall|x: int, y: int|
            0 <= x < width && 0 <= y < height implies #[trigger] pixel_is(
                container@,
                pos(width as int, x, y),
                mask_grid_index(masks@, 0, start as int, width as int, height as int, x, y),
            ) by {
            lemma_pos_bound(width as int, height as int, x, y);
            assert(pixel_is(container@, pos(width as int, x, y), 0));
        }
    }
    while k < masks.len()
        invariant
            k <= masks@.len(),
            masks_valid(masks@),
            mask_width == masks@[0].width,
            mask_height == masks@[0].height,
            start == mask_start(masks@),
            count == mask_count(width as int, height as int, mask_width as int, mask_height as int),
            segments_per_mask == count,
            base < INDEX_RANGE,
            base == (start + k * count) % (INDEX_RANGE as int),
            container@.len() == 4 * (width * height),
            4 * (width * height) <= usize::MAX,
            forall|x: int, y: int|
                0 <= x < width && 0 <= y < height ==> #[trigger] pixel_is(
                    container@,
                    pos(width as int, x, y),
                    mask_grid_index(masks@, k as int, start as int, width as int, height as int, x, y),
                ),
        decreases masks@.len() - k,
    {
        let ghost before = container@;
        let ghost b = start + k * count;
        assert(b >= 0) by (nonlinear_arith)
            requires
                k >= 0,
                count >= 0,
                b == start + k * count,
                start >= 0,
        {
        }
        paint_mask(&mut container, &masks[k], width, height, base, Ghost(b));
        proof {
            assert forall|x: int, y: int|
                0 <= x < width && 0 <= y < height implies #[trigger] pixel_is(
                    container@,
                    pos(width as int, x, y),
                    mask_grid_index(masks@, k + 1, start as int, width as int, height as int, x, y),
                ) by {
                let m = masks@[k as int];
                assert(pixel_is(before, pos(width as int, x, y), mask_grid_index(masks@, k as int, start as int, width as int, height as int, x, y)));
                if m.at(x % m.width as int, y % m.height as int) {
                } else {
                    assert(same_pixel(container@, before, pos(width as int, x, y)));
                }
            }
            vstd::arithmetic::div_mod::lemma_add_mod_noop(start + k * count, count, INDEX_RANGE as int);
            assert(start + k * count + count == start + (k + 1) * count) by (nonlinear_arith);
        }
        base = (base + segments_per_mask % INDEX_RANGE) % INDEX_RANGE;
        proof {
            vstd::arithmetic::div_mod::lemma_mod_twice(count, INDEX_RANGE as int);
        }
        k = k + 1;
    }
    Ok(container)
}

} // verus!
