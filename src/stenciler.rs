//! The averaging compositor: every pixel of the content image is replaced by
//! the average colour of the content pixels that share its stencil segment.

use vstd::prelude::*;
use crate::codec::{rgb_to_index, INDEX_RANGE};
use crate::generators::StencilError;
use crate::image_tools::RawImage;

verus! {

/// Content pixel `p` takes part in its segment's average: always when alpha is
/// averaged, else only when it is not fully transparent.
pub open spec fn included(content: RawImage, alpha_averaging: bool, p: int) -> bool {
    alpha_averaging || content.alpha(p) != 0
}

/// What content pixel `p` adds to channel `c` of its segment's sum: its colour
/// bytes, and for alpha either its alpha (when averaged) or 255.
pub open spec fn contribution(content: RawImage, alpha_averaging: bool, p: int, c: int) -> int {
    if c < 3 {
        content.channel(p, c) as int
    } else if alpha_averaging {
        content.alpha(p) as int
    } else {
        255
    }
}

/// Number of included pixels among the first `n` whose stencil segment is `s`.
pub open spec fn seg_count(stencil: RawImage, content: RawImage, alpha_averaging: bool, s: int, n: int) -> int
    decreases n,
{
    if n <= 0 {
        0
    } else {
        seg_count(stencil, content, alpha_averaging, s, n - 1) + if stencil.index_at(n - 1) == s && included(
            content,
            alpha_averaging,
            n - 1,
        ) {
            1int
        } else {
            0int
        }
    }
}

/// Sum of channel `c` over the included pixels among the first `n` whose
/// stencil segment is `s`.
pub open spec fn seg_sum(stencil: RawImage, content: RawImage, alpha_averaging: bool, s: int, c: int, n: int) -> int
    decreases n,
{
    if n <= 0 {
        0
    } else {
        seg_sum(stencil, content, alpha_averaging, s, c, n - 1) + if stencil.index_at(n - 1) == s && included(
            content,
            alpha_averaging,
            n - 1,
        ) {
            contribution(content, alpha_averaging, n - 1, c)
        } else {
            0
        }
    }
}

/// Channel `c` of the average colour of segment `s`: the truncated mean over
/// its included pixels, or opaque black when it has none.
pub open spec fn seg_average(stencil: RawImage, content: RawImage, alpha_averaging: bool, s: int, c: int) -> int {
    let n = stencil.pixel_count();
    let count = seg_count(stencil, content, alpha_averaging, s, n);
    if count == 0 {
        if c < 3 { 0 } else { 255 }
    } else {
        seg_sum(stencil, content, alpha_averaging, s, c, n) / count
    }
}

/// A stencil and a content image that the compositor accepts.
pub open spec fn composable(stencil: RawImage, content: RawImage) -> bool {
    &&& stencil.wf()
    &&& content.wf()
    &&& stencil.width == content.width
    &&& stencil.height == content.height
}

/// The composited image: same size as the inputs, four bytes per pixel, every
/// pixel holding its segment's average colour.
pub open spec fn is_composite(stencil: RawImage, content: RawImage, alpha_averaging: bool, out: RawImage) -> bool {
    &&& out.width == stencil.width
    &&& out.height == stencil.height
    &&& out.has_alpha
    &&& out.wf()
    &&& forall|p: int, c: int|
        0 <= p < stencil.pixel_count() && 0 <= c < 4 ==> #[trigger] out.channel(p, c) as int == seg_average(
            stencil,
            content,
            alpha_averaging,
            stencil.index_at(p),
            c,
        )
}

proof fn lemma_sum_bound(stencil: RawImage, content: RawImage, alpha_averaging: bool, s: int, c: int, n: int)
    ensures
        0 <= seg_sum(stencil, content, alpha_averaging, s, c, n) <= 255 * seg_count(
            stencil,
            content,
            alpha_averaging,
            s,
            n,
        ),
        0 <= seg_count(stencil, content, alpha_averaging, s, n) <= if n < 0 { 0 } else { n },
    decreases n,
{
    if n > 0 {
        lemma_sum_bound(stencil, content, alpha_averaging, s, c, n - 1);
    }
}

proof fn lemma_offset(n: int, bpp: int, p: int)
    requires
        0 <= p < n,
        bpp > 0,
    ensures
        0 <= p * bpp,
        p * bpp + bpp <= n * bpp,
        (p + 1) * bpp == p * bpp + bpp,
{
    assert(p * bpp + bpp <= n * bpp && (p + 1) * bpp == p * bpp + bpp && 0 <= p * bpp) by (nonlinear_arith)
        requires
            0 <= p < n,
            bpp > 0,
    ;
}

/// One more than the largest segment index the stencil stores (1 for an empty
/// stencil).
pub fn count_segments(image: &RawImage) -> (r: usize)
    requires
        image.wf(),
    ensures
        1 <= r <= INDEX_RANGE,
        forall|p: int| 0 <= p < image.pixel_count() ==> #[trigger] image.index_at(p) < r,
        r > 1 ==> exists|p: int| 0 <= p < image.pixel_count() && #[trigger] image.index_at(p) == r - 1,
{
    let _len = image.data.len();
    proof {
        image.lemma_pixels_fit();
    }
    let n: usize = (image.width as usize) * (image.height as usize);
    let bpp: usize = if image.has_alpha { 4 } else { 3 };
    let mut max: usize = 0;
    let mut im_index: usize = 0;
    let mut i: usize = 0;
    while i < n
        invariant
            image.wf(),
            n == image.pixel_count(),
            bpp == image.bpp(),
            image.data@.len() <= usize::MAX,
            i <= n,
            im_index == i * bpp,
            max < INDEX_RANGE,
            forall|p: int| 0 <= p < i ==> #[trigger] image.index_at(p) <= max,
            max > 0 ==> exists|p: int| 0 <= p < i && #[trigger] image.index_at(p) == max,
        decreases n - i,
    {
        proof {
            lemma_offset(n as int, bpp as int, i as int);
        }
        let segment_index = rgb_to_index(image.data[im_index], image.data[im_index + 1], image.data[im_index + 2]);
        assert(segment_index == image.index_at(i as int));
        if segment_index > max {
            max = segment_index;
        }
        im_index = im_index + bpp;
        i = i + 1;
    }
    max + 1
}

/// The average colour of every segment below `num_segments`, four bytes each:
/// channel `c` of segment `s` at `4 s + c`.
pub fn cpu_averager(grid_image: &RawImage, num_segments: usize, alpha_averaging: bool, line_image: &RawImage) -> (averages: Vec<u8>)
    requires
        composable(*grid_image, *line_image),
        4 * num_segments <= usize::MAX,
        forall|p: int| 0 <= p < grid_image.pixel_count() ==> #[trigger] grid_image.index_at(p) < num_segments,
    ensures
        averages@.len() == 4 * num_segments,
        forall|s: int, c: int|
            0 <= s < num_segments && 0 <= c < 4 ==> #[trigger] averages@[4 * s + c] as int == seg_average(
                *grid_image,
                *line_image,
                alpha_averaging,
                s,
                c,
            ),
{
    let ghost st = *grid_image;
    let ghost ct = *line_image;
    let ghost aa = alpha_averaging;
    let mut sum_vec: Vec<u128> = vec![0u128; num_segments * 4];
    let mut count_vec: Vec<u64> = vec![0u64; num_segments];
    let _l1 = grid_image.data.len();
    let _l2 = line_image.data.len();
    proof {
        grid_image.lemma_pixels_fit();
    }
    let n: usize = (grid_image.width as usize) * (grid_image.height as usize);
    let grid_bpp: usize = if grid_image.has_alpha { 4 } else { 3 };
    let line_bpp: usize = if line_image.has_alpha { 4 } else { 3 };
    let mut grid_index: usize = 0;
    let mut line_index: usize = 0;
    let mut i: usize = 0;
    while i < n
        invariant
            composable(st, ct),
            st == *grid_image,
            ct == *line_image,
            aa == alpha_averaging,
            n == st.pixel_count(),
            n == ct.pixel_count(),
            grid_bpp == st.bpp(),
            line_bpp == ct.bpp(),
            st.data@.len() <= usize::MAX,
            ct.data@.len() <= usize::MAX,
            4 * num_segments <= usize::MAX,
            forall|p: int| 0 <= p < n ==> #[trigger] st.index_at(p) < num_segments,
            i <= n,
            grid_index == i * grid_bpp,
            line_index == i * line_bpp,
            sum_vec@.len() == 4 * num_segments,
            count_vec@.len() == num_segments,
            forall|s: int, c: int|
                0 <= s < num_segments && 0 <= c < 4 ==> sum_vec@[4 * s + c] as int == #[trigger] seg_sum(
                    st,
                    ct,
                    aa,
                    s,
                    c,
                    i as int,
                ),
            forall|s: int|
                0 <= s < num_segments ==> count_vec@[s] as int == #[trigger] seg_count(st, ct, aa, s, i as int),
        decreases n - i,
    {
        proof {
            lemma_offset(n as int, grid_bpp as int, i as int);
            lemma_offset(n as int, line_bpp as int, i as int);
        }
        let segment_index = rgb_to_index(
            grid_image.data[grid_index],
            grid_image.data[grid_index + 1],
            grid_image.data[grid_index + 2],
        );
        assert(segment_index == st.index_at(i as int));
        let sum_index = segment_index * 4;
        let alpha: u8 = if line_image.has_alpha { line_image.data[line_index + 3] } else { 255 };
        let ghost before_sum = sum_vec@;
        let ghost before_count = count_vec@;
        if alpha_averaging || alpha != 0 {
            proof {
                lemma_sum_bound(st, ct, aa, segment_index as int, 0, i as int);
                lemma_sum_bound(st, ct, aa, segment_index as int, 1, i as int);
                lemma_sum_bound(st, ct, aa, segment_index as int, 2, i as int);
                lemma_sum_bound(st, ct, aa, segment_index as int, 3, i as int);
                assert(seg_sum(st, ct, aa, segment_index as int, 0, i as int) == sum_vec@[4 * segment_index + 0]);
                assert(seg_sum(st, ct, aa, segment_index as int, 1, i as int) == sum_vec@[4 * segment_index + 1]);
                assert(seg_sum(st, ct, aa, segment_index as int, 2, i as int) == sum_vec@[4 * segment_index + 2]);
                assert(seg_sum(st, ct, aa, segment_index as int, 3, i as int) == sum_vec@[4 * segment_index + 3]);
                assert(seg_count(st, ct, aa, segment_index as int, i as int) == count_vec@[segment_index as int]);
                assert(255 * (u64::MAX as int) < u128::MAX);
            }
            let alpha_part: u128 = if alpha_averaging { alpha as u128 } else { 255 };
            let s0 = sum_vec[sum_index] + line_image.data[line_index] as u128;
            sum_vec.set(sum_index, s0);
            let s1 = sum_vec[sum_index + 1] + line_image.data[line_index + 1] as u128;
            sum_vec.set(sum_index + 1, s1);
            let s2 = sum_vec[sum_index + 2] + line_image.data[line_index + 2] as u128;
            sum_vec.set(sum_index + 2, s2);
            let s3 = sum_vec[sum_index + 3] + alpha_part;
            sum_vec.set(sum_index + 3, s3);
            let c = count_vec[segment_index] + 1;
            count_vec.set(segment_index, c);
        }
        proof {
            let si = segment_index as int;
            assert forall|s: int, c: int|
                0 <= s < num_segments && 0 <= c < 4 implies sum_vec@[4 * s + c] as int == #[trigger] seg_sum(
                    st,
                    ct,
                    aa,
                    s,
                    c,
                    i + 1,
                ) by {
                assert(before_sum[4 * s + c] as int == seg_sum(st, ct, aa, s, c, i as int));
            }
            assert forall|s: int| 0 <= s < num_segments implies count_vec@[s] as int == #[trigger] seg_count(
                st,
                ct,
                aa,
                s,
                i + 1,
            ) by {
                assert(before_count[s] as int == seg_count(st, ct, aa, s, i as int));
            }
        }
        grid_index = grid_index + grid_bpp;
        line_index = line_index + line_bpp;
        i = i + 1;
    }
    let mut averages: Vec<u8> = Vec::with_capacity(4 * num_segments);
    let mut s: usize = 0;
    while s < num_segments
        invariant
            s <= num_segments,
            4 * num_segments <= usize::MAX,
            n == st.pixel_count(),
            sum_vec@.len() == 4 * num_segments,
            count_vec@.len() == num_segments,
            forall|s: int, c: int|
                0 <= s < num_segments && 0 <= c < 4 ==> sum_vec@[4 * s + c] as int == #[trigger] seg_sum(
                    st,
                    ct,
                    aa,
                    s,
                    c,
                    n as int,
                ),
            forall|s: int|
                0 <= s < num_segments ==> count_vec@[s] as int == #[trigger] seg_count(st, ct, aa, s, n as int),
            averages@.len() == 4 * s,
            forall|t: int, c: int|
                0 <= t < s && 0 <= c < 4 ==> #[trigger] averages@[4 * t + c] as int == seg_average(st, ct, aa, t, c),
        decreases num_segments - s,
    {
        let count = count_vec[s];
        assert(count as int == seg_count(st, ct, aa, s as int, n as int));
        let ghost before = averages@;
        if count == 0 {
            averages.push(0);
            averages.push(0);
            averages.push(0);
            averages.push(255);
        } else {
            let mut c: usize = 0;
            while c < 4
                invariant
                    c <= 4,
                    s < num_segments,
                    4 * num_segments <= usize::MAX,
                    n == st.pixel_count(),
                    count > 0,
                    count as int == seg_count(st, ct, aa, s as int, n as int),
                    sum_vec@.len() == 4 * num_segments,
                    forall|s: int, c: int|
                        0 <= s < num_segments && 0 <= c < 4 ==> sum_vec@[4 * s + c] as int == #[trigger] seg_sum(
                            st,
                            ct,
                            aa,
                            s,
                            c,
                            n as int,
                        ),
                    averages@.len() == 4 * s + c,
                    averages@.subrange(0, 4 * s as int) == before,
                    forall|k: int| 0 <= k < c ==> #[trigger] averages@[4 * s + k] as int == seg_average(st, ct, aa, s as int, k),
                decreases 4 - c,
            {
                let sum = sum_vec[4 * s + c];
                proof {
                    lemma_sum_bound(st, ct, aa, s as int, c as int, n as int);
                    assert(sum as int == seg_sum(st, ct, aa, s as int, c as int, n as int));
                    assert(sum / (count as u128) <= 255) by (nonlinear_arith)
                        requires
                            sum <= 255 * count,
                            count > 0,
                    {
                        vstd::arithmetic::div_mod::lemma_div_is_ordered(sum as int, 255 * count as int, count as int);
                        vstd::arithmetic::div_mod::lemma_div_multiples_vanish(255, count as int);
                    }
                }
                let ghost prev = averages@;
                averages.push((sum / (count as u128)) as u8);
                proof {
                    assert(averages@.subrange(0, 4 * s as int) =~= prev.subrange(0, 4 * s as int));
                    assert forall|k: int| 0 <= k < c + 1 implies #[trigger] averages@[4 * s + k] as int == seg_average(st, ct, aa, s as int, k) by {
                        if k < c {
                            assert(averages@[4 * s + k] == prev[4 * s + k]);
                        }
                    }
                }
                c = c + 1;
            }
        }
        proof {
            assert forall|t: int, c: int|
                0 <= t < s + 1 && 0 <= c < 4 implies #[trigger] averages@[4 * t + c] as int == seg_average(st, ct, aa, t, c) by {
                if t < s {
                    assert(averages@.subrange(0, 4 * s as int)[4 * t + c] == before[4 * t + c]);
                    assert(averages@[4 * t + c] == before[4 * t + c]);
                }
            }
        }
        s = s + 1;
    }
    averages
}

/// Paints every pixel with the four average bytes of its stencil segment.
pub fn cpu_render_to_buffer(grid_image: &RawImage, averages: &Vec<u8>) -> (ret: Vec<u8>)
    requires
        grid_image.wf(),
        4 * grid_image.pixel_count() <= usize::MAX,
        forall|p: int| 0 <= p < grid_image.pixel_count() ==> 4 * #[trigger] grid_image.index_at(p) + 4 <= averages@.len(),
    ensures
        ret@.len() == 4 * grid_image.pixel_count(),
        forall|p: int, c: int|
            0 <= p < grid_image.pixel_count() && 0 <= c < 4 ==> #[trigger] ret@[4 * p + c] == averages@[4
                * grid_image.index_at(p) + c],
{
    let _l1 = grid_image.data.len();
    proof {
        grid_image.lemma_pixels_fit();
    }
    let n: usize = (grid_image.width as usize) * (grid_image.height as usize);
    let bpp: usize = if grid_image.has_alpha { 4 } else { 3 };
    let mut ret_vector: Vec<u8> = Vec::with_capacity(4 * n);
    let mut grid_index: usize = 0;
    let mut i: usize = 0;
    while i < n
        invariant
            grid_image.wf(),
            n == grid_image.pixel_count(),
            bpp == grid_image.bpp(),
            grid_image.data@.len() <= usize::MAX,
            forall|p: int| 0 <= p < n ==> 4 * #[trigger] grid_image.index_at(p) + 4 <= averages@.len(),
            i <= n,
            grid_index == i * bpp,
            ret_vector@.len() == 4 * i,
            forall|p: int, c: int|
                0 <= p < i && 0 <= c < 4 ==> #[trigger] ret_vector@[4 * p + c] == averages@[4
                    * grid_image.index_at(p) + c],
        decreases n - i,
    {
        proof {
            lemma_offset(n as int, bpp as int, i as int);
        }
        let segment_index = rgb_to_index(
            grid_image.data[grid_index],
            grid_image.data[grid_index + 1],
            grid_image.data[grid_index + 2],
        );
        assert(segment_index == grid_image.index_at(i as int));
        let a = segment_index * 4;
        let ghost before = ret_vector@;
        ret_vector.push(averages[a]);
        ret_vector.push(averages[a + 1]);
        ret_vector.push(averages[a + 2]);
        ret_vector.push(averages[a + 3]);
        proof {
            assert forall|p: int, c: int|
                0 <= p < i + 1 && 0 <= c < 4 implies #[trigger] ret_vector@[4 * p + c] == averages@[4
                    * grid_image.index_at(p) + c] by {
                if p < i {
                    assert(ret_vector@[4 * p + c] == before[4 * p + c]);
                }
            }
        }
        grid_index = grid_index + bpp;
        i = i + 1;
    }
    ret_vector
}

/// Composites `line_image` through the stencil `grid_image`: every pixel gets
/// the average colour of its segment (see `is_composite`). Fails with
/// `DimensionMismatch`, producing nothing, when the two images differ in size,
/// and with `ZeroSize` when they have no pixels.
pub fn cpu_pipeline(grid_image: &RawImage, alpha_averaging: bool, line_image: &RawImage) -> (r: Result<RawImage, StencilError>)
    requires
        grid_image.wf(),
        line_image.wf(),
        4 * grid_image.pixel_count() <= usize::MAX,
    ensures
        r is Err <==> grid_image.width != line_image.width || grid_image.height != line_image.height
            || grid_image.pixel_count() == 0,
        grid_image.width != line_image.width || grid_image.height != line_image.height ==> r == Err::<
            RawImage,
            StencilError,
        >(StencilError::DimensionMismatch),
        grid_image.width == line_image.width && grid_image.height == line_image.height
            && grid_image.pixel_count() == 0 ==> r == Err::<RawImage, StencilError>(StencilError::ZeroSize),
        r matches Ok(out) ==> is_composite(*grid_image, *line_image, alpha_averaging, out),
{
    if grid_image.width != line_image.width || grid_image.height != line_image.height {
        return Err(StencilError::DimensionMismatch);
    }
    if grid_image.width == 0 || grid_image.height == 0 {
        return Err(StencilError::ZeroSize);
    }
    assert(grid_image.pixel_count() > 0) by (nonlinear_arith)
        requires
            grid_image.width > 0,
            grid_image.height > 0,
            grid_image.pixel_count() == grid_image.width * grid_image.height,
    ;
    let num_segments = count_segments(grid_image);
    let averages = cpu_averager(grid_image, num_segments, alpha_averaging, line_image);
    let buffer = cpu_render_to_buffer(grid_image, &averages);
    let out = RawImage { width: grid_image.width, height: grid_image.height, has_alpha: true, data: buffer };
    proof {
        assert forall|p: int, c: int|
            0 <= p < grid_image.pixel_count() && 0 <= c < 4 implies #[trigger] out.channel(p, c) as int
                == seg_average(*grid_image, *line_image, alpha_averaging, grid_image.index_at(p), c) by {
            assert(out.channel(p, c) == buffer@[4 * p + c]);
            assert(grid_image.index_at(p) < num_segments);
        }
    }
    Ok(out)
}

proof fn lemma_no_included_pixels(stencil: RawImage, content: RawImage, s: int, c: int, n: int)
    requires
        forall|p: int| 0 <= p < n && #[trigger] stencil.index_at(p) == s ==> content.alpha(p) == 0,
    ensures
        seg_count(stencil, content, false, s, n) == 0,
        seg_sum(stencil, content, false, s, c, n) == 0,
    decreases n,
{
    if n > 0 {
        lemma_no_included_pixels(stencil, content, s, c, n - 1);
    }
}

/// Without alpha averaging, a segment whose content pixels are all fully
/// transparent renders as opaque black.
pub proof fn lemma_transparent_segment_is_black(stencil: RawImage, content: RawImage, out: RawImage, s: int, c: int)
    requires
        is_composite(stencil, content, false, out),
        forall|p: int| 0 <= p < stencil.pixel_count() && #[trigger] stencil.index_at(p) == s ==> content.alpha(p) == 0,
        0 <= c < 4,
    ensures
        seg_average(stencil, content, false, s, c) == if c < 3 { 0int } else { 255int },
        forall|p: int|
            0 <= p < stencil.pixel_count() && stencil.index_at(p) == s ==> #[trigger] out.channel(p, c) == if c
                < 3 {
                0int
            } else {
                255int
            },
{
    lemma_no_included_pixels(stencil, content, s, c, stencil.pixel_count());
}

proof fn lemma_transparent_ignored_upto(stencil: RawImage, a: RawImage, b: RawImage, s: int, c: int, n: int)
    requires
        forall|p: int| 0 <= p < n ==> #[trigger] a.alpha(p) == b.alpha(p),
        forall|p: int| 0 <= p < n && #[trigger] a.alpha(p) != 0 ==> a.same_rgb(p, b.channel(p, 0), b.channel(p, 1), b.channel(p, 2)),
        0 <= c < 4,
    ensures
        seg_count(stencil, a, false, s, n) == seg_count(stencil, b, false, s, n),
        seg_sum(stencil, a, false, s, c, n) == seg_sum(stencil, b, false, s, c, n),
    decreases n,
{
    if n > 0 {
        lemma_transparent_ignored_upto(stencil, a, b, s, c, n - 1);
        assert(a.alpha(n - 1) == b.alpha(n - 1));
    }
}

/// Without alpha averaging, fully transparent content pixels take part in no
/// average: two content images that differ only in the colour of such pixels
/// give every segment the same average.
pub proof fn lemma_transparent_pixels_ignored(stencil: RawImage, a: RawImage, b: RawImage, s: int, c: int)
    requires
        forall|p: int| 0 <= p < stencil.pixel_count() ==> #[trigger] a.alpha(p) == b.alpha(p),
        forall|p: int|
            0 <= p < stencil.pixel_count() && #[trigger] a.alpha(p) != 0 ==> a.same_rgb(
                p,
                b.channel(p, 0),
                b.channel(p, 1),
                b.channel(p, 2),
            ),
        0 <= c < 4,
    ensures
        seg_average(stencil, a, false, s, c) == seg_average(stencil, b, false, s, c),
{
    lemma_transparent_ignored_upto(stencil, a, b, s, c, stencil.pixel_count());
}

/// Every included pixel of segment `s` contributes `v` to channel `c`.
pub open spec fn uniform_channel(stencil: RawImage, content: RawImage, alpha_averaging: bool, s: int, c: int, v: int) -> bool {
    forall|p: int|
        0 <= p < stencil.pixel_count() && #[trigger] stencil.index_at(p) == s && included(content, alpha_averaging, p)
            ==> contribution(content, alpha_averaging, p, c) == v
}

proof fn lemma_uniform_sum(stencil: RawImage, content: RawImage, alpha_averaging: bool, s: int, c: int, v: int, n: int)
    requires
        n <= stencil.pixel_count(),
        uniform_channel(stencil, content, alpha_averaging, s, c, v),
    ensures
        seg_sum(stencil, content, alpha_averaging, s, c, n) == v * seg_count(stencil, content, alpha_averaging, s, n),
    decreases n,
{
    if n > 0 {
        lemma_uniform_sum(stencil, content, alpha_averaging, s, c, v, n - 1);
        let k = seg_count(stencil, content, alpha_averaging, s, n - 1);
        assert(v * k + v == v * (k + 1)) by (nonlinear_arith);
    }
}

/// A segment whose included content pixels all share one value in channel
/// `c`, and that has at least one included pixel, averages to exactly that
/// value; so every pixel of the segment gets it in the composited image.
pub proof fn lemma_uniform_segment(stencil: RawImage, content: RawImage, alpha_averaging: bool, out: RawImage, s: int, c: int, v: int, q: int)
    requires
        is_composite(stencil, content, alpha_averaging, out),
        uniform_channel(stencil, content, alpha_averaging, s, c, v),
        0 <= q < stencil.pixel_count(),
        stencil.index_at(q) == s,
        included(content, alpha_averaging, q),
        0 <= c < 4,
    ensures
        seg_average(stencil, content, alpha_averaging, s, c) == v,
        forall|p: int| 0 <= p < stencil.pixel_count() && stencil.index_at(p) == s ==> #[trigger] out.channel(p, c) == v,
{
    let n = stencil.pixel_count();
    lemma_uniform_sum(stencil, content, alpha_averaging, s, c, v, n);
    lemma_count_positive(stencil, content, alpha_averaging, s, q, n);
    let k = seg_count(stencil, content, alpha_averaging, s, n);
    assert((v * k) / k == v) by {
        vstd::arithmetic::div_mod::lemma_div_multiples_vanish(v, k);
        vstd::arithmetic::mul::lemma_mul_is_commutative(v, k);
    }
}

proof fn lemma_count_positive(stencil: RawImage, content: RawImage, alpha_averaging: bool, s: int, q: int, n: int)
    requires
        0 <= q < n,
        stencil.index_at(q) == s,
        included(content, alpha_averaging, q),
    ensures
        seg_count(stencil, content, alpha_averaging, s, n) > 0,
    decreases n,
{
    if n - 1 > q {
        lemma_count_positive(stencil, content, alpha_averaging, s, q, n - 1);
    }
    lemma_sum_bound(stencil, content, alpha_averaging, s, 0, n - 1);
}

} // verus!
