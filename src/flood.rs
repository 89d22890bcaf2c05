//! The flood-fill segmenter: every 4-connected region of one colour becomes a
//! segment, numbered in the row-major order of its first pixel.

use vstd::prelude::*;
use crate::codec::{lemma_encode_decode, rgb_to_index, INDEX_RANGE};
use crate::image_tools::RawImage;
use crate::stencil::{blank_stencil, fill_pixel, pixel_is};

verus! {

/// Pixels `a` and `b` of a canvas `w` pixels wide and `n` pixels in all are
/// 4-neighbours.
pub open spec fn adjacent(w: int, n: int, a: int, b: int) -> bool {
    &&& 0 <= a < n
    &&& 0 <= b < n
    &&& {
        ||| (b == a - 1 && a % w > 0)
        ||| (b == a + 1 && a % w + 1 < w)
        ||| b == a - w
        ||| b == a + w
    }
}

/// Pixels `a` and `b` are 4-neighbours of the same colour.
pub open spec fn linked(img: RawImage, a: int, b: int) -> bool {
    &&& adjacent(img.width as int, img.pixel_count(), a, b)
    &&& img.index_at(a) == img.index_at(b)
}

/// Each pixel of `path` is linked to the next.
pub open spec fn is_path(img: RawImage, path: Seq<int>) -> bool {
    &&& path.len() > 0
    &&& forall|i: int| 0 <= i < path.len() - 1 ==> #[trigger] linked(img, path[i], path[i + 1])
}

/// A path of same-coloured 4-neighbours leads from `a` to `b`.
pub open spec fn connected(img: RawImage, a: int, b: int) -> bool {
    exists|path: Seq<int>| #[trigger] is_path(img, path) && path[0] == a && path.last() == b
}

/// `labels` gives each pixel its segment and `seeds[l]` is the first pixel of
/// segment `l`: every segment is one 4-connected region of one colour, closed
/// under same-coloured neighbours, and segments are numbered in the row-major
/// order of their first pixels.
pub open spec fn is_flood_labelling(img: RawImage, labels: Seq<int>, seeds: Seq<int>) -> bool {
    let n = img.pixel_count();
    &&& labels.len() == n
    &&& forall|p: int| 0 <= p < n ==> 0 <= #[trigger] labels[p] < seeds.len() && labels[p] <= p
    &&& forall|l: int| 0 <= l < seeds.len() ==> 0 <= #[trigger] seeds[l] < n && labels[seeds[l]] == l
    &&& forall|l: int, q: int| 0 <= l < seeds.len() && 0 <= q < #[trigger] seeds[l] ==> #[trigger] labels[q] < l
    &&& forall|p: int, q: int| #[trigger] linked(img, p, q) ==> labels[p] == labels[q]
    &&& forall|p: int|
        0 <= p < n ==> img.index_at(p) == img.index_at(seeds[#[trigger] labels[p]]) && connected(
            img,
            seeds[labels[p]],
            p,
        )
}

/// `out` is a flood-fill stencil of `img`: same size, opaque, and each pixel
/// storing its segment under some flood labelling.
pub open spec fn is_flood_stencil(img: RawImage, out: RawImage) -> bool {
    &&& out.width == img.width
    &&& out.height == img.height
    &&& out.has_alpha
    &&& out.wf()
    &&& exists|labels: Seq<int>, seeds: Seq<int>|
        #[trigger] is_flood_labelling(img, labels, seeds) && forall|p: int|
            0 <= p < img.pixel_count() ==> #[trigger] pixel_is(out.data@, p, labels[p])
}

proof fn lemma_adjacent_symmetric(w: int, n: int, a: int, b: int)
    requires
        w > 0,
        adjacent(w, n, a, b),
    ensures
        adjacent(w, n, b, a),
{
    vstd::arithmetic::div_mod::lemma_fundamental_div_mod(a, w);
    vstd::arithmetic::div_mod::lemma_mod_bound(a, w);
    if b == a - 1 && a % w > 0 {
        vstd::arithmetic::div_mod::lemma_fundamental_div_mod_converse(a - 1, w, a / w, a % w - 1);
    } else if b == a + 1 && a % w + 1 < w {
        vstd::arithmetic::div_mod::lemma_fundamental_div_mod_converse(a + 1, w, a / w, a % w + 1);
    }
}

/// Pixel `c` is on the stack.
spec fn on_stack(stack: Seq<usize>, c: int) -> bool {
    exists|i: int| 0 <= i < stack.len() && #[trigger] stack[i] as int == c
}

/// Unfilled pixels among the first `n`.
spec fn unfilled(filled: Seq<bool>, n: int) -> nat
    decreases n,
{
    if n <= 0 {
        0
    } else {
        unfilled(filled, n - 1) + if filled[n - 1] { 0nat } else { 1nat }
    }
}

proof fn lemma_unfilled_fill(filled: Seq<bool>, i: int, n: int)
    requires
        0 <= i < n <= filled.len(),
        !filled[i],
    ensures
        unfilled(filled.update(i, true), n) + 1 == unfilled(filled, n),
    decreases n,
{
    if n - 1 > i {
        lemma_unfilled_fill(filled, i, n - 1);
    } else {
        assert(unfilled(filled.update(i, true), n - 1) == unfilled(filled, n - 1)) by {
            lemma_unfilled_same_prefix(filled.update(i, true), filled, n - 1);
        }
    }
}

proof fn lemma_unfilled_same_prefix(a: Seq<bool>, b: Seq<bool>, n: int)
    requires
        n <= a.len(),
        n <= b.len(),
        forall|j: int| 0 <= j < n ==> a[j] == b[j],
    ensures
        unfilled(a, n) == unfilled(b, n),
    decreases n,
{
    if n > 0 {
        lemma_unfilled_same_prefix(a, b, n - 1);
    }
}

proof fn lemma_right_neighbour(w: int, h: int, b: int)
    requires
        w > 0,
        0 <= b < w * h,
        b % w + 1 < w,
    ensures
        b + 1 < w * h,
{
    vstd::arithmetic::div_mod::lemma_fundamental_div_mod(b, w);
    let q = b / w;
    assert(q < h) by (nonlinear_arith)
        requires
            b == w * q + b % w,
            b % w >= 0,
            b < w * h,
            w > 0,
    {
        if q >= h {
            assert(w * q >= w * h);
        }
    }
    assert(b + 1 < w * h) by (nonlinear_arith)
        requires
            b == w * q + b % w,
            b % w + 1 < w,
            q < h,
            w > 0,
    {
        assert(w * q + w <= w * h);
    }
}

proof fn lemma_path_extend(img: RawImage, s: int, a: int, b: int)
    requires
        connected(img, s, a),
        linked(img, a, b),
    ensures
        connected(img, s, b),
{
    let path = choose|path: Seq<int>| #[trigger] is_path(img, path) && path[0] == s && path.last() == a;
    let longer = path.push(b);
    assert forall|i: int| 0 <= i < longer.len() - 1 implies #[trigger] linked(img, longer[i], longer[i + 1]) by {
        if i < path.len() - 1 {
            assert(linked(img, path[i], path[i + 1]));
        }
    }
    assert(is_path(img, longer));
}

proof fn lemma_path_single(img: RawImage, s: int)
    ensures
        connected(img, s, s),
{
    let path = seq![s];
    assert(is_path(img, path));
}

/// Floods the region of `s`'s colour that is 4-connected to `s`, giving every
/// pixel of it the segment `label`.
fn fill_from(colours: &Vec<usize>, filled: &mut Vec<bool>, labels: &mut Vec<usize>, s: usize, label: usize, width: usize, Ghost(img): Ghost<RawImage>)
    requires
        width > 0,
        img.width as int == width,
        colours@.len() == img.pixel_count(),
        forall|a: int| 0 <= a < colours@.len() ==> #[trigger] colours@[a] as int == img.index_at(a),
        old(filled)@.len() == colours@.len(),
        old(labels)@.len() == colours@.len(),
        s < colours@.len(),
        !old(filled)@[s as int],
        forall|a: int, b: int|
            old(filled)@[a] && #[trigger] linked(img, a, b) ==> old(filled)@[b] && old(labels)@[a] == old(labels)@[b],
    ensures
        final(filled)@.len() == old(filled)@.len(),
        final(labels)@.len() == old(labels)@.len(),
        forall|a: int|
            0 <= a < colours@.len() && #[trigger] old(filled)@[a] ==> final(filled)@[a] && final(labels)@[a] == old(labels)@[a],
        forall|a: int|
            0 <= a < colours@.len() && #[trigger] final(filled)@[a] && !old(filled)@[a] ==> final(labels)@[a] == label
                && img.index_at(a) == img.index_at(s as int) && connected(img, s as int, a),
        final(filled)@[s as int],
        forall|a: int, b: int|
            final(filled)@[a] && #[trigger] linked(img, a, b) ==> final(filled)@[b] && final(labels)@[a]
                == final(labels)@[b],
{
    let n = colours.len();
    let ghost old_f = filled@;
    let ghost old_l = labels@;
    let ghost w = width as int;
    let mut stack: Vec<usize> = Vec::new();
    stack.push(s);
    assert(stack@[0] == s);
    while stack.len() > 0
        invariant
            width > 0,
            w == width,
            img.width as int == width,
            n == colours@.len(),
            n == img.pixel_count(),
            forall|a: int| 0 <= a < n ==> #[trigger] colours@[a] as int == img.index_at(a),
            filled@.len() == n,
            labels@.len() == n,
            old_f.len() == n,
            old_l.len() == n,
            s < n,
            !old_f[s as int],
            forall|a: int, b: int| old_f[a] && #[trigger] linked(img, a, b) ==> old_f[b] && old_l[a] == old_l[b],
            forall|a: int| 0 <= a < n && #[trigger] old_f[a] ==> filled@[a] && labels@[a] == old_l[a],
            forall|a: int|
                0 <= a < n && #[trigger] filled@[a] && !old_f[a] ==> labels@[a] == label && img.index_at(a)
                    == img.index_at(s as int) && connected(img, s as int, a),
            forall|a: int, b: int|
                filled@[a] && !old_f[a] && #[trigger] linked(img, a, b) ==> (filled@[b] && !old_f[b])
                    || on_stack(stack@, b),
            forall|i: int|
                0 <= i < stack@.len() ==> #[trigger] stack@[i] < n && (stack@[i] == s || exists|a: int|
                    0 <= a < n && filled@[a] && !old_f[a] && #[trigger] adjacent(w, n as int, a, stack@[i] as int)),
            filled@[s as int] || on_stack(stack@, s as int),
        decreases unfilled(filled@, n as int), stack@.len(),
    {
        let ghost old_stack = stack@;
        let ghost before_f = filled@;
        let ghost before_l = labels@;
        let b = stack.pop().unwrap();
        assert(old_stack[old_stack.len() - 1] == b);
        assert(b < n);
        if !filled[b] && colours[b] == colours[s] {
            proof {
                lemma_unfilled_fill(filled@, b as int, n as int);
                if b != s {
                    let a = choose|a: int|
                        0 <= a < n && before_f[a] && !old_f[a] && #[trigger] adjacent(w, n as int, a, b as int);
                    assert(linked(img, a, b as int));
                    lemma_path_extend(img, s as int, a, b as int);
                } else {
                    lemma_path_single(img, s as int);
                }
            }
            filled.set(b, true);
            labels.set(b, label);
            let ghost mid = stack@;
            let x = b % width;
            proof {
                if b == 0 {
                    vstd::arithmetic::div_mod::lemma_small_mod(0, width as nat);
                }
                if x + 1 < width {
                    lemma_right_neighbour(w, img.height as int, b as int);
                }
            }
            if x > 0 {
                stack.push(b - 1);
            }
            if x + 1 < width {
                stack.push(b + 1);
            }
            if b >= width {
                stack.push(b - width);
            }
            if width <= n && b < n - width {
                stack.push(b + width);
            }
            proof {
                assert forall|c: int| #[trigger] adjacent(w, n as int, b as int, c) implies on_stack(stack@, c) by {
                    if c == b - 1 && (b as int) % w > 0 {
                        assert(stack@[mid.len() as int] == c);
                    } else if c == b + 1 && (b as int) % w + 1 < w {
                        let k = if x > 0 { 1int } else { 0int };
                        assert(stack@[mid.len() + k] == c);
                    } else if c == b - w {
                        let k = (if x > 0 { 1int } else { 0int }) + (if x + 1 < width { 1int } else { 0int });
                        assert(stack@[mid.len() + k] == c);
                    } else {
                        let k = (if x > 0 { 1int } else { 0int }) + (if x + 1 < width { 1int } else { 0int })
                            + (if b >= width { 1int } else { 0int });
                        assert(stack@[mid.len() + k] == c);
                    }
                }
                assert forall|i: int| 0 <= i < mid.len() implies stack@[i] == mid[i] by {}
                assert forall|i: int| mid.len() <= i < stack@.len() implies #[trigger] adjacent(w, n as int, b as int, stack@[i] as int) by {}
            }
        }
        proof {
            let st = stack@;
            assert forall|c: int| on_stack(old_stack, c) && c != b implies on_stack(stack@, c) by {
                let i = choose|i: int| 0 <= i < old_stack.len() && #[trigger] old_stack[i] as int == c;
                assert(i < old_stack.len() - 1);
                assert(stack@[i] == c);
            }
            assert forall|a: int, c: int|
                filled@[a] && !old_f[a] && #[trigger] linked(img, a, c) implies (filled@[c] && !old_f[c])
                    || on_stack(stack@, c) by {
                if a == b && !before_f[b as int] {
                    assert(adjacent(w, n as int, b as int, c));
                } else {
                    assert(before_f[a]);
                    if c == b {
                        lemma_adjacent_symmetric(w, n as int, a, c);
                        assert(linked(img, c, a));
                    }
                }
            }
            assert forall|i: int|
                0 <= i < stack@.len() implies #[trigger] stack@[i] < n && (stack@[i] == s || exists|a: int|
                    0 <= a < n && filled@[a] && !old_f[a] && #[trigger] adjacent(w, n as int, a, stack@[i] as int)) by {
                if i < old_stack.len() - 1 {
                    assert(stack@[i] == old_stack[i]);
                    assert(old_stack[i] < n && (old_stack[i] == s || exists|a: int|
                        0 <= a < n && before_f[a] && !old_f[a] && #[trigger] adjacent(w, n as int, a, old_stack[i] as int)));
                } else {
                    assert(adjacent(w, n as int, b as int, stack@[i] as int));
                }
            }
            if !filled@[s as int] {
                assert(on_stack(old_stack, s as int));
                assert(s != b);
            }
        }
    }
}

/// The segment index of every pixel of `image`, read from its colour bytes.
fn pixel_colours(image: &RawImage) -> (colours: Vec<usize>)
    requires
        image.wf(),
    ensures
        colours@.len() == image.pixel_count(),
        forall|a: int| 0 <= a < colours@.len() ==> #[trigger] colours@[a] as int == image.index_at(a),
{
    let _len = image.data.len();
    proof {
        image.lemma_pixels_fit();
    }
    let n: usize = (image.width as usize) * (image.height as usize);
    let bpp: usize = if image.has_alpha { 4 } else { 3 };
    let mut colours: Vec<usize> = Vec::with_capacity(n);
    let mut i: usize = 0;
    let mut im_index: usize = 0;
    while i < n
        invariant
            image.wf(),
            n == image.pixel_count(),
            bpp == image.bpp(),
            image.data@.len() <= usize::MAX,
            i <= n,
            im_index == i * bpp,
            colours@.len() == i,
            forall|a: int| 0 <= a < i ==> #[trigger] colours@[a] as int == image.index_at(a),
        decreases n - i,
    {
        assert(i * bpp + bpp <= n * bpp && (i + 1) * bpp == i * bpp + bpp) by (nonlinear_arith)
            requires
                i < n,
                bpp > 0,
        ;
        let c = rgb_to_index(image.data[im_index], image.data[im_index + 1], image.data[im_index + 2]);
        colours.push(c);
        im_index = im_index + bpp;
        i = i + 1;
    }
    colours
}

/// Labels every 4-connected region of one colour of `input_im` as a segment,
/// numbered from 0 in the row-major order of each region's first pixel, and
/// returns the stencil that stores those labels.
pub fn fill_bucket_grid(input_im: &RawImage) -> (out: RawImage)
    requires
        input_im.wf(),
        4 * input_im.pixel_count() <= usize::MAX,
    ensures
        is_flood_stencil(*input_im, out),
{
    let ghost img = *input_im;
    let colours = pixel_colours(input_im);
    let n = colours.len();
    let width = input_im.width as usize;
    let mut is_filled: Vec<bool> = vec![false; n];
    let mut labels: Vec<usize> = vec![0usize; n];
    let ghost mut seeds: Seq<int> = Seq::empty();
    let mut segment_index: usize = 0;
    let mut p: usize = 0;
    while p < n
        invariant
            img == *input_im,
            img.wf(),
            width == img.width,
            n == img.pixel_count(),
            4 * n <= usize::MAX,
            colours@.len() == n,
            forall|a: int| 0 <= a < n ==> #[trigger] colours@[a] as int == img.index_at(a),
            is_filled@.len() == n,
            labels@.len() == n,
            p <= n,
            forall|a: int| 0 <= a < p ==> #[trigger] is_filled@[a],
            forall|a: int| 0 <= a < n && #[trigger] is_filled@[a] ==> labels@[a] < segment_index && labels@[a] <= a,
            seeds.len() == segment_index,
            segment_index <= p,
            forall|l: int|
                0 <= l < segment_index ==> 0 <= #[trigger] seeds[l] < p && is_filled@[seeds[l]] && labels@[seeds[l]]
                    == l,
            forall|l: int, q: int| 0 <= l < segment_index && 0 <= q < #[trigger] seeds[l] ==> #[trigger] labels@[q] < l,
            forall|a: int, b: int|
                is_filled@[a] && #[trigger] linked(img, a, b) ==> is_filled@[b] && labels@[a] == labels@[b],
            forall|a: int|
                0 <= a < n && #[trigger] is_filled@[a] ==> 0 <= labels@[a] < seeds.len() && img.index_at(a)
                    == img.index_at(seeds[labels@[a] as int]) && connected(img, seeds[labels@[a] as int], a),
        decreases n - p,
    {
        if !is_filled[p] {
            if width == 0 {
                assert(n == 0) by (nonlinear_arith)
                    requires
                        n == img.width * img.height,
                        img.width == 0,
                ;
            }
            let ghost old_f = is_filled@;
            let ghost old_l = labels@;
            fill_from(&colours, &mut is_filled, &mut labels, p, segment_index, width, Ghost(img));
            proof {
                assert forall|a: int| 0 <= a < p + 1 implies #[trigger] is_filled@[a] by {
                    if a < p {
                        assert(old_f[a]);
                    }
                }
                assert forall|a: int| 0 <= a < n && #[trigger] is_filled@[a] implies labels@[a] < segment_index + 1 && labels@[a] <= a by {
                    if !old_f[a] {
                        assert(a >= p);
                    }
                }
                let old_seeds = seeds;
                seeds = seeds.push(p as int);
                assert forall|a: int|
                    0 <= a < n && #[trigger] is_filled@[a] implies 0 <= labels@[a] < seeds.len() && img.index_at(a)
                        == img.index_at(seeds[labels@[a] as int]) && connected(img, seeds[labels@[a] as int], a) by {
                    if old_f[a] {
                        assert(old_l[a] < old_seeds.len());
                        assert(seeds[labels@[a] as int] == old_seeds[old_l[a] as int]);
                    }
                }
                assert forall|l: int, q: int| 0 <= l < segment_index + 1 && 0 <= q < #[trigger] seeds[l] implies #[trigger] labels@[q] < l by {
                    if l < segment_index {
                        assert(seeds[l] == old_seeds[l]);
                        assert(old_f[q]);
                        assert(old_l[q] < l);
                    } else {
                        assert(old_f[q]);
                    }
                }
                assert forall|l: int|
                    0 <= l < segment_index + 1 implies 0 <= #[trigger] seeds[l] < p + 1 && is_filled@[seeds[l]] && labels@[seeds[l]]
                        == l by {
                    if l < segment_index {
                        assert(seeds[l] == old_seeds[l]);
                        assert(old_f[old_seeds[l]]);
                    }
                }
            }
            segment_index = segment_index + 1;
        }
        p = p + 1;
    }
    let ghost lab = labels@.map_values(|v: usize| v as int);
    let mut data = blank_stencil(n);
    let mut q: usize = 0;
    while q < n
        invariant
            4 * n <= usize::MAX,
            data@.len() == 4 * n,
            labels@.len() == n,
            lab.len() == n,
            forall|a: int| 0 <= a < n ==> #[trigger] lab[a] == labels@[a] as int,
            q <= n,
            forall|a: int| 0 <= a < q ==> #[trigger] pixel_is(data@, a, lab[a]),
        decreases n - q,
    {
        let ghost before = data@;
        fill_pixel(&mut data, q, labels[q] as u64);
        proof {
            assert forall|a: int| 0 <= a < q + 1 implies #[trigger] pixel_is(data@, a, lab[a]) by {
                if a < q {
                    assert(pixel_is(before, a, lab[a]));
                }
            }
        }
        q = q + 1;
    }
    let out = RawImage { width: input_im.width, height: input_im.height, has_alpha: true, data };
    proof {
        assert forall|a: int| 0 <= a < n implies 0 <= #[trigger] lab[a] < seeds.len() && lab[a] <= a by {
            assert(is_filled@[a]);
        }
        assert forall|l: int| 0 <= l < seeds.len() implies 0 <= #[trigger] seeds[l] < n && lab[seeds[l]] == l by {}
        assert forall|l: int, a: int| 0 <= l < seeds.len() && 0 <= a < #[trigger] seeds[l] implies #[trigger] lab[a] < l by {
            assert(labels@[a] < l);
        }
        assert forall|a: int, b: int| #[trigger] linked(img, a, b) implies lab[a] == lab[b] by {
            assert(is_filled@[a]);
        }
        assert forall|a: int| 0 <= a < n implies img.index_at(a) == img.index_at(seeds[#[trigger] lab[a]]) && connected(
            img,
            seeds[lab[a]],
            a,
        ) by {
            assert(is_filled@[a]);
        }
        assert(is_flood_labelling(img, lab, seeds));
        assert(out.wf());
    }
    out
}

proof fn lemma_path_same_label(img: RawImage, labels: Seq<int>, seeds: Seq<int>, path: Seq<int>, i: int)
    requires
        is_flood_labelling(img, labels, seeds),
        is_path(img, path),
        0 <= i < path.len(),
    ensures
        labels[path[i]] == labels[path[0]],
    decreases i,
{
    if i > 0 {
        lemma_path_same_label(img, labels, seeds, path, i - 1);
        let j = i - 1;
        assert(linked(img, path[j], path[j + 1]));
    }
}

proof fn lemma_labellings_agree(img: RawImage, l1: Seq<int>, s1: Seq<int>, l2: Seq<int>, s2: Seq<int>, p: int, q: int)
    requires
        is_flood_labelling(img, l1, s1),
        is_flood_labelling(img, l2, s2),
        0 <= p < img.pixel_count(),
        0 <= q < img.pixel_count(),
        l1[p] == l1[q],
    ensures
        l2[p] == l2[q],
{
    let s = s1[l1[p]];
    assert(connected(img, s, p));
    assert(connected(img, s, q));
    let pp = choose|path: Seq<int>| #[trigger] is_path(img, path) && path[0] == s && path.last() == p;
    let pq = choose|path: Seq<int>| #[trigger] is_path(img, path) && path[0] == s && path.last() == q;
    lemma_path_same_label(img, l2, s2, pp, pp.len() - 1);
    lemma_path_same_label(img, l2, s2, pq, pq.len() - 1);
}

/// Number of regions of `img`: maximal 4-connected sets of same-coloured
/// pixels, one segment each in its flood labelling.
pub open spec fn region_count(img: RawImage) -> int {
    choose|k: int| #[trigger] has_segments(img, k)
}

/// Some flood labelling of `img` has `k` segments.
pub open spec fn has_segments(img: RawImage, k: int) -> bool {
    exists|labels: Seq<int>, seeds: Seq<int>| #[trigger] is_flood_labelling(img, labels, seeds) && seeds.len() == k
}

/// Every flood labelling of `img` has `region_count(img)` segments.
pub proof fn lemma_region_count(img: RawImage, labels: Seq<int>, seeds: Seq<int>)
    requires
        is_flood_labelling(img, labels, seeds),
    ensures
        seeds.len() == region_count(img),
{
    assert(has_segments(img, seeds.len() as int));
    let k = region_count(img);
    assert(has_segments(img, k));
    let (l2, s2) = choose|l: Seq<int>, s: Seq<int>| #[trigger] is_flood_labelling(img, l, s) && s.len() == k;
    lemma_flood_labelling_unique(img, labels, seeds, l2, s2);
    if seeds.len() < s2.len() {
        let j = seeds.len() as int;
        assert(l2[s2[j]] == j);
        assert(labels[s2[j]] < j);
    } else if s2.len() < seeds.len() {
        let j = s2.len() as int;
        assert(labels[seeds[j]] == j);
        assert(l2[seeds[j]] < j);
    }
}

/// The segment index that a flood stencil stores at `p` is its label there,
/// when the image has no more regions than the codec has indices.
proof fn lemma_stencil_labels(img: RawImage, out: RawImage, labels: Seq<int>, seeds: Seq<int>)
    requires
        is_flood_stencil(img, out),
        is_flood_labelling(img, labels, seeds),
        forall|p: int| 0 <= p < img.pixel_count() ==> #[trigger] pixel_is(out.data@, p, labels[p]),
        region_count(img) <= INDEX_RANGE,
    ensures
        forall|p: int| 0 <= p < img.pixel_count() ==> #[trigger] out.index_at(p) == labels[p],
{
    lemma_region_count(img, labels, seeds);
    assert forall|p: int| 0 <= p < img.pixel_count() implies #[trigger] out.index_at(p) == labels[p] by {
        assert(pixel_is(out.data@, p, labels[p]));
        assert(0 <= labels[p] < seeds.len());
        vstd::arithmetic::div_mod::lemma_small_mod(labels[p] as nat, INDEX_RANGE as nat);
    }
}

/// Running the segmenter twice on one image gives stencils that induce the same
/// partition of its pixels (for images with at most one region per codec index).
pub proof fn lemma_flood_fill_idempotent(img: RawImage, out1: RawImage, out2: RawImage)
    requires
        is_flood_stencil(img, out1),
        is_flood_stencil(img, out2),
        region_count(img) <= INDEX_RANGE,
    ensures
        forall|p: int, q: int|
            0 <= p < img.pixel_count() && 0 <= q < img.pixel_count() ==> (#[trigger] out1.index_at(p)
                == #[trigger] out1.index_at(q)) == (out2.index_at(p) == out2.index_at(q)),
{
    let (l1, s1) = choose|labels: Seq<int>, seeds: Seq<int>|
        #[trigger] is_flood_labelling(img, labels, seeds) && forall|p: int|
            0 <= p < img.pixel_count() ==> #[trigger] pixel_is(out1.data@, p, labels[p]);
    let (l2, s2) = choose|labels: Seq<int>, seeds: Seq<int>|
        #[trigger] is_flood_labelling(img, labels, seeds) && forall|p: int|
            0 <= p < img.pixel_count() ==> #[trigger] pixel_is(out2.data@, p, labels[p]);
    lemma_stencil_labels(img, out1, l1, s1);
    lemma_stencil_labels(img, out2, l2, s2);
    assert forall|p: int, q: int|
        0 <= p < img.pixel_count() && 0 <= q < img.pixel_count() implies (#[trigger] out1.index_at(p)
            == #[trigger] out1.index_at(q)) == (out2.index_at(p) == out2.index_at(q)) by {
        if l1[p] == l1[q] {
            lemma_labellings_agree(img, l1, s1, l2, s2, p, q);
        }
        if l2[p] == l2[q] {
            lemma_labellings_agree(img, l2, s2, l1, s1, p, q);
        }
    }
}

/// In a flood stencil every pixel stores one segment, same-coloured
/// 4-neighbours share their segment, and pixels that share a segment have the
/// same colour (for images with at most one region per codec index).
pub proof fn lemma_flood_fill_total(img: RawImage, out: RawImage)
    requires
        is_flood_stencil(img, out),
        region_count(img) <= INDEX_RANGE,
    ensures
        forall|p: int| 0 <= p < img.pixel_count() ==> 0 <= #[trigger] out.index_at(p) < region_count(img),
        forall|p: int, q: int| #[trigger] linked(img, p, q) ==> out.index_at(p) == out.index_at(q),
        forall|p: int, q: int|
            0 <= p < img.pixel_count() && 0 <= q < img.pixel_count() && #[trigger] out.index_at(p)
                == #[trigger] out.index_at(q) ==> img.index_at(p) == img.index_at(q),
{
    let (l, s) = choose|labels: Seq<int>, seeds: Seq<int>|
        #[trigger] is_flood_labelling(img, labels, seeds) && forall|p: int|
            0 <= p < img.pixel_count() ==> #[trigger] pixel_is(out.data@, p, labels[p]);
    lemma_stencil_labels(img, out, l, s);
    lemma_region_count(img, l, s);
    assert forall|p: int, q: int| #[trigger] linked(img, p, q) implies out.index_at(p) == out.index_at(q) by {
        assert(l[p] == l[q]);
    }
    assert forall|p: int, q: int|
        0 <= p < img.pixel_count() && 0 <= q < img.pixel_count() && #[trigger] out.index_at(p)
            == #[trigger] out.index_at(q) implies img.index_at(p) == img.index_at(q) by {
        assert(img.index_at(p) == img.index_at(s[l[p]]));
        assert(img.index_at(q) == img.index_at(s[l[q]]));
    }
}

/// In a flood labelling, pixel `p` is the first of its segment exactly when it
/// is that segment's seed, and then every earlier segment's seed comes before it.
proof fn lemma_first_is_seed(img: RawImage, labels: Seq<int>, seeds: Seq<int>, p: int)
    requires
        is_flood_labelling(img, labels, seeds),
        0 <= p < img.pixel_count(),
        forall|q: int| 0 <= q < p ==> labels[q] != labels[p],
    ensures
        seeds[labels[p]] == p,
        forall|l: int| 0 <= l < labels[p] ==> #[trigger] seeds[l] < p,
{
    let lp = labels[p];
    let sp = seeds[lp];
    assert(labels[sp] == lp);
    if sp > p {
        assert(labels[p] < lp);
    }
    assert forall|l: int| 0 <= l < lp implies #[trigger] seeds[l] < p by {
        assert(labels[seeds[l]] == l);
        if seeds[l] > p {
            assert(labels[p] < l);
        }
    }
}

proof fn lemma_labellings_equal_upto(img: RawImage, l1: Seq<int>, s1: Seq<int>, l2: Seq<int>, s2: Seq<int>, p: int)
    requires
        is_flood_labelling(img, l1, s1),
        is_flood_labelling(img, l2, s2),
        0 <= p <= img.pixel_count(),
    ensures
        forall|q: int| 0 <= q < p ==> #[trigger] l1[q] == l2[q],
    decreases p,
{
    if p > 0 {
        let r = p - 1;
        lemma_labellings_equal_upto(img, l1, s1, l2, s2, r);
        if exists|q: int| 0 <= q < r && l1[q] == l1[r] {
            let q = choose|q: int| 0 <= q < r && l1[q] == l1[r];
            lemma_labellings_agree(img, l1, s1, l2, s2, q, r);
            assert(l1[q] == l2[q]);
        } else {
            assert forall|q: int| 0 <= q < r implies l2[q] != l2[r] by {
                if l2[q] == l2[r] {
                    lemma_labellings_agree(img, l2, s2, l1, s1, q, r);
                }
            }
            lemma_first_is_seed(img, l1, s1, r);
            lemma_first_is_seed(img, l2, s2, r);
            let a = l1[r];
            let b = l2[r];
            if a < b {
                let q = s2[a];
                assert(q < r);
                assert(l2[q] == a);
                assert(l1[q] == a);
                assert(l1[q] < a);
            } else if b < a {
                let q = s1[b];
                assert(q < r);
                assert(l1[q] == b);
                assert(l2[q] == b);
                assert(l2[q] < b);
            }
        }
    }
}

/// An image has exactly one flood labelling: the stencil of a flood fill is
/// determined by the image.
pub proof fn lemma_flood_labelling_unique(img: RawImage, l1: Seq<int>, s1: Seq<int>, l2: Seq<int>, s2: Seq<int>)
    requires
        is_flood_labelling(img, l1, s1),
        is_flood_labelling(img, l2, s2),
    ensures
        l1 == l2,
{
    lemma_labellings_equal_upto(img, l1, s1, l2, s2, img.pixel_count());
    assert(l1 =~= l2);
}

/// A path of `img` is a path of its flood stencil too: along it the segment
/// never changes.
proof fn lemma_path_in_stencil(img: RawImage, out: RawImage, labels: Seq<int>, seeds: Seq<int>, path: Seq<int>)
    requires
        is_flood_labelling(img, labels, seeds),
        out.width == img.width,
        out.height == img.height,
        forall|p: int| 0 <= p < img.pixel_count() ==> #[trigger] out.index_at(p) == labels[p],
        is_path(img, path),
    ensures
        is_path(out, path),
{
    assert forall|i: int| 0 <= i < path.len() - 1 implies #[trigger] linked(out, path[i], path[i + 1]) by {
        assert(linked(img, path[i], path[i + 1]));
    }
}

/// Segmenting a flood stencil again gives back the same stencil (for images
/// with at most one region per codec index).
pub proof fn lemma_flood_fill_restencil(img: RawImage, out: RawImage, out2: RawImage)
    requires
        is_flood_stencil(img, out),
        is_flood_stencil(out, out2),
        region_count(img) <= INDEX_RANGE,
    ensures
        out2.data@ == out.data@,
{
    let n = img.pixel_count();
    let (l, s) = choose|labels: Seq<int>, seeds: Seq<int>|
        #[trigger] is_flood_labelling(img, labels, seeds) && forall|p: int|
            0 <= p < img.pixel_count() ==> #[trigger] pixel_is(out.data@, p, labels[p]);
    lemma_stencil_labels(img, out, l, s);
    lemma_region_count(img, l, s);
    assert(out.pixel_count() == n);
    assert forall|p: int, q: int| #[trigger] linked(out, p, q) implies l[p] == l[q] by {
        assert(out.index_at(p) == l[p]);
        assert(out.index_at(q) == l[q]);
    }
    assert forall|p: int| 0 <= p < n implies out.index_at(p) == out.index_at(s[#[trigger] l[p]]) && connected(
        out,
        s[l[p]],
        p,
    ) by {
        assert(connected(img, s[l[p]], p));
        let path = choose|path: Seq<int>| #[trigger] is_path(img, path) && path[0] == s[l[p]] && path.last() == p;
        lemma_path_in_stencil(img, out, l, s, path);
        assert(is_path(out, path));
    }
    assert(is_flood_labelling(out, l, s));
    let (l2, s2) = choose|labels: Seq<int>, seeds: Seq<int>|
        #[trigger] is_flood_labelling(out, labels, seeds) && forall|p: int|
            0 <= p < out.pixel_count() ==> #[trigger] pixel_is(out2.data@, p, labels[p]);
    lemma_flood_labelling_unique(out, l2, s2, l, s);
    lemma_region_count(out, l, s);
    lemma_stencil_labels(out, out2, l2, s2);
    assert forall|j: int| 0 <= j < out.data@.len() implies out2.data@[j] == out.data@[j] by {
        let p = j / 4;
        let c = j % 4;
        assert(0 <= p < n && j == 4 * p + c);
        assert(pixel_is(out.data@, p, l[p]));
        assert(pixel_is(out2.data@, p, l2[p]));
        assert(out2.index_at(p) == out.index_at(p));
        lemma_encode_decode(out.channel(p, 0), out.channel(p, 1), out.channel(p, 2));
        lemma_encode_decode(out2.channel(p, 0), out2.channel(p, 1), out2.channel(p, 2));
    }
    assert(out2.data@ =~= out.data@);
}

} // verus!
