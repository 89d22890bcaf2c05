//! Bounding boxes of the segments of a stencil.

use vstd::prelude::*;
use crate::codec::rgb_to_index;
use crate::image_tools::RawImage;
use crate::stencil::{lemma_pos_bound, lemma_pos_order, pos};

verus! {

/// The smallest rectangle, inclusive on all sides, that holds every pixel of a
/// segment.
#[derive(Clone, Copy, Debug, PartialEq, Eq, Structural)]
pub struct BoundingBox {
    pub top: u32,
    pub bot: u32,
    pub left: u32,
    pub right: u32,
}

/// Column `x`, row `y` of `img` lies among its first `n` pixels and stores
/// segment `l`.
pub open spec fn seg_pixel(img: RawImage, l: int, n: int, x: int, y: int) -> bool {
    &&& 0 <= x < img.width
    &&& 0 <= y < img.height
    &&& pos(img.width as int, x, y) < n
    &&& img.index_at(pos(img.width as int, x, y)) == l
}

/// Segment `l` has a pixel among the first `n`.
pub open spec fn seg_present(img: RawImage, l: int, n: int) -> bool {
    exists|x: int, y: int| #[trigger] seg_pixel(img, l, n, x, y)
}

/// `b` is the bounding box of the pixels of segment `l` among the first `n`:
/// it holds all of them and each of its sides touches one.
pub open spec fn is_bounding_box(img: RawImage, l: int, n: int, b: BoundingBox) -> bool {
    &&& forall|x: int, y: int|
        #[trigger] seg_pixel(img, l, n, x, y) ==> b.top <= y <= b.bot && b.left <= x <= b.right
    &&& exists|x: int| #[trigger] seg_pixel(img, l, n, x, b.top as int)
    &&& exists|x: int| #[trigger] seg_pixel(img, l, n, x, b.bot as int)
    &&& exists|y: int| #[trigger] seg_pixel(img, l, n, b.left as int, y)
    &&& exists|y: int| #[trigger] seg_pixel(img, l, n, b.right as int, y)
}

/// Some segment index below one that the stencil uses has no pixel.
pub open spec fn index_missing(img: RawImage, l: int) -> bool {
    &&& l >= 0
    &&& !seg_present(img, l, img.pixel_count())
    &&& exists|k: int| l < k && #[trigger] seg_present(img, k, img.pixel_count())
}

/// The bounding box of every segment `0 ..= max` of the stencil, `max` its
/// largest index; `None` when some index below `max` has no pixel. Each box is
/// the segment's own: boxes are not stretched to a common size.
pub fn draw_bounding_boxes(image: &RawImage) -> (r: Option<Vec<BoundingBox>>)
    requires
        image.wf(),
    ensures
        r is None <==> exists|l: int| #[trigger] index_missing(*image, l),
        r matches Some(boxes) ==> {
            &&& forall|l: int|
                0 <= l < boxes@.len() ==> #[trigger] is_bounding_box(*image, l, image.pixel_count(), boxes@[l])
            &&& forall|x: int, y: int, l: int|
                #[trigger] seg_pixel(*image, l, image.pixel_count(), x, y) ==> l < boxes@.len()
        },
{
    let ghost img = *image;
    let _len = image.data.len();
    proof {
        image.lemma_pixels_fit();
    }
    let width = image.width;
    let height = image.height;
    let bpp: usize = if image.has_alpha { 4 } else { 3 };
    let ghost w = width as int;
    let mut bounding_boxes: Vec<Option<BoundingBox>> = Vec::new();
    let mut cur_ind: usize = 0;
    let mut p: usize = 0;
    let mut y: u32 = 0;
    while y < height
        invariant
            img == *image,
            img.wf(),
            w == width,
            width == img.width,
            height == img.height,
            bpp == img.bpp(),
            img.data@.len() <= usize::MAX,
            y <= height,
            p == pos(w, 0, y as int),
            cur_ind == p * bpp,
            forall|l: int, xx: int, yy: int|
                #[trigger] seg_pixel(img, l, p as int, xx, yy) ==> l < bounding_boxes@.len(),
            forall|l: int|
                0 <= l < bounding_boxes@.len() ==> (#[trigger] bounding_boxes@[l] is None <==> !seg_present(
                    img,
                    l,
                    p as int,
                )),
            bounding_boxes@.len() > 0 ==> bounding_boxes@[bounding_boxes@.len() - 1] is Some,
            forall|l: int|
                0 <= l < bounding_boxes@.len() && #[trigger] bounding_boxes@[l] is Some ==> is_bounding_box(
                    img,
                    l,
                    p as int,
                    bounding_boxes@[l]->Some_0,
                ),
        decreases height - y,
    {
        let mut x: u32 = 0;
        while x < width
            invariant
                img == *image,
                img.wf(),
                w == width,
                width == img.width,
                height == img.height,
                bpp == img.bpp(),
                img.data@.len() <= usize::MAX,
                y < height,
                x <= width,
                p == pos(w, x as int, y as int),
                cur_ind == p * bpp,
                forall|l: int, xx: int, yy: int|
                    #[trigger] seg_pixel(img, l, p as int, xx, yy) ==> l < bounding_boxes@.len(),
                forall|l: int|
                    0 <= l < bounding_boxes@.len() ==> (#[trigger] bounding_boxes@[l] is None <==> !seg_present(
                        img,
                        l,
                        p as int,
                    )),
                bounding_boxes@.len() > 0 ==> bounding_boxes@[bounding_boxes@.len() - 1] is Some,
                forall|l: int|
                    0 <= l < bounding_boxes@.len() && #[trigger] bounding_boxes@[l] is Some ==> is_bounding_box(
                        img,
                        l,
                        p as int,
                        bounding_boxes@[l]->Some_0,
                    ),
            decreases width - x,
        {
            proof {
                lemma_pos_bound(w, height as int, x as int, y as int);
                assert(p * bpp + bpp <= img.pixel_count() * bpp && (p + 1) * bpp == p * bpp + bpp) by (nonlinear_arith)
                    requires
                        p < img.pixel_count(),
                        bpp > 0,
                ;
            }
            let index = rgb_to_index(image.data[cur_ind], image.data[cur_ind + 1], image.data[cur_ind + 2]);
            assert(index == img.index_at(p as int));
            let ghost before = bounding_boxes@;
            while index >= bounding_boxes.len()
                invariant
                    before.len() <= bounding_boxes@.len(),
                    bounding_boxes@.len() > before.len() ==> bounding_boxes@.len() <= index + 1,
                    forall|l: int| 0 <= l < before.len() ==> #[trigger] bounding_boxes@[l] == before[l],
                    forall|l: int| before.len() <= l < bounding_boxes@.len() ==> #[trigger] bounding_boxes@[l] is None,
                decreases index + 1 - bounding_boxes@.len(),
            {
                bounding_boxes.push(None);
            }
            let ghost grown = bounding_boxes@;
            proof {
                assert forall|l: int| before.len() <= l < grown.len() implies !seg_present(img, l, p as int) by {
                    if seg_present(img, l, p as int) {
                        let (xx, yy) = choose|xx: int, yy: int| #[trigger] seg_pixel(img, l, p as int, xx, yy);
                    }
                }
            }
            let nb = match bounding_boxes[index] {
                Some(bb) => BoundingBox {
                    top: if bb.top > y { y } else { bb.top },
                    bot: if bb.bot < y { y } else { bb.bot },
                    left: if bb.left > x { x } else { bb.left },
                    right: if bb.right < x { x } else { bb.right },
                },
                None => BoundingBox { top: y, bot: y, left: x, right: x },
            };
            bounding_boxes.set(index, Some(nb));
            proof {
                let np = p + 1;
                assert forall|l: int, xx: int, yy: int| #[trigger] seg_pixel(img, l, np as int, xx, yy) implies
                    (xx == x && yy == y) || seg_pixel(img, l, p as int, xx, yy) by {
                    lemma_pos_order(w, xx, yy, x as int, y as int);
                }
                assert(seg_pixel(img, index as int, np as int, x as int, y as int));
                assert forall|l: int, xx: int, yy: int| #[trigger] seg_pixel(img, l, np as int, xx, yy) implies l
                    < bounding_boxes@.len() by {
                    if !(xx == x && yy == y) {
                        assert(seg_pixel(img, l, p as int, xx, yy));
                    }
                }
                assert forall|l: int, xx: int, yy: int| #[trigger] seg_pixel(img, l, p as int, xx, yy) implies seg_pixel(
                    img,
                    l,
                    np as int,
                    xx,
                    yy,
                ) by {}
                assert forall|l: int|
                    0 <= l < bounding_boxes@.len() implies (#[trigger] bounding_boxes@[l] is None <==> !seg_present(
                        img,
                        l,
                        np as int,
                    )) by {
                    if l != index {
                        if seg_present(img, l, np as int) {
                            let (xx, yy) = choose|xx: int, yy: int| #[trigger] seg_pixel(img, l, np as int, xx, yy);
                            assert(seg_pixel(img, l, p as int, xx, yy));
                        }
                        if seg_present(img, l, p as int) {
                            let (xx, yy) = choose|xx: int, yy: int| #[trigger] seg_pixel(img, l, p as int, xx, yy);
                            assert(seg_pixel(img, l, np as int, xx, yy));
                        }
                    }
                }
                assert forall|l: int|
                    0 <= l < bounding_boxes@.len() && #[trigger] bounding_boxes@[l] is Some implies is_bounding_box(
                        img,
                        l,
                        np as int,
                        bounding_boxes@[l]->Some_0,
                    ) by {
                    let b = bounding_boxes@[l]->Some_0;
                    if l != index {
                        assert(grown[l] is Some);
                        assert(is_bounding_box(img, l, p as int, b));
                        assert forall|xx: int, yy: int| #[trigger] seg_pixel(img, l, np as int, xx, yy) implies b.top
                            <= yy <= b.bot && b.left <= xx <= b.right by {
                            assert(seg_pixel(img, l, p as int, xx, yy));
                        }
                        let x1 = choose|xx: int| #[trigger] seg_pixel(img, l, p as int, xx, b.top as int);
                        assert(seg_pixel(img, l, np as int, x1, b.top as int));
                        let x2 = choose|xx: int| #[trigger] seg_pixel(img, l, p as int, xx, b.bot as int);
                        assert(seg_pixel(img, l, np as int, x2, b.bot as int));
                        let y1 = choose|yy: int| #[trigger] seg_pixel(img, l, p as int, b.left as int, yy);
                        assert(seg_pixel(img, l, np as int, b.left as int, y1));
                        let y2 = choose|yy: int| #[trigger] seg_pixel(img, l, p as int, b.right as int, yy);
                        assert(seg_pixel(img, l, np as int, b.right as int, y2));
                    } else {
                        assert(b == nb);
                        assert forall|xx: int, yy: int| #[trigger] seg_pixel(img, l, np as int, xx, yy) implies b.top
                            <= yy <= b.bot && b.left <= xx <= b.right by {
                            if !(xx == x && yy == y) {
                                assert(seg_pixel(img, l, p as int, xx, yy));
                                assert(grown[l] is Some);
                            }
                        }
                        if grown[l] is Some {
                            let ob = grown[l]->Some_0;
                            assert(is_bounding_box(img, l, p as int, ob));
                            if ob.top <= y {
                                let x1 = choose|xx: int| #[trigger] seg_pixel(img, l, p as int, xx, ob.top as int);
                                assert(seg_pixel(img, l, np as int, x1, b.top as int));
                            }
                            if ob.bot >= y {
                                let x2 = choose|xx: int| #[trigger] seg_pixel(img, l, p as int, xx, ob.bot as int);
                                assert(seg_pixel(img, l, np as int, x2, b.bot as int));
                            }
                            if ob.left <= x {
                                let y1 = choose|yy: int| #[trigger] seg_pixel(img, l, p as int, ob.left as int, yy);
                                assert(seg_pixel(img, l, np as int, b.left as int, y1));
                            }
                            if ob.right >= x {
                                let y2 = choose|yy: int| #[trigger] seg_pixel(img, l, p as int, ob.right as int, yy);
                                assert(seg_pixel(img, l, np as int, b.right as int, y2));
                            }
                        }
                    }
                }
            }
            cur_ind = cur_ind + bpp;
            p = p + 1;
            x = x + 1;
        }
        assert(pos(w, x as int, y as int) == pos(w, 0, y + 1)) by (nonlinear_arith)
            requires
                x == w,
        ;
        y = y + 1;
    }
    assert(p == img.pixel_count()) by (nonlinear_arith)
        requires
            p == pos(w, 0, height as int),
            w == img.width,
            height == img.height,
    ;
    let mut boxes: Vec<BoundingBox> = Vec::new();
    let mut l: usize = 0;
    while l < bounding_boxes.len()
        invariant
            l <= bounding_boxes@.len(),
            boxes@.len() == l,
            forall|k: int| 0 <= k < l ==> bounding_boxes@[k] == Some(#[trigger] boxes@[k]),
            img == *image,
            p == img.pixel_count(),
            forall|l: int, xx: int, yy: int|
                #[trigger] seg_pixel(img, l, p as int, xx, yy) ==> l < bounding_boxes@.len(),
            forall|l: int|
                0 <= l < bounding_boxes@.len() ==> (#[trigger] bounding_boxes@[l] is None <==> !seg_present(
                    img,
                    l,
                    p as int,
                )),
            forall|l: int|
                0 <= l < bounding_boxes@.len() && #[trigger] bounding_boxes@[l] is Some ==> is_bounding_box(
                    img,
                    l,
                    p as int,
                    bounding_boxes@[l]->Some_0,
                ),
            bounding_boxes@.len() > 0 ==> bounding_boxes@[bounding_boxes@.len() - 1] is Some,
        decreases bounding_boxes@.len() - l,
    {
        match bounding_boxes[l] {
            Some(bb) => boxes.push(bb),
            None => {
                proof {
                    let last = bounding_boxes@.len() - 1;
                    assert(bounding_boxes@[last] is Some);
                    assert(bounding_boxes@[l as int] is None);
                    assert(!seg_present(img, l as int, p as int));
                    assert(seg_present(img, last, p as int));
                    assert(l < last);
                    assert(index_missing(img, l as int));
                }
                return None;
            },
        }
        l = l + 1;
    }
    proof {
        assert forall|k: int| !#[trigger] index_missing(img, k) by {
            if index_missing(img, k) {
                if k >= bounding_boxes@.len() {
                    let j = choose|j: int| k < j && #[trigger] seg_present(img, j, img.pixel_count());
                    let (xx, yy) = choose|xx: int, yy: int| #[trigger] seg_pixel(img, j, p as int, xx, yy);
                } else {
                    assert(bounding_boxes@[k] == Some(boxes@[k]));
                }
            }
        }
        assert forall|k: int| 0 <= k < boxes@.len() implies #[trigger] is_bounding_box(img, k, img.pixel_count(), boxes@[k]) by {
            assert(bounding_boxes@[k] == Some(boxes@[k]));
        }
    }
    Some(boxes)
}

} // verus!
