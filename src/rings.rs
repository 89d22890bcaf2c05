//! The concentric circle grid: rings of equal width around the canvas centre.

use vstd::prelude::*;
use crate::stencil::{blank_stencil, fill_pixel, lemma_pos_bound, pixel_is, pos};

verus! {

/// Four times the squared distance from pixel `(x, y)` to the centre
/// `(w / 2, h / 2)` of a `w` by `h` canvas (exact, also for odd sizes).
pub open spec fn dist4(w: int, h: int, x: int, y: int) -> int {
    (2 * x - w) * (2 * x - w) + (2 * y - h) * (2 * y - h)
}

/// `k` is the ring of a point at distance `sqrt(d4) / 2` from the centre, for
/// rings `r` wide: `k r <= sqrt(d4) / 2 < (k + 1) r`.
pub open spec fn in_ring(d4: int, r: int, k: int) -> bool {
    &&& k >= 0
    &&& (2 * r * k) * (2 * r * k) <= d4
    &&& d4 < (2 * r * (k + 1)) * (2 * r * (k + 1))
}

/// The ring of pixel `(x, y)`: `floor(distance to centre / r)`.
pub open spec fn ring_index(w: int, h: int, r: int, x: int, y: int) -> int {
    choose|k: int| in_ring(dist4(w, h, x, y), r, k)
}

/// Rings are disjoint.
proof fn lemma_ring_unique(d4: int, r: int, k1: int, k2: int)
    requires
        r > 0,
        in_ring(d4, r, k1),
        in_ring(d4, r, k2),
    ensures
        k1 == k2,
{
    if k1 < k2 {
        assert((2 * r * (k1 + 1)) * (2 * r * (k1 + 1)) <= (2 * r * k2) * (2 * r * k2)) by (nonlinear_arith)
            requires
                r > 0,
                0 <= k1 < k2,
        {
            assert(0 <= 2 * r * (k1 + 1) <= 2 * r * k2);
        }
    } else if k2 < k1 {
        assert((2 * r * (k2 + 1)) * (2 * r * (k2 + 1)) <= (2 * r * k1) * (2 * r * k1)) by (nonlinear_arith)
            requires
                r > 0,
                0 <= k2 < k1,
        {
            assert(0 <= 2 * r * (k2 + 1) <= 2 * r * k1);
        }
    }
}

/// The integer square root: `s * s <= n < (s + 1) * (s + 1)`.
fn isqrt(n: u128) -> (s: u64)
    requires
        n < 0x100_0000_0000_0000_0000,
    ensures
        s as int * s as int <= n,
        n < (s as int + 1) * (s as int + 1),
{
    let mut lo: u128 = 0;
    let mut hi: u128 = 0x10_0000_0000;
    assert(hi * hi == 0x100_0000_0000_0000_0000);
    while hi - lo > 1
        invariant
            lo < hi <= 0x10_0000_0000,
            lo * lo <= n,
            n < hi * hi,
        decreases hi - lo,
    {
        let mid = lo + (hi - lo) / 2;
        assert(mid * mid <= 0x100_0000_0000_0000_0000) by (nonlinear_arith)
            requires
                mid <= 0x10_0000_0000u128,
        ;
        if mid * mid <= n {
            lo = mid;
        } else {
            hi = mid;
        }
    }
    assert(hi == lo + 1);
    lo as u64
}

/// Paints rings `radius` pixels wide around the canvas centre: pixel `(x, y)`
/// stores `floor(d / radius)`, `d` its distance to the centre.
pub fn generate_concentric_circle_grid(width: u32, height: u32, radius: u32) -> (ret_vector: Vec<u8>)
    requires
        radius > 0,
        4 * (width * height) <= usize::MAX,
    ensures
        ret_vector@.len() == 4 * (width * height),
        forall|x: int, y: int|
            0 <= x < width && 0 <= y < height ==> #[trigger] pixel_is(
                ret_vector@,
                pos(width as int, x, y),
                ring_index(width as int, height as int, radius as int, x, y),
            ),
{
    let n: usize = (width as usize) * (height as usize);
    let mut ret_vector = blank_stencil(n);
    let ghost w = width as int;
    let ghost h = height as int;
    let ghost r = radius as int;
    let mut y: u32 = 0;
    let mut p: usize = 0;
    while y < height
        invariant
            y <= height,
            radius > 0,
            w == width,
            h == height,
            r == radius,
            n == w * height,
            4 * n <= usize::MAX,
            p == pos(w, 0, y as int),
            ret_vector@.len() == 4 * n,
            forall|xx: int, yy: int|
                0 <= xx < width && 0 <= yy < y ==> #[trigger] pixel_is(
                    ret_vector@,
                    pos(w, xx, yy),
                    ring_index(w, h, r, xx, yy),
                ),
        decreases height - y,
    {
        let mut x: u32 = 0;
        while x < width
            invariant
                y < height,
                x <= width,
                radius > 0,
                w == width,
                h == height,
                r == radius,
                n == w * height,
                4 * n <= usize::MAX,
                p == pos(w, x as int, y as int),
                ret_vector@.len() == 4 * n,
                forall|xx: int, yy: int|
                    0 <= xx < width && 0 <= yy < y ==> #[trigger] pixel_is(
                        ret_vector@,
                        pos(w, xx, yy),
                        ring_index(w, h, r, xx, yy),
                    ),
                forall|xx: int|
                    0 <= xx < x ==> #[trigger] pixel_is(
                        ret_vector@,
                        pos(w, xx, y as int),
                        ring_index(w, h, r, xx, y as int),
                    ),
            decreases width - x,
        {
            let dx: u64 = if 2 * (x as u64) >= width as u64 {
                2 * (x as u64) - width as u64
            } else {
                width as u64 - 2 * (x as u64)
            };
            let dy: u64 = if 2 * (y as u64) >= height as u64 {
                2 * (y as u64) - height as u64
            } else {
                height as u64 - 2 * (y as u64)
            };
            assert(dx * dx + dy * dy < 0x100_0000_0000_0000_0000 && dx * dx + dy * dy == dist4(w, h, x as int, y as int))
                by (nonlinear_arith)
                requires
                    dx < 0x2_0000_0000,
                    dy < 0x2_0000_0000,
                    dx == 2 * x - w || dx == w - 2 * x,
                    dy == 2 * y - h || dy == h - 2 * y,
            {
                assert(dx * dx < 0x4_0000_0000_0000_0000);
                assert(dy * dy < 0x4_0000_0000_0000_0000);
            }
            let d4: u128 = (dx as u128) * (dx as u128) + (dy as u128) * (dy as u128);
            let s = isqrt(d4);
            let ring: u64 = s / (2 * radius as u64);
            proof {
                let k = ring as int;
                let m = 2 * r;
                vstd::arithmetic::div_mod::lemma_fundamental_div_mod(s as int, m);
                vstd::arithmetic::div_mod::lemma_mod_bound(s as int, m);
                assert(in_ring(d4 as int, r, k)) by (nonlinear_arith)
                    requires
                        s * s <= d4,
                        d4 < (s + 1) * (s + 1),
                        s == m * k + (s as int) % m,
                        0 <= (s as int) % m < m,
                        m == 2 * r,
                        r > 0,
                        k >= 0,
                {
                    assert(0 <= m * k <= s);
                    assert((m * k) * (m * k) <= s * s);
                    assert(s + 1 <= m * (k + 1));
                    assert((s + 1) * (s + 1) <= (m * (k + 1)) * (m * (k + 1)));
                }
                lemma_ring_unique(d4 as int, r, k, ring_index(w, h, r, x as int, y as int));
                lemma_pos_bound(w, h, x as int, y as int);
            }
            let ghost before = ret_vector@;
            fill_pixel(&mut ret_vector, p, ring);
            proof {
                assert forall|xx: int, yy: int|
                    0 <= xx < width && 0 <= yy < y implies #[trigger] pixel_is(
                        ret_vector@,
                        pos(w, xx, yy),
                        ring_index(w, h, r, xx, yy),
                    ) by {
                    crate::stencil::lemma_pos_order(w, xx, yy, x as int, y as int);
                    lemma_pos_bound(w, h, xx, yy);
                    assert(pixel_is(before, pos(w, xx, yy), ring_index(w, h, r, xx, yy)));
                }
                assert forall|xx: int| 0 <= xx < x + 1 implies #[trigger] pixel_is(
                    ret_vector@,
                    pos(w, xx, y as int),
                    ring_index(w, h, r, xx, y as int),
                ) by {
                    if xx < x {
                        crate::stencil::lemma_pos_order(w, xx, y as int, x as int, y as int);
                        assert(pixel_is(before, pos(w, xx, y as int), ring_index(w, h, r, xx, y as int)));
                    }
                }
            }
            p = p + 1;
            x = x + 1;
        }
        assert(pos(w, x as int, y as int) == pos(w, 0, y + 1)) by (nonlinear_arith)
            requires
                x == w,
        ;
        y = y + 1;
    }
    ret_vector
}

} // verus!
