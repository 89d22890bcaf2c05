//! The circle tile: an incremental rasterizer that walks one octant of a circle
//! and fills the four reflected spans of every point it visits.

use vstd::prelude::*;
use crate::image_tools::BoolMask;

verus! {

/// Cell `(row, col)` of a `(2r+1)`-wide tile lies on one of the four spans
/// filled from the walk point `(x, y)`: columns `x` and `2r - x` between rows
/// `y` and `2r - y`, and columns `y` and `2r - y` between rows `2r - x` and `x`.
pub open spec fn in_spans(r: int, x: int, y: int, row: int, col: int) -> bool {
    ||| (col == x || col == 2 * r - x) && y <= row <= 2 * r - y
    ||| (col == y || col == 2 * r - y) && 2 * r - x <= row <= x
}

/// The next point of the walk: right if that stays inside or on the circle,
/// else right and down if that does, else down.
pub open spec fn walk_step(r: int, x: int, y: int) -> (int, int) {
    let right = (x - r + 1) * (x - r + 1);
    if right + (y - r) * (y - r) <= r * r {
        (x + 1, y)
    } else if right + (y - r + 1) * (y - r + 1) <= r * r {
        (x + 1, y + 1)
    } else {
        (x, y + 1)
    }
}

/// The walk ends once it has crossed the 45 degree line.
pub open spec fn walk_done(r: int, x: int, y: int) -> bool {
    x - r < y
}

/// Cell `(row, col)` is filled by the walk from `(x, y)` on: by the spans of
/// `(x, y)` or of a later point. Points of the walk stay within the octant
/// (`x + y <= 3r`).
pub open spec fn circle_covers(r: int, x: int, y: int, row: int, col: int) -> bool
    decreases 3 * r - x - y,
{
    let next = walk_step(r, x, y);
    ||| in_spans(r, x, y, row, col)
    ||| {
        &&& !walk_done(r, next.0, next.1)
        &&& next.0 + next.1 <= 3 * r
        &&& x + y < next.0 + next.1
        &&& circle_covers(r, next.0, next.1, row, col)
    }
}

/// Cell `(row, col)` of the circle tile of radius `r` is inside the circle.
pub open spec fn circle_cell(r: int, row: int, col: int) -> bool {
    circle_covers(r, r, 0, row, col)
}

/// The walk's cover is symmetric under both reflections of the tile.
pub proof fn lemma_covers_symmetric(r: int, x: int, y: int, row: int, col: int)
    ensures
        circle_covers(r, x, y, row, col) == circle_covers(r, x, y, 2 * r - row, col),
        circle_covers(r, x, y, row, col) == circle_covers(r, x, y, row, 2 * r - col),
    decreases 3 * r - x - y,
{
    let next = walk_step(r, x, y);
    if !walk_done(r, next.0, next.1) && next.0 + next.1 <= 3 * r && x + y < next.0 + next.1 {
        lemma_covers_symmetric(r, next.0, next.1, row, col);
    }
}

/// The circle tile is symmetric under horizontal and vertical reflection about
/// its centre.
pub proof fn lemma_circle_symmetric(r: int, row: int, col: int)
    ensures
        circle_cell(r, row, col) == circle_cell(r, 2 * r - row, col),
        circle_cell(r, row, col) == circle_cell(r, row, 2 * r - col),
{
    lemma_covers_symmetric(r, r, 0, row, col);
}

/// The tile of radius `radius` fits in memory.
pub open spec fn circle_fits(radius: u32) -> bool {
    &&& radius < 0x8000_0000
    &&& (2 * radius + 1) * (2 * radius + 1) <= usize::MAX
}

/// Sets the cells of column `x` between rows `start` and `end` (either order)
/// of a `side`-wide tile.
fn draw_line_between(start: u32, end: u32, x: u32, v: &mut Vec<bool>, side: u32)
    requires
        start < side,
        end < side,
        x < side,
        side * side <= usize::MAX,
        old(v)@.len() == side * side,
    ensures
        final(v)@.len() == old(v)@.len(),
        forall|row: int, col: int|
            0 <= row < side && 0 <= col < side ==> #[trigger] final(v)@[row * side + col] == (
            old(v)@[row * side + col] || (col == x && ((start <= row <= end) || (end <= row <= start)))),
{
    let (lo, hi) = if start <= end {
        (start, end)
    } else {
        (end, start)
    };
    let ghost old_v = v@;
    let mut cur = lo;
    loop
        invariant_except_break
            forall|row: int, col: int|
                0 <= row < side && 0 <= col < side ==> #[trigger] v@[row * side + col] == (old_v[row
                    * side + col] || (col == x && lo <= row < cur)),
        invariant
            lo <= cur <= hi,
            hi < side,
            x < side,
            side * side <= usize::MAX,
            v@.len() == side * side,
        ensures
            v@.len() == side * side,
            forall|row: int, col: int|
                0 <= row < side && 0 <= col < side ==> #[trigger] v@[row * side + col] == (old_v[row
                    * side + col] || (col == x && lo <= row <= hi)),
        decreases hi - cur,
    {
        proof {
            lemma_cell(side as int, cur as int, x as int);
        }
        let ghost before = v@;
        v.set((cur as usize) * (side as usize) + (x as usize), true);
        proof {
            assert forall|row: int, col: int| 0 <= row < side && 0 <= col < side implies #[trigger] v@[row
                * side + col] == (old_v[row * side + col] || (col == x && lo <= row <= cur)) by {
                lemma_cell_distinct(side as int, row, col, cur as int, x as int);
                lemma_cell(side as int, row, col);
                assert(before[row * side + col] == (old_v[row * side + col] || (col == x && lo <= row < cur)));
            }
        }
        if cur == hi {
            break;
        }
        cur = cur + 1;
    }
}

proof fn lemma_cell(side: int, row: int, col: int)
    requires
        0 <= row < side,
        0 <= col < side,
    ensures
        0 <= row * side + col < side * side,
{
    assert(0 <= row * side + col < side * side) by (nonlinear_arith)
        requires
            0 <= row < side,
            0 <= col < side,
    {
        assert(row * side + side <= side * side);
    }
}

proof fn lemma_cell_distinct(side: int, r1: int, c1: int, r2: int, c2: int)
    requires
        0 <= r1 < side,
        0 <= c1 < side,
        0 <= r2 < side,
        0 <= c2 < side,
    ensures
        (r1 * side + c1 == r2 * side + c2) == (r1 == r2 && c1 == c2),
{
    crate::stencil::lemma_pos_order(side, c1, r1, c2, r2);
    crate::stencil::lemma_pos_order(side, c2, r2, c1, r1);
}

/// Fills the four reflected spans of walk point `(x, y)`.
fn fill_circle_at(x: u32, y: u32, radius: u32, v: &mut Vec<bool>)
    requires
        circle_fits(radius),
        radius <= x <= 2 * radius,
        y <= radius,
        old(v)@.len() == (2 * radius + 1) * (2 * radius + 1),
    ensures
        final(v)@.len() == old(v)@.len(),
        forall|row: int, col: int|
            0 <= row <= 2 * radius && 0 <= col <= 2 * radius ==> #[trigger] final(v)@[row * (2 * radius + 1)
                + col] == (old(v)@[row * (2 * radius + 1) + col] || in_spans(
                radius as int,
                x as int,
                y as int,
                row,
                col,
            )),
{
    let side = 2 * radius + 1;
    let ghost old_v = v@;
    draw_line_between(y, 2 * radius - y, x, v, side);
    draw_line_between(y, 2 * radius - y, 2 * radius - x, v, side);
    draw_line_between(x, 2 * radius - x, y, v, side);
    draw_line_between(x, 2 * radius - x, 2 * radius - y, v, side);
    proof {
        assert forall|row: int, col: int|
            0 <= row <= 2 * radius && 0 <= col <= 2 * radius implies #[trigger] v@[row * (2 * radius + 1)
                + col] == (old_v[row * (2 * radius + 1) + col] || in_spans(
                radius as int,
                x as int,
                y as int,
                row,
                col,
            )) by {
            assert(row * side + col == row * (2 * radius + 1) + col);
        }
    }
}

/// The next point of the walk from `(x, y)`, the squared distances computed
/// in `u64`.
fn next_point(x: u32, y: u32, radius: u32) -> (next: (u32, u32))
    requires
        circle_fits(radius),
        radius <= x <= 2 * radius,
        y <= radius,
    ensures
        next.0 as int == walk_step(radius as int, x as int, y as int).0,
        next.1 as int == walk_step(radius as int, x as int, y as int).1,
        next.0 <= 2 * radius,
{
    let ghost r = radius as int;
    let a: u64 = (x - radius + 1) as u64;
    let b: u64 = (radius - y) as u64;
    let c: u64 = if y + 1 >= radius {
        (y + 1 - radius) as u64
    } else {
        (radius - y - 1) as u64
    };
    let rr: u64 = radius as u64;
    assert(a * a + b * b <= 0x8000_0001u64 * 0x8000_0001u64 * 2 && c * c <= 0x8000_0001u64 * 0x8000_0001u64
        && rr * rr <= 0x8000_0001u64 * 0x8000_0001u64) by (nonlinear_arith)
        requires
            a <= 0x8000_0001u64,
            b <= 0x8000_0001u64,
            c <= 0x8000_0001u64,
            rr <= 0x8000_0001u64,
    ;
    assert((x - r + 1) * (x - r + 1) == a * a && (y - r) * (y - r) == b * b && (y - r + 1) * (y - r + 1)
        == c * c) by (nonlinear_arith)
        requires
            a == x - r + 1,
            b == r - y,
            c == y + 1 - r || c == r - y - 1,
    ;
    let right = a * a;
    let next = if right + b * b <= rr * rr {
        (x + 1, y)
    } else if right + c * c <= rr * rr {
        (x + 1, y + 1)
    } else {
        (x, y + 1)
    };
    proof {
        if next.0 == x + 1 {
            assert(a <= rr) by (nonlinear_arith)
                requires
                    a * a <= rr * rr,
                    a >= 0,
                    rr >= 0,
            {
                if a > rr {
                    assert(a * a > rr * rr);
                }
            }
        }
    }
    next
}

/// The circle tile of radius `radius`: a square of side `2 radius + 1` whose
/// cell `(row, col)` holds `circle_cell(radius, row, col)`.
pub fn generate_circle_stencil(radius: u32) -> (tile: BoolMask)
    requires
        circle_fits(radius),
    ensures
        tile.wf(),
        tile.width == 2 * radius + 1,
        tile.height == 2 * radius + 1,
        forall|row: int, col: int|
            0 <= row <= 2 * radius && 0 <= col <= 2 * radius ==> #[trigger] tile.at(col, row)
                == circle_cell(radius as int, row, col),
        forall|row: int, col: int|
            0 <= row <= 2 * radius && 0 <= col <= 2 * radius ==> #[trigger] tile.at(col, row)
                == tile.at(2 * radius - col, row) && tile.at(col, row) == tile.at(col, 2 * radius - row),
{
    let side: u32 = 2 * radius + 1;
    let n: usize = (side as usize) * (side as usize);
    let mut v: Vec<bool> = vec![false; n];
    let ghost r = radius as int;
    let mut x: u32 = radius;
    let mut y: u32 = 0;
    proof {
        assert forall|row: int, col: int|
            0 <= row <= 2 * radius && 0 <= col <= 2 * radius implies (#[trigger] v@[row * side + col]
                == false) by {
            lemma_cell(side as int, row, col);
        }
    }
    loop
        invariant_except_break
            circle_fits(radius),
            r == radius,
            side == 2 * radius + 1,
            radius <= x <= 2 * radius,
            y <= x - radius,
            v@.len() == side * side,
            forall|row: int, col: int|
                0 <= row <= 2 * radius && 0 <= col <= 2 * radius ==> circle_cell(r, row, col) == (
                #[trigger] v@[row * side + col] || circle_covers(r, x as int, y as int, row, col)),
        ensures
            v@.len() == side * side,
            forall|row: int, col: int|
                0 <= row <= 2 * radius && 0 <= col <= 2 * radius ==> circle_cell(r, row, col)
                    == #[trigger] v@[row * side + col],
        decreases 3 * radius - x - y,
    {
        let ghost before = v@;
        fill_circle_at(x, y, radius, &mut v);
        let next = next_point(x, y, radius);
        if next.0 - radius < next.1 {
            assert forall|row: int, col: int|
                0 <= row <= 2 * radius && 0 <= col <= 2 * radius implies circle_cell(r, row, col)
                    == #[trigger] v@[row * side + col] by {
                assert(v@[row * side + col] == (before[row * side + col] || in_spans(r, x as int, y as int, row, col)));
            }
            break;
        }
        proof {
            assert forall|row: int, col: int|
                0 <= row <= 2 * radius && 0 <= col <= 2 * radius implies circle_cell(r, row, col) == (
                #[trigger] v@[row * side + col] || circle_covers(r, next.0 as int, next.1 as int, row, col)) by {
                assert(v@[row * side + col] == (before[row * side + col] || in_spans(r, x as int, y as int, row, col)));
            }
        }
        x = next.0;
        y = next.1;
    }
    let tile = BoolMask { width: side, height: side, cells: v };
    proof {
        assert forall|row: int, col: int|
            0 <= row <= 2 * radius && 0 <= col <= 2 * radius implies #[trigger] tile.at(col, row)
                == tile.at(2 * radius - col, row) && tile.at(col, row) == tile.at(col, 2 * radius - row) by {
            lemma_circle_symmetric(r, row, col);
            assert(tile.at(col, row) == tile.cells@[row * side + col]);
            assert(circle_cell(r, row, 2 * r - col) == tile.cells@[row * side + (2 * radius - col)]);
            assert(circle_cell(r, 2 * r - row, col) == tile.cells@[(2 * radius - row) * side + col]);
        }
    }
    tile
}

} // verus!
