//! The cross grid: plus-shaped segments of five cells, stamped along diagonals.

use vstd::prelude::*;
use crate::arith::{ceil_div, div_ceil, lemma_ceil_div};
use crate::codec::INDEX_RANGE;
use crate::stencil::{blank_stencil, fill_pixel, lemma_pos_bound, lemma_pos_order, pixel_is, pos};

verus! {

/// Cell `(cx, cy)` lies in a grid of `gw` by `gh` cells.
pub open spec fn in_grid(gw: int, gh: int, cx: int, cy: int) -> bool {
    0 <= cx < gw && 0 <= cy < gh
}

/// Some cell of the cross centred on `(cx, cy)` lies in the grid.
pub open spec fn touching(gw: int, gh: int, cx: int, cy: int) -> bool {
    ||| in_grid(gw, gh, cx - 1, cy)
    ||| in_grid(gw, gh, cx + 1, cy)
    ||| in_grid(gw, gh, cx, cy - 1)
    ||| in_grid(gw, gh, cx, cy + 1)
    ||| in_grid(gw, gh, cx, cy)
}

/// Writes `idx` into cell `(cx, cy)` if it lies in the grid.
pub open spec fn stamp_cell(cells: Seq<int>, gw: int, gh: int, cx: int, cy: int, idx: int) -> Seq<int> {
    if in_grid(gw, gh, cx, cy) {
        cells.update(cy * gw + cx, idx)
    } else {
        cells
    }
}

/// Writes `idx` into the in-grid cells of the cross centred on `(cx, cy)`:
/// left, right, up, down, then the centre.
pub open spec fn stamp_cross(cells: Seq<int>, gw: int, gh: int, cx: int, cy: int, idx: int) -> Seq<int> {
    let c1 = stamp_cell(cells, gw, gh, cx - 1, cy, idx);
    let c2 = stamp_cell(c1, gw, gh, cx + 1, cy, idx);
    let c3 = stamp_cell(c2, gw, gh, cx, cy - 1, idx);
    let c4 = stamp_cell(c3, gw, gh, cx, cy + 1, idx);
    stamp_cell(c4, gw, gh, cx, cy, idx)
}

/// Stamps crosses with consecutive indices from `idx` at `(cx, cy)`,
/// `(cx + 2, cy + 1)`, ... while they touch the grid; returns the cells and the
/// next unused index.
pub open spec fn diag(cells: Seq<int>, gw: int, gh: int, cx: int, cy: int, idx: int) -> (Seq<int>, int)
    decreases gw + 2 - cx,
{
    if touching(gw, gh, cx, cy) && cx <= gw {
        diag(stamp_cross(cells, gw, gh, cx, cy, idx), gw, gh, cx + 2, cy + 1, idx + 1)
    } else {
        (cells, idx)
    }
}

/// The diagonals that start along the top row.
pub open spec fn top_rows(cells: Seq<int>, gw: int, gh: int, cx: int, cy: int, idx: int) -> (Seq<int>, int)
    decreases gw + 3 - cx,
{
    let d = diag(cells, gw, gh, cx, cy, idx);
    if in_grid(gw, gh, cx, cy) {
        top_rows(d.0, gw, gh, cx + 3, cy - 1, d.1)
    } else if in_grid(gw, gh, cx, cy + 1) {
        top_rows(d.0, gw, gh, cx + 2, cy + 1, d.1)
    } else {
        d
    }
}

/// The diagonals that start along the left column.
pub open spec fn left_cols(cells: Seq<int>, gw: int, gh: int, cx: int, cy: int, idx: int) -> (Seq<int>, int)
    decreases gh + 3 - cy,
{
    let d = diag(cells, gw, gh, cx, cy, idx);
    if in_grid(gw, gh, cx, cy) {
        left_cols(d.0, gw, gh, cx - 1, cy + 2, d.1)
    } else if in_grid(gw, gh, cx + 1, cy) {
        left_cols(d.0, gw, gh, cx + 1, cy + 3, d.1)
    } else {
        d
    }
}

/// The segment index of every cell of a `gw` by `gh` cross grid: the index of
/// the last cross stamped on it, or 0 where none was.
pub open spec fn cross_cells(gw: int, gh: int) -> Seq<int> {
    let top = top_rows(Seq::new((gw * gh) as nat, |i: int| 0), gw, gh, 0, 0, 0);
    left_cols(top.0, gw, gh, -1, 2, top.1).0
}

/// Segment index of column `x`, row `y` in the cross grid with cells of `c`
/// pixels on a `w` by `h` canvas.
pub open spec fn cross_index(w: int, h: int, c: int, x: int, y: int) -> int {
    cross_cells(ceil_div(w, c), ceil_div(h, c))[(y / c) * ceil_div(w, c) + x / c]
}

/// The cells held in memory store the model's indices modulo the codec's range.
pub open spec fn agrees(cells: Seq<u32>, model: Seq<int>) -> bool {
    &&& cells.len() == model.len()
    &&& forall|i: int| 0 <= i < cells.len() ==> #[trigger] cells[i] as int == model[i] % (INDEX_RANGE as int)
}

/// Exec form of `in_grid`.
fn cell_in_grid(gw: u32, gh: u32, cx: i64, cy: i64) -> (r: bool)
    ensures
        r == in_grid(gw as int, gh as int, cx as int, cy as int),
{
    cx >= 0 && cx < gw as i64 && cy >= 0 && cy < gh as i64
}

/// Exec form of `touching`.
fn cross_touching_grid(gw: u32, gh: u32, cx: i64, cy: i64) -> (r: bool)
    requires
        -4 <= cx <= gw + 4,
        -4 <= cy <= gh + 4,
    ensures
        r == touching(gw as int, gh as int, cx as int, cy as int),
{
    cell_in_grid(gw, gh, cx - 1, cy) || cell_in_grid(gw, gh, cx + 1, cy) || cell_in_grid(gw, gh, cx, cy - 1)
        || cell_in_grid(gw, gh, cx, cy + 1) || cell_in_grid(gw, gh, cx, cy)
}

/// Exec form of `stamp_cell` on the cells held in memory.
fn fill_cell(cells: &mut Vec<u32>, gw: u32, gh: u32, cx: i64, cy: i64, index: u32, Ghost(model): Ghost<Seq<int>>, Ghost(idx): Ghost<int>)
    requires
        agrees(old(cells)@, model),
        model.len() == gw * gh,
        index as int == idx % (INDEX_RANGE as int),
    ensures
        agrees(final(cells)@, stamp_cell(model, gw as int, gh as int, cx as int, cy as int, idx)),
        stamp_cell(model, gw as int, gh as int, cx as int, cy as int, idx).len() == model.len(),
{
    if cell_in_grid(gw, gh, cx, cy) {
        proof {
            lemma_pos_bound(gw as int, gh as int, cx as int, cy as int);
        }
        let _n = cells.len();
        cells.set((cy as usize) * (gw as usize) + (cx as usize), index);
    }
}

/// Exec form of `stamp_cross` on the cells held in memory.
fn fill_cross(cells: &mut Vec<u32>, gw: u32, gh: u32, cx: i64, cy: i64, index: u32, Ghost(model): Ghost<Seq<int>>, Ghost(idx): Ghost<int>)
    requires
        agrees(old(cells)@, model),
        model.len() == gw * gh,
        index as int == idx % (INDEX_RANGE as int),
        -4 <= cx <= gw + 4,
        -4 <= cy <= gh + 4,
    ensures
        agrees(final(cells)@, stamp_cross(model, gw as int, gh as int, cx as int, cy as int, idx)),
        stamp_cross(model, gw as int, gh as int, cx as int, cy as int, idx).len() == model.len(),
{
    let ghost (g, h, x, y) = (gw as int, gh as int, cx as int, cy as int);
    let ghost c1 = stamp_cell(model, g, h, x - 1, y, idx);
    let ghost c2 = stamp_cell(c1, g, h, x + 1, y, idx);
    let ghost c3 = stamp_cell(c2, g, h, x, y - 1, idx);
    let ghost c4 = stamp_cell(c3, g, h, x, y + 1, idx);
    fill_cell(cells, gw, gh, cx - 1, cy, index, Ghost(model), Ghost(idx));
    fill_cell(cells, gw, gh, cx + 1, cy, index, Ghost(c1), Ghost(idx));
    fill_cell(cells, gw, gh, cx, cy - 1, index, Ghost(c2), Ghost(idx));
    fill_cell(cells, gw, gh, cx, cy + 1, index, Ghost(c3), Ghost(idx));
    fill_cell(cells, gw, gh, cx, cy, index, Ghost(c4), Ghost(idx));
}

/// Stamps one diagonal of crosses; returns the next unused index.
fn fill_diag(cells: &mut Vec<u32>, gw: u32, gh: u32, start_cell_x: i64, start_cell_y: i64, start_index: u32, Ghost(model): Ghost<Seq<int>>, Ghost(idx): Ghost<int>) -> (r: (u32, Ghost<Seq<int>>, Ghost<int>))
    requires
        agrees(old(cells)@, model),
        model.len() == gw * gh,
        start_index as int == idx % (INDEX_RANGE as int),
        -4 <= start_cell_x <= gw + 4,
        -4 <= start_cell_y <= gh + 4,
    ensures
        (r.1@, r.2@) == diag(model, gw as int, gh as int, start_cell_x as int, start_cell_y as int, idx),
        agrees(final(cells)@, r.1@),
        r.1@.len() == model.len(),
        r.0 as int == r.2@ % (INDEX_RANGE as int),
{
    let ghost target = diag(model, gw as int, gh as int, start_cell_x as int, start_cell_y as int, idx);
    let mut index = start_index;
    let mut cell_x = start_cell_x;
    let mut cell_y = start_cell_y;
    let ghost mut cur = model;
    let ghost mut cur_idx = idx;
    while cross_touching_grid(gw, gh, cell_x, cell_y)
        invariant
            agrees(cells@, cur),
            cur.len() == gw * gh,
            index as int == cur_idx % (INDEX_RANGE as int),
            -4 <= cell_x <= gw + 4,
            -4 <= cell_y <= gh + 4,
            diag(cur, gw as int, gh as int, cell_x as int, cell_y as int, cur_idx) == target,
        decreases gw + 2 - cell_x,
    {
        fill_cross(cells, gw, gh, cell_x, cell_y, index, Ghost(cur), Ghost(cur_idx));
        proof {
            cur = stamp_cross(cur, gw as int, gh as int, cell_x as int, cell_y as int, cur_idx);
            cur_idx = cur_idx + 1;
        }
        index = if index as u64 + 1 == INDEX_RANGE { 0 } else { index + 1 };
        cell_x = cell_x + 2;
        cell_y = cell_y + 1;
    }
    (index, Ghost(cur), Ghost(cur_idx))
}

/// Stamps every cross of a `gw` by `gh` grid: first the diagonals that start
/// along the top row, then those that start along the left column.
fn cross_grid_cells(gw: u32, gh: u32) -> (cells: Vec<u32>)
    requires
        gw * gh <= usize::MAX,
    ensures
        agrees(cells@, cross_cells(gw as int, gh as int)),
        cells@.len() == gw * gh,
{
    let n: usize = (gw as usize) * (gh as usize);
    let mut cells: Vec<u32> = vec![0u32; n];
    let ghost g = gw as int;
    let ghost h = gh as int;
    let ghost init = Seq::new((g * h) as nat, |i: int| 0);
    let ghost top = top_rows(init, g, h, 0, 0, 0);
    let mut index: u32 = 0;
    let mut cell_x: i64 = 0;
    let mut cell_y: i64 = 0;
    let ghost mut cur = init;
    let ghost mut cur_idx: int = 0;
    assert(agrees(cells@, init));
    loop
        invariant_except_break
            top_rows(cur, g, h, cell_x as int, cell_y as int, cur_idx) == top,
            -1 <= cell_x <= gw + 4,
            -1 <= cell_y <= 1,
        invariant
            g == gw,
            h == gh,
            agrees(cells@, cur),
            cur.len() == gw * gh,
            index as int == cur_idx % (INDEX_RANGE as int),
        ensures
            (cur, cur_idx) == top,
        decreases gw + 3 - cell_x,
    {
        let r = fill_diag(&mut cells, gw, gh, cell_x, cell_y, index, Ghost(cur), Ghost(cur_idx));
        index = r.0;
        proof {
            cur = r.1@;
            cur_idx = r.2@;
        }
        if cell_in_grid(gw, gh, cell_x, cell_y) {
            cell_x = cell_x + 3;
            cell_y = cell_y - 1;
        } else if cell_in_grid(gw, gh, cell_x, cell_y + 1) {
            cell_x = cell_x + 2;
            cell_y = cell_y + 1;
        } else {
            break;
        }
    }
    let ghost left = left_cols(cur, g, h, -1, 2, cur_idx);
    cell_x = -1;
    cell_y = 2;
    loop
        invariant_except_break
            left_cols(cur, g, h, cell_x as int, cell_y as int, cur_idx) == left,
            -1 <= cell_x <= gw,
            2 <= cell_y <= gh + 4,
        invariant
            g == gw,
            h == gh,
            agrees(cells@, cur),
            cur.len() == gw * gh,
            index as int == cur_idx % (INDEX_RANGE as int),
        ensures
            (cur, cur_idx) == left,
        decreases gh + 3 - cell_y,
    {
        let r = fill_diag(&mut cells, gw, gh, cell_x, cell_y, index, Ghost(cur), Ghost(cur_idx));
        index = r.0;
        proof {
            cur = r.1@;
            cur_idx = r.2@;
        }
        if cell_in_grid(gw, gh, cell_x, cell_y) {
            cell_x = cell_x - 1;
            cell_y = cell_y + 2;
        } else if cell_in_grid(gw, gh, cell_x + 1, cell_y) {
            cell_x = cell_x + 1;
            cell_y = cell_y + 3;
        } else {
            break;
        }
    }
    cells
}

/// Partitions the canvas into `cross_intersection_width`-pixel cells and paints
/// each cell with the index of the last plus-shaped cross stamped on it (see
/// `cross_cells`); cells that no cross reaches keep index 0.
pub fn generate_cross_grid(width: u32, height: u32, cross_intersection_width: u32) -> (container: Vec<u8>)
    requires
        cross_intersection_width > 0,
        4 * (width * height) <= usize::MAX,
    ensures
        container@.len() == 4 * (width * height),
        forall|x: int, y: int|
            0 <= x < width && 0 <= y < height ==> #[trigger] pixel_is(
                container@,
                pos(width as int, x, y),
                cross_index(width as int, height as int, cross_intersection_width as int, x, y),
            ),
{
    let c = cross_intersection_width;
    let grid_width = div_ceil(width, c);
    let grid_height = div_ceil(height, c);
    proof {
        lemma_ceil_div(width as int, c as int);
        lemma_ceil_div(height as int, c as int);
        vstd::arithmetic::mul::lemma_mul_upper_bound(grid_width as int, width as int, grid_height as int, height as int);
    }
    let cells = cross_grid_cells(grid_width, grid_height);
    let ghost model = cross_cells(grid_width as int, grid_height as int);
    let ghost w = width as int;
    let n: usize = (width as usize) * (height as usize);
    let mut container = blank_stencil(n);
    let mut y: u32 = 0;
    let mut p: usize = 0;
    while y < height
        invariant
            y <= height,
            c > 0,
            n == w * height,
            4 * n <= usize::MAX,
            w == width,
            c == cross_intersection_width,
            grid_width == ceil_div(w, c as int),
            grid_height == ceil_div(height as int, c as int),
            model == cross_cells(grid_width as int, grid_height as int),
            agrees(cells@, model),
            cells@.len() == grid_width * grid_height,
            grid_width * grid_height <= usize::MAX,
            forall|xx: int| 0 <= xx < width ==> #[trigger] (xx / c as int) < grid_width,
            forall|yy: int| 0 <= yy < height ==> #[trigger] (yy / c as int) < grid_height,
            p == pos(w, 0, y as int),
            container@.len() == 4 * n,
            forall|xx: int, yy: int|
                0 <= xx < width && 0 <= yy < y ==> #[trigger] pixel_is(
                    container@,
                    pos(w, xx, yy),
                    cross_index(w, height as int, c as int, xx, yy),
                ),
        decreases height - y,
    {
        let mut x: u32 = 0;
        while x < width
            invariant
                y < height,
                x <= width,
                c > 0,
                n == w * height,
                4 * n <= usize::MAX,
                w == width,
                c == cross_intersection_width,
                grid_width == ceil_div(w, c as int),
                grid_height == ceil_div(height as int, c as int),
                model == cross_cells(grid_width as int, grid_height as int),
                agrees(cells@, model),
                cells@.len() == grid_width * grid_height,
                grid_width * grid_height <= usize::MAX,
                forall|xx: int| 0 <= xx < width ==> #[trigger] (xx / c as int) < grid_width,
                forall|yy: int| 0 <= yy < height ==> #[trigger] (yy / c as int) < grid_height,
                p == pos(w, x as int, y as int),
                container@.len() == 4 * n,
                forall|xx: int, yy: int|
                    0 <= xx < width && 0 <= yy < y ==> #[trigger] pixel_is(
                        container@,
                        pos(w, xx, yy),
                        cross_index(w, height as int, c as int, xx, yy),
                    ),
                forall|xx: int|
                    0 <= xx < x ==> #[trigger] pixel_is(
                        container@,
                        pos(w, xx, y as int),
                        cross_index(w, height as int, c as int, xx, y as int),
                    ),
            decreases width - x,
        {
            let cell_x = x / c;
            let cell_y = y / c;
            assert((x as int / c as int) < grid_width);
            assert((y as int / c as int) < grid_height);
            proof {
                lemma_pos_bound(grid_width as int, grid_height as int, cell_x as int, cell_y as int);
                lemma_pos_bound(w, height as int, x as int, y as int);
            }
            let cell = cells[(cell_y as usize) * (grid_width as usize) + (cell_x as usize)];
            let ghost before = container@;
            fill_pixel(&mut container, p, cell as u64);
            proof {
                let i = (cell_y as int) * (grid_width as int) + cell_x as int;
                assert(cell as int == model[i] % (INDEX_RANGE as int));
                assert((model[i] % (INDEX_RANGE as int)) % (INDEX_RANGE as int) == model[i] % (INDEX_RANGE as int));
                assert forall|xx: int, yy: int|
                    0 <= xx < width && 0 <= yy < y implies #[trigger] pixel_is(
                        container@,
                        pos(w, xx, yy),
                        cross_index(w, height as int, c as int, xx, yy),
                    ) by {
                    lemma_pos_order(w, xx, yy, x as int, y as int);
                    lemma_pos_bound(w, height as int, xx, yy);
                    assert(pixel_is(before, pos(w, xx, yy), cross_index(w, height as int, c as int, xx, yy)));
                }
                assert forall|xx: int| 0 <= xx < x + 1 implies #[trigger] pixel_is(
                    container@,
                    pos(w, xx, y as int),
                    cross_index(w, height as int, c as int, xx, y as int),
                ) by {
                    if xx < x {
                        lemma_pos_order(w, xx, y as int, x as int, y as int);
                        assert(pixel_is(before, pos(w, xx, y as int), cross_index(w, height as int, c as int, xx, y as int)));
                    }
                }
            }
            p = p + 1;
            x = x + 1;
        }
        assert(pos(w, x as int, y as int) == pos(w, 0, y + 1)) by (nonlinear_arith)
            requires
                x == w,
        ;
        y = y + 1;
    }
    container
}

} // verus!
