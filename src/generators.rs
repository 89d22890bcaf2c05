//! Geometric stencil generators.

use vstd::prelude::*;
use crate::arith::{ceil_div, div_ceil, lemma_ceil_div};
use crate::circle::{circle_cell, circle_fits, generate_circle_stencil};
use crate::codec::decode;
use crate::args::Generator;
use crate::cross::{cross_index, generate_cross_grid};
use crate::flood::{fill_bucket_grid, is_flood_stencil};
use crate::image_tools::{BoolMask, RawImage};
use crate::masks::{generate_from_masks, mask_grid_index, mask_start, masks_valid};
use crate::rings::{generate_concentric_circle_grid, ring_index};
use crate::stencil::{blank_stencil, fill_pixel, lemma_pos_bound, lemma_pos_order, pixel_is, pos};

verus! {

/// Segment index of column `x`, row `y` in a grid of `s`-pixel squares on a
/// canvas `w` pixels wide, numbered row by row from `start`.
pub open spec fn square_index(w: int, s: int, start: int, x: int, y: int) -> int {
    x / s + (y / s) * ceil_div(w, s) + start
}

/// Tiles the canvas with `side_length`-pixel squares, numbered row by row from
/// `start_at`; squares at the right and bottom edges may be cut.
pub fn generate_square_grid(width: u32, height: u32, side_length: u32, start_at: u32) -> (container: Vec<u8>)
    requires
        side_length > 0,
        4 * (width * height) <= usize::MAX,
    ensures
        container@.len() == 4 * (width * height),
        forall|x: int, y: int|
            0 <= x < width && 0 <= y < height ==> #[trigger] pixel_is(
                container@,
                pos(width as int, x, y),
                square_index(width as int, side_length as int, start_at as int, x, y),
            ),
{
    let n: usize = (width as usize) * (height as usize);
    let mut container = blank_stencil(n);
    let squares_per_row = div_ceil(width, side_length);
    proof {
        lemma_ceil_div(width as int, side_length as int);
    }
    let ghost w = width as int;
    let ghost s = side_length as int;
    let mut y: u32 = 0;
    let mut p: usize = 0;
    while y < height
        invariant
            y <= height,
            side_length > 0,
            n == w * height,
            4 * n <= usize::MAX,
            w == width,
            s == side_length,
            squares_per_row == ceil_div(w, s),
            squares_per_row <= width,
            p == pos(w, 0, y as int),
            container@.len() == 4 * n,
            forall|xx: int, yy: int|
                0 <= xx < width && 0 <= yy < y ==> #[trigger] pixel_is(
                    container@,
                    pos(w, xx, yy),
                    square_index(w, s, start_at as int, xx, yy),
                ),
        decreases height - y,
    {
        let mut x: u32 = 0;
        while x < width
            invariant
                y < height,
                x <= width,
                side_length > 0,
                n == w * height,
                4 * n <= usize::MAX,
                w == width,
                s == side_length,
                squares_per_row == ceil_div(w, s),
                squares_per_row <= width,
                p == pos(w, x as int, y as int),
                container@.len() == 4 * n,
                forall|xx: int, yy: int|
                    0 <= xx < width && 0 <= yy < y ==> #[trigger] pixel_is(
                        container@,
                        pos(w, xx, yy),
                        square_index(w, s, start_at as int, xx, yy),
                    ),
                forall|xx: int|
                    0 <= xx < x ==> #[trigger] pixel_is(
                        container@,
                        pos(w, xx, y as int),
                        square_index(w, s, start_at as int, xx, y as int),
                    ),
            decreases width - x,
        {
            let square_x = x / side_length;
            let square_y = y / side_length;
            assert((square_y as int) * (squares_per_row as int) <= (u32::MAX as int) * (u32::MAX as int))
                by (nonlinear_arith)
                requires
                    square_y <= u32::MAX,
                    squares_per_row <= u32::MAX,
            ;
            let segment_index: u64 = square_x as u64 + (square_y as u64) * (squares_per_row as u64)
                + start_at as u64;
            proof {
                lemma_pos_bound(w, height as int, x as int, y as int);
            }
            let ghost before = container@;
            fill_pixel(&mut container, p, segment_index);
            proof {
                assert forall|xx: int, yy: int|
                    0 <= xx < width && 0 <= yy < y implies #[trigger] pixel_is(
                        container@,
                        pos(w, xx, yy),
                        square_index(w, s, start_at as int, xx, yy),
                    ) by {
                    lemma_pos_order(w, xx, yy, x as int, y as int);
                    lemma_pos_bound(w, height as int, xx, yy);
                    assert(pixel_is(before, pos(w, xx, yy), square_index(w, s, start_at as int, xx, yy)));
                }
                assert forall|xx: int| 0 <= xx < x + 1 implies #[trigger] pixel_is(
                    container@,
                    pos(w, xx, y as int),
                    square_index(w, s, start_at as int, xx, y as int),
                ) by {
                    if xx < x {
                        lemma_pos_order(w, xx, y as int, x as int, y as int);
                        assert(pixel_is(before, pos(w, xx, y as int), square_index(w, s, start_at as int, xx, y as int)));
                    }
                }
            }
            p = p + 1;
            x = x + 1;
        }
        assert(pos(w, x as int, y as int) == pos(w, 0, y + 1)) by (nonlinear_arith)
            requires
                x == w,
        ;
        y = y + 1;
    }
    container
}

/// Why a stencil could not be generated or composited.
#[derive(Debug, PartialEq, Eq, Structural)]
pub enum StencilError {
    /// A side length, radius or cross width of zero, an image or canvas with no
    /// pixels, or a mask with no pixels.
    ZeroSize,
    /// The mask grid was given no masks.
    NoMasks,
    /// The masks do not all share one width and height.
    InconsistentMaskSize,
    /// A mask is not a single-channel image without alpha.
    UnsupportedMaskFormat,
    /// Two images that must share their dimensions do not.
    DimensionMismatch,
    /// The generator needs data read from disk that was not supplied.
    MissingInput,
    /// The canvas or a tile does not fit in memory.
    TooLarge,
}

/// Why `mask_container` refused its arguments.
#[derive(Debug, PartialEq, Eq, Structural)]
pub enum MaskingError {
    LengthMismatch,
}

/// Byte `k` (0, 1 or 2) of a colour triple.
pub open spec fn rgb_byte(rgb: (u8, u8, u8), k: int) -> u8 {
    if k == 0 {
        rgb.0
    } else if k == 1 {
        rgb.1
    } else {
        rgb.2
    }
}

/// Repeats `stencil` across a `width` by `height` canvas: the result at column
/// `x`, row `y` is the stencil's cell at `(x mod its width, y mod its height)`.
pub fn repeat_stencil_to_mask(stencil: &BoolMask, width: u32, height: u32) -> (mask: Vec<bool>)
    requires
        stencil.wf(),
        stencil.width > 0,
        stencil.height > 0,
        width * height <= usize::MAX,
    ensures
        mask@.len() == width * height,
        forall|x: int, y: int|
            0 <= x < width && 0 <= y < height ==> #[trigger] mask@[pos(width as int, x, y)]
                == stencil.at(x % stencil.width as int, y % stencil.height as int),
{
    let n: usize = (width as usize) * (height as usize);
    let mut mask: Vec<bool> = Vec::with_capacity(n);
    let y_len = stencil.height;
    let x_len = stencil.width;
    let _cells = stencil.cells.len();
    let ghost w = width as int;
    let mut y: u32 = 0;
    while y < height
        invariant
            y <= height,
            stencil.wf(),
            x_len == stencil.width,
            y_len == stencil.height,
            x_len > 0,
            y_len > 0,
            x_len * y_len <= usize::MAX,
            w == width,
            n == w * height,
            mask@.len() == pos(w, 0, y as int),
            forall|xx: int, yy: int|
                0 <= xx < width && 0 <= yy < y ==> #[trigger] mask@[pos(w, xx, yy)] == stencil.at(
                    xx % x_len as int,
                    yy % y_len as int,
                ),
        decreases height - y,
    {
        let mut x: u32 = 0;
        while x < width
            invariant
                y < height,
                x <= width,
                stencil.wf(),
                x_len == stencil.width,
                y_len == stencil.height,
                x_len > 0,
                y_len > 0,
                x_len * y_len <= usize::MAX,
                w == width,
                n == w * height,
                mask@.len() == pos(w, x as int, y as int),
                forall|xx: int, yy: int|
                    0 <= xx < width && 0 <= yy < y ==> #[trigger] mask@[pos(w, xx, yy)] == stencil.at(
                        xx % x_len as int,
                        yy % y_len as int,
                    ),
                forall|xx: int|
                    0 <= xx < x ==> #[trigger] mask@[pos(w, xx, y as int)] == stencil.at(
                        xx % x_len as int,
                        y as int % y_len as int,
                    ),
            decreases width - x,
        {
            let sx = x % x_len;
            let sy = y % y_len;
            proof {
                lemma_pos_bound(x_len as int, y_len as int, sx as int, sy as int);
                lemma_pos_bound(w, height as int, x as int, y as int);
            }
            let cell = stencil.cells[(sy as usize) * (x_len as usize) + (sx as usize)];
            let ghost before = mask@;
            mask.push(cell);
            proof {
                assert forall|xx: int, yy: int|
                    0 <= xx < width && 0 <= yy < y implies #[trigger] mask@[pos(w, xx, yy)] == stencil.at(
                        xx % x_len as int,
                        yy % y_len as int,
                    ) by {
                    lemma_pos_order(w, xx, yy, x as int, y as int);
                    assert(mask@[pos(w, xx, yy)] == before[pos(w, xx, yy)]);
                }
                assert forall|xx: int| 0 <= xx < x + 1 implies #[trigger] mask@[pos(w, xx, y as int)]
                    == stencil.at(xx % x_len as int, y as int % y_len as int) by {
                    lemma_pos_order(w, xx, y as int, x as int, y as int);
                    if xx < x {
                        assert(mask@[pos(w, xx, y as int)] == before[pos(w, xx, y as int)]);
                    }
                }
            }
            x = x + 1;
        }
        assert(pos(w, x as int, y as int) == pos(w, 0, y + 1)) by (nonlinear_arith)
            requires
                x == w,
        ;
        y = y + 1;
    }
    assert(pos(w, 0, height as int) == width * height) by (nonlinear_arith)
        requires
            w == width,
    ;
    proof {
        assert forall|x: int, y: int| 0 <= x < width && 0 <= y < height implies #[trigger] mask@[pos(
            width as int,
            x,
            y,
        )] == stencil.at(x % stencil.width as int, y % stencil.height as int) by {
            lemma_pos_bound(w, height as int, x, y);
        }
    }
    mask
}

/// Paints `false_value` over the colour bytes of every pixel whose mask cell is
/// false; alpha and the other pixels are kept. Fails, changing nothing, when
/// the buffer does not hold four bytes per mask cell.
pub fn mask_container(bool_mask: &Vec<bool>, false_value: (u8, u8, u8), container: &mut Vec<u8>) -> (r: Result<(), MaskingError>)
    ensures
        r is Err <==> old(container)@.len() != 4 * bool_mask@.len(),
        r is Err ==> final(container)@ == old(container)@,
        final(container)@.len() == old(container)@.len(),
        r is Ok ==> forall|p: int, k: int|
            0 <= p < bool_mask@.len() && 0 <= k < 4 ==> #[trigger] final(container)@[4 * p + k] == if !bool_mask@[p] && k < 3 {
                rgb_byte(false_value, k)
            } else {
                old(container)@[4 * p + k]
            },
{
    if bool_mask.len() > container.len() / 4 || container.len() != 4 * bool_mask.len() {
        return Err(MaskingError::LengthMismatch);
    }
    let ghost old_c = container@;
    let mut i: usize = 0;
    while i < bool_mask.len()
        invariant
            i <= bool_mask@.len(),
            container@.len() == old_c.len(),
            old_c.len() == 4 * bool_mask@.len(),
            old_c.len() <= usize::MAX,
            forall|p: int, k: int|
                0 <= p < i && 0 <= k < 4 ==> #[trigger] container@[4 * p + k] == if !bool_mask@[p] && k < 3 {
                    rgb_byte(false_value, k)
                } else {
                    old_c[4 * p + k]
                },
            forall|j: int| 4 * i <= j < old_c.len() ==> #[trigger] container@[j] == old_c[j],
        decreases bool_mask@.len() - i,
    {
        if !bool_mask[i] {
            container.set(4 * i, false_value.0);
            container.set(4 * i + 1, false_value.1);
            container.set(4 * i + 2, false_value.2);
        }
        i = i + 1;
    }
    Ok(())
}

/// A grid of circles of radius `radius`, each in its own `(2 radius + 1)`-pixel
/// square. Pixels inside a circle store the square's index, numbered row by row
/// from 1; the background stores 0.
pub fn generate_circle_grid(width: u32, height: u32, radius: u32) -> (container: Vec<u8>)
    requires
        circle_fits(radius),
        4 * (width * height) <= usize::MAX,
    ensures
        container@.len() == 4 * (width * height),
        forall|x: int, y: int|
            0 <= x < width && 0 <= y < height ==> #[trigger] pixel_is(
                container@,
                pos(width as int, x, y),
                circle_grid_index(width as int, radius as int, x, y),
            ),
{
    let circle = generate_circle_stencil(radius);
    let side = circle.width;
    let mut squares = generate_square_grid(width, height, side, 1);
    let circle_mask = repeat_stencil_to_mask(&circle, width, height);
    let ghost sq = squares@;
    let r = mask_container(&circle_mask, (0, 0, 0), &mut squares);
    assert(r is Ok);
    proof {
        assert forall|x: int, y: int|
            0 <= x < width && 0 <= y < height implies #[trigger] pixel_is(
                squares@,
                pos(width as int, x, y),
                circle_grid_index(width as int, radius as int, x, y),
            ) by {
            let p = pos(width as int, x, y);
            lemma_pos_bound(width as int, height as int, x, y);
            assert(pixel_is(sq, p, square_index(width as int, side as int, 1, x, y)));
            assert(circle_mask@[p] == circle.at(x % side as int, y % side as int));
            assert(squares@[4 * p + 0] == if !circle_mask@[p] { 0u8 } else { sq[4 * p + 0] });
            assert(squares@[4 * p + 1] == if !circle_mask@[p] { 0u8 } else { sq[4 * p + 1] });
            assert(squares@[4 * p + 2] == if !circle_mask@[p] { 0u8 } else { sq[4 * p + 2] });
            assert(squares@[4 * p + 3] == sq[4 * p + 3]);
            assert(decode(0, 0, 0) == 0);
        }
    }
    squares
}

/// Segment index of column `x`, row `y` in the circle grid of radius `r`.
pub open spec fn circle_grid_index(w: int, r: int, x: int, y: int) -> int {
    let side = 2 * r + 1;
    if circle_cell(r, y % side, x % side) {
        square_index(w, side, 1, x, y)
    } else {
        0
    }
}

/// What a generator reads from disk, loaded by the caller: the masks of a mask
/// grid, or the source image of a flood fill.
pub enum GeneratorInput {
    Nothing,
    Masks(Vec<BoolMask>),
    Image(RawImage),
}

impl GeneratorInput {
    /// Every mask or image it holds is well formed.
    pub open spec fn wf(&self) -> bool {
        match self {
            GeneratorInput::Nothing => true,
            GeneratorInput::Masks(ms) => forall|k: int| 0 <= k < ms@.len() ==> (#[trigger] ms@[k]).wf(),
            GeneratorInput::Image(img) => img.wf(),
        }
    }
}

/// Why a set of masks cannot be tiled, if it cannot.
pub open spec fn mask_error(masks: Seq<BoolMask>) -> Option<StencilError> {
    if masks.len() == 0 {
        Some(StencilError::NoMasks)
    } else if exists|k: int|
        0 <= k < masks.len() && ((#[trigger] masks[k]).width != masks[0].width || masks[k].height
            != masks[0].height) {
        Some(StencilError::InconsistentMaskSize)
    } else if masks[0].width == 0 || masks[0].height == 0 {
        Some(StencilError::ZeroSize)
    } else {
        None
    }
}

/// Why `generate_stencil` fails on these arguments, if it does.
pub open spec fn generate_error(width: u32, height: u32, generator: Generator, input: GeneratorInput) -> Option<StencilError> {
    if width == 0 || height == 0 {
        Some(StencilError::ZeroSize)
    } else if 4 * (width * height) > usize::MAX {
        Some(StencilError::TooLarge)
    } else {
        match generator {
            Generator::SquareGrid(c) => if c.side_length == 0 { Some(StencilError::ZeroSize) } else { None },
            Generator::CircleGrid(c) => if c.radius == 0 {
                Some(StencilError::ZeroSize)
            } else if !circle_fits(c.radius) {
                Some(StencilError::TooLarge)
            } else {
                None
            },
            Generator::ConcentricCircleGrid(c) => if c.radius == 0 { Some(StencilError::ZeroSize) } else { None },
            Generator::CrossGrid(c) => if c.cross_intersection_width == 0 {
                Some(StencilError::ZeroSize)
            } else {
                None
            },
            Generator::MaskGrid(_) => match input {
                GeneratorInput::Masks(ms) => mask_error(ms@),
                _ => Some(StencilError::MissingInput),
            },
            Generator::FloodFill(_) => match input {
                GeneratorInput::Image(img) => if img.width != width || img.height != height {
                    Some(StencilError::DimensionMismatch)
                } else {
                    None
                },
                _ => Some(StencilError::MissingInput),
            },
        }
    }
}

/// `out` is the stencil that `generator` paints on a `width` by `height` canvas.
pub open spec fn is_generated(width: u32, height: u32, generator: Generator, input: GeneratorInput, out: RawImage) -> bool {
    let w = width as int;
    let h = height as int;
    &&& out.width == width
    &&& out.height == height
    &&& out.has_alpha
    &&& out.wf()
    &&& match generator {
        Generator::SquareGrid(c) => forall|x: int, y: int|
            0 <= x < w && 0 <= y < h ==> #[trigger] pixel_is(
                out.data@,
                pos(w, x, y),
                square_index(w, c.side_length as int, 0, x, y),
            ),
        Generator::CircleGrid(c) => forall|x: int, y: int|
            0 <= x < w && 0 <= y < h ==> #[trigger] pixel_is(
                out.data@,
                pos(w, x, y),
                circle_grid_index(w, c.radius as int, x, y),
            ),
        Generator::ConcentricCircleGrid(c) => forall|x: int, y: int|
            0 <= x < w && 0 <= y < h ==> #[trigger] pixel_is(
                out.data@,
                pos(w, x, y),
                ring_index(w, h, c.radius as int, x, y),
            ),
        Generator::CrossGrid(c) => forall|x: int, y: int|
            0 <= x < w && 0 <= y < h ==> #[trigger] pixel_is(
                out.data@,
                pos(w, x, y),
                cross_index(w, h, c.cross_intersection_width as int, x, y),
            ),
        Generator::MaskGrid(_) => input matches GeneratorInput::Masks(ms) && forall|x: int, y: int|
            0 <= x < w && 0 <= y < h ==> #[trigger] pixel_is(
                out.data@,
                pos(w, x, y),
                mask_grid_index(ms@, ms@.len() as int, mask_start(ms@), w, h, x, y),
            ),
        Generator::FloodFill(_) => input matches GeneratorInput::Image(img) && is_flood_stencil(img, out),
    }
}

/// Builds the stencil that `generator` paints on a `width` by `height` canvas,
/// every pixel opaque and storing its segment index. The mask grid and the
/// flood fill read their data from `input`.
pub fn generate_stencil(width: u32, height: u32, generator: &Generator, input: &GeneratorInput) -> (r: Result<RawImage, StencilError>)
    requires
        input.wf(),
    ensures
        r is Err <==> generate_error(width, height, *generator, *input) is Some,
        r matches Err(e) ==> generate_error(width, height, *generator, *input) == Some(e),
        r matches Ok(out) ==> is_generated(width, height, *generator, *input, out),
{
    assert((width as int) * (height as int) <= 0x1_0000_0000 * 0x1_0000_0000) by (nonlinear_arith)
        requires
            width <= 0x1_0000_0000int,
            height <= 0x1_0000_0000int,
    ;
    if width == 0 || height == 0 {
        return Err(StencilError::ZeroSize);
    }
    let n: u128 = (width as u128) * (height as u128);
    if n > (usize::MAX / 4) as u128 {
        return Err(StencilError::TooLarge);
    }
    let data = match generator {
        Generator::SquareGrid(c) => {
            if c.side_length == 0 {
                return Err(StencilError::ZeroSize);
            }
            generate_square_grid(width, height, c.side_length, 0)
        },
        Generator::CircleGrid(c) => {
            if c.radius == 0 {
                return Err(StencilError::ZeroSize);
            }
            let side: u128 = 2 * (c.radius as u128) + 1;
            assert(side * side <= 0x4_0000_0000 * 0x4_0000_0000) by (nonlinear_arith)
                requires
                    side <= 0x4_0000_0000int,
            ;
            if c.radius >= 0x8000_0000 || side * side > usize::MAX as u128 {
                return Err(StencilError::TooLarge);
            }
            generate_circle_grid(width, height, c.radius)
        },
        Generator::ConcentricCircleGrid(c) => {
            if c.radius == 0 {
                return Err(StencilError::ZeroSize);
            }
            generate_concentric_circle_grid(width, height, c.radius)
        },
        Generator::CrossGrid(c) => {
            if c.cross_intersection_width == 0 {
                return Err(StencilError::ZeroSize);
            }
            generate_cross_grid(width, height, c.cross_intersection_width)
        },
        Generator::MaskGrid(_) => {
            match input {
                GeneratorInput::Masks(ms) => {
                    match generate_from_masks(width, height, ms) {
                        Ok(data) => data,
                        Err(e) => {
                            return Err(e);
                        },
                    }
                },
                _ => {
                    return Err(StencilError::MissingInput);
                },
            }
        },
        Generator::FloodFill(_) => {
            match input {
                GeneratorInput::Image(img) => {
                    if img.width != width || img.height != height {
                        return Err(StencilError::DimensionMismatch);
                    }
                    return Ok(fill_bucket_grid(img));
                },
                _ => {
                    return Err(StencilError::MissingInput);
                },
            }
        },
    };
    Ok(RawImage { width, height, has_alpha: true, data })
}

/// Builds the stencil of `generator` at the size of `im`.
pub fn generate_stencil_from_image(im: &RawImage, generator: &Generator, input: &GeneratorInput) -> (r: Result<RawImage, StencilError>)
    requires
        input.wf(),
    ensures
        r is Err <==> generate_error(im.width, im.height, *generator, *input) is Some,
        r matches Err(e) ==> generate_error(im.width, im.height, *generator, *input) == Some(e),
        r matches Ok(out) ==> is_generated(im.width, im.height, *generator, *input, out),
{
    generate_stencil(im.width, im.height, generator, input)
}

/// Some pixel of the `w` by `h` square grid has index `k`.
pub open spec fn square_index_used(w: int, h: int, s: int, k: int) -> bool {
    exists|x: int, y: int| 0 <= x < w && 0 <= y < h && #[trigger] square_index(w, s, 0, x, y) == k
}

/// Some pixel of the stencil `out` stores index `k`.
pub open spec fn stencil_uses(out: RawImage, k: int) -> bool {
    exists|x: int, y: int|
        0 <= x < out.width && 0 <= y < out.height && #[trigger] out.index_at(pos(out.width as int, x, y)) == k
}

/// The square grid uses exactly the indices `0 .. ceil(w/s) * ceil(h/s)`:
/// every pixel's index lies in that range and every index of it is used.
pub proof fn lemma_square_grid_indices(w: int, h: int, s: int)
    requires
        w > 0,
        h > 0,
        s > 0,
    ensures
        forall|x: int, y: int|
            0 <= x < w && 0 <= y < h ==> 0 <= #[trigger] square_index(w, s, 0, x, y) < ceil_div(w, s) * ceil_div(h, s),
        forall|k: int| 0 <= k < ceil_div(w, s) * ceil_div(h, s) ==> #[trigger] square_index_used(w, h, s, k),
{
    lemma_ceil_div(w, s);
    lemma_ceil_div(h, s);
    let cw = ceil_div(w, s);
    let ch = ceil_div(h, s);
    assert forall|x: int, y: int| 0 <= x < w && 0 <= y < h implies 0 <= #[trigger] square_index(w, s, 0, x, y) < cw * ch by {
        let a = x / s;
        let b = y / s;
        assert(a < cw && b < ch);
        vstd::arithmetic::div_mod::lemma_div_pos_is_pos(x, s);
        vstd::arithmetic::div_mod::lemma_div_pos_is_pos(y, s);
        assert(0 <= a + b * cw < cw * ch) by (nonlinear_arith)
            requires
                0 <= a < cw,
                0 <= b < ch,
        {
            assert(b * cw + cw <= ch * cw);
        }
    }
    assert forall|k: int| 0 <= k < cw * ch implies #[trigger] square_index_used(w, h, s, k) by {
        vstd::arithmetic::div_mod::lemma_fundamental_div_mod(k, cw);
        vstd::arithmetic::div_mod::lemma_mod_bound(k, cw);
        vstd::arithmetic::div_mod::lemma_div_pos_is_pos(k, cw);
        let a = k % cw;
        let b = k / cw;
        assert(b < ch) by (nonlinear_arith)
            requires
                k == cw * b + a,
                0 <= a,
                k < cw * ch,
                cw > 0,
        {
            if b >= ch {
                assert(cw * b >= cw * ch);
            }
        }
        let x = a * s;
        let y = b * s;
        vstd::arithmetic::div_mod::lemma_div_multiples_vanish(a, s);
        vstd::arithmetic::div_mod::lemma_div_multiples_vanish(b, s);
        assert(s * a == a * s && s * b == b * s) by (nonlinear_arith);
        assert(0 <= x < w && 0 <= y < h) by (nonlinear_arith)
            requires
                0 <= a < cw,
                0 <= b < ch,
                cw * s < w + s,
                ch * s < h + s,
                x == a * s,
                y == b * s,
                s > 0,
        {
            assert(a * s + s <= cw * s);
            assert(b * s + s <= ch * s);
        }
        assert(b * cw == cw * b) by (nonlinear_arith);
        assert(square_index(w, s, 0, x, y) == k);
    }
}

/// A generated square grid whose index range fits the codec stores each
/// pixel's index exactly, and uses every index of that range.
pub proof fn lemma_square_grid_coverage(width: u32, height: u32, side_length: u32, input: GeneratorInput, out: RawImage)
    requires
        width > 0,
        height > 0,
        side_length > 0,
        is_generated(
            width,
            height,
            Generator::SquareGrid(crate::args::SquareGridCommand { side_length }),
            input,
            out,
        ),
        ceil_div(width as int, side_length as int) * ceil_div(height as int, side_length as int) <= crate::codec::INDEX_RANGE,
    ensures
        forall|x: int, y: int|
            0 <= x < width && 0 <= y < height ==> #[trigger] out.index_at(pos(width as int, x, y))
                == square_index(width as int, side_length as int, 0, x, y),
        forall|k: int|
            0 <= k < ceil_div(width as int, side_length as int) * ceil_div(height as int, side_length as int)
                ==> #[trigger] stencil_uses(out, k),
{
    let w = width as int;
    let s = side_length as int;
    lemma_square_grid_indices(w, height as int, s);
    let g = Generator::SquareGrid(crate::args::SquareGridCommand { side_length });
    assert(forall|x: int, y: int|
        0 <= x < w && 0 <= y < height ==> #[trigger] pixel_is(out.data@, pos(w, x, y), square_index(w, s, 0, x, y))) by {
        match g {
            Generator::SquareGrid(c) => {
                assert(c.side_length == side_length);
            },
            _ => {},
        }
    }
    assert forall|x: int, y: int| 0 <= x < width && 0 <= y < height implies #[trigger] out.index_at(pos(w, x, y))
        == square_index(w, s, 0, x, y) by {
        assert(pixel_is(out.data@, pos(w, x, y), square_index(w, s, 0, x, y)));
        let i = square_index(w, s, 0, x, y);
        assert(0 <= i < crate::codec::INDEX_RANGE);
        vstd::arithmetic::div_mod::lemma_small_mod(i as nat, crate::codec::INDEX_RANGE as nat);
    }
    assert forall|k: int|
        0 <= k < ceil_div(w, s) * ceil_div(height as int, s) implies #[trigger] stencil_uses(out, k) by {
        assert(square_index_used(w, height as int, s, k));
        let (x, y) = choose|x: int, y: int| 0 <= x < w && 0 <= y < height && #[trigger] square_index(w, s, 0, x, y) == k;
        assert(out.index_at(pos(w, x, y)) == k);
    }
}

} // verus!
