use intersection_painting::circle::generate_circle_stencil;
use intersection_painting::generators::{generate_square_grid, mask_container, MaskingError};
use intersection_painting::{
    generate_stencil, rgb_to_index, segment_index_to_rgb, BoolMask, CircleGridCommand,
    ConcentricCircleGridCommand, CrossGridCommand, Generator, GeneratorInput, MaskGridCommand, RawImage,
    SquareGridCommand, StencilError,
};

fn indices(img: &RawImage) -> Vec<usize> {
    let bpp = if img.has_alpha { 4 } else { 3 };
    img.data
        .chunks(bpp)
        .map(|p| rgb_to_index(p[0], p[1], p[2]))
        .collect()
}

fn all_opaque(img: &RawImage) -> bool {
    img.has_alpha && img.data.chunks(4).all(|p| p[3] == 255)
}

fn generate(width: u32, height: u32, g: Generator) -> RawImage {
    generate_stencil(width, height, &g, &GeneratorInput::Nothing).unwrap()
}

fn mask(width: u32, height: u32, cells: &[u8]) -> BoolMask {
    BoolMask { width, height, cells: cells.iter().map(|c| *c != 0).collect() }
}

#[test]
fn codec_encodes_little_endian_bytes() {
    assert_eq!(segment_index_to_rgb(0x123456), (0x56, 0x34, 0x12));
    assert_eq!(rgb_to_index(0x56, 0x34, 0x12), 0x123456);
    assert_eq!(segment_index_to_rgb(0), (0, 0, 0));
    assert_eq!(segment_index_to_rgb(16_777_215), (255, 255, 255));
}

#[test]
fn codec_round_trip() {
    for i in [0u32, 1, 255, 256, 65535, 65536, 1_000_000, 16_777_215] {
        let (r, g, b) = segment_index_to_rgb(i);
        assert_eq!(rgb_to_index(r, g, b), i as usize);
    }
}

#[test]
fn codec_wraps_large_indices() {
    assert_eq!(segment_index_to_rgb(16_777_216 + 5), (5, 0, 0));
    assert_eq!(segment_index_to_rgb(u32::MAX), (255, 255, 255));
}

#[test]
fn square_grid_four_quadrants() {
    let s = generate(4, 4, Generator::SquareGrid(SquareGridCommand { side_length: 2 }));
    assert_eq!((s.width, s.height), (4, 4));
    assert_eq!(indices(&s), vec![0, 0, 1, 1, 0, 0, 1, 1, 2, 2, 3, 3, 2, 2, 3, 3]);
    assert!(all_opaque(&s));
}

#[test]
fn square_grid_cut_squares_at_edges() {
    // ceil(5 / 2) = 3 squares per row
    let s = generate(5, 3, Generator::SquareGrid(SquareGridCommand { side_length: 2 }));
    assert_eq!(indices(&s), vec![0, 0, 1, 1, 2, 0, 0, 1, 1, 2, 3, 3, 4, 4, 5]);
}

#[test]
fn square_grid_distinct_count() {
    let s = generate(10, 7, Generator::SquareGrid(SquareGridCommand { side_length: 3 }));
    let mut idx = indices(&s);
    idx.sort();
    idx.dedup();
    assert_eq!(idx, (0..(4 * 3)).collect::<Vec<usize>>());
}

#[test]
fn square_grid_start_offset() {
    let data = generate_square_grid(2, 1, 1, 7);
    assert_eq!(data, vec![7, 0, 0, 255, 8, 0, 0, 255]);
}

#[test]
fn square_grid_zero_side_is_error() {
    let r = generate_stencil(4, 4, &Generator::SquareGrid(SquareGridCommand { side_length: 0 }), &GeneratorInput::Nothing);
    assert!(matches!(r, Err(StencilError::ZeroSize)));
}

#[test]
fn circle_tile_radius_one_is_plus() {
    let t = generate_circle_stencil(1);
    assert_eq!((t.width, t.height), (3, 3));
    assert_eq!(t.cells, vec![false, true, false, true, true, true, false, true, false]);
}

#[test]
fn circle_tile_radius_two() {
    let t = generate_circle_stencil(2);
    let expected: Vec<bool> = [0, 0, 1, 0, 0, 0, 1, 1, 1, 0, 1, 1, 1, 1, 1, 0, 1, 1, 1, 0, 0, 0, 1, 0, 0]
        .iter()
        .map(|c| *c == 1)
        .collect();
    assert_eq!(t.cells, expected);
}

#[test]
fn circle_tile_symmetric() {
    for r in 0..12u32 {
        let t = generate_circle_stencil(r);
        let side = (2 * r + 1) as usize;
        for row in 0..side {
            for col in 0..side {
                let v = t.cells[row * side + col];
                assert_eq!(v, t.cells[row * side + (side - 1 - col)]);
                assert_eq!(v, t.cells[(side - 1 - row) * side + col]);
            }
        }
    }
}

#[test]
fn circle_grid_tiles_and_background() {
    let s = generate(7, 4, Generator::CircleGrid(CircleGridCommand { radius: 1 }));
    assert_eq!(
        indices(&s),
        vec![0, 1, 0, 0, 2, 0, 0, 1, 1, 1, 2, 2, 2, 3, 0, 1, 0, 0, 2, 0, 0, 0, 4, 0, 0, 5, 0, 0]
    );
    assert!(all_opaque(&s));
}

#[test]
fn circle_grid_radius_two() {
    let s = generate(6, 5, Generator::CircleGrid(CircleGridCommand { radius: 2 }));
    assert_eq!(
        indices(&s),
        vec![0, 0, 1, 0, 0, 0, 0, 1, 1, 1, 0, 0, 1, 1, 1, 1, 1, 2, 0, 1, 1, 1, 0, 0, 0, 0, 1, 0, 0, 0]
    );
}

#[test]
fn circle_grid_zero_radius_is_error() {
    let r = generate_stencil(4, 4, &Generator::CircleGrid(CircleGridCommand { radius: 0 }), &GeneratorInput::Nothing);
    assert!(matches!(r, Err(StencilError::ZeroSize)));
}

#[test]
fn concentric_rings_even_canvas() {
    let s = generate(4, 4, Generator::ConcentricCircleGrid(ConcentricCircleGridCommand { radius: 1 }));
    assert_eq!(indices(&s), vec![2, 2, 2, 2, 2, 1, 1, 1, 2, 1, 0, 1, 2, 1, 1, 1]);
    assert!(all_opaque(&s));
}

#[test]
fn concentric_rings_odd_canvas() {
    let s = generate(5, 3, Generator::ConcentricCircleGrid(ConcentricCircleGridCommand { radius: 2 }));
    assert_eq!(indices(&s), vec![1, 1, 0, 0, 1, 1, 0, 0, 0, 0, 1, 0, 0, 0, 0]);
}

#[test]
fn concentric_zero_radius_is_error() {
    let r = generate_stencil(
        4,
        4,
        &Generator::ConcentricCircleGrid(ConcentricCircleGridCommand { radius: 0 }),
        &GeneratorInput::Nothing,
    );
    assert!(matches!(r, Err(StencilError::ZeroSize)));
}

#[test]
fn cross_grid_unit_cells() {
    let s = generate(5, 5, Generator::CrossGrid(CrossGridCommand { cross_intersection_width: 1 }));
    assert_eq!(
        indices(&s),
        vec![0, 0, 1, 3, 5, 0, 1, 1, 1, 2, 6, 7, 1, 2, 2, 7, 7, 7, 8, 2, 9, 7, 8, 8, 8]
    );
    assert!(all_opaque(&s));
}

#[test]
fn cross_grid_wide_canvas() {
    let s = generate(7, 4, Generator::CrossGrid(CrossGridCommand { cross_intersection_width: 1 }));
    assert_eq!(
        indices(&s),
        vec![0, 0, 1, 4, 7, 7, 7, 0, 1, 1, 1, 2, 7, 8, 9, 10, 1, 2, 2, 2, 3, 10, 10, 10, 11, 2, 3, 3]
    );
}

#[test]
fn cross_grid_two_pixel_cells() {
    let s = generate(6, 4, Generator::CrossGrid(CrossGridCommand { cross_intersection_width: 2 }));
    assert_eq!(
        indices(&s),
        vec![0, 0, 0, 0, 1, 1, 0, 0, 0, 0, 1, 1, 0, 0, 1, 1, 1, 1, 0, 0, 1, 1, 1, 1]
    );
}

#[test]
fn cross_grid_zero_width_is_error() {
    let r = generate_stencil(
        4,
        4,
        &Generator::CrossGrid(CrossGridCommand { cross_intersection_width: 0 }),
        &GeneratorInput::Nothing,
    );
    assert!(matches!(r, Err(StencilError::ZeroSize)));
}

fn mask_grid() -> Generator {
    Generator::MaskGrid(MaskGridCommand { mask_folder: "masks".to_string() })
}

#[test]
fn mask_grid_reserves_zero_for_uncovered() {
    let masks = vec![mask(2, 2, &[1, 0, 0, 0]), mask(2, 2, &[0, 0, 0, 1])];
    let s = generate_stencil(4, 3, &mask_grid(), &GeneratorInput::Masks(masks)).unwrap();
    assert_eq!(indices(&s), vec![1, 0, 2, 0, 0, 5, 0, 6, 3, 0, 4, 0]);
    assert!(all_opaque(&s));
}

#[test]
fn mask_grid_starts_at_zero_when_covered() {
    let masks = vec![mask(2, 2, &[1, 1, 1, 0]), mask(2, 2, &[0, 0, 1, 1])];
    let s = generate_stencil(3, 2, &mask_grid(), &GeneratorInput::Masks(masks)).unwrap();
    assert_eq!(indices(&s), vec![0, 0, 1, 2, 2, 3]);
}

#[test]
fn mask_grid_no_masks_is_error() {
    let r = generate_stencil(3, 2, &mask_grid(), &GeneratorInput::Masks(vec![]));
    assert!(matches!(r, Err(StencilError::NoMasks)));
}

#[test]
fn mask_grid_inconsistent_sizes_is_error() {
    let masks = vec![mask(2, 2, &[1, 1, 1, 0]), mask(1, 2, &[0, 1])];
    let r = generate_stencil(3, 2, &mask_grid(), &GeneratorInput::Masks(masks));
    assert!(matches!(r, Err(StencilError::InconsistentMaskSize)));
}

#[test]
fn mask_grid_empty_mask_is_error() {
    let masks = vec![mask(0, 2, &[])];
    let r = generate_stencil(3, 2, &mask_grid(), &GeneratorInput::Masks(masks));
    assert!(matches!(r, Err(StencilError::ZeroSize)));
}

#[test]
fn mask_grid_without_masks_loaded_is_error() {
    let r = generate_stencil(3, 2, &mask_grid(), &GeneratorInput::Nothing);
    assert!(matches!(r, Err(StencilError::MissingInput)));
}

#[test]
fn too_large_canvas_is_error() {
    let r = generate_stencil(
        u32::MAX,
        u32::MAX,
        &Generator::SquareGrid(SquareGridCommand { side_length: 1 }),
        &GeneratorInput::Nothing,
    );
    assert!(matches!(r, Err(StencilError::TooLarge)));
}

#[test]
fn mask_container_checks_lengths() {
    let mut c = vec![9u8; 8];
    assert_eq!(mask_container(&vec![true], (0, 0, 0), &mut c), Err(MaskingError::LengthMismatch));
    assert_eq!(c, vec![9u8; 8]);
    assert_eq!(mask_container(&vec![true, false], (1, 2, 3), &mut c), Ok(()));
    assert_eq!(c, vec![9, 9, 9, 9, 1, 2, 3, 9]);
}

#[test]
fn empty_canvas_is_error() {
    let g = Generator::SquareGrid(SquareGridCommand { side_length: 2 });
    assert!(matches!(generate_stencil(0, 4, &g, &GeneratorInput::Nothing), Err(StencilError::ZeroSize)));
    assert!(matches!(generate_stencil(4, 0, &g, &GeneratorInput::Nothing), Err(StencilError::ZeroSize)));
}
