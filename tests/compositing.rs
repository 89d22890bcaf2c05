use intersection_painting::bounds::{draw_bounding_boxes, BoundingBox};
use intersection_painting::flood::fill_bucket_grid;
use intersection_painting::stenciler::{count_segments, cpu_averager, cpu_render_to_buffer};
use intersection_painting::{
    cpu_pipeline, generate_stencil, generate_stencil_from_image, rgb_to_index, segment_index_to_rgb,
    FloodFillCommand, Generator, GeneratorInput, RawImage, SquareGridCommand, StencilError,
};

fn stencil_indices(img: &RawImage) -> Vec<usize> {
    let bpp = if img.has_alpha { 4 } else { 3 };
    img.data.chunks(bpp).map(|p| rgb_to_index(p[0], p[1], p[2])).collect()
}

fn stencil(width: u32, height: u32, idx: &[u32]) -> RawImage {
    let mut data = Vec::new();
    for &i in idx {
        let (r, g, b) = segment_index_to_rgb(i);
        data.extend_from_slice(&[r, g, b, 255]);
    }
    RawImage { width, height, has_alpha: true, data }
}

fn rgba(width: u32, height: u32, px: &[[u8; 4]]) -> RawImage {
    RawImage { width, height, has_alpha: true, data: px.iter().flatten().copied().collect() }
}

fn pixels(img: &RawImage) -> Vec<[u8; 4]> {
    img.data.chunks(4).map(|p| [p[0], p[1], p[2], p[3]]).collect()
}

fn grey_rgb(width: u32, height: u32, values: &[u8]) -> RawImage {
    RawImage { width, height, has_alpha: false, data: values.iter().flat_map(|v| [*v, 0, 0]).collect() }
}

fn same_partition(a: &[usize], b: &[usize]) -> bool {
    (0..a.len()).all(|p| (0..a.len()).all(|q| (a[p] == a[q]) == (b[p] == b[q])))
}

const A: [u8; 4] = [10, 20, 30, 255];
const B: [u8; 4] = [200, 100, 50, 255];

#[test]
fn two_uniform_segments_keep_their_colours() {
    let st = stencil(3, 2, &[0, 1, 1, 0, 0, 1]);
    let content = rgba(3, 2, &[A, B, B, A, A, B]);
    let out = cpu_pipeline(&st, false, &content).unwrap();
    assert_eq!((out.width, out.height, out.has_alpha), (3, 2, true));
    assert_eq!(pixels(&out), vec![A, B, B, A, A, B]);
    let out = cpu_pipeline(&st, true, &content).unwrap();
    assert_eq!(pixels(&out), vec![A, B, B, A, A, B]);
}

#[test]
fn averages_truncate() {
    let st = stencil(2, 1, &[0, 0]);
    let content = rgba(2, 1, &[[10, 0, 255, 255], [11, 3, 0, 255]]);
    let out = cpu_pipeline(&st, false, &content).unwrap();
    assert_eq!(pixels(&out), vec![[10, 1, 127, 255], [10, 1, 127, 255]]);
}

#[test]
fn transparent_pixels_are_excluded_without_alpha_averaging() {
    let st = stencil(4, 1, &[0, 0, 1, 1]);
    let content = rgba(4, 1, &[[100, 50, 20, 255], [7, 7, 7, 0], [9, 9, 9, 0], [1, 2, 3, 0]]);
    let out = cpu_pipeline(&st, false, &content).unwrap();
    assert_eq!(
        pixels(&out),
        vec![[100, 50, 20, 255], [100, 50, 20, 255], [0, 0, 0, 255], [0, 0, 0, 255]]
    );
}

#[test]
fn alpha_is_averaged_with_alpha_averaging() {
    let st = stencil(2, 1, &[0, 0]);
    let content = rgba(2, 1, &[[100, 50, 20, 255], [0, 0, 0, 0]]);
    let out = cpu_pipeline(&st, true, &content).unwrap();
    assert_eq!(pixels(&out), vec![[50, 25, 10, 127], [50, 25, 10, 127]]);
}

#[test]
fn content_without_alpha_is_opaque() {
    let st = stencil(2, 1, &[0, 0]);
    let content = RawImage { width: 2, height: 1, has_alpha: false, data: vec![10, 20, 30, 30, 40, 50] };
    let out = cpu_pipeline(&st, true, &content).unwrap();
    assert_eq!(pixels(&out), vec![[20, 30, 40, 255], [20, 30, 40, 255]]);
}

#[test]
fn unused_segment_indices_are_harmless() {
    let st = stencil(2, 1, &[3, 3]);
    let content = rgba(2, 1, &[A, A]);
    let out = cpu_pipeline(&st, false, &content).unwrap();
    assert_eq!(pixels(&out), vec![A, A]);
}

#[test]
fn dimension_mismatch_is_error() {
    let st = generate_stencil(4, 4, &Generator::SquareGrid(SquareGridCommand { side_length: 2 }), &GeneratorInput::Nothing)
        .unwrap();
    let content = rgba(5, 5, &[A; 25]);
    assert!(matches!(cpu_pipeline(&st, false, &content), Err(StencilError::DimensionMismatch)));
}

#[test]
fn square_grid_end_to_end() {
    let st = generate_stencil(4, 4, &Generator::SquareGrid(SquareGridCommand { side_length: 2 }), &GeneratorInput::Nothing)
        .unwrap();
    let red = [255, 0, 0, 255];
    let green = [0, 255, 0, 255];
    let blue = [0, 0, 255, 255];
    let white = [255, 255, 255, 255];
    let quadrant = |x: usize, y: usize| match (x / 2, y / 2) {
        (0, 0) => red,
        (1, 0) => green,
        (0, 1) => blue,
        _ => white,
    };
    let px: Vec<[u8; 4]> = (0..16).map(|p| quadrant(p % 4, p / 4)).collect();
    let content = rgba(4, 4, &px);
    let out = cpu_pipeline(&st, false, &content).unwrap();
    assert_eq!((out.width, out.height), (4, 4));
    assert_eq!(pixels(&out), px);
}

#[test]
fn count_segments_is_max_plus_one() {
    assert_eq!(count_segments(&stencil(3, 1, &[0, 5, 2])), 6);
    assert_eq!(count_segments(&stencil(0, 0, &[])), 1);
    let rgb = RawImage { width: 1, height: 1, has_alpha: false, data: vec![1, 1, 0] };
    assert_eq!(count_segments(&rgb), 258);
}

#[test]
fn averager_and_renderer() {
    let st = stencil(3, 1, &[1, 0, 1]);
    let content = rgba(3, 1, &[[2, 4, 6, 255], [9, 9, 9, 255], [4, 8, 12, 255]]);
    let averages = cpu_averager(&st, 2, false, &content);
    assert_eq!(averages, vec![9, 9, 9, 255, 3, 6, 9, 255]);
    let out = cpu_render_to_buffer(&st, &averages);
    assert_eq!(out, vec![3, 6, 9, 255, 9, 9, 9, 255, 3, 6, 9, 255]);
}

#[test]
fn flood_fill_labels_in_scan_order() {
    let img = grey_rgb(3, 3, &[1, 1, 2, 3, 1, 2, 3, 3, 1]);
    let out = fill_bucket_grid(&img);
    assert_eq!((out.width, out.height, out.has_alpha), (3, 3, true));
    assert_eq!(stencil_indices(&out), vec![0, 0, 1, 2, 0, 1, 2, 2, 3]);
    assert!(out.data.chunks(4).all(|p| p[3] == 255));
}

#[test]
fn flood_fill_ring_around_hole() {
    let img = grey_rgb(4, 3, &[5, 5, 5, 5, 5, 6, 6, 5, 5, 5, 5, 5]);
    let out = fill_bucket_grid(&img);
    assert_eq!(stencil_indices(&out), vec![0, 0, 0, 0, 0, 1, 1, 0, 0, 0, 0, 0]);
}

#[test]
fn flood_fill_diagonal_is_not_connected() {
    let img = grey_rgb(2, 2, &[1, 2, 2, 1]);
    let out = fill_bucket_grid(&img);
    assert_eq!(stencil_indices(&out), vec![0, 1, 2, 3]);
}

#[test]
fn flood_fill_compares_all_channels() {
    let img = RawImage { width: 3, height: 1, has_alpha: true, data: vec![1, 2, 3, 255, 1, 2, 4, 255, 1, 2, 4, 0] };
    let out = fill_bucket_grid(&img);
    assert_eq!(stencil_indices(&out), vec![0, 1, 1]);
}

#[test]
fn flood_fill_twice_same_partition() {
    let values: Vec<u8> = (0..35u32).map(|i| ((i * 7 + i / 5) % 3) as u8).collect();
    let img = grey_rgb(7, 5, &values);
    let a = stencil_indices(&fill_bucket_grid(&img));
    let b = stencil_indices(&fill_bucket_grid(&img));
    assert!(same_partition(&a, &b));
    for p in 0..35 {
        for q in 0..35 {
            let adjacent = (p + 1 == q && p % 7 != 6) || p + 7 == q;
            if adjacent && values[p] == values[q] {
                assert_eq!(a[p], a[q]);
            }
            if a[p] == a[q] {
                assert_eq!(values[p], values[q]);
            }
        }
    }
}

#[test]
fn flood_fill_generator() {
    let img = grey_rgb(2, 2, &[1, 1, 2, 1]);
    let g = Generator::FloodFill(FloodFillCommand { mask_path: "source.png".to_string() });
    let out = generate_stencil(2, 2, &g, &GeneratorInput::Image(img.clone())).unwrap();
    assert_eq!(stencil_indices(&out), vec![0, 0, 1, 0]);
    let r = generate_stencil(3, 2, &g, &GeneratorInput::Image(img));
    assert!(matches!(r, Err(StencilError::DimensionMismatch)));
    let r = generate_stencil(2, 2, &g, &GeneratorInput::Nothing);
    assert!(matches!(r, Err(StencilError::MissingInput)));
}

#[test]
fn stencil_from_image_takes_its_size() {
    let img = grey_rgb(3, 2, &[0; 6]);
    let s = generate_stencil_from_image(&img, &Generator::SquareGrid(SquareGridCommand { side_length: 1 }), &GeneratorInput::Nothing)
        .unwrap();
    assert_eq!((s.width, s.height), (3, 2));
    assert_eq!(stencil_indices(&s), vec![0, 1, 2, 3, 4, 5]);
}

#[test]
fn empty_images_are_error() {
    let st = stencil(0, 3, &[]);
    let content = rgba(0, 3, &[]);
    assert!(matches!(cpu_pipeline(&st, false, &content), Err(StencilError::ZeroSize)));
}

#[test]
fn bounding_boxes_of_segments() {
    let st = stencil(3, 2, &[0, 1, 1, 0, 2, 1]);
    let boxes = draw_bounding_boxes(&st).unwrap();
    assert_eq!(
        boxes,
        vec![
            BoundingBox { top: 0, bot: 1, left: 0, right: 0 },
            BoundingBox { top: 0, bot: 1, left: 1, right: 2 },
            BoundingBox { top: 1, bot: 1, left: 1, right: 1 },
        ]
    );
}

#[test]
fn bounding_boxes_missing_index() {
    assert_eq!(draw_bounding_boxes(&stencil(2, 1, &[0, 2])), None);
    assert_eq!(draw_bounding_boxes(&stencil(0, 0, &[])), Some(vec![]));
}

#[test]
fn averager_accepts_extra_and_zero_segments() {
    let st = stencil(2, 1, &[1, 1]);
    let content = rgba(2, 1, &[[2, 4, 6, 255], [4, 8, 12, 255]]);
    let averages = cpu_averager(&st, 4, false, &content);
    assert_eq!(averages, vec![0, 0, 0, 255, 3, 6, 9, 255, 0, 0, 0, 255, 0, 0, 0, 255]);
    let empty = stencil(0, 0, &[]);
    assert_eq!(cpu_averager(&empty, 0, false, &rgba(0, 0, &[])), Vec::<u8>::new());
}

#[test]
fn renderer_accepts_longer_averages() {
    let st = stencil(2, 1, &[1, 0]);
    let averages = vec![1, 2, 3, 4, 5, 6, 7, 8, 9, 10, 11];
    assert_eq!(cpu_render_to_buffer(&st, &averages), vec![5, 6, 7, 8, 1, 2, 3, 4]);
}

#[test]
fn flood_fill_of_its_own_stencil_is_the_same() {
    let values: Vec<u8> = (0..35u32).map(|i| ((i * 5 + i / 7) % 4) as u8).collect();
    let once = fill_bucket_grid(&grey_rgb(7, 5, &values));
    let twice = fill_bucket_grid(&once);
    assert_eq!(twice.data, once.data);
    assert_eq!((twice.width, twice.height), (7, 5));
}
