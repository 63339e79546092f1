use resin_slicer::grid::PlanePoint;
use resin_slicer::raster::{
    choose_scale, image_size_is_valid, model_to_image_coords, rasterize_polygons, scale_length,
    Frame, PixelPoint, Scale, SliceImage, BACKGROUND, FOREGROUND, MAX_IMAGE_SIDE,
};

fn p(x: i64, y: i64) -> PlanePoint {
    PlanePoint { x, y }
}

fn count_foreground(image: &SliceImage) -> usize {
    image.pixels.iter().filter(|v| **v == FOREGROUND).count()
}

#[test]
fn blank_image_is_all_background() {
    let image = SliceImage::blank(7, 5).unwrap();
    assert_eq!(image.width, 7);
    assert_eq!(image.height, 5);
    assert_eq!(image.pixels.len(), 35);
    assert!(image.pixels.iter().all(|v| *v == BACKGROUND));
    assert_eq!(image.get_pixel(6, 4), 0);
}

#[test]
fn image_sizes_that_no_image_can_have() {
    assert!(SliceImage::blank(0, 5).is_none());
    assert!(SliceImage::blank(5, 0).is_none());
    assert!(SliceImage::blank(MAX_IMAGE_SIDE + 1, 1).is_none());
    assert!(!image_size_is_valid(0, 0));
    assert!(!image_size_is_valid(u32::MAX, 1));
    assert!(image_size_is_valid(1, 1));
    assert!(image_size_is_valid(MAX_IMAGE_SIDE, 1));
}

#[test]
fn scale_is_the_smaller_of_the_two() {
    // 100 pixels for 50 steps against 100 pixels for 200 steps.
    assert_eq!(choose_scale(50, 200, 100, 100), Scale { pixels: 100, extent: 200 });
    assert_eq!(choose_scale(200, 50, 100, 100), Scale { pixels: 100, extent: 200 });
    assert_eq!(choose_scale(100, 100, 30, 40), Scale { pixels: 30, extent: 100 });
    // A direction without extent does not count.
    assert_eq!(choose_scale(0, 80, 100, 40), Scale { pixels: 40, extent: 80 });
    assert_eq!(choose_scale(80, 0, 100, 40), Scale { pixels: 100, extent: 80 });
    assert_eq!(choose_scale(0, 0, 100, 40), Scale { pixels: 40, extent: 0 });
}

#[test]
fn lengths_are_scaled_and_rounded_down() {
    let scale = Scale { pixels: 100, extent: 30 };
    assert_eq!(scale_length(0, scale), 0);
    assert_eq!(scale_length(30, scale), 100);
    assert_eq!(scale_length(10, scale), 33);
    assert_eq!(scale_length(20, scale), 66);
    assert_eq!(scale_length(5, Scale { pixels: 100, extent: 0 }), 0);
}

#[test]
fn model_points_map_to_pixels_with_y_flipped() {
    let scale = Scale { pixels: 100, extent: 4_000_000 };
    assert_eq!(
        model_to_image_coords(&p(-1_000_000, 2_000_000), -1_000_000, 2_000_000, scale, 100),
        PixelPoint { x: 0, y: 100 }
    );
    assert_eq!(
        model_to_image_coords(&p(3_000_000, 6_000_000), -1_000_000, 2_000_000, scale, 100),
        PixelPoint { x: 100, y: 0 }
    );
    assert_eq!(
        model_to_image_coords(&p(0, 3_000_000), -1_000_000, 2_000_000, scale, 100),
        PixelPoint { x: 25, y: 75 }
    );
}

#[test]
fn triangle_fills_about_its_area() {
    // The triangle (0,0)-(4,0)-(0,4) at 100 pixels per model unit.
    let unit = 1_000_000;
    let frame = Frame {
        min_x: 0,
        min_y: 0,
        scale: Scale { pixels: 400, extent: 4 * unit },
        width: 400,
        height: 400,
    };
    let polygons = vec![vec![p(0, 0), p(4 * unit, 0), p(0, 4 * unit)]];
    let image = rasterize_polygons(&polygons, &frame);
    assert_eq!(image.width, 400);
    assert_eq!(image.height, 400);
    assert_eq!(image.pixels.len(), 160_000);
    let filled = count_foreground(&image) as f64;
    let area = 0.5 * 400.0 * 400.0;
    assert!((filled - area).abs() <= 0.02 * area, "filled {} of {}", filled, area);
    assert!(image.pixels.iter().all(|v| *v == BACKGROUND || *v == FOREGROUND));
    // The corner at the model's origin is at the bottom left, inside the hypotenuse.
    assert_eq!(image.get_pixel(1, 398), FOREGROUND);
    assert_eq!(image.get_pixel(398, 1), BACKGROUND);
}

#[test]
fn small_triangle_fills_exactly_these_pixels() {
    let frame = Frame {
        min_x: 0,
        min_y: 0,
        scale: Scale { pixels: 4, extent: 4 },
        width: 6,
        height: 6,
    };
    let polygons = vec![vec![p(0, 1), p(3, 1), p(0, 4)]];
    let image = rasterize_polygons(&polygons, &frame);
    // Pixels (0,5), (3,5), (0,2): rows 2 to 5, one pixel longer each row.
    let expected: Vec<u8> = vec![
        0, 0, 0, 0, 0, 0, //
        0, 0, 0, 0, 0, 0, //
        255, 0, 0, 0, 0, 0, //
        255, 255, 0, 0, 0, 0, //
        255, 255, 255, 0, 0, 0, //
        255, 255, 255, 255, 0, 0, //
    ];
    assert_eq!(image.pixels, expected);
}

#[test]
fn no_polygons_leave_the_image_blank() {
    let frame = Frame {
        min_x: 0,
        min_y: 0,
        scale: Scale { pixels: 4, extent: 4 },
        width: 4,
        height: 3,
    };
    let image = rasterize_polygons(&Vec::new(), &frame);
    assert_eq!(image.pixels, vec![0u8; 12]);
}

#[test]
fn loop_within_a_loop_is_a_hole() {
    let frame = Frame {
        min_x: 0,
        min_y: 0,
        scale: Scale { pixels: 16, extent: 16 },
        width: 20,
        height: 20,
    };
    let outer = vec![p(2, 2), p(14, 2), p(14, 14), p(2, 14)];
    let inner = vec![p(6, 6), p(10, 6), p(10, 10), p(6, 10)];
    let tube = rasterize_polygons(&vec![outer.clone(), inner.clone()], &frame);
    // Rows run down from the image height: the model's y of 2 to 14 are rows 18 to 6.
    for y in 0..20u32 {
        for x in 0..20u32 {
            let in_outer = (2..=14).contains(&x) && (6..=18).contains(&y);
            let in_inner = (6..=10).contains(&x) && (10..=14).contains(&y);
            let expected = if in_outer && !in_inner { FOREGROUND } else { BACKGROUND };
            assert_eq!(tube.get_pixel(x, y), expected, "pixel {} {}", x, y);
        }
    }
    // Strictly inside the hole, between the loops, and outside.
    assert_eq!(tube.get_pixel(8, 12), BACKGROUND);
    assert_eq!(tube.get_pixel(4, 12), FOREGROUND);
    assert_eq!(tube.get_pixel(0, 0), BACKGROUND);
    // The order of the loops makes no difference.
    let turned = rasterize_polygons(&vec![inner.clone(), outer.clone()], &frame);
    assert_eq!(tube.pixels, turned.pixels);
    // A loop within the hole is an island in it.
    let island = vec![p(7, 7), p(9, 7), p(9, 9), p(7, 9)];
    let nested = rasterize_polygons(&vec![island, outer, inner], &frame);
    assert_eq!(nested.get_pixel(8, 12), FOREGROUND);
    assert_eq!(nested.get_pixel(6, 12), BACKGROUND);
    assert_eq!(nested.get_pixel(4, 12), FOREGROUND);
}

#[test]
fn loops_side_by_side_are_both_filled() {
    let frame = Frame {
        min_x: 0,
        min_y: 0,
        scale: Scale { pixels: 16, extent: 16 },
        width: 20,
        height: 8,
    };
    let left = vec![p(1, 1), p(4, 1), p(4, 4), p(1, 4)];
    let right = vec![p(8, 1), p(11, 1), p(11, 4), p(8, 4)];
    let image = rasterize_polygons(&vec![left, right], &frame);
    assert_eq!(count_foreground(&image), 32);
    assert_eq!(image.get_pixel(2, 5), FOREGROUND);
    assert_eq!(image.get_pixel(9, 5), FOREGROUND);
    assert_eq!(image.get_pixel(6, 5), BACKGROUND);
}
