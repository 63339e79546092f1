use resin_slicer::cpu_slicer::{
    gather_images, merge_meshes, merge_selected, quantize_triangles, render_segments, slice_plane,
    BoundingBox, CPUSlicer,
};
use resin_slicer::error::{ContractViolation, SliceError};
use resin_slicer::gpu_slicer::{
    collect_records, decode_records, estimate_capacity, generate_slice_z_values,
    images_from_records, organize_segments, readback_count, GPUSlicer, SegmentBuffer,
    SegmentRecord, MAX_SEGMENTS,
};
use resin_slicer::grid::{GridPoint, PlanePoint, Segment};
use resin_slicer::intersect::{triangles_in_range, GridTriangle};
use resin_slicer::mesh::{Mesh, Triangle};
use resin_slicer::raster::{SliceImage, FOREGROUND};

fn bits(v: [f32; 3]) -> [u32; 3] {
    [v[0].to_bits(), v[1].to_bits(), v[2].to_bits()]
}

fn triangle(a: [f32; 3], b: [f32; 3], c: [f32; 3]) -> Triangle {
    Triangle { normal: [0; 3], vertices: [bits(a), bits(b), bits(c)] }
}

/// A cube with edges of length `size` and its lowest corner at `origin`.
fn cube(origin: [f32; 3], size: f32) -> Vec<Triangle> {
    let c = |x: u8, y: u8, z: u8| {
        [
            origin[0] + size * x as f32,
            origin[1] + size * y as f32,
            origin[2] + size * z as f32,
        ]
    };
    vec![
        triangle(c(0, 0, 0), c(1, 1, 0), c(1, 0, 0)),
        triangle(c(0, 0, 0), c(0, 1, 0), c(1, 1, 0)),
        triangle(c(0, 0, 1), c(1, 0, 1), c(1, 1, 1)),
        triangle(c(0, 0, 1), c(1, 1, 1), c(0, 1, 1)),
        triangle(c(0, 0, 0), c(1, 0, 0), c(1, 0, 1)),
        triangle(c(0, 0, 0), c(1, 0, 1), c(0, 0, 1)),
        triangle(c(1, 0, 0), c(1, 1, 0), c(1, 1, 1)),
        triangle(c(1, 0, 0), c(1, 1, 1), c(1, 0, 1)),
        triangle(c(1, 1, 0), c(0, 1, 0), c(0, 1, 1)),
        triangle(c(1, 1, 0), c(0, 1, 1), c(1, 1, 1)),
        triangle(c(0, 1, 0), c(0, 0, 0), c(0, 0, 1)),
        triangle(c(0, 1, 0), c(0, 0, 1), c(0, 1, 1)),
    ]
}

fn count_foreground(image: &SliceImage) -> usize {
    image.pixels.iter().filter(|v| **v == FOREGROUND).count()
}

fn grid_tri(a: (i64, i64, i64), b: (i64, i64, i64), c: (i64, i64, i64)) -> GridTriangle {
    GridTriangle {
        a: GridPoint { x: a.0, y: a.1, z: a.2 },
        b: GridPoint { x: b.0, y: b.1, z: b.2 },
        c: GridPoint { x: c.0, y: c.1, z: c.2 },
    }
}

#[test]
fn unit_cube_sliced_at_half_thickness() {
    // Planes at 0, 0.5 and 1. The cube stands on the plane at 0, which cuts
    // nothing, and hangs from the plane at 1, which shows its outline.
    let slicer = CPUSlicer::new(64, 64, 500_000);
    let images = slicer.generate_slice_images(&cube([0.0, 0.0, 0.0], 1.0)).unwrap();
    assert_eq!(images.len(), 2);
    for image in &images {
        assert_eq!((image.width, image.height), (64, 64));
        // The square reaches from column 0 to column 64 and from row 0 to
        // row 64, of which the image shows all but the last.
        let filled = count_foreground(image);
        assert!(filled >= 63 * 63 && filled <= 64 * 64, "filled {}", filled);
        for y in 1..63 {
            for x in 1..63 {
                assert_eq!(image.get_pixel(x, y), FOREGROUND, "hole at {} {}", x, y);
            }
        }
    }
    assert_eq!(images[0].pixels, images[1].pixels);
}

#[test]
fn unit_cube_on_a_hundred_pixels() {
    let slicer = CPUSlicer::new(100, 100, 500_000);
    let images = slicer.generate_slice_images(&cube([0.0, 0.0, 0.0], 1.0)).unwrap();
    assert_eq!(images.len(), 2);
    for image in &images {
        assert_eq!((image.width, image.height), (100, 100));
        assert!(count_foreground(image) >= 99 * 99);
    }
}

#[test]
fn cube_sliced_between_its_faces() {
    let slicer = CPUSlicer::new(32, 32, 250_000);
    // Planes at 0, 0.25, 0.5, 0.75, 1, of which all but the first show the cube.
    let images = slicer.generate_slice_images(&cube([0.0, 0.0, 0.0], 1.0)).unwrap();
    assert_eq!(images.len(), 4);
    assert_eq!(images[0].pixels, images[1].pixels);
    assert_eq!(images[1].pixels, images[2].pixels);
    assert_eq!(images[2].pixels, images[3].pixels);
}

#[test]
fn last_plane_may_fall_short_of_the_top() {
    let slicer = CPUSlicer::new(16, 16, 400_000);
    // Planes at 0, 0.4, 0.8; none at 1.2.
    let images = slicer.generate_slice_images(&cube([0.0, 0.0, 0.0], 1.0)).unwrap();
    assert_eq!(images.len(), 2);
    assert_eq!(
        generate_slice_z_values(0, 1_000_000, 400_000).unwrap(),
        vec![0, 400_000, 800_000]
    );
}

#[test]
fn slicing_twice_gives_the_same_images() {
    let slicer = CPUSlicer::new(48, 32, 100_000);
    let model = cube([-1.0, 2.0, 0.5], 2.0);
    let first = slicer.generate_slice_images(&model).unwrap();
    let second = slicer.generate_slice_images(&model).unwrap();
    assert_eq!(first.len(), second.len());
    for (a, b) in first.iter().zip(second.iter()) {
        assert_eq!(a.pixels, b.pixels);
        assert_eq!((a.width, a.height), (b.width, b.height));
    }
}

#[test]
fn no_more_images_than_planes() {
    let model = cube([0.0, 0.0, 0.0], 1.0);
    for thickness in [1_000_000i64, 500_000, 333_333, 100_000, 70_000, 2_000_000] {
        let slicer = CPUSlicer::new(8, 8, thickness);
        let images = slicer.generate_slice_images(&model).unwrap();
        let planes = generate_slice_z_values(0, 1_000_000, thickness).unwrap().len();
        assert_eq!(planes as i64, 1_000_000 / thickness + 1);
        assert!(images.len() <= planes);
    }
}

#[test]
fn both_strategies_give_the_same_images() {
    let model = cube([0.0, 0.0, 0.0], 3.0);
    let grid = quantize_triangles(&model).unwrap();
    let host = CPUSlicer::new(40, 30, 700_000).slice_triangles(&grid).unwrap();
    let bulk = GPUSlicer::new(40, 30, 700_000).slice_triangles(&grid).unwrap();
    assert_eq!(host.len(), 4);
    assert_eq!(host.len(), bulk.len());
    for (a, b) in host.iter().zip(bulk.iter()) {
        assert_eq!(a.pixels, b.pixels);
    }
}

#[test]
fn slicer_refuses_an_empty_model() {
    let slicer = CPUSlicer::new(8, 8, 100);
    assert_eq!(
        slicer.generate_slice_images(&Vec::new()).err(),
        Some(SliceError::InputContractViolation(ContractViolation::EmptyInput))
    );
    assert_eq!(
        GPUSlicer::new(8, 8, 100).slice_triangles(&Vec::new()).err(),
        Some(SliceError::InputContractViolation(ContractViolation::EmptyInput))
    );
}

#[test]
fn slicer_refuses_a_thickness_that_is_not_positive() {
    let model = cube([0.0, 0.0, 0.0], 1.0);
    for thickness in [0i64, -1, i64::MIN] {
        assert_eq!(
            CPUSlicer::new(8, 8, thickness).generate_slice_images(&model).err(),
            Some(SliceError::InputContractViolation(ContractViolation::Thickness))
        );
    }
    assert_eq!(
        generate_slice_z_values(0, 10, 0).err(),
        Some(SliceError::InputContractViolation(ContractViolation::Thickness))
    );
}

#[test]
fn slicer_refuses_an_image_without_pixels() {
    let model = cube([0.0, 0.0, 0.0], 1.0);
    assert_eq!(
        CPUSlicer::new(0, 8, 100).generate_slice_images(&model).err(),
        Some(SliceError::InputContractViolation(ContractViolation::ImageSize))
    );
    assert_eq!(
        CPUSlicer::default().generate_slice_images(&model).err(),
        Some(SliceError::InputContractViolation(ContractViolation::Thickness))
    );
}

#[test]
fn slicer_refuses_coordinates_that_are_no_numbers() {
    let mut model = cube([0.0, 0.0, 0.0], 1.0);
    model[5].vertices[1][2] = f32::NAN.to_bits();
    assert_eq!(
        CPUSlicer::new(8, 8, 100_000).generate_slice_images(&model).err(),
        Some(SliceError::InputContractViolation(ContractViolation::Coordinate))
    );
    assert!(quantize_triangles(&model).is_none());
}

#[test]
fn bounding_box_holds_the_model() {
    let grid = quantize_triangles(&cube([-1.0, 2.0, 0.5], 2.0)).unwrap();
    let bbox = CPUSlicer::compute_bounding_box(&grid).unwrap();
    assert_eq!(
        bbox,
        BoundingBox {
            min: GridPoint { x: -1_000_000, y: 2_000_000, z: 500_000 },
            max: GridPoint { x: 1_000_000, y: 4_000_000, z: 2_500_000 },
        }
    );
}

#[test]
fn height_range_is_that_of_the_bounding_box() {
    let grid = quantize_triangles(&cube([-1.0, 2.0, 0.5], 2.0)).unwrap();
    assert_eq!(CPUSlicer::z_range(&grid), Ok((500_000, 2_500_000)));
    assert_eq!(
        CPUSlicer::z_range(&Vec::new()),
        Err(SliceError::InputContractViolation(ContractViolation::EmptyInput))
    );
    assert_eq!(
        CPUSlicer::compute_bounding_box(&Vec::new()),
        Err(SliceError::InputContractViolation(ContractViolation::EmptyInput))
    );
}

#[test]
fn plane_without_outline_gives_no_image() {
    let grid = quantize_triangles(&cube([0.0, 0.0, 0.0], 1.0)).unwrap();
    let bbox = CPUSlicer::compute_bounding_box(&grid).unwrap();
    // The cube stands on the plane at 0, and within the tolerance on the plane at 1.
    assert!(slice_plane(&grid, 0, &bbox, 8, 8).unwrap().is_none());
    assert!(slice_plane(&grid, 1, &bbox, 8, 8).unwrap().is_none());
    assert!(slice_plane(&grid, 2, &bbox, 8, 8).unwrap().is_some());
    // It hangs from the plane through its top, and within the tolerance above it.
    assert!(slice_plane(&grid, 999_999, &bbox, 8, 8).unwrap().is_some());
    assert!(slice_plane(&grid, 1_000_000, &bbox, 8, 8).unwrap().is_some());
    assert!(slice_plane(&grid, 1_000_001, &bbox, 8, 8).unwrap().is_some());
    assert!(slice_plane(&grid, 1_000_002, &bbox, 8, 8).unwrap().is_none());
}

#[test]
fn segments_outside_the_box_are_refused() {
    let bbox = BoundingBox {
        min: GridPoint { x: 0, y: 0, z: 0 },
        max: GridPoint { x: 10, y: 10, z: 10 },
    };
    let inside = Segment { start: PlanePoint { x: 0, y: 0 }, end: PlanePoint { x: 10, y: 10 } };
    let outside = Segment { start: PlanePoint { x: 0, y: 0 }, end: PlanePoint { x: 11, y: 10 } };
    assert!(render_segments(&vec![inside], &bbox, 4, 4).unwrap().is_none());
    assert_eq!(
        render_segments(&vec![inside, outside], &bbox, 4, 4).err(),
        Some(SliceError::InputContractViolation(ContractViolation::Coordinate))
    );
}

#[test]
fn buffer_counts_what_it_cannot_keep() {
    let record = |plane: usize| SegmentRecord {
        segment: Segment { start: PlanePoint { x: 0, y: 0 }, end: PlanePoint { x: 1, y: 1 } },
        plane,
    };
    let mut buffer = SegmentBuffer::new(2);
    buffer.append(record(0));
    buffer.append(record(1));
    let kept = buffer.finish().unwrap();
    assert_eq!(kept, vec![record(0), record(1)]);

    let mut small = SegmentBuffer::new(2);
    for plane in 0..5 {
        small.append(record(plane));
    }
    assert_eq!(
        small.finish().err(),
        Some(SliceError::ResourceExhaustion { attempted: 5, available: 2 })
    );
}

#[test]
fn capacity_is_capped() {
    assert_eq!(estimate_capacity(12, 3), 36);
    assert_eq!(estimate_capacity(0, 3), 0);
    assert_eq!(estimate_capacity(12, 0), 0);
    assert_eq!(estimate_capacity(10_000_000, 1), MAX_SEGMENTS);
    assert_eq!(estimate_capacity(10_000_001, 1), MAX_SEGMENTS);
    assert_eq!(estimate_capacity(usize::MAX, usize::MAX), MAX_SEGMENTS);
    assert_eq!(estimate_capacity(3_162, 3_162), 9_998_244);
    assert_eq!(estimate_capacity(3_163, 3_162), MAX_SEGMENTS);
}

#[test]
fn sweep_that_needs_more_room_than_given_fails() {
    let grid = quantize_triangles(&cube([0.0, 0.0, 0.0], 1.0)).unwrap();
    let heights = vec![250_000i64, 500_000, 750_000];
    // Eight side triangles are cut by each plane.
    let all = collect_records(&grid, &heights, 24).unwrap();
    assert_eq!(all.len(), 24);
    assert_eq!(
        collect_records(&grid, &heights, 23).err(),
        Some(SliceError::ResourceExhaustion { attempted: 24, available: 23 })
    );
    let sorted = organize_segments(&all, 3);
    assert_eq!(sorted.len(), 3);
    assert!(sorted.iter().all(|plane| plane.len() == 8));
}

#[test]
fn records_are_sorted_out_by_plane() {
    let seg = |n: i64| Segment {
        start: PlanePoint { x: n, y: 0 },
        end: PlanePoint { x: n, y: 1 },
    };
    let records = vec![
        SegmentRecord { segment: seg(1), plane: 2 },
        SegmentRecord { segment: seg(2), plane: 0 },
        SegmentRecord { segment: seg(3), plane: 7 },
        SegmentRecord { segment: seg(4), plane: 2 },
        SegmentRecord { segment: seg(5), plane: 3 },
    ];
    let sorted = organize_segments(&records, 3);
    assert_eq!(sorted, vec![vec![seg(2)], vec![], vec![seg(1), seg(4)]]);
}

#[test]
fn several_meshes_are_sliced_as_one_model() {
    let mut low = Mesh::default();
    low.generate_vertices_and_indices(&cube([0.0, 0.0, 0.0], 1.0)).unwrap();
    let mut high = Mesh::default();
    high.generate_vertices_and_indices(&cube([2.0, 0.0, 1.0], 1.0)).unwrap();
    let merged = merge_meshes(&vec![low.clone(), high.clone()]).unwrap();
    assert_eq!(merged.len(), 24);
    let slicer = CPUSlicer::new(30, 10, 500_000);
    let together = slicer.slice_bodies(&vec![low, high]).unwrap();
    // Planes at 0, 0.5, 1, 1.5, 2 of which 0.5 and 1 show the first cube,
    // 1.5 and 2 the second. On the plane at 1 the first cube hangs and the
    // second stands.
    assert_eq!(together.len(), 4);
    assert_eq!(together[0].pixels, together[1].pixels);
    assert_eq!(together[2].pixels, together[3].pixels);
    assert_ne!(together[1].pixels, together[2].pixels);
    assert_eq!(together[0].get_pixel(2, 5), FOREGROUND);
    assert_eq!(together[0].get_pixel(25, 5), 0);
    assert_eq!(together[2].get_pixel(2, 5), 0);
    assert_eq!(together[2].get_pixel(25, 5), FOREGROUND);
    let bulk = GPUSlicer::new(30, 10, 500_000).slice_bodies(&vec![
        {
            let mut m = Mesh::default();
            m.generate_vertices_and_indices(&cube([0.0, 0.0, 0.0], 1.0)).unwrap();
            m
        },
        {
            let mut m = Mesh::default();
            m.generate_vertices_and_indices(&cube([2.0, 0.0, 1.0], 1.0)).unwrap();
            m
        },
    ]).unwrap();
    assert_eq!(bulk.len(), 4);
    for (a, b) in bulk.iter().zip(together.iter()) {
        assert_eq!(a.pixels, b.pixels);
    }
}

#[test]
fn tilted_triangle_pair_gives_no_closed_outline() {
    // A single sheet is cut in one open segment.
    let sheet = vec![
        grid_tri((0, 0, 0), (1000, 0, 1000), (0, 1000, 0)),
        grid_tri((1000, 0, 1000), (1000, 1000, 1000), (0, 1000, 0)),
    ];
    let images = CPUSlicer::new(8, 8, 100).slice_triangles(&sheet).unwrap();
    assert!(images.is_empty());
}

#[test]
fn results_of_planes_are_gathered_in_order() {
    let grid = quantize_triangles(&cube([0.0, 0.0, 0.0], 1.0)).unwrap();
    assert!(triangles_in_range(&grid));
    let bbox = CPUSlicer::compute_bounding_box(&grid).unwrap();
    let heights = generate_slice_z_values(0, 1_000_000, 250_000).unwrap();
    // The planes are worked on from the top down and put in their places.
    let mut results: Vec<Option<SliceImage>> = vec![None, None, None, None, None];
    for k in (0..heights.len()).rev() {
        results[k] = slice_plane(&grid, heights[k], &bbox, 12, 12).unwrap();
    }
    let gathered = gather_images(results);
    let swept = CPUSlicer::new(12, 12, 250_000).slice_triangles(&grid).unwrap();
    assert_eq!(gathered.len(), 4);
    assert_eq!(gathered.len(), swept.len());
    for (a, b) in gathered.iter().zip(swept.iter()) {
        assert_eq!(a.pixels, b.pixels);
    }
    assert!(gather_images(Vec::new()).is_empty());
    assert!(gather_images(vec![None, None]).is_empty());
}

#[test]
fn triangles_beyond_the_grid_are_told() {
    let far = grid_tri((0, 0, 0), (1_000_000_000_001, 0, 0), (0, 1, 0));
    assert!(!triangles_in_range(&vec![grid_tri((0, 0, 0), (1, 0, 0), (0, 1, 0)), far]));
    assert!(triangles_in_range(&Vec::new()));
}

#[test]
fn plane_is_refused_with_what_cannot_be_cut_or_drawn() {
    let grid = quantize_triangles(&cube([0.0, 0.0, 0.0], 1.0)).unwrap();
    let bbox = CPUSlicer::compute_bounding_box(&grid).unwrap();
    let coordinate = Err(SliceError::InputContractViolation(ContractViolation::Coordinate));
    assert_eq!(slice_plane(&grid, i64::MAX, &bbox, 8, 8).map(|_| ()), coordinate);
    let far = vec![grid_tri((0, 0, 0), (2_000_000_000_000, 0, 5), (0, 1, -5))];
    assert_eq!(slice_plane(&far, 0, &bbox, 8, 8).map(|_| ()), coordinate);
    // A box that does not hold the model.
    let small = BoundingBox {
        min: GridPoint { x: 0, y: 0, z: 0 },
        max: GridPoint { x: 10, y: 10, z: 10 },
    };
    assert_eq!(slice_plane(&grid, 500_000, &small, 8, 8).map(|_| ()), coordinate);
    let inverted = BoundingBox { min: bbox.max, max: bbox.min };
    assert_eq!(
        slice_plane(&grid, 500_000, &inverted, 8, 8).map(|_| ()),
        Err(SliceError::InputContractViolation(ContractViolation::InvertedBounds))
    );
    assert_eq!(
        slice_plane(&grid, 500_000, &bbox, 0, 8).map(|_| ()),
        Err(SliceError::InputContractViolation(ContractViolation::ImageSize))
    );
    let beyond = BoundingBox {
        min: GridPoint { x: i64::MIN, y: 0, z: 0 },
        max: GridPoint { x: 10, y: 10, z: 10 },
    };
    assert_eq!(render_segments(&Vec::new(), &beyond, 8, 8).map(|_| ()), coordinate);
}

#[test]
fn slicer_refuses_triangles_beyond_the_grid() {
    let far = vec![grid_tri((0, 0, 0), (2_000_000_000_000, 0, 5), (0, 1, -5))];
    assert_eq!(
        CPUSlicer::new(8, 8, 1).slice_triangles(&far).err(),
        Some(SliceError::InputContractViolation(ContractViolation::Coordinate))
    );
    assert_eq!(
        GPUSlicer::new(8, 8, 1).slice_triangles(&far).err(),
        Some(SliceError::InputContractViolation(ContractViolation::Coordinate))
    );
}

#[test]
fn bodies_can_be_left_out_of_a_slicing() {
    let body = |origin: [f32; 3]| {
        let mut mesh = Mesh::default();
        mesh.generate_vertices_and_indices(&cube(origin, 1.0)).unwrap();
        mesh
    };
    let broken = Mesh { vertices: Vec::new(), indices: vec![0, 1, 2] };
    let bodies = vec![body([0.0, 0.0, 0.0]), broken, body([2.0, 0.0, 1.0])];
    let slicer = CPUSlicer::new(30, 10, 500_000);
    // The broken body is refused when it is taken, and not looked at when it is left out.
    assert_eq!(
        slicer.slice_selected_bodies(&bodies, &Vec::new()).err(),
        Some(SliceError::InputContractViolation(ContractViolation::VertexIndex))
    );
    assert_eq!(merge_selected(&bodies, &vec![true, false]).unwrap().len(), 24);
    let both = slicer.slice_selected_bodies(&bodies, &vec![true, false, true]).unwrap();
    assert_eq!(both.len(), 4);
    let first = slicer.slice_selected_bodies(&bodies, &vec![true, false, false]).unwrap();
    assert_eq!(first.len(), 2);
    // The height of the image bounds the scale, with or without the second body.
    assert_eq!(first[0].get_pixel(5, 5), FOREGROUND);
    assert_eq!(first[0].pixels, both[0].pixels);
    assert_ne!(both[0].pixels, both[2].pixels);
    assert_eq!(
        slicer.slice_selected_bodies(&bodies, &vec![false, false, false]).err(),
        Some(SliceError::InputContractViolation(ContractViolation::EmptyInput))
    );
}

#[test]
fn records_are_read_from_five_numbers_each() {
    let words: Vec<u32> = [
        0.0f32, 0.5, 1.0, -2.0, 3.0, //
        1.25, 1.5, 1.75, 2.0, 0.9, //
        9.0, 9.0,
    ]
    .iter()
    .map(|v| v.to_bits())
    .collect();
    let seg = |a: (i64, i64), b: (i64, i64)| Segment {
        start: PlanePoint { x: a.0, y: a.1 },
        end: PlanePoint { x: b.0, y: b.1 },
    };
    assert_eq!(
        decode_records(&words),
        Ok(vec![
            SegmentRecord { segment: seg((0, 500_000), (1_000_000, -2_000_000)), plane: 3 },
            SegmentRecord {
                segment: seg((1_250_000, 1_500_000), (1_750_000, 2_000_000)),
                plane: 0
            },
        ])
    );
    assert_eq!(decode_records(&Vec::new()), Ok(Vec::new()));
    let mut broken = words.clone();
    broken[7] = f32::NAN.to_bits();
    assert_eq!(
        decode_records(&broken),
        Err(SliceError::InputContractViolation(ContractViolation::Coordinate))
    );
}

#[test]
fn readback_takes_what_was_appended_if_there_was_room() {
    assert_eq!(readback_count(0, 10), Ok(0));
    assert_eq!(readback_count(10, 10), Ok(10));
    assert_eq!(
        readback_count(11, 10),
        Err(SliceError::ResourceExhaustion { attempted: 11, available: 10 })
    );
}

#[test]
fn images_are_drawn_from_records_however_they_are_ordered() {
    let grid = quantize_triangles(&cube([0.0, 0.0, 0.0], 1.0)).unwrap();
    let bbox = CPUSlicer::compute_bounding_box(&grid).unwrap();
    let heights = vec![250_000i64, 500_000, 750_000];
    let records = collect_records(&grid, &heights, 24).unwrap();
    let images = images_from_records(&records, 3, &bbox, 16, 16).unwrap();
    assert_eq!(images.len(), 3);
    // The same records with the planes mixed: within each plane the order stays.
    let mut mixed = Vec::new();
    for k in 0..8 {
        for plane in [2usize, 0, 1] {
            mixed.push(records[plane * 8 + k]);
        }
    }
    let again = images_from_records(&mixed, 3, &bbox, 16, 16).unwrap();
    assert_eq!(again.len(), 3);
    for (a, b) in images.iter().zip(again.iter()) {
        assert_eq!(a.pixels, b.pixels);
    }
    // Records of planes that the sweep does not have are dropped.
    assert_eq!(images_from_records(&records, 1, &bbox, 16, 16).unwrap().len(), 1);
    let outside = vec![SegmentRecord {
        segment: Segment {
            start: PlanePoint { x: -5, y: 0 },
            end: PlanePoint { x: 5, y: 5 },
        },
        plane: 1,
    }];
    assert_eq!(
        images_from_records(&outside, 3, &bbox, 16, 16).err(),
        Some(SliceError::InputContractViolation(ContractViolation::Coordinate))
    );
}
