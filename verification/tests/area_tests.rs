use resin_slicer::cpu_slicer::{quantize_triangles, CPUSlicer};
use resin_slicer::error::{ContractViolation, SliceError};
use resin_slicer::grid::{GridPoint, PlanePoint};
use resin_slicer::mesh::Triangle;
use resin_slicer::resin_slicer::ResinSlicer;

fn p(x: i64, y: i64) -> PlanePoint {
    PlanePoint { x, y }
}

fn bits(v: [f32; 3]) -> [u32; 3] {
    [v[0].to_bits(), v[1].to_bits(), v[2].to_bits()]
}

fn triangle(a: [f32; 3], b: [f32; 3], c: [f32; 3]) -> Triangle {
    Triangle { normal: [0; 3], vertices: [bits(a), bits(b), bits(c)] }
}

/// A box on the plane z = 0 with the given extent.
fn block(w: f32, d: f32, h: f32) -> Vec<Triangle> {
    let c = |x: u8, y: u8, z: u8| [w * x as f32, d * y as f32, h * z as f32];
    vec![
        triangle(c(0, 0, 0), c(1, 1, 0), c(1, 0, 0)),
        triangle(c(0, 0, 0), c(0, 1, 0), c(1, 1, 0)),
        triangle(c(0, 0, 1), c(1, 0, 1), c(1, 1, 1)),
        triangle(c(0, 0, 1), c(1, 1, 1), c(0, 1, 1)),
        triangle(c(0, 0, 0), c(1, 0, 0), c(1, 0, 1)),
        triangle(c(0, 0, 0), c(1, 0, 1), c(0, 0, 1)),
        triangle(c(1, 0, 0), c(1, 1, 0), c(1, 1, 1)),
        triangle(c(1, 0, 0), c(1, 1, 1), c(1, 0, 1)),
        triangle(c(1, 1, 0), c(0, 1, 0), c(0, 1, 1)),
        triangle(c(1, 1, 0), c(0, 1, 1), c(1, 1, 1)),
        triangle(c(0, 1, 0), c(0, 0, 0), c(0, 0, 1)),
        triangle(c(0, 1, 0), c(0, 0, 1), c(0, 1, 1)),
    ]
}

#[test]
fn area_of_a_square_is_doubled() {
    let square = vec![p(0, 0), p(10, 0), p(10, 10), p(0, 10)];
    assert_eq!(ResinSlicer::polygon_area(&square), Ok(200));
    let turned = vec![p(0, 10), p(10, 10), p(10, 0), p(0, 0)];
    assert_eq!(ResinSlicer::polygon_area(&turned), Ok(200));
}

#[test]
fn area_of_a_triangle_away_from_the_origin() {
    let triangle = vec![p(100, -50), p(104, -50), p(100, -46)];
    assert_eq!(ResinSlicer::polygon_area(&triangle), Ok(16));
}

#[test]
fn area_of_what_encloses_nothing_is_zero() {
    assert_eq!(ResinSlicer::polygon_area(&Vec::new()), Ok(0));
    assert_eq!(ResinSlicer::polygon_area(&vec![p(3, 4)]), Ok(0));
    assert_eq!(ResinSlicer::polygon_area(&vec![p(3, 4), p(7, 9)]), Ok(0));
    assert_eq!(ResinSlicer::polygon_area(&vec![p(0, 0), p(5, 5), p(10, 10)]), Ok(0));
}

#[test]
fn area_at_the_edge_of_the_grid() {
    let far = 1_000_000_000_000i64;
    let square = vec![p(-far, -far), p(far, -far), p(far, far), p(-far, far)];
    assert_eq!(
        ResinSlicer::polygon_area(&square),
        Ok(8_000_000_000_000_000_000_000_000u128)
    );
    let beyond = vec![p(0, 0), p(far + 1, 0), p(0, 1)];
    assert_eq!(
        ResinSlicer::polygon_area(&beyond),
        Err(SliceError::InputContractViolation(ContractViolation::Coordinate))
    );
}

#[test]
fn slice_of_a_block_has_the_area_of_its_base() {
    let grid = quantize_triangles(&block(2.0, 3.0, 1.0)).unwrap();
    // 2 by 3 model units are 6 * 10^12 squares of the grid, doubled.
    assert_eq!(
        ResinSlicer::compute_slice_area(&grid, 500_000),
        Ok(vec![12_000_000_000_000u128])
    );
    assert_eq!(ResinSlicer::compute_slice_area(&grid, 0), Ok(Vec::new()));
    assert_eq!(
        ResinSlicer::compute_slice_area(&grid, 1_000_000),
        Ok(vec![12_000_000_000_000u128])
    );
    assert_eq!(ResinSlicer::compute_slice_area(&grid, 5_000_000), Ok(Vec::new()));
}

#[test]
fn cross_sections_of_a_sweep() {
    let grid = quantize_triangles(&block(1.0, 1.0, 1.0)).unwrap();
    let areas = ResinSlicer::compute_cross_sections(&grid, 2, 250_000).unwrap();
    // Planes at 0, 0.25, 0.5, 0.75 and 1, of which all but the first cut the block.
    assert_eq!(areas, vec![2_000_000_000_000u128; 4]);
    let least = *areas.iter().min().unwrap() as f64 / 2.0e12;
    let greatest = *areas.iter().max().unwrap() as f64 / 2.0e12;
    let mean = areas.iter().map(|a| *a as f64 / 2.0e12).sum::<f64>() / areas.len() as f64;
    assert_eq!((least, greatest, mean), (1.0, 1.0, 1.0));
}

#[test]
fn cross_sections_refuse_what_cannot_be_swept() {
    let grid = quantize_triangles(&block(1.0, 1.0, 1.0)).unwrap();
    assert_eq!(
        ResinSlicer::compute_cross_sections(&Vec::new(), 2, 100),
        Err(SliceError::InputContractViolation(ContractViolation::EmptyInput))
    );
    assert_eq!(
        ResinSlicer::compute_cross_sections(&grid, 2, 0),
        Err(SliceError::InputContractViolation(ContractViolation::Thickness))
    );
    assert_eq!(
        ResinSlicer::compute_cross_sections(&Vec::new(), 2, 0),
        Err(SliceError::InputContractViolation(ContractViolation::EmptyInput))
    );
}

#[test]
fn areas_refuse_what_lies_beyond_the_grid() {
    let far = vec![resin_slicer::intersect::GridTriangle {
        a: GridPoint { x: 0, y: 0, z: -5 },
        b: GridPoint { x: 2_000_000_000_000, y: 0, z: 5 },
        c: GridPoint { x: 0, y: 1, z: 5 },
    }];
    let coordinate = Err(SliceError::InputContractViolation(ContractViolation::Coordinate));
    assert_eq!(ResinSlicer::compute_slice_area(&far, 0), coordinate);
    assert_eq!(ResinSlicer::compute_cross_sections(&far, 2, 1), coordinate);
    let grid = quantize_triangles(&block(1.0, 1.0, 1.0)).unwrap();
    assert_eq!(ResinSlicer::compute_slice_area(&grid, i64::MIN), coordinate);
}

#[test]
fn slicing_without_a_slicer_object_gives_the_same_images() {
    let model = block(2.0, 1.0, 1.0);
    let direct = ResinSlicer::generate_slice_images(&model, 300_000, 20, 10).unwrap();
    let by_slicer = CPUSlicer::new(20, 10, 300_000).generate_slice_images(&model).unwrap();
    assert_eq!(direct.len(), 3);
    assert_eq!(direct.len(), by_slicer.len());
    for (a, b) in direct.iter().zip(by_slicer.iter()) {
        assert_eq!(a.pixels, b.pixels);
    }
    let grid = quantize_triangles(&model).unwrap();
    assert_eq!(
        ResinSlicer::compute_bounding_box(&grid).unwrap().max,
        GridPoint { x: 2_000_000, y: 1_000_000, z: 1_000_000 }
    );
}
