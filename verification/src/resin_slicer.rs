//! Cross-section areas, and slicing without a slicer object.

use vstd::prelude::*;
use crate::contour::{
    assemble_polygons, assemble_spec, is_segment_end, lemma_corners_are_segment_ends, polygons_view,
};
use crate::cpu_slicer::{
    bounding_box_spec, lemma_bounding_box, lemma_cut_in_range, plane_count, plane_height,
    BoundingBox, CPUSlicer,
};
use crate::error::{ContractViolation, SliceError};
use crate::gpu_slicer::{generate_slice_z_values, lemma_height_in_range};
use crate::grid::{coord_in_range, PlanePoint, COORD_LIMIT};
use crate::intersect::{
    all_in_range, collect_intersection_segments, plane_segments, triangles_in_range, GridTriangle,
};
use crate::mesh::Triangle;
use crate::raster::SliceImage;

verus! {

/// The most corners of a polygon whose area is computed.
pub const MAX_CORNERS: usize = 0xffff_ffff;

/// Slicing and measuring by functions that take all they need as arguments.
#[derive(Clone, Copy, PartialEq, Eq, Structural, Debug)]
pub struct ResinSlicer {}

/// The corner that follows corner `i` of a polygon with `n` corners.
pub open spec fn next_corner(i: int, n: int) -> int {
    if i + 1 == n {
        0
    } else {
        i + 1
    }
}

/// The sum, over the first `upto` edges of the polygon, of the determinant
/// of the two ends of the edge: twice the area that the edges sweep as seen
/// from the origin, counted positive for a left turn.
pub open spec fn shoelace(polygon: Seq<PlanePoint>, upto: int) -> int
    decreases upto,
{
    if upto <= 0 {
        0
    } else {
        let p = polygon[upto - 1];
        let q = polygon[next_corner(upto - 1, polygon.len() as int)];
        shoelace(polygon, upto - 1) + (p.x * q.y - q.x * p.y)
    }
}

/// Twice the area that the polygon encloses, in squares of the grid step.
pub open spec fn doubled_area(polygon: Seq<PlanePoint>) -> int {
    let sum = shoelace(polygon, polygon.len() as int);
    if sum < 0 {
        -sum
    } else {
        sum
    }
}

/// Why the area of a polygon is not computed, if it is not: the polygon has
/// too many corners, or a corner beyond the range of the grid.
pub open spec fn area_rejection(polygon: Seq<PlanePoint>) -> Option<SliceError> {
    if polygon.len() > MAX_CORNERS {
        Some(
            SliceError::ResourceExhaustion {
                attempted: polygon.len() as u64,
                available: MAX_CORNERS as u64,
            },
        )
    } else if !(forall|i: int| 0 <= i < polygon.len() ==> (#[trigger] polygon[i]).in_range()) {
        Some(SliceError::InputContractViolation(ContractViolation::Coordinate))
    } else {
        None
    }
}

/// The product of two coordinates within range is bounded.
proof fn lemma_term_bound(a: int, b: int)
    requires
        -COORD_LIMIT <= a <= COORD_LIMIT,
        -COORD_LIMIT <= b <= COORD_LIMIT,
    ensures
        -1_000_000_000_000_000_000_000_000 <= a * b <= 1_000_000_000_000_000_000_000_000,
{
    assert(-1_000_000_000_000_000_000_000_000 <= a * b <= 1_000_000_000_000_000_000_000_000)
        by (nonlinear_arith)
        requires
            -1_000_000_000_000 <= a <= 1_000_000_000_000,
            -1_000_000_000_000 <= b <= 1_000_000_000_000,
    ;
}

impl ResinSlicer {
    /// Twice the area of a polygon, whichever way round its corners run.
    pub fn polygon_area(polygon: &Vec<PlanePoint>) -> (outcome: Result<u128, SliceError>)
        ensures
            match outcome {
                Ok(area) => area_rejection(polygon@) is None && area == doubled_area(polygon@),
                Err(e) => area_rejection(polygon@) == Some(e),
            },
    {
        let n = polygon.len();
        if n > MAX_CORNERS {
            return Err(
                SliceError::ResourceExhaustion { attempted: n as u64, available: MAX_CORNERS as u64 },
            );
        }
        let mut c: usize = 0;
        while c < n
            invariant
                c <= n,
                n == polygon.len(),
                n <= MAX_CORNERS,
                forall|i: int| 0 <= i < c ==> (#[trigger] polygon[i]).in_range(),
            decreases n - c,
        {
            let p = polygon[c];
            if p.x < -COORD_LIMIT || p.x > COORD_LIMIT || p.y < -COORD_LIMIT || p.y > COORD_LIMIT {
                assert(!polygon[c as int].in_range());
                return Err(SliceError::InputContractViolation(ContractViolation::Coordinate));
            }
            c += 1;
        }
        let mut sum: i128 = 0;
        let mut i: usize = 0;
        while i < n
            invariant
                i <= n,
                n == polygon.len(),
                n <= MAX_CORNERS,
                forall|k: int| 0 <= k < n ==> (#[trigger] polygon[k]).in_range(),
                sum == shoelace(polygon@, i as int),
                -2_000_000_000_000_000_000_000_000 * i <= sum <= 2_000_000_000_000_000_000_000_000
                    * i,
            decreases n - i,
        {
            let p = polygon[i];
            let q = if i + 1 == n {
                polygon[0]
            } else {
                polygon[i + 1]
            };
            proof {
                lemma_term_bound(p.x as int, q.y as int);
                lemma_term_bound(q.x as int, p.y as int);
            }
            let term: i128 = (p.x as i128) * (q.y as i128) - (q.x as i128) * (p.y as i128);
            sum = sum + term;
            i += 1;
        }
        if sum < 0 {
            Ok((-sum) as u128)
        } else {
            Ok(sum as u128)
        }
    }
}


/// Twice the areas of the first `upto` polygons that enclose an area, in
/// their order.
pub open spec fn positive_areas(polygons: Seq<Seq<PlanePoint>>, upto: int) -> Seq<u128>
    decreases upto,
{
    if upto <= 0 {
        Seq::empty()
    } else {
        let before = positive_areas(polygons, upto - 1);
        if doubled_area(polygons[upto - 1]) > 0 {
            before.push(doubled_area(polygons[upto - 1]) as u128)
        } else {
            before
        }
    }
}

/// Twice the areas of the closed outlines that the plane at height `plane_z`
/// cuts from the triangles.
pub open spec fn slice_areas_spec(triangles: Seq<GridTriangle>, plane_z: int) -> Seq<u128> {
    let polygons = assemble_spec(plane_segments(triangles, plane_z));
    positive_areas(polygons, polygons.len() as int)
}

/// Twice the areas of all closed outlines of the first `upto` planes of a
/// sweep, plane by plane.
pub open spec fn sweep_areas(triangles: Seq<GridTriangle>, min_z: int, thickness: int, upto: int)
    -> Seq<u128>
    decreases upto,
{
    if upto <= 0 {
        Seq::empty()
    } else {
        sweep_areas(triangles, min_z, thickness, upto - 1) + slice_areas_spec(
            triangles,
            plane_height(min_z, thickness, upto - 1),
        )
    }
}

/// Polygon number `i` is the first with more corners than an area is
/// computed for.
pub open spec fn is_first_long(polygons: Seq<Seq<PlanePoint>>, i: int) -> bool {
    &&& 0 <= i < polygons.len()
    &&& polygons[i].len() > MAX_CORNERS
    &&& forall|k: int| 0 <= k < i ==> (#[trigger] polygons[k]).len() <= MAX_CORNERS
}

/// The error that tells of the first polygon with too many corners, if
/// there is such a polygon.
pub open spec fn long_outline_error(polygons: Seq<Seq<PlanePoint>>) -> Option<SliceError> {
    if exists|i: int| is_first_long(polygons, i) {
        let i = choose|i: int| is_first_long(polygons, i);
        Some(
            SliceError::ResourceExhaustion {
                attempted: polygons[i].len() as u64,
                available: MAX_CORNERS as u64,
            },
        )
    } else {
        None
    }
}

/// Why the areas of the outlines of a plane are not computed, if they are
/// not: the triangles and the height of the plane must be within range, and
/// no outline may have too many corners.
pub open spec fn slice_area_error(triangles: Seq<GridTriangle>, plane_z: int) -> Option<SliceError> {
    if !all_in_range(triangles) || !coord_in_range(plane_z) {
        Some(SliceError::InputContractViolation(ContractViolation::Coordinate))
    } else {
        long_outline_error(assemble_spec(plane_segments(triangles, plane_z)))
    }
}

/// The error that tells of the first polygon with too many corners among
/// those that plane number `k` of a sweep cuts, if there is one.
pub open spec fn plane_area_error(triangles: Seq<GridTriangle>, min_z: int, thickness: int, k: int)
    -> Option<SliceError>
{
    long_outline_error(assemble_spec(plane_segments(triangles, plane_height(min_z, thickness, k))))
}

/// The error of the first plane from number `from` on that has one, among
/// the first `planes` planes of a sweep.
pub open spec fn sweep_area_error(
    triangles: Seq<GridTriangle>,
    min_z: int,
    thickness: int,
    from: int,
    planes: int,
) -> Option<SliceError>
    decreases planes - from,
{
    if from < 0 || from >= planes {
        None
    } else if plane_area_error(triangles, min_z, thickness, from) is Some {
        plane_area_error(triangles, min_z, thickness, from)
    } else {
        sweep_area_error(triangles, min_z, thickness, from + 1, planes)
    }
}

/// `outcome` is what measuring the cross-sections of a sweep gives: the
/// areas of `sweep_areas`, or the reason why there are none. A model without
/// triangles is refused first, then an increment that is not positive, then
/// triangles beyond the range of the grid, then the first outline with too
/// many corners.
pub open spec fn is_cross_sections(
    triangles: Seq<GridTriangle>,
    thickness: int,
    outcome: Result<Vec<u128>, SliceError>,
) -> bool {
    let min_z = bounding_box_spec(triangles).min.z as int;
    let planes = plane_count(min_z, bounding_box_spec(triangles).max.z as int, thickness);
    if triangles.len() == 0 {
        outcome == Err::<Vec<u128>, SliceError>(
            SliceError::InputContractViolation(ContractViolation::EmptyInput),
        )
    } else if thickness <= 0 {
        outcome == Err::<Vec<u128>, SliceError>(
            SliceError::InputContractViolation(ContractViolation::Thickness),
        )
    } else if !all_in_range(triangles) {
        outcome == Err::<Vec<u128>, SliceError>(
            SliceError::InputContractViolation(ContractViolation::Coordinate),
        )
    } else {
        match sweep_area_error(triangles, min_z, thickness, 0, planes) {
            Some(e) => outcome == Err::<Vec<u128>, SliceError>(e),
            None => outcome matches Ok(areas) && areas@ == sweep_areas(
                triangles,
                min_z,
                thickness,
                planes,
            ),
        }
    }
}

/// Twice the areas of the polygons that enclose an area.
///
/// Fails at the first polygon with more than `MAX_CORNERS` corners.
#[verifier::rlimit(50)]
fn areas_of_polygons(polygons: &Vec<Vec<PlanePoint>>) -> (outcome: Result<Vec<u128>, SliceError>)
    requires
        forall|k: int, j: int|
            0 <= k < polygons.len() && 0 <= j < polygons[k]@.len() ==> (
            #[trigger] polygons[k]@[j]).in_range(),
    ensures
        match outcome {
            Ok(areas) => long_outline_error(polygons_view(polygons)) is None && areas@
                == positive_areas(polygons_view(polygons), polygons.len() as int),
            Err(e) => long_outline_error(polygons_view(polygons)) == Some(e),
        },
{
    let ghost all = polygons_view(polygons);
    let mut areas: Vec<u128> = Vec::new();
    let mut i: usize = 0;
    while i < polygons.len()
        invariant
            i <= polygons.len(),
            all == polygons_view(polygons),
            forall|k: int, j: int|
                0 <= k < polygons.len() && 0 <= j < polygons[k]@.len() ==> (
                #[trigger] polygons[k]@[j]).in_range(),
            forall|k: int| 0 <= k < i ==> (#[trigger] all[k]).len() <= MAX_CORNERS,
            areas@ == positive_areas(all, i as int),
        decreases polygons.len() - i,
    {
        assert(all[i as int] == polygons[i as int]@);
        match ResinSlicer::polygon_area(&polygons[i]) {
            Ok(area) => {
                if area > 0 {
                    areas.push(area);
                }
            },
            Err(e) => {
                proof {
                    assert(polygons[i as int]@.len() > MAX_CORNERS) by {
                        if polygons[i as int]@.len() <= MAX_CORNERS {
                            assert forall|j: int| 0 <= j < polygons[i as int]@.len() implies (
                            #[trigger] polygons[i as int]@[j]).in_range() by {}
                        }
                    }
                    lemma_first_long(all, i as int);
                }
                return Err(e);
            },
        }
        i += 1;
    }
    proof {
        lemma_none_long(all);
    }
    Ok(areas)
}

/// The first polygon with too many corners decides the error.
proof fn lemma_first_long(polygons: Seq<Seq<PlanePoint>>, i: int)
    requires
        is_first_long(polygons, i),
    ensures
        long_outline_error(polygons) == Some(
            SliceError::ResourceExhaustion {
                attempted: polygons[i].len() as u64,
                available: MAX_CORNERS as u64,
            },
        ),
{
    let j = choose|j: int| is_first_long(polygons, j);
    if j < i {
        assert(polygons[j].len() <= MAX_CORNERS);
    }
    if i < j {
        assert(polygons[i].len() <= MAX_CORNERS);
    }
}

/// Where no polygon has too many corners there is no error.
proof fn lemma_none_long(polygons: Seq<Seq<PlanePoint>>)
    requires
        forall|k: int| 0 <= k < polygons.len() ==> (#[trigger] polygons[k]).len() <= MAX_CORNERS,
    ensures
        long_outline_error(polygons) is None,
{
    if exists|j: int| is_first_long(polygons, j) {
        let j = choose|j: int| is_first_long(polygons, j);
        assert(polygons[j].len() <= MAX_CORNERS);
    }
}

impl ResinSlicer {
    /// The bounding box of the triangles.
    pub fn compute_bounding_box(triangles: &Vec<GridTriangle>) -> (outcome: Result<
        BoundingBox,
        SliceError,
    >)
        ensures
            match outcome {
                Ok(bbox) => triangles.len() >= 1 && bbox == bounding_box_spec(triangles@),
                Err(e) => triangles.len() == 0 && e == SliceError::InputContractViolation(
                    ContractViolation::EmptyInput,
                ),
            },
    {
        CPUSlicer::compute_bounding_box(triangles)
    }

    /// Slices a model into images of the given size, with planes
    /// `slice_increment` grid steps apart.
    pub fn generate_slice_images(
        triangles: &Vec<Triangle>,
        slice_increment: i64,
        image_width: u32,
        image_height: u32,
    ) -> (outcome: Result<Vec<SliceImage>, SliceError>)
        ensures
            (CPUSlicer {
                x: image_width,
                y: image_height,
                slice_thickness: slice_increment,
            }).is_outcome(triangles@, outcome),
    {
        CPUSlicer::new(image_width, image_height, slice_increment).generate_slice_images(triangles)
    }

    /// Twice the areas of the closed outlines that the plane at height
    /// `plane_z` cuts from the triangles, each in squares of the grid step.
    /// Outlines that enclose no area are left out.
    ///
    /// Fails if a triangle or the height of the plane is beyond the range of
    /// the grid, or if an outline has more than `MAX_CORNERS` corners.
    #[verifier::rlimit(50)]
    pub fn compute_slice_area(triangles: &Vec<GridTriangle>, plane_z: i64) -> (outcome: Result<
        Vec<u128>,
        SliceError,
    >)
        ensures
            match outcome {
                Ok(areas) => slice_area_error(triangles@, plane_z as int) is None && areas@
                    == slice_areas_spec(triangles@, plane_z as int),
                Err(e) => slice_area_error(triangles@, plane_z as int) == Some(e),
            },
    {
        if !triangles_in_range(triangles) || plane_z < -COORD_LIMIT || plane_z > COORD_LIMIT {
            return Err(SliceError::InputContractViolation(ContractViolation::Coordinate));
        }
        let segments = collect_intersection_segments(triangles, plane_z);
        let polygons = assemble_polygons(&segments);
        proof {
            lemma_cut_in_range(triangles@, plane_z as int);
            assert forall|k: int, j: int|
                0 <= k < polygons.len() && 0 <= j < polygons[k]@.len() implies (
            #[trigger] polygons[k]@[j]).in_range() by {
                let p = polygons[k]@[j];
                lemma_corners_are_segment_ends(segments@, polygons[k]@);
                assert(is_segment_end(segments@, p));
                let m = choose|m: int|
                    0 <= m < segments@.len() && ((#[trigger] segments@[m]).start == p
                        || segments@[m].end == p);
            }
        }
        areas_of_polygons(&polygons)
    }

    /// Twice the areas of all closed outlines of a sweep through the model,
    /// plane by plane from the lowest: the cross-sections of which a caller
    /// takes the least, the greatest and the mean.
    ///
    /// Fails if there is no triangle, if the increment is not positive, if a
    /// triangle is beyond the range of the grid, or if an outline has more
    /// than `MAX_CORNERS` corners.
    #[verifier::rlimit(50)]
    pub fn compute_cross_sections(
        triangles: &Vec<GridTriangle>,
        _vertical_axis: usize,
        slice_increment: i64,
    ) -> (outcome: Result<Vec<u128>, SliceError>)
        ensures
            is_cross_sections(triangles@, slice_increment as int, outcome),
    {
        let (min_z, max_z) = match CPUSlicer::z_range(triangles) {
            Ok(range) => range,
            Err(e) => {
                return Err(e);
            },
        };
        if slice_increment <= 0 {
            return Err(SliceError::InputContractViolation(ContractViolation::Thickness));
        }
        if !triangles_in_range(triangles) {
            return Err(SliceError::InputContractViolation(ContractViolation::Coordinate));
        }
        let heights = match generate_slice_z_values(min_z, max_z, slice_increment) {
            Ok(heights) => heights,
            Err(e) => {
                return Err(e);
            },
        };
        proof {
            lemma_bounding_box(triangles@);
        }
        let mut areas: Vec<u128> = Vec::new();
        let mut p: usize = 0;
        while p < heights.len()
            invariant
                p <= heights.len(),
                all_in_range(triangles@),
                triangles.len() > 0,
                min_z == bounding_box_spec(triangles@).min.z,
                max_z == bounding_box_spec(triangles@).max.z,
                slice_increment > 0,
                coord_in_range(min_z as int),
                coord_in_range(max_z as int),
                min_z <= max_z,
                heights.len() == plane_count(min_z as int, max_z as int, slice_increment as int),
                forall|k: int|
                    0 <= k < heights.len() ==> #[trigger] heights[k] == plane_height(
                        min_z as int,
                        slice_increment as int,
                        k,
                    ),
                areas@ == sweep_areas(triangles@, min_z as int, slice_increment as int, p as int),
                sweep_area_error(
                    triangles@,
                    min_z as int,
                    slice_increment as int,
                    0,
                    heights.len() as int,
                ) == sweep_area_error(
                    triangles@,
                    min_z as int,
                    slice_increment as int,
                    p as int,
                    heights.len() as int,
                ),
            decreases heights.len() - p,
        {
            proof {
                lemma_height_in_range(
                    min_z as int,
                    max_z as int,
                    slice_increment as int,
                    p as int,
                );
            }
            match ResinSlicer::compute_slice_area(triangles, heights[p]) {
                Ok(mut more) => {
                    let ghost before = areas@;
                    let ghost added = more@;
                    areas.append(&mut more);
                    assert(areas@ == before + added);
                },
                Err(e) => {
                    return Err(e);
                },
            }
            p += 1;
        }
        Ok(areas)
    }
}

} // verus!
