//! The plane sweep: from a triangle list to one raster per cutting plane.

use vstd::prelude::*;
use vstd::arithmetic::div_mod::lemma_fundamental_div_mod_converse;
use crate::contour::{
    assemble_polygons, assemble_spec, is_closed_loop, is_segment_end, lemma_assemble_nothing,
    lemma_corners_are_segment_ends, polygons_view,
};
use crate::error::{ContractViolation, SliceError};
use crate::grid::{coord_in_range, GridPoint, PlanePoint, Segment, COORD_LIMIT};
use crate::intersect::{
    all_in_range, collect_intersection_segments, lemma_segments_within, plane_segments,
    point_in_range, triangles_in_range, within, GridTriangle,
};
use crate::mesh::{Mesh, Triangle};
use crate::raster::{
    choose_scale, fitting_scale, image_size_is_valid, lemma_fitting_scale_fits,
    rasterize_polygons, valid_image_size, Frame, SliceImage,
};

verus! {

/// The smallest box with sides along the axes that holds a model.
#[derive(Clone, Copy, PartialEq, Eq, Structural, Debug)]
pub struct BoundingBox {
    pub min: GridPoint,
    pub max: GridPoint,
}

/// The smaller of two numbers.
pub open spec fn lesser(a: i64, b: i64) -> i64 {
    if a <= b {
        a
    } else {
        b
    }
}

/// The greater of two numbers.
pub open spec fn greater(a: i64, b: i64) -> i64 {
    if a >= b {
        a
    } else {
        b
    }
}

impl BoundingBox {
    /// Both corners are within range and the minimum is not above the
    /// maximum.
    pub open spec fn wf(self) -> bool {
        &&& self.min.in_range()
        &&& self.max.in_range()
        &&& self.min.x <= self.max.x
        &&& self.min.y <= self.max.y
        &&& self.min.z <= self.max.z
    }

    /// `p` lies in the box.
    pub open spec fn holds(self, p: GridPoint) -> bool {
        &&& self.min.x <= p.x <= self.max.x
        &&& self.min.y <= p.y <= self.max.y
        &&& self.min.z <= p.z <= self.max.z
    }

    /// `p` lies in the box seen from above.
    pub open spec fn covers(self, p: PlanePoint) -> bool {
        &&& self.min.x <= p.x <= self.max.x
        &&& self.min.y <= p.y <= self.max.y
    }

    /// The box that holds just `p`.
    pub open spec fn around(p: GridPoint) -> BoundingBox {
        BoundingBox { min: p, max: p }
    }

    /// The smallest box that holds this box and `p`.
    pub open spec fn with_point(self, p: GridPoint) -> BoundingBox {
        BoundingBox {
            min: GridPoint {
                x: lesser(self.min.x, p.x),
                y: lesser(self.min.y, p.y),
                z: lesser(self.min.z, p.z),
            },
            max: GridPoint {
                x: greater(self.max.x, p.x),
                y: greater(self.max.y, p.y),
                z: greater(self.max.z, p.z),
            },
        }
    }

    /// The smallest box that holds this box and `t`.
    pub open spec fn with_triangle(self, t: GridTriangle) -> BoundingBox {
        self.with_point(t.a).with_point(t.b).with_point(t.c)
    }

    /// The box holds all corners of all triangles.
    pub open spec fn bounds(self, triangles: Seq<GridTriangle>) -> bool {
        forall|i: int|
            0 <= i < triangles.len() ==> self.holds((#[trigger] triangles[i]).a) && self.holds(
                triangles[i].b,
            ) && self.holds(triangles[i].c)
    }

    fn extend(&self, p: &GridPoint) -> (out: BoundingBox)
        ensures
            out == self.with_point(*p),
    {
        BoundingBox {
            min: GridPoint {
                x: if self.min.x <= p.x { self.min.x } else { p.x },
                y: if self.min.y <= p.y { self.min.y } else { p.y },
                z: if self.min.z <= p.z { self.min.z } else { p.z },
            },
            max: GridPoint {
                x: if self.max.x >= p.x { self.max.x } else { p.x },
                y: if self.max.y >= p.y { self.max.y } else { p.y },
                z: if self.max.z >= p.z { self.max.z } else { p.z },
            },
        }
    }
}

/// The bounding box of a list of at least one triangle.
pub open spec fn bounding_box_spec(triangles: Seq<GridTriangle>) -> BoundingBox
    decreases triangles.len(),
{
    if triangles.len() <= 1 {
        BoundingBox::around(triangles[0].a).with_triangle(triangles[0])
    } else {
        bounding_box_spec(triangles.drop_last()).with_triangle(triangles.last())
    }
}

/// The bounding box of triangles within range is well formed and holds
/// all their corners.
pub proof fn lemma_bounding_box(triangles: Seq<GridTriangle>)
    requires
        triangles.len() >= 1,
        all_in_range(triangles),
    ensures
        bounding_box_spec(triangles).wf(),
        bounding_box_spec(triangles).bounds(triangles),
    decreases triangles.len(),
{
    if triangles.len() > 1 {
        let front = triangles.drop_last();
        assert forall|i: int| 0 <= i < front.len() implies (#[trigger] front[i]).in_range() by {
            assert(front[i] == triangles[i]);
        }
        lemma_bounding_box(front);
        let before = bounding_box_spec(front);
        let after = bounding_box_spec(triangles);
        assert(triangles.last().in_range());
        assert forall|i: int| 0 <= i < triangles.len() implies after.holds(
            (#[trigger] triangles[i]).a,
        ) && after.holds(triangles[i].b) && after.holds(triangles[i].c) by {
            if i < front.len() {
                assert(front[i] == triangles[i]);
                assert(before.holds(front[i].a));
            }
        }
    } else {
        assert(triangles[0].in_range());
    }
}

/// The frame in which a model with bounding box `bbox` is drawn on an image
/// of the given size: the box's lower corner falls on the image's corner, and
/// the scale is the largest at which the box fits.
pub open spec fn frame_of(bbox: BoundingBox, width: u32, height: u32) -> Frame {
    Frame {
        min_x: bbox.min.x,
        min_y: bbox.min.y,
        scale: fitting_scale(
            (bbox.max.x - bbox.min.x) as i64,
            (bbox.max.y - bbox.min.y) as i64,
            width,
            height,
        ),
        width,
        height,
    }
}

/// The frame of a box can map every point that the box covers.
pub proof fn lemma_frame_holds(bbox: BoundingBox, width: u32, height: u32, p: PlanePoint)
    requires
        bbox.wf(),
        bbox.covers(p),
    ensures
        frame_of(bbox, width, height).holds(p),
{
    lemma_fitting_scale_fits(
        (bbox.max.x - bbox.min.x) as i64,
        (bbox.max.y - bbox.min.y) as i64,
        width,
        height,
        p.x - bbox.min.x,
        p.y - bbox.min.y,
    );
}


/// The image of the closed outlines that the segments form, a pixel at
/// foreground where an odd number of them cover it, or `None` if they form
/// none.
pub open spec fn segments_image_spec(segments: Seq<Segment>, frame: Frame) -> Option<Seq<u8>> {
    let polygons = assemble_spec(segments);
    if polygons.len() == 0 {
        None
    } else {
        Some(frame.render_spec(polygons, polygons.len() as int))
    }
}

/// The image of the plane at height `plane_z`, or `None` if the plane cuts
/// no closed outline from the triangles.
pub open spec fn plane_image_spec(triangles: Seq<GridTriangle>, plane_z: int, frame: Frame)
    -> Option<Seq<u8>>
{
    segments_image_spec(plane_segments(triangles, plane_z), frame)
}

/// Both ends of every segment lie in the box seen from above.
pub open spec fn covers_segments(bbox: BoundingBox, segments: Seq<Segment>) -> bool {
    forall|k: int|
        0 <= k < segments.len() ==> bbox.covers((#[trigger] segments[k]).start) && bbox.covers(
            segments[k].end,
        )
}

/// Both ends of every segment that a plane cuts from triangles within range
/// are within range.
pub proof fn lemma_cut_in_range(triangles: Seq<GridTriangle>, plane_z: int)
    requires
        all_in_range(triangles),
        coord_in_range(plane_z),
    ensures
        forall|k: int|
            0 <= k < plane_segments(triangles, plane_z).len() ==> (#[trigger] plane_segments(
                triangles,
                plane_z,
            )[k]).start.in_range() && plane_segments(triangles, plane_z)[k].end.in_range(),
{
    let segments = plane_segments(triangles, plane_z);
    assert forall|k: int| 0 <= k < segments.len() implies (#[trigger] segments[k]).start.in_range()
        && segments[k].end.in_range() by {
        let t = lemma_segments_within(triangles, plane_z, k);
    }
}

/// The box covers the segments that any plane cuts from triangles that it
/// bounds.
pub proof fn lemma_box_covers_cut(bbox: BoundingBox, triangles: Seq<GridTriangle>, plane_z: int)
    requires
        all_in_range(triangles),
        coord_in_range(plane_z),
        bbox.bounds(triangles),
    ensures
        covers_segments(bbox, plane_segments(triangles, plane_z)),
{
    let segments = plane_segments(triangles, plane_z);
    assert forall|k: int| 0 <= k < segments.len() implies bbox.covers(
        (#[trigger] segments[k]).start,
    ) && bbox.covers(segments[k].end) by {
        let t = lemma_segments_within(triangles, plane_z, k);
        assert(bbox.holds(triangles[t].a) && bbox.holds(triangles[t].b) && bbox.holds(
            triangles[t].c,
        ));
    }
}

/// How many planes are swept: one at the lowest height, and one more for
/// each whole thickness up to the greatest height.
pub open spec fn plane_count(min_z: int, max_z: int, thickness: int) -> int {
    if thickness <= 0 || max_z < min_z {
        0
    } else {
        (max_z - min_z) / thickness + 1
    }
}

/// The height of plane number `k`.
pub open spec fn plane_height(min_z: int, thickness: int, k: int) -> int {
    min_z + k * thickness
}

/// The images of the first `upto` planes, from the lowest up. Planes that
/// cut no closed outline are left out.
pub open spec fn sweep_spec(
    triangles: Seq<GridTriangle>,
    min_z: int,
    thickness: int,
    frame: Frame,
    upto: int,
) -> Seq<Seq<u8>>
    decreases upto,
{
    if upto <= 0 {
        Seq::empty()
    } else {
        let below = sweep_spec(triangles, min_z, thickness, frame, upto - 1);
        match plane_image_spec(triangles, plane_height(min_z, thickness, upto - 1), frame) {
            Some(pixels) => below.push(pixels),
            None => below,
        }
    }
}

/// The pixels of the images of a model cut every `thickness` grid steps: the
/// planes run from the model's lowest height up to its greatest, and all
/// images are drawn in the frame of the model's bounding box.
pub open spec fn slice_spec(triangles: Seq<GridTriangle>, thickness: int, width: u32, height: u32)
    -> Seq<Seq<u8>>
{
    let bbox = bounding_box_spec(triangles);
    sweep_spec(
        triangles,
        bbox.min.z as int,
        thickness,
        frame_of(bbox, width, height),
        plane_count(bbox.min.z as int, bbox.max.z as int, thickness),
    )
}

/// The images of the planes that gave one, in the order of the planes.
pub open spec fn present_images(results: Seq<Option<SliceImage>>, upto: int) -> Seq<Seq<u8>>
    decreases upto,
{
    if upto <= 0 {
        Seq::empty()
    } else {
        let below = present_images(results, upto - 1);
        match results[upto - 1] {
            Some(image) => below.push(image.pixels@),
            None => below,
        }
    }
}

/// Puts the results of the planes of a sweep together: the images of the
/// planes that gave one, in the order of the planes, however the planes
/// were worked on.
#[verifier::rlimit(50)]
pub fn gather_images(results: Vec<Option<SliceImage>>) -> (images: Vec<SliceImage>)
    ensures
        images_view(&images) == present_images(results@, results.len() as int),
        images.len() <= results.len(),
        forall|i: int|
            0 <= i < images.len() ==> exists|k: int|
                0 <= k < results.len() && results[k] == Some(#[trigger] images[i]),
{
    let mut images: Vec<SliceImage> = Vec::new();
    let mut results = results;
    let ghost all = results@;
    let mut rest: Vec<Option<SliceImage>> = Vec::new();
    // The results are taken from the back, so they are turned round first.
    while results.len() > 0
        invariant
            results.len() + rest.len() == all.len(),
            forall|k: int| 0 <= k < results.len() ==> results[k] == all[k],
            forall|k: int|
                0 <= k < rest.len() ==> (#[trigger] rest[k]) == all[all.len() - 1 - k],
        decreases results.len(),
    {
        let last = results.pop();
        match last {
            Some(entry) => {
                rest.push(entry);
            },
            None => {},
        }
    }
    let ghost mut done: int = 0;
    assert(images_view(&images) =~= Seq::<Seq<u8>>::empty());
    while rest.len() > 0
        invariant
            0 <= done <= all.len(),
            rest.len() + done == all.len(),
            forall|k: int|
                0 <= k < rest.len() ==> (#[trigger] rest[k]) == all[all.len() - 1 - k],
            images_view(&images) == present_images(all, done),
            images.len() <= done,
            forall|i: int|
                0 <= i < images.len() ==> exists|k: int|
                    0 <= k < all.len() && all[k] == Some(#[trigger] images[i]),
        decreases rest.len(),
    {
        let ghost before = images_view(&images);
        let ghost at = done;
        let entry = rest.pop();
        match entry {
            Some(Some(image)) => {
                assert(all[at] == Some(image));
                images.push(image);
                assert(images_view(&images) =~= before.push(image.pixels@));
            },
            _ => {},
        }
        proof {
            done = done + 1;
        }
    }
    images
}

/// The results of the planes of a sweep, each worked on alone, give the
/// images of the sweep when they are put together.
pub proof fn lemma_gathered_sweep(
    triangles: Seq<GridTriangle>,
    min_z: int,
    thickness: int,
    frame: Frame,
    results: Seq<Option<SliceImage>>,
    upto: int,
)
    requires
        0 <= upto <= results.len(),
        forall|k: int|
            0 <= k < upto ==> match #[trigger] results[k] {
                Some(image) => plane_image_spec(
                    triangles,
                    plane_height(min_z, thickness, k),
                    frame,
                ) == Some(image.pixels@),
                None => plane_image_spec(triangles, plane_height(min_z, thickness, k), frame)
                    is None,
            },
    ensures
        present_images(results, upto) == sweep_spec(triangles, min_z, thickness, frame, upto),
    decreases upto,
{
    if upto > 0 {
        lemma_gathered_sweep(triangles, min_z, thickness, frame, results, upto - 1);
        let r = results[upto - 1];
    }
}

/// There are no more images than planes.
pub proof fn lemma_sweep_length(
    triangles: Seq<GridTriangle>,
    min_z: int,
    thickness: int,
    frame: Frame,
    upto: int,
)
    requires
        0 <= upto,
    ensures
        sweep_spec(triangles, min_z, thickness, frame, upto).len() <= upto,
    decreases upto,
{
    if upto > 0 {
        lemma_sweep_length(triangles, min_z, thickness, frame, upto - 1);
    }
}

/// The pixels of the images, one sequence for each.
pub open spec fn images_view(images: &Vec<SliceImage>) -> Seq<Seq<u8>> {
    Seq::new(images@.len(), |i: int| images@[i].pixels@)
}

/// Why segments are not drawn in the frame of a box, if they are not: the
/// corners of the box must be within range, its minimum must not lie above
/// its maximum, the image must have a valid size, and the box must cover the
/// segments. The first of these that fails decides.
pub open spec fn render_rejection(segments: Seq<Segment>, bbox: BoundingBox, width: u32, height: u32)
    -> Option<ContractViolation>
{
    if !(bbox.min.in_range() && bbox.max.in_range()) {
        Some(ContractViolation::Coordinate)
    } else if !bbox.wf() {
        Some(ContractViolation::InvertedBounds)
    } else if !valid_image_size(width, height) {
        Some(ContractViolation::ImageSize)
    } else if !covers_segments(bbox, segments) {
        Some(ContractViolation::Coordinate)
    } else {
        None
    }
}

/// Draws the closed outlines that the segments form, filled, in the frame of
/// `bbox`: an outline within another bounds a hole. Returns `None` if they
/// form no closed outline.
#[verifier::rlimit(50)]
pub fn render_segments(segments: &Vec<Segment>, bbox: &BoundingBox, width: u32, height: u32) -> (outcome:
    Result<Option<SliceImage>, SliceError>)
    ensures
        match outcome {
            Ok(Some(img)) => render_rejection(segments@, *bbox, width, height) is None && img.wf()
                && img.width == width && img.height == height && segments_image_spec(
                segments@,
                frame_of(*bbox, width, height),
            ) == Some(img.pixels@),
            Ok(None) => render_rejection(segments@, *bbox, width, height) is None
                && segments_image_spec(segments@, frame_of(*bbox, width, height)) is None,
            Err(e) => render_rejection(segments@, *bbox, width, height) matches Some(v) && e
                == SliceError::InputContractViolation(v),
        },
{
    if !(point_in_range(&bbox.min) && point_in_range(&bbox.max)) {
        return Err(SliceError::InputContractViolation(ContractViolation::Coordinate));
    }
    if bbox.min.x > bbox.max.x || bbox.min.y > bbox.max.y || bbox.min.z > bbox.max.z {
        return Err(SliceError::InputContractViolation(ContractViolation::InvertedBounds));
    }
    if !image_size_is_valid(width, height) {
        return Err(SliceError::InputContractViolation(ContractViolation::ImageSize));
    }
    let mut i: usize = 0;
    while i < segments.len()
        invariant
            i <= segments.len(),
            bbox.wf(),
            valid_image_size(width, height),
            forall|k: int|
                0 <= k < i ==> bbox.covers((#[trigger] segments[k]).start) && bbox.covers(
                    segments[k].end,
                ),
        decreases segments.len() - i,
    {
        let seg = segments[i];
        if !(bbox.min.x <= seg.start.x && seg.start.x <= bbox.max.x && bbox.min.y <= seg.start.y
            && seg.start.y <= bbox.max.y && bbox.min.x <= seg.end.x && seg.end.x <= bbox.max.x
            && bbox.min.y <= seg.end.y && seg.end.y <= bbox.max.y) {
            assert(!(bbox.covers(segments[i as int].start) && bbox.covers(segments[i as int].end)));
            return Err(SliceError::InputContractViolation(ContractViolation::Coordinate));
        }
        i += 1;
    }
    if segments.len() == 0 {
        proof {
            lemma_assemble_nothing();
            assert(segments@ =~= Seq::<Segment>::empty());
        }
        return Ok(None);
    }
    let polygons = assemble_polygons(segments);
    if polygons.len() == 0 {
        return Ok(None);
    }
    let frame = Frame {
        min_x: bbox.min.x,
        min_y: bbox.min.y,
        scale: choose_scale(bbox.max.x - bbox.min.x, bbox.max.y - bbox.min.y, width, height),
        width,
        height,
    };
    proof {
        let all = polygons_view(&polygons);
        assert forall|i: int, j: int| 0 <= i < all.len() && 0 <= j < all[i].len() implies frame.holds(
            #[trigger] all[i][j],
        ) by {
            let p = all[i][j];
            assert(is_closed_loop(segments@, polygons[i]@));
            lemma_corners_are_segment_ends(segments@, polygons[i]@);
            assert(is_segment_end(segments@, polygons[i]@[j]));
            let k = choose|k: int|
                0 <= k < segments@.len() && ((#[trigger] segments@[k]).start == p || segments@[k].end
                    == p);
            assert(bbox.covers(p));
            lemma_frame_holds(*bbox, width, height, p);
        }
    }
    Ok(Some(rasterize_polygons(&polygons, &frame)))
}

/// Cuts triangles that the box bounds with the plane at height `plane_z`
/// and draws the closed outlines that the cut gives.
fn cut_and_render(
    triangles: &Vec<GridTriangle>,
    plane_z: i64,
    bbox: &BoundingBox,
    width: u32,
    height: u32,
) -> (image: Option<SliceImage>)
    requires
        all_in_range(triangles@),
        coord_in_range(plane_z as int),
        bbox.wf(),
        bbox.bounds(triangles@),
        valid_image_size(width, height),
    ensures
        match image {
            Some(img) => img.wf() && img.width == width && img.height == height
                && plane_image_spec(triangles@, plane_z as int, frame_of(*bbox, width, height))
                == Some(img.pixels@),
            None => plane_image_spec(triangles@, plane_z as int, frame_of(*bbox, width, height))
                is None,
        },
{
    let segments = collect_intersection_segments(triangles, plane_z);
    proof {
        lemma_box_covers_cut(*bbox, triangles@, plane_z as int);
    }
    match render_segments(&segments, bbox, width, height) {
        Ok(image) => image,
        Err(_) => None,
    }
}

/// Why a plane is not cut and drawn, if it is not: the triangles and the
/// height of the plane must be within range, and what the plane cuts must
/// be such as can be drawn in the frame of the box.
pub open spec fn plane_rejection(
    triangles: Seq<GridTriangle>,
    plane_z: int,
    bbox: BoundingBox,
    width: u32,
    height: u32,
) -> Option<ContractViolation> {
    if !all_in_range(triangles) || !coord_in_range(plane_z) {
        Some(ContractViolation::Coordinate)
    } else {
        render_rejection(plane_segments(triangles, plane_z), bbox, width, height)
    }
}

/// Cuts the triangles with the plane at height `plane_z` and draws the
/// closed outlines that the cut gives, filled, in the frame of `bbox`.
/// Returns `None` if there is no closed outline.
///
/// This is the work on one plane of a sweep. It takes nothing from any
/// other plane, so the planes of a sweep can be worked on in any order, or
/// side by side.
pub fn slice_plane(
    triangles: &Vec<GridTriangle>,
    plane_z: i64,
    bbox: &BoundingBox,
    width: u32,
    height: u32,
) -> (outcome: Result<Option<SliceImage>, SliceError>)
    ensures
        match outcome {
            Ok(Some(img)) => plane_rejection(triangles@, plane_z as int, *bbox, width, height)
                is None && img.wf() && img.width == width && img.height == height
                && plane_image_spec(triangles@, plane_z as int, frame_of(*bbox, width, height))
                == Some(img.pixels@),
            Ok(None) => plane_rejection(triangles@, plane_z as int, *bbox, width, height) is None
                && plane_image_spec(triangles@, plane_z as int, frame_of(*bbox, width, height))
                is None,
            Err(e) => plane_rejection(triangles@, plane_z as int, *bbox, width, height)
                matches Some(v) && e == SliceError::InputContractViolation(v),
        },
{
    if !triangles_in_range(triangles) || plane_z < -COORD_LIMIT || plane_z > COORD_LIMIT {
        return Err(SliceError::InputContractViolation(ContractViolation::Coordinate));
    }
    let segments = collect_intersection_segments(triangles, plane_z);
    render_segments(&segments, bbox, width, height)
}

/// The triangles on the grid, or `None` if one of them has a coordinate
/// without a place there.
pub open spec fn quantized(triangles: Seq<Triangle>) -> Option<Seq<GridTriangle>> {
    if forall|i: int| 0 <= i < triangles.len() ==> (#[trigger] triangles[i]).grid_spec() is Some {
        Some(Seq::new(triangles.len(), |i: int| triangles[i].grid_spec()->0))
    } else {
        None
    }
}

/// Reads the triangles onto the grid.
pub fn quantize_triangles(triangles: &Vec<Triangle>) -> (grid: Option<Vec<GridTriangle>>)
    ensures
        match grid {
            Some(g) => quantized(triangles@) == Some(g@) && all_in_range(g@),
            None => quantized(triangles@) is None,
        },
{
    let mut grid: Vec<GridTriangle> = Vec::new();
    let mut i: usize = 0;
    while i < triangles.len()
        invariant
            i <= triangles.len(),
            grid.len() == i,
            forall|j: int| 0 <= j < i ==> (#[trigger] triangles[j]).grid_spec() == Some(grid[j]),
            forall|j: int| 0 <= j < i ==> (#[trigger] grid[j]).in_range(),
        decreases triangles.len() - i,
    {
        match triangles[i].to_grid() {
            Some(t) => {
                grid.push(t);
            },
            None => {
                return None;
            },
        }
        i += 1;
    }
    assert(grid@ =~= Seq::new(triangles@.len(), |i: int| triangles[i].grid_spec()->0));
    Some(grid)
}

/// The triangles of the first `upto` meshes on the grid, mesh by mesh.
pub open spec fn merged_triangles(meshes: Seq<Mesh>, upto: int) -> Seq<GridTriangle>
    decreases upto,
{
    if upto <= 0 {
        Seq::empty()
    } else {
        merged_triangles(meshes, upto - 1) + meshes[upto - 1].grid_triangles()
    }
}

/// What is wrong with the first mesh from number `from` on with which
/// something is wrong, if there is one.
pub open spec fn merge_rejection(meshes: Seq<Mesh>, from: int) -> Option<ContractViolation>
    decreases meshes.len() - from,
{
    if from < 0 || from >= meshes.len() {
        None
    } else if meshes[from].removal_rejection() is Some {
        meshes[from].removal_rejection()
    } else {
        merge_rejection(meshes, from + 1)
    }
}

/// Puts the triangles of several meshes into one list on the grid.
///
/// Fails if one of the meshes is not well formed or has a triangle without
/// a place on the grid; the first such mesh decides the error.
pub fn merge_meshes(meshes: &Vec<Mesh>) -> (outcome: Result<Vec<GridTriangle>, SliceError>)
    ensures
        match outcome {
            Ok(grid) => {
                &&& merge_rejection(meshes@, 0) is None
                &&& grid@ == merged_triangles(meshes@, meshes.len() as int)
                &&& all_in_range(grid@)
            },
            Err(e) => merge_rejection(meshes@, 0) matches Some(v) && e
                == SliceError::InputContractViolation(v),
        },
{
    let mut grid: Vec<GridTriangle> = Vec::new();
    let mut i: usize = 0;
    while i < meshes.len()
        invariant
            i <= meshes.len(),
            merge_rejection(meshes@, 0) == merge_rejection(meshes@, i as int),
            grid@ == merged_triangles(meshes@, i as int),
            all_in_range(grid@),
        decreases meshes.len() - i,
    {
        match meshes[i].to_grid_triangles() {
            Ok(mut more) => {
                let ghost before = grid@;
                let ghost added = more@;
                grid.append(&mut more);
                assert(grid@ == before + added);
            },
            Err(e) => {
                return Err(e);
            },
        }
        i += 1;
    }
    Ok(grid)
}

/// Mesh number `k` is taken: it has no flag, or its flag is set.
pub open spec fn is_chosen(chosen: Seq<bool>, k: int) -> bool {
    k >= chosen.len() || chosen[k]
}

/// The triangles on the grid of those of the first `upto` meshes that are
/// taken, mesh by mesh.
pub open spec fn selected_triangles(meshes: Seq<Mesh>, chosen: Seq<bool>, upto: int) -> Seq<
    GridTriangle,
>
    decreases upto,
{
    if upto <= 0 {
        Seq::empty()
    } else if is_chosen(chosen, upto - 1) {
        selected_triangles(meshes, chosen, upto - 1) + meshes[upto - 1].grid_triangles()
    } else {
        selected_triangles(meshes, chosen, upto - 1)
    }
}

/// What is wrong with the first mesh from number `from` on that is taken and
/// with which something is wrong, if there is one.
pub open spec fn selection_rejection(meshes: Seq<Mesh>, chosen: Seq<bool>, from: int) -> Option<
    ContractViolation,
>
    decreases meshes.len() - from,
{
    if from < 0 || from >= meshes.len() {
        None
    } else if is_chosen(chosen, from) && meshes[from].removal_rejection() is Some {
        meshes[from].removal_rejection()
    } else {
        selection_rejection(meshes, chosen, from + 1)
    }
}

/// Puts the triangles of the meshes that are taken into one list on the
/// grid. Mesh number `k` is left out if `chosen` has a flag for it that is
/// not set; meshes that are left out are not looked at.
///
/// Fails if one of the meshes taken is not well formed or has a triangle
/// without a place on the grid; the first such mesh decides the error.
pub fn merge_selected(meshes: &Vec<Mesh>, chosen: &Vec<bool>) -> (outcome: Result<
    Vec<GridTriangle>,
    SliceError,
>)
    ensures
        match outcome {
            Ok(grid) => {
                &&& selection_rejection(meshes@, chosen@, 0) is None
                &&& grid@ == selected_triangles(meshes@, chosen@, meshes.len() as int)
                &&& all_in_range(grid@)
            },
            Err(e) => selection_rejection(meshes@, chosen@, 0) matches Some(v) && e
                == SliceError::InputContractViolation(v),
        },
{
    let mut grid: Vec<GridTriangle> = Vec::new();
    let mut i: usize = 0;
    while i < meshes.len()
        invariant
            i <= meshes.len(),
            selection_rejection(meshes@, chosen@, 0) == selection_rejection(
                meshes@,
                chosen@,
                i as int,
            ),
            grid@ == selected_triangles(meshes@, chosen@, i as int),
            all_in_range(grid@),
        decreases meshes.len() - i,
    {
        if i >= chosen.len() || chosen[i] {
            match meshes[i].to_grid_triangles() {
                Ok(mut more) => {
                    let ghost before = grid@;
                    let ghost added = more@;
                    grid.append(&mut more);
                    assert(grid@ == before + added);
                },
                Err(e) => {
                    return Err(e);
                },
            }
        }
        i += 1;
    }
    Ok(grid)
}

/// A slicer that runs the whole sweep in the calling thread.
#[derive(Clone, Copy, PartialEq, Eq, Structural, Debug)]
pub struct CPUSlicer {
    /// The width of the images, in pixels.
    pub x: u32,
    /// The height of the images, in pixels.
    pub y: u32,
    /// The distance between two planes, in grid steps.
    pub slice_thickness: i64,
}

impl Default for CPUSlicer {
    fn default() -> (slicer: CPUSlicer)
        ensures
            slicer.x == 0,
            slicer.y == 0,
            slicer.slice_thickness == 0,
    {
        CPUSlicer { x: 0, y: 0, slice_thickness: 0 }
    }
}

impl CPUSlicer {
    /// A slicer for images of `x` by `y` pixels and planes `slice_thickness`
    /// grid steps apart.
    pub fn new(x: u32, y: u32, slice_thickness: i64) -> (slicer: CPUSlicer)
        ensures
            slicer.x == x,
            slicer.y == y,
            slicer.slice_thickness == slice_thickness,
    {
        CPUSlicer { x, y, slice_thickness }
    }

    /// The bounding box of the triangles.
    ///
    /// Fails if there is no triangle.
    pub fn compute_bounding_box(triangles: &Vec<GridTriangle>) -> (outcome: Result<
        BoundingBox,
        SliceError,
    >)
        ensures
            match outcome {
                Ok(bbox) => triangles.len() >= 1 && bbox == bounding_box_spec(triangles@),
                Err(e) => triangles.len() == 0 && e == SliceError::InputContractViolation(
                    ContractViolation::EmptyInput,
                ),
            },
    {
        if triangles.len() == 0 {
            return Err(SliceError::InputContractViolation(ContractViolation::EmptyInput));
        }
        let first = &triangles[0];
        let mut bbox = BoundingBox { min: first.a, max: first.a };
        bbox = bbox.extend(&first.a).extend(&first.b).extend(&first.c);
        assert(triangles@.take(1).len() == 1 && triangles@.take(1)[0] == triangles[0]);
        let mut i: usize = 1;
        while i < triangles.len()
            invariant
                1 <= i <= triangles.len(),
                bbox == bounding_box_spec(triangles@.take(i as int)),
            decreases triangles.len() - i,
        {
            let t = &triangles[i];
            bbox = bbox.extend(&t.a).extend(&t.b).extend(&t.c);
            proof {
                let now = triangles@.take(i + 1);
                assert(now.drop_last() =~= triangles@.take(i as int));
                assert(now.last() == triangles[i as int]);
            }
            i += 1;
        }
        assert(triangles@.take(triangles.len() as int) =~= triangles@);
        Ok(bbox)
    }

    /// The lowest and the greatest height of the triangles.
    ///
    /// Fails if there is no triangle.
    pub fn z_range(triangles: &Vec<GridTriangle>) -> (outcome: Result<(i64, i64), SliceError>)
        ensures
            match outcome {
                Ok(range) => triangles.len() >= 1 && range.0 == bounding_box_spec(
                    triangles@,
                ).min.z && range.1 == bounding_box_spec(triangles@).max.z,
                Err(e) => triangles.len() == 0 && e == SliceError::InputContractViolation(
                    ContractViolation::EmptyInput,
                ),
            },
    {
        match CPUSlicer::compute_bounding_box(triangles) {
            Ok(bbox) => Ok((bbox.min.z, bbox.max.z)),
            Err(e) => Err(e),
        }
    }

    /// Why the slicer refuses triangles on the grid, if it does: there must
    /// be a triangle, the thickness must be positive, the image must have a
    /// valid size, and the triangles must be within range. The first of these
    /// that fails decides.
    pub open spec fn grid_rejection(&self, triangles: Seq<GridTriangle>) -> Option<
        ContractViolation,
    > {
        if triangles.len() == 0 {
            Some(ContractViolation::EmptyInput)
        } else if self.slice_thickness <= 0 {
            Some(ContractViolation::Thickness)
        } else if !valid_image_size(self.x, self.y) {
            Some(ContractViolation::ImageSize)
        } else if !all_in_range(triangles) {
            Some(ContractViolation::Coordinate)
        } else {
            None
        }
    }

    /// Why the slicer refuses a model before it looks at its coordinates,
    /// if it does.
    pub open spec fn early_rejection(&self, count: nat) -> Option<ContractViolation> {
        if count == 0 {
            Some(ContractViolation::EmptyInput)
        } else if self.slice_thickness <= 0 {
            Some(ContractViolation::Thickness)
        } else if !valid_image_size(self.x, self.y) {
            Some(ContractViolation::ImageSize)
        } else {
            None
        }
    }

    /// Why the slicer refuses the triangles, if it does: beyond what is
    /// asked of triangles on the grid, every coordinate must have a place on
    /// the grid.
    pub open spec fn rejection(&self, triangles: Seq<Triangle>) -> Option<ContractViolation> {
        if self.early_rejection(triangles.len()) is Some {
            self.early_rejection(triangles.len())
        } else if quantized(triangles) is None {
            Some(ContractViolation::Coordinate)
        } else {
            None
        }
    }

    /// `outcome` is what slicing triangles on the grid gives: the images of
    /// `slice_spec`, each of the slicer's size, or the slicer's reason to
    /// refuse.
    pub open spec fn is_grid_outcome(
        &self,
        triangles: Seq<GridTriangle>,
        outcome: Result<Vec<SliceImage>, SliceError>,
    ) -> bool {
        match outcome {
            Ok(images) => {
                &&& self.grid_rejection(triangles) is None
                &&& images_view(&images) == slice_spec(
                    triangles,
                    self.slice_thickness as int,
                    self.x,
                    self.y,
                )
                &&& forall|i: int|
                    0 <= i < images.len() ==> (#[trigger] images[i]).wf() && images[i].width
                        == self.x && images[i].height == self.y
            },
            Err(e) => self.grid_rejection(triangles) matches Some(v) && e
                == SliceError::InputContractViolation(v),
        }
    }

    /// `outcome` is what slicing the triangles gives.
    pub open spec fn is_outcome(
        &self,
        triangles: Seq<Triangle>,
        outcome: Result<Vec<SliceImage>, SliceError>,
    ) -> bool {
        match outcome {
            Ok(images) => self.rejection(triangles) is None && self.is_grid_outcome(
                quantized(triangles)->0,
                outcome,
            ),
            Err(e) => self.rejection(triangles) matches Some(v) && e
                == SliceError::InputContractViolation(v),
        }
    }

    /// Slices a model given by triangles on the grid.
    ///
    /// The planes lie `slice_thickness` apart, the first at the model's
    /// lowest height and none above its greatest. The images come in the
    /// order of rising height; a plane that cuts no closed outline gives no
    /// image, so there may be fewer images than planes.
    #[verifier::rlimit(50)]
    pub fn slice_triangles(&self, triangles: &Vec<GridTriangle>) -> (outcome: Result<
        Vec<SliceImage>,
        SliceError,
    >)
        ensures
            self.is_grid_outcome(triangles@, outcome),
            outcome matches Ok(images) ==> images.len() <= plane_count(
                bounding_box_spec(triangles@).min.z as int,
                bounding_box_spec(triangles@).max.z as int,
                self.slice_thickness as int,
            ),
    {
        if triangles.len() == 0 {
            return Err(SliceError::InputContractViolation(ContractViolation::EmptyInput));
        }
        if self.slice_thickness <= 0 {
            return Err(SliceError::InputContractViolation(ContractViolation::Thickness));
        }
        if !image_size_is_valid(self.x, self.y) {
            return Err(SliceError::InputContractViolation(ContractViolation::ImageSize));
        }
        if !triangles_in_range(triangles) {
            return Err(SliceError::InputContractViolation(ContractViolation::Coordinate));
        }
        let bbox = match CPUSlicer::compute_bounding_box(triangles) {
            Ok(bbox) => bbox,
            Err(e) => {
                return Err(e);
            },
        };
        proof {
            lemma_bounding_box(triangles@);
        }
        let min_z = bbox.min.z;
        let max_z = bbox.max.z;
        let step = self.slice_thickness;
        let ghost frame = frame_of(bbox, self.x, self.y);
        let mut images: Vec<SliceImage> = Vec::new();
        let mut z = min_z;
        let mut done = false;
        let ghost mut k: int = 0;
        assert(images_view(&images) =~= Seq::<Seq<u8>>::empty());
        while !done
            invariant
                all_in_range(triangles@),
                bbox.wf(),
                bbox.bounds(triangles@),
                valid_image_size(self.x, self.y),
                frame == frame_of(bbox, self.x, self.y),
                min_z == bbox.min.z,
                max_z == bbox.max.z,
                step == self.slice_thickness,
                step > 0,
                0 <= k,
                min_z <= z <= max_z,
                !done ==> z == plane_height(min_z as int, step as int, k),
                done ==> k == plane_count(min_z as int, max_z as int, step as int),
                images_view(&images) == sweep_spec(
                    triangles@,
                    min_z as int,
                    step as int,
                    frame,
                    k,
                ),
                images.len() <= k,
                forall|i: int|
                    0 <= i < images.len() ==> (#[trigger] images[i]).wf() && images[i].width
                        == self.x && images[i].height == self.y,
            decreases (if done { 0int } else { 1int }), max_z - z,
        {
            let ghost before = images_view(&images);
            match cut_and_render(triangles, z, &bbox, self.x, self.y) {
                Some(image) => {
                    images.push(image);
                    assert(images_view(&images) =~= before.push(image.pixels@));
                },
                None => {},
            }
            proof {
                k = k + 1;
            }
            if step > max_z - z {
                done = true;
                proof {
                    let span = max_z - min_z;
                    assert(span == (k - 1) * step + (max_z - z)) by (nonlinear_arith)
                        requires
                            z == min_z + (k - 1) * step,
                            span == max_z - min_z,
                    ;
                    lemma_fundamental_div_mod_converse(
                        span,
                        step as int,
                        k - 1,
                        max_z - z,
                    );
                }
            } else {
                proof {
                    assert(z + step == min_z + k * step) by (nonlinear_arith)
                        requires
                            z == min_z + (k - 1) * step,
                    ;
                }
                z = z + step;
            }
        }
        Ok(images)
    }

    /// `outcome` is what slicing the meshes together gives.
    pub open spec fn is_bodies_outcome(
        &self,
        bodies: Seq<Mesh>,
        outcome: Result<Vec<SliceImage>, SliceError>,
    ) -> bool {
        match merge_rejection(bodies, 0) {
            Some(v) => outcome == Err::<Vec<SliceImage>, SliceError>(
                SliceError::InputContractViolation(v),
            ),
            None => self.is_grid_outcome(merged_triangles(bodies, bodies.len() as int), outcome),
        }
    }

    /// Slices several meshes as one model.
    pub fn slice_bodies(&self, bodies: &Vec<Mesh>) -> (outcome: Result<Vec<SliceImage>, SliceError>)
        ensures
            self.is_bodies_outcome(bodies@, outcome),
    {
        match merge_meshes(bodies) {
            Ok(grid) => self.slice_triangles(&grid),
            Err(e) => Err(e),
        }
    }

    /// Slices those of the meshes that are taken as one model. Mesh number
    /// `k` is left out if `chosen` has a flag for it that is not set.
    pub fn slice_selected_bodies(&self, bodies: &Vec<Mesh>, chosen: &Vec<bool>) -> (outcome:
        Result<Vec<SliceImage>, SliceError>)
        ensures
            match selection_rejection(bodies@, chosen@, 0) {
                Some(v) => outcome == Err::<Vec<SliceImage>, SliceError>(
                    SliceError::InputContractViolation(v),
                ),
                None => self.is_grid_outcome(
                    selected_triangles(bodies@, chosen@, bodies.len() as int),
                    outcome,
                ),
            },
    {
        match merge_selected(bodies, chosen) {
            Ok(grid) => self.slice_triangles(&grid),
            Err(e) => Err(e),
        }
    }

    /// Slices a model given by its triangles.
    ///
    /// The triangles are read onto the grid and sliced there. Fails if there
    /// is no triangle, if the thickness is not positive, if no image can have
    /// the size asked for, or if a coordinate has no place on the grid.
    pub fn generate_slice_images(&self, triangles: &Vec<Triangle>) -> (outcome: Result<
        Vec<SliceImage>,
        SliceError,
    >)
        ensures
            self.is_outcome(triangles@, outcome),
    {
        if triangles.len() == 0 {
            return Err(SliceError::InputContractViolation(ContractViolation::EmptyInput));
        }
        if self.slice_thickness <= 0 {
            return Err(SliceError::InputContractViolation(ContractViolation::Thickness));
        }
        if !image_size_is_valid(self.x, self.y) {
            return Err(SliceError::InputContractViolation(ContractViolation::ImageSize));
        }
        match quantize_triangles(triangles) {
            Some(grid) => self.slice_triangles(&grid),
            None => Err(SliceError::InputContractViolation(ContractViolation::Coordinate)),
        }
    }
}


/// Slicing is repeatable: whatever two runs of the slicer on the same
/// triangles return, they return the same. Either both fail with the same
/// error, or both give the same number of images with the same pixels and
/// sizes.
pub proof fn lemma_slicing_is_repeatable(
    slicer: CPUSlicer,
    triangles: Seq<Triangle>,
    first: Result<Vec<SliceImage>, SliceError>,
    second: Result<Vec<SliceImage>, SliceError>,
)
    requires
        slicer.is_outcome(triangles, first),
        slicer.is_outcome(triangles, second),
    ensures
        first is Ok <==> second is Ok,
        first matches Err(e1) ==> second matches Err(e2) && e1 == e2,
        first matches Ok(a) ==> second matches Ok(b) && a.len() == b.len() && images_view(&a)
            == images_view(&b) && forall|i: int|
            0 <= i < a.len() ==> (#[trigger] a[i]).width == b[i].width && a[i].height
                == b[i].height && a[i].pixels@ == b[i].pixels@,
{
    match (first, second) {
        (Ok(a), Ok(b)) => {
            assert(images_view(&a) == images_view(&b));
            assert(a.len() == images_view(&a).len());
            assert(b.len() == images_view(&b).len());
            assert forall|i: int| 0 <= i < a.len() implies (#[trigger] a[i]).width == b[i].width
                && a[i].height == b[i].height && a[i].pixels@ == b[i].pixels@ by {
                assert(images_view(&a)[i] == a[i].pixels@);
                assert(images_view(&b)[i] == b[i].pixels@);
            }
        },
        _ => {},
    }
}

/// There are never more images than planes: of a slicing that succeeds, the
/// number of images is at most the number of plane heights between the
/// model's lowest and greatest height.
pub proof fn lemma_image_count_is_bounded(
    slicer: CPUSlicer,
    triangles: Seq<GridTriangle>,
    outcome: Result<Vec<SliceImage>, SliceError>,
)
    requires
        slicer.is_grid_outcome(triangles, outcome),
    ensures
        outcome matches Ok(images) ==> images.len() <= plane_count(
            bounding_box_spec(triangles).min.z as int,
            bounding_box_spec(triangles).max.z as int,
            slicer.slice_thickness as int,
        ),
{
    if let Ok(images) = outcome {
        let bbox = bounding_box_spec(triangles);
        let planes = plane_count(
            bbox.min.z as int,
            bbox.max.z as int,
            slicer.slice_thickness as int,
        );
        if planes >= 0 {
            lemma_sweep_length(
                triangles,
                bbox.min.z as int,
                slicer.slice_thickness as int,
                frame_of(bbox, slicer.x, slicer.y),
                planes,
            );
        }
        assert(images.len() == images_view(&images).len());
    }
}

} // verus!
