//! The bulk strategy of the plane sweep: all segments of all planes are
//! first collected into one buffer of fixed capacity, then sorted out by
//! plane and drawn.

use vstd::prelude::*;
use crate::cpu_slicer::{
    bounding_box_spec, frame_of, images_view, lemma_bounding_box, lemma_box_covers_cut,
    merge_meshes, merge_rejection, merged_triangles, plane_count, plane_height, render_segments,
    sweep_spec, CPUSlicer,
};
use crate::error::{ContractViolation, SliceError};
use crate::grid::{coord_in_range, Segment};
use crate::intersect::{
    all_in_range, collect_intersection_segments, plane_segments, triangles_in_range, GridTriangle,
};
use crate::cpu_slicer::{render_rejection, segments_image_spec, BoundingBox};
use crate::grid::PlanePoint;
use crate::mesh::Mesh;
use crate::quantize::{float_count, float_count_spec, quantize, quantize_spec};
use crate::raster::{image_size_is_valid, valid_image_size, Frame, SliceImage};

verus! {

/// The most segments that a buffer is laid out for.
pub const MAX_SEGMENTS: usize = 10_000_000;

/// One entry of the buffer: a segment and the number of the plane that it
/// was cut by.
#[derive(Clone, Copy, PartialEq, Eq, Structural, Debug)]
pub struct SegmentRecord {
    pub segment: Segment,
    pub plane: usize,
}

/// A buffer of fixed capacity to which records are appended. Every append
/// is counted; a record is kept only while there is room.
pub struct SegmentBuffer {
    records: Vec<SegmentRecord>,
    capacity: usize,
    attempts: u64,
}

impl SegmentBuffer {
    /// The records kept.
    pub closed spec fn view(&self) -> Seq<SegmentRecord> {
        self.records@
    }

    /// The number of records for which there is room.
    pub closed spec fn room(&self) -> usize {
        self.capacity
    }

    /// The number of appends so far, as far as 64 bits count.
    pub closed spec fn attempted(&self) -> u64 {
        self.attempts
    }

    /// The buffer holds as many records as were appended, or as it has room
    /// for if that is fewer.
    pub closed spec fn wf(&self) -> bool {
        if self.attempts <= self.capacity {
            self.records@.len() == self.attempts
        } else {
            self.records@.len() == self.capacity
        }
    }

    /// An empty buffer with room for `capacity` records.
    pub fn new(capacity: usize) -> (buffer: SegmentBuffer)
        ensures
            buffer.wf(),
            buffer@.len() == 0,
            buffer.room() == capacity,
            buffer.attempted() == 0,
    {
        SegmentBuffer { records: Vec::new(), capacity, attempts: 0 }
    }

    /// Appends a record: it is counted, and kept if there is room.
    pub fn append(&mut self, record: SegmentRecord)
        requires
            old(self).wf(),
        ensures
            final(self).wf(),
            final(self).room() == old(self).room(),
            final(self).attempted() == (if old(self).attempted() < u64::MAX {
                (old(self).attempted() + 1) as u64
            } else {
                u64::MAX
            }),
            final(self)@ == (if old(self)@.len() < old(self).room() {
                old(self)@.push(record)
            } else {
                old(self)@
            }),
    {
        if self.records.len() < self.capacity {
            self.records.push(record);
        }
        if self.attempts < u64::MAX {
            self.attempts = self.attempts + 1;
        }
    }

    /// Hands out the records, if all that were appended found room.
    ///
    /// Fails with the number of appends and the room there was if a record
    /// was dropped.
    pub fn finish(self) -> (outcome: Result<Vec<SegmentRecord>, SliceError>)
        requires
            self.wf(),
        ensures
            match outcome {
                Ok(records) => self.attempted() <= self.room() && records@ == self@,
                Err(e) => self.attempted() > self.room() && e == (SliceError::ResourceExhaustion {
                    attempted: self.attempted(),
                    available: self.room() as u64,
                }),
            },
    {
        if self.attempts > self.capacity as u64 {
            Err(
                SliceError::ResourceExhaustion {
                    attempted: self.attempts,
                    available: self.capacity as u64,
                },
            )
        } else {
            Ok(self.records)
        }
    }
}

/// The room to lay out for the segments of a sweep: one segment for each
/// triangle and plane, but no more than `MAX_SEGMENTS`.
pub open spec fn capacity_spec(triangle_count: usize, planes: usize) -> usize {
    if triangle_count * planes <= MAX_SEGMENTS {
        (triangle_count * planes) as usize
    } else {
        MAX_SEGMENTS
    }
}

/// Computes `capacity_spec`.
pub fn estimate_capacity(triangle_count: usize, planes: usize) -> (capacity: usize)
    ensures
        capacity == capacity_spec(triangle_count, planes),
{
    if triangle_count == 0 || planes == 0 {
        assert(triangle_count * planes == 0) by (nonlinear_arith)
            requires
                triangle_count == 0 || planes == 0,
        ;
        return 0;
    }
    if triangle_count > MAX_SEGMENTS / planes {
        assert(triangle_count * planes > MAX_SEGMENTS) by (nonlinear_arith)
            requires
                triangle_count > MAX_SEGMENTS / planes,
                planes > 0,
                MAX_SEGMENTS == 10_000_000,
        {
            vstd::arithmetic::div_mod::lemma_fundamental_div_mod(MAX_SEGMENTS as int, planes as int);
            vstd::arithmetic::div_mod::lemma_mod_bound(MAX_SEGMENTS as int, planes as int);
        }
        MAX_SEGMENTS
    } else {
        assert(triangle_count * planes <= MAX_SEGMENTS) by (nonlinear_arith)
            requires
                triangle_count <= MAX_SEGMENTS / planes,
                planes > 0,
                MAX_SEGMENTS == 10_000_000,
        {
            vstd::arithmetic::div_mod::lemma_fundamental_div_mod(MAX_SEGMENTS as int, planes as int);
            vstd::arithmetic::div_mod::lemma_mod_bound(MAX_SEGMENTS as int, planes as int);
        }
        triangle_count * planes
    }
}


/// The heights of the planes of a sweep: the first at `min_z`, each
/// `slice_increment` above the one before, and none above `max_z`.
///
/// Fails if the increment is not positive.
pub fn generate_slice_z_values(min_z: i64, max_z: i64, slice_increment: i64) -> (outcome: Result<
    Vec<i64>,
    SliceError,
>)
    ensures
        match outcome {
            Ok(heights) => {
                &&& slice_increment > 0
                &&& heights.len() == plane_count(min_z as int, max_z as int, slice_increment as int)
                &&& forall|k: int|
                    0 <= k < heights.len() ==> #[trigger] heights[k] == plane_height(
                        min_z as int,
                        slice_increment as int,
                        k,
                    )
            },
            Err(e) => slice_increment <= 0 && e == SliceError::InputContractViolation(
                ContractViolation::Thickness,
            ),
        },
{
    if slice_increment <= 0 {
        return Err(SliceError::InputContractViolation(ContractViolation::Thickness));
    }
    let mut heights: Vec<i64> = Vec::new();
    if max_z < min_z {
        return Ok(heights);
    }
    let mut z = min_z;
    let mut done = false;
    assert(z == plane_height(min_z as int, slice_increment as int, 0)) by (nonlinear_arith)
        requires
            z == min_z,
    ;
    while !done
        invariant
            slice_increment > 0,
            min_z <= z <= max_z,
            !done ==> z == plane_height(min_z as int, slice_increment as int, heights.len() as int),
            done ==> heights.len() == plane_count(
                min_z as int,
                max_z as int,
                slice_increment as int,
            ),
            forall|k: int|
                0 <= k < heights.len() ==> #[trigger] heights[k] == plane_height(
                    min_z as int,
                    slice_increment as int,
                    k,
                ),
        decreases (if done { 0int } else { 1int }), max_z - z,
    {
        let ghost k = heights.len() as int;
        heights.push(z);
        if (slice_increment as i128) > (max_z as i128) - (z as i128) {
            done = true;
            proof {
                let span = max_z - min_z;
                assert(span == k * slice_increment + (max_z - z)) by (nonlinear_arith)
                    requires
                        z == min_z + k * slice_increment,
                        span == max_z - min_z,
                ;
                vstd::arithmetic::div_mod::lemma_fundamental_div_mod_converse(
                    span,
                    slice_increment as int,
                    k,
                    max_z - z,
                );
            }
        } else {
            proof {
                assert(z + slice_increment == min_z + (k + 1) * slice_increment)
                    by (nonlinear_arith)
                    requires
                        z == min_z + k * slice_increment,
                ;
            }
            z = z + slice_increment;
        }
    }
    Ok(heights)
}

/// The segments as records of plane number `plane`.
pub open spec fn tagged(segments: Seq<Segment>, plane: usize) -> Seq<SegmentRecord> {
    Seq::new(segments.len(), |i: int| SegmentRecord { segment: segments[i], plane })
}

/// The records of a sweep over the first `upto` planes: plane by plane, the
/// segments that the plane cuts from the triangles.
pub open spec fn all_records(triangles: Seq<GridTriangle>, heights: Seq<i64>, upto: int) -> Seq<
    SegmentRecord,
>
    decreases upto,
{
    if upto <= 0 {
        Seq::empty()
    } else {
        all_records(triangles, heights, upto - 1) + tagged(
            plane_segments(triangles, heights[upto - 1] as int),
            (upto - 1) as usize,
        )
    }
}

/// The segments of the records of plane number `plane`, in the order of the
/// records.
pub open spec fn records_of_plane(records: Seq<SegmentRecord>, plane: usize) -> Seq<Segment>
    decreases records.len(),
{
    if records.len() == 0 {
        Seq::empty()
    } else {
        let before = records_of_plane(records.drop_last(), plane);
        if records.last().plane == plane {
            before.push(records.last().segment)
        } else {
            before
        }
    }
}

/// Sorting out two runs of records, one behind the other, gives what each
/// gives, one behind the other.
proof fn lemma_records_of_joined(a: Seq<SegmentRecord>, b: Seq<SegmentRecord>, plane: usize)
    ensures
        records_of_plane(a + b, plane) == records_of_plane(a, plane) + records_of_plane(b, plane),
    decreases b.len(),
{
    if b.len() == 0 {
        assert(a + b =~= a);
        assert(records_of_plane(a, plane) + records_of_plane(b, plane) =~= records_of_plane(
            a,
            plane,
        ));
    } else {
        lemma_records_of_joined(a, b.drop_last(), plane);
        assert((a + b).drop_last() =~= a + b.drop_last());
        assert((a + b).last() == b.last());
        if b.last().plane == plane {
            assert(records_of_plane(a, plane) + records_of_plane(b.drop_last(), plane).push(
                b.last().segment,
            ) =~= (records_of_plane(a, plane) + records_of_plane(b.drop_last(), plane)).push(
                b.last().segment,
            ));
        }
    }
}

/// The records of one plane sort out to their segments under the number of
/// that plane, and to nothing under any other.
proof fn lemma_records_of_tagged(segments: Seq<Segment>, tag: usize, plane: usize)
    ensures
        records_of_plane(tagged(segments, tag), plane) == (if tag == plane {
            segments
        } else {
            Seq::empty()
        }),
    decreases segments.len(),
{
    if segments.len() == 0 {
        assert(segments =~= Seq::<Segment>::empty());
    } else {
        lemma_records_of_tagged(segments.drop_last(), tag, plane);
        assert(tagged(segments, tag).drop_last() =~= tagged(segments.drop_last(), tag));
        if tag == plane {
            assert(segments =~= segments.drop_last().push(segments.last()));
        }
    }
}

/// The records of a sweep sort out, plane by plane, to the segments that the
/// plane cuts.
pub proof fn lemma_records_sort_out(
    triangles: Seq<GridTriangle>,
    heights: Seq<i64>,
    upto: int,
    plane: usize,
)
    requires
        0 <= upto <= usize::MAX,
    ensures
        records_of_plane(all_records(triangles, heights, upto), plane) == (if plane < upto {
            plane_segments(triangles, heights[plane as int] as int)
        } else {
            Seq::empty()
        }),
    decreases upto,
{
    if upto > 0 {
        let last = tagged(
            plane_segments(triangles, heights[upto - 1] as int),
            (upto - 1) as usize,
        );
        lemma_records_sort_out(triangles, heights, upto - 1, plane);
        lemma_records_of_joined(all_records(triangles, heights, upto - 1), last, plane);
        lemma_records_of_tagged(
            plane_segments(triangles, heights[upto - 1] as int),
            (upto - 1) as usize,
            plane,
        );
        let before = records_of_plane(all_records(triangles, heights, upto - 1), plane);
        assert(before + Seq::<Segment>::empty() =~= before);
        assert(Seq::<Segment>::empty() + plane_segments(triangles, heights[upto - 1] as int)
            =~= plane_segments(triangles, heights[upto - 1] as int));
    } else {
        assert(records_of_plane(Seq::<SegmentRecord>::empty(), plane) =~= Seq::<Segment>::empty());
    }
}

/// Sorts the records out by plane: list number `p` of the result holds the
/// segments of the records of plane `p`, in their order. Records of planes
/// from `planes` on are dropped.
#[verifier::rlimit(50)]
pub fn organize_segments(records: &Vec<SegmentRecord>, planes: usize) -> (sorted: Vec<Vec<Segment>>)
    ensures
        sorted.len() == planes,
        forall|p: int|
            0 <= p < planes ==> (#[trigger] sorted[p])@ == records_of_plane(records@, p as usize),
{
    let mut sorted: Vec<Vec<Segment>> = Vec::new();
    let mut p: usize = 0;
    assert(records@.take(0) =~= Seq::<SegmentRecord>::empty());
    while p < planes
        invariant
            p <= planes,
            sorted.len() == p,
            forall|q: int| 0 <= q < p ==> (#[trigger] sorted[q])@ == Seq::<Segment>::empty(),
        decreases planes - p,
    {
        sorted.push(Vec::new());
        p += 1;
    }
    let mut i: usize = 0;
    while i < records.len()
        invariant
            i <= records.len(),
            sorted.len() == planes,
            forall|q: int|
                0 <= q < planes ==> (#[trigger] sorted[q])@ == records_of_plane(
                    records@.take(i as int),
                    q as usize,
                ),
        decreases records.len() - i,
    {
        let record = records[i];
        let ghost before = Seq::new(planes as nat, |q: int| sorted[q]@);
        if record.plane < planes {
            sorted[record.plane].push(record.segment);
        }
        proof {
            let now = records@.take(i + 1);
            assert(now.drop_last() =~= records@.take(i as int));
            assert(now.last() == record);
            assert forall|q: int| 0 <= q < planes implies (#[trigger] sorted[q])@
                == records_of_plane(now, q as usize) by {
                assert(before[q] == records_of_plane(records@.take(i as int), q as usize));
            }
        }
        i += 1;
    }
    assert(records@.take(records.len() as int) =~= records@);
    sorted
}

/// Collects the records of a whole sweep into a buffer with room for
/// `capacity` records.
///
/// Fails if the sweep gives more records than there is room for.
#[verifier::rlimit(50)]
pub fn collect_records(triangles: &Vec<GridTriangle>, heights: &Vec<i64>, capacity: usize) -> (outcome:
    Result<Vec<SegmentRecord>, SliceError>)
    requires
        all_in_range(triangles@),
        forall|k: int| 0 <= k < heights.len() ==> coord_in_range((#[trigger] heights[k]) as int),
        capacity <= MAX_SEGMENTS,
    ensures
        match outcome {
            Ok(records) => records@ == all_records(triangles@, heights@, heights.len() as int)
                && records.len() <= capacity,
            Err(e) => {
                let needed = all_records(triangles@, heights@, heights.len() as int).len();
                &&& needed > capacity
                &&& e == (SliceError::ResourceExhaustion {
                    attempted: if needed <= u64::MAX {
                        needed as u64
                    } else {
                        u64::MAX
                    },
                    available: capacity as u64,
                })
            },
        },
{
    let mut buffer = SegmentBuffer::new(capacity);
    let ghost mut wanted: Seq<SegmentRecord> = Seq::empty();
    let mut p: usize = 0;
    while p < heights.len()
        invariant
            p <= heights.len(),
            all_in_range(triangles@),
            forall|k: int| 0 <= k < heights.len() ==> coord_in_range((#[trigger] heights[k]) as int),
            capacity <= MAX_SEGMENTS,
            buffer.wf(),
            buffer.room() == capacity,
            wanted == all_records(triangles@, heights@, p as int),
            wanted.len() <= capacity ==> buffer@ == wanted,
            buffer.attempted() == (if wanted.len() <= u64::MAX {
                wanted.len() as u64
            } else {
                u64::MAX
            }),
        decreases heights.len() - p,
    {
        let segments = collect_intersection_segments(triangles, heights[p]);
        let ghost start = wanted;
        let mut j: usize = 0;
        while j < segments.len()
            invariant
                j <= segments.len(),
                capacity <= MAX_SEGMENTS,
                buffer.wf(),
                buffer.room() == capacity,
                wanted == start + tagged(segments@.take(j as int), p),
                wanted.len() <= capacity ==> buffer@ == wanted,
                buffer.attempted() == (if wanted.len() <= u64::MAX {
                    wanted.len() as u64
                } else {
                    u64::MAX
                }),
            decreases segments.len() - j,
        {
            let record = SegmentRecord { segment: segments[j], plane: p };
            buffer.append(record);
            proof {
                assert(tagged(segments@.take(j + 1), p) =~= tagged(segments@.take(j as int), p).push(
                    record,
                ));
                let grown = wanted.push(record);
                assert(grown =~= start + tagged(segments@.take(j + 1), p));
                wanted = grown;
            }
            j += 1;
        }
        proof {
            assert(segments@.take(segments.len() as int) =~= segments@);
        }
        p += 1;
    }
    buffer.finish()
}


/// The number of records to read back from a buffer with room for
/// `capacity` records after `attempted` appends.
///
/// Fails if there were more appends than there was room.
pub fn readback_count(attempted: u32, capacity: usize) -> (outcome: Result<usize, SliceError>)
    ensures
        match outcome {
            Ok(count) => attempted <= capacity && count == attempted,
            Err(e) => attempted > capacity && e == (SliceError::ResourceExhaustion {
                attempted: attempted as u64,
                available: capacity as u64,
            }),
        },
{
    if attempted as u64 > capacity as u64 {
        Err(
            SliceError::ResourceExhaustion {
                attempted: attempted as u64,
                available: capacity as u64,
            },
        )
    } else {
        Ok(attempted as usize)
    }
}

/// The record that five numbers stand for, each given by its bits: the
/// coordinates of the start and of the end of a segment, and the number of
/// its plane. `None` if a coordinate has no place on the grid.
pub open spec fn record_of(x1: u32, y1: u32, x2: u32, y2: u32, plane: u32) -> Option<SegmentRecord> {
    match (quantize_spec(x1), quantize_spec(y1), quantize_spec(x2), quantize_spec(y2)) {
        (Some(sx), Some(sy), Some(ex), Some(ey)) => Some(
            SegmentRecord {
                segment: Segment {
                    start: PlanePoint { x: sx, y: sy },
                    end: PlanePoint { x: ex, y: ey },
                },
                plane: float_count_spec(plane),
            },
        ),
        _ => None,
    }
}

/// Record number `k` of a run of numbers that holds five for each record.
pub open spec fn record_at(words: Seq<u32>, k: int) -> Option<SegmentRecord> {
    record_of(
        words[5 * k],
        words[5 * k + 1],
        words[5 * k + 2],
        words[5 * k + 3],
        words[5 * k + 4],
    )
}

/// Reads the records of a buffer that holds five numbers for each: the
/// coordinates of the two ends of the segment, and the number of its plane.
/// Numbers behind the last full record are left alone.
///
/// Fails if a coordinate has no place on the grid.
pub fn decode_records(words: &Vec<u32>) -> (outcome: Result<Vec<SegmentRecord>, SliceError>)
    ensures
        match outcome {
            Ok(records) => {
                &&& records.len() == words.len() / 5
                &&& forall|k: int|
                    0 <= k < records.len() ==> record_at(words@, k) == Some(#[trigger] records[k])
            },
            Err(e) => {
                &&& exists|k: int| 0 <= k < words.len() / 5 && record_at(words@, k) is None
                &&& e == SliceError::InputContractViolation(ContractViolation::Coordinate)
            },
        },
{
    let count = words.len() / 5;
    let mut records: Vec<SegmentRecord> = Vec::new();
    let mut k: usize = 0;
    while k < count
        invariant
            k <= count,
            count == words.len() / 5,
            records.len() == k,
            forall|i: int| 0 <= i < k ==> record_at(words@, i) == Some(#[trigger] records[i]),
        decreases count - k,
    {
        let x1 = quantize(words[5 * k]);
        let y1 = quantize(words[5 * k + 1]);
        let x2 = quantize(words[5 * k + 2]);
        let y2 = quantize(words[5 * k + 3]);
        let plane = float_count(words[5 * k + 4]);
        match (x1, y1, x2, y2) {
            (Some(sx), Some(sy), Some(ex), Some(ey)) => {
                records.push(
                    SegmentRecord {
                        segment: Segment {
                            start: PlanePoint { x: sx, y: sy },
                            end: PlanePoint { x: ex, y: ey },
                        },
                        plane,
                    },
                );
            },
            _ => {
                assert(record_at(words@, k as int) is None);
                return Err(SliceError::InputContractViolation(ContractViolation::Coordinate));
            },
        }
        k += 1;
    }
    Ok(records)
}

/// The images of the first `upto` planes of the records, from the lowest
/// up. Planes whose segments form no closed outline are left out.
pub open spec fn record_images(records: Seq<SegmentRecord>, frame: Frame, upto: int) -> Seq<
    Seq<u8>,
>
    decreases upto,
{
    if upto <= 0 {
        Seq::empty()
    } else {
        let below = record_images(records, frame, upto - 1);
        match segments_image_spec(records_of_plane(records, (upto - 1) as usize), frame) {
            Some(pixels) => below.push(pixels),
            None => below,
        }
    }
}

/// Why the segments of the first plane from number `from` on that cannot be
/// drawn cannot be drawn, if there is such a plane among the first `planes`.
pub open spec fn records_rejection(
    records: Seq<SegmentRecord>,
    bbox: BoundingBox,
    width: u32,
    height: u32,
    from: int,
    planes: int,
) -> Option<ContractViolation>
    decreases planes - from,
{
    if from < 0 || from >= planes {
        None
    } else if render_rejection(records_of_plane(records, from as usize), bbox, width, height)
        is Some {
        render_rejection(records_of_plane(records, from as usize), bbox, width, height)
    } else {
        records_rejection(records, bbox, width, height, from + 1, planes)
    }
}

/// Draws the images of the records of a sweep of `planes` planes, in the
/// frame of `bbox`: the second half of the bulk strategy, whoever collected
/// the records.
///
/// Fails if the segments of a plane cannot be drawn in the frame.
#[verifier::rlimit(50)]
pub fn images_from_records(
    records: &Vec<SegmentRecord>,
    planes: usize,
    bbox: &BoundingBox,
    width: u32,
    height: u32,
) -> (outcome: Result<Vec<SliceImage>, SliceError>)
    ensures
        match outcome {
            Ok(images) => {
                &&& records_rejection(records@, *bbox, width, height, 0, planes as int) is None
                &&& images_view(&images) == record_images(
                    records@,
                    frame_of(*bbox, width, height),
                    planes as int,
                )
                &&& images.len() <= planes
                &&& forall|i: int|
                    0 <= i < images.len() ==> (#[trigger] images[i]).wf() && images[i].width
                        == width && images[i].height == height
            },
            Err(e) => records_rejection(records@, *bbox, width, height, 0, planes as int)
                matches Some(v) && e == SliceError::InputContractViolation(v),
        },
{
    let sorted = organize_segments(records, planes);
    let ghost frame = frame_of(*bbox, width, height);
    let mut images: Vec<SliceImage> = Vec::new();
    let mut p: usize = 0;
    assert(images_view(&images) =~= Seq::<Seq<u8>>::empty());
    while p < planes
        invariant
            p <= planes,
            sorted.len() == planes,
            frame == frame_of(*bbox, width, height),
            forall|q: int|
                0 <= q < planes ==> (#[trigger] sorted[q])@ == records_of_plane(
                    records@,
                    q as usize,
                ),
            records_rejection(records@, *bbox, width, height, 0, planes as int)
                == records_rejection(records@, *bbox, width, height, p as int, planes as int),
            images_view(&images) == record_images(records@, frame, p as int),
            images.len() <= p,
            forall|i: int|
                0 <= i < images.len() ==> (#[trigger] images[i]).wf() && images[i].width == width
                    && images[i].height == height,
        decreases planes - p,
    {
        let ghost before = images_view(&images);
        match render_segments(&sorted[p], bbox, width, height) {
            Ok(Some(image)) => {
                images.push(image);
                assert(images_view(&images) =~= before.push(image.pixels@));
            },
            Ok(None) => {},
            Err(e) => {
                return Err(e);
            },
        }
        p += 1;
    }
    Ok(images)
}

/// The images of the records of a sweep over the triangles are the images
/// of the sweep.
pub proof fn lemma_record_images_are_sweep(
    triangles: Seq<GridTriangle>,
    heights: Seq<i64>,
    min_z: int,
    thickness: int,
    frame: Frame,
    upto: int,
)
    requires
        0 <= upto <= heights.len() <= usize::MAX,
        forall|k: int|
            0 <= k < heights.len() ==> #[trigger] heights[k] == plane_height(min_z, thickness, k),
    ensures
        record_images(all_records(triangles, heights, heights.len() as int), frame, upto)
            == sweep_spec(triangles, min_z, thickness, frame, upto),
    decreases upto,
{
    if upto > 0 {
        lemma_record_images_are_sweep(triangles, heights, min_z, thickness, frame, upto - 1);
        lemma_records_sort_out(triangles, heights, heights.len() as int, (upto - 1) as usize);
    }
}

/// A slicer that collects the segments of all planes in one pass before it
/// draws any image.
#[derive(Clone, Copy, PartialEq, Eq, Structural, Debug)]
pub struct GPUSlicer {
    /// The width of the images, in pixels.
    pub x: u32,
    /// The height of the images, in pixels.
    pub y: u32,
    /// The distance between two planes, in grid steps.
    pub slice_thickness: i64,
}

/// The number of records that a sweep over the triangles gives.
pub open spec fn records_needed(triangles: Seq<GridTriangle>, thickness: int) -> nat {
    let bbox = bounding_box_spec(triangles);
    let planes = plane_count(bbox.min.z as int, bbox.max.z as int, thickness);
    all_records(
        triangles,
        Seq::new(planes as nat, |k: int| plane_height(bbox.min.z as int, thickness, k) as i64),
        planes,
    ).len()
}

impl GPUSlicer {
    /// A slicer for images of `x` by `y` pixels and planes `slice_thickness`
    /// grid steps apart.
    pub fn new(x: u32, y: u32, slice_thickness: i64) -> (slicer: GPUSlicer)
        ensures
            slicer.x == x,
            slicer.y == y,
            slicer.slice_thickness == slice_thickness,
    {
        GPUSlicer { x, y, slice_thickness }
    }

    /// The slicer that sweeps plane by plane with the same settings.
    pub open spec fn host(&self) -> CPUSlicer {
        CPUSlicer { x: self.x, y: self.y, slice_thickness: self.slice_thickness }
    }

    /// `outcome` is what slicing triangles on the grid gives: what the
    /// plane-by-plane slicer gives, unless the sweep needs more room than is
    /// laid out for it.
    pub open spec fn is_grid_outcome(
        &self,
        triangles: Seq<GridTriangle>,
        outcome: Result<Vec<SliceImage>, SliceError>,
    ) -> bool {
        let needed = records_needed(triangles, self.slice_thickness as int);
        if self.host().grid_rejection(triangles) is None && needed > MAX_SEGMENTS {
            outcome == Err::<Vec<SliceImage>, SliceError>(
                SliceError::ResourceExhaustion {
                    attempted: if needed <= u64::MAX {
                        needed as u64
                    } else {
                        u64::MAX
                    },
                    available: MAX_SEGMENTS as u64,
                },
            )
        } else {
            self.host().is_grid_outcome(triangles, outcome)
        }
    }

    /// Slices a model given by triangles on the grid.
    #[verifier::rlimit(50)]
    pub fn slice_triangles(&self, triangles: &Vec<GridTriangle>) -> (outcome: Result<
        Vec<SliceImage>,
        SliceError,
    >)
        ensures
            self.is_grid_outcome(triangles@, outcome),
    {
        if triangles.len() == 0 {
            return Err(SliceError::InputContractViolation(ContractViolation::EmptyInput));
        }
        if self.slice_thickness <= 0 {
            return Err(SliceError::InputContractViolation(ContractViolation::Thickness));
        }
        if !image_size_is_valid(self.x, self.y) {
            return Err(SliceError::InputContractViolation(ContractViolation::ImageSize));
        }
        if !triangles_in_range(triangles) {
            return Err(SliceError::InputContractViolation(ContractViolation::Coordinate));
        }
        let bbox = match CPUSlicer::compute_bounding_box(triangles) {
            Ok(bbox) => bbox,
            Err(e) => {
                return Err(e);
            },
        };
        proof {
            lemma_bounding_box(triangles@);
        }
        let heights = match generate_slice_z_values(bbox.min.z, bbox.max.z, self.slice_thickness) {
            Ok(heights) => heights,
            Err(e) => {
                return Err(e);
            },
        };
        let ghost min_z = bbox.min.z as int;
        let ghost step = self.slice_thickness as int;
        let ghost frame = frame_of(bbox, self.x, self.y);
        let ghost planes = plane_count(min_z, bbox.max.z as int, step);
        proof {
            assert(heights@ =~= Seq::new(
                planes as nat,
                |k: int| plane_height(min_z, step, k) as i64,
            ));
            assert forall|k: int| 0 <= k < heights.len() implies coord_in_range(
                (#[trigger] heights[k]) as int,
            ) by {
                lemma_height_in_range(min_z, bbox.max.z as int, step, k);
            }
        }
        let capacity = estimate_capacity(triangles.len(), heights.len());
        let records = match collect_records(triangles, &heights, capacity) {
            Ok(records) => records,
            Err(e) => {
                proof {
                    lemma_needs_one_each(triangles@, heights@, heights.len() as int);
                }
                return Err(e);
            },
        };
        proof {
            lemma_record_images_are_sweep(
                triangles@,
                heights@,
                min_z,
                step,
                frame,
                heights.len() as int,
            );
            lemma_records_accepted(triangles@, heights@, bbox, self.x, self.y, 0);
        }
        images_from_records(&records, heights.len(), &bbox, self.x, self.y)
    }

    /// Slices several meshes as one model.
    pub fn slice_bodies(&self, bodies: &Vec<Mesh>) -> (outcome: Result<Vec<SliceImage>, SliceError>)
        ensures
            match merge_rejection(bodies@, 0) {
                Some(v) => outcome == Err::<Vec<SliceImage>, SliceError>(
                    SliceError::InputContractViolation(v),
                ),
                None => self.is_grid_outcome(
                    merged_triangles(bodies@, bodies.len() as int),
                    outcome,
                ),
            },
    {
        match merge_meshes(bodies) {
            Ok(grid) => self.slice_triangles(&grid),
            Err(e) => Err(e),
        }
    }
}

/// Both strategies give the same images: where the sweep plane by plane and
/// the sweep in one pass both succeed on the same triangles with the same
/// settings, their images have the same pixels, image by image.
pub proof fn lemma_strategies_agree(
    slicer: GPUSlicer,
    triangles: Seq<GridTriangle>,
    by_plane: Result<Vec<SliceImage>, SliceError>,
    in_bulk: Result<Vec<SliceImage>, SliceError>,
)
    requires
        slicer.host().is_grid_outcome(triangles, by_plane),
        slicer.is_grid_outcome(triangles, in_bulk),
    ensures
        in_bulk is Ok ==> by_plane is Ok,
        by_plane matches Ok(a) ==> (in_bulk matches Ok(b) ==> images_view(&a) == images_view(&b)),
        by_plane is Err ==> in_bulk == by_plane,
{
}

/// The records of a sweep over triangles that a box bounds can all be
/// drawn in the frame of the box.
proof fn lemma_records_accepted(
    triangles: Seq<GridTriangle>,
    heights: Seq<i64>,
    bbox: BoundingBox,
    width: u32,
    height: u32,
    from: int,
)
    requires
        0 <= from,
        heights.len() <= usize::MAX,
        all_in_range(triangles),
        forall|k: int| 0 <= k < heights.len() ==> coord_in_range((#[trigger] heights[k]) as int),
        bbox.wf(),
        bbox.bounds(triangles),
        valid_image_size(width, height),
    ensures
        records_rejection(
            all_records(triangles, heights, heights.len() as int),
            bbox,
            width,
            height,
            from,
            heights.len() as int,
        ) is None,
    decreases heights.len() - from,
{
    if from < heights.len() {
        lemma_records_sort_out(triangles, heights, heights.len() as int, from as usize);
        lemma_box_covers_cut(bbox, triangles, heights[from] as int);
        lemma_records_accepted(triangles, heights, bbox, width, height, from + 1);
    }
}

/// The planes of a sweep lie between the lowest and the greatest height.
pub proof fn lemma_height_in_range(min_z: int, max_z: int, step: int, k: int)
    requires
        step > 0,
        min_z <= max_z,
        0 <= k < plane_count(min_z, max_z, step),
    ensures
        min_z <= plane_height(min_z, step, k) <= max_z,
{
    let span = max_z - min_z;
    vstd::arithmetic::div_mod::lemma_fundamental_div_mod(span, step);
    vstd::arithmetic::div_mod::lemma_mod_bound(span, step);
    let q = span / step;
    assert(0 <= k * step <= span) by (nonlinear_arith)
        requires
            0 <= k <= q,
            step > 0,
            span == step * q + span % step,
            0 <= span % step,
    ;
}

/// A sweep gives at most one record for each triangle and plane.
proof fn lemma_needs_one_each(triangles: Seq<GridTriangle>, heights: Seq<i64>, upto: int)
    requires
        0 <= upto,
    ensures
        all_records(triangles, heights, upto).len() <= triangles.len() * upto,
    decreases upto,
{
    if upto > 0 {
        lemma_needs_one_each(triangles, heights, upto - 1);
        lemma_cut_is_short(triangles, heights[upto - 1] as int);
        assert(triangles.len() * (upto - 1) + triangles.len() == triangles.len() * upto)
            by (nonlinear_arith);
    } else {
        assert(triangles.len() * 0 == 0) by (nonlinear_arith);
    }
}

/// A plane cuts at most one segment from each triangle.
proof fn lemma_cut_is_short(triangles: Seq<GridTriangle>, plane_z: int)
    ensures
        plane_segments(triangles, plane_z).len() <= triangles.len(),
    decreases triangles.len(),
{
    if triangles.len() > 0 {
        lemma_cut_is_short(triangles.drop_last(), plane_z);
    }
}

} // verus!
