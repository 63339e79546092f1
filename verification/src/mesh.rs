//! Mesh building: from a list of separate triangles to shared vertices and
//! an index list.
//!
//! Positions and normals are kept as the bits of single-precision numbers:
//! two vertices are the same if their bits are.

use vstd::prelude::*;
use crate::error::{ContractViolation, SliceError};
use crate::intern::{
    first_occurrences, lemma_first_occurrences, lemma_first_occurrences_push,
    lemma_repeat_shortens, KeyTable,
};
use crate::grid::GRID_PER_UNIT;
use crate::intersect::GridTriangle;
use crate::quantize::{quantize_point, quantize_point_spec};
use crate::stl_processor::StlProcessorTrait;

verus! {

/// A corner of the mesh: a position and a normal, each given by the bits of
/// its three coordinates.
#[derive(Clone, Copy, PartialEq, Eq, Hash, Debug)]
pub struct Vertex {
    pub position: [u32; 3],
    pub normal: [u32; 3],
}

/// A triangle with a normal and corners of its own, as a model file lists
/// it. The normal, like the corners, is given by the bits of its three
/// coordinates.
#[derive(Clone, Copy, PartialEq, Eq, Hash, Debug)]
pub struct Triangle {
    pub normal: [u32; 3],
    pub vertices: [[u32; 3]; 3],
}

/// A mesh: vertices, and indices into them that form a triangle three by
/// three.
#[derive(Clone, Debug)]
pub struct Mesh {
    pub vertices: Vec<Vertex>,
    pub indices: Vec<u32>,
}

impl Vertex {
    /// A vertex at `position` with normal `normal`.
    pub fn new(position: [u32; 3], normal: [u32; 3]) -> (v: Vertex)
        ensures
            v.position == position,
            v.normal == normal,
    {
        Vertex { position, normal }
    }

    /// The bits of the position.
    pub fn position_bits(&self) -> (bits: [u32; 3])
        ensures
            bits == self.position,
    {
        self.position
    }

    /// The bits of the normal.
    pub fn normal_bits(&self) -> (bits: [u32; 3])
        ensures
            bits == self.normal,
    {
        self.normal
    }
}

/// The number that stands for a position where positions are looked up:
/// positions with different bits have different numbers.
pub open spec fn position_key(position: [u32; 3]) -> u128 {
    (position[0] as int + position[1] as int * 0x1_0000_0000 + position[2] as int
        * 0x1_0000_0000_0000_0000) as u128
}

/// Positions with one key have the same bits.
pub proof fn lemma_position_key_injective(p: [u32; 3], q: [u32; 3])
    requires
        position_key(p) == position_key(q),
    ensures
        p == q,
{
    assert(p[0] == q[0] && p[1] == q[1] && p[2] == q[2]);
    assert(p@ =~= q@);
}

fn key_of_position(position: &[u32; 3]) -> (k: u128)
    ensures
        k == position_key(*position),
{
    (position[0] as u128) + (position[1] as u128) * 0x1_0000_0000u128 + (position[2] as u128)
        * 0x1_0000_0000_0000_0000u128
}

/// The corner positions of all triangles, three for each triangle in turn.
pub open spec fn corner_positions(triangles: Seq<Triangle>) -> Seq<[u32; 3]> {
    Seq::new(3 * triangles.len(), |i: int| triangles[i / 3].vertices[i % 3])
}

/// The keys of the corner positions.
pub open spec fn corner_keys(triangles: Seq<Triangle>) -> Seq<u128> {
    Seq::new(3 * triangles.len(), |i: int| position_key(triangles[i / 3].vertices[i % 3]))
}

impl Triangle {
    /// The triangle on the grid, or `None` if one of its coordinates has no
    /// place there.
    pub open spec fn grid_spec(self) -> Option<GridTriangle> {
        match (
            quantize_point_spec(self.vertices[0]),
            quantize_point_spec(self.vertices[1]),
            quantize_point_spec(self.vertices[2]),
        ) {
            (Some(a), Some(b), Some(c)) => Some(GridTriangle { a, b, c }),
            _ => None,
        }
    }

    /// Reads the triangle onto the grid.
    pub fn to_grid(&self) -> (t: Option<GridTriangle>)
        ensures
            t == self.grid_spec(),
            t matches Some(g) ==> g.in_range(),
    {
        let a = quantize_point(&self.vertices[0]);
        let b = quantize_point(&self.vertices[1]);
        let c = quantize_point(&self.vertices[2]);
        match (a, b, c) {
            (Some(a), Some(b), Some(c)) => Some(GridTriangle { a, b, c }),
            _ => None,
        }
    }
}


impl Default for Mesh {
    fn default() -> (mesh: Mesh)
        ensures
            mesh.vertices@.len() == 0,
            mesh.indices@.len() == 0,
            mesh.wf(),
    {
        Mesh { vertices: Vec::new(), indices: Vec::new() }
    }
}

impl Mesh {
    /// The indices come in threes and each names a vertex.
    pub open spec fn wf(&self) -> bool {
        &&& self.indices@.len() % 3 == 0
        &&& forall|i: int|
            0 <= i < self.indices@.len() ==> (#[trigger] self.indices@[i]) < self.vertices@.len()
    }

    /// The mesh is the one built from `triangles`: its vertices are the
    /// distinct corner positions in the order of their first appearance, each
    /// with a normal of zeros, and its indices name, corner by corner, the
    /// vertex at the corner's position.
    pub open spec fn built_from(&self, triangles: Seq<Triangle>) -> bool {
        let table = first_occurrences(corner_keys(triangles));
        &&& self.vertices@.len() == table.len()
        &&& forall|v: int|
            0 <= v < table.len() ==> {
                &&& position_key((#[trigger] self.vertices@[v]).position) == table[v]
                &&& self.vertices@[v].normal[0] == 0
                &&& self.vertices@[v].normal[1] == 0
                &&& self.vertices@[v].normal[2] == 0
            }
        &&& self.indices@.len() == 3 * triangles.len()
        &&& forall|j: int|
            0 <= j < 3 * triangles.len() ==> (#[trigger] self.indices@[j]) < table.len()
                && self.vertices@[self.indices@[j] as int].position == corner_positions(
                triangles,
            )[j]
    }

    /// Builds the mesh from a list of separate triangles: corners at the same
    /// position, bit for bit, become one vertex.
    ///
    /// Fails, and leaves the mesh as it was, if there are more distinct
    /// positions than an index can count.
    #[verifier::rlimit(50)]
    pub fn generate_vertices_and_indices(&mut self, triangles: &Vec<Triangle>) -> (done:
        Result<(), SliceError>)
        ensures
            done is Ok <==> first_occurrences(corner_keys(triangles@)).len()
                <= 0x1_0000_0000,
            done is Ok ==> final(self).wf() && final(self).built_from(triangles@),
            done matches Err(e) ==> *final(self) == *old(self) && e
                == (SliceError::ResourceExhaustion {
                attempted: 0x1_0000_0001u64,
                available: 0x1_0000_0000u64,
            }),
    {
        let ghost keys = corner_keys(triangles@);
        let ghost places = corner_positions(triangles@);
        let mut table = KeyTable::new();
        let mut unique_vertices: Vec<Vertex> = Vec::new();
        let mut indices: Vec<u32> = Vec::new();
        let mut i: usize = 0;
        assert(keys.take(0) =~= Seq::<u128>::empty());
        while i < triangles.len()
            invariant
                i <= triangles.len(),
                keys == corner_keys(triangles@),
                places == corner_positions(triangles@),
                table.wf(),
                table@ == first_occurrences(keys.take(3 * i)),
                table@.len() <= 0x1_0000_0000,
                unique_vertices.len() == table@.len(),
                forall|v: int|
                    0 <= v < table@.len() ==> {
                        &&& position_key((#[trigger] unique_vertices[v]).position) == table@[v]
                        &&& unique_vertices[v].normal[0] == 0
                        &&& unique_vertices[v].normal[1] == 0
                        &&& unique_vertices[v].normal[2] == 0
                    },
                indices.len() == 3 * i,
                forall|j: int|
                    0 <= j < 3 * i ==> (#[trigger] indices[j]) < table@.len()
                        && unique_vertices[indices[j] as int].position == places[j],
            decreases triangles.len() - i,
        {
            let triangle = &triangles[i];
            let mut c: usize = 0;
            while c < 3
                invariant
                    c <= 3,
                    i < triangles.len(),
                    *triangle == triangles[i as int],
                    keys == corner_keys(triangles@),
                    places == corner_positions(triangles@),
                    table.wf(),
                    table@ == first_occurrences(keys.take(3 * i + c)),
                    table@.len() <= 0x1_0000_0000,
                    unique_vertices.len() == table@.len(),
                    forall|v: int|
                        0 <= v < table@.len() ==> {
                            &&& position_key((#[trigger] unique_vertices[v]).position) == table@[v]
                            &&& unique_vertices[v].normal[0] == 0
                            &&& unique_vertices[v].normal[1] == 0
                            &&& unique_vertices[v].normal[2] == 0
                        },
                    indices.len() == 3 * i + c,
                    forall|j: int|
                        0 <= j < 3 * i + c ==> (#[trigger] indices[j]) < table@.len()
                            && unique_vertices[indices[j] as int].position == places[j],
                decreases 3 - c,
            {
                let position = triangle.vertices[c];
                let ghost at = 3 * i + c;
                let ghost seen = keys.take(at);
                assert(places[at] == position && keys[at] == position_key(position)) by {
                    assert(at / 3 == i && at % 3 == c);
                }
                let id = table.intern(key_of_position(&position));
                proof {
                    lemma_first_occurrences_push(seen, keys[at]);
                    assert(keys.take(at + 1) =~= seen.push(keys[at]));
                    lemma_first_occurrences(keys);
                    lemma_take_is_prefix(keys, at + 1);
                }
                if id > 0xffff_ffff {
                    proof {
                        lemma_first_occurrences_grow(keys, at + 1);
                    }
                    return Err(
                        SliceError::ResourceExhaustion {
                            attempted: 0x1_0000_0001u64,
                            available: 0x1_0000_0000u64,
                        },
                    );
                }
                if id == unique_vertices.len() {
                    unique_vertices.push(Vertex { position, normal: [0, 0, 0] });
                } else {
                    proof {
                        lemma_position_key_injective(unique_vertices[id as int].position, position);
                    }
                }
                indices.push(id as u32);
                c += 1;
            }
            i += 1;
        }
        assert(keys.take(3 * triangles.len()) =~= keys);
        self.vertices = unique_vertices;
        self.indices = indices;
        Ok(())
    }
}

impl Mesh {
    /// `triangles` lists the triangles of the mesh: one for each three
    /// indices, with the positions of the vertices that the indices name, and
    /// with a normal of zeros.
    pub open spec fn lists(&self, triangles: Seq<Triangle>) -> bool {
        &&& 3 * triangles.len() == self.indices@.len()
        &&& forall|k: int|
            #![trigger triangles[k].normal]
            0 <= k < triangles.len() ==> triangles[k].normal[0] == 0 && triangles[k].normal[1]
                == 0 && triangles[k].normal[2] == 0
        &&& forall|k: int, c: int|
            #![trigger triangles[k].vertices[c]]
            0 <= k < triangles.len() && 0 <= c < 3 ==> triangles[k].vertices[c]
                == self.vertices@[self.indices@[3 * k + c] as int].position
    }

    /// What is wrong with the mesh, if anything: the number of its indices
    /// is checked first.
    pub open spec fn violation(&self) -> Option<ContractViolation> {
        if self.indices@.len() % 3 != 0 {
            Some(ContractViolation::TriangleCount)
        } else if !self.wf() {
            Some(ContractViolation::VertexIndex)
        } else {
            None
        }
    }

    /// The triangles of the mesh, each with corners of its own. The normal of
    /// each triangle is left at zero: the mean of the normals of its corners
    /// is for the caller to put there.
    ///
    /// Fails if the indices do not come in threes or one of them names no
    /// vertex.
    #[verifier::rlimit(50)]
    pub fn into_triangle_vec(&self) -> (listed: Result<Vec<Triangle>, SliceError>)
        ensures
            match listed {
                Ok(triangles) => self.violation() is None && self.lists(triangles@),
                Err(e) => self.violation() matches Some(v) && e
                    == SliceError::InputContractViolation(v),
            },
    {
        if self.indices.len() % 3 != 0 {
            return Err(SliceError::InputContractViolation(ContractViolation::TriangleCount));
        }
        let count = self.indices.len() / 3;
        let mut triangles: Vec<Triangle> = Vec::new();
        let mut k: usize = 0;
        while k < count
            invariant
                k <= count,
                self.indices@.len() == 3 * count,
                3 * count <= usize::MAX,
                triangles.len() == k,
                forall|t: int|
                    #![trigger triangles[t].normal]
                    0 <= t < k ==> triangles[t].normal[0] == 0 && triangles[t].normal[1] == 0
                        && triangles[t].normal[2] == 0,
                forall|i: int| 0 <= i < 3 * k ==> (#[trigger] self.indices@[i]) < self.vertices@.len(),
                forall|t: int, c: int|
                    #![trigger triangles[t].vertices[c]]
                    0 <= t < k && 0 <= c < 3 ==> triangles[t].vertices[c]
                        == self.vertices@[self.indices@[3 * t + c] as int].position,
            decreases count - k,
        {
            let i0 = self.indices[3 * k] as usize;
            let i1 = self.indices[3 * k + 1] as usize;
            let i2 = self.indices[3 * k + 2] as usize;
            if i0 >= self.vertices.len() || i1 >= self.vertices.len() || i2 >= self.vertices.len() {
                return Err(SliceError::InputContractViolation(ContractViolation::VertexIndex));
            }
            let triangle = Triangle {
                normal: [0, 0, 0],
                vertices: [
                    self.vertices[i0].position,
                    self.vertices[i1].position,
                    self.vertices[i2].position,
                ],
            };
            triangles.push(triangle);
            k += 1;
        }
        Ok(triangles)
    }

    /// The triangles of the mesh, as the slicer takes them.
    pub fn get_triangles_for_slicing(&self) -> (listed: Result<Vec<Triangle>, SliceError>)
        ensures
            match listed {
                Ok(triangles) => self.violation() is None && self.lists(triangles@),
                Err(e) => self.violation() matches Some(v) && e
                    == SliceError::InputContractViolation(v),
            },
    {
        self.into_triangle_vec()
    }
}

/// The first component of the cross product of the edges from corner `a`.
pub open spec fn cross_x(t: GridTriangle) -> int {
    (t.b.y - t.a.y) * (t.c.z - t.a.z) - (t.b.z - t.a.z) * (t.c.y - t.a.y)
}

/// The second component of the cross product of the edges from corner `a`.
pub open spec fn cross_y(t: GridTriangle) -> int {
    (t.b.z - t.a.z) * (t.c.x - t.a.x) - (t.b.x - t.a.x) * (t.c.z - t.a.z)
}

/// The third component of the cross product of the edges from corner `a`.
pub open spec fn cross_z(t: GridTriangle) -> int {
    (t.b.x - t.a.x) * (t.c.y - t.a.y) - (t.b.y - t.a.y) * (t.c.x - t.a.x)
}

/// The triangle has next to no area: the cross product of two of its edges
/// is shorter than a millionth of a square model unit.
#[verifier::opaque]
pub open spec fn is_degenerate(t: GridTriangle) -> bool {
    cross_x(t) * cross_x(t) + cross_y(t) * cross_y(t) + cross_z(t) * cross_z(t) < GRID_PER_UNIT
        * GRID_PER_UNIT
}

/// One component of a cross product: `p * q - r * s`.
fn cross_component(p: i64, q: i64, r: i64, s: i64) -> (c: i128)
    requires
        -2_000_000_000_000 <= p <= 2_000_000_000_000,
        -2_000_000_000_000 <= q <= 2_000_000_000_000,
        -2_000_000_000_000 <= r <= 2_000_000_000_000,
        -2_000_000_000_000 <= s <= 2_000_000_000_000,
    ensures
        c == p * q - r * s,
{
    assert(-4_000_000_000_000_000_000_000_000 <= p * q <= 4_000_000_000_000_000_000_000_000)
        by (nonlinear_arith)
        requires
            -2_000_000_000_000 <= p <= 2_000_000_000_000,
            -2_000_000_000_000 <= q <= 2_000_000_000_000,
    ;
    assert(-4_000_000_000_000_000_000_000_000 <= r * s <= 4_000_000_000_000_000_000_000_000)
        by (nonlinear_arith)
        requires
            -2_000_000_000_000 <= r <= 2_000_000_000_000,
            -2_000_000_000_000 <= s <= 2_000_000_000_000,
    ;
    (p as i128) * (q as i128) - (r as i128) * (s as i128)
}

/// A number no smaller in magnitude than `bound` has a square no smaller
/// than the square of `bound`.
proof fn lemma_square_grows(c: int, bound: int)
    requires
        bound >= 0,
        c >= bound || c <= -bound,
    ensures
        c * c >= bound * bound,
{
    assert(c * c >= bound * bound) by (nonlinear_arith)
        requires
            bound >= 0,
            c >= bound || c <= -bound,
    ;
}

/// Computes `is_degenerate`.
pub fn triangle_is_degenerate(t: &GridTriangle) -> (flat: bool)
    requires
        t.in_range(),
    ensures
        flat == is_degenerate(*t),
{
    let cx = cross_component(t.b.y - t.a.y, t.c.z - t.a.z, t.b.z - t.a.z, t.c.y - t.a.y);
    let cy = cross_component(t.b.z - t.a.z, t.c.x - t.a.x, t.b.x - t.a.x, t.c.z - t.a.z);
    let cz = cross_component(t.b.x - t.a.x, t.c.y - t.a.y, t.b.y - t.a.y, t.c.x - t.a.x);
    let limit: i128 = GRID_PER_UNIT as i128;
    proof {
        reveal(is_degenerate);
        assert(cx * cx >= 0 && cy * cy >= 0 && cz * cz >= 0) by (nonlinear_arith);
    }
    if cx >= limit || cx <= -limit {
        proof {
            lemma_square_grows(cx as int, limit as int);
        }
        return false;
    }
    if cy >= limit || cy <= -limit {
        proof {
            lemma_square_grows(cy as int, limit as int);
        }
        return false;
    }
    if cz >= limit || cz <= -limit {
        proof {
            lemma_square_grows(cz as int, limit as int);
        }
        return false;
    }
    assert(cx * cx <= 1_000_000_000_000 && cy * cy <= 1_000_000_000_000 && cz * cz
        <= 1_000_000_000_000) by (nonlinear_arith)
        requires
            -1_000_000 < cx < 1_000_000,
            -1_000_000 < cy < 1_000_000,
            -1_000_000 < cz < 1_000_000,
    ;
    cx * cx + cy * cy + cz * cz < 1_000_000_000_000
}

impl Mesh {
    /// Triangle number `k` of the mesh on the grid, or `None` if one of its
    /// corners has no place there.
    pub open spec fn grid_triangle(&self, k: int) -> Option<GridTriangle> {
        match (
            quantize_point_spec(self.vertices@[self.indices@[3 * k] as int].position),
            quantize_point_spec(self.vertices@[self.indices@[3 * k + 1] as int].position),
            quantize_point_spec(self.vertices@[self.indices@[3 * k + 2] as int].position),
        ) {
            (Some(a), Some(b), Some(c)) => Some(GridTriangle { a, b, c }),
            _ => None,
        }
    }

    /// Every triangle of the mesh has a place on the grid.
    pub open spec fn on_grid(&self) -> bool {
        forall|k: int|
            0 <= k < self.indices@.len() as int / 3 ==> (#[trigger] self.grid_triangle(k)) is Some
    }

    /// The indices of the first `upto` triangles without those of triangles
    /// that have next to no area.
    pub open spec fn sound_indices(&self, upto: int) -> Seq<u32>
        decreases upto,
    {
        if upto <= 0 {
            Seq::empty()
        } else {
            let before = self.sound_indices(upto - 1);
            if is_degenerate(self.grid_triangle(upto - 1)->0) {
                before
            } else {
                before.push(self.indices@[3 * (upto - 1)]).push(
                    self.indices@[3 * (upto - 1) + 1],
                ).push(self.indices@[3 * (upto - 1) + 2])
            }
        }
    }

    /// Why the removal of degenerate triangles refuses the mesh, if it does.
    pub open spec fn removal_rejection(&self) -> Option<ContractViolation> {
        if self.violation() is Some {
            self.violation()
        } else if !self.on_grid() {
            Some(ContractViolation::Coordinate)
        } else {
            None
        }
    }

    /// Drops the triangles that have next to no area. Only the index list
    /// changes: a vertex may be left that no index names.
    ///
    /// Fails, and leaves the mesh as it was, if the mesh is not well formed
    /// or a triangle has no place on the grid.
    pub fn remove_degenerate_triangles(&mut self) -> (done: Result<(), SliceError>)
        ensures
            match done {
                Ok(()) => {
                    &&& old(self).removal_rejection() is None
                    &&& final(self).vertices@ == old(self).vertices@
                    &&& final(self).indices@ == old(self).sound_indices(
                        old(self).indices@.len() as int / 3,
                    )
                    &&& final(self).wf()
                },
                Err(e) => {
                    &&& old(self).removal_rejection() matches Some(v)
                    &&& e == SliceError::InputContractViolation(v)
                    &&& *final(self) == *old(self)
                },
            },
    {
        match sound_index_list(self) {
            Ok(kept) => {
                self.indices = kept;
                Ok(())
            },
            Err(e) => Err(e),
        }
    }

    /// `done` and `after` are what importing gives when the mesh was `self`
    /// and the source has read `read`. From triangles the mesh is built anew,
    /// unless they have more distinct positions than an index can count; on
    /// that, and on an error of the source, the mesh stays as it was.
    pub open spec fn is_import(
        &self,
        read: Result<Vec<Triangle>, std::io::Error>,
        done: Result<(), SliceError>,
        after: Mesh,
    ) -> bool {
        match read {
            Ok(triangles) => {
                &&& done is Ok <==> first_occurrences(corner_keys(triangles@)).len()
                    <= 0x1_0000_0000
                &&& done is Ok ==> after.wf() && after.built_from(triangles@)
                &&& done matches Err(e) ==> after == *self && e
                    == (SliceError::ResourceExhaustion {
                    attempted: 0x1_0000_0001u64,
                    available: 0x1_0000_0000u64,
                })
            },
            Err(_) => after == *self && done == Err::<(), SliceError>(
                SliceError::InputContractViolation(ContractViolation::UnreadableSource),
            ),
        }
    }

    /// Builds the mesh from what a source of triangles has read.
    ///
    /// Fails, and leaves the mesh as it was, if the source gave an error or
    /// the triangles have more distinct positions than an index can count.
    pub fn import_read(&mut self, read: Result<Vec<Triangle>, std::io::Error>) -> (done: Result<
        (),
        SliceError,
    >)
        ensures
            old(self).is_import(read, done, *final(self)),
    {
        match read {
            Ok(loaded) => self.generate_vertices_and_indices(&loaded),
            Err(_) => Err(SliceError::InputContractViolation(ContractViolation::UnreadableSource)),
        }
    }

    /// Builds the mesh from the triangles that `processor` reads under the
    /// name `filename`: the processor is asked for that name, and what it
    /// returns is imported as `import_read` imports it.
    pub fn import_stl<Processor: StlProcessorTrait>(&mut self, filename: &str, processor: &Processor)
        -> (done: Result<(), SliceError>)
        ensures
            exists|read: Result<Vec<Triangle>, std::io::Error>|
                processor.can_read(filename@, read) && #[trigger] old(self).is_import(
                    read,
                    done,
                    *final(self),
                ),
            done is Ok ==> final(self).wf() && exists|triangles: Seq<Triangle>|
                final(self).built_from(triangles),
            done is Err ==> *final(self) == *old(self),
    {
        let read = processor.read_stl(filename);
        let ghost got = read;
        let done = self.import_read(read);
        proof {
            assert(processor.can_read(filename@, got) && old(self).is_import(got, done, *self));
            if let Ok(triangles) = got {
                if done is Ok {
                    assert(self.built_from(triangles@));
                }
            }
        }
        done
    }
}

impl Mesh {
    /// The triangles of the mesh on the grid.
    pub open spec fn grid_triangles(&self) -> Seq<GridTriangle> {
        Seq::new((self.indices@.len() as int / 3) as nat, |k: int| self.grid_triangle(k)->0)
    }

    /// Reads the triangles of the mesh onto the grid.
    ///
    /// Fails if the mesh is not well formed or a triangle has no place on
    /// the grid.
    #[verifier::rlimit(50)]
    pub fn to_grid_triangles(&self) -> (outcome: Result<Vec<GridTriangle>, SliceError>)
        ensures
            match outcome {
                Ok(grid) => {
                    &&& self.removal_rejection() is None
                    &&& grid@ == self.grid_triangles()
                    &&& forall|k: int| 0 <= k < grid.len() ==> (#[trigger] grid[k]).in_range()
                },
                Err(e) => self.removal_rejection() matches Some(v) && e
                    == SliceError::InputContractViolation(v),
            },
    {
        match self.validate() {
            Ok(()) => {},
            Err(e) => {
                return Err(e);
            },
        }
        let count = self.indices.len() / 3;
        let mut grid: Vec<GridTriangle> = Vec::new();
        let mut k: usize = 0;
        while k < count
            invariant
                k <= count,
                self.wf(),
                self.indices@.len() == 3 * count,
                grid.len() == k,
                forall|t: int| 0 <= t < k ==> (#[trigger] self.grid_triangle(t)) == Some(grid[t]),
                forall|t: int| 0 <= t < k ==> (#[trigger] grid[t]).in_range(),
            decreases count - k,
        {
            match self.read_triangle(k) {
                Some(t) => {
                    grid.push(t);
                },
                None => {
                    return Err(SliceError::InputContractViolation(ContractViolation::Coordinate));
                },
            }
            k += 1;
        }
        assert(self.indices@.len() as int / 3 == count as int);
        assert(self.on_grid());
        assert(grid@ =~= self.grid_triangles());
        Ok(grid)
    }

    /// Reads triangle number `k` onto the grid.
    fn read_triangle(&self, k: usize) -> (t: Option<GridTriangle>)
        requires
            3 * k + 2 < self.indices@.len(),
            self.indices@[3 * k] < self.vertices@.len(),
            self.indices@[3 * k + 1] < self.vertices@.len(),
            self.indices@[3 * k + 2] < self.vertices@.len(),
        ensures
            t == self.grid_triangle(k as int),
            t matches Some(g) ==> g.in_range(),
    {
        let total = self.indices.len();
        assert(3 * k + 2 < total);
        let a = quantize_point(&self.vertices[self.indices[3 * k] as usize].position);
        let b = quantize_point(&self.vertices[self.indices[3 * k + 1] as usize].position);
        let c = quantize_point(&self.vertices[self.indices[3 * k + 2] as usize].position);
        match (a, b, c) {
            (Some(a), Some(b), Some(c)) => Some(GridTriangle { a, b, c }),
            _ => None,
        }
    }

    /// Checks that the indices come in threes and each names a vertex.
    pub fn validate(&self) -> (outcome: Result<(), SliceError>)
        ensures
            match outcome {
                Ok(()) => self.violation() is None,
                Err(e) => self.violation() matches Some(v) && e
                    == SliceError::InputContractViolation(v),
            },
    {
        if self.indices.len() % 3 != 0 {
            return Err(SliceError::InputContractViolation(ContractViolation::TriangleCount));
        }
        let mut i: usize = 0;
        while i < self.indices.len()
            invariant
                i <= self.indices.len(),
                self.indices@.len() % 3 == 0,
                forall|j: int| 0 <= j < i ==> (#[trigger] self.indices@[j]) < self.vertices@.len(),
            decreases self.indices.len() - i,
        {
            if self.indices[i] as usize >= self.vertices.len() {
                assert(!(self.indices@[i as int] < self.vertices@.len()));
                return Err(SliceError::InputContractViolation(ContractViolation::VertexIndex));
            }
            i += 1;
        }
        Ok(())
    }
}

/// The index list of the mesh without the triangles that have next to no
/// area.
#[verifier::rlimit(50)]
fn sound_index_list(mesh: &Mesh) -> (outcome: Result<Vec<u32>, SliceError>)
    ensures
        match outcome {
            Ok(kept) => {
                &&& mesh.removal_rejection() is None
                &&& kept@ == mesh.sound_indices(mesh.indices@.len() as int / 3)
                &&& kept@.len() % 3 == 0
                &&& forall|i: int| 0 <= i < kept@.len() ==> (#[trigger] kept@[i]) < mesh.vertices@.len()
            },
            Err(e) => mesh.removal_rejection() matches Some(v) && e
                == SliceError::InputContractViolation(v),
        },
{
    let grid = match mesh.to_grid_triangles() {
        Ok(grid) => grid,
        Err(e) => {
            return Err(e);
        },
    };
    let count = grid.len();
    let total = mesh.indices.len();
    assert(total == 3 * count);
    let mut kept: Vec<u32> = Vec::new();
    let mut k: usize = 0;
    while k < count
        invariant
            k <= count,
            mesh.indices@.len() == 3 * count,
            3 * count <= usize::MAX,
            forall|j: int| 0 <= j < 3 * count ==> (#[trigger] mesh.indices@[j]) < mesh.vertices@.len(),
            count == grid.len(),
            forall|t: int|
                0 <= t < count ==> (#[trigger] grid[t]).in_range() && mesh.grid_triangle(t)
                    == Some(grid[t]),
            kept@ == mesh.sound_indices(k as int),
            kept@.len() % 3 == 0,
            forall|i: int| 0 <= i < kept@.len() ==> (#[trigger] kept@[i]) < mesh.vertices@.len(),
        decreases count - k,
    {
        let flat = triangle_is_degenerate(&grid[k]);
        let ghost before = kept@;
        assert(flat == is_degenerate(mesh.grid_triangle(k as int)->0));
        if !flat {
            let i0 = mesh.indices[3 * k];
            let i1 = mesh.indices[3 * k + 1];
            let i2 = mesh.indices[3 * k + 2];
            kept.push(i0);
            kept.push(i1);
            kept.push(i2);
            assert(kept@ == before.push(i0).push(i1).push(i2));
        }
        assert(mesh.sound_indices(k + 1) == (if flat {
            before
        } else {
            before.push(mesh.indices@[3 * k]).push(mesh.indices@[3 * k + 1]).push(
                mesh.indices@[3 * k + 2],
            )
        }));
        k += 1;
    }
    assert(mesh.indices@.len() as int / 3 == count as int);
    Ok(kept)
}

/// The first items of a sequence, as a sequence of its own.
proof fn lemma_take_is_prefix(s: Seq<u128>, n: int)
    requires
        0 <= n <= s.len(),
    ensures
        s.take(n).len() == n,
{
}

/// The table of a longer sequence is no shorter.
pub proof fn lemma_first_occurrences_grow(s: Seq<u128>, n: int)
    requires
        0 <= n <= s.len(),
    ensures
        first_occurrences(s.take(n)).len() <= first_occurrences(s).len(),
    decreases s.len() - n,
{
    if n < s.len() {
        lemma_first_occurrences_grow(s, n + 1);
        lemma_first_occurrences_push(s.take(n), s[n]);
        assert(s.take(n + 1) =~= s.take(n).push(s[n]));
    } else {
        assert(s.take(n) =~= s);
    }
}

/// A mesh built from triangles of which two corners share a position has
/// fewer vertices than three for each triangle.
pub proof fn lemma_shared_position_welds(mesh: Mesh, triangles: Seq<Triangle>, i: int, j: int)
    requires
        mesh.built_from(triangles),
        0 <= i < j < 3 * triangles.len(),
        corner_positions(triangles)[i] == corner_positions(triangles)[j],
    ensures
        mesh.vertices@.len() < 3 * triangles.len(),
{
    lemma_repeat_shortens(corner_keys(triangles), i, j);
}

} // verus!
