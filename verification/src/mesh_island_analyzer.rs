//! Support-island analysis: finding the vertices with no material beneath
//! them.

use vstd::prelude::*;
use crate::error::{ContractViolation, SliceError};
use crate::grid::{coord_in_range, GridPoint, COORD_LIMIT, PLANE_EPSILON};
use crate::intern::KeyTable;
use crate::intersect::point_in_range;
use crate::mesh::{Mesh, Vertex};
use crate::quantize::{quantize_point, quantize_point_spec};

verus! {

/// What the analysis takes as given about the build.
#[derive(Clone, Copy, PartialEq, Eq, Structural, Debug)]
pub struct IslandSettings {
    /// The height of the build platform.
    pub platform_z: i64,
    /// The direction in which the part grows away from what supports it. Only
    /// the direction counts, not the length.
    pub up: GridPoint,
}

/// The analyzer of support islands.
#[derive(Clone, Copy, PartialEq, Eq, Structural, Debug)]
pub struct MeshIslandAnalyzer;

/// How far `to` lies from `from` along `up`, up to a positive factor.
pub open spec fn rise(from: GridPoint, to: GridPoint, up: GridPoint) -> int {
    (to.x - from.x) * up.x + (to.y - from.y) * up.y + (to.z - from.z) * up.z
}

/// The point rests on the build platform: its height is that of the
/// platform, within the tolerance.
pub open spec fn on_platform(p: GridPoint, settings: IslandSettings) -> bool {
    -PLANE_EPSILON <= p.z - settings.platform_z <= PLANE_EPSILON
}

/// Vertex `n` speaks against vertex `v` being an island: it lies elsewhere,
/// and the way from it to `v` does not rise.
pub open spec fn speaks_against(points: Seq<GridPoint>, v: int, n: int, settings: IslandSettings)
    -> bool
{
    points[n] != points[v] && rise(points[n], points[v], settings.up) <= 0
}

/// Triangle number `k` has corners at both `v` and `n`, which are different
/// vertices.
pub open spec fn shares_triangle(indices: Seq<u32>, k: int, v: int, n: int) -> bool {
    let a = indices[3 * k] as int;
    let b = indices[3 * k + 1] as int;
    let c = indices[3 * k + 2] as int;
    v != n && (a == v || b == v || c == v) && (a == n || b == n || c == n)
}

/// One of the first `upto` triangles has corners at both `v` and `n`, which
/// are different vertices.
pub open spec fn neighbours_within(indices: Seq<u32>, upto: int, v: int, n: int) -> bool {
    exists|k: int| 0 <= k < upto && #[trigger] shares_triangle(indices, k, v, n)
}

/// Some triangle has corners at both `v` and `n`, which are different
/// vertices.
pub open spec fn neighbours(indices: Seq<u32>, v: int, n: int) -> bool {
    neighbours_within(indices, indices.len() as int / 3, v, n)
}

/// Vertex `v` is an island as far as the first `upto` triangles show: it
/// does not rest on the platform, and none of its neighbours speaks against
/// it.
pub open spec fn is_island_within(
    points: Seq<GridPoint>,
    indices: Seq<u32>,
    upto: int,
    v: int,
    settings: IslandSettings,
) -> bool {
    &&& !on_platform(points[v], settings)
    &&& forall|n: int|
        0 <= n < points.len() && #[trigger] neighbours_within(indices, upto, v, n)
            ==> !speaks_against(points, v, n, settings)
}

/// Vertex `v` is an island: it does not rest on the platform, and the way to
/// it rises from every neighbour that lies elsewhere. A vertex without such
/// a neighbour that is off the platform is an island.
pub open spec fn is_island(
    points: Seq<GridPoint>,
    indices: Seq<u32>,
    v: int,
    settings: IslandSettings,
) -> bool {
    is_island_within(points, indices, indices.len() as int / 3, v, settings)
}

/// A vertex that is a corner of no triangle is an island, unless it rests on
/// the platform.
pub proof fn lemma_lonely_vertex_is_island(
    points: Seq<GridPoint>,
    indices: Seq<u32>,
    v: int,
    settings: IslandSettings,
)
    requires
        forall|i: int| 0 <= i < indices.len() ==> indices[i] != v,
        indices.len() % 3 == 0,
        !on_platform(points[v], settings),
    ensures
        is_island(points, indices, v, settings),
{
    assert forall|n: int|
        0 <= n < points.len() && #[trigger] neighbours(indices, v, n) implies !speaks_against(
        points,
        v,
        n,
        settings,
    ) by {
        let k = choose|k: int|
            0 <= k < indices.len() as int / 3 && #[trigger] shares_triangle(indices, k, v, n);
        assert(indices[3 * k] != v && indices[3 * k + 1] != v && indices[3 * k + 2] != v);
    }
}

/// A vertex on the platform is no island, whatever its neighbours.
pub proof fn lemma_resting_vertex_is_no_island(
    points: Seq<GridPoint>,
    indices: Seq<u32>,
    v: int,
    settings: IslandSettings,
)
    requires
        on_platform(points[v], settings),
    ensures
        !is_island(points, indices, v, settings),
{
}

/// The positions of the vertices on the grid, or `None` if one of them has
/// no place there.
pub open spec fn grid_positions(vertices: Seq<Vertex>) -> Option<Seq<GridPoint>> {
    if forall|i: int|
        0 <= i < vertices.len() ==> quantize_point_spec((#[trigger] vertices[i]).position) is Some {
        Some(Seq::new(vertices.len(), |i: int| quantize_point_spec(vertices[i].position)->0))
    } else {
        None
    }
}

/// Reads the positions of the vertices onto the grid.
pub fn quantize_vertices(vertices: &Vec<Vertex>) -> (points: Option<Vec<GridPoint>>)
    ensures
        match points {
            Some(p) => grid_positions(vertices@) == Some(p@) && forall|i: int|
                0 <= i < p.len() ==> (#[trigger] p[i]).in_range(),
            None => grid_positions(vertices@) is None,
        },
{
    let mut points: Vec<GridPoint> = Vec::new();
    let mut i: usize = 0;
    while i < vertices.len()
        invariant
            i <= vertices.len(),
            points.len() == i,
            forall|j: int|
                0 <= j < i ==> quantize_point_spec((#[trigger] vertices[j]).position) == Some(
                    points[j],
                ),
            forall|j: int| 0 <= j < i ==> (#[trigger] points[j]).in_range(),
        decreases vertices.len() - i,
    {
        match quantize_point(&vertices[i].position) {
            Some(p) => {
                points.push(p);
            },
            None => {
                return None;
            },
        }
        i += 1;
    }
    assert(points@ =~= Seq::new(
        vertices@.len(),
        |i: int| quantize_point_spec(vertices[i].position)->0,
    ));
    Some(points)
}

/// Computes `speaks_against` for two vertices.
fn check_neighbour(points: &Vec<GridPoint>, v: usize, n: usize, settings: &IslandSettings) -> (against:
    bool)
    requires
        v < points.len(),
        n < points.len(),
        points[v as int].in_range(),
        points[n as int].in_range(),
        settings.up.in_range(),
    ensures
        against == speaks_against(points@, v as int, n as int, *settings),
{
    let from = points[n];
    let to = points[v];
    if from == to {
        return false;
    }
    let dx = (to.x - from.x) as i128;
    let dy = (to.y - from.y) as i128;
    let dz = (to.z - from.z) as i128;
    let ux = settings.up.x as i128;
    let uy = settings.up.y as i128;
    let uz = settings.up.z as i128;
    proof {
        lemma_product_bound(dx as int, ux as int);
        lemma_product_bound(dy as int, uy as int);
        lemma_product_bound(dz as int, uz as int);
    }
    dx * ux + dy * uy + dz * uz <= 0
}

/// The product of a difference of coordinates and a coordinate is bounded.
proof fn lemma_product_bound(d: int, u: int)
    requires
        -2 * COORD_LIMIT <= d <= 2 * COORD_LIMIT,
        -COORD_LIMIT <= u <= COORD_LIMIT,
    ensures
        -2_000_000_000_000_000_000_000_000 <= d * u <= 2_000_000_000_000_000_000_000_000,
{
    assert(-2_000_000_000_000_000_000_000_000 <= d * u <= 2_000_000_000_000_000_000_000_000)
        by (nonlinear_arith)
        requires
            -2_000_000_000_000 <= d <= 2_000_000_000_000,
            -1_000_000_000_000 <= u <= 1_000_000_000_000,
    ;
}


/// Takes the island mark from `v` if `n` speaks against it.
fn strike(flags: &mut Vec<bool>, points: &Vec<GridPoint>, v: usize, n: usize, settings: &IslandSettings)
    requires
        old(flags).len() == points.len(),
        v < points.len(),
        n < points.len(),
        forall|i: int| 0 <= i < points.len() ==> (#[trigger] points[i]).in_range(),
        settings.up.in_range(),
    ensures
        final(flags)@ == old(flags)@.update(
            v as int,
            old(flags)[v as int] && !(v != n && speaks_against(
                points@,
                v as int,
                n as int,
                *settings,
            )),
        ),
{
    if v != n && flags[v] && check_neighbour(points, v, n, settings) {
        flags[v] = false;
    }
    assert(flags@ =~= old(flags)@.update(
        v as int,
        old(flags)[v as int] && !(v != n && speaks_against(points@, v as int, n as int, *settings)),
    ));
}

impl IslandSettings {
    /// The platform height and the direction are within range.
    pub open spec fn wf(self) -> bool {
        coord_in_range(self.platform_z as int) && self.up.in_range()
    }

    /// The build the library assumes where nothing else is said: the platform
    /// at height zero, and the part growing downwards from it.
    pub open spec fn standard() -> IslandSettings {
        IslandSettings { platform_z: 0, up: GridPoint { x: 0, y: 0, z: -1i64 } }
    }
}

impl Default for IslandSettings {
    fn default() -> (settings: IslandSettings)
        ensures
            settings == IslandSettings::standard(),
            settings.wf(),
    {
        IslandSettings { platform_z: 0, up: GridPoint { x: 0, y: 0, z: -1 } }
    }
}

/// Why a mesh is refused, if it is: the settings must be within range, the
/// mesh well formed, and each position must have a place on the grid. The
/// first of these that fails decides.
pub open spec fn island_rejection(mesh: &Mesh, settings: IslandSettings) -> Option<
    ContractViolation,
> {
    if !settings.wf() {
        Some(ContractViolation::Coordinate)
    } else if mesh.violation() is Some {
        mesh.violation()
    } else if grid_positions(mesh.vertices@) is None {
        Some(ContractViolation::Coordinate)
    } else {
        None
    }
}

/// For each vertex of the mesh, whether it is an island.
pub open spec fn island_flags(mesh: &Mesh, settings: IslandSettings) -> Seq<bool> {
    Seq::new(
        mesh.vertices@.len(),
        |v: int| is_island(grid_positions(mesh.vertices@)->0, mesh.indices@, v, settings),
    )
}

/// Checks the settings and the mesh and reads the positions onto the grid.
fn prepare(mesh: &Mesh, settings: &IslandSettings) -> (outcome: Result<Vec<GridPoint>, SliceError>)
    ensures
        match outcome {
            Ok(points) => {
                &&& island_rejection(mesh, *settings) is None
                &&& grid_positions(mesh.vertices@) == Some(points@)
                &&& forall|i: int| 0 <= i < points.len() ==> (#[trigger] points[i]).in_range()
            },
            Err(e) => island_rejection(mesh, *settings) matches Some(v) && e
                == SliceError::InputContractViolation(v),
        },
{
    if settings.platform_z < -COORD_LIMIT || settings.platform_z > COORD_LIMIT || !point_in_range(
        &settings.up,
    ) {
        return Err(SliceError::InputContractViolation(ContractViolation::Coordinate));
    }
    if mesh.indices.len() % 3 != 0 {
        return Err(SliceError::InputContractViolation(ContractViolation::TriangleCount));
    }
    let mut i: usize = 0;
    while i < mesh.indices.len()
        invariant
            i <= mesh.indices.len(),
            settings.wf(),
            mesh.indices@.len() % 3 == 0,
            forall|j: int| 0 <= j < i ==> (#[trigger] mesh.indices@[j]) < mesh.vertices@.len(),
        decreases mesh.indices.len() - i,
    {
        if mesh.indices[i] as usize >= mesh.vertices.len() {
            assert(!(mesh.indices@[i as int] < mesh.vertices@.len()));
            return Err(SliceError::InputContractViolation(ContractViolation::VertexIndex));
        }
        i += 1;
    }
    match quantize_vertices(&mesh.vertices) {
        Some(points) => Ok(points),
        None => Err(SliceError::InputContractViolation(ContractViolation::Coordinate)),
    }
}

/// Marks the islands among the vertices, whose positions on the grid are
/// `points`.
#[verifier::rlimit(50)]
fn mark_islands(mesh: &Mesh, points: &Vec<GridPoint>, settings: &IslandSettings) -> (flags: Vec<bool>)
    requires
        island_rejection(mesh, *settings) is None,
        grid_positions(mesh.vertices@) == Some(points@),
        forall|i: int| 0 <= i < points.len() ==> (#[trigger] points[i]).in_range(),
    ensures
        flags@ == island_flags(mesh, *settings),
{
    let count = mesh.indices.len() / 3;
    let ghost indices = mesh.indices@;
    let mut flags: Vec<bool> = Vec::new();
    let mut v: usize = 0;
    while v < points.len()
        invariant
            v <= points.len(),
            flags.len() == v,
            settings.wf(),
            forall|i: int| 0 <= i < points.len() ==> (#[trigger] points[i]).in_range(),
            forall|u: int|
                0 <= u < v ==> #[trigger] flags[u] == is_island_within(
                    points@,
                    indices,
                    0,
                    u,
                    *settings,
                ),
        decreases points.len() - v,
    {
        let dz = points[v].z - settings.platform_z;
        flags.push(!(-PLANE_EPSILON <= dz && dz <= PLANE_EPSILON));
        v += 1;
    }
    let mut k: usize = 0;
    while k < count
        invariant
            k <= count,
            indices == mesh.indices@,
            indices.len() == 3 * count,
            3 * count <= usize::MAX,
            points.len() == mesh.vertices@.len(),
            forall|j: int| 0 <= j < indices.len() ==> (#[trigger] indices[j]) < points.len(),
            forall|i: int| 0 <= i < points.len() ==> (#[trigger] points[i]).in_range(),
            settings.wf(),
            flags.len() == points.len(),
            forall|u: int|
                0 <= u < flags.len() ==> #[trigger] flags[u] == is_island_within(
                    points@,
                    indices,
                    k as int,
                    u,
                    *settings,
                ),
        decreases count - k,
    {
        let a = mesh.indices[3 * k] as usize;
        let b = mesh.indices[3 * k + 1] as usize;
        let c = mesh.indices[3 * k + 2] as usize;
        let ghost before = flags@;
        strike(&mut flags, points, a, b, settings);
        strike(&mut flags, points, a, c, settings);
        strike(&mut flags, points, b, a, settings);
        strike(&mut flags, points, b, c, settings);
        strike(&mut flags, points, c, a, settings);
        strike(&mut flags, points, c, b, settings);
        proof {
            assert forall|u: int| 0 <= u < flags.len() implies #[trigger] flags[u]
                == is_island_within(points@, indices, k + 1, u, *settings) by {
                assert(before[u] == is_island_within(points@, indices, k as int, u, *settings));
                assert(flags[u] == (before[u] && forall|n: int|
                    0 <= n < points.len() && #[trigger] shares_triangle(indices, k as int, u, n)
                        ==> !speaks_against(points@, u, n, *settings))) by {
                    if u == a || u == b || u == c {
                        assert(shares_triangle(indices, k as int, u, a as int) || u == a);
                        assert(shares_triangle(indices, k as int, u, b as int) || u == b);
                        assert(shares_triangle(indices, k as int, u, c as int) || u == c);
                    }
                }
                if flags[u] {
                    assert forall|n: int|
                        0 <= n < points.len() && #[trigger] neighbours_within(
                            indices,
                            k + 1,
                            u,
                            n,
                        ) implies !speaks_against(points@, u, n, *settings) by {
                        let t = choose|t: int|
                            0 <= t < k + 1 && #[trigger] shares_triangle(indices, t, u, n);
                        if t < k {
                            assert(neighbours_within(indices, k as int, u, n));
                        }
                    }
                } else if before[u] {
                    let n = choose|n: int|
                        0 <= n < points.len() && #[trigger] shares_triangle(
                            indices,
                            k as int,
                            u,
                            n,
                        ) && speaks_against(points@, u, n, *settings);
                    assert(neighbours_within(indices, k + 1, u, n));
                } else {
                    if !on_platform(points[u], *settings) {
                        let n = choose|n: int|
                            0 <= n < points.len() && #[trigger] neighbours_within(
                                indices,
                                k as int,
                                u,
                                n,
                            ) && speaks_against(points@, u, n, *settings);
                        let t = choose|t: int|
                            0 <= t < k && #[trigger] shares_triangle(indices, t, u, n);
                        assert(neighbours_within(indices, k + 1, u, n));
                    }
                }
            }
        }
        k += 1;
    }
    assert(flags@ =~= island_flags(mesh, *settings));
    flags
}

/// The number that stands for a point within range where points are looked
/// up: different points have different numbers.
pub open spec fn point_key(p: GridPoint) -> u128 {
    (((p.x + COORD_LIMIT) * (2 * COORD_LIMIT + 1) + (p.y + COORD_LIMIT)) * (2 * COORD_LIMIT + 1) + (
    p.z + COORD_LIMIT)) as u128
}

/// The key of a point within range, before it is taken as a `u128`, is a
/// number of that type.
proof fn lemma_point_key_fits(p: GridPoint)
    requires
        p.in_range(),
    ensures
        0 <= ((p.x + COORD_LIMIT) * 2_000_000_000_001 + (p.y + COORD_LIMIT)) * 2_000_000_000_001
            + (p.z + COORD_LIMIT) <= 0xffff_ffff_ffff_ffff_ffff_ffff_ffff_ffff,
        0 <= (p.x + COORD_LIMIT) * 2_000_000_000_001 + (p.y + COORD_LIMIT)
            <= 4_000_000_000_004_000_000_000_000,
{
    let x = p.x + COORD_LIMIT;
    let y = p.y + COORD_LIMIT;
    let h = x * 2_000_000_000_001 + y;
    assert(0 <= h <= 4_000_000_000_004_000_000_000_000);
    assert(0 <= h * 2_000_000_000_001 <= 4_000_000_000_004_000_000_000_000 * 2_000_000_000_001)
        by (nonlinear_arith)
        requires
            0 <= h <= 4_000_000_000_004_000_000_000_000,
    ;
}

/// Points within range that have one key are one point.
proof fn lemma_point_key_injective(p: GridPoint, q: GridPoint)
    requires
        p.in_range(),
        q.in_range(),
        point_key(p) == point_key(q),
    ensures
        p == q,
{
    lemma_point_key_fits(p);
    lemma_point_key_fits(q);
    let hp = (p.x + COORD_LIMIT) * 2_000_000_000_001 + (p.y + COORD_LIMIT);
    let hq = (q.x + COORD_LIMIT) * 2_000_000_000_001 + (q.y + COORD_LIMIT);
    assert(hp * 2_000_000_000_001 + (p.z + COORD_LIMIT) == hq * 2_000_000_000_001 + (q.z
        + COORD_LIMIT));
    let zp = p.z + COORD_LIMIT;
    let zq = q.z + COORD_LIMIT;
    assert(hp == hq) by (nonlinear_arith)
        requires
            hp * 2_000_000_000_001 + zp == hq * 2_000_000_000_001 + zq,
            0 <= zp <= 2_000_000_000_000,
            0 <= zq <= 2_000_000_000_000,
    ;
    let xp = p.x + COORD_LIMIT;
    let xq = q.x + COORD_LIMIT;
    let yp = p.y + COORD_LIMIT;
    let yq = q.y + COORD_LIMIT;
    assert(xp == xq) by (nonlinear_arith)
        requires
            xp * 2_000_000_000_001 + yp == xq * 2_000_000_000_001 + yq,
            0 <= yp <= 2_000_000_000_000,
            0 <= yq <= 2_000_000_000_000,
    ;
}

fn key_of_point(p: &GridPoint) -> (k: u128)
    requires
        p.in_range(),
    ensures
        k == point_key(*p),
{
    let m: u128 = 2_000_000_000_001;
    let x: u128 = (p.x + COORD_LIMIT) as u128;
    let y: u128 = (p.y + COORD_LIMIT) as u128;
    let z: u128 = (p.z + COORD_LIMIT) as u128;
    proof {
        lemma_point_key_fits(*p);
    }
    (x * m + y) * m + z
}

/// Vertex `v` is shown as an island: it is one, and no island before it lies
/// at the same place on the grid.
pub open spec fn is_shown(points: Seq<GridPoint>, flags: Seq<bool>, v: int) -> bool {
    flags[v] && forall|u: int| 0 <= u < v && #[trigger] flags[u] ==> points[u] != points[v]
}

/// The islands shown among the first `upto` vertices.
pub open spec fn shown_islands(
    vertices: Seq<Vertex>,
    points: Seq<GridPoint>,
    flags: Seq<bool>,
    upto: int,
) -> Seq<Vertex>
    decreases upto,
{
    if upto <= 0 {
        Seq::empty()
    } else {
        let before = shown_islands(vertices, points, flags, upto - 1);
        if is_shown(points, flags, upto - 1) {
            before.push(vertices[upto - 1])
        } else {
            before
        }
    }
}

/// What the analysis of the mesh shows: of the islands among its vertices,
/// in their order, the first at each place on the grid.
pub open spec fn islands_of(mesh: &Mesh, settings: IslandSettings) -> Seq<Vertex> {
    shown_islands(
        mesh.vertices@,
        grid_positions(mesh.vertices@)->0,
        island_flags(mesh, settings),
        mesh.vertices@.len() as int,
    )
}

impl MeshIslandAnalyzer {
    /// Tells of every vertex of the mesh whether it is an island.
    pub fn classify_vertices(mesh: &Mesh, settings: &IslandSettings) -> (outcome: Result<
        Vec<bool>,
        SliceError,
    >)
        ensures
            match outcome {
                Ok(flags) => island_rejection(mesh, *settings) is None && flags@ == island_flags(
                    mesh,
                    *settings,
                ),
                Err(e) => island_rejection(mesh, *settings) matches Some(v) && e
                    == SliceError::InputContractViolation(v),
            },
    {
        match prepare(mesh, settings) {
            Ok(points) => Ok(mark_islands(mesh, &points, settings)),
            Err(e) => Err(e),
        }
    }

    /// Finds the islands of the mesh under the given settings. Of several
    /// islands at one place on the grid only the first is returned.
    #[verifier::rlimit(50)]
    pub fn analyze_islands_with(mesh: &Mesh, settings: &IslandSettings) -> (outcome: Result<
        Vec<Vertex>,
        SliceError,
    >)
        ensures
            match outcome {
                Ok(islands) => island_rejection(mesh, *settings) is None && islands@
                    == islands_of(mesh, *settings),
                Err(e) => island_rejection(mesh, *settings) matches Some(v) && e
                    == SliceError::InputContractViolation(v),
            },
    {
        let points = match prepare(mesh, settings) {
            Ok(points) => points,
            Err(e) => {
                return Err(e);
            },
        };
        let flags = mark_islands(mesh, &points, settings);
        let mut table = KeyTable::new();
        let mut islands: Vec<Vertex> = Vec::new();
        let mut v: usize = 0;
        while v < points.len()
            invariant
                v <= points.len(),
                points.len() == mesh.vertices@.len(),
                flags.len() == points.len(),
                forall|i: int| 0 <= i < points.len() ==> (#[trigger] points[i]).in_range(),
                table.wf(),
                forall|key: u128|
                    table@.contains(key) <==> exists|u: int|
                        0 <= u < v && #[trigger] flags[u] && point_key(points[u]) == key,
                islands@ == shown_islands(mesh.vertices@, points@, flags@, v as int),
            decreases points.len() - v,
        {
            if flags[v] {
                let known = table.len();
                let ghost before = table@;
                let id = table.intern(key_of_point(&points[v]));
                proof {
                    table.lemma_distinct();
                    let key = point_key(points[v as int]);
                    if before.contains(key) {
                        let u = choose|u: int|
                            0 <= u < v && #[trigger] flags[u] && point_key(points[u]) == key;
                        lemma_point_key_injective(points[u], points[v as int]);
                        assert(!is_shown(points@, flags@, v as int));
                        let at = choose|at: int| 0 <= at < before.len() && before[at] == key;
                        assert(table@[at] == key);
                        assert(id == at);
                    } else {
                        assert forall|u: int| 0 <= u < v && #[trigger] flags[u] implies points[u]
                            != points[v as int] by {
                            if points[u] == points[v as int] {
                                assert(before.contains(point_key(points[u])));
                            }
                        }
                        assert(id == known);
                    }
                    assert forall|k2: u128|
                        table@.contains(k2) <==> exists|u: int|
                            0 <= u < v + 1 && #[trigger] flags[u] && point_key(points[u]) == k2 by {
                        broadcast use vstd::seq_lib::group_seq_properties;

                        if table@.contains(k2) {
                            if k2 == key {
                                assert(flags[v as int] && point_key(points[v as int]) == k2);
                            } else {
                                assert(before.contains(k2));
                                let u = choose|u: int|
                                    0 <= u < v && #[trigger] flags[u] && point_key(points[u]) == k2;
                                assert(0 <= u < v + 1 && flags[u] && point_key(points[u]) == k2);
                            }
                        }
                        if exists|u: int|
                            0 <= u < v + 1 && #[trigger] flags[u] && point_key(points[u]) == k2 {
                            let u = choose|u: int|
                                0 <= u < v + 1 && #[trigger] flags[u] && point_key(points[u]) == k2;
                            if u < v {
                                assert(before.contains(k2));
                            }
                        }
                    }
                }
                if id == known {
                    islands.push(mesh.vertices[v]);
                }
            } else {
                proof {
                    assert forall|k2: u128|
                        table@.contains(k2) <==> exists|u: int|
                            0 <= u < v + 1 && #[trigger] flags[u] && point_key(points[u]) == k2 by {
                        if exists|u: int|
                            0 <= u < v + 1 && #[trigger] flags[u] && point_key(points[u]) == k2 {
                            let u = choose|u: int|
                                0 <= u < v + 1 && #[trigger] flags[u] && point_key(points[u]) == k2;
                            assert(u < v);
                        }
                        if table@.contains(k2) {
                            let u = choose|u: int|
                                0 <= u < v && #[trigger] flags[u] && point_key(points[u]) == k2;
                            assert(0 <= u < v + 1 && flags[u] && point_key(points[u]) == k2);
                        }
                    }
                }
            }
            v += 1;
        }
        Ok(islands)
    }

    /// Finds the islands of the mesh for a platform at height zero from which
    /// the part grows downwards.
    pub fn analyze_islands(mesh: &Mesh) -> (outcome: Result<Vec<Vertex>, SliceError>)
        ensures
            match outcome {
                Ok(islands) => island_rejection(mesh, IslandSettings::standard()) is None
                    && islands@ == islands_of(mesh, IslandSettings::standard()),
                Err(e) => island_rejection(mesh, IslandSettings::standard()) matches Some(v) && e
                    == SliceError::InputContractViolation(v),
            },
    {
        let settings = IslandSettings { platform_z: 0, up: GridPoint { x: 0, y: 0, z: -1 } };
        MeshIslandAnalyzer::analyze_islands_with(mesh, &settings)
    }
}

} // verus!
