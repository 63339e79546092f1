//! Plane intersection: where a triangle meets a horizontal cutting plane.

use vstd::prelude::*;
use crate::arith::{blend, blend_coords, lemma_blend_between};
use crate::grid::{coord_in_range, GridPoint, Segment, COORD_LIMIT, PLANE_EPSILON};

verus! {

/// A triangle given by its three corners on the grid.
#[derive(Clone, Copy, PartialEq, Eq, Structural, Debug)]
pub struct GridTriangle {
    pub a: GridPoint,
    pub b: GridPoint,
    pub c: GridPoint,
}

impl GridTriangle {
    /// All three corners are within range.
    pub open spec fn in_range(self) -> bool {
        self.a.in_range() && self.b.in_range() && self.c.in_range()
    }
}

/// `p` lies above the plane by more than the tolerance.
pub open spec fn above(p: GridPoint, plane_z: int) -> bool {
    p.z - plane_z > PLANE_EPSILON
}

/// `p` lies below the plane by more than the tolerance.
pub open spec fn below(p: GridPoint, plane_z: int) -> bool {
    p.z - plane_z < -PLANE_EPSILON
}

/// `p` lies on the plane, within the tolerance.
pub open spec fn on_plane(p: GridPoint, plane_z: int) -> bool {
    !above(p, plane_z) && !below(p, plane_z)
}

/// The triangle reaches from below the plane up to it: it has a corner below
/// the plane and a corner that is not below it. A corner on the plane counts
/// with the side above. So a triangle that hangs from the plane by an edge
/// or a corner meets it, and a triangle that stands on the plane does not:
/// of two planes through the top and the bottom of a solid, the one through
/// the top shows its outline.
pub open spec fn straddles(t: GridTriangle, plane_z: int) -> bool {
    (below(t.a, plane_z) || below(t.b, plane_z) || below(t.c, plane_z)) && (!below(t.a, plane_z)
        || !below(t.b, plane_z) || !below(t.c, plane_z))
}

/// `p` and `q` lie on the same side of the plane, and not on it.
pub open spec fn same_side(p: GridPoint, q: GridPoint, plane_z: int) -> bool {
    (above(p, plane_z) && above(q, plane_z)) || (below(p, plane_z) && below(q, plane_z))
}

/// The point at which the edge between `high`, above the plane, and `low`,
/// below it, passes through the plane, rounded to the grid.
pub open spec fn crossing(high: GridPoint, low: GridPoint, plane_z: int) -> GridPoint {
    GridPoint {
        x: blend(high.x as int, low.x as int, high.z - plane_z, plane_z - low.z) as i64,
        y: blend(high.y as int, low.y as int, high.z - plane_z, plane_z - low.z) as i64,
        z: plane_z as i64,
    }
}

/// What the edge from `p` to `q` adds to the intersection: the crossing point
/// if its ends lie on opposite sides, otherwise each end that lies on the
/// plane.
pub open spec fn edge_points(p: GridPoint, q: GridPoint, plane_z: int) -> Seq<GridPoint> {
    if above(p, plane_z) && below(q, plane_z) {
        seq![crossing(p, q, plane_z)]
    } else if below(p, plane_z) && above(q, plane_z) {
        seq![crossing(q, p, plane_z)]
    } else if on_plane(p, plane_z) && on_plane(q, plane_z) {
        seq![p, q]
    } else if on_plane(p, plane_z) {
        seq![p]
    } else if on_plane(q, plane_z) {
        seq![q]
    } else {
        Seq::empty()
    }
}

/// The points that the three edges add, before they are ordered and
/// repetitions are removed. A triangle that does not reach from below the
/// plane up to it adds none.
pub open spec fn raw_intersections(t: GridTriangle, plane_z: int) -> Seq<GridPoint> {
    if !straddles(t, plane_z) {
        Seq::empty()
    } else {
        edge_points(t.a, t.b, plane_z) + edge_points(t.b, t.c, plane_z) + edge_points(
            t.c,
            t.a,
            plane_z,
        )
    }
}

/// `p` comes before `q` when points are ordered by `x`, then `y`, then `z`.
pub open spec fn lex_before(p: GridPoint, q: GridPoint) -> bool {
    p.x < q.x || (p.x == q.x && (p.y < q.y || (p.y == q.y && p.z < q.z)))
}

/// Each point comes before all points behind it.
pub open spec fn lex_sorted(s: Seq<GridPoint>) -> bool {
    forall|i: int, j: int| 0 <= i < j < s.len() ==> lex_before(#[trigger] s[i], #[trigger] s[j])
}

/// The ordered points `s` with `p` put at its place, unless they hold it
/// already.
pub open spec fn insert_ordered(s: Seq<GridPoint>, p: GridPoint) -> Seq<GridPoint>
    decreases s.len(),
{
    if s.len() == 0 {
        seq![p]
    } else if s[0] == p {
        s
    } else if lex_before(p, s[0]) {
        seq![p] + s
    } else {
        seq![s[0]] + insert_ordered(s.drop_first(), p)
    }
}

/// The distinct points of `raw`, in order.
pub open spec fn ordered_distinct(raw: Seq<GridPoint>) -> Seq<GridPoint>
    decreases raw.len(),
{
    if raw.len() == 0 {
        Seq::empty()
    } else {
        insert_ordered(ordered_distinct(raw.drop_last()), raw.last())
    }
}

/// The points in which the triangle meets the plane: the distinct points that
/// its edges add, ordered by `x`, then `y`, then `z`.
pub open spec fn intersection_spec(t: GridTriangle, plane_z: int) -> Seq<GridPoint> {
    ordered_distinct(raw_intersections(t, plane_z))
}

/// Putting a point among ordered points keeps them ordered and adds just
/// that point.
#[verifier::rlimit(50)]
pub proof fn lemma_insert_ordered(s: Seq<GridPoint>, p: GridPoint)
    requires
        lex_sorted(s),
    ensures
        lex_sorted(insert_ordered(s, p)),
        forall|q: GridPoint|
            #![trigger insert_ordered(s, p).contains(q)]
            #![trigger s.contains(q)]
            insert_ordered(s, p).contains(q) <==> (s.contains(q) || q == p),
        insert_ordered(s, p).contains(p),
    decreases s.len(),
{
    let out = insert_ordered(s, p);
    if s.len() == 0 {
        assert(out[0] == p);
        assert forall|q: GridPoint| out.contains(q) <==> (s.contains(q) || q == p) by {
            if out.contains(q) {
                let k = choose|k: int| 0 <= k < out.len() && out[k] == q;
            }
        }
    } else if s[0] == p {
        assert(s.contains(p));
    } else if lex_before(p, s[0]) {
        assert forall|a: int, b: int| 0 <= a < b < out.len() implies lex_before(
            #[trigger] out[a],
            #[trigger] out[b],
        ) by {
            if a == 0 {
                if b - 1 > 0 {
                    assert(lex_before(s[0], s[b - 1]));
                }
            } else {
                assert(lex_before(s[a - 1], s[b - 1]));
            }
        }
        assert forall|q: GridPoint| out.contains(q) <==> (s.contains(q) || q == p) by {
            if out.contains(q) {
                let k = choose|k: int| 0 <= k < out.len() && out[k] == q;
                if k > 0 {
                    assert(s[k - 1] == q);
                }
            }
            if s.contains(q) {
                let k = choose|k: int| 0 <= k < s.len() && s[k] == q;
                assert(out[k + 1] == q);
            }
            if q == p {
                assert(out[0] == q);
            }
        }
    } else {
        let rest = s.drop_first();
        assert(lex_sorted(rest)) by {
            assert forall|a: int, b: int| 0 <= a < b < rest.len() implies lex_before(
                #[trigger] rest[a],
                #[trigger] rest[b],
            ) by {
                assert(lex_before(s[a + 1], s[b + 1]));
            }
        }
        lemma_insert_ordered(rest, p);
        let tail = insert_ordered(rest, p);
        assert forall|q: GridPoint| out.contains(q) <==> (s.contains(q) || q == p) by {
            if out.contains(q) {
                let k = choose|k: int| 0 <= k < out.len() && out[k] == q;
                if k > 0 {
                    assert(tail[k - 1] == q);
                    assert(tail.contains(q));
                    if rest.contains(q) {
                        let m = choose|m: int| 0 <= m < rest.len() && rest[m] == q;
                        assert(s[m + 1] == q);
                    }
                } else {
                    assert(s[0] == q);
                }
            }
            if s.contains(q) {
                let k = choose|k: int| 0 <= k < s.len() && s[k] == q;
                if k == 0 {
                    assert(out[0] == q);
                } else {
                    assert(rest[k - 1] == q);
                    assert(rest.contains(q));
                    assert(tail.contains(q));
                    let m = choose|m: int| 0 <= m < tail.len() && tail[m] == q;
                    assert(out[m + 1] == q);
                }
            }
            if q == p {
                assert(tail.contains(q));
                let m = choose|m: int| 0 <= m < tail.len() && tail[m] == q;
                assert(out[m + 1] == q);
            }
        }
        assert forall|a: int, b: int| 0 <= a < b < out.len() implies lex_before(
            #[trigger] out[a],
            #[trigger] out[b],
        ) by {
            if a == 0 {
                let q = tail[b - 1];
                assert(tail.contains(q));
                if rest.contains(q) {
                    let m = choose|m: int| 0 <= m < rest.len() && rest[m] == q;
                    assert(lex_before(s[0], s[m + 1]));
                }
            } else {
                assert(lex_before(tail[a - 1], tail[b - 1]));
            }
        }
    }
}

/// The ordered distinct points of `raw` are ordered and hold what `raw`
/// holds.
pub proof fn lemma_ordered_distinct(raw: Seq<GridPoint>)
    ensures
        lex_sorted(ordered_distinct(raw)),
        forall|q: GridPoint|
            #![trigger ordered_distinct(raw).contains(q)]
            #![trigger raw.contains(q)]
            ordered_distinct(raw).contains(q) <==> raw.contains(q),
    decreases raw.len(),
{
    broadcast use vstd::seq_lib::group_seq_properties;

    if raw.len() > 0 {
        let front = raw.drop_last();
        lemma_ordered_distinct(front);
        lemma_insert_ordered(ordered_distinct(front), raw.last());
        assert(raw =~= front.push(raw.last()));
        assert forall|q: GridPoint|
            #![trigger ordered_distinct(raw).contains(q)]
            #![trigger raw.contains(q)]
            ordered_distinct(raw).contains(q) <==> raw.contains(q) by {
            assert(raw.contains(q) <==> (front.contains(q) || q == raw.last()));
        }
    }
}

/// Two ordered sequences that hold the same points are equal.
#[verifier::rlimit(50)]
pub proof fn lemma_sorted_same_points(first: Seq<GridPoint>, second: Seq<GridPoint>)
    requires
        lex_sorted(first),
        lex_sorted(second),
        forall|q: GridPoint|
            #![trigger first.contains(q)]
            #![trigger second.contains(q)]
            first.contains(q) <==> second.contains(q),
    ensures
        first == second,
    decreases first.len(),
{
    if first.len() == 0 {
        if second.len() > 0 {
            assert(second.contains(second[0]));
        }
        assert(first =~= second);
    } else {
        assert(first.contains(first[0]));
        assert(second.len() > 0);
        assert(second.contains(second[0]));
        // The least point of each is the least point of the other.
        let i = choose|i: int| 0 <= i < second.len() && second[i] == first[0];
        let j = choose|j: int| 0 <= j < first.len() && first[j] == second[0];
        assert(first[0] == second[0]) by {
            if i > 0 && j > 0 {
                assert(lex_before(second[0], second[i]));
                assert(lex_before(first[0], first[j]));
            }
        }
        let rest1 = first.subrange(1, first.len() as int);
        let rest2 = second.subrange(1, second.len() as int);
        assert forall|q: GridPoint|
            #![trigger rest1.contains(q)]
            #![trigger rest2.contains(q)]
            rest1.contains(q) <==> rest2.contains(q) by {
            if rest1.contains(q) {
                let k = choose|k: int| 0 <= k < rest1.len() && rest1[k] == q;
                assert(first[k + 1] == q);
                assert(lex_before(first[0], first[k + 1]));
                assert(first.contains(q));
                let m = choose|m: int| 0 <= m < second.len() && second[m] == q;
                assert(m > 0);
                assert(rest2[m - 1] == q);
            }
            if rest2.contains(q) {
                let k = choose|k: int| 0 <= k < rest2.len() && rest2[k] == q;
                assert(second[k + 1] == q);
                assert(lex_before(second[0], second[k + 1]));
                assert(second.contains(q));
                let m = choose|m: int| 0 <= m < first.len() && first[m] == q;
                assert(m > 0);
                assert(rest1[m - 1] == q);
            }
        }
        assert(lex_sorted(rest1)) by {
            assert forall|a: int, b: int| 0 <= a < b < rest1.len() implies lex_before(
                #[trigger] rest1[a],
                #[trigger] rest1[b],
            ) by {
                assert(lex_before(first[a + 1], first[b + 1]));
            }
        }
        assert(lex_sorted(rest2)) by {
            assert forall|a: int, b: int| 0 <= a < b < rest2.len() implies lex_before(
                #[trigger] rest2[a],
                #[trigger] rest2[b],
            ) by {
                assert(lex_before(second[a + 1], second[b + 1]));
            }
        }
        lemma_sorted_same_points(rest1, rest2);
        assert(first =~= seq![first[0]] + rest1);
        assert(second =~= seq![second[0]] + rest2);
    }
}

fn comes_before(p: &GridPoint, q: &GridPoint) -> (r: bool)
    ensures
        r == lex_before(*p, *q),
{
    p.x < q.x || (p.x == q.x && (p.y < q.y || (p.y == q.y && p.z < q.z)))
}

/// Puts `p` at its place among the ordered points, unless it is there
/// already.
#[verifier::rlimit(50)]
fn insert_point(points: &mut Vec<GridPoint>, p: GridPoint)
    requires
        lex_sorted(old(points)@),
    ensures
        lex_sorted(final(points)@),
        forall|q: GridPoint|
            #![trigger final(points)@.contains(q)]
            #![trigger old(points)@.contains(q)]
            final(points)@.contains(q) <==> (old(points)@.contains(q) || q == p),
        final(points)@.contains(p),
{
    let mut i: usize = 0;
    while i < points.len() && comes_before(&points[i], &p)
        invariant
            points@ == old(points)@,
            i <= points.len(),
            forall|j: int| 0 <= j < i ==> lex_before(#[trigger] points[j], p),
        decreases points.len() - i,
    {
        i += 1;
    }
    if i < points.len() && points[i] == p {
        proof {
            assert(points@.contains(p));
        }
        return ;
    }
    let ghost before = points@;
    points.insert(i, p);
    proof {
        let after = points@;
        assert forall|a: int, b: int| 0 <= a < b < after.len() implies lex_before(
            #[trigger] after[a],
            #[trigger] after[b],
        ) by {
            if b < i {
                assert(lex_before(before[a], before[b]));
            } else if b == i as int {
                assert(after[a] == before[a]);
            } else if a < i {
                assert(lex_before(before[a], before[b - 1]));
            } else if a == i as int {
                assert(!lex_before(before[i as int], p));
                if b - 1 > i {
                    assert(lex_before(before[i as int], before[b - 1]));
                }
            } else {
                assert(lex_before(before[a - 1], before[b - 1]));
            }
        }
        assert forall|q: GridPoint| after.contains(q) <==> (before.contains(q) || q == p) by {
            if after.contains(q) {
                let k = choose|k: int| 0 <= k < after.len() && after[k] == q;
                if k < i {
                    assert(before[k] == q);
                } else if k > i {
                    assert(before[k - 1] == q);
                }
            }
            if before.contains(q) {
                let k = choose|k: int| 0 <= k < before.len() && before[k] == q;
                if k < i {
                    assert(after[k] == q);
                } else {
                    assert(after[k + 1] == q);
                }
            }
            if q == p {
                assert(after[i as int] == q);
            }
        }
    }
}


/// Two points of which every point that the edges add is one.
pub open spec fn two_points(t: GridTriangle, plane_z: int) -> (GridPoint, GridPoint) {
    let e1 = edge_points(t.a, t.b, plane_z);
    let e2 = edge_points(t.b, t.c, plane_z);
    let e3 = edge_points(t.c, t.a, plane_z);
    if on_plane(t.a, plane_z) && on_plane(t.b, plane_z) {
        (t.a, t.b)
    } else if on_plane(t.b, plane_z) && on_plane(t.c, plane_z) {
        (t.b, t.c)
    } else if on_plane(t.a, plane_z) && on_plane(t.c, plane_z) {
        (t.a, t.c)
    } else if on_plane(t.a, plane_z) {
        (t.a, if e2.len() > 0 { e2[0] } else { t.a })
    } else if on_plane(t.b, plane_z) {
        (t.b, if e3.len() > 0 { e3[0] } else { t.b })
    } else if on_plane(t.c, plane_z) {
        (t.c, if e1.len() > 0 { e1[0] } else { t.c })
    } else if e1.len() == 0 {
        (if e2.len() > 0 { e2[0] } else { t.a }, if e3.len() > 0 { e3[0] } else { t.a })
    } else if e2.len() == 0 {
        (e1[0], if e3.len() > 0 { e3[0] } else { t.a })
    } else {
        (e1[0], e2[0])
    }
}

/// However many points the edges add, they are at most two different ones.
proof fn lemma_raw_shape(t: GridTriangle, plane_z: int)
    ensures
        forall|k: int|
            0 <= k < raw_intersections(t, plane_z).len() ==> (#[trigger] raw_intersections(
                t,
                plane_z,
            )[k]) == two_points(t, plane_z).0 || raw_intersections(t, plane_z)[k] == two_points(
                t,
                plane_z,
            ).1,
{
    let e1 = edge_points(t.a, t.b, plane_z);
    let e2 = edge_points(t.b, t.c, plane_z);
    let e3 = edge_points(t.c, t.a, plane_z);
    let raw = raw_intersections(t, plane_z);
    let pq = two_points(t, plane_z);
    if straddles(t, plane_z) {
        assert(raw == e1 + e2 + e3);
        assert forall|k: int| 0 <= k < raw.len() implies (#[trigger] raw[k]) == pq.0 || raw[k]
            == pq.1 by {
            if k < e1.len() {
                assert(raw[k] == e1[k]);
            } else if k < e1.len() + e2.len() {
                assert(raw[k] == e2[k - e1.len()]);
            } else {
                assert(raw[k] == e3[k - e1.len() - e2.len()]);
            }
        }
    }
}

/// Two triangles that share an edge get the same point from it, whichever
/// way round each of them runs along the edge.
pub proof fn lemma_edge_gives_one_point(p: GridPoint, q: GridPoint, plane_z: int)
    ensures
        (above(p, plane_z) && below(q, plane_z)) || (below(p, plane_z) && above(q, plane_z))
            ==> edge_points(p, q, plane_z) == edge_points(q, p, plane_z),
{
}

/// A triangle that lies on one side of a plane does not meet it: not if it
/// lies above or below altogether, and not if it stands on the plane with a
/// corner, an edge or all of itself.
pub proof fn lemma_one_sided_triangle_meets_nothing(t: GridTriangle, plane_z: int)
    requires
        !straddles(t, plane_z),
    ensures
        intersection_spec(t, plane_z).len() == 0,
{
}

/// A triangle meets a plane in at most two points.
pub proof fn lemma_intersection_at_most_two(t: GridTriangle, plane_z: int)
    ensures
        intersection_spec(t, plane_z).len() <= 2,
{
    let raw = raw_intersections(t, plane_z);
    let points = intersection_spec(t, plane_z);
    lemma_ordered_distinct(raw);
    if points.len() >= 3 {
        lemma_raw_shape(t, plane_z);
        assert(lex_before(points[0], points[1]));
        assert(lex_before(points[1], points[2]));
        assert(lex_before(points[0], points[2]));
        assert(points.contains(points[0]));
        assert(points.contains(points[1]));
        assert(points.contains(points[2]));
        let k0 = choose|k: int| 0 <= k < raw.len() && raw[k] == points[0];
        let k1 = choose|k: int| 0 <= k < raw.len() && raw[k] == points[1];
        let k2 = choose|k: int| 0 <= k < raw.len() && raw[k] == points[2];
        assert(raw[k0] == points[0] && raw[k1] == points[1] && raw[k2] == points[2]);
    }
}

/// A triangle with one corner on the plane and the other two on one side of
/// it gives no segment: it meets the plane in no point if it stands on the
/// plane, and in the one corner if it hangs from it.
pub proof fn lemma_touching_corner_gives_no_segment(t: GridTriangle, plane_z: int)
    requires
        (on_plane(t.a, plane_z) && same_side(t.b, t.c, plane_z)) || (on_plane(t.b, plane_z)
            && same_side(t.a, t.c, plane_z)) || (on_plane(t.c, plane_z) && same_side(
            t.a,
            t.b,
            plane_z,
        )),
    ensures
        intersection_spec(t, plane_z).len() <= 1,
        !(below(t.a, plane_z) || below(t.b, plane_z) || below(t.c, plane_z)) ==> intersection_spec(
            t,
            plane_z,
        ).len() == 0,
{
    let raw = raw_intersections(t, plane_z);
    let points = intersection_spec(t, plane_z);
    lemma_ordered_distinct(raw);
    if points.len() >= 2 {
        lemma_raw_shape(t, plane_z);
        let pq = two_points(t, plane_z);
        assert(pq.0 == pq.1);
        assert(lex_before(points[0], points[1]));
        assert(points.contains(points[0]));
        assert(points.contains(points[1]));
        let k0 = choose|k: int| 0 <= k < raw.len() && raw[k] == points[0];
        let k1 = choose|k: int| 0 <= k < raw.len() && raw[k] == points[1];
        assert(raw[k0] == points[0] && raw[k1] == points[1]);
    }
}

/// A triangle that hangs from the plane by an edge gives that edge: with two
/// corners on the plane at different places and the third below, it meets
/// the plane in just these two corners.
pub proof fn lemma_hanging_edge_is_cut(t: GridTriangle, plane_z: int)
    requires
        on_plane(t.a, plane_z),
        on_plane(t.b, plane_z),
        below(t.c, plane_z),
        t.a != t.b,
    ensures
        intersection_spec(t, plane_z).len() == 2,
        intersection_spec(t, plane_z).contains(t.a),
        intersection_spec(t, plane_z).contains(t.b),
{
    let raw = raw_intersections(t, plane_z);
    let points = intersection_spec(t, plane_z);
    lemma_ordered_distinct(raw);
    lemma_intersection_at_most_two(t, plane_z);
    let e1 = edge_points(t.a, t.b, plane_z);
    assert(raw == e1 + edge_points(t.b, t.c, plane_z) + edge_points(t.c, t.a, plane_z));
    assert(raw[0] == e1[0] && raw[1] == e1[1]);
    assert(raw.contains(t.a));
    assert(raw.contains(t.b));
    let i = choose|i: int| 0 <= i < points.len() && points[i] == t.a;
    let j = choose|j: int| 0 <= j < points.len() && points[j] == t.b;
    assert(i != j);
}

/// Adds to the ordered points what the edge from `p` to `q` adds to the
/// intersection.
fn add_edge_points(points: &mut Vec<GridPoint>, p: &GridPoint, q: &GridPoint, plane_z: i64)
    requires
        lex_sorted(old(points)@),
        p.in_range(),
        q.in_range(),
        coord_in_range(plane_z as int),
    ensures
        lex_sorted(final(points)@),
        forall|r: GridPoint|
            #![trigger final(points)@.contains(r)]
            #![trigger old(points)@.contains(r)]
            #![trigger edge_points(*p, *q, plane_z as int).contains(r)]
            final(points)@.contains(r) <==> (old(points)@.contains(r) || edge_points(
                *p,
                *q,
                plane_z as int,
            ).contains(r)),
{
    let dp = p.z - plane_z;
    let dq = q.z - plane_z;
    let ghost added = edge_points(*p, *q, plane_z as int);
    if dp > PLANE_EPSILON && dq < -PLANE_EPSILON {
        let hit = cross_edge(p, q, plane_z);
        assert(added[0] == hit);
        insert_point(points, hit);
    } else if dp < -PLANE_EPSILON && dq > PLANE_EPSILON {
        let hit = cross_edge(q, p, plane_z);
        assert(added[0] == hit);
        insert_point(points, hit);
    } else {
        let p_on = -PLANE_EPSILON <= dp && dp <= PLANE_EPSILON;
        let q_on = -PLANE_EPSILON <= dq && dq <= PLANE_EPSILON;
        if p_on {
            assert(added[0] == *p);
            insert_point(points, *p);
        }
        if q_on {
            assert(added[added.len() - 1] == *q);
            insert_point(points, *q);
        }
    }
}

/// Computes `crossing`.
fn cross_edge(high: &GridPoint, low: &GridPoint, plane_z: i64) -> (hit: GridPoint)
    requires
        high.in_range(),
        low.in_range(),
        above(*high, plane_z as int),
        below(*low, plane_z as int),
    ensures
        hit == crossing(*high, *low, plane_z as int),
        hit.in_range(),
{
    let dh = high.z - plane_z;
    let dl = plane_z - low.z;
    GridPoint {
        x: blend_coords(high.x, low.x, dh, dl),
        y: blend_coords(high.y, low.y, dh, dl),
        z: plane_z,
    }
}

/// Intersects a triangle with the horizontal plane at height `plane_z`.
///
/// A triangle with no corner below the plane, or with all corners below it,
/// gives no point; a corner on the plane counts with the side above.
/// Otherwise each edge whose ends lie on opposite sides gives the point at
/// which it passes through the plane, and each corner on the plane gives
/// itself. The points are returned in order, each once: there are at most
/// two of them.
pub fn intersect_triangle_with_plane(triangle: &GridTriangle, plane_z: i64) -> (points: Vec<
    GridPoint,
>)
    requires
        triangle.in_range(),
        coord_in_range(plane_z as int),
    ensures
        points@ == intersection_spec(*triangle, plane_z as int),
        !straddles(*triangle, plane_z as int) ==> points.len() == 0,
        points.len() <= 2,
        forall|i: int| 0 <= i < points.len() ==> (#[trigger] points[i]).in_range(),
{
    let mut points: Vec<GridPoint> = Vec::new();
    let da = triangle.a.z - plane_z;
    let db = triangle.b.z - plane_z;
    let dc = triangle.c.z - plane_z;
    let some_below = da < -PLANE_EPSILON || db < -PLANE_EPSILON || dc < -PLANE_EPSILON;
    let some_not_below = da >= -PLANE_EPSILON || db >= -PLANE_EPSILON || dc >= -PLANE_EPSILON;
    let ghost raw = raw_intersections(*triangle, plane_z as int);
    proof {
        lemma_ordered_distinct(raw);
    }
    if !(some_below && some_not_below) {
        proof {
            lemma_sorted_same_points(points@, intersection_spec(*triangle, plane_z as int));
        }
        return points;
    }
    add_edge_points(&mut points, &triangle.a, &triangle.b, plane_z);
    add_edge_points(&mut points, &triangle.b, &triangle.c, plane_z);
    add_edge_points(&mut points, &triangle.c, &triangle.a, plane_z);
    proof {
        broadcast use vstd::seq_lib::group_seq_properties;

        lemma_sorted_same_points(points@, intersection_spec(*triangle, plane_z as int));
        lemma_intersection_at_most_two(*triangle, plane_z as int);
        lemma_intersection_within(*triangle, plane_z as int);
    }
    points
}


/// `r` lies, seen from above, within the rectangle that the corners of `t`
/// span.
pub open spec fn within(t: GridTriangle, r: GridPoint) -> bool {
    &&& (t.a.x <= r.x || t.b.x <= r.x || t.c.x <= r.x)
    &&& (t.a.x >= r.x || t.b.x >= r.x || t.c.x >= r.x)
    &&& (t.a.y <= r.y || t.b.y <= r.y || t.c.y <= r.y)
    &&& (t.a.y >= r.y || t.b.y >= r.y || t.c.y >= r.y)
}

/// The crossing point of an edge lies between the ends of the edge.
proof fn lemma_crossing_between(high: GridPoint, low: GridPoint, plane_z: int)
    requires
        high.in_range(),
        low.in_range(),
        above(high, plane_z),
        below(low, plane_z),
    ensures
        crossing(high, low, plane_z).in_range(),
        high.x <= crossing(high, low, plane_z).x <= low.x || low.x <= crossing(
            high,
            low,
            plane_z,
        ).x <= high.x,
        high.y <= crossing(high, low, plane_z).y <= low.y || low.y <= crossing(
            high,
            low,
            plane_z,
        ).y <= high.y,
{
    lemma_blend_between(high.x as int, low.x as int, high.z - plane_z, plane_z - low.z);
    lemma_blend_between(high.y as int, low.y as int, high.z - plane_z, plane_z - low.z);
}

/// Every point of the intersection is within range and lies within the
/// rectangle of the triangle's corners.
#[verifier::rlimit(50)]
pub proof fn lemma_intersection_within(t: GridTriangle, plane_z: int)
    requires
        t.in_range(),
        coord_in_range(plane_z),
    ensures
        forall|i: int|
            0 <= i < intersection_spec(t, plane_z).len() ==> {
                &&& (#[trigger] intersection_spec(t, plane_z)[i]).in_range()
                &&& within(t, intersection_spec(t, plane_z)[i])
            },
{
    let raw = raw_intersections(t, plane_z);
    let points = intersection_spec(t, plane_z);
    lemma_ordered_distinct(raw);
    assert forall|i: int| 0 <= i < points.len() implies (#[trigger] points[i]).in_range()
        && within(t, points[i]) by {
        let r = points[i];
        assert(points.contains(r));
        assert(raw.contains(r));
        let k = choose|k: int| 0 <= k < raw.len() && raw[k] == r;
        let e1 = edge_points(t.a, t.b, plane_z);
        let e2 = edge_points(t.b, t.c, plane_z);
        let e3 = edge_points(t.c, t.a, plane_z);
        assert(raw == e1 + e2 + e3);
        if above(t.a, plane_z) && below(t.b, plane_z) {
            lemma_crossing_between(t.a, t.b, plane_z);
        }
        if above(t.b, plane_z) && below(t.a, plane_z) {
            lemma_crossing_between(t.b, t.a, plane_z);
        }
        if above(t.b, plane_z) && below(t.c, plane_z) {
            lemma_crossing_between(t.b, t.c, plane_z);
        }
        if above(t.c, plane_z) && below(t.b, plane_z) {
            lemma_crossing_between(t.c, t.b, plane_z);
        }
        if above(t.c, plane_z) && below(t.a, plane_z) {
            lemma_crossing_between(t.c, t.a, plane_z);
        }
        if above(t.a, plane_z) && below(t.c, plane_z) {
            lemma_crossing_between(t.a, t.c, plane_z);
        }
        if k < e1.len() {
            assert(r == e1[k]);
        } else if k < e1.len() + e2.len() {
            assert(r == e2[k - e1.len()]);
        } else {
            assert(r == e3[k - e1.len() - e2.len()]);
        }
    }
}

/// The segments cut from the triangles by one plane: of each triangle that
/// meets the plane in exactly two points, the segment between them, from the
/// first in order to the second.
pub open spec fn plane_segments(triangles: Seq<GridTriangle>, plane_z: int) -> Seq<Segment>
    decreases triangles.len(),
{
    if triangles.len() == 0 {
        Seq::empty()
    } else {
        let before = plane_segments(triangles.drop_last(), plane_z);
        let points = intersection_spec(triangles.last(), plane_z);
        if points.len() == 2 {
            before.push(Segment { start: points[0].flat(), end: points[1].flat() })
        } else {
            before
        }
    }
}

/// Every triangle is within range.
pub open spec fn all_in_range(triangles: Seq<GridTriangle>) -> bool {
    forall|i: int| 0 <= i < triangles.len() ==> (#[trigger] triangles[i]).in_range()
}

/// Computes `all_in_range`.
pub fn triangles_in_range(triangles: &Vec<GridTriangle>) -> (ok: bool)
    ensures
        ok == all_in_range(triangles@),
{
    let mut i: usize = 0;
    while i < triangles.len()
        invariant
            i <= triangles.len(),
            forall|k: int| 0 <= k < i ==> (#[trigger] triangles[k]).in_range(),
        decreases triangles.len() - i,
    {
        let t = &triangles[i];
        if !(point_in_range(&t.a) && point_in_range(&t.b) && point_in_range(&t.c)) {
            assert(!triangles[i as int].in_range());
            return false;
        }
        i += 1;
    }
    true
}

/// Computes whether a point is within range.
pub fn point_in_range(p: &GridPoint) -> (ok: bool)
    ensures
        ok == p.in_range(),
{
    -COORD_LIMIT <= p.x && p.x <= COORD_LIMIT && -COORD_LIMIT <= p.y && p.y <= COORD_LIMIT
        && -COORD_LIMIT <= p.z && p.z <= COORD_LIMIT
}

/// Collects the segments in which the triangles meet the plane at height
/// `plane_z`. A triangle that only touches the plane in one point gives no
/// segment.
pub fn collect_intersection_segments(triangles: &Vec<GridTriangle>, plane_z: i64) -> (segments:
    Vec<Segment>)
    requires
        all_in_range(triangles@),
        coord_in_range(plane_z as int),
    ensures
        segments@ == plane_segments(triangles@, plane_z as int),
        segments.len() <= triangles.len(),
{
    let mut segments: Vec<Segment> = Vec::new();
    let mut i: usize = 0;
    assert(triangles@.take(0) =~= Seq::<GridTriangle>::empty());
    while i < triangles.len()
        invariant
            i <= triangles.len(),
            all_in_range(triangles@),
            coord_in_range(plane_z as int),
            segments@ == plane_segments(triangles@.take(i as int), plane_z as int),
            segments.len() <= i,
        decreases triangles.len() - i,
    {
        let points = intersect_triangle_with_plane(&triangles[i], plane_z);
        if points.len() == 2 {
            segments.push(Segment { start: points[0].project(), end: points[1].project() });
        }
        proof {
            let now = triangles@.take(i + 1);
            assert(now.drop_last() =~= triangles@.take(i as int));
            assert(now.last() == triangles[i as int]);
        }
        i += 1;
    }
    assert(triangles@.take(triangles.len() as int) =~= triangles@);
    segments
}


/// Both ends of every segment cut by a plane are within range and lie, seen
/// from above, between the corners of one of the triangles.
pub proof fn lemma_segments_within(triangles: Seq<GridTriangle>, plane_z: int, k: int) -> (i: int)
    requires
        all_in_range(triangles),
        coord_in_range(plane_z),
        0 <= k < plane_segments(triangles, plane_z).len(),
    ensures
        0 <= i < triangles.len(),
        plane_segments(triangles, plane_z)[k].start.in_range(),
        plane_segments(triangles, plane_z)[k].end.in_range(),
        exists|r: GridPoint|
            within(triangles[i], r) && r.flat() == plane_segments(triangles, plane_z)[k].start,
        exists|r: GridPoint|
            within(triangles[i], r) && r.flat() == plane_segments(triangles, plane_z)[k].end,
    decreases triangles.len(),
{
    let front = triangles.drop_last();
    let before = plane_segments(front, plane_z);
    let points = intersection_spec(triangles.last(), plane_z);
    assert forall|j: int| 0 <= j < front.len() implies (#[trigger] front[j]).in_range() by {
        assert(front[j] == triangles[j]);
    }
    if k < before.len() {
        let i = lemma_segments_within(front, plane_z, k);
        assert(front[i] == triangles[i]);
        i
    } else {
        assert(triangles.last().in_range());
        lemma_intersection_within(triangles.last(), plane_z);
        assert(within(triangles.last(), points[0]) && points[0].in_range());
        assert(within(triangles.last(), points[1]) && points[1].in_range());
        triangles.len() - 1
    }
}

} // verus!
