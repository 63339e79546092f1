//! Contour assembly: stitching the segments cut from one plane into closed loops.
//!
//! The walk itself works on a graph of numbered nodes with one neighbour list
//! per node.

use vstd::prelude::*;
use std::collections::HashSet;
use crate::grid::{PlanePoint, Segment};
use crate::intern::{
    first_occurrences, lemma_first_occurrences, lemma_first_occurrences_push, KeyTable,
};

verus! {

/// What a traversal has consumed and produced so far.
pub struct Trace {
    /// The closed loops found, in the order in which they were completed.
    pub loops: Seq<Seq<usize>>,
    /// The directed edges already walked.
    pub visited: Set<(int, int)>,
}

/// The outcome of one walk.
pub struct Walk {
    /// The nodes stepped on, the start node first.
    pub path: Seq<usize>,
    /// The node at which the walk stopped.
    pub end: usize,
    /// The directed edges walked once the walk has stopped.
    pub visited: Set<(int, int)>,
}

/// The neighbour lists as a sequence of sequences.
pub open spec fn adj_view(adj: &Vec<Vec<usize>>) -> Seq<Seq<usize>> {
    Seq::new(adj@.len(), |i: int| adj@[i]@)
}

/// Every neighbour is a node of the graph.
pub open spec fn graph_wf(adj: Seq<Seq<usize>>) -> bool {
    forall|u: int, k: int|
        0 <= u < adj.len() && 0 <= k < adj[u].len() ==> (#[trigger] adj[u][k]) < adj.len()
}

/// Neither direction of the edge between `u` and `v` has been walked.
pub open spec fn edge_free(vis: Set<(int, int)>, u: int, v: int) -> bool {
    !vis.contains((u, v)) && !vis.contains((v, u))
}

/// Entry `k` of `row`, the neighbours of `cur`, may be stepped to: it is not
/// the node the walk just came from, and its edge is still free.
pub open spec fn hop_allowed(row: Seq<usize>, cur: int, prev: int, vis: Set<(int, int)>, k: int)
    -> bool
{
    row[k] != prev && edge_free(vis, cur, row[k] as int)
}

/// The first entry at or after `from` that may be stepped to, or the length of
/// `row` if there is none.
pub open spec fn next_hop(row: Seq<usize>, cur: int, prev: int, vis: Set<(int, int)>, from: int)
    -> int
    decreases row.len() - from,
{
    if from < 0 || from >= row.len() {
        row.len() as int
    } else if hop_allowed(row, cur, prev, vis, from) {
        from
    } else {
        next_hop(row, cur, prev, vis, from + 1)
    }
}

/// How many of the first `upto` entries of `row`, the neighbours of `u`, have
/// an edge from `u` that has not been walked.
pub open spec fn unwalked_in_row(row: Seq<usize>, u: int, vis: Set<(int, int)>, upto: int) -> nat
    decreases upto,
{
    if upto <= 0 {
        0
    } else {
        unwalked_in_row(row, u, vis, upto - 1) + if vis.contains((u, row[upto - 1] as int)) {
            0nat
        } else {
            1nat
        }
    }
}

/// How many entries in the neighbour lists of the first `upto` nodes have an
/// edge that has not been walked.
pub open spec fn unwalked(adj: Seq<Seq<usize>>, vis: Set<(int, int)>, upto: int) -> nat
    decreases upto,
{
    if upto <= 0 {
        0
    } else {
        unwalked(adj, vis, upto - 1) + unwalked_in_row(
            adj[upto - 1],
            upto - 1,
            vis,
            adj[upto - 1].len() as int,
        )
    }
}

/// Walks on from `cur`, having come along `path`. Each step takes the first
/// allowed neighbour and marks the edge as walked; the walk stops when it is
/// back at `start` or when no neighbour is allowed. Every step walks an edge
/// that was not walked before, so the walk ends.
pub open spec fn walk(
    adj: Seq<Seq<usize>>,
    start: usize,
    path: Seq<usize>,
    cur: usize,
    vis: Set<(int, int)>,
) -> Walk
    decreases unwalked(adj, vis, adj.len() as int),
    when cur < adj.len()
    via walk_ends
{
    let row = adj[cur as int];
    let k = next_hop(row, cur as int, path.last() as int, vis, 0);
    if k >= row.len() {
        Walk { path: path.push(cur), end: cur, visited: vis }
    } else {
        let vis1 = vis.insert((cur as int, row[k] as int));
        if row[k] == start {
            Walk { path: path.push(cur), end: start, visited: vis1 }
        } else {
            walk(adj, start, path.push(cur), row[k], vis1)
        }
    }
}

#[via_fn]
proof fn walk_ends(
    adj: Seq<Seq<usize>>,
    start: usize,
    path: Seq<usize>,
    cur: usize,
    vis: Set<(int, int)>,
) {
    let row = adj[cur as int];
    let k = next_hop(row, cur as int, path.last() as int, vis, 0);
    if k < row.len() {
        lemma_next_hop_allowed(row, cur as int, path.last() as int, vis, 0);
        lemma_unwalked_strict(adj, vis, cur as int, k, adj.len() as int);
    }
}

/// What the search returns is an allowed entry, or the length of the row.
pub proof fn lemma_next_hop_allowed(
    row: Seq<usize>,
    cur: int,
    prev: int,
    vis: Set<(int, int)>,
    from: int,
)
    requires
        0 <= from,
    ensures
        from <= next_hop(row, cur, prev, vis, from) || next_hop(row, cur, prev, vis, from)
            == row.len(),
        next_hop(row, cur, prev, vis, from) <= row.len(),
        next_hop(row, cur, prev, vis, from) < row.len() ==> hop_allowed(
            row,
            cur,
            prev,
            vis,
            next_hop(row, cur, prev, vis, from),
        ),
    decreases row.len() - from,
{
    if from < row.len() && !hop_allowed(row, cur, prev, vis, from) {
        lemma_next_hop_allowed(row, cur, prev, vis, from + 1);
    }
}

/// Walking one more edge leaves no more entries unwalked than before.
proof fn lemma_row_monotone(row: Seq<usize>, u: int, vis: Set<(int, int)>, e: (int, int), upto: int)
    ensures
        unwalked_in_row(row, u, vis.insert(e), upto) <= unwalked_in_row(row, u, vis, upto),
    decreases upto,
{
    if upto > 0 {
        lemma_row_monotone(row, u, vis, e, upto - 1);
    }
}

/// Walking the edge of an unwalked entry leaves fewer entries unwalked.
proof fn lemma_row_strict(row: Seq<usize>, u: int, vis: Set<(int, int)>, k: int, upto: int)
    requires
        0 <= k < upto,
        !vis.contains((u, row[k] as int)),
    ensures
        unwalked_in_row(row, u, vis.insert((u, row[k] as int)), upto) < unwalked_in_row(
            row,
            u,
            vis,
            upto,
        ),
    decreases upto,
{
    if k == upto - 1 {
        lemma_row_monotone(row, u, vis, (u, row[k] as int), upto - 1);
    } else {
        lemma_row_strict(row, u, vis, k, upto - 1);
    }
}

/// Walking one more edge leaves no more entries unwalked than before.
proof fn lemma_unwalked_monotone(adj: Seq<Seq<usize>>, vis: Set<(int, int)>, e: (int, int), upto: int)
    ensures
        unwalked(adj, vis.insert(e), upto) <= unwalked(adj, vis, upto),
    decreases upto,
{
    if upto > 0 {
        lemma_unwalked_monotone(adj, vis, e, upto - 1);
        lemma_row_monotone(adj[upto - 1], upto - 1, vis, e, adj[upto - 1].len() as int);
    }
}

/// Walking the edge of an unwalked entry leaves fewer entries unwalked.
proof fn lemma_unwalked_strict(adj: Seq<Seq<usize>>, vis: Set<(int, int)>, u: int, k: int, upto: int)
    requires
        0 <= u < upto,
        0 <= k < adj[u].len(),
        !vis.contains((u, adj[u][k] as int)),
    ensures
        unwalked(adj, vis.insert((u, adj[u][k] as int)), upto) < unwalked(adj, vis, upto),
    decreases upto,
{
    let e = (u, adj[u][k] as int);
    if u == upto - 1 {
        lemma_unwalked_monotone(adj, vis, e, upto - 1);
        lemma_row_strict(adj[u], u, vis, k, adj[u].len() as int);
    } else {
        lemma_unwalked_strict(adj, vis, u, k, upto - 1);
        lemma_row_monotone(adj[upto - 1], upto - 1, vis, e, adj[upto - 1].len() as int);
    }
}

/// A walk is kept when it came back to where it began and has at least three
/// nodes.
pub open spec fn walk_accepted(w: Walk, start: usize) -> bool {
    w.path.len() >= 3 && w.end == start
}

/// Tries the edge from `start` to its neighbour number `slot`.
pub open spec fn trace_slot(adj: Seq<Seq<usize>>, start: usize, slot: int, t: Trace) -> Trace
{
    let next = adj[start as int][slot];
    if !edge_free(t.visited, start as int, next as int) {
        t
    } else {
        let w = walk(
            adj,
            start,
            seq![start],
            next,
            t.visited.insert((start as int, next as int)),
        );
        Trace {
            loops: if walk_accepted(w, start) {
                t.loops.push(w.path)
            } else {
                t.loops
            },
            visited: w.visited,
        }
    }
}

/// Tries the first `upto` neighbours of `start`, in order.
pub open spec fn trace_slots(adj: Seq<Seq<usize>>, start: usize, upto: int, t: Trace) -> Trace
    decreases upto,
{
    if upto <= 0 {
        t
    } else {
        trace_slot(adj, start, upto - 1, trace_slots(adj, start, upto - 1, t))
    }
}

/// Tries every edge of the first `upto` nodes, in order.
pub open spec fn trace_nodes(adj: Seq<Seq<usize>>, upto: int) -> Trace
    decreases upto,
{
    if upto <= 0 {
        Trace { loops: Seq::empty(), visited: Set::empty() }
    } else {
        trace_slots(
            adj,
            (upto - 1) as usize,
            adj[upto - 1].len() as int,
            trace_nodes(adj, upto - 1),
        )
    }
}

/// The closed loops of the graph: from every node in turn, along every edge
/// not yet walked.
pub open spec fn trace_loops_spec(adj: Seq<Seq<usize>>) -> Seq<Seq<usize>> {
    trace_nodes(adj, adj.len() as int).loops
}

/// The loops as a sequence of sequences.
pub open spec fn loops_view(loops: &Vec<Vec<usize>>) -> Seq<Seq<usize>> {
    Seq::new(loops@.len(), |i: int| loops@[i]@)
}

/// The number under which the directed edge from `u` to `v` is remembered.
pub open spec fn edge_code(u: int, v: int) -> u128 {
    (u * 0x1_0000_0000_0000_0000 + v) as u128
}

/// `codes` holds exactly the edges of `vis`.
pub open spec fn visited_models(codes: Set<u128>, vis: Set<(int, int)>, n: int) -> bool {
    &&& forall|u: int, v: int|
        0 <= u < n && 0 <= v < n ==> (codes.contains(#[trigger] edge_code(u, v)) <==> vis.contains(
            (u, v),
        ))
}

fn encode_edge(u: usize, v: usize) -> (c: u128)
    ensures
        c == edge_code(u as int, v as int),
{
    (u as u128) * 0x1_0000_0000_0000_0000u128 + (v as u128)
}

/// Two edges with one code are one edge.
proof fn lemma_edge_code_injective(a: int, b: int, c: int, d: int)
    requires
        0 <= a <= usize::MAX,
        0 <= b <= usize::MAX,
        0 <= c <= usize::MAX,
        0 <= d <= usize::MAX,
        edge_code(a, b) == edge_code(c, d),
    ensures
        a == c,
        b == d,
{
}

/// If nothing before `k` is allowed, the search from the front arrives at `k`.
proof fn lemma_next_hop_from(
    row: Seq<usize>,
    cur: int,
    prev: int,
    vis: Set<(int, int)>,
    from: int,
    k: int,
)
    requires
        0 <= from <= k <= row.len(),
        forall|j: int| from <= j < k ==> !hop_allowed(row, cur, prev, vis, j),
    ensures
        next_hop(row, cur, prev, vis, from) == next_hop(row, cur, prev, vis, k),
    decreases k - from,
{
    if from < k {
        lemma_next_hop_from(row, cur, prev, vis, from + 1, k);
    }
}

fn edge_is_free(
    visited: &HashSet<u128>,
    u: usize,
    v: usize,
    Ghost(vis): Ghost<Set<(int, int)>>,
    Ghost(n): Ghost<int>,
) -> (free: bool)
    requires
        visited_models(visited@, vis, n),
        u < n,
        v < n,
    ensures
        free == edge_free(vis, u as int, v as int),
{
    let forward = encode_edge(u, v);
    let backward = encode_edge(v, u);
    !visited.contains(&forward) && !visited.contains(&backward)
}


/// Finds the first neighbour of `cur` that the walk may step to.
fn find_hop(
    adj: &Vec<Vec<usize>>,
    visited: &HashSet<u128>,
    cur: usize,
    prev: usize,
    Ghost(vis): Ghost<Set<(int, int)>>,
) -> (k: usize)
    requires
        graph_wf(adj_view(adj)),
        visited_models(visited@, vis, adj.len() as int),
        cur < adj.len(),
    ensures
        k == next_hop(adj_view(adj)[cur as int], cur as int, prev as int, vis, 0),
        k <= adj[cur as int].len(),
{
    let row = &adj[cur];
    let ghost r = adj_view(adj)[cur as int];
    let mut k: usize = 0;
    while k < row.len()
        invariant
            graph_wf(adj_view(adj)),
            visited_models(visited@, vis, adj.len() as int),
            cur < adj.len(),
            row@ == r,
            r == adj_view(adj)[cur as int],
            k <= row.len(),
            forall|j: int| 0 <= j < k ==> !hop_allowed(r, cur as int, prev as int, vis, j),
        decreases row.len() - k,
    {
        let cand = row[k];
        assert(cand == adj_view(adj)[cur as int][k as int]);
        if cand != prev && edge_is_free(visited, cur, cand, Ghost(vis), Ghost(adj.len() as int)) {
            proof {
                lemma_next_hop_from(r, cur as int, prev as int, vis, 0, k as int);
            }
            return k;
        }
        k += 1;
    }
    proof {
        lemma_next_hop_from(r, cur as int, prev as int, vis, 0, k as int);
    }
    k
}

/// Marks the edge from `u` to `v` as walked.
fn mark_edge(
    visited: &mut HashSet<u128>,
    u: usize,
    v: usize,
    Ghost(vis): Ghost<Set<(int, int)>>,
    Ghost(n): Ghost<int>,
)
    requires
        visited_models(old(visited)@, vis, n),
        u < n,
        v < n,
        n <= usize::MAX,
    ensures
        visited_models(final(visited)@, vis.insert((u as int, v as int)), n),
{
    let code = encode_edge(u, v);
    visited.insert(code);
    proof {
        assert forall|a: int, b: int| 0 <= a < n && 0 <= b < n implies (visited@.contains(
            #[trigger] edge_code(a, b),
        ) <==> vis.insert((u as int, v as int)).contains((a, b))) by {
            if edge_code(a, b) == edge_code(u as int, v as int) {
                lemma_edge_code_injective(a, b, u as int, v as int);
            }
        }
    }
}

/// Walks from `start` along its edge to `next` until the walk closes or
/// stops, and returns the path if it is a closed loop.
#[verifier::rlimit(50)]
fn walk_from(
    adj: &Vec<Vec<usize>>,
    visited: &mut HashSet<u128>,
    start: usize,
    next: usize,
    Ghost(vis): Ghost<Set<(int, int)>>,
) -> (out: (Option<Vec<usize>>, Ghost<Set<(int, int)>>))
    requires
        graph_wf(adj_view(adj)),
        visited_models(old(visited)@, vis, adj.len() as int),
        start < adj.len(),
        next < adj.len(),
    ensures
        ({
            let w = walk(adj_view(adj), start, seq![start], next, vis);
            &&& out.1@ == w.visited
            &&& visited_models(final(visited)@, w.visited, adj.len() as int)
            &&& walk_accepted(w, start) ==> out.0 is Some && out.0->0@ == w.path
            &&& !walk_accepted(w, start) ==> out.0 is None
            &&& out.0 is Some ==> forall|j: int|
                0 <= j < out.0->0.len() ==> (#[trigger] out.0->0[j]) < adj.len()
        }),
{
    let ghost graph = adj_view(adj);
    let ghost goal = walk(graph, start, seq![start], next, vis);
    let mut path: Vec<usize> = Vec::new();
    path.push(start);
    let mut cur = next;
    let ghost mut seen = vis;
    let mut end: Option<usize> = None;
    while end.is_none()
        invariant
            graph == adj_view(adj),
            graph_wf(graph),
            visited_models(visited@, seen, adj.len() as int),
            start < adj.len(),
            cur < adj.len(),
            path.len() >= 1,
            forall|j: int| 0 <= j < path.len() ==> (#[trigger] path[j]) < adj.len(),
            end is None ==> goal == walk(graph, start, path@, cur, seen),
            end is Some ==> goal == (Walk { path: path@, end: end->0, visited: seen }),
        decreases (if end is None { 1int } else { 0int }), unwalked(graph, seen, graph.len() as int),
    {
        let prev = path[path.len() - 1];
        let k = find_hop(adj, visited, cur, prev, Ghost(seen));
        assert(prev == path@.last());
        path.push(cur);
        if k >= adj[cur].len() {
            end = Some(cur);
        } else {
            let hop = adj[cur][k];
            assert(hop == graph[cur as int][k as int]);
            proof {
                lemma_next_hop_allowed(graph[cur as int], cur as int, prev as int, seen, 0);
                lemma_unwalked_strict(graph, seen, cur as int, k as int, graph.len() as int);
            }
            mark_edge(visited, cur, hop, Ghost(seen), Ghost(adj.len() as int));
            proof {
                seen = seen.insert((cur as int, hop as int));
            }
            if hop == start {
                end = Some(start);
            } else {
                cur = hop;
            }
        }
    }
    let stop = end.unwrap();
    if path.len() >= 3 && stop == start {
        (Some(path), Ghost(seen))
    } else {
        (None, Ghost(seen))
    }
}

/// Finds the closed loops of a graph given by its neighbour lists.
///
/// Nodes are taken in order and, from each, its edges in order. An edge
/// not yet walked in either direction starts a walk, which at every node
/// leaves by the first edge that is still free and does not lead straight
/// back. A walk that returns to its first node with at least three nodes is
/// a loop; any other is dropped.
#[verifier::rlimit(50)]
pub fn trace_loops(adj: &Vec<Vec<usize>>) -> (loops: Vec<Vec<usize>>)
    requires
        graph_wf(adj_view(adj)),
    ensures
        loops_view(&loops) == trace_loops_spec(adj_view(adj)),
        forall|i: int, j: int|
            0 <= i < loops.len() && 0 <= j < loops[i].len() ==> (#[trigger] loops[i][j])
                < adj.len(),
{
    let ghost graph = adj_view(adj);
    let n = adj.len();
    let mut visited: HashSet<u128> = HashSet::new();
    let ghost mut seen: Set<(int, int)> = Set::empty();
    let mut loops: Vec<Vec<usize>> = Vec::new();
    let mut start: usize = 0;
    assert(loops_view(&loops) =~= Seq::<Seq<usize>>::empty());
    while start < n
        invariant
            graph == adj_view(adj),
            graph_wf(graph),
            n == adj.len(),
            start <= n,
            forall|i: int, j: int|
                0 <= i < loops.len() && 0 <= j < loops[i].len() ==> (#[trigger] loops[i][j]) < n,
            visited_models(visited@, seen, n as int),
            loops_view(&loops) == trace_nodes(graph, start as int).loops,
            seen == trace_nodes(graph, start as int).visited,
        decreases n - start,
    {
        let degree = adj[start].len();
        let ghost before = trace_nodes(graph, start as int);
        let mut slot: usize = 0;
        while slot < degree
            invariant
                graph == adj_view(adj),
                graph_wf(graph),
                n == adj.len(),
                start < n,
                degree == adj[start as int].len(),
                slot <= degree,
                forall|i: int, j: int|
                    0 <= i < loops.len() && 0 <= j < loops[i].len() ==> (#[trigger] loops[i][j])
                        < n,
                visited_models(visited@, seen, n as int),
                loops_view(&loops) == trace_slots(graph, start, slot as int, before).loops,
                seen == trace_slots(graph, start, slot as int, before).visited,
            decreases degree - slot,
        {
            let next = adj[start][slot];
            assert(next == graph[start as int][slot as int]);
            let ghost t = trace_slots(graph, start, slot as int, before);
            if edge_is_free(&visited, start, next, Ghost(seen), Ghost(n as int)) {
                mark_edge(&mut visited, start, next, Ghost(seen), Ghost(n as int));
                let ghost marked = seen.insert((start as int, next as int));
                let (found, after) = walk_from(adj, &mut visited, start, next, Ghost(marked));
                proof {
                    seen = after@;
                }
                match found {
                    Some(path) => {
                        let ghost old_loops = loops_view(&loops);
                        loops.push(path);
                        assert(loops_view(&loops) =~= old_loops.push(path@));
                    },
                    None => {},
                }
            }
            assert(trace_slots(graph, start, slot + 1, before) == trace_slot(
                graph,
                start,
                slot as int,
                t,
            ));
            slot += 1;
        }
        assert(trace_nodes(graph, start + 1) == trace_slots(
            graph,
            start,
            graph[start as int].len() as int,
            before,
        ));
        start += 1;
    }
    loops
}

/// The keys of all segment ends: of each segment in turn, its start and then
/// its end.
pub open spec fn endpoint_keys(segments: Seq<Segment>) -> Seq<u128>
    decreases segments.len(),
{
    if segments.len() == 0 {
        Seq::empty()
    } else {
        endpoint_keys(segments.drop_last()).push(segments.last().start.key()).push(
            segments.last().end.key(),
        )
    }
}

/// The nodes of the outline graph: the distinct segment ends, in the order in
/// which they first appear.
pub open spec fn node_keys(segments: Seq<Segment>) -> Seq<u128> {
    first_occurrences(endpoint_keys(segments))
}

/// The point that a key stands for.
pub open spec fn point_of_key(key: u128) -> PlanePoint {
    PlanePoint {
        x: (key / 0x1_0000_0000_0000_0000 - 0x8000_0000_0000_0000) as i64,
        y: (key % 0x1_0000_0000_0000_0000 - 0x8000_0000_0000_0000) as i64,
    }
}

/// The neighbour lists of the outline graph: each segment, in turn, makes its
/// end a neighbour of its start and its start a neighbour of its end.
pub open spec fn links(nodes: Seq<u128>, segments: Seq<Segment>) -> Seq<Seq<usize>>
    decreases segments.len(),
{
    if segments.len() == 0 {
        Seq::new(nodes.len(), |i: int| Seq::<usize>::empty())
    } else {
        let before = links(nodes, segments.drop_last());
        let a = nodes.index_of(segments.last().start.key());
        let b = nodes.index_of(segments.last().end.key());
        let half = before.update(a, before[a].push(b as usize));
        half.update(b, half[b].push(a as usize))
    }
}

/// The loops of node numbers as loops of points.
pub open spec fn loops_as_points(nodes: Seq<u128>, loops: Seq<Seq<usize>>) -> Seq<Seq<PlanePoint>> {
    Seq::new(
        loops.len(),
        |i: int| Seq::new(loops[i].len(), |j: int| point_of_key(nodes[loops[i][j] as int])),
    )
}

/// The closed polygons that the segments of one plane form.
///
/// Segment ends with equal coordinates are one node. Nodes are visited in
/// the order of their first appearance, and the segments at a node in the
/// order in which they were given.
pub open spec fn assemble_spec(segments: Seq<Segment>) -> Seq<Seq<PlanePoint>> {
    let nodes = node_keys(segments);
    loops_as_points(
        nodes,
        trace_loops_spec(links(nodes, segments)),
    )
}

/// The polygons as a sequence of sequences.
pub open spec fn polygons_view(polygons: &Vec<Vec<PlanePoint>>) -> Seq<Seq<PlanePoint>> {
    Seq::new(polygons@.len(), |i: int| polygons@[i]@)
}

/// In a sequence without repetitions, an item is found where it stands.
proof fn lemma_index_of_unique(nodes: Seq<u128>, id: int)
    requires
        nodes.no_duplicates(),
        0 <= id < nodes.len(),
    ensures
        nodes.index_of(nodes[id]) == id,
{
    let found = nodes.index_of(nodes[id]);
    assert(0 <= found < nodes.len() && nodes[found] == nodes[id]);
}

/// The key of a point leads back to the point.
proof fn lemma_point_of_key(p: PlanePoint)
    ensures
        point_of_key(p.key()) == p,
{
}

/// Numbers the ends of the segments: returns the table of distinct ends, the
/// point of each, and for each segment the numbers of its two ends.
#[verifier::rlimit(50)]
fn number_endpoints(segments: &Vec<Segment>) -> (out: (
    KeyTable,
    Vec<PlanePoint>,
    Vec<(usize, usize)>,
))
    ensures
        out.0.wf(),
        out.0@ == node_keys(segments@),
        out.1.len() == out.0@.len(),
        forall|j: int| 0 <= j < out.1.len() ==> (#[trigger] out.1[j]).key() == out.0@[j],
        out.2.len() == segments.len(),
        forall|j: int|
            0 <= j < segments.len() ==> {
                &&& (#[trigger] out.2[j]).0 == out.0@.index_of(segments[j].start.key())
                &&& out.2[j].1 == out.0@.index_of(segments[j].end.key())
                &&& out.2[j].0 < out.0@.len()
                &&& out.2[j].1 < out.0@.len()
            },
{
    let mut table = KeyTable::new();
    let mut points: Vec<PlanePoint> = Vec::new();
    let mut ends: Vec<(usize, usize)> = Vec::new();
    let mut i: usize = 0;
    assert(segments@.take(0) =~= Seq::<Segment>::empty());
    while i < segments.len()
        invariant
            i <= segments.len(),
            table.wf(),
            table@ == node_keys(segments@.take(i as int)),
            points.len() == table@.len(),
            forall|j: int| 0 <= j < points.len() ==> (#[trigger] points[j]).key() == table@[j],
            ends.len() == i,
            forall|j: int|
                0 <= j < i ==> {
                    &&& (#[trigger] ends[j]).0 < table@.len()
                    &&& ends[j].1 < table@.len()
                    &&& table@[ends[j].0 as int] == segments[j].start.key()
                    &&& table@[ends[j].1 as int] == segments[j].end.key()
                },
        decreases segments.len() - i,
    {
        let seg = segments[i];
        let ghost keys_before = endpoint_keys(segments@.take(i as int));
        let a = table.intern(seg.start.lookup_key());
        if a == points.len() {
            points.push(seg.start);
        }
        let b = table.intern(seg.end.lookup_key());
        if b == points.len() {
            points.push(seg.end);
        }
        ends.push((a, b));
        proof {
            let now = segments@.take(i + 1);
            assert(now.drop_last() =~= segments@.take(i as int));
            assert(now.last() == seg);
            lemma_first_occurrences_push(keys_before, seg.start.key());
            lemma_first_occurrences_push(keys_before.push(seg.start.key()), seg.end.key());
        }
        i += 1;
    }
    proof {
        assert(segments@.take(segments.len() as int) =~= segments@);
        table.lemma_distinct();
        assert forall|j: int| 0 <= j < segments.len() implies {
            &&& (#[trigger] ends[j]).0 == table@.index_of(segments[j].start.key())
            &&& ends[j].1 == table@.index_of(segments[j].end.key())
        } by {
            lemma_index_of_unique(table@, ends[j].0 as int);
            lemma_index_of_unique(table@, ends[j].1 as int);
        }
    }
    (table, points, ends)
}

/// Builds the neighbour lists from the numbered segment ends.
#[verifier::rlimit(50)]
fn build_links(
    n: usize,
    ends: &Vec<(usize, usize)>,
    Ghost(nodes): Ghost<Seq<u128>>,
    Ghost(segments): Ghost<Seq<Segment>>,
) -> (adj: Vec<Vec<usize>>)
    requires
        n == nodes.len(),
        ends.len() == segments.len(),
        forall|j: int|
            0 <= j < segments.len() ==> {
                &&& (#[trigger] ends[j]).0 == nodes.index_of(segments[j].start.key())
                &&& ends[j].1 == nodes.index_of(segments[j].end.key())
                &&& ends[j].0 < n
                &&& ends[j].1 < n
            },
    ensures
        adj_view(&adj) == links(nodes, segments),
        graph_wf(adj_view(&adj)),
        adj.len() == n,
{
    let mut adj: Vec<Vec<usize>> = Vec::new();
    let mut r: usize = 0;
    while r < n
        invariant
            r <= n,
            adj.len() == r,
            forall|j: int| 0 <= j < r ==> (#[trigger] adj[j])@ == Seq::<usize>::empty(),
        decreases n - r,
    {
        adj.push(Vec::new());
        r += 1;
    }
    assert(segments.take(0) =~= Seq::<Segment>::empty());
    assert(adj_view(&adj) =~= links(nodes, segments.take(0)));
    let mut i: usize = 0;
    while i < ends.len()
        invariant
            i <= ends.len(),
            n == nodes.len(),
            adj.len() == n,
            ends.len() == segments.len(),
            forall|j: int|
                0 <= j < segments.len() ==> {
                    &&& (#[trigger] ends[j]).0 == nodes.index_of(segments[j].start.key())
                    &&& ends[j].1 == nodes.index_of(segments[j].end.key())
                    &&& ends[j].0 < n
                    &&& ends[j].1 < n
                },
            adj_view(&adj) == links(nodes, segments.take(i as int)),
            graph_wf(adj_view(&adj)),
        decreases ends.len() - i,
    {
        let (a, b) = ends[i];
        let ghost before = adj_view(&adj);
        adj[a].push(b);
        let ghost half = adj_view(&adj);
        adj[b].push(a);
        proof {
            let now = segments.take(i + 1);
            assert(now.drop_last() =~= segments.take(i as int));
            assert(now.last() == segments[i as int]);
            assert(half =~= before.update(a as int, before[a as int].push(b)));
            assert(adj_view(&adj) =~= half.update(b as int, half[b as int].push(a)));
            assert(graph_wf(adj_view(&adj))) by {
                assert forall|u: int, k: int|
                    0 <= u < adj_view(&adj).len() && 0 <= k < adj_view(&adj)[u].len() implies (
                #[trigger] adj_view(&adj)[u][k]) < adj_view(&adj).len() by {
                    if u == b && k == adj_view(&adj)[u].len() - 1 {
                    } else if u == b {
                        assert(adj_view(&adj)[u][k] == half[u][k]);
                        if u == a && k == half[u].len() - 1 {
                        } else {
                            assert(half[u][k] == before[u][k]);
                        }
                    } else if u == a && k == half[u].len() - 1 {
                        assert(adj_view(&adj)[u][k] == half[u][k]);
                    } else {
                        assert(adj_view(&adj)[u][k] == before[u][k]);
                    }
                }
            }
        }
        i += 1;
    }
    assert(segments.take(segments.len() as int) =~= segments);
    adj
}

/// Stitches the segments cut from one plane into closed polygons.
///
/// Each polygon has at least three corners, none repeated at its end: the
/// last corner is joined to the first. Chains that do not close are dropped.
///
/// Where more than two segment ends meet at one point, the walk leaves by
/// the first segment that is still free, so the order of the segments decides
/// how the outlines are stitched there, and a segment walked for one polygon
/// is lost to its neighbour. `count_branching_nodes` tells how many such
/// points there are.
pub fn assemble_polygons(segments: &Vec<Segment>) -> (polygons: Vec<Vec<PlanePoint>>)
    ensures
        polygons_view(&polygons) == assemble_spec(segments@),
        forall|i: int|
            0 <= i < polygons.len() ==> is_closed_loop(segments@, (#[trigger] polygons[i])@),
{
    let (table, points, ends) = number_endpoints(segments);
    let ghost nodes = table@;
    let adj = build_links(table.len(), &ends, Ghost(nodes), Ghost(segments@));
    let loops = trace_loops(&adj);
    let ghost traced = loops_view(&loops);
    let mut polygons: Vec<Vec<PlanePoint>> = Vec::new();
    let mut i: usize = 0;
    while i < loops.len()
        invariant
            i <= loops.len(),
            polygons.len() == i,
            nodes == table@,
            traced == loops_view(&loops),
            points.len() == nodes.len(),
            forall|j: int| 0 <= j < points.len() ==> (#[trigger] points[j]).key() == nodes[j],
            forall|a: int, b: int|
                0 <= a < loops.len() && 0 <= b < loops[a].len() ==> (#[trigger] loops[a][b])
                    < points.len(),
            forall|j: int|
                0 <= j < i ==> (#[trigger] polygons[j])@ == loops_as_points(nodes, traced)[j],
        decreases loops.len() - i,
    {
        let ids = &loops[i];
        let mut polygon: Vec<PlanePoint> = Vec::new();
        let mut j: usize = 0;
        while j < ids.len()
            invariant
                j <= ids.len(),
                polygon.len() == j,
                points.len() == nodes.len(),
                forall|k: int| 0 <= k < points.len() ==> (#[trigger] points[k]).key() == nodes[k],
                forall|k: int| 0 <= k < ids.len() ==> (#[trigger] ids[k]) < points.len(),
                forall|k: int|
                    0 <= k < j ==> #[trigger] polygon[k] == point_of_key(nodes[ids[k] as int]),
            decreases ids.len() - j,
        {
            let p = points[ids[j]];
            proof {
                lemma_point_of_key(p);
            }
            polygon.push(p);
            j += 1;
        }
        assert(polygon@ =~= loops_as_points(nodes, traced)[i as int]);
        polygons.push(polygon);
        i += 1;
    }
    assert(polygons_view(&polygons) =~= loops_as_points(nodes, traced));
    proof {
        lemma_polygons_are_closed_loops(segments@);
        assert forall|i: int| 0 <= i < polygons.len() implies is_closed_loop(
            segments@,
            (#[trigger] polygons[i])@,
        ) by {
            assert(polygons[i]@ == assemble_spec(segments@)[i]);
        }
    }
    polygons
}


/// `v` stands in the neighbour list of `u`.
pub open spec fn linked(adj: Seq<Seq<usize>>, u: usize, v: usize) -> bool {
    u < adj.len() && adj[u as int].contains(v)
}

/// Each node of `path` is a neighbour of the node before it.
pub open spec fn is_chain(adj: Seq<Seq<usize>>, path: Seq<usize>) -> bool {
    forall|i: int| 0 <= i < path.len() - 1 ==> linked(adj, #[trigger] path[i], path[i + 1])
}

/// `path` is a chain of at least three nodes whose first node is a neighbour
/// of its last.
pub open spec fn is_cycle(adj: Seq<Seq<usize>>, path: Seq<usize>) -> bool {
    &&& path.len() >= 3
    &&& is_chain(adj, path)
    &&& linked(adj, path.last(), path[0])
}

/// A walk that is kept is a cycle of the graph.
proof fn lemma_walk_cycle(
    adj: Seq<Seq<usize>>,
    start: usize,
    path: Seq<usize>,
    cur: usize,
    vis: Set<(int, int)>,
)
    requires
        cur < adj.len(),
        path.len() >= 1,
        path[0] == start,
        is_chain(adj, path),
        linked(adj, path.last(), cur),
        cur != start || path.len() == 1,
        graph_wf(adj),
    ensures
        walk_accepted(walk(adj, start, path, cur, vis), start) ==> is_cycle(
            adj,
            walk(adj, start, path, cur, vis).path,
        ),
    decreases unwalked(adj, vis, adj.len() as int),
{
    let row = adj[cur as int];
    let k = next_hop(row, cur as int, path.last() as int, vis, 0);
    let longer = path.push(cur);
    lemma_next_hop_allowed(row, cur as int, path.last() as int, vis, 0);
    assert(is_chain(adj, longer)) by {
        assert forall|i: int| 0 <= i < longer.len() - 1 implies linked(
            adj,
            #[trigger] longer[i],
            longer[i + 1],
        ) by {
            if i < path.len() - 1 {
                assert(linked(adj, path[i], path[i + 1]));
            }
        }
    }
    if k < row.len() {
        assert(row.contains(row[k]));
        if row[k] != start {
            lemma_unwalked_strict(adj, vis, cur as int, k, adj.len() as int);
            lemma_walk_cycle(adj, start, longer, row[k], vis.insert((cur as int, row[k] as int)));
        }
    }
}

/// Every loop found from one edge on is a cycle, if those found before are.
proof fn lemma_trace_slot_cycles(adj: Seq<Seq<usize>>, start: usize, slot: int, t: Trace)
    requires
        graph_wf(adj),
        start < adj.len(),
        0 <= slot < adj[start as int].len(),
        forall|i: int| 0 <= i < t.loops.len() ==> is_cycle(adj, #[trigger] t.loops[i]),
    ensures
        forall|i: int|
            0 <= i < trace_slot(adj, start, slot, t).loops.len() ==> is_cycle(
                adj,
                #[trigger] trace_slot(adj, start, slot, t).loops[i],
            ),
{
    let next = adj[start as int][slot];
    if edge_free(t.visited, start as int, next as int) {
        assert(adj[start as int].contains(next));
        assert(is_chain(adj, seq![start]));
        lemma_walk_cycle(
            adj,
            start,
            seq![start],
            next,
            t.visited.insert((start as int, next as int)),
        );
    }
}

/// Every loop found from the first edges of a node is a cycle, if those found
/// before are.
proof fn lemma_trace_slots_cycles(adj: Seq<Seq<usize>>, start: usize, upto: int, t: Trace)
    requires
        graph_wf(adj),
        start < adj.len(),
        upto <= adj[start as int].len(),
        forall|i: int| 0 <= i < t.loops.len() ==> is_cycle(adj, #[trigger] t.loops[i]),
    ensures
        forall|i: int|
            0 <= i < trace_slots(adj, start, upto, t).loops.len() ==> is_cycle(
                adj,
                #[trigger] trace_slots(adj, start, upto, t).loops[i],
            ),
    decreases upto,
{
    if upto > 0 {
        lemma_trace_slots_cycles(adj, start, upto - 1, t);
        lemma_trace_slot_cycles(adj, start, upto - 1, trace_slots(adj, start, upto - 1, t));
    }
}

/// Every loop found from the first nodes is a cycle.
proof fn lemma_trace_nodes_cycles(adj: Seq<Seq<usize>>, upto: int)
    requires
        graph_wf(adj),
        upto <= adj.len() <= usize::MAX,
    ensures
        forall|i: int|
            0 <= i < trace_nodes(adj, upto).loops.len() ==> is_cycle(
                adj,
                #[trigger] trace_nodes(adj, upto).loops[i],
            ),
    decreases upto,
{
    if upto > 0 {
        lemma_trace_nodes_cycles(adj, upto - 1);
        lemma_trace_slots_cycles(
            adj,
            (upto - 1) as usize,
            adj[upto - 1].len() as int,
            trace_nodes(adj, upto - 1),
        );
    }
}

/// Every loop that the traversal returns is a cycle of the graph.
pub proof fn lemma_traced_loops_are_cycles(adj: Seq<Seq<usize>>)
    requires
        graph_wf(adj),
        adj.len() <= usize::MAX,
    ensures
        forall|i: int|
            0 <= i < trace_loops_spec(adj).len() ==> is_cycle(
                adj,
                #[trigger] trace_loops_spec(adj)[i],
            ),
{
    lemma_trace_nodes_cycles(adj, adj.len() as int);
}

/// Some segment has its ends at `p` and `q`.
pub open spec fn joined(segments: Seq<Segment>, p: PlanePoint, q: PlanePoint) -> bool {
    exists|k: int|
        0 <= k < segments.len() && ((#[trigger] segments[k]).start == p && segments[k].end == q
            || segments[k].start == q && segments[k].end == p)
}

/// `polygon` has at least three corners, each joined to the next by a
/// segment, and the last joined to the first.
pub open spec fn is_closed_loop(segments: Seq<Segment>, polygon: Seq<PlanePoint>) -> bool {
    &&& polygon.len() >= 3
    &&& forall|i: int|
        0 <= i < polygon.len() - 1 ==> joined(segments, #[trigger] polygon[i], polygon[i + 1])
    &&& joined(segments, polygon.last(), polygon[0])
}

/// The keys of a segment's ends are among the keys of all ends.
proof fn lemma_endpoint_keys_hold(segments: Seq<Segment>, k: int)
    requires
        0 <= k < segments.len(),
    ensures
        endpoint_keys(segments).contains(segments[k].start.key()),
        endpoint_keys(segments).contains(segments[k].end.key()),
    decreases segments.len(),
{
    broadcast use vstd::seq_lib::group_seq_properties;

    if k < segments.len() - 1 {
        lemma_endpoint_keys_hold(segments.drop_last(), k);
    }
}

/// The neighbour lists come from the segments: there is one list per node,
/// and a node's neighbour is the other end of a segment that ends at the
/// node.
#[verifier::rlimit(50)]
proof fn lemma_links_from_segments(nodes: Seq<u128>, segments: Seq<Segment>)
    requires
        nodes.no_duplicates(),
        nodes.len() <= usize::MAX,
        forall|k: int|
            0 <= k < segments.len() ==> nodes.contains((#[trigger] segments[k]).start.key())
                && nodes.contains(segments[k].end.key()),
    ensures
        links(nodes, segments).len() == nodes.len(),
        graph_wf(links(nodes, segments)),
        forall|u: usize, v: usize|
            linked(links(nodes, segments), u, v) ==> v < nodes.len() && joined(
                segments,
                point_of_key(nodes[u as int]),
                point_of_key(nodes[v as int]),
            ),
    decreases segments.len(),
{
    broadcast use vstd::seq_lib::group_seq_properties;

    if segments.len() > 0 {
        let front = segments.drop_last();
        let seg = segments.last();
        assert forall|k: int| 0 <= k < front.len() implies nodes.contains(
            (#[trigger] front[k]).start.key(),
        ) && nodes.contains(front[k].end.key()) by {
            assert(front[k] == segments[k]);
        }
        lemma_links_from_segments(nodes, front);
        let before = links(nodes, front);
        assert(nodes.contains(seg.start.key()) && nodes.contains(seg.end.key())) by {
            assert(segments[segments.len() - 1] == seg);
        }
        let a = nodes.index_of(seg.start.key());
        let b = nodes.index_of(seg.end.key());
        assert(0 <= a < nodes.len() && nodes[a] == seg.start.key());
        assert(0 <= b < nodes.len() && nodes[b] == seg.end.key());
        lemma_point_of_key(seg.start);
        lemma_point_of_key(seg.end);
        let half = before.update(a, before[a].push(b as usize));
        let after = half.update(b, half[b].push(a as usize));
        assert(after == links(nodes, segments));
        assert forall|u: usize, v: usize| linked(after, u, v) implies v < nodes.len() && joined(
            segments,
            point_of_key(nodes[u as int]),
            point_of_key(nodes[v as int]),
        ) by {
            if linked(before, u, v) {
                let k = choose|k: int|
                    0 <= k < front.len() && ((#[trigger] front[k]).start == point_of_key(
                        nodes[u as int],
                    ) && front[k].end == point_of_key(nodes[v as int]) || front[k].start
                        == point_of_key(nodes[v as int]) && front[k].end == point_of_key(
                        nodes[u as int],
                    ));
                assert(segments[k] == front[k]);
            } else {
                assert(segments[segments.len() - 1] == seg);
                if u == b {
                    assert(after[u as int] == half[b].push(a as usize));
                    if v != a {
                        assert(half[b].contains(v));
                        assert(u == a && v == b);
                    }
                } else {
                    assert(after[u as int] == half[u as int]);
                    assert(u == a && v == b);
                }
            }
        }
        assert(graph_wf(after)) by {
            assert forall|u: int, k: int|
                0 <= u < after.len() && 0 <= k < after[u].len() implies (#[trigger] after[u][k])
                < after.len() by {
                assert(after[u].contains(after[u][k]));
                assert(linked(after, u as usize, after[u][k]));
            }
        }
    } else {
        assert(graph_wf(links(nodes, segments)));
    }
}

/// Every polygon that the assembler returns is closed: it has at least three
/// corners, consecutive corners are the two ends of one of the segments
/// given, and so are the last corner and the first.
pub proof fn lemma_polygons_are_closed_loops(segments: Seq<Segment>)
    requires
        node_keys(segments).len() <= usize::MAX,
    ensures
        forall|i: int|
            0 <= i < assemble_spec(segments).len() ==> is_closed_loop(
                segments,
                #[trigger] assemble_spec(segments)[i],
            ),
{
    let nodes = node_keys(segments);
    let adj = links(nodes, segments);
    let loops = trace_loops_spec(adj);
    lemma_first_occurrences(endpoint_keys(segments));
    assert forall|k: int| 0 <= k < segments.len() implies nodes.contains(
        (#[trigger] segments[k]).start.key(),
    ) && nodes.contains(segments[k].end.key()) by {
        lemma_endpoint_keys_hold(segments, k);
    }
    lemma_links_from_segments(nodes, segments);
    lemma_traced_loops_are_cycles(adj);
    assert forall|i: int| 0 <= i < assemble_spec(segments).len() implies is_closed_loop(
        segments,
        #[trigger] assemble_spec(segments)[i],
    ) by {
        let polygon = assemble_spec(segments)[i];
        let cycle = loops[i];
        assert(is_cycle(adj, cycle));
        assert forall|j: int| 0 <= j < polygon.len() - 1 implies joined(
            segments,
            #[trigger] polygon[j],
            polygon[j + 1],
        ) by {
            assert(linked(adj, cycle[j], cycle[j + 1]));
        }
        assert(linked(adj, cycle.last(), cycle[0]));
    }
}


/// How many of the first `upto` nodes have more than two neighbours.
pub open spec fn branching_count(adj: Seq<Seq<usize>>, upto: int) -> nat
    decreases upto,
{
    if upto <= 0 {
        0
    } else {
        branching_count(adj, upto - 1) + if adj[upto - 1].len() > 2 {
            1nat
        } else {
            0nat
        }
    }
}

/// The number of points at which more than two segment ends meet. At such
/// a point the walk takes the first free segment, which need not be the one
/// that bounds the same region: a count above zero tells that the polygons
/// may be stitched otherwise than the outline runs.
pub fn count_branching_nodes(segments: &Vec<Segment>) -> (count: usize)
    ensures
        count == branching_count(
            links(node_keys(segments@), segments@),
            node_keys(segments@).len() as int,
        ),
{
    let (table, _points, ends) = number_endpoints(segments);
    let adj = build_links(table.len(), &ends, Ghost(table@), Ghost(segments@));
    let mut count: usize = 0;
    let mut u: usize = 0;
    while u < adj.len()
        invariant
            u <= adj.len(),
            count <= u,
            count == branching_count(adj_view(&adj), u as int),
        decreases adj.len() - u,
    {
        if adj[u].len() > 2 {
            count += 1;
        }
        u += 1;
    }
    count
}

/// `p` is an end of one of the segments.
pub open spec fn is_segment_end(segments: Seq<Segment>, p: PlanePoint) -> bool {
    exists|k: int|
        0 <= k < segments.len() && ((#[trigger] segments[k]).start == p || segments[k].end == p)
}

/// Every corner of a closed loop is an end of one of the segments.
pub proof fn lemma_corners_are_segment_ends(segments: Seq<Segment>, polygon: Seq<PlanePoint>)
    requires
        is_closed_loop(segments, polygon),
    ensures
        forall|j: int| 0 <= j < polygon.len() ==> is_segment_end(segments, #[trigger] polygon[j]),
{
    assert forall|j: int| 0 <= j < polygon.len() implies is_segment_end(
        segments,
        #[trigger] polygon[j],
    ) by {
        if j < polygon.len() - 1 {
            assert(joined(segments, polygon[j], polygon[j + 1]));
        } else {
            assert(joined(segments, polygon.last(), polygon[0]));
        }
    }
}

/// No segments, no polygons.
pub proof fn lemma_assemble_nothing()
    ensures
        assemble_spec(Seq::<Segment>::empty()).len() == 0,
{
    let none = Seq::<Segment>::empty();
    assert(node_keys(none).len() == 0);
    assert(links(node_keys(none), none).len() == 0);
}

} // verus!
