//! Authored waypoint routing.
//!
//! With analytic walls, straight-line steering to a goal deadlocks in the
//! corner beside a doorway, so agents need a global route. A route exposes one
//! operation: given my position, what is the next steering target.
//!
//! The graph is generic over the point type it connects; distances are
//! measured by the point type itself.

use vstd::prelude::*;
use vstd::slice::slice_subrange;

verus! {

/// A handle to a route stored in a `RouteArena`.
#[derive(Clone, Copy, Debug, PartialEq, Eq, Structural)]
pub struct RouteHandle(pub u32);

/// The index that no route carries.
pub const NO_ROUTE_INDEX: u32 = 0xffff_ffff;

/// The handle of no route.
pub fn no_route() -> (h: RouteHandle)
    ensures
        h.0 == NO_ROUTE_INDEX,
{
    RouteHandle(NO_ROUTE_INDEX)
}

/// A point of the routing plane, with the length arithmetic that routing
/// needs: squared distance for nearest-node queries, and step lengths that
/// add up along a path for shortest-path queries.
///
/// Each operation is a function of its arguments, named by a spec function
/// that the contracts of the routing functions speak of.
pub trait RoutePoint: Copy {
    type Length: Copy;

    spec fn squared_distance_of(&self, other: &Self) -> Self::Length;

    spec fn step_length_of(&self, other: &Self) -> Self::Length;

    spec fn zero_length_of() -> Self::Length;

    spec fn unbounded_length_of() -> Self::Length;

    spec fn sum_of(a: Self::Length, b: Self::Length) -> Self::Length;

    spec fn shorter_of(a: Self::Length, b: Self::Length) -> bool;

    spec fn bounded_of(a: Self::Length) -> bool;

    /// The squared distance to `other`.
    fn squared_distance_to(&self, other: &Self) -> (r: Self::Length)
        ensures
            r == self.squared_distance_of(other),
    ;

    /// The length of the straight step to `other`.
    fn step_length(&self, other: &Self) -> (r: Self::Length)
        ensures
            r == self.step_length_of(other),
    ;

    /// The length of an empty path.
    fn zero_length() -> (r: Self::Length)
        ensures
            r == Self::zero_length_of(),
    ;

    /// The length of a path not yet found.
    fn unbounded_length() -> (r: Self::Length)
        ensures
            r == Self::unbounded_length_of(),
    ;

    /// The length of two paths joined.
    fn add_lengths(a: Self::Length, b: Self::Length) -> (r: Self::Length)
        ensures
            r == Self::sum_of(a, b),
    ;

    /// Whether `a` is strictly shorter than `b`.
    fn shorter(a: Self::Length, b: Self::Length) -> (r: bool)
        ensures
            r == Self::shorter_of(a, b),
    ;

    /// Whether a length belongs to a path that was found.
    fn is_bounded(a: Self::Length) -> (r: bool)
        ensures
            r == Self::bounded_of(a),
    ;
}

/// A cell of a tile grid, with Euclidean squared distance and the
/// four-connected (Manhattan) step length in whole tiles. Every length is a
/// length of a found path; sums too long for a `u64` stay at `u64::MAX`.
#[derive(Clone, Copy, Debug, PartialEq, Eq, Structural)]
pub struct TilePoint {
    pub col: u16,
    pub row: u16,
}

/// The distance between two grid coordinates.
pub open spec fn coordinate_gap(a: u16, b: u16) -> int {
    if a >= b {
        a - b
    } else {
        b - a
    }
}

fn gap(a: u16, b: u16) -> (r: u64)
    ensures
        r == coordinate_gap(a, b),
{
    if a >= b {
        (a - b) as u64
    } else {
        (b - a) as u64
    }
}

impl RoutePoint for TilePoint {
    type Length = u64;

    open spec fn squared_distance_of(&self, other: &Self) -> u64 {
        (coordinate_gap(self.col, other.col) * coordinate_gap(self.col, other.col) + coordinate_gap(
            self.row,
            other.row,
        ) * coordinate_gap(self.row, other.row)) as u64
    }

    open spec fn step_length_of(&self, other: &Self) -> u64 {
        (coordinate_gap(self.col, other.col) + coordinate_gap(self.row, other.row)) as u64
    }

    open spec fn zero_length_of() -> u64 {
        0
    }

    open spec fn unbounded_length_of() -> u64 {
        u64::MAX
    }

    open spec fn sum_of(a: u64, b: u64) -> u64 {
        if a + b >= u64::MAX {
            u64::MAX
        } else {
            (a + b) as u64
        }
    }

    open spec fn shorter_of(a: u64, b: u64) -> bool {
        a < b
    }

    open spec fn bounded_of(a: u64) -> bool {
        true
    }

    fn squared_distance_to(&self, other: &Self) -> (r: u64) {
        let dx = gap(self.col, other.col);
        let dy = gap(self.row, other.row);
        assert(dx * dx <= 65535 * 65535) by (nonlinear_arith)
            requires
                dx <= 65535,
        ;
        assert(dy * dy <= 65535 * 65535) by (nonlinear_arith)
            requires
                dy <= 65535,
        ;
        dx * dx + dy * dy
    }

    fn step_length(&self, other: &Self) -> (r: u64) {
        gap(self.col, other.col) + gap(self.row, other.row)
    }

    fn zero_length() -> (r: u64) {
        0
    }

    fn unbounded_length() -> (r: u64) {
        u64::MAX
    }

    fn add_lengths(a: u64, b: u64) -> (r: u64) {
        if a >= u64::MAX - b {
            u64::MAX
        } else {
            a + b
        }
    }

    fn shorter(a: u64, b: u64) -> (r: bool) {
        a < b
    }

    fn is_bounded(a: u64) -> (r: bool) {
        true
    }
}

/// Adjacency lists sorted strictly, so traversal order is fixed.
pub open spec fn sorted_strictly(s: Seq<u32>) -> bool {
    forall|i: int, j: int| 0 <= i < j < s.len() ==> s[i] < s[j]
}

/// The edges are undirected, in range, without self-loops, and each list is
/// sorted.
pub open spec fn adjacency_wf(adj: Seq<Seq<u32>>) -> bool {
    &&& forall|u: int| 0 <= u < adj.len() ==> sorted_strictly(#[trigger] adj[u])
    &&& forall|u: int, k: int| 0 <= u < adj.len() && 0 <= k < adj[u].len() ==> (#[trigger] adj[u][k]) < adj.len()
        && adj[u][k] != u
    &&& forall|u: int, v: int| 0 <= u < adj.len() && 0 <= v < adj.len() ==> (#[trigger] adj[u].contains(v as u32)
        <==> #[trigger] adj[v].contains(u as u32))
}

/// `path` walks along edges of `adj`.
pub open spec fn is_walk(adj: Seq<Seq<u32>>, path: Seq<u32>) -> bool {
    &&& forall|k: int| 0 <= k < path.len() ==> (#[trigger] path[k]) < adj.len()
    &&& forall|k: int| 0 <= k < path.len() - 1 ==> #[trigger] adj[path[k] as int].contains(path[k + 1])
}

/// Node `v` is reachable from node `u`.
pub open spec fn reachable(adj: Seq<Seq<u32>>, u: u32, v: u32) -> bool {
    exists|path: Seq<u32>| path.len() > 0 && path[0] == u && path.last() == v && #[trigger] is_walk(adj, path)
}

/// A small hand-authored navigation graph.
#[derive(Clone, Debug)]
pub struct WaypointGraph<P> {
    nodes: Vec<P>,
    /// Adjacency, each inner list kept sorted so traversal order is fixed.
    adjacency: Vec<Vec<u32>>,
}

impl<P: RoutePoint> WaypointGraph<P> {
    /// The node positions, by node index.
    pub closed spec fn positions(&self) -> Seq<P> {
        self.nodes@
    }

    /// The neighbours of each node, sorted.
    pub closed spec fn edges(&self) -> Seq<Seq<u32>> {
        self.adjacency@.map_values(|l: Vec<u32>| l@)
    }

    pub closed spec fn wf(&self) -> bool {
        self.nodes@.len() == self.adjacency@.len() && self.nodes@.len() <= u32::MAX && adjacency_wf(
            self.edges(),
        )
    }

    pub fn new() -> (g: Self)
        ensures
            g.wf(),
            g.positions().len() == 0,
            g.edges().len() == 0,
    {
        let g = Self { nodes: Vec::new(), adjacency: Vec::new() };
        assert(g.edges() =~= Seq::<Seq<u32>>::empty());
        g
    }

    /// Add an unconnected node; returns its index.
    pub fn add_node(&mut self, p: P) -> (index: u32)
        requires
            old(self).wf(),
            old(self).positions().len() < u32::MAX,
        ensures
            final(self).wf(),
            final(self).positions() == old(self).positions().push(p),
            final(self).edges() == old(self).edges().push(Seq::empty()),
            index as int == old(self).positions().len(),
    {
        self.nodes.push(p);
        self.adjacency.push(Vec::new());
        proof {
            let e = self.edges();
            let oe = old(self).edges();
            assert(e =~= oe.push(Seq::empty()));
            assert forall|u: int, v: int| 0 <= u < e.len() && 0 <= v < e.len() implies (#[trigger] e[u].contains(v as u32)
                <==> #[trigger] e[v].contains(u as u32)) by {
                if u < oe.len() && v < oe.len() {
                    assert(e[u] == oe[u] && e[v] == oe[v]);
                } else if u == oe.len() {
                    assert(e[u].len() == 0);
                    if e[v].contains(u as u32) {
                        let k = e[v].index_of(u as u32);
                        assert(oe[v][k] < oe.len());
                    }
                } else {
                    assert(e[v].len() == 0);
                    if e[u].contains(v as u32) {
                        let k = e[u].index_of(v as u32);
                        assert(oe[u][k] < oe.len());
                    }
                }
            }
            assert forall|u: int, k: int| 0 <= u < e.len() && 0 <= k < e[u].len() implies (#[trigger] e[u][k]) < e.len()
                && e[u][k] != u by {
                assert(e[u] == oe[u]);
            }
        }
        (self.nodes.len() - 1) as u32
    }

    /// Add an undirected edge. Ignores duplicates and self-loops.
    pub fn add_edge(&mut self, a: u32, b: u32)
        requires
            old(self).wf(),
            a == b || (a < old(self).positions().len() && b < old(self).positions().len()),
        ensures
            final(self).wf(),
            final(self).positions() == old(self).positions(),
            a == b ==> final(self).edges() == old(self).edges(),
            a != b ==> forall|u: int, v: int| 0 <= u < final(self).edges().len() && 0 <= v < final(self).edges().len()
                ==> (#[trigger] final(self).edges()[u].contains(v as u32) <==> (old(self).edges()[u].contains(v as u32)
                || (u == a && v == b) || (u == b && v == a))),
            final(self).edges().len() == old(self).edges().len(),
    {
        if a == b {
            return;
        }
        let ghost e0 = self.edges();
        self.insert_neighbor(a, b);
        let ghost e1 = self.edges();
        self.insert_neighbor(b, a);
        proof {
            let e = self.edges();
            assert forall|u: int, v: int| 0 <= u < e.len() && 0 <= v < e.len() implies (#[trigger] e[u].contains(v as u32)
                <==> (e0[u].contains(v as u32) || (u == a && v == b) || (u == b && v == a))) by {
                assert(e[u].contains(v as u32) <==> (e1[u].contains(v as u32) || (u == b && v as u32 == a)));
                assert(e1[u].contains(v as u32) <==> (e0[u].contains(v as u32) || (u == a && v as u32 == b)));
            }
            assert forall|u: int, v: int| 0 <= u < e.len() && 0 <= v < e.len() implies (#[trigger] e[u].contains(v as u32)
                <==> #[trigger] e[v].contains(u as u32)) by {
                assert(e0[u].contains(v as u32) <==> e0[v].contains(u as u32));
                assert(e[u].contains(v as u32) <==> (e1[u].contains(v as u32) || (u == b && v as u32 == a)));
                assert(e1[u].contains(v as u32) <==> (e0[u].contains(v as u32) || (u == a && v as u32 == b)));
                assert(e[v].contains(u as u32) <==> (e1[v].contains(u as u32) || (v == b && u as u32 == a)));
                assert(e1[v].contains(u as u32) <==> (e0[v].contains(u as u32) || (v == a && u as u32 == b)));
            }
        }
    }

    /// Insert `to` into the sorted list of `from`, unless present.
    fn insert_neighbor(&mut self, from: u32, to: u32)
        requires
            old(self).nodes@.len() == old(self).adjacency@.len(),
            forall|u: int| 0 <= u < old(self).edges().len() ==> sorted_strictly(#[trigger] old(self).edges()[u]),
            forall|u: int, k: int| 0 <= u < old(self).edges().len() && 0 <= k < old(self).edges()[u].len() ==> (#[trigger] old(self).edges()[u][k])
                < old(self).edges().len() && old(self).edges()[u][k] != u,
            from < old(self).edges().len(),
            to < old(self).edges().len(),
            from != to,
        ensures
            final(self).nodes@ == old(self).nodes@,
            final(self).edges().len() == old(self).edges().len(),
            forall|u: int| 0 <= u < final(self).edges().len() ==> sorted_strictly(#[trigger] final(self).edges()[u]),
            forall|u: int, k: int| 0 <= u < final(self).edges().len() && 0 <= k < final(self).edges()[u].len() ==> (#[trigger] final(self).edges()[u][k])
                < final(self).edges().len() && final(self).edges()[u][k] != u,
            forall|u: int, v: u32| 0 <= u < final(self).edges().len() ==> (#[trigger] final(self).edges()[u].contains(v) <==> (
            old(self).edges()[u].contains(v) || (u == from && v == to))),
    {
        let ghost e0 = self.edges();
        let mut list = self.adjacency.remove(from as usize);
        let ghost l0 = list@;
        assert(l0 == e0[from as int]);
        let mut p: usize = 0;
        while p < list.len() && list[p] < to
            invariant
                list@ == l0,
                p <= l0.len(),
                forall|j: int| 0 <= j < p ==> l0[j] < to,
            decreases l0.len() - p,
        {
            p = p + 1;
        }
        if !(p < list.len() && list[p] == to) {
            proof {
                assert(!l0.contains(to)) by {
                    if l0.contains(to) {
                        let j = l0.index_of(to);
                        if j < p {
                        } else if j > p {
                            assert(l0[p as int] < l0[j]);
                        }
                    }
                }
            }
            list.insert(p, to);
            proof {
                let nl = list@;
                assert forall|i: int, j: int| 0 <= i < j < nl.len() implies nl[i] < nl[j] by {
                    if j < p {
                        assert(nl[i] == l0[i] && nl[j] == l0[j]);
                    } else if j == p {
                        assert(nl[i] == l0[i]);
                    } else if i < p {
                        assert(nl[i] == l0[i] && nl[j] == l0[j - 1]);
                        assert(l0[i] < to);
                        if p < l0.len() {
                            assert(to < l0[p as int]);
                        }
                        assert(l0[i] < l0[j - 1] || i == j - 1);
                    } else if i == p {
                        assert(nl[j] == l0[j - 1]);
                        assert(to < l0[p as int]);
                        assert(l0[p as int] <= l0[j - 1]) by {
                            if p < j - 1 {
                                assert(l0[p as int] < l0[j - 1]);
                            }
                        }
                    } else {
                        assert(nl[i] == l0[i - 1] && nl[j] == l0[j - 1]);
                    }
                }
                assert forall|v: u32| #[trigger] nl.contains(v) <==> (l0.contains(v) || v == to) by {
                    if nl.contains(v) {
                        let k = nl.index_of(v);
                        if k < p {
                            assert(l0[k] == v);
                        } else if k > p {
                            assert(l0[k - 1] == v);
                        }
                    }
                    if l0.contains(v) {
                        let k = l0.index_of(v);
                        if k < p {
                            assert(nl[k] == v);
                        } else {
                            assert(nl[k + 1] == v);
                        }
                    }
                    if v == to {
                        assert(nl[p as int] == to);
                    }
                }
            }
        } else {
            proof {
                assert(l0.contains(to));
            }
        }
        let ghost final_list = list@;
        self.adjacency.insert(from as usize, list);
        proof {
            let e = self.edges();
            assert(e =~= e0.update(from as int, final_list));
            assert forall|u: int| 0 <= u < e.len() && u != from implies e[u] == e0[u] by {}
            assert(e[from as int] == final_list);
            assert forall|u: int, k: int| 0 <= u < e.len() && 0 <= k < e[u].len() implies (#[trigger] e[u][k]) < e.len()
                && e[u][k] != u by {
                if u == from {
                    assert(final_list.contains(e[u][k]));
                    if e[u][k] != to {
                        assert(l0.contains(e[u][k]));
                        let j = l0.index_of(e[u][k]);
                        assert(e0[u][j] == e[u][k]);
                    }
                }
            }
        }
    }

    pub fn node_count(&self) -> (n: u32)
        ensures
            n == self.positions().len() as u32,
    {
        self.nodes.len() as u32
    }

    pub fn position(&self, node: u32) -> (p: P)
        requires
            node < self.positions().len(),
        ensures
            p == self.positions()[node as int],
    {
        self.nodes[node as usize]
    }

    /// The neighbours of `node`, in index order.
    pub fn neighbors(&self, node: u32) -> (r: &[u32])
        requires
            self.wf(),
            node < self.positions().len(),
        ensures
            r@ == self.edges()[node as int],
    {
        self.adjacency[node as usize].as_slice()
    }
}


// ---------------------------------------------------------------------------
// Connectivity
// ---------------------------------------------------------------------------

/// How many nodes are not yet marked.
pub open spec fn count_unmarked(marks: Seq<bool>) -> nat
    decreases marks.len(),
{
    if marks.len() == 0 {
        0
    } else {
        count_unmarked(marks.drop_last()) + if marks.last() { 0nat } else { 1nat }
    }
}

pub proof fn lemma_mark_decreases(marks: Seq<bool>, i: int)
    requires
        0 <= i < marks.len(),
        !marks[i],
    ensures
        count_unmarked(marks.update(i, true)) + 1 == count_unmarked(marks),
    decreases marks.len(),
{
    let m2 = marks.update(i, true);
    if i < marks.len() - 1 {
        assert(m2.drop_last() =~= marks.drop_last().update(i, true));
        lemma_mark_decreases(marks.drop_last(), i);
    } else {
        assert(m2.drop_last() =~= marks.drop_last());
    }
}

pub proof fn lemma_reach_start(adj: Seq<Seq<u32>>, u: u32)
    requires
        u < adj.len(),
    ensures
        reachable(adj, u, u),
{
    let path = seq![u];
    assert(is_walk(adj, path));
}

pub proof fn lemma_reach_step(adj: Seq<Seq<u32>>, s: u32, u: u32, v: u32)
    requires
        reachable(adj, s, u),
        u < adj.len(),
        adj[u as int].contains(v),
        v < adj.len(),
    ensures
        reachable(adj, s, v),
{
    let path = choose|path: Seq<u32>| path.len() > 0 && path[0] == s && path.last() == u && #[trigger] is_walk(adj, path);
    let p2 = path.push(v);
    assert forall|k: int| 0 <= k < p2.len() - 1 implies #[trigger] adj[p2[k] as int].contains(p2[k + 1]) by {
        if k < path.len() - 1 {
            assert(p2[k] == path[k] && p2[k + 1] == path[k + 1]);
        }
    }
    assert(is_walk(adj, p2));
}

/// In a set of marked nodes closed under edges, every walk from a marked node
/// stays marked.
pub proof fn lemma_closed_walk(adj: Seq<Seq<u32>>, marks: Seq<bool>, path: Seq<u32>)
    requires
        marks.len() == adj.len(),
        is_walk(adj, path),
        path.len() > 0,
        marks[path[0] as int],
        forall|u: int, k: int| 0 <= u < adj.len() && marks[u] && 0 <= k < adj[u].len() ==> marks[#[trigger] adj[u][k] as int],
    ensures
        marks[path.last() as int],
    decreases path.len(),
{
    if path.len() > 1 {
        let d = path.drop_last();
        assert(is_walk(adj, d)) by {
            assert forall|k: int| 0 <= k < d.len() - 1 implies #[trigger] adj[d[k] as int].contains(d[k + 1]) by {
                assert(adj[path[k] as int].contains(path[k + 1]));
            }
        }
        lemma_closed_walk(adj, marks, d);
        let u = path[path.len() - 2];
        assert(adj[path[path.len() - 2] as int].contains(path[path.len() - 2 + 1]));
        assert(adj[u as int].contains(path.last()));
        let k = adj[u as int].index_of(path.last());
        assert(marks[adj[u as int][k] as int]);
    }
}

/// The edge lists of an adjacency held in vectors.
pub open spec fn edge_lists(adjacency: Seq<Vec<u32>>) -> Seq<Seq<u32>> {
    adjacency.map_values(|l: Vec<u32>| l@)
}

/// Every edge of `adj` leads to a node of `adj`.
pub open spec fn edges_in_range(adj: Seq<Seq<u32>>) -> bool {
    forall|u: int, k: int| 0 <= u < adj.len() && 0 <= k < adj[u].len() ==> (#[trigger] adj[u][k]) < adj.len()
}

/// The nodes reachable from `from`, marked by node index.
pub fn reachable_from(adjacency: &Vec<Vec<u32>>, from: u32) -> (seen: Vec<bool>)
    requires
        from < adjacency@.len(),
        adjacency@.len() <= u32::MAX,
        edges_in_range(edge_lists(adjacency@)),
    ensures
        seen@.len() == adjacency@.len(),
        forall|v: int| 0 <= v < seen@.len() ==> (#[trigger] seen@[v] <==> reachable(edge_lists(adjacency@), from, v as u32)),
{
    let n = adjacency.len();
    let ghost adj = edge_lists(adjacency@);
    let mut seen: Vec<bool> = Vec::new();
    let mut i: usize = 0;
    while i < n
        invariant
            i <= n,
            seen@.len() == i,
            forall|k: int| 0 <= k < i ==> !seen@[k],
        decreases n - i,
    {
        seen.push(false);
        i = i + 1;
    }
    let start = from as usize;
    seen.set(start, true);
    let mut stack: Vec<usize> = Vec::new();
    stack.push(start);
    proof {
        lemma_reach_start(adj, from);
        assert(stack@[0] == start);
        assert forall|u: int| 0 <= u < n && seen@[u] implies u == start by {}
    }
    while stack.len() > 0
        invariant
            adj == edge_lists(adjacency@),
            edges_in_range(adj),
            n == adj.len(),
            n <= u32::MAX,
            start < n,
            start == from,
            seen@.len() == n,
            seen@[start as int],
            forall|k: int| 0 <= k < stack@.len() ==> (#[trigger] stack@[k]) < n && seen@[stack@[k] as int],
            forall|v: int| 0 <= v < n && #[trigger] seen@[v] ==> reachable(adj, from, v as u32),
            forall|u: int, k: int| 0 <= u < n && seen@[u] && !stack@.contains(u as usize) && 0 <= k < adj[u].len()
                ==> seen@[#[trigger] adj[u][k] as int],
        decreases 2 * count_unmarked(seen@) + stack@.len(),
    {
        let ghost before_pop = stack@;
        let current = stack.pop().unwrap();
        proof {
            assert(before_pop =~= stack@.push(current));
            assert forall|u: int, j: int| 0 <= u < n && seen@[u] && !stack@.contains(u as usize) && u != current
                && 0 <= j < adj[u].len() implies seen@[#[trigger] adj[u][j] as int] by {
                if before_pop.contains(u as usize) {
                    let m = before_pop.index_of(u as usize);
                    if m < stack@.len() {
                        assert(stack@[m] == u as usize);
                    }
                }
            }
        }
        let list = &adjacency[current];
        assert(list@ == adj[current as int]);
        let ghost stack_after_pop = stack@;
        let ghost unmarked0 = count_unmarked(seen@);
        let mut k: usize = 0;
        while k < list.len()
            invariant
                adj == edge_lists(adjacency@),
                edges_in_range(adj),
                n == adj.len(),
                n <= u32::MAX,
                current < n,
                start == from,
                list@ == adj[current as int],
                k <= list@.len(),
                seen@.len() == n,
                seen@[start as int],
                seen@[current as int],
                forall|j: int| 0 <= j < stack@.len() ==> (#[trigger] stack@[j]) < n && seen@[stack@[j] as int],
                forall|v: int| 0 <= v < n && #[trigger] seen@[v] ==> reachable(adj, from, v as u32),
                forall|j: int| 0 <= j < k ==> seen@[#[trigger] list@[j] as int],
                forall|u: int, j: int| 0 <= u < n && seen@[u] && !stack@.contains(u as usize) && u != current
                    && 0 <= j < adj[u].len() ==> seen@[#[trigger] adj[u][j] as int],
                2 * count_unmarked(seen@) + stack@.len() <= 2 * unmarked0 + stack_after_pop.len(),
            decreases list@.len() - k,
        {
            let next = list[k] as usize;
            assert(adj[current as int][k as int] == list@[k as int]);
            if !seen[next] {
                proof {
                    lemma_reach_step(adj, from, current as u32, next as u32);
                    lemma_mark_decreases(seen@, next as int);
                    assert(adj[current as int].contains(next as u32));
                }
                seen.set(next, true);
                let ghost old_stack = stack@;
                stack.push(next);
                proof {
                    assert forall|u: int, j: int| 0 <= u < n && seen@[u] && !stack@.contains(u as usize) && u != current
                        && 0 <= j < adj[u].len() implies seen@[#[trigger] adj[u][j] as int] by {
                        if u != next {
                            assert(!old_stack.contains(u as usize)) by {
                                if old_stack.contains(u as usize) {
                                    let m = old_stack.index_of(u as usize);
                                    assert(stack@[m] == u as usize);
                                }
                            }
                        } else {
                            assert(stack@[stack@.len() - 1] == next);
                        }
                    }
                }
            }
            k = k + 1;
        }
        proof {
            assert forall|u: int, j: int| 0 <= u < n && seen@[u] && !stack@.contains(u as usize) && 0 <= j < adj[u].len()
                implies seen@[#[trigger] adj[u][j] as int] by {
                if u == current {
                    assert(adj[u][j] == list@[j]);
                }
            }
        }
    }
    proof {
        assert forall|u: int, k: int| 0 <= u < adj.len() && seen@[u] && 0 <= k < adj[u].len() implies seen@[#[trigger] adj[u][k] as int] by {
            assert(!stack@.contains(u as usize));
        }
        assert forall|w: int| 0 <= w < n && !seen@[w] implies !reachable(adj, from, w as u32) by {
            if reachable(adj, from, w as u32) {
                let path = choose|path: Seq<u32>| path.len() > 0 && path[0] == from && path.last() == w as u32
                    && #[trigger] is_walk(adj, path);
                lemma_closed_walk(adj, seen@, path);
            }
        }
    }
    seen
}

impl<P: RoutePoint> WaypointGraph<P> {
    /// True when every node is reachable from node 0.
    ///
    /// Scene compilation rejects disconnected graphs: an agent routed into an
    /// isolated component would stall forever.
    pub fn is_connected(&self) -> (r: bool)
        requires
            self.wf(),
        ensures
            r == forall|v: u32| v < self.positions().len() ==> reachable(self.edges(), 0, v),
    {
        let n = self.nodes.len();
        if n == 0 {
            return true;
        }
        let seen = reachable_from(&self.adjacency, 0);
        let mut all = true;
        let mut v: usize = 0;
        while v < n
            invariant
                v <= n,
                seen@.len() == n,
                all == forall|w: int| 0 <= w < v ==> seen@[w],
            decreases n - v,
        {
            if !seen[v] {
                all = false;
            }
            v = v + 1;
        }
        proof {
            if all {
                assert forall|w: u32| w < self.positions().len() implies reachable(self.edges(), 0, w) by {
                    assert(seen@[w as int]);
                }
            } else {
                let w = choose|w: int| 0 <= w < n && !seen@[w];
                assert(!reachable(self.edges(), 0, w as u32));
            }
        }
        all
    }
}


// ---------------------------------------------------------------------------
// Nearest node and shortest path
// ---------------------------------------------------------------------------

/// The nodes of `path` are pairwise distinct.
pub open spec fn distinct_nodes(path: Seq<u32>) -> bool {
    forall|i: int, j: int| 0 <= i < j < path.len() ==> path[i] != path[j]
}

/// The nearest of the first `n` points to `p`: scanning in index order, a
/// point replaces the best so far only when its squared distance is
/// strictly shorter, so the first point of a tie wins.
pub open spec fn nearest_upto<P: RoutePoint>(pts: Seq<P>, p: P, n: nat) -> Option<u32>
    decreases n,
{
    if n == 0 {
        None
    } else {
        let d = pts[n - 1].squared_distance_of(&p);
        match nearest_upto(pts, p, (n - 1) as nat) {
            None => Some((n - 1) as u32),
            Some(b) => if P::shorter_of(d, pts[b as int].squared_distance_of(&p)) {
                Some((n - 1) as u32)
            } else {
                Some(b)
            },
        }
    }
}

/// `shorter_of` is a strict weak order: irreflexive, transitive, and ties
/// (neither shorter) are transitive.
pub open spec fn lengths_weakly_ordered<P: RoutePoint>() -> bool {
    &&& forall|a: P::Length| !#[trigger] P::shorter_of(a, a)
    &&& forall|a: P::Length, b: P::Length, c: P::Length|
        #[trigger] P::shorter_of(a, b) && #[trigger] P::shorter_of(b, c) ==> P::shorter_of(a, c)
    &&& forall|a: P::Length, b: P::Length, c: P::Length|
        !#[trigger] P::shorter_of(a, b) && !#[trigger] P::shorter_of(b, c) ==> !P::shorter_of(a, c)
}

/// Where lengths are weakly ordered, the nearest point is one that no point
/// is shorter than, and strictly shorter than every point before it: the
/// first point of least squared distance.
pub proof fn lemma_nearest_is_first_least<P: RoutePoint>(pts: Seq<P>, p: P, n: nat)
    requires
        lengths_weakly_ordered::<P>(),
        n > 0,
        n <= pts.len(),
        pts.len() <= u32::MAX,
    ensures
        nearest_upto(pts, p, n) is Some,
        ({
            let i = nearest_upto(pts, p, n)->0 as int;
            &&& 0 <= i < n
            &&& forall|j: int| 0 <= j < n ==> !P::shorter_of(#[trigger] pts[j].squared_distance_of(&p), pts[i].squared_distance_of(&p))
            &&& forall|j: int| 0 <= j < i ==> P::shorter_of(pts[i].squared_distance_of(&p), #[trigger] pts[j].squared_distance_of(&p))
        }),
    decreases n,
{
    let d = pts[n - 1].squared_distance_of(&p);
    assert(!P::shorter_of(d, d));
    if n == 1 {
        assert(nearest_upto(pts, p, (n - 1) as nat) is None);
        assert(nearest_upto(pts, p, n) == Some(0u32));
        assert forall|j: int| 0 <= j < n implies !P::shorter_of(#[trigger] pts[j].squared_distance_of(&p), pts[0].squared_distance_of(&p)) by {
            assert(j == 0);
        }
    } else {
        lemma_nearest_is_first_least(pts, p, (n - 1) as nat);
        let b = nearest_upto(pts, p, (n - 1) as nat)->0 as int;
        let db = pts[b].squared_distance_of(&p);
        assert(nearest_upto(pts, p, (n - 1) as nat) == Some(b as u32));
        if P::shorter_of(d, db) {
            assert(nearest_upto(pts, p, n) == Some((n - 1) as u32));
            assert forall|j: int| 0 <= j < n implies !P::shorter_of(#[trigger] pts[j].squared_distance_of(&p), d) by {
                if j < n - 1 {
                    let dj = pts[j].squared_distance_of(&p);
                    assert(!P::shorter_of(dj, db));
                    if P::shorter_of(dj, d) {
                        assert(P::shorter_of(dj, db));
                    }
                }
            }
            assert forall|j: int| 0 <= j < n - 1 implies P::shorter_of(d, #[trigger] pts[j].squared_distance_of(&p)) by {
                let dj = pts[j].squared_distance_of(&p);
                assert(!P::shorter_of(dj, db));
                if !P::shorter_of(d, dj) {
                    assert(!P::shorter_of(d, db));
                }
            }
        } else {
            assert(nearest_upto(pts, p, n) == Some(b as u32));
            assert forall|j: int| 0 <= j < n implies !P::shorter_of(#[trigger] pts[j].squared_distance_of(&p), db) by {
                if j < n - 1 {
                }
            }
        }
    }
}

/// Lengths of found paths stay lengths of found paths: the empty path and
/// every step are bounded, and so is a sum of bounded lengths.
pub open spec fn lengths_stay_bounded<P: RoutePoint>() -> bool {
    &&& P::bounded_of(P::zero_length_of())
    &&& forall|a: P::Length, b: P::Length| P::bounded_of(a) && P::bounded_of(b) ==> #[trigger] P::bounded_of(P::sum_of(a, b))
    &&& forall|p: P, q: P| #[trigger] P::bounded_of(p.step_length_of(&q))
}

/// Tile lengths are always bounded.
pub proof fn lemma_tile_lengths_stay_bounded()
    ensures
        lengths_stay_bounded::<TilePoint>(),
{
}

/// Tile lengths are ordered as integers.
pub proof fn lemma_tile_lengths_weakly_ordered()
    ensures
        lengths_weakly_ordered::<TilePoint>(),
{
}

impl<P: RoutePoint> WaypointGraph<P> {
    /// The nearest node to `p`, breaking exact ties by lower node index.
    ///
    /// A later node replaces the best so far only when it is strictly
    /// shorter, so the first node of a tie wins.
    pub fn nearest_node(&self, p: P) -> (r: Option<u32>)
        requires
            self.wf(),
        ensures
            r == nearest_upto(self.positions(), p, self.positions().len()),
            r is None <==> self.positions().len() == 0,
            r matches Some(i) ==> i < self.positions().len(),
    {
        let n = self.nodes.len();
        let mut best: Option<(P::Length, u32)> = None;
        let mut index: usize = 0;
        while index < n
            invariant
                n == self.positions().len(),
                n <= u32::MAX,
                index <= n,
                best is None <==> index == 0,
                best matches Some(b) ==> b.1 < index && b.0 == self.positions()[b.1 as int].squared_distance_of(&p),
                nearest_upto(self.positions(), p, index as nat) == match best {
                    None => None,
                    Some(b) => Some(b.1),
                },
            decreases n - index,
        {
            let d = self.nodes[index].squared_distance_to(&p);
            let replace = match best {
                None => true,
                Some(b) => P::shorter(d, b.0),
            };
            if replace {
                best = Some((d, index as u32));
            }
            index = index + 1;
        }
        match best {
            None => None,
            Some(b) => Some(b.1),
        }
    }
}

/// The predecessor links of a search in progress: every reached node but the
/// start hangs off a visited neighbour that was visited before it.
pub open spec fn search_links_wf(
    adj: Seq<Seq<u32>>,
    from: int,
    reached: Seq<bool>,
    visited: Seq<bool>,
    prev: Seq<u32>,
    order: Seq<int>,
) -> bool {
    let n = adj.len();
    &&& reached.len() == n && visited.len() == n && prev.len() == n && order.len() == n
    &&& 0 <= from < n
    &&& reached[from]
    &&& forall|v: int| 0 <= v < n && #[trigger] visited[v] ==> reached[v] && 0 <= order[v] < n
    &&& forall|v: int| 0 <= v < n && #[trigger] visited[v] && order[v] == 0 ==> v == from
    &&& forall|v: int|
        0 <= v < n && #[trigger] reached[v] && v != from ==> {
            &&& (prev[v] as int) < n
            &&& visited[prev[v] as int]
            &&& adj[prev[v] as int].contains(v as u32)
            &&& (visited[v] ==> order[prev[v] as int] < order[v])
        }
}

/// How far a node is from the start along its predecessor links: its visit
/// order once visited, and beyond every visit order before.
pub open spec fn link_rank(visited: Seq<bool>, order: Seq<int>, v: int) -> int {
    if visited[v] {
        order[v]
    } else {
        visited.len() as int
    }
}

/// How many nodes are not yet visited.
pub open spec fn count_unvisited(marks: Seq<bool>) -> nat {
    count_unmarked(marks)
}

impl<P: RoutePoint> WaypointGraph<P> {
    /// Dijkstra over the step lengths of the point type, scanning all nodes
    /// for the next one to settle; ties go to the lower node index.
    ///
    /// `None` when either node is out of range, or no path was found.
    pub fn shortest_path(&self, from: u32, to: u32) -> (r: Option<Vec<u32>>)
        requires
            self.wf(),
        ensures
            (from >= self.positions().len() || to >= self.positions().len()) ==> r is None,
            (from < self.positions().len() && from == to) ==> r is Some && r->0@ == seq![from],
            r matches Some(path) ==> {
                &&& path@.len() > 0
                &&& path@[0] == from
                &&& path@.last() == to
                &&& is_walk(self.edges(), path@)
                &&& distinct_nodes(path@)
            },
            !reachable(self.edges(), from, to) ==> r is None,
            lengths_stay_bounded::<P>() && from < self.positions().len() && to < self.positions().len() && reachable(
                self.edges(),
                from,
                to,
            ) ==> r is Some,
            path_laws::<P>() ==> (r matches Some(path) ==> least_length(
                self.edges(),
                self.positions(),
                from,
                to,
                walk_length(self.positions(), path@),
            )),
    {
        let n = self.nodes.len();
        if from as usize >= n || to as usize >= n {
            return None;
        }
        if from == to {
            let v = vec![from];
            assert(v@ == seq![from]);
            proof {
                lemma_reach_start(self.edges(), from);
                assert(is_walk(self.edges(), v@));
                if path_laws::<P>() {
                    assert(walk_length(self.positions(), v@) == P::zero_length_of());
                    assert forall|w: Seq<u32>| #[trigger] walk_between(self.edges(), w, from, to) implies no_longer::<P>(
                        P::zero_length_of(),
                        walk_length(self.positions(), w),
                    ) by {
                        lemma_zero_no_longer(self.positions(), w);
                    }
                }
            }
            return Some(v);
        }
        let ghost adj = self.edges();
        let mut dist: Vec<P::Length> = Vec::new();
        let mut prev: Vec<u32> = Vec::new();
        let mut visited: Vec<bool> = Vec::new();
        let mut reached: Vec<bool> = Vec::new();
        let mut i: usize = 0;
        while i < n
            invariant
                i <= n,
                dist@.len() == i,
                prev@.len() == i,
                visited@.len() == i,
                reached@.len() == i,
                forall|k: int| 0 <= k < i ==> !visited@[k] && !reached@[k],
            decreases n - i,
        {
            dist.push(P::unbounded_length());
            prev.push(u32::MAX);
            visited.push(false);
            reached.push(false);
            i = i + 1;
        }
        let ghost law = lengths_stay_bounded::<P>();
        let ghost laws = path_laws::<P>();
        let ghost pts = self.positions();
        dist.set(from as usize, P::zero_length());
        reached.set(from as usize, true);
        let ghost mut order: Seq<int> = Seq::new(n as nat, |k: int| 0int);
        let ghost mut steps: int = 0;
        proof {
            lemma_count_none_marked(visited@);
            assert forall|v: int| 0 <= v < n && #[trigger] reached@[v] implies v == from by {}
        }
        loop
            invariant_except_break
                self.wf(),
                adj == self.edges(),
                n == adj.len(),
                from < n,
                to < n,
                from != to,
                dist@.len() == n,
                search_links_wf(adj, from as int, reached@, visited@, prev@, order),
                !visited@[to as int],
                0 <= steps <= n,
                forall|v: int| 0 <= v < n && #[trigger] visited@[v] ==> order[v] < steps,
                count_unvisited(visited@) + steps == n,
                steps == 0 ==> forall|v: int| 0 <= v < n && #[trigger] reached@[v] ==> v == from,
                law == lengths_stay_bounded::<P>(),
                law ==> forall|v: int| 0 <= v < n && #[trigger] reached@[v] ==> P::bounded_of(dist@[v]),
                law ==> forall|u: int, k: int|
                    0 <= u < n && visited@[u] && 0 <= k < adj[u].len() ==> reached@[#[trigger] adj[u][k] as int],
                laws == path_laws::<P>(),
                pts == self.positions(),
                steps > 0 ==> visited@[from as int],
                laws ==> dist@[from as int] == P::zero_length_of(),
                laws ==> settled_least(adj, pts, from, visited@, dist@),
                laws ==> frontier_bounded_but(adj, pts, visited@, reached@, dist@, -1),
                laws ==> dist_follows_links(pts, from, reached@, prev@, dist@),
            ensures
                dist@.len() == n,
                search_links_wf(adj, from as int, reached@, visited@, prev@, order),
                law && reachable(adj, from, to) ==> reached@[to as int],
                laws ==> dist@[from as int] == P::zero_length_of(),
                laws ==> dist_follows_links(pts, from, reached@, prev@, dist@),
                laws && reached@[to as int] ==> least_length(adj, pts, from, to, dist@[to as int]),
            decreases count_unvisited(visited@),
        {
            let mut current: Option<usize> = None;
            let mut k: usize = 0;
            while k < n
                invariant
                    k <= n,
                    n == visited@.len(),
                    n == reached@.len(),
                    n == dist@.len(),
                    current matches Some(c) ==> c < k && !visited@[c as int] && reached@[c as int],
                    current is None ==> forall|j: int| 0 <= j < k ==> visited@[j] || !reached@[j],
                    laws == path_laws::<P>(),
                    laws ==> (current matches Some(c) ==> forall|j: int|
                        0 <= j < k && #[trigger] reached@[j] && !visited@[j] ==> no_longer::<P>(dist@[c as int], dist@[j])),
                decreases n - k,
            {
                if !visited[k] && reached[k] {
                    let take = match current {
                        None => true,
                        Some(c) => P::shorter(dist[k], dist[c]),
                    };
                    proof {
                        if laws {
                            assert(!P::shorter_of(dist@[k as int], dist@[k as int]));
                            if let Some(c) = current {
                                if take {
                                    assert forall|j: int| 0 <= j < k && #[trigger] reached@[j] && !visited@[j] implies no_longer::<P>(
                                        dist@[k as int],
                                        dist@[j],
                                    ) by {
                                        if P::shorter_of(dist@[j], dist@[k as int]) {
                                            assert(P::shorter_of(dist@[k as int], dist@[c as int]));
                                            assert(P::shorter_of(dist@[j], dist@[c as int]));
                                        }
                                    }
                                }
                            }
                        }
                    }
                    if take {
                        current = Some(k);
                    }
                }
                k = k + 1;
            }
            let current = match current {
                None => {
                    proof {
                        if law && reachable(adj, from, to) {
                            let path = choose|path: Seq<u32>| path.len() > 0 && path[0] == from && path.last() == to
                                && #[trigger] is_walk(adj, path);
                            assert forall|u: int, k: int|
                                0 <= u < adj.len() && reached@[u] && 0 <= k < adj[u].len() implies reached@[#[trigger] adj[u][k] as int] by {
                                assert(visited@[u] || !reached@[u]);
                            }
                            lemma_closed_walk(adj, reached@, path);
                            assert(visited@[to as int] || !reached@[to as int]);
                        }
                        assert(visited@[to as int] || !reached@[to as int]);
                    }
                    break;
                },
                Some(c) => c,
            };
            proof {
                if laws {
                    if steps == 0 {
                        assert(current == from);
                    }
                    lemma_selected_is_least(adj, pts, from, visited@, reached@, dist@, current as int);
                }
            }
            if current == to as usize {
                break;
            }
            let ghost before_visit = visited@;
            proof {
                lemma_mark_decreases(visited@, current as int);
                if steps == 0 {
                    assert(current == from);
                }
                order = order.update(current as int, steps);
            }
            visited.set(current, true);
            proof {
                steps = steps + 1;
                if laws {
                    assert forall|v: int| 0 <= v < n && #[trigger] visited@[v] implies least_length(
                        adj,
                        pts,
                        from,
                        v as u32,
                        dist@[v],
                    ) by {
                        if v != current as int {
                            assert(before_visit[v]);
                        }
                    }
                }
            }
            let list = &self.adjacency[current];
            assert(list@ == adj[current as int]);
            let mut j: usize = 0;
            while j < list.len()
                invariant
                    self.wf(),
                    adj == self.edges(),
                    n == adj.len(),
                    from < n,
                    to < n,
                    current < n,
                    current != to,
                    visited@[current as int],
                    list@ == adj[current as int],
                    j <= list@.len(),
                    dist@.len() == n,
                    search_links_wf(adj, from as int, reached@, visited@, prev@, order),
                    !visited@[to as int],
                    0 < steps <= n,
                    order[current as int] == steps - 1,
                    forall|v: int| 0 <= v < n && #[trigger] visited@[v] ==> order[v] < steps,
                    count_unvisited(visited@) + steps == n,
                    law == lengths_stay_bounded::<P>(),
                    law ==> forall|v: int| 0 <= v < n && #[trigger] reached@[v] ==> P::bounded_of(dist@[v]),
                    law ==> forall|u: int, k: int|
                        0 <= u < n && u != current && visited@[u] && 0 <= k < adj[u].len() ==> reached@[#[trigger] adj[u][k] as int],
                    law ==> forall|k: int| 0 <= k < j ==> reached@[#[trigger] list@[k] as int],
                    laws == path_laws::<P>(),
                    laws ==> law,
                    pts == self.positions(),
                    visited@[from as int],
                    laws ==> dist@[from as int] == P::zero_length_of(),
                    laws ==> settled_least(adj, pts, from, visited@, dist@),
                    laws ==> frontier_bounded_but(adj, pts, visited@, reached@, dist@, current as int),
                    laws ==> forall|k: int|
                        0 <= k < j && !visited@[list@[k] as int] ==> no_longer::<P>(
                            dist@[#[trigger] list@[k] as int],
                            P::sum_of(dist@[current as int], pts[current as int].step_length_of(&pts[list@[k] as int])),
                        ),
                    laws ==> dist_follows_links(pts, from, reached@, prev@, dist@),
                decreases list@.len() - j,
            {
                let next = list[j] as usize;
                assert(adj[current as int][j as int] == list@[j as int]);
                if !visited[next] {
                    let step = self.nodes[current].step_length(&self.nodes[next]);
                    let candidate = P::add_lengths(dist[current], step);
                    let better = if reached[next] {
                        P::shorter(candidate, dist[next])
                    } else {
                        P::is_bounded(candidate)
                    };
                    let ghost d0 = dist@;
                    let ghost r0 = reached@;
                    let ghost p0 = prev@;
                    if better {
                        proof {
                            assert(adj[current as int].contains(next as u32));
                        }
                        dist.set(next, candidate);
                        prev.set(next, current as u32);
                        reached.set(next, true);
                        proof {
                            if laws {
                                lemma_relax_keeps_order(
                                    adj,
                                    pts,
                                    from,
                                    visited@,
                                    r0,
                                    d0,
                                    p0,
                                    current as int,
                                    next as int,
                                    list@,
                                    j as int,
                                );
                            }
                        }
                    }
                    proof {
                        if laws {
                            assert(!P::shorter_of(candidate, candidate));
                        }
                    }
                }
                j = j + 1;
            }
            proof {
                if laws {
                    assert forall|x: int, k: int|
                        0 <= x < n && visited@[x] && 0 <= k < adj[x].len() && !visited@[adj[x][k] as int] implies reached@[#[trigger] adj[x][k] as int]
                        && no_longer::<P>(
                        dist@[adj[x][k] as int],
                        P::sum_of(dist@[x], pts[x].step_length_of(&pts[adj[x][k] as int])),
                    ) by {
                        if x == current as int {
                            assert(list@[k] == adj[x][k]);
                        }
                    }
                }
            }
        }
        if !reached[to as usize] {
            return None;
        }
        let mut back: Vec<u32> = Vec::new();
        back.push(to);
        let mut cursor: u32 = to;
        while cursor != from
            invariant
                n == adj.len(),
                adj == self.edges(),
                search_links_wf(adj, from as int, reached@, visited@, prev@, order),
                (cursor as int) < n,
                reached@[cursor as int],
                back@.len() > 0,
                back@[0] == to,
                back@.last() == cursor,
                forall|k: int| 0 <= k < back@.len() ==> (#[trigger] back@[k] as int) < n,
                forall|k: int| 0 <= k < back@.len() - 1 ==> #[trigger] adj[back@[k + 1] as int].contains(back@[k]),
                forall|k: int, l: int| #![trigger back@[k], back@[l]] 0 <= k < l < back@.len() ==> link_rank(visited@, order, back@[l] as int)
                    < link_rank(visited@, order, back@[k] as int),
                forall|k: int| 0 <= k < back@.len() - 1 ==> visited@[#[trigger] back@[k + 1] as int],
                forall|k: int|
                    #![trigger back@[k]]
                    0 <= k < back@.len() - 1 ==> back@[k] != from && prev@[back@[k] as int] == back@[k + 1],
            decreases link_rank(visited@, order, cursor as int),
        {
            let ghost old_back = back@;
            let ghost c = cursor as int;
            cursor = prev[cursor as usize];
            back.push(cursor);
            proof {
                assert(visited@[cursor as int]);
                assert(link_rank(visited@, order, cursor as int) < link_rank(visited@, order, c));
                assert forall|k: int| 0 <= k < back@.len() - 1 implies #[trigger] adj[back@[k + 1] as int].contains(back@[k]) by {
                    if k < old_back.len() - 1 {
                        assert(back@[k] == old_back[k] && back@[k + 1] == old_back[k + 1]);
                    }
                }
                assert forall|k: int, l: int| #![trigger back@[k], back@[l]] 0 <= k < l < back@.len() implies link_rank(visited@, order, back@[l] as int)
                    < link_rank(visited@, order, back@[k] as int) by {
                    if l < old_back.len() {
                        assert(back@[k] == old_back[k] && back@[l] == old_back[l]);
                    } else if k < old_back.len() - 1 {
                        assert(back@[k] == old_back[k]);
                        assert(link_rank(visited@, order, old_back[old_back.len() - 1] as int) < link_rank(visited@, order, old_back[k] as int));
                    }
                }
                assert forall|k: int| 0 <= k < back@.len() - 1 implies visited@[#[trigger] back@[k + 1] as int] by {
                    if k < old_back.len() - 1 {
                        assert(back@[k + 1] == old_back[k + 1]);
                    }
                }
                assert forall|k: int|
                    #![trigger back@[k]]
                    0 <= k < back@.len() - 1 implies back@[k] != from && prev@[back@[k] as int] == back@[k + 1] by {
                    if k < old_back.len() - 1 {
                        assert(back@[k] == old_back[k] && back@[k + 1] == old_back[k + 1]);
                    }
                }
            }
        }
        let mut path: Vec<u32> = Vec::new();
        let m = back.len();
        let mut t: usize = 0;
        while t < m
            invariant
                m == back@.len(),
                t <= m,
                path@.len() == t,
                forall|k: int| 0 <= k < t ==> path@[k] == back@[m - 1 - k],
            decreases m - t,
        {
            path.push(back[m - 1 - t]);
            t = t + 1;
        }
        proof {
            assert(path@[0] == from);
            assert(path@.last() == to);
            assert forall|k: int| 0 <= k < path@.len() - 1 implies #[trigger] adj[path@[k] as int].contains(path@[k + 1]) by {
                let a = m - 1 - k;
                assert(path@[k] == back@[a] && path@[k + 1] == back@[a - 1]);
                assert(adj[back@[(a - 1) + 1] as int].contains(back@[a - 1]));
                lemma_symmetric_edge(adj, back@[a] as int, back@[a - 1] as int);
            }
            assert(is_walk(adj, path@));
            assert forall|i: int, j: int| 0 <= i < j < path@.len() implies path@[i] != path@[j] by {
                assert(path@[i] == back@[m - 1 - i] && path@[j] == back@[m - 1 - j]);
                assert(link_rank(visited@, order, back@[m - 1 - i] as int) < link_rank(visited@, order, back@[m - 1 - j] as int));
            }
            if laws {
                assert forall|i: int| 1 <= i < path@.len() implies #[trigger] dist@[path@[i] as int] == P::sum_of(
                    dist@[path@[i - 1] as int],
                    pts[path@[i - 1] as int].step_length_of(&pts[path@[i] as int]),
                ) by {
                    let a = m - 1 - i;
                    assert(path@[i] == back@[a] && path@[i - 1] == back@[a + 1]);
                    assert(back@[a] != from && prev@[back@[a] as int] == back@[a + 1]);
                    if a > 0 {
                        assert(visited@[back@[(a - 1) + 1] as int]);
                    }
                    assert(reached@[back@[a] as int]);
                }
                lemma_links_length(pts, path@, dist@);
            }
        }
        Some(path)
    }
}

pub proof fn lemma_count_none_marked(marks: Seq<bool>)
    requires
        forall|k: int| 0 <= k < marks.len() ==> !marks[k],
    ensures
        count_unmarked(marks) == marks.len(),
    decreases marks.len(),
{
    if marks.len() > 0 {
        lemma_count_none_marked(marks.drop_last());
    }
}

proof fn lemma_symmetric_edge(adj: Seq<Seq<u32>>, u: int, v: int)
    requires
        adjacency_wf(adj),
        0 <= u < adj.len(),
        0 <= v < adj.len(),
        adj[u].contains(v as u32),
    ensures
        adj[v].contains(u as u32),
{
}

// ---------------------------------------------------------------------------
// Route storage
// ---------------------------------------------------------------------------

/// Pooled storage for resolved routes: every route's points stand one after
/// another in a single buffer.
#[derive(Clone, Debug)]
pub struct RouteArena<P> {
    points: Vec<P>,
    start: Vec<u32>,
    len: Vec<u32>,
}

impl<P: Copy> RouteArena<P> {
    /// The stored routes, by handle index.
    pub closed spec fn routes(&self) -> Seq<Seq<P>> {
        Seq::new(
            self.start@.len(),
            |i: int| self.points@.subrange(self.start@[i] as int, self.start@[i] + self.len@[i]),
        )
    }

    /// How many points all stored routes hold together.
    pub closed spec fn total_points(&self) -> nat {
        self.points@.len()
    }

    pub closed spec fn wf(&self) -> bool {
        &&& self.start@.len() == self.len@.len()
        &&& self.points@.len() <= u32::MAX
        &&& forall|i: int| 0 <= i < self.start@.len() ==> #[trigger] self.start@[i] + self.len@[i] <= self.points@.len()
    }

    pub fn new() -> (a: Self)
        ensures
            a.wf(),
            a.routes() == Seq::<Seq<P>>::empty(),
            a.total_points() == 0,
    {
        let a = Self { points: Vec::new(), start: Vec::new(), len: Vec::new() };
        assert(a.routes() =~= Seq::<Seq<P>>::empty());
        a
    }

    /// Store a route; its handle is the number of routes stored before it.
    pub fn push_route(&mut self, points: &[P]) -> (h: RouteHandle)
        requires
            old(self).wf(),
            old(self).routes().len() < u32::MAX,
            old(self).total_points() + points@.len() <= u32::MAX,
        ensures
            final(self).wf(),
            final(self).total_points() == old(self).total_points() + points@.len(),
            h.0 as int == old(self).routes().len(),
            final(self).routes() == old(self).routes().push(points@),
    {
        let handle = RouteHandle(self.start.len() as u32);
        let base = self.points.len();
        self.start.push(base as u32);
        self.len.push(points.len() as u32);
        let ghost before = self.points@;
        let mut k: usize = 0;
        while k < points.len()
            invariant
                k <= points@.len(),
                before == old(self).points@,
                base == before.len(),
                self.start@ == old(self).start@.push(base as u32),
                self.len@ == old(self).len@.push(points@.len() as u32),
                self.points@.len() == before.len() + k,
                self.points@.subrange(0, before.len() as int) == before,
                forall|j: int| 0 <= j < k ==> self.points@[before.len() + j] == points@[j],
            decreases points@.len() - k,
        {
            let ghost prior = self.points@;
            self.points.push(points[k]);
            proof {
                assert(self.points@.subrange(0, before.len() as int) =~= prior.subrange(0, before.len() as int));
            }
            k = k + 1;
        }
        proof {
            let r = self.routes();
            let o = old(self).routes();
            assert forall|i: int| 0 <= i < o.len() implies r[i] == o[i] by {
                assert(self.start@[i] == old(self).start@[i] && self.len@[i] == old(self).len@[i]);
                assert(r[i] =~= o[i]) by {
                    assert forall|j: int| 0 <= j < r[i].len() implies r[i][j] == o[i][j] by {
                        assert(self.points@[self.start@[i] + j] == before[self.start@[i] + j]) by {
                            assert(self.points@.subrange(0, before.len() as int)[self.start@[i] + j] == before[self.start@[i] + j]);
                        }
                    }
                }
            }
            assert(r[o.len() as int] =~= points@);
            assert(r =~= o.push(points@));
        }
        handle
    }

    /// The points of a stored route; none for `no_route()` or an unknown
    /// handle.
    pub fn points(&self, handle: RouteHandle) -> (r: &[P])
        requires
            self.wf(),
        ensures
            r@ == (if handle.0 == NO_ROUTE_INDEX || handle.0 >= self.routes().len() {
                Seq::<P>::empty()
            } else {
                self.routes()[handle.0 as int]
            }),
    {
        if handle.0 == NO_ROUTE_INDEX || handle.0 as usize >= self.start.len() {
            return slice_subrange(self.points.as_slice(), 0, 0);
        }
        let start = self.start[handle.0 as usize] as usize;
        let len = self.len[handle.0 as usize] as usize;
        assert(self.start@[handle.0 as int] + self.len@[handle.0 as int] <= self.points@.len());
        slice_subrange(self.points.as_slice(), start, start + len)
    }

    /// The number of stored routes.
    pub fn len(&self) -> (n: usize)
        ensures
            n == self.routes().len(),
    {
        self.start.len()
    }

    pub fn is_empty(&self) -> (b: bool)
        ensures
            b <==> self.routes().len() == 0,
    {
        self.start.len() == 0
    }
}

/// A route read back by its handle gives exactly the points that were
/// stored, and storing a route leaves every earlier route as it was.
pub proof fn lemma_route_round_trip<P>(before: Seq<Seq<P>>, after: Seq<Seq<P>>, pushed: Seq<P>, h: int)
    requires
        after == before.push(pushed),
        h == before.len(),
    ensures
        after[h] == pushed,
        forall|i: int| 0 <= i < before.len() ==> #[trigger] after[i] == before[i],
{
}

/// Routes stored later never change a route stored before: whatever is
/// appended after it, the route under handle `h` reads back the same.
pub proof fn lemma_routes_persist<P>(before: Seq<Seq<P>>, later: Seq<Seq<P>>, h: int)
    requires
        0 <= h < before.len(),
    ensures
        (before + later)[h] == before[h],
{
}

/// Two strictly increasing lists with the same members are the same list.
proof fn lemma_sorted_lists_equal(a: Seq<u32>, b: Seq<u32>)
    requires
        sorted_strictly(a),
        sorted_strictly(b),
        forall|x: u32| a.contains(x) <==> b.contains(x),
    ensures
        a == b,
    decreases a.len(),
{
    if a.len() == 0 {
        if b.len() > 0 {
            assert(b.contains(b[0]));
        }
        assert(a =~= b);
    } else {
        assert(a.contains(a[0]));
        assert(b.contains(b[0]));
        let j = b.index_of(a[0]);
        let i = a.index_of(b[0]);
        if j > 0 && i > 0 {
            assert(b[0] < b[j]);
            assert(a[0] < a[i]);
        }
        assert(a[0] == b[0]);
        let ta = a.drop_first();
        let tb = b.drop_first();
        assert forall|x: u32| ta.contains(x) <==> tb.contains(x) by {
            if ta.contains(x) {
                let k = ta.index_of(x);
                assert(a[k + 1] == x);
                assert(b.contains(x));
                let m = b.index_of(x);
                assert(m != 0);
                assert(tb[m - 1] == x);
            }
            if tb.contains(x) {
                let k = tb.index_of(x);
                assert(b[k + 1] == x);
                assert(a.contains(x));
                let m = a.index_of(x);
                assert(m != 0);
                assert(ta[m - 1] == x);
            }
        }
        assert forall|p: int, q: int| 0 <= p < q < ta.len() implies ta[p] < ta[q] by {
            assert(ta[p] == a[p + 1] && ta[q] == a[q + 1]);
        }
        assert forall|p: int, q: int| 0 <= p < q < tb.len() implies tb[p] < tb[q] by {
            assert(tb[p] == b[p + 1] && tb[q] == b[q + 1]);
        }
        lemma_sorted_lists_equal(ta, tb);
        assert(a =~= seq![a[0]] + ta);
        assert(b =~= seq![b[0]] + tb);
    }
}

/// Adding an edge that is already there, in either direction, changes
/// nothing: `after` is the adjacency `add_edge(a, b)` or `add_edge(b, a)`
/// produces from `before`, which already links `a` and `b`.
pub proof fn lemma_add_edge_idempotent(before: Seq<Seq<u32>>, after: Seq<Seq<u32>>, a: int, b: int)
    requires
        adjacency_wf(before),
        adjacency_wf(after),
        before.len() == after.len(),
        0 <= a < before.len(),
        0 <= b < before.len(),
        before[a].contains(b as u32),
        forall|u: int, v: int|
            0 <= u < after.len() && 0 <= v < after.len() ==> (#[trigger] after[u].contains(v as u32) <==> (
            before[u].contains(v as u32) || (u == a && v == b) || (u == b && v == a))),
    ensures
        after == before,
{
    assert(before[b].contains(a as u32));
    assert forall|u: int| 0 <= u < before.len() implies #[trigger] after[u] == before[u] by {
        assert forall|x: u32| after[u].contains(x) <==> before[u].contains(x) by {
            if after[u].contains(x) {
                let k = after[u].index_of(x);
                assert(after[u][k] < after.len());
                assert(after[u].contains((x as int) as u32));
            }
            if before[u].contains(x) {
                let k = before[u].index_of(x);
                assert(before[u][k] < before.len());
                assert(before[u].contains((x as int) as u32));
            }
        }
        lemma_sorted_lists_equal(after[u], before[u]);
    }
    assert(after =~= before);
}

/// The length of walk `w` over the points `pts`: its steps added up from
/// the start, an empty or one-node walk having zero length.
pub open spec fn walk_length<P: RoutePoint>(pts: Seq<P>, w: Seq<u32>) -> P::Length
    decreases w.len(),
{
    if w.len() <= 1 {
        P::zero_length_of()
    } else {
        P::sum_of(walk_length(pts, w.drop_last()), pts[w[w.len() - 2] as int].step_length_of(&pts[w.last() as int]))
    }
}

/// `a` is not longer than `b`.
pub open spec fn no_longer<P: RoutePoint>(a: P::Length, b: P::Length) -> bool {
    !P::shorter_of(b, a)
}

/// Adding a step never shortens a length, and adding the same step keeps
/// the order of two lengths.
pub open spec fn sums_monotone<P: RoutePoint>() -> bool {
    &&& forall|a: P::Length, c: P::Length| #[trigger] no_longer::<P>(a, P::sum_of(a, c))
    &&& forall|a: P::Length, b: P::Length, c: P::Length|
        no_longer::<P>(a, b) ==> #[trigger] no_longer::<P>(P::sum_of(a, c), P::sum_of(b, c))
}

/// The length laws under which a shortest-path search finds a shortest
/// path: lengths weakly ordered, sums monotone, found lengths stay bounded.
pub open spec fn path_laws<P: RoutePoint>() -> bool {
    &&& lengths_weakly_ordered::<P>()
    &&& sums_monotone::<P>()
    &&& lengths_stay_bounded::<P>()
}

/// A walk from `from` to `to` along `adj`.
pub open spec fn walk_between(adj: Seq<Seq<u32>>, w: Seq<u32>, from: u32, to: u32) -> bool {
    w.len() > 0 && w[0] == from && w.last() == to && is_walk(adj, w)
}

/// No walk from `from` to `v` is shorter than `d`.
pub open spec fn least_length<P: RoutePoint>(adj: Seq<Seq<u32>>, pts: Seq<P>, from: u32, v: u32, d: P::Length) -> bool {
    forall|w: Seq<u32>| #[trigger] walk_between(adj, w, from, v) ==> no_longer::<P>(d, walk_length(pts, w))
}

proof fn lemma_no_longer_transitive<P: RoutePoint>(a: P::Length, b: P::Length, c: P::Length)
    requires
        lengths_weakly_ordered::<P>(),
        no_longer::<P>(a, b),
        no_longer::<P>(b, c),
    ensures
        no_longer::<P>(a, c),
{
    assert(!P::shorter_of(c, b) && !P::shorter_of(b, a));
}

/// A walk is never shorter than its prefix.
proof fn lemma_prefix_no_longer<P: RoutePoint>(pts: Seq<P>, w: Seq<u32>, k: int)
    requires
        path_laws::<P>(),
        1 <= k <= w.len(),
    ensures
        no_longer::<P>(walk_length(pts, w.take(k)), walk_length(pts, w)),
    decreases w.len() - k,
{
    if k == w.len() {
        assert(w.take(k) =~= w);
        assert(!P::shorter_of(walk_length(pts, w), walk_length(pts, w)));
    } else {
        let t = w.take(k + 1);
        assert(t.drop_last() =~= w.take(k));
        assert(t[t.len() - 2] == w[k - 1] && t.last() == w[k]);
        let a = walk_length(pts, w.take(k));
        let c = pts[w[k - 1] as int].step_length_of(&pts[w[k] as int]);
        assert(walk_length(pts, t) == P::sum_of(a, c));
        assert(no_longer::<P>(a, P::sum_of(a, c)));
        lemma_prefix_no_longer(pts, w, k + 1);
        lemma_no_longer_transitive::<P>(a, walk_length(pts, t), walk_length(pts, w));
    }
}

/// Every walk is at least as long as the empty walk.
proof fn lemma_zero_no_longer<P: RoutePoint>(pts: Seq<P>, w: Seq<u32>)
    requires
        path_laws::<P>(),
        w.len() >= 1,
    ensures
        no_longer::<P>(P::zero_length_of(), walk_length(pts, w)),
{
    lemma_prefix_no_longer(pts, w, 1);
    assert(w.take(1).len() == 1);
}

/// The first node of a walk that is not marked, when its first node is
/// marked and its last is not.
proof fn lemma_first_unmarked(marks: Seq<bool>, w: Seq<u32>) -> (k: int)
    requires
        w.len() > 0,
        forall|i: int| 0 <= i < w.len() ==> (#[trigger] w[i]) < marks.len(),
        marks[w[0] as int],
        !marks[w.last() as int],
    ensures
        1 <= k < w.len(),
        !marks[w[k] as int],
        marks[w[k - 1] as int],
    decreases w.len(),
{
    if !marks[w[w.len() - 2] as int] {
        let d = w.drop_last();
        assert(d[0] == w[0]);
        let k = lemma_first_unmarked(marks, d);
        assert(d[k] == w[k] && d[k - 1] == w[k - 1]);
        k
    } else {
        (w.len() - 1) as int
    }
}

/// A prefix of a walk is a walk.
proof fn lemma_walk_take(adj: Seq<Seq<u32>>, w: Seq<u32>, k: int)
    requires
        is_walk(adj, w),
        1 <= k <= w.len(),
    ensures
        is_walk(adj, w.take(k)),
{
    let t = w.take(k);
    assert forall|i: int| 0 <= i < t.len() implies (#[trigger] t[i]) < adj.len() by {
        assert(t[i] == w[i]);
    }
    assert forall|i: int| 0 <= i < t.len() - 1 implies #[trigger] adj[t[i] as int].contains(t[i + 1]) by {
        assert(t[i] == w[i] && t[i + 1] == w[i + 1]);
    }
}

/// Every settled node carries the least length of a walk to it.
spec fn settled_least<P: RoutePoint>(
    adj: Seq<Seq<u32>>,
    pts: Seq<P>,
    from: u32,
    visited: Seq<bool>,
    dist: Seq<P::Length>,
) -> bool {
    forall|v: int| 0 <= v < adj.len() && #[trigger] visited[v] ==> least_length(adj, pts, from, v as u32, dist[v])
}

/// Every unsettled neighbour of a settled node other than `skip` is reached,
/// no longer than the way through that node.
spec fn frontier_bounded_but<P: RoutePoint>(
    adj: Seq<Seq<u32>>,
    pts: Seq<P>,
    visited: Seq<bool>,
    reached: Seq<bool>,
    dist: Seq<P::Length>,
    skip: int,
) -> bool {
    forall|x: int, k: int|
        0 <= x < adj.len() && x != skip && visited[x] && 0 <= k < adj[x].len() && !visited[adj[x][k] as int] ==> reached[
            #[trigger] adj[x][k] as int] && no_longer::<P>(
            dist[adj[x][k] as int],
            P::sum_of(dist[x], pts[x].step_length_of(&pts[adj[x][k] as int])),
        )
}

/// The length of every reached node but the start is the length of its
/// predecessor plus the step between them.
spec fn dist_follows_links<P: RoutePoint>(
    pts: Seq<P>,
    from: u32,
    reached: Seq<bool>,
    prev: Seq<u32>,
    dist: Seq<P::Length>,
) -> bool {
    forall|v: int|
        0 <= v < reached.len() && #[trigger] reached[v] && v != from ==> dist[v] == P::sum_of(
            dist[prev[v] as int],
            pts[prev[v] as int].step_length_of(&pts[v]),
        )
}

/// A strictly shorter length stays no longer than what the longer one was
/// no longer than.
proof fn lemma_shorter_no_longer<P: RoutePoint>(a: P::Length, b: P::Length, c: P::Length)
    requires
        lengths_weakly_ordered::<P>(),
        P::shorter_of(a, b),
        no_longer::<P>(b, c),
    ensures
        no_longer::<P>(a, c),
{
    if P::shorter_of(c, a) {
        assert(P::shorter_of(c, b));
    }
}

/// Lowering the length of an unsettled node `next` through the settled node
/// `current` keeps the search's length facts.
proof fn lemma_relax_keeps_order<P: RoutePoint>(
    adj: Seq<Seq<u32>>,
    pts: Seq<P>,
    from: u32,
    visited: Seq<bool>,
    reached: Seq<bool>,
    dist: Seq<P::Length>,
    prev: Seq<u32>,
    current: int,
    next: int,
    list: Seq<u32>,
    j: int,
)
    requires
        path_laws::<P>(),
        adj.len() == pts.len(),
        adj.len() <= u32::MAX,
        adjacency_wf(adj),
        reached.len() == adj.len() && visited.len() == adj.len() && prev.len() == adj.len() && dist.len() == adj.len(),
        0 <= current < adj.len(),
        0 <= next < adj.len(),
        visited[current],
        !visited[next],
        (from as int) < adj.len(),
        visited[from as int],
        list == adj[current],
        0 <= j < list.len(),
        list[j] == next,
        reached[next] ==> P::shorter_of(P::sum_of(dist[current], pts[current].step_length_of(&pts[next])), dist[next]),
        forall|v: int| 0 <= v < adj.len() && #[trigger] visited[v] ==> reached[v],
        forall|v: int| 0 <= v < adj.len() && #[trigger] reached[v] && v != from ==> visited[prev[v] as int] && (prev[v] as int) < adj.len(),
        dist[from as int] == P::zero_length_of(),
        settled_least(adj, pts, from, visited, dist),
        frontier_bounded_but(adj, pts, visited, reached, dist, current),
        forall|k: int|
            0 <= k < j && !visited[list[k] as int] ==> no_longer::<P>(
                dist[#[trigger] list[k] as int],
                P::sum_of(dist[current], pts[current].step_length_of(&pts[list[k] as int])),
            ),
        dist_follows_links(pts, from, reached, prev, dist),
    ensures
        ({
            let cand = P::sum_of(dist[current], pts[current].step_length_of(&pts[next]));
            let d2 = dist.update(next, cand);
            let r2 = reached.update(next, true);
            let p2 = prev.update(next, current as u32);
            &&& d2[from as int] == P::zero_length_of()
            &&& settled_least(adj, pts, from, visited, d2)
            &&& frontier_bounded_but(adj, pts, visited, r2, d2, current)
            &&& forall|k: int|
                0 <= k < j && !visited[list[k] as int] ==> no_longer::<P>(
                    d2[#[trigger] list[k] as int],
                    P::sum_of(d2[current], pts[current].step_length_of(&pts[list[k] as int])),
                )
            &&& dist_follows_links(pts, from, r2, p2, d2)
        }),
{
    let cand = P::sum_of(dist[current], pts[current].step_length_of(&pts[next]));
    let d2 = dist.update(next, cand);
    let r2 = reached.update(next, true);
    let p2 = prev.update(next, current as u32);
    assert(next != current && next != from as int);
    assert(d2[from as int] == dist[from as int]);
    assert(!P::shorter_of(cand, cand));
    assert forall|v: int| 0 <= v < adj.len() && #[trigger] visited[v] implies least_length(
        adj,
        pts,
        from,
        v as u32,
        d2[v],
    ) by {
        assert(d2[v] == dist[v]);
    }
    assert forall|x: int, k: int|
        0 <= x < adj.len() && x != current && visited[x] && 0 <= k < adj[x].len() && !visited[adj[x][k] as int] implies r2[
            #[trigger] adj[x][k] as int] && no_longer::<P>(
            d2[adj[x][k] as int],
            P::sum_of(d2[x], pts[x].step_length_of(&pts[adj[x][k] as int])),
        ) by {
        assert(d2[x] == dist[x]);
        assert(reached[adj[x][k] as int]);
        assert(no_longer::<P>(
            dist[adj[x][k] as int],
            P::sum_of(dist[x], pts[x].step_length_of(&pts[adj[x][k] as int])),
        ));
        if adj[x][k] as int == next {
            lemma_shorter_no_longer::<P>(
                cand,
                dist[next],
                P::sum_of(dist[x], pts[x].step_length_of(&pts[adj[x][k] as int])),
            );
        }
    }
    assert(d2[current] == dist[current]);
    assert forall|k: int| 0 <= k < j && !visited[list[k] as int] implies no_longer::<P>(
        d2[#[trigger] list[k] as int],
        P::sum_of(d2[current], pts[current].step_length_of(&pts[list[k] as int])),
    ) by {
        assert(list[k] == adj[current][k]);
        if list[k] as int == next {
            assert(d2[list[k] as int] == cand);
        } else {
            assert(d2[list[k] as int] == dist[list[k] as int]);
        }
    }
    assert forall|v: int| 0 <= v < r2.len() && #[trigger] r2[v] && v != from implies d2[v] == P::sum_of(
        d2[p2[v] as int],
        pts[p2[v] as int].step_length_of(&pts[v]),
    ) by {
        if v != next {
            assert(reached[v]);
            assert(visited[prev[v] as int]);
            assert(d2[v] == dist[v] && p2[v] == prev[v] && d2[prev[v] as int] == dist[prev[v] as int]);
        } else {
            assert(p2[v] as int == current);
            assert(d2[v] == cand);
        }
    }
}

/// A walk whose every node's length is its predecessor's plus the step
/// between them, from a start of length zero, has the length of its end.
proof fn lemma_links_length<P: RoutePoint>(pts: Seq<P>, w: Seq<u32>, dist: Seq<P::Length>)
    requires
        w.len() >= 1,
        dist[w[0] as int] == P::zero_length_of(),
        forall|i: int|
            1 <= i < w.len() ==> #[trigger] dist[w[i] as int] == P::sum_of(
                dist[w[i - 1] as int],
                pts[w[i - 1] as int].step_length_of(&pts[w[i] as int]),
            ),
    ensures
        walk_length(pts, w) == dist[w.last() as int],
    decreases w.len(),
{
    if w.len() > 1 {
        let d = w.drop_last();
        assert forall|i: int| 1 <= i < d.len() implies #[trigger] dist[d[i] as int] == P::sum_of(
            dist[d[i - 1] as int],
            pts[d[i - 1] as int].step_length_of(&pts[d[i] as int]),
        ) by {
            assert(d[i] == w[i] && d[i - 1] == w[i - 1]);
            assert(dist[w[i] as int] == P::sum_of(
                dist[w[i - 1] as int],
                pts[w[i - 1] as int].step_length_of(&pts[w[i] as int]),
            ));
        }
        lemma_links_length(pts, d, dist);
        let l = w.len() - 1;
        assert(dist[w[l] as int] == P::sum_of(
            dist[w[l - 1] as int],
            pts[w[l - 1] as int].step_length_of(&pts[w[l] as int]),
        ));
    }
}

/// The node a search settles next, the least of the reached unsettled
/// nodes, has the least length of all walks to it.
proof fn lemma_selected_is_least<P: RoutePoint>(
    adj: Seq<Seq<u32>>,
    pts: Seq<P>,
    from: u32,
    visited: Seq<bool>,
    reached: Seq<bool>,
    dist: Seq<P::Length>,
    current: int,
)
    requires
        path_laws::<P>(),
        adj.len() == pts.len(),
        adj.len() == visited.len(),
        adj.len() == reached.len(),
        adj.len() == dist.len(),
        (from as int) < adj.len(),
        adj.len() <= u32::MAX,
        0 <= current < adj.len(),
        reached[current],
        !visited[current],
        current == from || visited[from as int],
        current == from ==> dist[current] == P::zero_length_of(),
        forall|v: int| 0 <= v < adj.len() && #[trigger] visited[v] ==> least_length(adj, pts, from, v as u32, dist[v]),
        forall|x: int, k: int|
            0 <= x < adj.len() && visited[x] && 0 <= k < adj[x].len() && !visited[adj[x][k] as int] ==> reached[
                #[trigger] adj[x][k] as int] && no_longer::<P>(
                dist[adj[x][k] as int],
                P::sum_of(dist[x], pts[x].step_length_of(&pts[adj[x][k] as int])),
            ),
        forall|u: int| 0 <= u < adj.len() && #[trigger] reached[u] && !visited[u] ==> no_longer::<P>(dist[current], dist[u]),
    ensures
        least_length(adj, pts, from, current as u32, dist[current]),
{
    assert forall|w: Seq<u32>| #[trigger] walk_between(adj, w, from, current as u32) implies no_longer::<P>(
        dist[current],
        walk_length(pts, w),
    ) by {
        if current == from as int {
            lemma_zero_no_longer(pts, w);
        } else {
            assert(w.last() == current as u32);
            assert(w[w.len() - 1] < adj.len());
            assert(w[0] < adj.len());
            assert((current as u32) as int == current);
            assert(visited[w[0] as int]);
            assert(!visited[w.last() as int]);
            assert(forall|i: int| 0 <= i < w.len() ==> (#[trigger] w[i]) < visited.len());
            let k = lemma_first_unmarked(visited, w);
            let x = w[k - 1] as int;
            let u = w[k] as int;
            assert(adj[w[k - 1] as int].contains(w[(k - 1) + 1]));
            assert(adj[x].contains(w[k]));
            let kk = adj[x].index_of(w[k]);
            assert(adj[x][kk] == w[k]);
            let step = pts[x].step_length_of(&pts[u]);
            lemma_walk_take(adj, w, k);
            assert(w.take(k)[0] == from && w.take(k).last() == w[k - 1]);
            assert(walk_between(adj, w.take(k), from, x as u32));
            assert(least_length(adj, pts, from, x as u32, dist[x]));
            let a = walk_length(pts, w.take(k));
            assert(no_longer::<P>(dist[x], a));
            let t = w.take(k + 1);
            assert(t.drop_last() =~= w.take(k));
            assert(t[t.len() - 2] == w[k - 1] && t.last() == w[k]);
            assert(walk_length(pts, t) == P::sum_of(a, step));
            assert(no_longer::<P>(P::sum_of(dist[x], step), P::sum_of(a, step)));
            assert(reached[u] && no_longer::<P>(dist[u], P::sum_of(dist[x], step)));
            assert(no_longer::<P>(dist[current], dist[u]));
            lemma_no_longer_transitive::<P>(dist[u], P::sum_of(dist[x], step), walk_length(pts, t));
            lemma_no_longer_transitive::<P>(dist[current], dist[u], walk_length(pts, t));
            lemma_prefix_no_longer(pts, w, k + 1);
            lemma_no_longer_transitive::<P>(dist[current], walk_length(pts, t), walk_length(pts, w));
        }
    }
}

} // verus!
