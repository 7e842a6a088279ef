use crowd_core::route::{no_route, RouteArena, RoutePoint, TilePoint, WaypointGraph};

#[derive(Clone, Copy, Debug, PartialEq)]
struct Vec2 {
    x: f32,
    y: f32,
}

impl Vec2 {
    const ZERO: Vec2 = Vec2 { x: 0.0, y: 0.0 };

    fn new(x: f32, y: f32) -> Vec2 {
        Vec2 { x, y }
    }

    fn distance_squared(self, other: Vec2) -> f32 {
        let dx = self.x - other.x;
        let dy = self.y - other.y;
        dx * dx + dy * dy
    }
}

impl RoutePoint for Vec2 {
    type Length = f32;

    fn squared_distance_of(&self, other: &Self) -> f32 {
        self.distance_squared(*other)
    }

    fn step_length_of(&self, other: &Self) -> f32 {
        self.distance_squared(*other).sqrt()
    }

    fn zero_length_of() -> f32 {
        0.0
    }

    fn unbounded_length_of() -> f32 {
        f32::INFINITY
    }

    fn sum_of(a: f32, b: f32) -> f32 {
        a + b
    }

    fn shorter_of(a: f32, b: f32) -> bool {
        a < b
    }

    fn bounded_of(a: f32) -> bool {
        a.is_finite()
    }

    fn squared_distance_to(&self, other: &Self) -> f32 {
        self.distance_squared(*other)
    }

    fn step_length(&self, other: &Self) -> f32 {
        self.distance_squared(*other).sqrt()
    }

    fn zero_length() -> f32 {
        0.0
    }

    fn unbounded_length() -> f32 {
        f32::INFINITY
    }

    fn add_lengths(a: f32, b: f32) -> f32 {
        a + b
    }

    fn shorter(a: f32, b: f32) -> bool {
        a < b
    }

    fn is_bounded(a: f32) -> bool {
        a.is_finite()
    }
}

/// 0 -- 1 -- 2  with a detour 0 -- 3 -- 2 that is longer.
fn diamond() -> WaypointGraph<Vec2> {
    let mut g = WaypointGraph::new();
    let n0 = g.add_node(Vec2::new(0.0, 0.0));
    let n1 = g.add_node(Vec2::new(1.0, 0.0));
    let n2 = g.add_node(Vec2::new(2.0, 0.0));
    let n3 = g.add_node(Vec2::new(1.0, 5.0));
    g.add_edge(n0, n1);
    g.add_edge(n1, n2);
    g.add_edge(n0, n3);
    g.add_edge(n3, n2);
    g
}

#[test]
fn shortest_path_prefers_the_shorter_route() {
    assert_eq!(diamond().shortest_path(0, 2), Some(vec![0, 1, 2]));
}

#[test]
fn shortest_path_to_self_is_a_single_node() {
    assert_eq!(diamond().shortest_path(1, 1), Some(vec![1]));
}

#[test]
fn shortest_path_returns_none_when_unreachable() {
    let mut g = diamond();
    let isolated = g.add_node(Vec2::new(99.0, 99.0));
    assert_eq!(g.shortest_path(0, isolated), None);
}

#[test]
fn nearest_node_picks_the_closest_and_breaks_ties_by_index() {
    let g = diamond();
    assert_eq!(g.nearest_node(Vec2::new(1.9, 0.0)), Some(2));
    assert_eq!(g.nearest_node(Vec2::new(0.5, 0.0)), Some(0));
}

#[test]
fn is_connected_detects_an_isolated_node() {
    assert!(diamond().is_connected());
    let mut g = diamond();
    g.add_node(Vec2::new(99.0, 99.0));
    assert!(!g.is_connected());
}

#[test]
fn empty_graph_has_no_nearest_node() {
    assert_eq!(WaypointGraph::<Vec2>::new().nearest_node(Vec2::ZERO), None);
}

#[test]
fn route_arena_round_trips_points() {
    let mut arena = RouteArena::new();
    let a = arena.push_route(&[Vec2::new(0.0, 0.0), Vec2::new(1.0, 0.0)]);
    let b = arena.push_route(&[Vec2::new(5.0, 5.0)]);
    assert_eq!(arena.points(a).len(), 2);
    assert_eq!(arena.points(b), &[Vec2::new(5.0, 5.0)]);
    assert_eq!(arena.len(), 2);
}

#[test]
fn no_route_handle_yields_no_points() {
    let arena = RouteArena::<Vec2>::new();
    assert!(arena.points(no_route()).is_empty());
}

#[test]
fn shortest_path_out_of_range_is_none() {
    assert_eq!(diamond().shortest_path(0, 9), None);
    assert_eq!(diamond().shortest_path(9, 0), None);
}

#[test]
fn shortest_path_walks_along_edges() {
    let g = diamond();
    let path = g.shortest_path(3, 1).expect("connected");
    assert_eq!(path.first(), Some(&3));
    assert_eq!(path.last(), Some(&1));
    for pair in path.windows(2) {
        assert!(g.neighbors(pair[0]).contains(&pair[1]));
    }
}

#[test]
fn edges_are_undirected_sorted_and_ignore_repeats_and_self_loops() {
    let mut g = diamond();
    g.add_edge(2, 0);
    g.add_edge(2, 0);
    g.add_edge(1, 1);
    assert_eq!(g.neighbors(0), &[1, 2, 3]);
    assert_eq!(g.neighbors(2), &[0, 1, 3]);
    assert_eq!(g.neighbors(1), &[0, 2]);
}

#[test]
fn empty_graph_is_connected() {
    assert!(WaypointGraph::<Vec2>::new().is_connected());
}

#[test]
fn unknown_route_handle_yields_no_points() {
    let mut arena = RouteArena::new();
    let a = arena.push_route(&[Vec2::new(1.0, 2.0)]);
    assert_eq!(a.0, 0);
    assert!(arena.points(crowd_core::route::RouteHandle(5)).is_empty());
    assert!(!arena.is_empty());
    assert_eq!(arena.points(a), &[Vec2::new(1.0, 2.0)]);
}

#[test]
fn node_positions_and_count_are_kept() {
    let g = diamond();
    assert_eq!(g.node_count(), 4);
    assert_eq!(g.position(3), Vec2::new(1.0, 5.0));
}

#[test]
fn tile_points_find_the_first_nearest_node() {
    let mut g: WaypointGraph<TilePoint> = WaypointGraph::new();
    g.add_node(TilePoint { col: 0, row: 0 });
    g.add_node(TilePoint { col: 4, row: 0 });
    g.add_node(TilePoint { col: 2, row: 0 });
    // Equidistant from nodes 0 and 1, and nearer to node 2.
    assert_eq!(g.nearest_node(TilePoint { col: 2, row: 1 }), Some(2));
    // Equidistant from nodes 0 and 2: the first wins.
    assert_eq!(g.nearest_node(TilePoint { col: 1, row: 0 }), Some(0));
    assert_eq!(TilePoint { col: 1, row: 2 }.squared_distance_to(&TilePoint { col: 4, row: 6 }), 25);
    assert_eq!(TilePoint { col: 1, row: 2 }.step_length(&TilePoint { col: 4, row: 6 }), 7);
    assert_eq!(TilePoint::add_lengths(u64::MAX - 1, 5), u64::MAX);
}

#[test]
fn tile_points_route_along_the_shorter_side() {
    let mut g: WaypointGraph<TilePoint> = WaypointGraph::new();
    let a = g.add_node(TilePoint { col: 0, row: 0 });
    let b = g.add_node(TilePoint { col: 1, row: 0 });
    let c = g.add_node(TilePoint { col: 2, row: 0 });
    let d = g.add_node(TilePoint { col: 1, row: 5 });
    g.add_edge(a, b);
    g.add_edge(b, c);
    g.add_edge(a, d);
    g.add_edge(d, c);
    assert_eq!(g.shortest_path(a, c), Some(vec![a, b, c]));
    let e = g.add_node(TilePoint { col: 9, row: 9 });
    assert_eq!(g.shortest_path(a, e), None);
}
