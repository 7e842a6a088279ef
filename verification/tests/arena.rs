use crowd_core::arena::NeighborArena;

#[derive(Clone, Copy, Debug, PartialEq)]
struct Neighbor {
    slot: u32,
    dist_sq: f32,
}

#[test]
fn empty_arena_returns_empty_slices() {
    let mut arena = NeighborArena::<Neighbor>::new();
    arena.begin(3);
    assert!(arena.neighbors(0).is_empty());
    assert!(arena.neighbors(2).is_empty());
}

#[test]
fn pushed_neighbors_round_trip_per_agent() {
    let mut arena = NeighborArena::new();
    arena.begin(2);
    arena.push(0, &[Neighbor { slot: 5, dist_sq: 1.0 }]);
    arena.push(
        1,
        &[Neighbor { slot: 6, dist_sq: 2.0 }, Neighbor { slot: 7, dist_sq: 3.0 }],
    );
    assert_eq!(arena.neighbors(0).len(), 1);
    assert_eq!(arena.neighbors(0)[0].slot, 5);
    assert_eq!(arena.neighbors(1).len(), 2);
    assert_eq!(arena.neighbors(1)[1].slot, 7);
}

#[test]
fn begin_reuses_capacity_without_reallocating() {
    let mut arena = NeighborArena::new();
    arena.begin(4);
    arena.push(0, &[Neighbor { slot: 1, dist_sq: 1.0 }; 32]);
    let capacity = arena.capacity();
    assert!(capacity >= 32);
    arena.begin(4);
    assert_eq!(arena.capacity(), capacity);
    assert!(arena.neighbors(0).is_empty());
}

#[test]
fn push_order_does_not_change_the_lists() {
    let a = [Neighbor { slot: 1, dist_sq: 0.5 }];
    let b = [Neighbor { slot: 2, dist_sq: 0.25 }, Neighbor { slot: 3, dist_sq: 4.0 }];
    let mut first = NeighborArena::new();
    first.begin(2);
    first.push(0, &a);
    first.push(1, &b);
    let mut second = NeighborArena::new();
    second.begin(2);
    second.push(1, &b);
    second.push(0, &a);
    for slot in 0..2 {
        assert_eq!(first.neighbors(slot), second.neighbors(slot));
    }
}

#[test]
fn observation_flags_tell_alone_from_skipped() {
    let mut arena = NeighborArena::<Neighbor>::new();
    arena.begin(3);
    arena.push(0, &[]);
    arena.push_unobserved(1);
    assert!(arena.is_observed(0));
    assert!(!arena.is_observed(1));
    assert!(!arena.is_observed(2));
    assert!(!arena.is_observed(7));
    assert!(arena.neighbors(0).is_empty());
    assert!(arena.neighbors(9).is_empty());
}
