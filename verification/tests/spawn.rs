use crowd_core::ids::derive_agent_id;
use crowd_core::rng::{Purpose, StableRng};
use crowd_core::spawn::{ScheduledSpawn, SpawnQuota, SpawnState};

fn quota(count: u32, per_tick: u32) -> SpawnQuota {
    SpawnQuota { id: 0, population_id: 0, count, per_tick }
}

fn run(regions: &Vec<SpawnQuota>, ticks: u32) -> Vec<ScheduledSpawn> {
    let mut state = SpawnState::new(regions.len());
    let mut all = Vec::new();
    for _ in 0..ticks {
        all.extend(state.schedule(regions, 42));
    }
    all
}

#[test]
fn spawns_are_rate_limited_per_tick() {
    let regions = vec![quota(10, 3)];
    let mut state = SpawnState::new(1);
    assert_eq!(state.schedule(&regions, 42).len(), 3);
    assert_eq!(state.emitted(0), 3);
}

#[test]
fn spawning_stops_at_the_configured_count() {
    let regions = vec![quota(10, 3)];
    let all = run(&regions, 100);
    assert_eq!(all.len(), 10);
    let ordinals: Vec<u32> = all.iter().map(|s| s.ordinal).collect();
    assert_eq!(ordinals, (0..10).collect::<Vec<u32>>());
}

#[test]
fn agent_attributes_do_not_depend_on_spawn_rate() {
    // The same ordinal gets the same agent, and so the same attribute
    // streams, whether it was emitted alone or in a burst.
    let fast = run(&vec![quota(10, 10)], 10);
    let slow = run(&vec![quota(10, 1)], 10);
    assert_eq!(fast, slow);
    for (f, s) in fast.iter().zip(slow.iter()) {
        assert_eq!(f.agent_id, derive_agent_id(42, 0, 0, f.ordinal));
        for purpose in [Purpose::Radius, Purpose::PreferredSpeed] {
            let mut a = StableRng::for_agent(42, f.agent_id, purpose);
            let mut b = StableRng::for_agent(42, s.agent_id, purpose);
            assert_eq!(a.next_u64(), b.next_u64());
        }
    }
}

#[test]
fn regions_are_scheduled_in_order() {
    let regions = vec![
        SpawnQuota { id: 3, population_id: 1, count: 2, per_tick: 5 },
        SpawnQuota { id: 4, population_id: 1, count: 1, per_tick: 5 },
    ];
    let mut state = SpawnState::new(2);
    let due = state.schedule(&regions, 7);
    let places: Vec<(usize, u32)> = due.iter().map(|s| (s.spawn_index, s.ordinal)).collect();
    assert_eq!(places, vec![(0, 0), (0, 1), (1, 0)]);
    assert_eq!(due[2].agent_id, derive_agent_id(7, 1, 4, 0));
    assert!(state.schedule(&regions, 7).is_empty());
}

#[test]
fn all_emitted_reports_completion() {
    let regions = vec![quota(4, 2)];
    let mut state = SpawnState::new(1);
    state.schedule(&regions, 42);
    assert!(!state.all_emitted(&regions));
    state.schedule(&regions, 42);
    assert!(state.all_emitted(&regions));
}

#[test]
fn a_region_of_zero_agents_is_complete_at_once() {
    let regions = vec![quota(0, 4)];
    let mut state = SpawnState::new(1);
    assert!(state.all_emitted(&regions));
    assert!(state.schedule(&regions, 1).is_empty());
    assert_eq!(state.emitted(0), 0);
}
