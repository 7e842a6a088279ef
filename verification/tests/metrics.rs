use crowd_core::metrics::{SlotTick, TickCounters};

fn slot(tier: u8) -> SlotTick {
    SlotTick {
        live: true,
        tier,
        observed: true,
        pair_overlaps: 0,
        penetrating: false,
        deep: false,
        partner_tier: None,
        stalled: false,
        braking: false,
    }
}

#[test]
fn a_contact_episode_spans_unobserved_ticks() {
    let mut counters = TickCounters::new();
    let mut touching = slot(1);
    touching.penetrating = true;
    touching.pair_overlaps = 2;
    touching.partner_tier = Some(2);
    counters.count_tick(&vec![touching]);
    let mut unseen = slot(1);
    unseen.observed = false;
    counters.count_tick(&vec![unseen]);
    counters.count_tick(&vec![touching]);
    // agent-ticks, crowd and tier 1
    assert_eq!(counters.get(0, 0), 3);
    assert_eq!(counters.get(2, 0), 3);
    assert_eq!(counters.get(1, 0), 0);
    // observed agent-ticks
    assert_eq!(counters.get(2, 1), 2);
    // overlapping pairs and agent-ticks
    assert_eq!(counters.get(0, 2), 4);
    assert_eq!(counters.get(0, 3), 2);
    // one episode: the unobserved tick did not end it
    assert_eq!(counters.get(0, 4), 1);
    // partner tier 2
    assert_eq!(counters.get(2, 7), 2);
    let clear = slot(1);
    counters.count_tick(&vec![clear]);
    counters.count_tick(&vec![touching]);
    assert_eq!(counters.get(0, 4), 2);
}

#[test]
fn stalls_count_once_per_agent_and_skip_departed_slots() {
    let mut counters = TickCounters::new();
    let mut stuck = slot(0);
    stuck.stalled = true;
    stuck.braking = true;
    let mut gone = slot(3);
    gone.live = false;
    gone.stalled = true;
    counters.count_tick(&vec![stuck, gone]);
    let mut braking = slot(0);
    braking.braking = true;
    counters.count_tick(&vec![braking, gone]);
    counters.count_tick(&vec![stuck, gone]);
    // stalled agent-ticks, stall episodes, agents ever stalled
    assert_eq!(counters.get(0, 10), 2);
    assert_eq!(counters.get(0, 11), 1);
    assert_eq!(counters.get(0, 12), 1);
    let walking = slot(0);
    counters.count_tick(&vec![walking, gone]);
    counters.count_tick(&vec![stuck, gone]);
    assert_eq!(counters.get(1, 11), 2);
    assert_eq!(counters.get(1, 12), 1);
    assert_eq!(counters.get(4, 0), 0);
    assert_eq!(counters.get(0, 0), 5);
}
