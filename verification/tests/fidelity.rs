use crowd_core::fidelity::{s2_update_due, should_solve, SimulationTier};
use crowd_core::ids::AgentId;

#[test]
fn unscheduled_solving_always_runs() {
    for tier in [SimulationTier::S0, SimulationTier::S1, SimulationTier::S2, SimulationTier::S3] {
        assert!(should_solve(tier, AgentId(5), None));
    }
}

#[test]
fn scheduled_solving_follows_the_tier() {
    let id = AgentId(77);
    assert!(should_solve(SimulationTier::S0, id, Some(3)));
    assert!(should_solve(SimulationTier::S1, id, Some(3)));
    assert!(!should_solve(SimulationTier::S3, id, Some(3)));
    for tick in 0..4 {
        assert_eq!(should_solve(SimulationTier::S2, id, Some(tick)), s2_update_due(id, tick));
    }
    let due: Vec<bool> = (0..4).map(|tick| should_solve(SimulationTier::S2, id, Some(tick))).collect();
    assert_eq!(due.iter().filter(|d| **d).count(), 2);
}
