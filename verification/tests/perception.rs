use crowd_core::blackboard::BlackboardValueV1;
use crowd_core::ids::AgentId;
use crowd_core::keyed::TextMap;
use crowd_core::perception::{
    apply_perception_to_context, ObservationChannelV1, ObservationV1, PerceptionSnapshotV1,
    PerceptionValueV1,
};

fn observation(channel: ObservationChannelV1, value: PerceptionValueV1, key: Option<&str>) -> ObservationV1 {
    ObservationV1 { channel, value, source_agent_id: None, key: key.map(|k| k.to_string()) }
}

fn snapshot(observations: Vec<ObservationV1>) -> PerceptionSnapshotV1 {
    PerceptionSnapshotV1 {
        schema_version: 1,
        agent_id: AgentId(1),
        tick: 4,
        observations,
        memory: Vec::new(),
        degraded_evidence: None,
    }
}

struct Context {
    bools: TextMap<bool>,
    numbers: TextMap<i32>,
    board: TextMap<BlackboardValueV1>,
    events: TextMap<()>,
}

fn apply(s: &PerceptionSnapshotV1) -> Context {
    let mut c = Context { bools: TextMap::new(), numbers: TextMap::new(), board: TextMap::new(), events: TextMap::new() };
    apply_perception_to_context(s, &mut c.bools, &mut c.numbers, &mut c.board, &mut c.events);
    c
}

#[test]
fn agent_observations_set_flags_and_blackboard_agents() {
    let c = apply(&snapshot(vec![
        observation(ObservationChannelV1::VisionAgent, PerceptionValueV1::Agent(AgentId(7)), None),
        observation(ObservationChannelV1::NearestThreat, PerceptionValueV1::Agent(AgentId(9)), None),
    ]));
    assert_eq!(c.bools.get("vision_agent"), Some(&true));
    assert_eq!(c.bools.get("threat_visible"), Some(&true));
    assert_eq!(c.bools.get("touch_contact"), None);
    assert_eq!(c.board.get("vision_agent"), Some(&BlackboardValueV1::AgentId(AgentId(7))));
    assert_eq!(c.board.get("threat_visible"), Some(&BlackboardValueV1::AgentId(AgentId(9))));
}

#[test]
fn heard_events_are_collected() {
    let c = apply(&snapshot(vec![
        observation(ObservationChannelV1::Hearing, PerceptionValueV1::Text("bell".to_string()), None),
        observation(ObservationChannelV1::Hearing, PerceptionValueV1::Text("alarm".to_string()), None),
    ]));
    assert!(c.events.contains_key("bell"));
    assert!(c.events.contains_key("alarm"));
    assert_eq!(c.events.len(), 2);
    assert_eq!(c.board.get("last_heard_event"), Some(&BlackboardValueV1::Text("alarm".to_string())));
}

#[test]
fn numbers_are_recorded_and_later_ones_win() {
    let c = apply(&snapshot(vec![
        observation(ObservationChannelV1::Density, PerceptionValueV1::NumberI32(300), None),
        observation(ObservationChannelV1::Density, PerceptionValueV1::NumberI32(500), None),
        observation(ObservationChannelV1::SemanticDistance, PerceptionValueV1::NumberI32(42), Some("to_exit")),
    ]));
    assert_eq!(c.numbers.get("perception_density"), Some(&500));
    assert_eq!(c.numbers.get("semantic_distance"), Some(&42));
    assert_eq!(c.board.get("to_exit"), Some(&BlackboardValueV1::NumberI32(42)));
    assert_eq!(c.board.get("semantic_distance"), None);
}

#[test]
fn mismatched_channels_and_values_change_nothing() {
    let c = apply(&snapshot(vec![
        observation(ObservationChannelV1::Density, PerceptionValueV1::Bool(true), None),
        observation(ObservationChannelV1::NearestFriend, PerceptionValueV1::Agent(AgentId(3)), None),
        observation(ObservationChannelV1::Hearing, PerceptionValueV1::NumberI32(1), None),
    ]));
    assert_eq!(c.bools.len(), 0);
    assert_eq!(c.numbers.len(), 0);
    assert_eq!(c.board.len(), 0);
    assert_eq!(c.events.len(), 0);
}

use crowd_core::perception::{NeighborSenseV1, PerceptionEngine};

fn sense(id: u64, visible: bool, touch: bool) -> NeighborSenseV1 {
    NeighborSenseV1 { agent_id: AgentId(id), visible, within_touch_range: touch }
}

#[test]
fn engine_orders_observations_and_reports_relations() {
    let mut engine = PerceptionEngine::new(8, 64);
    engine.set_friendship(AgentId(3), AgentId(1), true);
    engine.set_threat(AgentId(1), AgentId(2), true);
    engine.set_touch_event(AgentId(2), AgentId(1));
    engine.set_hearing_event(AgentId(1), "bell".to_string());
    engine.set_semantic_distance_millionths(AgentId(1), "exit".to_string(), -5);
    engine.set_attention_target(AgentId(1), AgentId(9));
    engine.set_group_members("g".to_string(), vec![AgentId(3), AgentId(1), AgentId(3)]);
    assert_eq!(engine.group_for(AgentId(1)), Some(&vec![AgentId(1), AgentId(3)]));
    assert_eq!(engine.group_for(AgentId(5)), None);
    let s = engine.observe_agent(
        AgentId(1),
        4,
        &vec![sense(2, true, false), sense(3, false, false)],
        &vec![AgentId(3), AgentId(2)],
        2,
        1500,
        700,
    );
    let channels: Vec<ObservationChannelV1> = s.observations.iter().map(|o| o.channel).collect();
    assert_eq!(
        channels,
        vec![
            ObservationChannelV1::VisionAgent,
            ObservationChannelV1::Hearing,
            ObservationChannelV1::Touch,
            ObservationChannelV1::Density,
            ObservationChannelV1::FlowSpeed,
            ObservationChannelV1::SemanticDistance,
            ObservationChannelV1::GroupExtent,
            ObservationChannelV1::NearestFriend,
            ObservationChannelV1::NearestThreat,
            ObservationChannelV1::AttentionTarget,
        ]
    );
    assert_eq!(s.observations[5].value, PerceptionValueV1::NumberI32(0));
    assert_eq!(s.observations[5].key, Some("exit".to_string()));
    assert_eq!(s.observations[7].value, PerceptionValueV1::Agent(AgentId(3)));
    assert_eq!(s.observations[8].value, PerceptionValueV1::Agent(AgentId(2)));
    assert_eq!(s.degraded_evidence, None);
}

#[test]
fn engine_cuts_to_the_budget_and_forgets_expired_memory() {
    let mut engine = PerceptionEngine::new(2, 1);
    engine.remember(AgentId(1), "a".to_string(), PerceptionValueV1::Bool(true), 10);
    engine.remember(AgentId(1), "b".to_string(), PerceptionValueV1::Bool(true), 3);
    engine.remember(AgentId(1), "c".to_string(), PerceptionValueV1::Bool(false), 5);
    let s = engine.observe_agent(AgentId(1), 4, &Vec::new(), &Vec::new(), 0, 0, 0);
    // Density and flow speed, cut to one: density comes first.
    assert_eq!(s.observations.len(), 1);
    assert_eq!(s.observations[0].channel, ObservationChannelV1::Density);
    assert_eq!(
        s.degraded_evidence,
        Some("observation budget reduced M6 evidence for this tier".to_string())
    );
    // "a" expired last and was forgotten when "c" came; "b" expired at tick 3.
    let keys: Vec<&str> = s.memory.iter().map(|m| m.key.as_str()).collect();
    assert_eq!(keys, vec!["c"]);
}

#[test]
fn an_engine_without_memory_remembers_nothing() {
    let mut engine = PerceptionEngine::new(0, 8);
    engine.remember(AgentId(1), "a".to_string(), PerceptionValueV1::Bool(true), 10);
    let s = engine.observe_agent(AgentId(1), 0, &Vec::new(), &Vec::new(), 0, 0, 0);
    assert!(s.memory.is_empty());
}
