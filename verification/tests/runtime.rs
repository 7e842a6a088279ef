use crowd_core::behavior::{compile_graph, BehaviorAction, BehaviorGraphV1, BehaviorNodeV1, BehaviorVm};
use crowd_core::keyed::TextMap;
use crowd_core::runtime::{crowd_context, decision_events, AgentTick, RuntimeBehaviorController, SteeringIntent};

fn s(x: &str) -> String {
    x.to_string()
}

fn commute_vm() -> BehaviorVm {
    let graph = BehaviorGraphV1 {
        id: s("g"),
        entry_id: s("root"),
        nodes: vec![
            BehaviorNodeV1::Selector { id: s("root"), children: vec![s("guard"), s("go")] },
            BehaviorNodeV1::Interrupt { id: s("guard"), condition_key: s("alarm"), child: s("hold") },
            BehaviorNodeV1::HoldPosition { id: s("hold") },
            BehaviorNodeV1::Navigate { id: s("go"), destination_id: s("platform") },
        ],
    };
    BehaviorVm::new(compile_graph(&graph).expect("valid"), 7)
}

fn controller() -> RuntimeBehaviorController {
    let mut destinations = TextMap::new();
    destinations.insert(s("platform"), 2u16);
    RuntimeBehaviorController::new(vec![0], vec![commute_vm()], destinations)
}

fn agent(slot: u32, agent_id: u64, population: u16, destination: u16, alarm: bool) -> AgentTick {
    let mut context = crowd_context(3, agent_id, 1, TextMap::new());
    context.bool_observations.insert(s("alarm"), alarm);
    AgentTick { slot, agent_id, population, destination, context }
}

#[test]
fn agents_with_a_program_decide_and_steer() {
    let mut runtime = controller();
    let agents = vec![
        agent(0, 11, 0, 1, false),
        agent(1, 12, 0, 0, true),
        agent(2, 13, 9, 0, false),
        agent(3, 14, 0, 2, false),
    ];
    let decisions = runtime.decide_tick(&agents);
    let seen: Vec<(u32, u64, SteeringIntent)> = decisions.iter().map(|d| (d.slot, d.agent_id, d.steering)).collect();
    assert_eq!(
        seen,
        vec![(0, 11, SteeringIntent::Retarget(2)), (1, 12, SteeringIntent::Stop), (3, 14, SteeringIntent::Keep)]
    );
    assert!(matches!(
        &decisions[0].outcome.action,
        Some(BehaviorAction::Navigate { destination_id }) if destination_id == "platform"
    ));
    assert_eq!(decisions[1].outcome.decisive_node, Some(s("hold")));
}

#[test]
fn the_crowd_context_scores_density_and_caps_it() {
    let dense = crowd_context(4, 1, 20, TextMap::new());
    assert_eq!(dense.bool_observations.get("nearby_agents"), Some(&true));
    assert_eq!(dense.bool_observations.get("density_high"), Some(&true));
    assert_eq!(dense.number_observations.get("nearby_agent_count"), Some(&20));
    assert_eq!(dense.number_observations.get("density_score"), Some(&1_000_000));
    let sparse = crowd_context(4, 1, 3, TextMap::new());
    assert_eq!(sparse.bool_observations.get("density_high"), Some(&false));
    assert_eq!(sparse.number_observations.get("density_score"), Some(&187_500));
    let alone = crowd_context(4, 1, 0, TextMap::new());
    assert_eq!(alone.bool_observations.get("nearby_agents"), Some(&false));
}

#[test]
fn decisions_are_reported_by_agent_id() {
    let mut runtime = controller();
    let agents = vec![agent(0, 30, 0, 1, false), agent(1, 10, 0, 1, true), agent(2, 20, 0, 2, false)];
    let decisions = runtime.decide_tick(&agents);
    let events = decision_events(6, &decisions);
    let seen: Vec<(u64, u64, String, Option<String>)> =
        events.into_iter().map(|e| (e.tick, e.agent_id, e.detail, e.decisive_node)).collect();
    assert_eq!(
        seen,
        vec![
            (6, 10, s("population:0"), Some(s("hold"))),
            (6, 20, s("population:0"), Some(s("go"))),
            (6, 30, s("population:0"), Some(s("go"))),
        ]
    );
}

#[test]
fn an_agent_keeps_its_timer_memory_between_ticks() {
    let mut runtime = controller();
    let first = runtime.decide_tick(&vec![agent(0, 11, 0, 1, false)]);
    let second = runtime.decide_tick(&vec![agent(0, 11, 0, 2, false)]);
    assert_eq!(first[0].steering, SteeringIntent::Retarget(2));
    assert_eq!(second[0].steering, SteeringIntent::Keep);
}
