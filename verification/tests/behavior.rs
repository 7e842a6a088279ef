use crowd_core::behavior::{
    compile_graph, BehaviorAction, BehaviorContext, BehaviorGraphV1, BehaviorNodeV1, BehaviorVm,
    BehaviorVmState, GraphDiagnosticCode, StateBranchV1, UtilityOptionV1,
};
use crowd_core::ids::AgentId;
use crowd_core::keyed::TextMap;

fn s(x: &str) -> String {
    x.to_string()
}

fn graph(entry: &str, nodes: Vec<BehaviorNodeV1>) -> BehaviorGraphV1 {
    BehaviorGraphV1 { id: s("g"), entry_id: s(entry), nodes }
}

fn context(tick: u64) -> BehaviorContext {
    BehaviorContext {
        tick,
        agent_id: AgentId(5),
        bool_observations: TextMap::new(),
        number_observations: TextMap::new(),
        events: TextMap::new(),
        completed_nodes: TextMap::new(),
    }
}

fn codes(g: &BehaviorGraphV1) -> Vec<(GraphDiagnosticCode, String)> {
    match compile_graph(g) {
        Ok(_) => Vec::new(),
        Err(d) => d.into_iter().map(|x| (x.code, x.node_id)).collect(),
    }
}

fn commute_graph() -> BehaviorGraphV1 {
    graph(
        "root",
        vec![
            BehaviorNodeV1::Selector { id: s("root"), children: vec![s("guard"), s("go")] },
            BehaviorNodeV1::Interrupt { id: s("guard"), condition_key: s("alarm"), child: s("hold") },
            BehaviorNodeV1::HoldPosition { id: s("hold") },
            BehaviorNodeV1::Navigate { id: s("go"), destination_id: s("platform") },
        ],
    )
}

#[test]
fn a_valid_graph_compiles_in_id_order() {
    let program = compile_graph(&commute_graph()).expect("valid");
    assert_eq!(program.id(), "g");
    assert_eq!(program.node_count(), 4);
    let ids: Vec<&str> = program.nodes().iter().map(|n| n.id()).collect();
    assert_eq!(ids, vec!["go", "guard", "hold", "root"]);
    assert_eq!(program.entry_index(), 3);
}

#[test]
fn an_empty_graph_is_reported() {
    let found = codes(&BehaviorGraphV1 { id: s(""), entry_id: s("x"), nodes: Vec::new() });
    assert_eq!(
        found,
        vec![(GraphDiagnosticCode::EmptyGraph, s("")), (GraphDiagnosticCode::MissingEntry, s("x"))]
    );
}

#[test]
fn duplicates_missing_children_and_bad_parameters_are_reported() {
    let g = graph(
        "root",
        vec![
            BehaviorNodeV1::Sequence { id: s("root"), children: vec![s("wait"), s("ghost")] },
            BehaviorNodeV1::Wait { id: s("wait"), ticks: 0 },
            BehaviorNodeV1::Wait { id: s("wait"), ticks: 3 },
            BehaviorNodeV1::HoldPosition { id: s("") },
        ],
    );
    let found = codes(&g);
    assert_eq!(
        found,
        vec![
            (GraphDiagnosticCode::InvalidNode, s("<unnamed>")),
            (GraphDiagnosticCode::MissingNode, s("root")),
            (GraphDiagnosticCode::DuplicateNode, s("wait")),
            (GraphDiagnosticCode::InvalidNode, s("wait")),
        ]
    );
}

#[test]
fn a_cycle_is_reported() {
    let g = graph(
        "a",
        vec![
            BehaviorNodeV1::Selector { id: s("a"), children: vec![s("b")] },
            BehaviorNodeV1::Selector { id: s("b"), children: vec![s("a")] },
        ],
    );
    assert_eq!(codes(&g), vec![(GraphDiagnosticCode::Cycle, s("a"))]);
}

#[test]
fn a_cycle_is_reported_at_the_node_it_re_enters() {
    let g = graph(
        "a",
        vec![
            BehaviorNodeV1::Sequence { id: s("a"), children: vec![s("b")] },
            BehaviorNodeV1::Selector { id: s("b"), children: vec![s("c")] },
            BehaviorNodeV1::Selector { id: s("c"), children: vec![s("b")] },
        ],
    );
    assert_eq!(codes(&g), vec![(GraphDiagnosticCode::Cycle, s("b"))]);
}

#[test]
fn an_unreachable_node_is_reported() {
    let mut g = commute_graph();
    g.nodes.push(BehaviorNodeV1::Wait { id: s("island"), ticks: 4 });
    assert_eq!(codes(&g), vec![(GraphDiagnosticCode::UnreachableNode, s("island"))]);
}

#[test]
fn a_shared_child_is_not_a_cycle() {
    let g = graph(
        "root",
        vec![
            BehaviorNodeV1::Selector { id: s("root"), children: vec![s("left"), s("right")] },
            BehaviorNodeV1::Event { id: s("left"), event_type: s("bell"), child: s("go") },
            BehaviorNodeV1::Event { id: s("right"), event_type: s("horn"), child: s("go") },
            BehaviorNodeV1::Navigate { id: s("go"), destination_id: s("exit") },
        ],
    );
    assert!(compile_graph(&g).is_ok());
}

#[test]
fn the_selector_falls_through_to_the_first_action() {
    let vm = BehaviorVm::new(compile_graph(&commute_graph()).unwrap(), 1);
    let mut state = BehaviorVmState::new();
    let out = vm.decide(&mut state, &context(0));
    match out.action {
        Some(BehaviorAction::Navigate { destination_id }) => assert_eq!(destination_id, "platform"),
        other => panic!("unexpected {other:?}"),
    }
    assert_eq!(out.decisive_node.as_deref(), Some("go"));
    assert_eq!(out.visited_nodes, vec![s("root"), s("guard"), s("go")]);
    assert_eq!(out.observations, vec![(s("alarm"), false)]);
}

#[test]
fn a_raised_interrupt_takes_over() {
    let vm = BehaviorVm::new(compile_graph(&commute_graph()).unwrap(), 1);
    let mut state = BehaviorVmState::new();
    let mut ctx = context(0);
    ctx.bool_observations.insert(s("alarm"), true);
    let out = vm.decide(&mut state, &ctx);
    assert!(matches!(out.action, Some(BehaviorAction::HoldPosition)));
    assert_eq!(out.decisive_node.as_deref(), Some("hold"));
}

#[test]
fn a_timer_waits_from_its_first_visit() {
    let g = graph(
        "t",
        vec![
            BehaviorNodeV1::Timer { id: s("t"), ticks: 3, child: s("w") },
            BehaviorNodeV1::Wait { id: s("w"), ticks: 2 },
        ],
    );
    let vm = BehaviorVm::new(compile_graph(&g).unwrap(), 1);
    let mut state = BehaviorVmState::new();
    assert!(vm.decide(&mut state, &context(10)).action.is_none());
    assert!(vm.decide(&mut state, &context(12)).action.is_none());
    assert!(matches!(vm.decide(&mut state, &context(13)).action, Some(BehaviorAction::Wait { ticks: 2 })));
}

#[test]
fn a_sequence_skips_completed_children() {
    let g = graph(
        "seq",
        vec![
            BehaviorNodeV1::Sequence { id: s("seq"), children: vec![s("q"), s("lane")] },
            BehaviorNodeV1::Queue { id: s("q"), queue_id: s("ticket") },
            BehaviorNodeV1::FollowLane { id: s("lane"), lane_id: s("east") },
        ],
    );
    let vm = BehaviorVm::new(compile_graph(&g).unwrap(), 1);
    let mut state = BehaviorVmState::new();
    let mut ctx = context(0);
    assert!(matches!(vm.decide(&mut state, &ctx).action, Some(BehaviorAction::Queue { .. })));
    ctx.completed_nodes.insert(s("q"), ());
    assert!(matches!(vm.decide(&mut state, &ctx).action, Some(BehaviorAction::FollowLane { .. })));
    ctx.completed_nodes.insert(s("lane"), ());
    assert!(vm.decide(&mut state, &ctx).action.is_none());
}

#[test]
fn the_utility_selector_takes_the_highest_score_then_the_lower_id() {
    let g = graph(
        "u",
        vec![
            BehaviorNodeV1::UtilitySelector {
                id: s("u"),
                options: vec![
                    UtilityOptionV1 { child: s("z"), score_key: s("hunger") },
                    UtilityOptionV1 { child: s("b"), score_key: s("thirst") },
                    UtilityOptionV1 { child: s("a"), score_key: s("thirst") },
                ],
            },
            BehaviorNodeV1::Navigate { id: s("z"), destination_id: s("food") },
            BehaviorNodeV1::Navigate { id: s("b"), destination_id: s("water_b") },
            BehaviorNodeV1::Navigate { id: s("a"), destination_id: s("water_a") },
        ],
    );
    let vm = BehaviorVm::new(compile_graph(&g).unwrap(), 1);
    let mut state = BehaviorVmState::new();
    let mut ctx = context(0);
    ctx.number_observations.insert(s("hunger"), 5);
    ctx.number_observations.insert(s("thirst"), 9);
    let out = vm.decide(&mut state, &ctx);
    assert_eq!(out.decisive_node.as_deref(), Some("a"));
    assert_eq!(
        out.number_observations,
        vec![(s("hunger"), 5), (s("thirst"), 9), (s("thirst"), 9)]
    );
}

#[test]
fn a_state_switch_falls_back_when_no_branch_matches() {
    let g = graph(
        "sw",
        vec![
            BehaviorNodeV1::StateSwitch {
                id: s("sw"),
                state_key: s("mode"),
                branches: vec![StateBranchV1 { value: 1, child: s("one") }],
                fallback: s("other"),
            },
            BehaviorNodeV1::Wait { id: s("one"), ticks: 1 },
            BehaviorNodeV1::HoldPosition { id: s("other") },
        ],
    );
    let vm = BehaviorVm::new(compile_graph(&g).unwrap(), 1);
    let mut state = BehaviorVmState::new();
    let mut ctx = context(0);
    assert_eq!(vm.decide(&mut state, &ctx).decisive_node.as_deref(), Some("other"));
    ctx.number_observations.insert(s("mode"), 1);
    assert_eq!(vm.decide(&mut state, &ctx).decisive_node.as_deref(), Some("one"));
}

#[test]
fn probability_nodes_are_deterministic_and_bounded() {
    let g = graph(
        "p",
        vec![
            BehaviorNodeV1::Probability { id: s("p"), probability_millionths: 500_000, child: s("go") },
            BehaviorNodeV1::Navigate { id: s("go"), destination_id: s("x") },
        ],
    );
    let never = graph(
        "p",
        vec![
            BehaviorNodeV1::Probability { id: s("p"), probability_millionths: 0, child: s("go") },
            BehaviorNodeV1::Navigate { id: s("go"), destination_id: s("x") },
        ],
    );
    let vm = BehaviorVm::new(compile_graph(&g).unwrap(), 77);
    let vm_never = BehaviorVm::new(compile_graph(&never).unwrap(), 77);
    let mut fired = 0;
    for tick in 0..200u64 {
        let mut state = BehaviorVmState::new();
        let a = vm.decide(&mut state, &context(tick)).action.is_some();
        let b = vm.decide(&mut state, &context(tick)).action.is_some();
        assert_eq!(a, b);
        if a {
            fired += 1;
        }
        assert!(vm_never.decide(&mut state, &context(tick)).action.is_none());
    }
    assert!(fired > 0 && fired < 200);
}
