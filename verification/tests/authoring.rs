use crowd_core::agents::compiled_agent_ids;
use crowd_core::assets::{validate_asset_library, AssetLibraryV1, ClipMetadataV1};
use crowd_core::authoring::{
    compile_authorable_project, migrate_project_v1, AuthorableProjectV2, AuthoringDiagnosticCode,
    CostRegionKindV2, CostRegionV2, GroupBottleneckPolicyV2, GroupKindV2, GroupV2, LaneV2,
    PopulationBehaviorV2, QueueV2, AUTHORABLE_PROJECT_SCHEMA_VERSION,
};
use crowd_core::behavior::{BehaviorGraphV1, BehaviorNodeV1};
use crowd_core::project::{
    AnimationSettingsIrV1, AppearanceIrV1, ArchetypeIrV1, AvoidanceSettingsIrV1, BlockedIrV1,
    ClockIrV1, DestinationIrV1, DeterminismModeIrV1, NavigationSettingsIrV1, PopulationIrV1,
    PortalAxisIrV1, PortalIrV1, ProjectIrV1, ProjectSettingsIrV1, SemanticIrV1, SpawnIrV1,
    TimedPortalEventV1, UnitsIrV1, WalkableIrV1, WeightedRefIrV1,
};

const PROJECT_ID: &str = "123e4567-e89b-12d3-a456-426614174000";

fn weighted(id: &str) -> WeightedRefIrV1 {
    WeightedRefIrV1 { id: id.to_string() }
}

fn walkable(id: &str) -> WalkableIrV1 {
    WalkableIrV1 { id: id.to_string(), bounds_valid: true }
}

fn portal(id: &str, from: &str, to: &str, open: bool, both: bool) -> PortalIrV1 {
    PortalIrV1 {
        id: id.to_string(),
        from_walkable_id: from.to_string(),
        to_walkable_id: to.to_string(),
        geometry_valid: true,
        axis: PortalAxisIrV1::EastWest,
        bidirectional: both,
        initially_open: open,
    }
}

fn population(id: &str) -> PopulationIrV1 {
    PopulationIrV1 {
        id: id.to_string(),
        count: 10,
        spawn_source_ids: vec!["gate".to_string()],
        destinations: vec![weighted("exit")],
        archetypes: vec![weighted("walker")],
        appearances: vec![weighted("coat")],
        destination_weights_valid: true,
        archetype_weights_valid: true,
        appearance_weights_valid: true,
        distributions_valid: true,
    }
}

/// Two rooms joined by an open one-way door from hall to platform.
fn project() -> ProjectIrV1 {
    ProjectIrV1 {
        schema_version: 1,
        project_id: PROJECT_ID.to_string(),
        seed: 7,
        units: UnitsIrV1 { length: "meters".to_string(), angle: "radians".to_string() },
        clock: ClockIrV1 { ticks_per_second: 30, frame_start: 0, frame_end: 100, frames_per_second: 30 },
        mode: DeterminismModeIrV1::Strict,
        commuter_program: "commuter_v1".to_string(),
        archetypes: vec![ArchetypeIrV1 {
            id: "walker".to_string(),
            asset_id: "asset".to_string(),
            clip_set_id: "clips".to_string(),
        }],
        appearances: vec![AppearanceIrV1 { id: "coat".to_string(), material_id: "wool".to_string() }],
        populations: vec![population("commuters")],
        semantics: SemanticIrV1 {
            walkable: vec![walkable("platform"), walkable("hall")],
            blocked: vec![BlockedIrV1 {
                id: "pillar".to_string(),
                walkable_id: "hall".to_string(),
                bounds_valid: true,
                inside_walkable: true,
            }],
            spawns: vec![SpawnIrV1 {
                id: "gate".to_string(),
                walkable_id: "hall".to_string(),
                bounds_valid: true,
                inside_walkable: true,
            }],
            destinations: vec![DestinationIrV1 {
                id: "exit".to_string(),
                walkable_id: "platform".to_string(),
                point_finite: true,
                inside_walkable: true,
            }],
            portals: vec![portal("door", "hall", "platform", true, false)],
        },
        portal_events: vec![TimedPortalEventV1 { tick: 5, portal_id: "door".to_string(), open: false }],
        settings: ProjectSettingsIrV1 {
            navigation: NavigationSettingsIrV1 { tile_size_valid: true, agent_radius_valid: true },
            avoidance: AvoidanceSettingsIrV1 { solver: "sampled_velocity".to_string() },
            animation: AnimationSettingsIrV1 {
                locomotion_set_id: "locomotion".to_string(),
                jog_threshold_valid: true,
            },
        },
    }
}

type Entry = (String, AuthoringDiagnosticCode, String);

fn report(p: &AuthorableProjectV2) -> Vec<Entry> {
    match compile_authorable_project(p) {
        Ok(_) => Vec::new(),
        Err(d) => d.into_iter().map(|x| (x.entity_id, x.code, x.message)).collect(),
    }
}

fn entry(entity: &str, code: AuthoringDiagnosticCode, message: &str) -> Entry {
    (entity.to_string(), code, message.to_string())
}

fn s(x: &str) -> String {
    x.to_string()
}

fn authorable() -> AuthorableProjectV2 {
    migrate_project_v1(project())
}

fn graph(id: &str, entry_id: &str, nodes: Vec<BehaviorNodeV1>) -> BehaviorGraphV1 {
    BehaviorGraphV1 { id: s(id), entry_id: s(entry_id), nodes }
}

fn group(id: &str, members: Vec<u64>, leader: Option<u64>) -> GroupV2 {
    GroupV2 {
        id: s(id),
        kind: GroupKindV2::Family,
        member_agent_ids: members,
        leader_agent_id: leader,
        shared_destination_id: s("exit"),
        max_separation_millimeters: 1500,
        bottleneck_policy: GroupBottleneckPolicyV2::LeaderFirst,
    }
}

#[test]
fn a_migrated_sound_project_compiles() {
    let p = authorable();
    assert_eq!(p.schema_version, AUTHORABLE_PROJECT_SCHEMA_VERSION);
    assert_eq!(p.population_behaviors.len(), 1);
    assert_eq!(p.population_behaviors[0].population_id, "commuters");
    assert_eq!(p.population_behaviors[0].graph_id, "commuter_v1");
    let compiled = match compile_authorable_project(&p) {
        Ok(c) => c,
        Err(d) => panic!("unexpected problems: {:?}", d),
    };
    assert_eq!(compiled.behavior_program_count(), 1);
    assert_eq!(compiled.population_graph("commuters"), Some("commuter_v1"));
    assert_eq!(compiled.population_graph("tourists"), None);
    let program = compiled.behavior_program("commuter_v1").expect("compiled");
    assert_eq!(program.id(), "commuter_v1");
    assert_eq!(program.node_count(), 1);
    assert!(compiled.behavior_program("other").is_none());
}

#[test]
fn migration_keeps_the_base_project() {
    let p = authorable();
    assert_eq!(p.base.project_id, PROJECT_ID);
    assert_eq!(p.base.seed, 7);
    assert_eq!(p.base.populations.len(), 1);
    assert_eq!(p.behavior_graphs.len(), 1);
    assert_eq!(p.behavior_graphs[0].entry_id, "assigned_destination");
    assert!(p.groups.is_empty());
    assert!(p.semantics.queues.is_empty());
    assert!(p.assets.clips.is_empty());
}

#[test]
fn an_unsupported_schema_is_reported() {
    let mut p = authorable();
    p.schema_version = 1;
    assert_eq!(
        report(&p),
        vec![entry(
            "project",
            AuthoringDiagnosticCode::UnsupportedVersion,
            "migrate schema 1 to authorable schema 2"
        )]
    );
}

#[test]
fn base_project_problems_stop_the_check() {
    let mut p = authorable();
    p.schema_version = 9;
    p.base.schema_version = 3;
    p.population_behaviors[0].graph_id = s("missing");
    let entity = format!("project:{}", PROJECT_ID);
    assert_eq!(
        report(&p),
        vec![
            entry(
                "project",
                AuthoringDiagnosticCode::UnsupportedVersion,
                "migrate schema 9 to authorable schema 2"
            ),
            entry(&entity, AuthoringDiagnosticCode::BaseProject, "unsupported project schema 3"),
        ]
    );
}

#[test]
fn graph_problems_are_reported_under_their_nodes() {
    let mut p = authorable();
    p.behavior_graphs.push(graph(
        "broken",
        "missing",
        vec![BehaviorNodeV1::HoldPosition { id: s("hold") }],
    ));
    p.behavior_graphs.push(graph(
        "commuter_v1",
        "stay",
        vec![BehaviorNodeV1::HoldPosition { id: s("stay") }],
    ));
    assert_eq!(
        report(&p),
        vec![
            entry(
                "graph:broken/node:missing",
                AuthoringDiagnosticCode::InvalidGraph,
                "choose an existing entry node"
            ),
            entry(
                "graph:commuter_v1",
                AuthoringDiagnosticCode::DuplicateId,
                "rename the duplicate behavior graph"
            ),
        ]
    );
}

#[test]
fn assignment_problems_are_reported() {
    let mut p = authorable();
    p.population_behaviors.push(PopulationBehaviorV2 { population_id: s("commuters"), graph_id: s("commuter_v1") });
    p.population_behaviors.push(PopulationBehaviorV2 { population_id: s("tourists"), graph_id: s("commuter_v1") });
    p.population_behaviors.push(PopulationBehaviorV2 { population_id: s("commuters"), graph_id: s("nothing") });
    assert_eq!(
        report(&p),
        vec![
            entry(
                "population:commuters",
                AuthoringDiagnosticCode::DuplicateId,
                "keep one behavior assignment per population"
            ),
            entry(
                "population:commuters",
                AuthoringDiagnosticCode::MissingBehavior,
                "choose an existing population and behavior graph"
            ),
            entry(
                "population:tourists",
                AuthoringDiagnosticCode::MissingBehavior,
                "choose an existing population and behavior graph"
            ),
        ]
    );
}

#[test]
fn semantic_problems_are_reported() {
    let mut p = authorable();
    p.semantics.queues.push(QueueV2 { id: s("line"), portal_id: s("window"), slot_count: 0, admission_capacity: 2 });
    p.semantics.lanes.push(LaneV2 { id: s("line"), point_count: 1, strength_millionths: 10 });
    p.semantics.cost_regions.push(CostRegionV2 {
        id: s("puddle"),
        walkable_id: s("roof"),
        bounds_valid: false,
        kind: CostRegionKindV2::Danger,
        weight_millionths: 5,
    });
    assert_eq!(
        report(&p),
        vec![
            entry("lane:line", AuthoringDiagnosticCode::DuplicateId, "give every M2 semantic entity a unique stable ID"),
            entry(
                "lane:line",
                AuthoringDiagnosticCode::InvalidSemanticGeometry,
                "add at least two points and set strength between 0 and 1000000"
            ),
            entry("queue:line", AuthoringDiagnosticCode::MissingSemanticReference, "choose an existing portal for this queue"),
            entry(
                "queue:line",
                AuthoringDiagnosticCode::InvalidSemanticGeometry,
                "add at least one queue slot and positive admission capacity"
            ),
            entry("region:puddle", AuthoringDiagnosticCode::MissingSemanticReference, "choose an existing walkable region"),
            entry(
                "region:puddle",
                AuthoringDiagnosticCode::InvalidSemanticGeometry,
                "use finite ordered bounds and a weight between 0 and 1000000"
            ),
        ]
    );
}

#[test]
fn program_references_are_checked() {
    let mut p = authorable();
    p.semantics.queues.push(QueueV2 { id: s("ticket"), portal_id: s("door"), slot_count: 3, admission_capacity: 1 });
    p.behavior_graphs.push(graph(
        "errand",
        "root",
        vec![
            BehaviorNodeV1::Sequence { id: s("root"), children: vec![s("a"), s("b"), s("c"), s("d")] },
            BehaviorNodeV1::Navigate { id: s("a"), destination_id: s("cafe") },
            BehaviorNodeV1::Queue { id: s("b"), queue_id: s("ticket") },
            BehaviorNodeV1::FollowLane { id: s("c"), lane_id: s("river") },
            BehaviorNodeV1::Navigate { id: s("d"), destination_id: s("exit") },
        ],
    ));
    assert_eq!(
        report(&p),
        vec![
            entry(
                "graph:errand/node:a",
                AuthoringDiagnosticCode::MissingSemanticReference,
                "choose an existing destination instead of 'cafe'"
            ),
            entry(
                "graph:errand/node:c",
                AuthoringDiagnosticCode::MissingSemanticReference,
                "choose an existing lane instead of 'river'"
            ),
        ]
    );
}

#[test]
fn group_problems_are_reported() {
    let p0 = authorable();
    let agents = compiled_agent_ids(&p0.base);
    assert_eq!(agents.len(), 10);
    let mut p = authorable();
    p.groups.push(group("pair", vec![agents[0], agents[1]], Some(agents[0])));
    p.groups.push(group("pair", vec![agents[1], 99], Some(agents[3])));
    p.groups.push(group("solo", vec![agents[4]], None));
    assert_eq!(
        report(&p),
        vec![
            entry("group:pair", AuthoringDiagnosticCode::DuplicateId, "give the group a unique stable ID"),
            entry(
                "group:pair",
                AuthoringDiagnosticCode::UnknownAgent,
                "use known stable agent IDs and assign each agent to at most one group"
            ),
            entry(
                "group:pair",
                AuthoringDiagnosticCode::InvalidGroupLeader,
                "choose a leader from this group's member IDs"
            ),
            entry(
                "group:solo",
                AuthoringDiagnosticCode::InvalidGroup,
                "add at least two members, a positive separation, and an existing destination"
            ),
        ]
    );
}

#[test]
fn a_sound_group_compiles() {
    let mut p = authorable();
    let agents = compiled_agent_ids(&p.base);
    p.groups.push(group("pair", vec![agents[2], agents[5]], Some(agents[5])));
    assert!(compile_authorable_project(&p).is_ok());
}

#[test]
fn asset_problems_are_reported_under_the_asset_code() {
    let mut p = authorable();
    let clip = ClipMetadataV1 {
        id: s("walk"),
        retarget_profile_id: s("humanoid"),
        duration_ticks: 30,
        loop_start_tick: 0,
        loop_end_tick: 29,
        average_root_speed_mmps: 1300,
        left_foot_contacts: Vec::new(),
        right_foot_contacts: Vec::new(),
    };
    p.assets = AssetLibraryV1 { retarget_profiles: Vec::new(), clips: vec![clip], variations: Vec::new() };
    let mut expected: Vec<Entry> = match validate_asset_library(&p.assets) {
        Ok(_) => panic!("the clip names no known profile"),
        Err(d) => d
            .into_iter()
            .map(|x| (x.entity_id, AuthoringDiagnosticCode::InvalidAsset, x.message))
            .collect(),
    };
    assert!(!expected.is_empty());
    expected.sort();
    assert_eq!(report(&p), expected);
}

#[test]
fn authoring_reports_are_sorted_by_entity() {
    let mut p = authorable();
    p.schema_version = 5;
    p.population_behaviors.push(PopulationBehaviorV2 { population_id: s("aardvarks"), graph_id: s("commuter_v1") });
    p.groups.push(group("band", vec![1, 2], None));
    let found = report(&p);
    assert_eq!(found.len(), 3);
    assert_eq!(found[0].0, "group:band");
    assert_eq!(found[1].0, "population:aardvarks");
    assert_eq!(found[2].0, "project");
    for w in found.windows(2) {
        assert!((&w[0].0, w[0].1, &w[0].2) <= (&w[1].0, w[1].1, &w[1].2));
    }
}
