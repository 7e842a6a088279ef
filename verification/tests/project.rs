use crowd_core::project::{
    check_project, compact_indices, duplicate_ids, missing_walkable, valid_uuid,
    validate_project, AnimationSettingsIrV1, AppearanceIrV1, ArchetypeIrV1,
    AvoidanceSettingsIrV1, BlockedIrV1, ClockIrV1, DestinationIrV1, Diagnostic, DiagnosticCode,
    DeterminismModeIrV1, NavigationSettingsIrV1, PopulationIrV1, PortalAxisIrV1, PortalIrV1,
    ProjectIrV1, ProjectSettingsIrV1, SemanticIrV1, SpawnIrV1, TimedPortalEventV1, UnitsIrV1,
    WalkableIrV1, WeightedRefIrV1,
};

use crowd_core::concourse::{concourse_schedule, SpawnedAgent};

const PROJECT_ID: &str = "123e4567-e89b-12d3-a456-426614174000";

fn weighted(id: &str) -> WeightedRefIrV1 {
    WeightedRefIrV1 { id: id.to_string() }
}

fn walkable(id: &str) -> WalkableIrV1 {
    WalkableIrV1 { id: id.to_string(), bounds_valid: true }
}

fn portal(id: &str, from: &str, to: &str, open: bool, both: bool) -> PortalIrV1 {
    PortalIrV1 {
        id: id.to_string(),
        from_walkable_id: from.to_string(),
        to_walkable_id: to.to_string(),
        geometry_valid: true,
        axis: PortalAxisIrV1::EastWest,
        bidirectional: both,
        initially_open: open,
    }
}

fn population(id: &str) -> PopulationIrV1 {
    PopulationIrV1 {
        id: id.to_string(),
        count: 10,
        spawn_source_ids: vec!["gate".to_string()],
        destinations: vec![weighted("exit")],
        archetypes: vec![weighted("walker")],
        appearances: vec![weighted("coat")],
        destination_weights_valid: true,
        archetype_weights_valid: true,
        appearance_weights_valid: true,
        distributions_valid: true,
    }
}

/// Two rooms joined by an open one-way door from hall to platform.
fn project() -> ProjectIrV1 {
    ProjectIrV1 {
        schema_version: 1,
        project_id: PROJECT_ID.to_string(),
        seed: 7,
        units: UnitsIrV1 { length: "meters".to_string(), angle: "radians".to_string() },
        clock: ClockIrV1 { ticks_per_second: 30, frame_start: 0, frame_end: 100, frames_per_second: 30 },
        mode: DeterminismModeIrV1::Strict,
        commuter_program: "commuter_v1".to_string(),
        archetypes: vec![ArchetypeIrV1 {
            id: "walker".to_string(),
            asset_id: "asset".to_string(),
            clip_set_id: "clips".to_string(),
        }],
        appearances: vec![AppearanceIrV1 { id: "coat".to_string(), material_id: "wool".to_string() }],
        populations: vec![population("commuters")],
        semantics: SemanticIrV1 {
            walkable: vec![walkable("platform"), walkable("hall")],
            blocked: vec![BlockedIrV1 {
                id: "pillar".to_string(),
                walkable_id: "hall".to_string(),
                bounds_valid: true,
                inside_walkable: true,
            }],
            spawns: vec![SpawnIrV1 {
                id: "gate".to_string(),
                walkable_id: "hall".to_string(),
                bounds_valid: true,
                inside_walkable: true,
            }],
            destinations: vec![DestinationIrV1 {
                id: "exit".to_string(),
                walkable_id: "platform".to_string(),
                point_finite: true,
                inside_walkable: true,
            }],
            portals: vec![portal("door", "hall", "platform", true, false)],
        },
        portal_events: vec![TimedPortalEventV1 { tick: 5, portal_id: "door".to_string(), open: false }],
        settings: ProjectSettingsIrV1 {
            navigation: NavigationSettingsIrV1 { tile_size_valid: true, agent_radius_valid: true },
            avoidance: AvoidanceSettingsIrV1 { solver: "sampled_velocity".to_string() },
            animation: AnimationSettingsIrV1 {
                locomotion_set_id: "locomotion".to_string(),
                jog_threshold_valid: true,
            },
        },
    }
}

fn report(p: &ProjectIrV1) -> Vec<(DiagnosticCode, String, String)> {
    match check_project(p) {
        Ok(()) => Vec::new(),
        Err(d) => d.into_iter().map(|x| (x.code, x.entity_id, x.message)).collect(),
    }
}

fn entry(code: DiagnosticCode, entity: &str, message: &str) -> (DiagnosticCode, String, String) {
    (code, entity.to_string(), message.to_string())
}

#[test]
fn a_well_formed_project_checks() {
    assert!(check_project(&project()).is_ok());
    assert!(validate_project(&project()).is_empty());
}

#[test]
fn header_problems_are_reported_in_code_order() {
    let mut p = project();
    p.schema_version = 3;
    p.project_id = "not-a-uuid".to_string();
    p.units.angle = "degrees".to_string();
    p.clock.frame_end = -1;
    p.commuter_program = "other".to_string();
    p.settings.navigation.tile_size_valid = false;
    let entity = "project:not-a-uuid";
    assert_eq!(
        report(&p),
        vec![
            entry(DiagnosticCode::UnsupportedVersion, entity, "unsupported project schema 3"),
            entry(DiagnosticCode::InvalidProjectId, entity, "project_id must be a canonical hyphenated UUID"),
            entry(DiagnosticCode::InvalidUnits, entity, "units must be meters and radians"),
            entry(DiagnosticCode::InvalidClock, entity, "clock rate and inclusive frame range must be valid"),
            entry(DiagnosticCode::UnsupportedProgram, entity, "M1 supports commuter_v1 only"),
            entry(
                DiagnosticCode::UnsupportedSetting,
                entity,
                "navigation, sampled-velocity avoidance, and animation settings are invalid"
            ),
        ]
    );
}

#[test]
fn duplicate_and_empty_ids_are_reported() {
    let mut p = project();
    p.archetypes.push(ArchetypeIrV1 {
        id: "walker".to_string(),
        asset_id: "a".to_string(),
        clip_set_id: "c".to_string(),
    });
    p.appearances.push(AppearanceIrV1 { id: String::new(), material_id: "m".to_string() });
    p.semantics.blocked[0].id = "hall".to_string();
    let found = report(&p);
    assert!(found.contains(&entry(
        DiagnosticCode::DuplicateId,
        "archetype:walker",
        "archetype IDs must be non-empty and unique"
    )));
    assert!(found.contains(&entry(
        DiagnosticCode::DuplicateId,
        "appearance:",
        "appearance IDs must be non-empty and unique"
    )));
    assert!(found.contains(&entry(
        DiagnosticCode::DuplicateId,
        "blocked:hall",
        "semantic IDs must be non-empty and globally unique"
    )));
}

#[test]
fn layout_problems_are_reported() {
    let mut p = project();
    p.semantics.walkable[1].bounds_valid = false;
    p.semantics.blocked[0].inside_walkable = false;
    p.semantics.spawns[0].walkable_id = "roof".to_string();
    p.semantics.destinations[0].point_finite = false;
    p.semantics.portals[0].geometry_valid = false;
    let found = report(&p);
    assert!(found.contains(&entry(
        DiagnosticCode::InvalidRange,
        "walkable:hall",
        "bounds must be finite and have positive area"
    )));
    assert!(found.contains(&entry(
        DiagnosticCode::InvalidRange,
        "blocked:pillar",
        "blocked bounds must stay inside their walkable region"
    )));
    assert!(found.contains(&entry(DiagnosticCode::MissingWalkable, "spawn:gate", "missing walkable region roof")));
    assert!(found.contains(&entry(
        DiagnosticCode::InvalidRange,
        "destination:exit",
        "destination point must be finite"
    )));
    assert!(found.contains(&entry(
        DiagnosticCode::InvalidRange,
        "portal:door",
        "portal center and width must be valid"
    )));
    // The spawn names no known region, so nothing is said of its containment.
    assert!(!found.iter().any(|f| f.2 == "spawn bounds must stay inside their walkable region"));
}

#[test]
fn an_empty_layout_is_reported() {
    let mut p = project();
    p.semantics = SemanticIrV1 {
        walkable: Vec::new(),
        blocked: Vec::new(),
        spawns: Vec::new(),
        destinations: Vec::new(),
        portals: Vec::new(),
    };
    p.portal_events.clear();
    let found = report(&p);
    assert!(found.contains(&entry(
        DiagnosticCode::MissingWalkable,
        &format!("project:{PROJECT_ID}"),
        "project has no walkable domain"
    )));
    assert!(found.contains(&entry(
        DiagnosticCode::MissingSpawn,
        "population:commuters",
        "population references a missing spawn source"
    )));
}

#[test]
fn portal_event_problems_are_reported() {
    let mut p = project();
    p.portal_events.push(TimedPortalEventV1 { tick: 5, portal_id: "door".to_string(), open: true });
    p.portal_events.push(TimedPortalEventV1 { tick: 9, portal_id: "hatch".to_string(), open: true });
    assert_eq!(
        report(&p),
        vec![
            entry(
                DiagnosticCode::MissingPortal,
                "portal_event:hatch@9",
                "portal event references a missing portal"
            ),
            entry(
                DiagnosticCode::ContradictoryPortalEvent,
                "portal_event:door@5",
                "portal has contradictory states at one tick"
            ),
        ]
    );
}

#[test]
fn population_problems_are_reported() {
    let mut p = project();
    let pop = &mut p.populations[0];
    pop.count = 0;
    pop.destinations.push(weighted("nowhere"));
    pop.archetypes = vec![weighted("runner")];
    pop.appearance_weights_valid = false;
    pop.appearances = vec![weighted("unknown")];
    pop.destination_weights_valid = false;
    pop.distributions_valid = false;
    let e = "population:commuters";
    assert_eq!(
        report(&p),
        vec![
            entry(DiagnosticCode::InvalidCount, e, "population count must be positive"),
            entry(DiagnosticCode::InvalidRange, e, "radius, speed, or scale distribution is invalid"),
            entry(DiagnosticCode::MissingDestination, e, "population references a missing destination"),
            entry(DiagnosticCode::MissingArchetype, e, "population references a missing archetype"),
            entry(DiagnosticCode::InvalidWeights, e, "appearance weights must have a positive finite total"),
            entry(DiagnosticCode::InvalidWeights, e, "destination weights must have a positive finite total"),
        ]
    );
}

#[test]
fn a_destination_behind_a_one_way_door_is_unreachable() {
    let mut p = project();
    p.semantics.portals[0] = portal("door", "platform", "hall", true, false);
    assert_eq!(
        report(&p),
        vec![entry(
            DiagnosticCode::UnreachableDestination,
            "population:commuters",
            "an assigned destination is unreachable from an assigned spawn"
        )]
    );
    p.semantics.portals[0].bidirectional = true;
    assert!(check_project(&p).is_ok());
    p.semantics.portals[0].initially_open = false;
    assert_eq!(report(&p).len(), 1);
}

#[test]
fn a_repeated_problem_is_reported_once() {
    let mut p = project();
    let mut twin = population("commuters");
    twin.count = 0;
    p.populations[0].count = 0;
    p.populations.push(twin);
    let found = validate_project(&p);
    let zero: Vec<&Diagnostic> = found.iter().filter(|d| d.code == DiagnosticCode::InvalidCount).collect();
    assert_eq!(zero.len(), 2);
    let sorted = report(&p);
    assert_eq!(sorted.iter().filter(|d| d.0 == DiagnosticCode::InvalidCount).count(), 1);
    assert!(sorted.contains(&entry(
        DiagnosticCode::DuplicateId,
        "population:commuters",
        "population IDs must be non-empty and unique"
    )));
}

#[test]
fn uuids_are_canonical_and_hyphenated() {
    assert!(valid_uuid(PROJECT_ID));
    assert!(valid_uuid("ABCDEF00-0000-0000-0000-000000000000"));
    assert!(!valid_uuid("123e4567e89b12d3a456426614174000"));
    assert!(!valid_uuid("123e4567-e89b-12d3-a456-42661417400g"));
    assert!(!valid_uuid("123e4567-e89b-12d3-a456_426614174000"));
    assert!(!valid_uuid(""));
}

#[test]
fn compact_indices_number_distinct_ids_in_text_order() {
    let ids = vec!["platform", "hall", "platform", "concourse"];
    let m = compact_indices(&ids);
    assert_eq!(m.get("concourse"), Some(&0));
    assert_eq!(m.get("hall"), Some(&1));
    assert_eq!(m.get("platform"), Some(&2));
    assert_eq!(m.len(), 3);
    assert_eq!(m.get("roof"), None);
}

#[test]
fn duplicate_ids_reports_each_repeat() {
    let mut found = Vec::new();
    duplicate_ids("spawn", &vec!["a", "b", "a", "", "a"], &mut found);
    let entities: Vec<&str> = found.iter().map(|d| d.entity_id.as_str()).collect();
    assert_eq!(entities, vec!["spawn:a", "spawn:", "spawn:a"]);
    assert!(found.iter().all(|d| d.message == "spawn IDs must be non-empty and unique"));
}

#[test]
fn missing_walkable_names_the_region() {
    let mut found = Vec::new();
    missing_walkable("spawn:gate", "hall", &vec!["hall"], &mut found);
    assert!(found.is_empty());
    missing_walkable("spawn:gate", "roof", &vec!["hall"], &mut found);
    assert_eq!(found.len(), 1);
    assert_eq!(found[0].code, DiagnosticCode::MissingWalkable);
    assert_eq!(found[0].message, "missing walkable region roof");
}

#[test]
fn the_concourse_schedule_plays_events_in_tick_portal_and_authored_order() {
    let mut p = project();
    p.semantics.portals = vec![
        portal("door", "hall", "platform", true, false),
        portal("gate_a", "hall", "platform", false, true),
        portal("gate_b", "hall", "platform", false, true),
    ];
    p.portal_events = vec![
        TimedPortalEventV1 { tick: 9, portal_id: "door".to_string(), open: false },
        TimedPortalEventV1 { tick: 3, portal_id: "gate_b".to_string(), open: true },
        TimedPortalEventV1 { tick: 3, portal_id: "gate_a".to_string(), open: true },
        TimedPortalEventV1 { tick: 3, portal_id: "gate_b".to_string(), open: false },
    ];
    p.clock = ClockIrV1 { ticks_per_second: 20, frame_start: 1, frame_end: 10, frames_per_second: 24 };
    let schedule = concourse_schedule(&p, &Vec::new());
    let order: Vec<(u64, u32, u32, bool)> = schedule
        .timed_portal_events
        .iter()
        .map(|e| (e.tick, e.portal_index, e.authored_ordinal, e.open))
        .collect();
    assert_eq!(order, vec![(3, 1, 2, true), (3, 2, 1, true), (3, 2, 3, false), (9, 0, 0, false)]);
    assert_eq!(schedule.timed_portal_events[0].portal_id, "gate_a");
    assert_eq!(schedule.initially_closed_portals, vec!["gate_a".to_string(), "gate_b".to_string()]);
    // 10 frames at 20 ticks per second and 24 frames per second: 200 / 24, rounded up.
    assert_eq!(schedule.duration_ticks, 9);
}

#[test]
fn a_reversed_frame_range_still_bakes_one_frame() {
    let mut p = project();
    p.clock = ClockIrV1 { ticks_per_second: 60, frame_start: 10, frame_end: 2, frames_per_second: 24 };
    assert_eq!(concourse_schedule(&p, &Vec::new()).duration_ticks, 3);
}

fn spawned(agent_id: u64, population_id: u32, spawn_ordinal: u32, spawn_source_id: u32) -> SpawnedAgent {
    SpawnedAgent { agent_id, population_id, spawn_ordinal, spawn_source_id }
}

#[test]
fn the_concourse_schedule_queues_agents_per_spawn_in_leaving_order() {
    let mut p = project();
    p.semantics.spawns.push(SpawnIrV1 {
        id: "side".to_string(),
        walkable_id: "hall".to_string(),
        bounds_valid: true,
        inside_walkable: true,
    });
    let agents = vec![
        spawned(40, 1, 0, 0),
        spawned(30, 0, 1, 0),
        spawned(20, 0, 1, 1),
        spawned(10, 0, 1, 0),
        spawned(50, 0, 0, 0),
        spawned(60, 0, 0, 7),
    ];
    let schedule = concourse_schedule(&p, &agents);
    assert_eq!(schedule.agents_by_spawn.len(), 2);
    let first: Vec<u64> = schedule.agents_by_spawn[0].iter().map(|a| a.agent_id).collect();
    assert_eq!(first, vec![50, 10, 30, 40]);
    let second: Vec<u64> = schedule.agents_by_spawn[1].iter().map(|a| a.agent_id).collect();
    assert_eq!(second, vec![20]);
}
