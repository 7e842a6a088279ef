use crowd_core::agents::compiled_agent_ids;
use crowd_core::ids::{derive_agent_id, hash_combine, hash_str};
use crowd_core::project::{
    AnimationSettingsIrV1, AvoidanceSettingsIrV1, ClockIrV1, DeterminismModeIrV1,
    NavigationSettingsIrV1, PopulationIrV1, ProjectIrV1, ProjectSettingsIrV1, SemanticIrV1,
    SpawnIrV1, UnitsIrV1,
};

const PROJECT_ID: &str = "123e4567-e89b-12d3-a456-426614174000";

fn population(id: &str, count: u32, sources: &[&str]) -> PopulationIrV1 {
    PopulationIrV1 {
        id: id.to_string(),
        count,
        spawn_source_ids: sources.iter().map(|s| s.to_string()).collect(),
        destinations: Vec::new(),
        archetypes: Vec::new(),
        appearances: Vec::new(),
        destination_weights_valid: true,
        archetype_weights_valid: true,
        appearance_weights_valid: true,
        distributions_valid: true,
    }
}

fn spawn(id: &str) -> SpawnIrV1 {
    SpawnIrV1 { id: id.to_string(), walkable_id: "hall".to_string(), bounds_valid: true, inside_walkable: true }
}

fn project(populations: Vec<PopulationIrV1>) -> ProjectIrV1 {
    ProjectIrV1 {
        schema_version: 1,
        project_id: PROJECT_ID.to_string(),
        seed: 7,
        units: UnitsIrV1 { length: "meters".to_string(), angle: "radians".to_string() },
        clock: ClockIrV1 { ticks_per_second: 30, frame_start: 0, frame_end: 100, frames_per_second: 30 },
        mode: DeterminismModeIrV1::Strict,
        commuter_program: "commuter_v1".to_string(),
        archetypes: Vec::new(),
        appearances: Vec::new(),
        populations,
        semantics: SemanticIrV1 {
            walkable: Vec::new(),
            blocked: Vec::new(),
            spawns: vec![spawn("north"), spawn("east")],
            destinations: Vec::new(),
            portals: Vec::new(),
        },
        portal_events: Vec::new(),
        settings: ProjectSettingsIrV1 {
            navigation: NavigationSettingsIrV1 { tile_size_valid: true, agent_radius_valid: true },
            avoidance: AvoidanceSettingsIrV1 { solver: "sampled_velocity".to_string() },
            animation: AnimationSettingsIrV1 {
                locomotion_set_id: "locomotion".to_string(),
                jog_threshold_valid: true,
            },
        },
    }
}

#[test]
fn agents_take_sources_in_text_order_round_robin() {
    let p = project(vec![population("walkers", 3, &["north", "east"])]);
    let ids = compiled_agent_ids(&p);
    let seed = hash_combine(7, hash_str(PROJECT_ID));
    // Spawns by ID: east = 0, north = 1; sources by ID: east, north.
    assert_eq!(
        ids,
        vec![
            derive_agent_id(seed, 0, 0, 0).0,
            derive_agent_id(seed, 0, 1, 0).0,
            derive_agent_id(seed, 0, 0, 1).0,
        ]
    );
}

#[test]
fn population_numbers_follow_their_ids() {
    let p = project(vec![population("zebras", 1, &["east"]), population("ants", 2, &["north"])]);
    let ids = compiled_agent_ids(&p);
    let seed = hash_combine(7, hash_str(PROJECT_ID));
    assert_eq!(
        ids,
        vec![
            derive_agent_id(seed, 1, 0, 0).0,
            derive_agent_id(seed, 0, 1, 0).0,
            derive_agent_id(seed, 0, 1, 1).0,
        ]
    );
}

#[test]
fn agent_ids_do_not_depend_on_listing_order() {
    let a = project(vec![population("zebras", 2, &["east", "north"]), population("ants", 2, &["north"])]);
    let b = project(vec![population("ants", 2, &["north"]), population("zebras", 2, &["north", "east"])]);
    let mut x = compiled_agent_ids(&a);
    let mut y = compiled_agent_ids(&b);
    assert_eq!(x.len(), 4);
    x.sort();
    y.sort();
    assert_eq!(x, y);
}
