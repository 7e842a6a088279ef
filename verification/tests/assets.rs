use crowd_core::assets::{
    validate_asset_library, AssetDiagnosticCode, AssetLibraryV1, ClipMetadataV1, ContactIntervalV1,
    RetargetProfileV1, VariationProfileV1, WeightedAssetV1,
};
use crowd_core::ids::AgentId;
use crowd_core::keyed::TextMap;

fn bones(pairs: &[(&str, &str)]) -> TextMap<String> {
    let mut map = TextMap::new();
    for (k, v) in pairs {
        map.insert(k.to_string(), v.to_string());
    }
    map
}

fn profile(id: &str) -> RetargetProfileV1 {
    RetargetProfileV1 {
        id: id.to_string(),
        source_rig_id: "rig".to_string(),
        root_bone: "root".to_string(),
        forward_axis: "Y".to_string(),
        scale_millimeters: 1000,
        bone_map: bones(&[("hips", "Hips"), ("left_foot", "LFoot"), ("right_foot", "RFoot")]),
    }
}

fn clip(id: &str, profile_id: &str) -> ClipMetadataV1 {
    ClipMetadataV1 {
        id: id.to_string(),
        retarget_profile_id: profile_id.to_string(),
        duration_ticks: 30,
        loop_start_tick: 0,
        loop_end_tick: 29,
        average_root_speed_mmps: 1300,
        left_foot_contacts: vec![ContactIntervalV1 { start: 0, end: 10 }],
        right_foot_contacts: vec![ContactIntervalV1 { start: 15, end: 25 }],
    }
}

fn weighted(items: &[(&str, u32)]) -> Vec<WeightedAssetV1> {
    items.iter().map(|(id, w)| WeightedAssetV1::new(id, *w)).collect()
}

fn variation(id: &str, clip_id: &str) -> VariationProfileV1 {
    VariationProfileV1 {
        id: id.to_string(),
        bodies: weighted(&[("body_a", 1), ("body_b", 3)]),
        clothing: weighted(&[("coat", 1)]),
        materials: weighted(&[("red", 1), ("blue", 1)]),
        props: weighted(&[("none", 1)]),
        clips: weighted(&[(clip_id, 1)]),
    }
}

fn library() -> AssetLibraryV1 {
    AssetLibraryV1 {
        retarget_profiles: vec![profile("humanoid")],
        clips: vec![clip("walk", "humanoid")],
        variations: vec![variation("commuter", "walk")],
    }
}

fn codes(library: &AssetLibraryV1) -> Vec<(AssetDiagnosticCode, String, String)> {
    match validate_asset_library(library) {
        Ok(_) => Vec::new(),
        Err(d) => d.into_iter().map(|x| (x.code, x.entity_id, x.message)).collect(),
    }
}

#[test]
fn a_valid_library_compiles_and_selects_deterministically() {
    let compiled = validate_asset_library(&library()).expect("valid");
    let a = compiled.select("commuter", 7, AgentId(11)).expect("known profile");
    let b = compiled.select("commuter", 7, AgentId(11)).expect("known profile");
    assert_eq!(a.body, b.body);
    assert_eq!(a.material, b.material);
    assert_eq!(a.clothing, "coat");
    assert_eq!(a.prop, "none");
    assert_eq!(a.clip, "walk");
    assert!(a.body == "body_a" || a.body == "body_b");
}

#[test]
fn an_unknown_profile_selects_nothing() {
    let compiled = validate_asset_library(&library()).expect("valid");
    assert!(compiled.select("tourist", 7, AgentId(11)).is_none());
}

#[test]
fn selection_spreads_over_weighted_choices() {
    let compiled = validate_asset_library(&library()).expect("valid");
    let mut a = 0;
    let mut b = 0;
    for agent in 0..400u64 {
        let choice = compiled.select("commuter", 99, AgentId(agent)).unwrap();
        if choice.body == "body_a" {
            a += 1;
        } else {
            b += 1;
        }
    }
    assert!(a > 0 && b > a);
}

#[test]
fn with_material_replaces_only_the_material() {
    let compiled = validate_asset_library(&library()).expect("valid");
    let choice = compiled.select("commuter", 1, AgentId(2)).unwrap();
    let body = choice.body.clone();
    let changed = choice.with_material("green");
    assert_eq!(changed.material, "green");
    assert_eq!(changed.body, body);
}

#[test]
fn duplicate_and_empty_ids_are_reported_per_kind() {
    let mut lib = library();
    lib.clips.push(clip("walk", "humanoid"));
    lib.variations.push(variation("", "walk"));
    let found = codes(&lib);
    assert!(found.contains(&(
        AssetDiagnosticCode::DuplicateId,
        "clip:walk".to_string(),
        "give this asset contract a unique stable ID".to_string()
    )));
    assert!(found.contains(&(
        AssetDiagnosticCode::DuplicateId,
        "variation:".to_string(),
        "give this asset contract a unique stable ID".to_string()
    )));
}

#[test]
fn the_same_id_in_two_kinds_is_not_a_duplicate() {
    let mut lib = library();
    lib.clips[0].id = "humanoid".to_string();
    lib.variations[0].clips = weighted(&[("humanoid", 1)]);
    assert!(validate_asset_library(&lib).is_ok());
}

#[test]
fn retarget_problems_are_reported() {
    let mut lib = library();
    lib.retarget_profiles[0].forward_axis = "Z".to_string();
    lib.retarget_profiles[0].bone_map = bones(&[("hips", "Hips"), ("left_foot", "")]);
    let found = codes(&lib);
    assert_eq!(
        found,
        vec![
            (
                AssetDiagnosticCode::InvalidRetargetProfile,
                "retarget:humanoid".to_string(),
                "set source rig, root bone, supported forward axis, and positive scale".to_string()
            ),
            (
                AssetDiagnosticCode::MissingBone,
                "retarget:humanoid".to_string(),
                "map the required canonical bone 'left_foot'".to_string()
            ),
            (
                AssetDiagnosticCode::MissingBone,
                "retarget:humanoid".to_string(),
                "map the required canonical bone 'right_foot'".to_string()
            ),
        ]
    );
}

#[test]
fn clip_problems_are_reported_in_code_order() {
    let mut lib = library();
    lib.clips[0].retarget_profile_id = "quadruped".to_string();
    lib.clips[0].loop_end_tick = 30;
    lib.clips[0].right_foot_contacts = vec![ContactIntervalV1 { start: 5, end: 2 }];
    let found: Vec<AssetDiagnosticCode> = codes(&lib).into_iter().map(|c| c.0).collect();
    assert_eq!(
        found,
        vec![
            AssetDiagnosticCode::MissingRetargetProfile,
            AssetDiagnosticCode::InvalidClipLoop,
            AssetDiagnosticCode::InvalidFootContact,
        ]
    );
}

#[test]
fn variation_problems_are_reported() {
    let mut lib = library();
    lib.variations[0].props = weighted(&[("none", 0)]);
    lib.variations[0].clips = weighted(&[("run", 1)]);
    let found = codes(&lib);
    assert_eq!(
        found,
        vec![
            (
                AssetDiagnosticCode::InvalidVariation,
                "variation:commuter".to_string(),
                "provide non-empty weighted body, clothing, material, prop, and clip choices".to_string()
            ),
            (
                AssetDiagnosticCode::MissingClip,
                "variation:commuter".to_string(),
                "choose an existing clip instead of 'run'".to_string()
            ),
        ]
    );
}

#[test]
fn reports_are_sorted_by_entity_then_code() {
    let mut lib = library();
    lib.variations[0].clips = weighted(&[("run", 1)]);
    lib.clips[0].average_root_speed_mmps = 0;
    lib.retarget_profiles[0].scale_millimeters = 0;
    let found: Vec<String> = codes(&lib).into_iter().map(|c| c.1).collect();
    assert_eq!(found, vec!["clip:walk", "retarget:humanoid", "variation:commuter"]);
}
