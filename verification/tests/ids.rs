use crowd_core::ids::{derive_agent_id, hash_combine, hash_str, mix64};
use std::collections::BTreeSet;

#[test]
fn mix64_output_is_pinned() {
    assert_eq!(mix64(0), 0);
    assert_eq!(mix64(1), 6238072747940578789);
    assert_eq!(mix64(u64::MAX), 13029008266876403067);
}

#[test]
fn derived_ids_are_unique_across_ordinals() {
    let mut seen = BTreeSet::new();
    for ordinal in 0..10_000u32 {
        assert!(seen.insert(derive_agent_id(42, 0, 0, ordinal)));
    }
}

#[test]
fn derived_ids_are_unique_across_spawn_sources() {
    let a = derive_agent_id(42, 0, 0, 7);
    let b = derive_agent_id(42, 0, 1, 7);
    assert_ne!(a, b);
}

#[test]
fn derived_ids_are_unique_across_populations() {
    assert_ne!(derive_agent_id(42, 0, 0, 7), derive_agent_id(42, 1, 0, 7));
}

#[test]
fn derived_ids_depend_on_project_seed() {
    assert_ne!(derive_agent_id(42, 0, 0, 7), derive_agent_id(43, 0, 0, 7));
}

#[test]
fn derived_ids_are_independent_of_call_order() {
    let forward: Vec<_> = (0..100).map(|i| derive_agent_id(1, 0, 0, i)).collect();
    let backward: Vec<_> = (0..100).rev().map(|i| derive_agent_id(1, 0, 0, i)).collect();
    let backward: Vec<_> = backward.into_iter().rev().collect();
    assert_eq!(forward, backward);
}

#[test]
fn hash_str_is_stable_and_distinguishes_inputs() {
    assert_eq!(hash_str("platform_a"), hash_str("platform_a"));
    assert_ne!(hash_str("platform_a"), hash_str("platform_b"));
}

#[test]
fn hash_combine_changes_with_either_input() {
    assert_ne!(hash_combine(1, 2), hash_combine(1, 3));
    assert_ne!(hash_combine(1, 2), hash_combine(2, 2));
    assert_eq!(hash_combine(5, 9), hash_combine(5, 9));
}

#[test]
fn hash_str_of_empty_text_is_fixed() {
    assert_eq!(hash_str(""), hash_str(""));
    assert_eq!(hash_str(""), mix64(0xcbf2_9ce4_8422_2325));
    assert_ne!(hash_str(""), hash_str("a"));
}
