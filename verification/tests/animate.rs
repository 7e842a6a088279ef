use crowd_core::animate::{runtime_clip_id, IDLE_CLIP_ID, JOG_CLIP_ID, WALK_CLIP_ID};

#[test]
fn clip_names_select_runtime_clips() {
    assert_eq!(runtime_clip_id("Jog_Forward"), Some(JOG_CLIP_ID));
    assert_eq!(runtime_clip_id("pedestrian_WALK_01"), Some(WALK_CLIP_ID));
    assert_eq!(runtime_clip_id("IDLE"), Some(IDLE_CLIP_ID));
    assert_eq!(runtime_clip_id("run"), None);
    assert_eq!(runtime_clip_id(""), None);
}

#[test]
fn jogging_wins_over_walking_and_idling() {
    assert_eq!(runtime_clip_id("walk_to_jog"), Some(JOG_CLIP_ID));
    assert_eq!(runtime_clip_id("idle_then_walk"), Some(WALK_CLIP_ID));
    assert_eq!(runtime_clip_id("jo g"), None);
}
