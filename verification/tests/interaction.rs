use crowd_core::interaction::{
    deterministic_paired_clip, ContactConstraintV1, ContactLabelV1, InteractionBudgetsV1,
    InteractionGroupStatusV1, InteractionIssueCode, InteractionModeV1, InteractionMotionV1,
    InteractionParticipantV1, InteractionProvenanceV1, InteractionRequestV1,
    InteractionSchedulerV1, MotionContactV1, MotionRootSampleV1, RootConstraintV1, RootSampleV1,
    SkeletalChannelV1,
};

const HASH: &str = "0123456789abcdef0123456789abcdef0123456789abcdef0123456789abcdef";

fn participant(agent_id: u64) -> InteractionParticipantV1 {
    InteractionParticipantV1 {
        agent_id,
        role: "greeter".to_string(),
        retarget_profile_id: "humanoid".to_string(),
    }
}

fn sample(tick: u64) -> RootSampleV1 {
    RootSampleV1 { tick, finite: true, step_too_far: false }
}

fn roots(agent_id: u64) -> RootConstraintV1 {
    RootConstraintV1 {
        agent_id,
        samples: vec![
            sample(10),
            sample(15),
            sample(20),
        ],
    }
}

fn request(id: &str, agents: &[u64]) -> InteractionRequestV1 {
    InteractionRequestV1 {
        schema_version: 1,
        request_id: id.to_string(),
        group_id: format!("group-{id}"),
        participants: agents.iter().map(|a| participant(*a)).collect(),
        tick_start: 10,
        tick_end: 20,
        seed: 3,
        mode: InteractionModeV1::Strict,
        action: "handshake".to_string(),
        outcome: "greeted".to_string(),
        root_constraints: agents.iter().map(|a| roots(*a)).collect(),
        contact_constraints: vec![ContactConstraintV1 {
            contact_id: "hands".to_string(),
            owner_agent_id: agents[0],
            other_agent_id: agents[1],
            label: ContactLabelV1::Grip,
            tick_start: 12,
            tick_end: 14,
            required: true,
        }],
        provenance: InteractionProvenanceV1 {
            base_cache_hash: HASH.to_string(),
            graph_hash: HASH.to_string(),
            worker_protocol: "v1".to_string(),
        },
        budgets: InteractionBudgetsV1 {
            max_latency_ms: 10,
            max_memory_bytes: 1 << 20,
            max_output_bytes: 1 << 16,
        },
    }
}

fn codes(r: &InteractionRequestV1) -> Vec<(InteractionIssueCode, String)> {
    match r.validate() {
        Ok(()) => Vec::new(),
        Err(issues) => issues.into_iter().map(|i| (i.code, i.message)).collect(),
    }
}

#[test]
fn a_well_formed_request_validates() {
    assert!(request("r1", &[1, 2]).validate().is_ok());
}

#[test]
fn request_problems_are_reported_sorted_by_code() {
    let mut r = request("", &[1, 2]);
    r.participants.pop();
    r.schema_version = 2;
    r.tick_start = 30;
    r.budgets.max_latency_ms = 0;
    let found: Vec<InteractionIssueCode> = codes(&r).into_iter().map(|c| c.0).collect();
    assert_eq!(found[0], InteractionIssueCode::UnsupportedVersion);
    assert_eq!(found[1], InteractionIssueCode::EmptyId);
    assert_eq!(found[2], InteractionIssueCode::InvalidTickRange);
    assert_eq!(found[3], InteractionIssueCode::TooFewParticipants);
    assert_eq!(*found.last().unwrap(), InteractionIssueCode::InvalidBudget);
    for pair in found.windows(2) {
        assert!(pair[0] <= pair[1]);
    }
}

#[test]
fn participant_and_root_problems_are_reported() {
    let mut r = request("r1", &[1, 2]);
    r.participants.push(participant(2));
    r.participants[0].role = String::new();
    r.root_constraints.push(roots(9));
    r.root_constraints[1].samples[1] = RootSampleV1 { tick: 9, finite: false, step_too_far: false };
    let found = codes(&r);
    assert!(found.contains(&(
        InteractionIssueCode::DuplicateParticipant,
        "participant 2 appears more than once".to_string()
    )));
    assert!(found.contains(&(
        InteractionIssueCode::InvalidParticipant,
        "participant 1 has an empty role or retarget profile".to_string()
    )));
    assert!(found.contains(&(
        InteractionIssueCode::InvalidRootSamples,
        "root constraint references non-participant 9".to_string()
    )));
    assert!(found.contains(&(
        InteractionIssueCode::InvalidRootSamples,
        "invalid or unordered root sample at tick 9".to_string()
    )));
}

#[test]
fn missing_roots_contacts_and_provenance_are_reported() {
    let mut r = request("r1", &[1, 2]);
    r.root_constraints.pop();
    r.contact_constraints[0].tick_end = 99;
    r.provenance.graph_hash = "ABC".to_string();
    let found = codes(&r);
    assert!(found.contains(&(
        InteractionIssueCode::MissingRootConstraint,
        "participant 2 has no root constraint".to_string()
    )));
    assert!(found.contains(&(
        InteractionIssueCode::InvalidContactConstraint,
        "contact hands is outside the declared interaction".to_string()
    )));
    assert!(found.iter().any(|c| c.0 == InteractionIssueCode::InvalidProvenance));
}

#[test]
fn an_invalid_request_is_refused_with_joined_messages() {
    let mut scheduler = InteractionSchedulerV1::new(1);
    let mut r = request("r1", &[1, 2]);
    r.schema_version = 9;
    r.budgets.max_memory_bytes = 0;
    assert_eq!(
        scheduler.enqueue(r),
        Err("expected request schema version 1; interaction budgets must be positive".to_string())
    );
    assert_eq!(scheduler.status("r1"), None);
}

#[test]
fn duplicates_and_locked_participants_are_refused() {
    let mut scheduler = InteractionSchedulerV1::new(2);
    scheduler.enqueue(request("a", &[1, 2])).unwrap();
    assert_eq!(
        scheduler.enqueue(request("a", &[3, 4])),
        Err("interaction request a is duplicated".to_string())
    );
    assert_eq!(scheduler.promote_next(), Some("a".to_string()));
    assert_eq!(
        scheduler.enqueue(request("b", &[5, 2])),
        Err("participant 2 is already promoted in a".to_string())
    );
}

#[test]
fn promotion_follows_request_order_and_capacity() {
    let mut scheduler = InteractionSchedulerV1::new(1);
    scheduler.enqueue(request("b", &[3, 4])).unwrap();
    scheduler.enqueue(request("a", &[1, 2])).unwrap();
    assert_eq!(scheduler.promote_next(), Some("a".to_string()));
    assert_eq!(scheduler.promote_next(), None);
    assert_eq!(scheduler.status("a"), Some(InteractionGroupStatusV1::Promoted));
    assert_eq!(scheduler.status("b"), Some(InteractionGroupStatusV1::Queued));
    assert_eq!(scheduler.active_group_for(1), Some("a"));
    assert_eq!(scheduler.active_group_for(3), None);
    assert_eq!(scheduler.complete("a"), Some(InteractionGroupStatusV1::Completed));
    assert_eq!(scheduler.promote_next(), Some("b".to_string()));
}

#[test]
fn failure_releases_every_participant_together() {
    let mut scheduler = InteractionSchedulerV1::new(4);
    scheduler.enqueue(request("g", &[7, 8])).unwrap();
    scheduler.promote_next();
    assert_eq!(scheduler.active_group_for(7), Some("g"));
    assert_eq!(scheduler.active_group_for(8), Some("g"));
    assert_eq!(scheduler.fail("g", "worker timed out"), Some(InteractionGroupStatusV1::Fallback));
    assert_eq!(scheduler.active_group_for(7), None);
    assert_eq!(scheduler.active_group_for(8), None);
    assert_eq!(scheduler.status("g"), Some(InteractionGroupStatusV1::Fallback));
    assert_eq!(scheduler.fail("unknown", "x"), None);
}

#[test]
fn an_empty_scheduler_promotes_nothing() {
    let mut scheduler = InteractionSchedulerV1::new(3);
    assert_eq!(scheduler.promote_next(), None);
    assert_eq!(scheduler.complete("none"), None);
}

fn motion_issues(m: &InteractionMotionV1, r: &InteractionRequestV1) -> Vec<(InteractionIssueCode, String)> {
    match m.validate_against(r) {
        Ok(()) => Vec::new(),
        Err(issues) => issues.into_iter().map(|i| (i.code, i.message)).collect(),
    }
}

#[test]
fn the_authored_baseline_replays_roots_and_required_contacts() {
    let r = request("r1", &[1, 2]);
    let m = deterministic_paired_clip(&r).unwrap();
    assert_eq!(m.schema_version, 1);
    assert_eq!(m.request_id, "r1");
    assert_eq!(m.participants.len(), 2);
    assert_eq!(m.participants[1].agent_id, 2);
    assert_eq!(
        m.participants[0].root_samples,
        vec![
            MotionRootSampleV1 { tick: 10, finite: true, step_too_far: false, off_path: false },
            MotionRootSampleV1 { tick: 15, finite: true, step_too_far: false, off_path: false },
            MotionRootSampleV1 { tick: 20, finite: true, step_too_far: false, off_path: false },
        ]
    );
    assert_eq!(m.contacts.len(), 1);
    assert_eq!(m.contacts[0].contact_id, "hands");
    assert_eq!(m.contacts[0].tick, 13);
    assert_eq!(m.provenance.backend, "authored-paired-clip");
    assert_eq!(m.provenance.config_hash, "authored-paired-clip-v1");
    assert_eq!(m.provenance.seed, 3);
    assert_eq!(m.fallback.clip_id, "walk");
    assert!(m.validate_against(&r).is_ok());
}

#[test]
fn the_baseline_skips_optional_and_forbidden_contacts() {
    let mut r = request("r1", &[1, 2]);
    r.contact_constraints[0].required = false;
    r.contact_constraints.push(ContactConstraintV1 {
        contact_id: "shove".to_string(),
        owner_agent_id: 2,
        other_agent_id: 1,
        label: ContactLabelV1::Forbidden,
        tick_start: 10,
        tick_end: 20,
        required: false,
    });
    let m = deterministic_paired_clip(&r).unwrap();
    assert!(m.contacts.is_empty());
}

#[test]
fn a_required_forbidden_contact_leaves_the_baseline_refused() {
    let mut r = request("r1", &[1, 2]);
    r.contact_constraints[0].label = ContactLabelV1::Forbidden;
    let err = deterministic_paired_clip(&r).unwrap_err();
    assert_eq!(err.len(), 1);
    assert_eq!(err[0].code, InteractionIssueCode::RequiredContactMissing);
    assert_eq!(err[0].message, "required contact hands was not observed");
}

#[test]
fn the_baseline_of_an_invalid_request_reports_the_request() {
    let mut r = request("r1", &[1, 2]);
    r.schema_version = 4;
    let err = deterministic_paired_clip(&r).unwrap_err();
    assert_eq!(err.len(), 1);
    assert_eq!(err[0].code, InteractionIssueCode::UnsupportedVersion);
    assert_eq!(err[0].message, "expected request schema version 1");
}

#[test]
fn a_baseline_that_jumps_is_refused() {
    let mut r = request("r1", &[1, 2]);
    r.root_constraints[0].samples[1].step_too_far = true;
    let err = deterministic_paired_clip(&r).unwrap_err();
    assert_eq!(err.len(), 1);
    assert_eq!(err[0].code, InteractionIssueCode::RootDiscontinuity);
    assert_eq!(err[0].message, "agent 1 moves too far between ticks 10 and 15");
}

#[test]
fn motion_header_problems_are_reported() {
    let r = request("r1", &[1, 2]);
    let mut m = deterministic_paired_clip(&r).unwrap();
    m.schema_version = 2;
    m.request_id = "other".to_string();
    m.provenance.seed = 99;
    m.fallback.reason = String::new();
    let found = motion_issues(&m, &r);
    assert_eq!(
        found,
        vec![
            (InteractionIssueCode::UnsupportedVersion, "expected motion schema version 1".to_string()),
            (InteractionIssueCode::RequestIdMismatch, "motion request other does not match r1".to_string()),
            (
                InteractionIssueCode::InvalidMotionProvenance,
                "motion provenance must name a backend/config and match the strict request seed".to_string()
            ),
            (
                InteractionIssueCode::MissingFallback,
                "motion must declare a deterministic fallback clip and reason".to_string()
            ),
        ]
    );
}

#[test]
fn an_exploratory_request_accepts_another_seed() {
    let mut r = request("r1", &[1, 2]);
    r.mode = InteractionModeV1::Exploratory;
    let mut m = deterministic_paired_clip(&r).unwrap();
    m.provenance.seed = 99;
    assert!(m.validate_against(&r).is_ok());
}

#[test]
fn motion_participant_problems_are_reported() {
    let r = request("r1", &[1, 2]);
    let mut m = deterministic_paired_clip(&r).unwrap();
    m.participants[1].agent_id = 1;
    m.participants[0].root_samples[2].off_path = true;
    m.participants[0].skeletal_channels = vec![
        SkeletalChannelV1 { joint: "hip".to_string(), ticks: vec![10, 11], value_count: 2, values_finite: true },
        SkeletalChannelV1 { joint: "hip".to_string(), ticks: vec![10, 11], value_count: 2, values_finite: true },
        SkeletalChannelV1 { joint: "knee".to_string(), ticks: vec![11, 11], value_count: 2, values_finite: true },
    ];
    let found = motion_issues(&m, &r);
    assert!(found.contains(&(
        InteractionIssueCode::DuplicateMotionParticipant,
        "motion participant 1 appears more than once".to_string()
    )));
    assert!(found.contains(&(
        InteractionIssueCode::ParticipantSetMismatch,
        "motion participants must exactly match request participants".to_string()
    )));
    assert!(found.contains(&(
        InteractionIssueCode::RootDeviation,
        "agent 1 motion root deviates from its authored path at tick 20".to_string()
    )));
    assert!(found.contains(&(
        InteractionIssueCode::InvalidSkeletalChannel,
        "invalid skeletal channel hip".to_string()
    )));
    assert!(found.contains(&(
        InteractionIssueCode::InvalidSkeletalChannel,
        "invalid skeletal channel knee".to_string()
    )));
    assert_eq!(found.iter().filter(|f| f.0 == InteractionIssueCode::InvalidSkeletalChannel).count(), 2);
}

#[test]
fn a_participant_without_request_roots_is_reported() {
    let r = request("r1", &[1, 2]);
    let mut m = deterministic_paired_clip(&r).unwrap();
    m.participants[1].agent_id = 5;
    m.participants[0].root_samples.remove(0);
    let found = motion_issues(&m, &r);
    assert!(found.contains(&(
        InteractionIssueCode::MissingMotionParticipant,
        "motion participant 5 has no request root".to_string()
    )));
    assert!(found.contains(&(
        InteractionIssueCode::InvalidMotionRoots,
        "agent 1 motion roots must cover the complete interval".to_string()
    )));
}

fn contact(id: &str, label: ContactLabelV1, tick: u64) -> MotionContactV1 {
    MotionContactV1 {
        contact_id: id.to_string(),
        label,
        owner_agent_id: 1,
        other_agent_id: 2,
        tick,
        distance_valid: true,
        within_reach: true,
    }
}

#[test]
fn motion_contact_problems_are_reported() {
    let r = request("r1", &[1, 2]);
    let mut m = deterministic_paired_clip(&r).unwrap();
    m.contacts = vec![
        contact("elbow", ContactLabelV1::Touch, 12),
        contact("hands", ContactLabelV1::Touch, 12),
    ];
    let found = motion_issues(&m, &r);
    assert!(found.contains(&(
        InteractionIssueCode::UnknownContact,
        "motion references unknown contact elbow".to_string()
    )));
    assert!(found.contains(&(
        InteractionIssueCode::InvalidContact,
        "motion contact hands violates its declared constraint".to_string()
    )));
    assert!(found.contains(&(
        InteractionIssueCode::RequiredContactMissing,
        "required contact hands was not observed".to_string()
    )));
}

#[test]
fn repeated_and_forbidden_contacts_are_reported() {
    let mut r = request("r1", &[1, 2]);
    r.contact_constraints[0].label = ContactLabelV1::Forbidden;
    r.contact_constraints[0].required = false;
    let mut m = deterministic_paired_clip(&r).unwrap();
    m.contacts = vec![
        contact("hands", ContactLabelV1::Forbidden, 12),
        contact("hands", ContactLabelV1::Forbidden, 12),
    ];
    let found = motion_issues(&m, &r);
    assert!(found.contains(&(
        InteractionIssueCode::InvalidContact,
        "motion contact hands is duplicated at tick 12".to_string()
    )));
    assert_eq!(found.iter().filter(|f| f.0 == InteractionIssueCode::ForbiddenContact).count(), 2);
}

#[test]
fn a_far_required_contact_is_not_observed() {
    let r = request("r1", &[1, 2]);
    let mut m = deterministic_paired_clip(&r).unwrap();
    m.contacts[0].within_reach = false;
    assert_eq!(
        motion_issues(&m, &r),
        vec![(
            InteractionIssueCode::RequiredContactMissing,
            "required contact hands was not observed".to_string()
        )]
    );
}
