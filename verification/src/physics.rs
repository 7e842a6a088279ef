//! Optional physics/recovery ownership and hero-solver declarations.

use vstd::prelude::*;
use vstd::utf8::encode_utf8;
use crate::text::{any_empty, decimal, finish, has_empty, is_hash, is_hash_spec, msg_if, push_literal_if, push_message, views, with_decimal};

verus! {

pub const PHYSICS_TRANSITION_SCHEMA_VERSION: u32 = 1;

#[derive(Clone, Copy, Debug, PartialEq, Eq, Structural)]
pub enum FailurePolicyV1 {
    Fallback,
    Reject,
    Hold,
}

#[derive(Clone, Debug, PartialEq, Eq)]
pub struct PhysicsTransitionV1 {
    pub schema_version: u32,
    pub transition_id: String,
    pub agent_ids: Vec<u64>,
    pub tick_start: u64,
    pub tick_end: u64,
    pub solver: String,
    pub cache_hash: String,
    pub recovery: String,
    pub failure_policy: FailurePolicyV1,
}

#[derive(Clone, Debug, PartialEq, Eq)]
pub struct HeroIntegrationBoundaryV1 {
    pub integration_id: String,
    pub solver: String,
    pub cache_policy: String,
    pub supported_render_tiers: Vec<String>,
    pub failure_policy: String,
}

#[derive(Clone, Copy, Debug, PartialEq, Eq, Structural)]
pub enum RecoveryPhaseV1 {
    Impact,
    Stabilize,
    Resume,
}

#[derive(Clone, Debug, PartialEq, Eq)]
pub struct RigidBodyLayerV1 {
    pub layer_id: String,
    pub owner_agent_ids: Vec<u64>,
    pub solver: String,
    pub collision_masks: Vec<String>,
    pub recovery_transition_id: String,
}

/// The diagnostics a rigid-body layer declaration earns, in order.
pub open spec fn rigid_body_layer_errors(layer: RigidBodyLayerV1) -> Seq<Seq<char>> {
    msg_if(layer.layer_id@.len() == 0, "rigid-body layer ID must be non-empty"@)
        + msg_if(layer.owner_agent_ids@.len() == 0, "rigid-body layer must declare owner agents"@)
        + msg_if(layer.solver@.len() == 0, "rigid-body layer solver must be declared"@)
        + msg_if(
        layer.collision_masks@.len() == 0 || any_empty(layer.collision_masks@),
        "rigid-body layer collision masks must be declared"@,
    ) + msg_if(
        layer.recovery_transition_id@.len() == 0,
        "rigid-body layer must declare a recovery transition"@,
    )
}

impl RigidBodyLayerV1 {
    pub fn validate(&self) -> (r: Result<(), Vec<String>>)
        ensures
            r is Ok <==> rigid_body_layer_errors(*self).len() == 0,
            r matches Err(e) ==> views(e@) == rigid_body_layer_errors(*self),
    {
        let mut errors: Vec<String> = Vec::new();
        push_literal_if(&mut errors, self.layer_id.as_str().is_empty(), "rigid-body layer ID must be non-empty");
        push_literal_if(&mut errors, self.owner_agent_ids.len() == 0, "rigid-body layer must declare owner agents");
        push_literal_if(&mut errors, self.solver.as_str().is_empty(), "rigid-body layer solver must be declared");
        push_literal_if(&mut errors, self.collision_masks.len() == 0 || has_empty(&self.collision_masks), "rigid-body layer collision masks must be declared");
        push_literal_if(&mut errors, self.recovery_transition_id.as_str().is_empty(), "rigid-body layer must declare a recovery transition");
        proof {
            assert(views(errors@) =~= rigid_body_layer_errors(*self));
        }
        finish(errors)
    }
}

/// The recovery phase at `tick` of a transition that stabilizes for
/// `stabilize_ticks` after its start.
pub open spec fn recovery_phase_spec(
    tick_start: u64,
    tick: u64,
    stabilize_ticks: u64,
) -> RecoveryPhaseV1 {
    if tick <= tick_start {
        RecoveryPhaseV1::Impact
    } else if tick < tick_start.saturating_add(stabilize_ticks) {
        RecoveryPhaseV1::Stabilize
    } else {
        RecoveryPhaseV1::Resume
    }
}

/// A transition's phases run in order and never go back: impact up to its
/// start tick, then stabilizing for `stabilize_ticks` ticks, then resuming;
/// with no stabilizing ticks it resumes right after the start.
pub proof fn lemma_recovery_phases_in_order(tick_start: u64, t1: u64, t2: u64, stabilize_ticks: u64)
    requires
        t1 <= t2,
    ensures
        recovery_phase_spec(tick_start, t1, stabilize_ticks) == RecoveryPhaseV1::Resume ==> recovery_phase_spec(
            tick_start,
            t2,
            stabilize_ticks,
        ) == RecoveryPhaseV1::Resume,
        recovery_phase_spec(tick_start, t2, stabilize_ticks) == RecoveryPhaseV1::Impact ==> recovery_phase_spec(
            tick_start,
            t1,
            stabilize_ticks,
        ) == RecoveryPhaseV1::Impact,
        recovery_phase_spec(tick_start, t1, stabilize_ticks) == RecoveryPhaseV1::Impact <==> t1 <= tick_start,
        t1 > tick_start && t1 - tick_start < stabilize_ticks && tick_start + stabilize_ticks <= u64::MAX
            ==> recovery_phase_spec(tick_start, t1, stabilize_ticks)
            == RecoveryPhaseV1::Stabilize,
        t1 > tick_start && t1 - tick_start >= stabilize_ticks && tick_start + stabilize_ticks <= u64::MAX
            ==> recovery_phase_spec(tick_start, t1, stabilize_ticks) == RecoveryPhaseV1::Resume,
        stabilize_ticks == 0 ==> recovery_phase_spec(tick_start, t1, stabilize_ticks) != RecoveryPhaseV1::Stabilize,
{
}

pub fn recovery_phase(
    transition: &PhysicsTransitionV1,
    tick: u64,
    stabilize_ticks: u64,
) -> (p: RecoveryPhaseV1)
    ensures
        p == recovery_phase_spec(transition.tick_start, tick, stabilize_ticks),
{
    if tick <= transition.tick_start {
        RecoveryPhaseV1::Impact
    } else if tick < transition.tick_start.saturating_add(stabilize_ticks) {
        RecoveryPhaseV1::Stabilize
    } else {
        RecoveryPhaseV1::Resume
    }
}

/// Some agent ID occurs twice.
pub open spec fn has_duplicate_u64(ids: Seq<u64>) -> bool {
    exists|i: int, j: int| 0 <= i < j < ids.len() && ids[i] == ids[j]
}

/// Whether some value occurs twice.
pub fn contains_duplicate_u64(ids: &Vec<u64>) -> (r: bool)
    ensures
        r == has_duplicate_u64(ids@),
{
    let mut j: usize = 0;
    while j < ids.len()
        invariant
            j <= ids@.len(),
            forall|a: int, b: int| 0 <= a < b < j ==> ids@[a] != ids@[b],
        decreases ids@.len() - j,
    {
        let mut i: usize = 0;
        while i < j
            invariant
                i <= j < ids@.len(),
                forall|a: int| 0 <= a < i ==> ids@[a] != ids@[j as int],
            decreases j - i,
        {
            if ids[i] == ids[j] {
                return true;
            }
            i = i + 1;
        }
        j = j + 1;
    }
    false
}

/// The diagnostics a physics transition earns, in order.
pub open spec fn transition_errors(t: PhysicsTransitionV1) -> Seq<Seq<char>> {
    msg_if(
        t.schema_version != PHYSICS_TRANSITION_SCHEMA_VERSION,
        "unsupported physics transition version "@ + decimal(t.schema_version as nat),
    ) + msg_if(t.transition_id@.len() == 0, "transition ID must be non-empty"@) + msg_if(
        t.agent_ids@.len() == 0,
        "physics transition must target at least one agent"@,
    ) + msg_if(has_duplicate_u64(t.agent_ids@), "physics transition agent IDs must be unique"@)
        + msg_if(t.tick_start > t.tick_end, "physics transition tick range is invalid"@) + msg_if(
        t.solver@.len() == 0,
        "physics transition solver must be declared"@,
    ) + msg_if(t.recovery@.len() == 0, "physics transition recovery must be declared"@) + msg_if(
        !is_hash_spec(encode_utf8(t.cache_hash@)),
        "physics transition cache hash must be 64 lowercase hex characters"@,
    )
}

pub fn validate_transition(transition: &PhysicsTransitionV1) -> (r: Result<(), Vec<String>>)
    ensures
        r is Ok <==> transition_errors(*transition).len() == 0,
        r matches Err(e) ==> views(e@) == transition_errors(*transition),
{
    let mut errors: Vec<String> = Vec::new();
    if transition.schema_version != PHYSICS_TRANSITION_SCHEMA_VERSION {
        push_message(
            &mut errors,
            with_decimal("unsupported physics transition version ", transition.schema_version as u64),
        );
    }
    let ghost first = views(errors@);
    push_literal_if(&mut errors, transition.transition_id.as_str().is_empty(), "transition ID must be non-empty");
    push_literal_if(&mut errors, transition.agent_ids.len() == 0, "physics transition must target at least one agent");
    push_literal_if(&mut errors, contains_duplicate_u64(&transition.agent_ids), "physics transition agent IDs must be unique");
    push_literal_if(&mut errors, transition.tick_start > transition.tick_end, "physics transition tick range is invalid");
    push_literal_if(&mut errors, transition.solver.as_str().is_empty(), "physics transition solver must be declared");
    push_literal_if(&mut errors, transition.recovery.as_str().is_empty(), "physics transition recovery must be declared");
    push_literal_if(&mut errors, !is_hash(transition.cache_hash.as_str()), "physics transition cache hash must be 64 lowercase hex characters");
    proof {
        assert(first =~= msg_if(
            transition.schema_version != PHYSICS_TRANSITION_SCHEMA_VERSION,
            "unsupported physics transition version "@ + decimal(transition.schema_version as nat),
        ));
        assert(views(errors@) =~= transition_errors(*transition));
    }
    finish(errors)
}

/// The diagnostics a hero integration boundary earns, in order.
pub open spec fn hero_boundary_errors(b: HeroIntegrationBoundaryV1) -> Seq<Seq<char>> {
    msg_if(b.integration_id@.len() == 0, "hero integration ID must be non-empty"@) + msg_if(
        b.solver@.len() == 0,
        "hero solver must be declared"@,
    ) + msg_if(b.cache_policy@.len() == 0, "hero cache policy must be declared"@) + msg_if(
        b.supported_render_tiers@.len() == 0 || any_empty(b.supported_render_tiers@),
        "hero integration must declare supported render tiers"@,
    ) + msg_if(b.failure_policy@.len() == 0, "hero failure policy must be declared"@)
}

impl HeroIntegrationBoundaryV1 {
    pub fn validate(&self) -> (r: Result<(), Vec<String>>)
        ensures
            r is Ok <==> hero_boundary_errors(*self).len() == 0,
            r matches Err(e) ==> views(e@) == hero_boundary_errors(*self),
    {
        let mut errors: Vec<String> = Vec::new();
        push_literal_if(&mut errors, self.integration_id.as_str().is_empty(), "hero integration ID must be non-empty");
        push_literal_if(&mut errors, self.solver.as_str().is_empty(), "hero solver must be declared");
        push_literal_if(&mut errors, self.cache_policy.as_str().is_empty(), "hero cache policy must be declared");
        push_literal_if(&mut errors, self.supported_render_tiers.len() == 0 || has_empty(&self.supported_render_tiers), "hero integration must declare supported render tiers");
        push_literal_if(&mut errors, self.failure_policy.as_str().is_empty(), "hero failure policy must be declared");
        proof {
            assert(views(errors@) =~= hero_boundary_errors(*self));
        }
        finish(errors)
    }
}

} // verus!
