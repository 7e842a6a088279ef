//! Deterministic simulation and presentation fidelity scheduling.
//!
//! A policy layer: it may change how frequently an agent is evaluated or
//! presented, but never its identity or authoritative root-motion storage.

use vstd::prelude::*;
use crate::ids::{mix64, mix64_spec, AgentId};

verus! {

/// Background S2 agents are refreshed every other tick.
pub const S2_UPDATE_INTERVAL_TICKS: u64 = 2;

/// Distant S3 agents re-select their clip every eighth tick.
pub const S3_ANIMATION_INTERVAL_TICKS: u64 = 8;

/// Mixing constant of the steering cadence.
pub const S2_PHASE_SALT: u64 = 0x9e37_79b9_7f4a_7c15;

/// Mixing constant of the animation cadence, distinct from the steering one so
/// that the two refreshes of an agent do not land on the same tick.
pub const ANIMATION_PHASE_SALT: u64 = 0x5851_f42d_4c95_7f2d;

#[derive(Clone, Copy, Debug, PartialEq, Eq, PartialOrd, Ord, Structural)]
pub enum SimulationTier {
    /// Hero: full graph, navigation, and avoidance every tick.
    S0,
    /// Midground: reduced decision/perception frequency.
    S1,
    /// Background: shared-path / coarse behavior representation.
    S2,
    /// Distant: cache or flow-only representation.
    S3,
}

#[derive(Clone, Copy, Debug, PartialEq, Eq, PartialOrd, Ord, Structural)]
pub enum RenderTier {
    /// Full character.
    R0,
    /// Reduced character.
    R1,
    /// Instanced mesh / baked deformation.
    R2,
    /// Card or impostor.
    R3,
    /// Aggregate-only representation; no individual draw requirement.
    R4,
}

/// A deterministic pin: artist intent wins over camera policy.
#[derive(Clone, Copy, Debug, PartialEq, Eq, Structural)]
pub struct FidelityPin {
    pub agent_id: AgentId,
    pub simulation: SimulationTier,
    pub render: RenderTier,
}

pub open spec fn render_for_spec(simulation: SimulationTier) -> RenderTier {
    match simulation {
        SimulationTier::S0 => RenderTier::R0,
        SimulationTier::S1 => RenderTier::R1,
        SimulationTier::S2 => RenderTier::R2,
        SimulationTier::S3 => RenderTier::R3,
    }
}

pub fn render_for(simulation: SimulationTier) -> (r: RenderTier)
    ensures
        r == render_for_spec(simulation),
{
    match simulation {
        SimulationTier::S0 => RenderTier::R0,
        SimulationTier::S1 => RenderTier::R1,
        SimulationTier::S2 => RenderTier::R2,
        SimulationTier::S3 => RenderTier::R3,
    }
}

/// The stable background assignment of an agent under a declared share (in
/// permyriad) of background agents; none when no share is declared.
pub fn background_assignment(background_permyriad: Option<u16>, id: AgentId) -> (r: Option<bool>)
    ensures
        background_permyriad is None ==> r is None,
        background_permyriad matches Some(b) ==> r == Some(mix64_spec(id.0) % 10_000 < b as u64),
        background_permyriad == Some(0u16) ==> r == Some(false),
        background_permyriad matches Some(b) && b >= 10_000 ==> r == Some(true),
{
    match background_permyriad {
        Some(background) => Some(mix64(id.0) % 10_000 < background as u64),
        None => None,
    }
}

/// A larger background share keeps every agent a smaller one put in the
/// background.
pub proof fn lemma_background_share_monotone(small: u16, large: u16, id: AgentId)
    requires
        small <= large,
    ensures
        mix64_spec(id.0) % 10_000 < small as u64 ==> mix64_spec(id.0) % 10_000 < large as u64,
        mix64_spec(id.0) % 10_000 < 10_000,
{
}

/// The tick phase of an agent's background steering refresh.
pub open spec fn s2_phase(id: AgentId) -> u64 {
    mix64_spec(id.0 ^ S2_PHASE_SALT) % S2_UPDATE_INTERVAL_TICKS
}

/// Whether an S2 agent steers on `tick`: a fixed per-agent phase spreads the
/// work over the cadence instead of synchronizing every background agent.
pub fn s2_update_due(id: AgentId, tick: u64) -> (due: bool)
    ensures
        due == (tick % S2_UPDATE_INTERVAL_TICKS == s2_phase(id)),
{
    let phase = mix64(id.0 ^ S2_PHASE_SALT) % S2_UPDATE_INTERVAL_TICKS;
    tick % S2_UPDATE_INTERVAL_TICKS == phase
}

/// The animation refresh interval of a tier.
pub open spec fn animation_interval(tier: SimulationTier) -> u64 {
    match tier {
        SimulationTier::S0 | SimulationTier::S1 => 1,
        SimulationTier::S2 => S2_UPDATE_INTERVAL_TICKS,
        SimulationTier::S3 => S3_ANIMATION_INTERVAL_TICKS,
    }
}

/// Whether an agent's presentation state is re-evaluated on `tick`:
/// camera-focused tiers every tick, background tiers on a cadence staggered by
/// stable ID.
pub fn animation_due(tier: SimulationTier, id: AgentId, tick: u64) -> (due: bool)
    ensures
        animation_interval(tier) <= 1 ==> due,
        animation_interval(tier) > 1 ==> due == (tick % animation_interval(tier) == mix64_spec(
            id.0 ^ ANIMATION_PHASE_SALT,
        ) % animation_interval(tier)),
{
    let interval: u64 = match tier {
        SimulationTier::S0 | SimulationTier::S1 => 1,
        SimulationTier::S2 => S2_UPDATE_INTERVAL_TICKS,
        SimulationTier::S3 => S3_ANIMATION_INTERVAL_TICKS,
    };
    if interval <= 1 {
        return true;
    }
    let phase = mix64(id.0 ^ ANIMATION_PHASE_SALT) % interval;
    tick % interval == phase
}

/// A background agent steers on exactly one of any two consecutive ticks.
pub proof fn lemma_s2_update_every_other_tick(id: AgentId, tick: u64)
    requires
        tick < u64::MAX,
    ensures
        (tick % S2_UPDATE_INTERVAL_TICKS == s2_phase(id)) != (((tick + 1) as u64) % S2_UPDATE_INTERVAL_TICKS
            == s2_phase(id)),
{
}

/// An agent is re-animated at most once in any window of its tier's interval:
/// two refresh ticks in the same window are the same tick.
pub proof fn lemma_animation_once_per_interval(tier: SimulationTier, id: AgentId, start: u64, t: u64, u: u64)
    requires
        animation_interval(tier) > 1,
        start <= t < start + animation_interval(tier),
        start <= u < start + animation_interval(tier),
        t % animation_interval(tier) == mix64_spec(id.0 ^ ANIMATION_PHASE_SALT) % animation_interval(tier),
        u % animation_interval(tier) == mix64_spec(id.0 ^ ANIMATION_PHASE_SALT) % animation_interval(tier),
    ensures
        u == t,
{
    let n = animation_interval(tier);
    assert((u as int) % (n as int) == (t as int) % (n as int));
    vstd::arithmetic::div_mod::lemma_fundamental_div_mod(u as int, n as int);
    vstd::arithmetic::div_mod::lemma_fundamental_div_mod(t as int, n as int);
    assert(u == t) by (nonlinear_arith)
        requires
            u as int == n * (u as int / n as int) + u as int % n as int,
            t as int == n * (t as int / n as int) + t as int % n as int,
            (u as int) % (n as int) == (t as int) % (n as int),
            start <= u < start + n,
            start <= t < start + n,
            n > 0,
    ;
}

/// Whether an agent on `tier` solves avoidance this tick. Unscheduled
/// solving always runs; on a scheduled tick, camera-focused tiers solve,
/// background S2 agents solve on their staggered cadence, and distant S3
/// agents do not solve.
pub fn should_solve(tier: SimulationTier, id: AgentId, scheduled_tick: Option<u64>) -> (r: bool)
    ensures
        r == match scheduled_tick {
            None => true,
            Some(tick) => match tier {
                SimulationTier::S0 | SimulationTier::S1 => true,
                SimulationTier::S2 => tick % S2_UPDATE_INTERVAL_TICKS == s2_phase(id),
                SimulationTier::S3 => false,
            },
        },
{
    match scheduled_tick {
        None => true,
        Some(tick) => match tier {
            SimulationTier::S0 | SimulationTier::S1 => true,
            SimulationTier::S2 => s2_update_due(id, tick),
            SimulationTier::S3 => false,
        },
    }
}

} // verus!
