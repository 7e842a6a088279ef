//! Deterministic per-agent randomness.
//!
//! Values are keyed by `(global_seed, agent_id, purpose)` rather than drawn
//! from a shared sequence: each attribute has its own stream keyed by stable
//! ID, so adding an agent does not reshuffle existing variants, and adding a
//! new attribute does not shift existing ones.

use vstd::prelude::*;
use crate::ids::{hash_combine, mix64, AgentId};
use crate::ids::{hash_combine_spec, mix64_spec, GOLDEN_GAMMA};
use crate::ids::{lemma_hash_combine_injective_in_value, lemma_mix64_injective};

verus! {

/// Names the attribute a random stream is for.
///
/// New variants go at the end with fresh tag values. An existing tag is never
/// renumbered: doing so would silently change every previously drawn value.
#[derive(Clone, Copy, Debug, PartialEq, Eq, Structural)]
pub enum Purpose {
    Radius,
    PreferredSpeed,
    MaxSpeed,
    SpawnPosition,
    DestinationChoice,
    SpawnSourceChoice,
    ArchetypeChoice,
    AppearanceChoice,
    Scale,
}

/// The fixed stream tag of each purpose.
pub open spec fn purpose_tag(p: Purpose) -> u64 {
    match p {
        Purpose::Radius => 1,
        Purpose::PreferredSpeed => 2,
        Purpose::MaxSpeed => 3,
        Purpose::SpawnPosition => 4,
        Purpose::DestinationChoice => 5,
        Purpose::SpawnSourceChoice => 6,
        Purpose::ArchetypeChoice => 7,
        Purpose::AppearanceChoice => 8,
        Purpose::Scale => 9,
    }
}

impl Purpose {
    pub fn tag(self) -> (t: u64)
        ensures
            t == purpose_tag(self),
    {
        match self {
            Purpose::Radius => 1,
            Purpose::PreferredSpeed => 2,
            Purpose::MaxSpeed => 3,
            Purpose::SpawnPosition => 4,
            Purpose::DestinationChoice => 5,
            Purpose::SpawnSourceChoice => 6,
            Purpose::ArchetypeChoice => 7,
            Purpose::AppearanceChoice => 8,
            Purpose::Scale => 9,
        }
    }
}

/// The initial state of the stream for one agent's one attribute.
pub open spec fn agent_stream_seed(global_seed: u64, agent: u64, purpose: Purpose) -> u64 {
    hash_combine_spec(hash_combine_spec(mix64_spec(global_seed), agent), purpose_tag(purpose))
}

/// The state after one draw.
pub open spec fn advance(state: u64) -> u64 {
    state.wrapping_add(GOLDEN_GAMMA)
}

/// The value drawn from a stream in state `state`.
pub open spec fn draw(state: u64) -> u64 {
    mix64_spec(advance(state))
}

/// The value `range_u32` returns from a stream in state `state`.
pub open spec fn range_u32_spec(state: u64, lo: u32, hi: u32) -> u32 {
    if hi <= lo {
        lo
    } else {
        (lo + draw(state) % ((hi - lo) as u64)) as u32
    }
}

/// A SplitMix64 generator seeded from stable inputs.
#[derive(Clone, Copy, Debug)]
pub struct StableRng {
    state: u64,
}

impl View for StableRng {
    type V = u64;

    /// The generator's state word.
    closed spec fn view(&self) -> u64 {
        self.state
    }
}

impl StableRng {
    pub fn from_seed(seed: u64) -> (r: Self)
        ensures
            r@ == seed,
    {
        Self { state: seed }
    }

    /// Seed a stream for one agent's one attribute.
    pub fn for_agent(global_seed: u64, agent: AgentId, purpose: Purpose) -> (r: Self)
        ensures
            r@ == agent_stream_seed(global_seed, agent.0, purpose),
    {
        let mut h = mix64(global_seed);
        h = hash_combine(h, agent.0);
        h = hash_combine(h, purpose.tag());
        Self { state: h }
    }

    pub fn next_u64(&mut self) -> (r: u64)
        ensures
            final(self)@ == advance(old(self)@),
            r == draw(old(self)@),
    {
        self.state = self.state.wrapping_add(GOLDEN_GAMMA);
        mix64(self.state)
    }

    /// The top 24 bits of the next draw: the numerator of a uniform value in
    /// `[0, 1)` with denominator `2^24`, every one of which is exactly
    /// representable in `f32`.
    pub fn next_unit_numerator(&mut self) -> (r: u32)
        ensures
            final(self)@ == advance(old(self)@),
            r as int == draw(old(self)@) as int / 0x100_0000_0000int,
            r < 0x100_0000,
    {
        let v = self.next_u64();
        let top = v >> 40u64;
        assert(top == v as int / 0x100_0000_0000int) by (bit_vector)
            requires
                top == v >> 40u64,
        ;
        assert(top < 0x100_0000) by (bit_vector)
            requires
                top == v >> 40u64,
        ;
        top as u32
    }

    /// Uniform in `[lo, hi)`. Returns `lo` when the range is empty.
    pub fn range_u32(&mut self, lo: u32, hi: u32) -> (r: u32)
        ensures
            r == range_u32_spec(old(self)@, lo, hi),
            hi <= lo ==> r == lo && final(self)@ == old(self)@,
            lo < hi ==> lo <= r < hi && final(self)@ == advance(old(self)@),
    {
        if hi <= lo {
            return lo;
        }
        let span = (hi - lo) as u64;
        let v = self.next_u64();
        let offset = v % span;
        assert(offset < span);
        lo + offset as u32
    }
}

proof fn lemma_purpose_tag_injective(a: Purpose, b: Purpose)
    ensures
        purpose_tag(a) == purpose_tag(b) ==> a == b,
{
}

/// Two purposes of the same agent seed two different streams, and the first
/// values drawn from them differ.
pub proof fn lemma_purposes_are_independent_streams(
    global_seed: u64,
    agent: u64,
    a: Purpose,
    b: Purpose,
)
    requires
        a != b,
    ensures
        agent_stream_seed(global_seed, agent, a) != agent_stream_seed(global_seed, agent, b),
        draw(agent_stream_seed(global_seed, agent, a)) != draw(
            agent_stream_seed(global_seed, agent, b),
        ),
{
    let h = hash_combine_spec(mix64_spec(global_seed), agent);
    lemma_purpose_tag_injective(a, b);
    lemma_hash_combine_injective_in_value(h, purpose_tag(a), purpose_tag(b));
    let sa = agent_stream_seed(global_seed, agent, a);
    let sb = agent_stream_seed(global_seed, agent, b);
    lemma_mix64_injective(advance(sa), advance(sb));
}

} // verus!
