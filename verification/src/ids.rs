//! Stable identity contract.
//!
//! Agent IDs derive from the project seed, population, spawn source, and
//! spawn ordinal. The mixing function is part of the versioned contract, so it
//! is written out here rather than taken from an external hasher.

use vstd::prelude::*;
use vstd::string::StringSliceAdditionalSpecFns;
use vstd::arithmetic::div_mod::{lemma_mod_multiples_vanish, lemma_mul_mod_noop_left, lemma_small_mod};
use vstd::arithmetic::mul::lemma_mul_is_associative;

verus! {

/// First multiplier of the SplitMix64 finalizer.
pub const MIX_MUL_A: u64 = 0xbf58476d1ce4e5b9;

/// Second multiplier of the SplitMix64 finalizer.
pub const MIX_MUL_B: u64 = 0x94d049bb133111eb;

/// The golden-ratio increment folded into every combined value.
pub const GOLDEN_GAMMA: u64 = 0x9e3779b97f4a7c15;

/// FNV-1a offset basis.
pub const FNV_OFFSET: u64 = 0xcbf29ce484222325;

/// FNV-1a prime.
pub const FNV_PRIME: u64 = 0x100000001b3;

/// The SplitMix64 finalizer, as a mathematical function on 64-bit words.
pub open spec fn mix64_spec(z: u64) -> u64 {
    let z1 = (z ^ (z >> 30u64)).wrapping_mul(MIX_MUL_A);
    let z2 = (z1 ^ (z1 >> 27u64)).wrapping_mul(MIX_MUL_B);
    z2 ^ (z2 >> 31u64)
}

/// One value folded into a running hash.
pub open spec fn hash_combine_spec(seed: u64, value: u64) -> u64 {
    mix64_spec(seed ^ mix64_spec(value.wrapping_add(GOLDEN_GAMMA)))
}

/// FNV-1a over a byte sequence (before finalization).
pub open spec fn fnv1a(bytes: Seq<u8>) -> u64
    decreases bytes.len(),
{
    if bytes.len() == 0 {
        FNV_OFFSET
    } else {
        (fnv1a(bytes.drop_last()) ^ (bytes.last() as u64)).wrapping_mul(FNV_PRIME)
    }
}

/// The stable numeric ID of an authoring name: FNV-1a over its UTF-8 bytes,
/// finalized through `mix64`.
pub open spec fn hash_str_spec(s: &str) -> u64 {
    mix64_spec(fnv1a(s.spec_bytes()))
}

/// The agent identity function.
pub open spec fn agent_id_spec(
    project_seed: u64,
    population_id: u16,
    spawn_source_id: u16,
    ordinal: u32,
) -> u64 {
    hash_combine_spec(
        hash_combine_spec(
            hash_combine_spec(mix64_spec(project_seed), population_id as u64),
            spawn_source_id as u64,
        ),
        ordinal as u64,
    )
}

/// SplitMix64 finalizer. Strong avalanche, no dependencies, permanently fixed.
pub fn mix64(z: u64) -> (r: u64)
    ensures
        r == mix64_spec(z),
{
    let z1 = (z ^ (z >> 30u64)).wrapping_mul(MIX_MUL_A);
    let z2 = (z1 ^ (z1 >> 27u64)).wrapping_mul(MIX_MUL_B);
    z2 ^ (z2 >> 31u64)
}

/// Fold one value into a running hash.
pub fn hash_combine(seed: u64, value: u64) -> (r: u64)
    ensures
        r == hash_combine_spec(seed, value),
{
    mix64(seed ^ mix64(value.wrapping_add(GOLDEN_GAMMA)))
}

/// FNV-1a over bytes, then finalized through `mix64`.
///
/// Used only to turn authoring names into stable numeric IDs at scene compile
/// time.
pub fn hash_str(s: &str) -> (r: u64)
    ensures
        r == hash_str_spec(s),
{
    let bytes = s.as_bytes();
    let mut h: u64 = FNV_OFFSET;
    let mut i: usize = 0;
    while i < bytes.len()
        invariant
            bytes@ == s.spec_bytes(),
            i <= bytes@.len(),
            h == fnv1a(bytes@.subrange(0, i as int)),
        decreases bytes@.len() - i,
    {
        let byte = bytes[i];
        proof {
            let prefix = bytes@.subrange(0, i as int + 1);
            assert(prefix.drop_last() =~= bytes@.subrange(0, i as int));
            assert(prefix.last() == byte);
        }
        h = (h ^ (byte as u64)).wrapping_mul(FNV_PRIME);
        i = i + 1;
    }
    proof {
        assert(bytes@.subrange(0, i as int) =~= bytes@);
    }
    mix64(h)
}

/// A stable 64-bit agent identifier.
///
/// Stable across rebakes when unrelated authoring data changes, and the
/// tie-breaker for every ordering decision in the kernel.
#[derive(Clone, Copy, Debug, PartialEq, Eq, PartialOrd, Ord, Hash, Structural)]
pub struct AgentId(pub u64);

/// Derive an agent's stable ID.
///
/// A pure function of its inputs: it never consults a counter, the world, or
/// call order, so IDs do not shift when unrelated agents are added or removed.
pub fn derive_agent_id(
    project_seed: u64,
    population_id: u16,
    spawn_source_id: u16,
    ordinal: u32,
) -> (id: AgentId)
    ensures
        id.0 == agent_id_spec(project_seed, population_id, spawn_source_id, ordinal),
{
    let mut h = mix64(project_seed);
    h = hash_combine(h, population_id as u64);
    h = hash_combine(h, spawn_source_id as u64);
    h = hash_combine(h, ordinal as u64);
    AgentId(h)
}

// ---------------------------------------------------------------------------
// The finalizer is a bijection on 64-bit words, which makes identity
// derivation injective in every one of its inputs.
// ---------------------------------------------------------------------------

proof fn lemma_xorshift30_injective(x: u64, y: u64)
    ensures
        (x ^ (x >> 30u64)) == (y ^ (y >> 30u64)) ==> x == y,
{
    assert((x ^ (x >> 30u64)) == (y ^ (y >> 30u64)) ==> x == y) by (bit_vector);
}

proof fn lemma_xorshift27_injective(x: u64, y: u64)
    ensures
        (x ^ (x >> 27u64)) == (y ^ (y >> 27u64)) ==> x == y,
{
    assert((x ^ (x >> 27u64)) == (y ^ (y >> 27u64)) ==> x == y) by (bit_vector);
}

proof fn lemma_xorshift31_injective(x: u64, y: u64)
    ensures
        (x ^ (x >> 31u64)) == (y ^ (y >> 31u64)) ==> x == y,
{
    assert((x ^ (x >> 31u64)) == (y ^ (y >> 31u64)) ==> x == y) by (bit_vector);
}

/// Multiplication by an odd constant modulo 2^64 is undone by its inverse.
proof fn lemma_mul_inverse(x: u64, c: u64, cinv: u64, k: int)
    requires
        (c as int) * (cinv as int) == k * 0x1_0000_0000_0000_0000int + 1,
    ensures
        ((x.wrapping_mul(c) as int) * (cinv as int)) % 0x1_0000_0000_0000_0000int == x as int,
{
    let m: int = 0x1_0000_0000_0000_0000int;
    let xc: int = (x as int) * (c as int);
    assert(x.wrapping_mul(c) as int == xc % m);
    lemma_mul_mod_noop_left(xc, cinv as int, m);
    lemma_mul_is_associative(x as int, c as int, cinv as int);
    assert(xc * (cinv as int) == (x as int) * (k * m + 1));
    assert((x as int) * (k * m + 1) == m * ((x as int) * k) + (x as int)) by (nonlinear_arith);
    lemma_mod_multiples_vanish((x as int) * k, x as int, m);
    lemma_small_mod(x as nat, m as nat);
}

proof fn lemma_mul_a_injective(x: u64, y: u64)
    ensures
        x.wrapping_mul(MIX_MUL_A) == y.wrapping_mul(MIX_MUL_A) ==> x == y,
{
    lemma_mul_inverse(x, MIX_MUL_A, 0x96de1b173f119089u64, 8125545580553827436);
    lemma_mul_inverse(y, MIX_MUL_A, 0x96de1b173f119089u64, 8125545580553827436);
}

proof fn lemma_mul_b_injective(x: u64, y: u64)
    ensures
        x.wrapping_mul(MIX_MUL_B) == y.wrapping_mul(MIX_MUL_B) ==> x == y,
{
    lemma_mul_inverse(x, MIX_MUL_B, 0x319642b2d24d8ec3u64, 2077064247507883091);
    lemma_mul_inverse(y, MIX_MUL_B, 0x319642b2d24d8ec3u64, 2077064247507883091);
}

/// The finalizer maps distinct words to distinct words.
pub proof fn lemma_mix64_injective(x: u64, y: u64)
    ensures
        mix64_spec(x) == mix64_spec(y) ==> x == y,
{
    let x1 = (x ^ (x >> 30u64)).wrapping_mul(MIX_MUL_A);
    let y1 = (y ^ (y >> 30u64)).wrapping_mul(MIX_MUL_A);
    let x2 = (x1 ^ (x1 >> 27u64)).wrapping_mul(MIX_MUL_B);
    let y2 = (y1 ^ (y1 >> 27u64)).wrapping_mul(MIX_MUL_B);
    lemma_xorshift31_injective(x2, y2);
    lemma_mul_b_injective(x1 ^ (x1 >> 27u64), y1 ^ (y1 >> 27u64));
    lemma_xorshift27_injective(x1, y1);
    lemma_mul_a_injective(x ^ (x >> 30u64), y ^ (y >> 30u64));
    lemma_xorshift30_injective(x, y);
}

proof fn lemma_xor_cancel(a: u64, b: u64, s: u64)
    ensures
        (s ^ a) == (s ^ b) ==> a == b,
{
    assert((s ^ a) == (s ^ b) ==> a == b) by (bit_vector);
}

proof fn lemma_add_gamma_injective(a: u64, b: u64)
    ensures
        a.wrapping_add(GOLDEN_GAMMA) == b.wrapping_add(GOLDEN_GAMMA) ==> a == b,
{
}

/// Folding distinct values into the same running hash gives distinct hashes.
pub proof fn lemma_hash_combine_injective_in_value(seed: u64, a: u64, b: u64)
    ensures
        hash_combine_spec(seed, a) == hash_combine_spec(seed, b) ==> a == b,
{
    let ma = mix64_spec(a.wrapping_add(GOLDEN_GAMMA));
    let mb = mix64_spec(b.wrapping_add(GOLDEN_GAMMA));
    lemma_mix64_injective(seed ^ ma, seed ^ mb);
    lemma_xor_cancel(ma, mb, seed);
    lemma_mix64_injective(a.wrapping_add(GOLDEN_GAMMA), b.wrapping_add(GOLDEN_GAMMA));
    lemma_add_gamma_injective(a, b);
}

/// Folding the same value into distinct running hashes gives distinct hashes.
pub proof fn lemma_hash_combine_injective_in_seed(s: u64, t: u64, value: u64)
    ensures
        hash_combine_spec(s, value) == hash_combine_spec(t, value) ==> s == t,
{
    let m = mix64_spec(value.wrapping_add(GOLDEN_GAMMA));
    lemma_mix64_injective(s ^ m, t ^ m);
    assert((s ^ m) == (t ^ m) ==> s == t) by (bit_vector);
}

/// Agents that differ only in spawn ordinal get different IDs.
pub proof fn lemma_agent_ids_unique_across_ordinals(
    project_seed: u64,
    population_id: u16,
    spawn_source_id: u16,
    a: u32,
    b: u32,
)
    requires
        a != b,
    ensures
        agent_id_spec(project_seed, population_id, spawn_source_id, a) != agent_id_spec(
            project_seed,
            population_id,
            spawn_source_id,
            b,
        ),
{
    let h = hash_combine_spec(
        hash_combine_spec(mix64_spec(project_seed), population_id as u64),
        spawn_source_id as u64,
    );
    lemma_hash_combine_injective_in_value(h, a as u64, b as u64);
}

/// Agents that differ only in spawn source get different IDs.
pub proof fn lemma_agent_ids_unique_across_spawn_sources(
    project_seed: u64,
    population_id: u16,
    a: u16,
    b: u16,
    ordinal: u32,
)
    requires
        a != b,
    ensures
        agent_id_spec(project_seed, population_id, a, ordinal) != agent_id_spec(
            project_seed,
            population_id,
            b,
            ordinal,
        ),
{
    let h = hash_combine_spec(mix64_spec(project_seed), population_id as u64);
    lemma_hash_combine_injective_in_value(h, a as u64, b as u64);
    lemma_hash_combine_injective_in_seed(
        hash_combine_spec(h, a as u64),
        hash_combine_spec(h, b as u64),
        ordinal as u64,
    );
}

/// Agents that differ only in population get different IDs.
pub proof fn lemma_agent_ids_unique_across_populations(
    project_seed: u64,
    a: u16,
    b: u16,
    spawn_source_id: u16,
    ordinal: u32,
)
    requires
        a != b,
    ensures
        agent_id_spec(project_seed, a, spawn_source_id, ordinal) != agent_id_spec(
            project_seed,
            b,
            spawn_source_id,
            ordinal,
        ),
{
    let m = mix64_spec(project_seed);
    let ha = hash_combine_spec(m, a as u64);
    let hb = hash_combine_spec(m, b as u64);
    lemma_hash_combine_injective_in_value(m, a as u64, b as u64);
    lemma_hash_combine_injective_in_seed(ha, hb, spawn_source_id as u64);
    lemma_hash_combine_injective_in_seed(
        hash_combine_spec(ha, spawn_source_id as u64),
        hash_combine_spec(hb, spawn_source_id as u64),
        ordinal as u64,
    );
}

/// Agents that differ only in project seed get different IDs.
pub proof fn lemma_agent_ids_depend_on_project_seed(
    a: u64,
    b: u64,
    population_id: u16,
    spawn_source_id: u16,
    ordinal: u32,
)
    requires
        a != b,
    ensures
        agent_id_spec(a, population_id, spawn_source_id, ordinal) != agent_id_spec(
            b,
            population_id,
            spawn_source_id,
            ordinal,
        ),
{
    lemma_mix64_injective(a, b);
    let ma = mix64_spec(a);
    let mb = mix64_spec(b);
    lemma_hash_combine_injective_in_seed(ma, mb, population_id as u64);
    let ha = hash_combine_spec(ma, population_id as u64);
    let hb = hash_combine_spec(mb, population_id as u64);
    lemma_hash_combine_injective_in_seed(ha, hb, spawn_source_id as u64);
    lemma_hash_combine_injective_in_seed(
        hash_combine_spec(ha, spawn_source_id as u64),
        hash_combine_spec(hb, spawn_source_id as u64),
        ordinal as u64,
    );
}

} // verus!
