//! The identity of the agents a compiled project spawns.
//!
//! Compilation numbers populations and spawns by their IDs in text order and
//! hands each population's agents to its spawn sources round-robin, so an
//! agent's ID depends on the authored IDs and its place in its population,
//! never on the order the project lists things in.

use vstd::prelude::*;
use crate::ids::{agent_id_spec, derive_agent_id, fnv1a, hash_combine, hash_combine_spec, hash_str, mix64_spec};
use crate::keyed::{TextMap, sorted_keys};
use crate::project::{
    all_listed, all_population_keys, appearance_ids, archetype_ids, compact_indices, destination_ids, entity,
    population_id_list, population_ids, population_keys, project_issue_keys, report_when, spawn_id_list, spawn_ids,
    text_views, DiagnosticCode, PopulationIrV1, ProjectIrV1,
};
use crate::text::views;
use vstd::utf8::encode_utf8;

verus! {

/// The seed every agent ID of the project is derived from: the authored
/// seed combined with the hash of the project ID.
pub open spec fn stable_seed(p: ProjectIrV1) -> u64 {
    hash_combine_spec(p.seed, mix64_spec(fnv1a(encode_utf8(p.project_id@))))
}

/// The ID of the agent with `ordinal` in population `pop`: populations and
/// spawns are numbered by their IDs in text order, a population's spawn
/// sources are taken in text order round-robin, and each source numbers its
/// own agents.
pub open spec fn compiled_agent_id(p: ProjectIrV1, pop: PopulationIrV1, ordinal: u32) -> u64 {
    let sources = sorted_keys(views(pop.spawn_source_ids@).to_set());
    let n = sources.len();
    let populations = sorted_keys(population_ids(p.populations@).to_set());
    let spawns = sorted_keys(spawn_ids(p.semantics.spawns@).to_set());
    agent_id_spec(
        stable_seed(p),
        (populations.index_of(pop.id@) as u32) as u16,
        (spawns.index_of(sources[(ordinal as int) % (n as int)]) as u32) as u16,
        (ordinal / (n as u32)) as u32,
    )
}

/// The IDs of the agents of population `pop`, by ordinal.
pub open spec fn population_agent_ids(p: ProjectIrV1, pop: PopulationIrV1) -> Seq<u64> {
    Seq::new(pop.count as nat, |o: int| compiled_agent_id(p, pop, o as u32))
}

/// The IDs of the agents of the first `i` populations, population by
/// population.
pub open spec fn agent_ids_upto(p: ProjectIrV1, i: nat) -> Seq<u64>
    decreases i,
{
    if i == 0 {
        Seq::empty()
    } else {
        agent_ids_upto(p, (i - 1) as nat) + population_agent_ids(p, p.populations@[i - 1])
    }
}

/// The IDs of every agent a compiled project spawns.
pub open spec fn project_agent_ids(p: ProjectIrV1) -> Set<u64> {
    agent_ids_upto(p, p.populations@.len()).to_set()
}

/// Every population names at least one spawn source, each a declared spawn,
/// and no more sources than a `u32` counts.
pub open spec fn sources_known(p: ProjectIrV1) -> bool {
    forall|i: int|
        0 <= i < p.populations@.len() ==> {
            let pop = #[trigger] p.populations@[i];
            &&& pop.spawn_source_ids@.len() > 0
            &&& pop.spawn_source_ids@.len() <= u32::MAX
            &&& all_listed(views(pop.spawn_source_ids@), spawn_ids(p.semantics.spawns@))
        }
}

fn string_list(v: &Vec<String>) -> (r: Vec<&str>)
    ensures
        text_views(r@) == views(v@),
{
    let mut out: Vec<&str> = Vec::new();
    let mut i: usize = 0;
    while i < v.len()
        invariant
            i <= v@.len(),
            text_views(out@) == views(v@).take(i as int),
        decreases v@.len() - i,
    {
        let ghost before = out@;
        let id = v[i].as_str();
        out.push(id);
        proof {
            assert(text_views(out@) =~= text_views(before).push(id@));
            assert(views(v@).take(i + 1) =~= views(v@).take(i as int).push(v@[i as int]@));
        }
        i = i + 1;
    }
    assert(views(v@).take(v@.len() as int) =~= views(v@));
    out
}

/// The spawn sources of population `i`, each once, are at least one and
/// countable by a `u32`.
proof fn lemma_source_count(p: ProjectIrV1, i: int, ks: Seq<Seq<char>>)
    requires
        sources_known(p),
        0 <= i < p.populations@.len(),
        crate::keyed::strictly_sorted(ks),
        ks.to_set() == views(p.populations@[i].spawn_source_ids@).to_set(),
    ensures
        0 < ks.len() <= u32::MAX,
{
    let pop = p.populations@[i];
    let v = views(pop.spawn_source_ids@);
    assert(pop.spawn_source_ids@.len() > 0);
    assert(v[0] == pop.spawn_source_ids@[0]@);
    assert(ks.to_set().contains(v[0]));
    v.lemma_cardinality_of_set();
    assert(ks.no_duplicates()) by {
        assert forall|a: int, b: int| 0 <= a < ks.len() && 0 <= b < ks.len() && a != b implies ks[a] != ks[b] by {
            crate::keyed::lemma_sorted_distinct(ks, a, b);
        }
    }
    ks.unique_seq_to_set();
}

/// Append the IDs of the agents of `pop`, the population at `i`.
fn push_ordinals(
    out: &mut Vec<u64>,
    p: &ProjectIrV1,
    i: usize,
    pop: &PopulationIrV1,
    sources: &TextMap<u32>,
    n: usize,
    spawns: &TextMap<u32>,
    population_index: u32,
    seed: u64,
)
    requires
        all_listed(views(pop.spawn_source_ids@), spawn_ids(p.semantics.spawns@)),
        i < p.populations@.len(),
        p.populations@[i as int] == *pop,
        sources.wf(),
        sources.keys() == sorted_keys(views(pop.spawn_source_ids@).to_set()),
        sources.keys().to_set() == views(pop.spawn_source_ids@).to_set(),
        n == sources.keys().len(),
        0 < n <= u32::MAX,
        spawns.wf(),
        spawns.keys() == sorted_keys(spawn_ids(p.semantics.spawns@).to_set()),
        spawns.keys().to_set() == spawn_ids(p.semantics.spawns@).to_set(),
        population_index == sorted_keys(population_ids(p.populations@).to_set()).index_of(pop.id@) as u32,
        seed == stable_seed(*p),
        old(out)@ == agent_ids_upto(*p, i as nat),
    ensures
        final(out)@ == agent_ids_upto(*p, i as nat) + population_agent_ids(*p, *pop),
{
    let mut ordinal: u32 = 0;
    proof {
        assert(out@ =~= agent_ids_upto(*p, i as nat) + population_agent_ids(*p, *pop).take(0));
    }
    while ordinal < pop.count
        invariant
            all_listed(views(pop.spawn_source_ids@), spawn_ids(p.semantics.spawns@)),
            i < p.populations@.len(),
            *pop == p.populations@[i as int],
            sources.wf(),
            sources.keys() == sorted_keys(views(pop.spawn_source_ids@).to_set()),
            sources.keys().to_set() == views(pop.spawn_source_ids@).to_set(),
            n == sources.keys().len(),
            0 < n <= u32::MAX,
            spawns.wf(),
            spawns.keys() == sorted_keys(spawn_ids(p.semantics.spawns@).to_set()),
            spawns.keys().to_set() == spawn_ids(p.semantics.spawns@).to_set(),
            population_index == sorted_keys(population_ids(p.populations@).to_set()).index_of(pop.id@) as u32,
            seed == stable_seed(*p),
            ordinal <= pop.count,
            out@ == agent_ids_upto(*p, i as nat) + population_agent_ids(*p, *pop).take(ordinal as int),
        decreases pop.count - ordinal,
    {
        let spawn_ref = sources.key_at(ordinal as usize % n);
        proof {
            let src = sources.keys()[(ordinal as int) % (n as int)];
            assert(sources.keys().to_set().contains(src));
            assert(views(pop.spawn_source_ids@).contains(src));
            let m = views(pop.spawn_source_ids@).index_of(src);
            assert(spawn_ids(p.semantics.spawns@).contains(views(pop.spawn_source_ids@)[m]));
            assert(spawns.keys().to_set().contains(src));
        }
        let si = spawns.find(spawn_ref.as_str()).unwrap();
        proof {
            spawns.lemma_lookup(si as int);
        }
        let spawn_index = si as u32;
        let spawn_ordinal = ordinal / (n as u32);
        let id = derive_agent_id(seed, population_index as u16, spawn_index as u16, spawn_ordinal);
        out.push(id.0);
        proof {
            assert(id.0 == compiled_agent_id(*p, *pop, ordinal));
            let ids = population_agent_ids(*p, *pop);
            assert(ids.take(ordinal + 1) =~= ids.take(ordinal as int).push(ids[ordinal as int]));
        }
        ordinal = ordinal + 1;
    }
    proof {
        let ids = population_agent_ids(*p, *pop);
        assert(ids.take(pop.count as int) =~= ids);
    }
}

/// Append the IDs of the agents of population `i`.
fn push_population_agents(
    out: &mut Vec<u64>,
    p: &ProjectIrV1,
    i: usize,
    populations: &TextMap<u32>,
    spawns: &TextMap<u32>,
    seed: u64,
)
    requires
        sources_known(*p),
        i < p.populations@.len(),
        populations.wf(),
        populations.keys() == sorted_keys(population_ids(p.populations@).to_set()),
        populations.keys().to_set() == population_ids(p.populations@).to_set(),
        spawns.wf(),
        spawns.keys() == sorted_keys(spawn_ids(p.semantics.spawns@).to_set()),
        spawns.keys().to_set() == spawn_ids(p.semantics.spawns@).to_set(),
        seed == stable_seed(*p),
        old(out)@ == agent_ids_upto(*p, i as nat),
    ensures
        final(out)@ == agent_ids_upto(*p, (i + 1) as nat),
{
    let pop = &p.populations[i];
    let sources = compact_indices(&string_list(&pop.spawn_source_ids));
    let n = sources.len();
    proof {
        lemma_source_count(*p, i as int, sources.keys());
        assert(population_ids(p.populations@)[i as int] == pop.id@);
        assert(populations.keys().to_set().contains(pop.id@));
    }
    let pi = populations.find(pop.id.as_str()).unwrap();
    proof {
        populations.lemma_lookup(pi as int);
    }
    let population_index = pi as u32;
    proof {
        assert(all_listed(views(pop.spawn_source_ids@), spawn_ids(p.semantics.spawns@)));
    }
    push_ordinals(out, p, i, pop, &sources, n, spawns, population_index, seed);
    proof {
        assert(agent_ids_upto(*p, (i + 1) as nat) == agent_ids_upto(*p, i as nat) + population_agent_ids(
            *p,
            p.populations@[i as int],
        ));
    }
}

/// The ID of every agent the project spawns, population by population.
pub fn compiled_agent_ids(p: &ProjectIrV1) -> (r: Vec<u64>)
    requires
        sources_known(*p),
    ensures
        r@ == agent_ids_upto(*p, p.populations@.len()),
{
    let populations = compact_indices(&population_id_list(&p.populations));
    let spawns = compact_indices(&spawn_id_list(&p.semantics.spawns));
    let seed = hash_combine(p.seed, hash_str(p.project_id.as_str()));
    let mut out: Vec<u64> = Vec::new();
    let mut i: usize = 0;
    proof {
        assert(out@ =~= agent_ids_upto(*p, 0));
    }
    while i < p.populations.len()
        invariant
            sources_known(*p),
            i <= p.populations@.len(),
            populations.wf(),
            populations.keys() == sorted_keys(population_ids(p.populations@).to_set()),
            populations.keys().to_set() == population_ids(p.populations@).to_set(),
            spawns.wf(),
            spawns.keys() == sorted_keys(spawn_ids(p.semantics.spawns@).to_set()),
            spawns.keys().to_set() == spawn_ids(p.semantics.spawns@).to_set(),
            seed == stable_seed(*p),
            out@ == agent_ids_upto(*p, i as nat),
        decreases p.populations@.len() - i,
    {
        push_population_agents(&mut out, p, i, &populations, &spawns, seed);
        i = i + 1;
    }
    out
}

/// A project without problems names known spawn sources everywhere.
pub proof fn lemma_checked_sources_known(p: ProjectIrV1)
    requires
        project_issue_keys(p).len() == 0,
        forall|i: int| 0 <= i < p.populations@.len() ==> (#[trigger] p.populations@[i]).spawn_source_ids@.len() <= u32::MAX,
    ensures
        sources_known(p),
{
    let s = p.semantics;
    let sids = spawn_ids(s.spawns@);
    let dids = destination_ids(s.destinations@);
    let aids = archetype_ids(p.archetypes@);
    let apids = appearance_ids(p.appearances@);
    assert(all_population_keys(p.populations@, sids, dids, aids, apids).len() == 0);
    lemma_population_keys_empty(p.populations@, sids, dids, aids, apids);
}

proof fn lemma_population_ok(
    pop: PopulationIrV1,
    sids: Seq<Seq<char>>,
    dids: Seq<Seq<char>>,
    aids: Seq<Seq<char>>,
    apids: Seq<Seq<char>>,
)
    requires
        population_keys(pop, sids, dids, aids, apids).len() == 0,
    ensures
        pop.spawn_source_ids@.len() > 0,
        all_listed(views(pop.spawn_source_ids@), sids),
{
    let e = entity("population"@, pop.id@);
    let a = report_when(pop.count == 0, DiagnosticCode::InvalidCount, e, "population count must be positive"@);
    let b = report_when(
        pop.spawn_source_ids@.len() == 0 || !all_listed(views(pop.spawn_source_ids@), sids),
        DiagnosticCode::MissingSpawn,
        e,
        "population references a missing spawn source"@,
    );
    assert(population_keys(pop, sids, dids, aids, apids).len() >= (a + b).len());
}

proof fn lemma_population_keys_empty(
    pops: Seq<PopulationIrV1>,
    sids: Seq<Seq<char>>,
    dids: Seq<Seq<char>>,
    aids: Seq<Seq<char>>,
    apids: Seq<Seq<char>>,
)
    requires
        all_population_keys(pops, sids, dids, aids, apids).len() == 0,
    ensures
        forall|i: int|
            0 <= i < pops.len() ==> (#[trigger] pops[i]).spawn_source_ids@.len() > 0 && all_listed(
                views(pops[i].spawn_source_ids@),
                sids,
            ),
    decreases pops.len(),
{
    if pops.len() > 0 {
        lemma_population_keys_empty(pops.drop_last(), sids, dids, aids, apids);
        lemma_population_ok(pops.last(), sids, dids, aids, apids);
        assert forall|i: int| 0 <= i < pops.len() implies (#[trigger] pops[i]).spawn_source_ids@.len() > 0 && all_listed(
            views(pops[i].spawn_source_ids@),
            sids,
        ) by {
            if i < pops.len() - 1 {
                assert(pops[i] == pops.drop_last()[i]);
            }
        }
    }
}

} // verus!
