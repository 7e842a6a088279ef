//! The spawn schedule: which agents each spawn region emits on a tick.
//!
//! A region emits at most `per_tick` agents a tick until it has emitted
//! `count`. The agent with a given ordinal always gets the same ID, so the
//! emission rate never changes who an agent is, only when it appears.

use vstd::prelude::*;
use crate::ids::{AgentId, agent_id_spec, derive_agent_id};

verus! {

/// What the schedule reads of a spawn region.
#[derive(Clone, Copy, Debug, PartialEq, Eq, Structural)]
pub struct SpawnQuota {
    pub id: u16,
    pub population_id: u16,
    /// How many agents the region emits in all.
    pub count: u32,
    /// How many agents the region emits at most on one tick.
    pub per_tick: u32,
}

/// One agent due on this tick.
#[derive(Clone, Copy, Debug, PartialEq, Eq, Structural)]
pub struct ScheduledSpawn {
    /// The index of the region that emits it.
    pub spawn_index: usize,
    /// Its place among the region's agents, from zero.
    pub ordinal: u32,
    pub agent_id: AgentId,
}

/// How many agents a region with `already` emitted emits now.
pub open spec fn due(q: SpawnQuota, already: u32) -> nat {
    let remaining: nat = if already <= q.count {
        (q.count - already) as nat
    } else {
        0
    };
    if remaining <= q.per_tick {
        remaining
    } else {
        q.per_tick as nat
    }
}

/// The agents region `i` emits now, in ordinal order.
pub open spec fn region_spawns(i: int, q: SpawnQuota, already: u32, seed: u64) -> Seq<ScheduledSpawn> {
    Seq::new(
        due(q, already),
        |k: int|
            ScheduledSpawn {
                spawn_index: i as usize,
                ordinal: (already + k) as u32,
                agent_id: AgentId(agent_id_spec(seed, q.population_id, q.id, (already + k) as u32)),
            },
    )
}

/// The agents the first `n` regions emit now, region by region.
pub open spec fn scheduled(regions: Seq<SpawnQuota>, emitted: Seq<u32>, seed: u64, n: nat) -> Seq<ScheduledSpawn>
    decreases n,
{
    if n == 0 {
        Seq::empty()
    } else {
        let i = n - 1;
        scheduled(regions, emitted, seed, i as nat) + region_spawns(i, regions[i], emitted[i], seed)
    }
}

/// Emission totals after one tick.
pub open spec fn advanced(regions: Seq<SpawnQuota>, emitted: Seq<u32>) -> Seq<u32> {
    Seq::new(
        emitted.len(),
        |i: int|
            if i < regions.len() {
                (emitted[i] + due(regions[i], emitted[i])) as u32
            } else {
                emitted[i]
            },
    )
}

/// How many agents each spawn region has emitted so far.
#[derive(Debug)]
pub struct SpawnState {
    emitted: Vec<u32>,
}

impl SpawnState {
    /// The emission total of each region.
    pub closed spec fn totals(&self) -> Seq<u32> {
        self.emitted@
    }

    /// A state for `region_count` regions, none of which has emitted.
    pub fn new(region_count: usize) -> (s: Self)
        ensures
            s.totals() == Seq::new(region_count as nat, |i: int| 0u32),
    {
        let mut emitted: Vec<u32> = Vec::new();
        let mut i: usize = 0;
        while i < region_count
            invariant
                i <= region_count,
                emitted@ == Seq::new(i as nat, |j: int| 0u32),
            decreases region_count - i,
        {
            emitted.push(0);
            i = i + 1;
            assert(emitted@ =~= Seq::new(i as nat, |j: int| 0u32));
        }
        Self { emitted }
    }

    /// How many agents region `spawn_index` has emitted.
    pub fn emitted(&self, spawn_index: usize) -> (r: u32)
        requires
            spawn_index < self.totals().len(),
        ensures
            r == self.totals()[spawn_index as int],
    {
        self.emitted[spawn_index]
    }

    /// Whether every region has emitted its full count (regions past the
    /// shorter of the two lists are not consulted).
    pub fn all_emitted(&self, regions: &Vec<SpawnQuota>) -> (r: bool)
        ensures
            r == forall|i: int|
                0 <= i < regions@.len() && i < self.totals().len() ==> #[trigger] self.totals()[i]
                    >= regions@[i].count,
    {
        let mut i: usize = 0;
        while i < regions.len() && i < self.emitted.len()
            invariant
                i <= regions@.len(),
                forall|j: int| 0 <= j < i && j < self.emitted@.len() ==> #[trigger] self.emitted@[j] >= regions@[j].count,
            decreases regions@.len() - i,
        {
            if self.emitted[i] < regions[i].count {
                assert(self.totals()[i as int] < regions@[i as int].count);
                return false;
            }
            i = i + 1;
        }
        true
    }

    /// The agents due on this tick, region by region and in ordinal order;
    /// each region's total advances by what it emitted.
    pub fn schedule(&mut self, regions: &Vec<SpawnQuota>, project_seed: u64) -> (r: Vec<ScheduledSpawn>)
        requires
            regions@.len() <= old(self).totals().len(),
        ensures
            r@ == scheduled(regions@, old(self).totals(), project_seed, regions@.len()),
            final(self).totals() == advanced(regions@, old(self).totals()),
    {
        let ghost start = self.emitted@;
        let mut out: Vec<ScheduledSpawn> = Vec::new();
        let mut i: usize = 0;
        while i < regions.len()
            invariant
                regions@.len() <= start.len(),
                self.emitted@.len() == start.len(),
                i <= regions@.len(),
                forall|j: int| i <= j < start.len() ==> #[trigger] self.emitted@[j] == start[j],
                forall|j: int| 0 <= j < i ==> #[trigger] self.emitted@[j] == advanced(regions@, start)[j],
                out@ == scheduled(regions@, start, project_seed, i as nat),
            decreases regions@.len() - i,
        {
            let q = regions[i];
            let already = self.emitted[i];
            let remaining = q.count.saturating_sub(already);
            let this_tick = if remaining < q.per_tick {
                remaining
            } else {
                q.per_tick
            };
            let ghost before = out@;
            let mut offset: u32 = 0;
            while offset < this_tick
                invariant
                    i < regions@.len(),
                    q == regions@[i as int],
                    already == start[i as int],
                    this_tick == due(q, already),
                    offset <= this_tick,
                    out@ == before + region_spawns(i as int, q, already, project_seed).take(offset as int),
                decreases this_tick - offset,
            {
                let ordinal = already + offset;
                let agent_id = derive_agent_id(project_seed, q.population_id, q.id, ordinal);
                out.push(ScheduledSpawn { spawn_index: i, ordinal, agent_id });
                proof {
                    let rs = region_spawns(i as int, q, already, project_seed);
                    assert(rs.take(offset + 1) =~= rs.take(offset as int).push(rs[offset as int]));
                }
                offset = offset + 1;
            }
            proof {
                let rs = region_spawns(i as int, q, already, project_seed);
                assert(rs.take(this_tick as int) =~= rs);
            }
            self.emitted.set(i, already + this_tick);
            i = i + 1;
        }
        proof {
            assert(self.emitted@ =~= advanced(regions@, start));
        }
        out
    }
}

/// Emission never passes a region's count: a region within its count stays
/// within it after a tick.
pub proof fn lemma_emission_within_count(q: SpawnQuota, already: u32)
    requires
        already <= q.count,
    ensures
        already + due(q, already) <= q.count,
{
}

/// A region emits at most `per_tick` agents on one tick, and none once it
/// has emitted its count.
pub proof fn lemma_emission_rate(q: SpawnQuota, already: u32)
    ensures
        due(q, already) <= q.per_tick,
        already >= q.count ==> due(q, already) == 0,
{
}

/// The emission total of a region after `n` ticks from none.
pub open spec fn total_after(q: SpawnQuota, n: nat) -> nat
    decreases n,
{
    if n == 0 {
        0
    } else {
        let before = total_after(q, (n - 1) as nat);
        before + due(q, before as u32)
    }
}

/// From no emission, a region has emitted `min(count, n * per_tick)` agents
/// after `n` ticks, whatever the ticks did elsewhere.
pub proof fn lemma_total_after(q: SpawnQuota, n: nat)
    ensures
        total_after(q, n) == if n * q.per_tick <= q.count {
            n * q.per_tick
        } else {
            q.count as int
        },
    decreases n,
{
    if n > 0 {
        let m = (n - 1) as nat;
        lemma_total_after(q, m);
        let before = total_after(q, m);
        assert(m * q.per_tick + q.per_tick == n * q.per_tick) by (nonlinear_arith)
            requires
                m == n - 1,
        ;
        assert(before <= q.count);
        assert(before as u32 == before);
        assert(total_after(q, n) == before + due(q, before as u32));
        if n * q.per_tick <= q.count {
            assert(before == m * q.per_tick);
            assert(due(q, before as u32) == q.per_tick);
        } else if m * q.per_tick <= q.count {
            assert(due(q, before as u32) == q.count - before);
        } else {
            assert(before == q.count);
        }
    } else {
        assert(n * q.per_tick == 0) by (nonlinear_arith)
            requires
                n == 0,
        ;
    }
}

/// The agent emitted with a given ordinal has the same ID whatever tick
/// emits it: each scheduled ID depends on the region and ordinal alone.
pub proof fn lemma_scheduled_ids(regions: Seq<SpawnQuota>, emitted: Seq<u32>, seed: u64, n: nat, k: int)
    requires
        n <= regions.len(),
        n <= emitted.len(),
        n <= usize::MAX,
        0 <= k < scheduled(regions, emitted, seed, n).len(),
    ensures
        ({
            let s = scheduled(regions, emitted, seed, n)[k];
            &&& s.spawn_index < n
            &&& s.agent_id.0 == agent_id_spec(
                seed,
                regions[s.spawn_index as int].population_id,
                regions[s.spawn_index as int].id,
                s.ordinal,
            )
        }),
    decreases n,
{
    if n > 0 {
        let i = n - 1;
        let head = scheduled(regions, emitted, seed, i as nat);
        if k < head.len() {
            lemma_scheduled_ids(regions, emitted, seed, i as nat, k);
            assert(scheduled(regions, emitted, seed, n)[k] == head[k]);
        } else {
            assert(scheduled(regions, emitted, seed, n)[k] == region_spawns(i, regions[i], emitted[i], seed)[k
                - head.len()]);
        }
    }
}

} // verus!
