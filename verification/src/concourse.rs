//! The integer schedule of the concourse runtime: the timed portal events
//! in play order, the portals that start closed, and the run's length in
//! ticks.

use vstd::prelude::*;
use crate::commuter::TimedPortalInput;
use crate::project::{ClockIrV1, PortalIrV1, ProjectIrV1};
use crate::text::str_eq;

verus! {

/// The index of the last portal named `id`: a later portal of the same name
/// shadows an earlier one.
pub open spec fn last_portal_index(ps: Seq<PortalIrV1>, id: Seq<char>) -> Option<int>
    decreases ps.len(),
{
    if ps.len() == 0 {
        None
    } else if ps.last().id@ == id {
        Some(ps.len() - 1)
    } else {
        last_portal_index(ps.drop_last(), id)
    }
}

/// Every timed event names a declared portal.
pub open spec fn events_known(p: ProjectIrV1) -> bool {
    forall|k: int|
        0 <= k < p.portal_events@.len() ==> #[trigger] last_portal_index(p.semantics.portals@, p.portal_events@[k].portal_id@)
            is Some
}

/// The play order of timed events: by tick, then portal index, then the
/// order they were authored in.
pub open spec fn event_before(a: TimedPortalInput, b: TimedPortalInput) -> bool {
    a.tick < b.tick || (a.tick == b.tick && (a.portal_index < b.portal_index || (a.portal_index == b.portal_index
        && a.authored_ordinal < b.authored_ordinal)))
}

/// `e` is the event authored at position `k`.
pub open spec fn scheduled_event(p: ProjectIrV1, k: int, e: TimedPortalInput) -> bool {
    let a = p.portal_events@[k];
    &&& e.tick == a.tick
    &&& e.portal_id@ == a.portal_id@
    &&& e.portal_index as int == last_portal_index(p.semantics.portals@, a.portal_id@).unwrap()
    &&& e.authored_ordinal as int == k
    &&& e.open == a.open
}

/// The IDs of the portals that start closed, in authored order.
pub open spec fn closed_portal_ids(ps: Seq<PortalIrV1>) -> Seq<Seq<char>>
    decreases ps.len(),
{
    if ps.len() == 0 {
        Seq::empty()
    } else if ps.last().initially_open {
        closed_portal_ids(ps.drop_last())
    } else {
        closed_portal_ids(ps.drop_last()).push(ps.last().id@)
    }
}

/// The frames to bake, at least one.
pub open spec fn baked_frames(c: ClockIrV1) -> int {
    let frames = c.frame_end - c.frame_start + 1;
    if frames < 1 {
        1
    } else {
        frames
    }
}

/// The ticks that cover the baked frames: the frames' length in ticks,
/// rounded up.
pub open spec fn duration_ticks_of(c: ClockIrV1) -> int {
    let t = baked_frames(c) * c.ticks_per_second;
    if t % (c.frames_per_second as int) == 0 {
        t / (c.frames_per_second as int)
    } else {
        t / (c.frames_per_second as int) + 1
    }
}

/// A compiled agent, as the schedule groups it.
#[derive(Clone, Copy, Debug, PartialEq, Eq, Structural)]
pub struct SpawnedAgent {
    pub agent_id: u64,
    pub population_id: u32,
    pub spawn_ordinal: u32,
    pub spawn_source_id: u32,
}

/// The order agents leave a spawn: by population, then ordinal, then ID.
pub open spec fn agent_before(a: SpawnedAgent, b: SpawnedAgent) -> bool {
    a.population_id < b.population_id || (a.population_id == b.population_id && (a.spawn_ordinal < b.spawn_ordinal || (
    a.spawn_ordinal == b.spawn_ordinal && a.agent_id < b.agent_id)))
}

/// `e` placed into `s` after every agent it does not come before.
pub open spec fn insert_agent(s: Seq<SpawnedAgent>, e: SpawnedAgent) -> Seq<SpawnedAgent>
    decreases s.len(),
{
    if s.len() == 0 {
        seq![e]
    } else if agent_before(e, s[0]) {
        seq![e] + s
    } else {
        seq![s[0]] + insert_agent(s.drop_first(), e)
    }
}

/// The agents among the first `n` that leave spawn `g`, in leaving order;
/// agents of equal order keep their given order.
pub open spec fn spawn_queue(agents: Seq<SpawnedAgent>, g: int, n: nat) -> Seq<SpawnedAgent>
    decreases n,
{
    if n == 0 {
        Seq::empty()
    } else if agents[n - 1].spawn_source_id as int == g {
        insert_agent(spawn_queue(agents, g, (n - 1) as nat), agents[n - 1])
    } else {
        spawn_queue(agents, g, (n - 1) as nat)
    }
}

/// Inserting where the first later agent stands is the leaving-order insert.
proof fn lemma_insert_agent_at(s: Seq<SpawnedAgent>, e: SpawnedAgent, p: int)
    requires
        0 <= p <= s.len(),
        forall|k: int| 0 <= k < p ==> !agent_before(e, #[trigger] s[k]),
        p < s.len() ==> agent_before(e, s[p]),
    ensures
        insert_agent(s, e) == s.insert(p, e),
    decreases s.len(),
{
    if s.len() == 0 {
        assert(s.insert(p, e) =~= seq![e]);
    } else if p == 0 {
        assert(s.insert(p, e) =~= seq![e] + s);
    } else {
        let t = s.drop_first();
        assert forall|k: int| 0 <= k < p - 1 implies !agent_before(e, #[trigger] t[k]) by {
            assert(t[k] == s[k + 1]);
        }
        if p < s.len() {
            assert(t[p - 1] == s[p]);
        }
        assert(!agent_before(e, s[0]));
        lemma_insert_agent_at(t, e, p - 1);
        assert(s.insert(p, e) =~= seq![s[0]] + t.insert(p - 1, e));
    }
}

/// A spawn's queue leaves in order: no agent comes before one ahead of it.
pub proof fn lemma_spawn_queue_ordered(agents: Seq<SpawnedAgent>, g: int, n: nat)
    requires
        n <= agents.len(),
    ensures
        forall|i: int, j: int|
            0 <= i < j < spawn_queue(agents, g, n).len() ==> !agent_before(
                #[trigger] spawn_queue(agents, g, n)[j],
                #[trigger] spawn_queue(agents, g, n)[i],
            ),
    decreases n,
{
    if n > 0 {
        lemma_spawn_queue_ordered(agents, g, (n - 1) as nat);
        if agents[n - 1].spawn_source_id as int == g {
            lemma_insert_keeps_order(spawn_queue(agents, g, (n - 1) as nat), agents[n - 1]);
        }
    }
}

proof fn lemma_insert_keeps_order(s: Seq<SpawnedAgent>, e: SpawnedAgent)
    requires
        forall|i: int, j: int| 0 <= i < j < s.len() ==> !agent_before(#[trigger] s[j], #[trigger] s[i]),
    ensures
        forall|i: int, j: int|
            0 <= i < j < insert_agent(s, e).len() ==> !agent_before(
                #[trigger] insert_agent(s, e)[j],
                #[trigger] insert_agent(s, e)[i],
            ),
    decreases s.len(),
{
    let r = insert_agent(s, e);
    if s.len() == 0 {
    } else if agent_before(e, s[0]) {
        assert forall|i: int, j: int| 0 <= i < j < r.len() implies !agent_before(#[trigger] r[j], #[trigger] r[i]) by {
            if i == 0 {
                assert(r[j] == s[j - 1]);
                if j - 1 > 0 {
                    assert(!agent_before(s[j - 1], s[0]));
                }
            } else {
                assert(r[i] == s[i - 1] && r[j] == s[j - 1]);
            }
        }
    } else {
        let t = s.drop_first();
        assert forall|i: int, j: int| 0 <= i < j < t.len() implies !agent_before(#[trigger] t[j], #[trigger] t[i]) by {
            assert(t[i] == s[i + 1] && t[j] == s[j + 1]);
        }
        lemma_insert_keeps_order(t, e);
        let u = insert_agent(t, e);
        lemma_insert_agent_members(t, e);
        assert forall|i: int, j: int| 0 <= i < j < r.len() implies !agent_before(#[trigger] r[j], #[trigger] r[i]) by {
            if i == 0 {
                assert(r[j] == u[j - 1]);
                let x = u[j - 1];
                if x != e {
                    let k = choose|k: int| 0 <= k < t.len() && t[k] == x;
                    assert(t[k] == s[k + 1]);
                }
            } else {
                assert(r[i] == u[i - 1] && r[j] == u[j - 1]);
            }
        }
    }
}

proof fn lemma_insert_agent_members(s: Seq<SpawnedAgent>, e: SpawnedAgent)
    ensures
        insert_agent(s, e).len() == s.len() + 1,
        forall|i: int|
            0 <= i < insert_agent(s, e).len() ==> #[trigger] insert_agent(s, e)[i] == e || exists|k: int|
                0 <= k < s.len() && s[k] == insert_agent(s, e)[i],
    decreases s.len(),
{
    if s.len() > 0 && !agent_before(e, s[0]) {
        let t = s.drop_first();
        lemma_insert_agent_members(t, e);
        let r = insert_agent(s, e);
        assert forall|i: int| 0 <= i < r.len() implies #[trigger] r[i] == e || exists|k: int| 0 <= k < s.len() && s[k] == r[i] by {
            if i == 0 {
                assert(s[0] == r[0]);
            } else {
                assert(r[i] == insert_agent(t, e)[i - 1]);
                if r[i] != e {
                    let k = choose|k: int| 0 <= k < t.len() && t[k] == insert_agent(t, e)[i - 1];
                    assert(s[k + 1] == r[i]);
                }
            }
        }
    } else if s.len() > 0 {
        let r = insert_agent(s, e);
        assert forall|i: int| 0 <= i < r.len() implies #[trigger] r[i] == e || exists|k: int| 0 <= k < s.len() && s[k] == r[i] by {
            if i > 0 {
                assert(s[i - 1] == r[i]);
            }
        }
    }
}

/// What the concourse runtime plays from the project.
pub struct ConcourseSchedule {
    /// The agents of each spawn, in the order they leave it.
    pub agents_by_spawn: Vec<Vec<SpawnedAgent>>,
    pub timed_portal_events: Vec<TimedPortalInput>,
    pub initially_closed_portals: Vec<String>,
    pub duration_ticks: u64,
}

fn last_portal_index_exec(ps: &Vec<PortalIrV1>, id: &str) -> (r: Option<u32>)
    requires
        ps@.len() <= u32::MAX,
    ensures
        r matches Some(i) ==> last_portal_index(ps@, id@) == Some(i as int),
        r is None ==> last_portal_index(ps@, id@) is None,
{
    let mut found: Option<u32> = None;
    let mut i: usize = 0;
    while i < ps.len()
        invariant
            i <= ps@.len(),
            ps@.len() <= u32::MAX,
            found matches Some(f) ==> last_portal_index(ps@.take(i as int), id@) == Some(f as int),
            found is None ==> last_portal_index(ps@.take(i as int), id@) is None,
        decreases ps@.len() - i,
    {
        proof {
            assert(ps@.take(i as int + 1).drop_last() =~= ps@.take(i as int));
        }
        if str_eq(ps[i].id.as_str(), id) {
            found = Some(i as u32);
        }
        i = i + 1;
    }
    proof {
        assert(ps@.take(ps@.len() as int) =~= ps@);
    }
    found
}

fn duration_ticks(c: ClockIrV1) -> (r: u64)
    requires
        c.frames_per_second > 0,
    ensures
        r == duration_ticks_of(c),
{
    let frames: i64 = c.frame_end as i64 - c.frame_start as i64 + 1;
    let f: u64 = if frames < 1 {
        1
    } else {
        frames as u64
    };
    assert(f <= 0x1_0000_0000);
    let tps = c.ticks_per_second as u64;
    assert(f * tps <= 0x1_0000_0000 * 0xffff_ffff) by (nonlinear_arith)
        requires
            f <= 0x1_0000_0000,
            tps <= 0xffff_ffff,
    ;
    let t = f * tps;
    let fps = c.frames_per_second as u64;
    if t % fps == 0 {
        t / fps
    } else {
        t / fps + 1
    }
}

fn group_by_spawn(agents: &Vec<SpawnedAgent>, count: usize) -> (r: Vec<Vec<SpawnedAgent>>)
    ensures
        r@.len() == count,
        forall|g: int| 0 <= g < count ==> (#[trigger] r@[g])@ == spawn_queue(agents@, g, agents@.len()),
{
    let mut groups: Vec<Vec<SpawnedAgent>> = Vec::new();
    let mut g: usize = 0;
    while g < count
        invariant
            g <= count,
            groups@.len() == g,
            forall|h: int| 0 <= h < g ==> (#[trigger] groups@[h])@ == Seq::<SpawnedAgent>::empty(),
        decreases count - g,
    {
        groups.push(Vec::new());
        g = g + 1;
    }
    let mut i: usize = 0;
    while i < agents.len()
        invariant
            i <= agents@.len(),
            groups@.len() == count,
            forall|h: int| 0 <= h < count ==> (#[trigger] groups@[h])@ == spawn_queue(agents@, h, i as nat),
        decreases agents@.len() - i,
    {
        let e = agents[i];
        let ghost before = groups@;
        let s = e.spawn_source_id as usize;
        if s < groups.len() {
            let mut group = groups.remove(s);
            let mut p: usize = 0;
            while p < group.len() && !(e.population_id < group[p].population_id || (e.population_id
                == group[p].population_id && (e.spawn_ordinal < group[p].spawn_ordinal || (e.spawn_ordinal
                == group[p].spawn_ordinal && e.agent_id < group[p].agent_id))))
                invariant
                    p <= group@.len(),
                    forall|k: int| 0 <= k < p ==> !agent_before(e, #[trigger] group@[k]),
                decreases group@.len() - p,
            {
                p = p + 1;
            }
            proof {
                lemma_insert_agent_at(group@, e, p as int);
            }
            group.insert(p, e);
            groups.insert(s, group);
            proof {
                assert forall|h: int| 0 <= h < count implies (#[trigger] groups@[h])@ == spawn_queue(
                    agents@,
                    h,
                    i as nat + 1,
                ) by {
                    assert(agents@[i as int] == e);
                    if h != s as int {
                        assert(groups@[h] == before[h]);
                    }
                }
            }
        } else {
            proof {
                assert forall|h: int| 0 <= h < count implies (#[trigger] groups@[h])@ == spawn_queue(
                    agents@,
                    h,
                    i as nat + 1,
                ) by {
                    assert(agents@[i as int] == e);
                }
            }
        }
        i = i + 1;
    }
    groups
}

/// The events authored so far, inserted into play order.
spec fn schedule_holds(p: ProjectIrV1, out: Seq<TimedPortalInput>, n: int) -> bool {
    &&& out.len() == n
    &&& forall|k: int| 0 <= k < out.len() ==> (#[trigger] out[k]).authored_ordinal < n && scheduled_event(p, out[k].authored_ordinal as int, out[k])
    &&& forall|i: int, j: int| 0 <= i < j < out.len() ==> event_before(#[trigger] out[i], #[trigger] out[j])
    &&& forall|o: int| 0 <= o < n ==> #[trigger] lists_ordinal(out, o)
}

/// Some event in `out` was authored at position `o`.
pub open spec fn lists_ordinal(out: Seq<TimedPortalInput>, o: int) -> bool {
    exists|k: int| 0 <= k < out.len() && (#[trigger] out[k]).authored_ordinal == o
}

/// The schedule the concourse runtime plays: every timed event once, in
/// play order, each with the index of the portal it names; the portals that
/// start closed; and the baked frames' length in ticks, rounded up.
pub fn concourse_schedule(ir: &ProjectIrV1, agents: &Vec<SpawnedAgent>) -> (r: ConcourseSchedule)
    requires
        events_known(*ir),
        ir.portal_events@.len() <= u32::MAX,
        ir.semantics.portals@.len() <= u32::MAX,
        ir.clock.frames_per_second > 0,
    ensures
        r.agents_by_spawn@.len() == ir.semantics.spawns@.len(),
        forall|g: int|
            0 <= g < r.agents_by_spawn@.len() ==> (#[trigger] r.agents_by_spawn@[g])@ == spawn_queue(
                agents@,
                g,
                agents@.len(),
            ),
        r.duration_ticks == duration_ticks_of(ir.clock),
        r.initially_closed_portals@.map_values(|s: String| s@) == closed_portal_ids(ir.semantics.portals@),
        r.timed_portal_events@.len() == ir.portal_events@.len(),
        forall|k: int|
            0 <= k < r.timed_portal_events@.len() ==> (#[trigger] r.timed_portal_events@[k]).authored_ordinal
                < ir.portal_events@.len() && scheduled_event(
                *ir,
                r.timed_portal_events@[k].authored_ordinal as int,
                r.timed_portal_events@[k],
            ),
        forall|i: int, j: int|
            0 <= i < j < r.timed_portal_events@.len() ==> event_before(
                #[trigger] r.timed_portal_events@[i],
                #[trigger] r.timed_portal_events@[j],
            ),
        forall|o: int| 0 <= o < ir.portal_events@.len() ==> #[trigger] lists_ordinal(r.timed_portal_events@, o),
{
    let n = ir.portal_events.len();
    let mut out: Vec<TimedPortalInput> = Vec::new();
    let mut i: usize = 0;
    while i < n
        invariant
            n == ir.portal_events@.len(),
            n <= u32::MAX,
            i <= n,
            events_known(*ir),
            ir.semantics.portals@.len() <= u32::MAX,
            schedule_holds(*ir, out@, i as int),
        decreases n - i,
    {
        let a = &ir.portal_events[i];
        let found = last_portal_index_exec(&ir.semantics.portals, a.portal_id.as_str());
        proof {
            assert(last_portal_index(ir.semantics.portals@, ir.portal_events@[i as int].portal_id@) is Some);
        }
        let index = match found {
            Some(x) => x,
            None => 0,
        };
        let e = TimedPortalInput {
            tick: a.tick,
            portal_id: a.portal_id.clone(),
            portal_index: index,
            authored_ordinal: i as u32,
            open: a.open,
        };
        let mut p: usize = 0;
        while p < out.len() && (out[p].tick < e.tick || (out[p].tick == e.tick && (out[p].portal_index < e.portal_index
            || (out[p].portal_index == e.portal_index && out[p].authored_ordinal < e.authored_ordinal))))
            invariant
                p <= out@.len(),
                forall|k: int| 0 <= k < p ==> event_before(#[trigger] out@[k], e),
            decreases out@.len() - p,
        {
            p = p + 1;
        }
        let ghost before = out@;
        proof {
            if p < before.len() {
                assert(event_before(e, before[p as int]) || e.authored_ordinal == before[p as int].authored_ordinal);
                assert(before[p as int].authored_ordinal < i);
            }
        }
        out.insert(p, e);
        proof {
            let after = out@;
            assert(after == before.insert(p as int, e));
            assert forall|k: int| 0 <= k < after.len() implies (#[trigger] after[k]).authored_ordinal < i + 1
                && scheduled_event(*ir, after[k].authored_ordinal as int, after[k]) by {
                if k < p {
                    assert(after[k] == before[k]);
                } else if k > p {
                    assert(after[k] == before[k - 1]);
                }
            }
            assert forall|x: int, y: int| 0 <= x < y < after.len() implies event_before(
                #[trigger] after[x],
                #[trigger] after[y],
            ) by {
                if y < p {
                    assert(after[x] == before[x] && after[y] == before[y]);
                } else if y == p {
                    assert(after[x] == before[x]);
                } else if x < p {
                    assert(after[x] == before[x] && after[y] == before[y - 1]);
                    assert(event_before(before[x], e));
                    assert(event_before(e, before[p as int]));
                    if y - 1 > p {
                        assert(event_before(before[p as int], before[y - 1]));
                    }
                } else if x == p {
                    assert(after[y] == before[y - 1]);
                    assert(event_before(e, before[p as int]));
                    if y - 1 > p {
                        assert(event_before(before[p as int], before[y - 1]));
                    }
                } else {
                    assert(after[x] == before[x - 1] && after[y] == before[y - 1]);
                }
            }
            assert forall|o: int| 0 <= o < i + 1 implies #[trigger] lists_ordinal(after, o) by {
                if o == i {
                    assert(after[p as int].authored_ordinal == o);
                } else {
                    assert(lists_ordinal(before, o));
                    let k = choose|k: int| 0 <= k < before.len() && (#[trigger] before[k]).authored_ordinal == o;
                    if k < p {
                        assert(after[k] == before[k]);
                    } else {
                        assert(after[k + 1] == before[k]);
                    }
                }
            }
        }
        i = i + 1;
    }
    let portals = &ir.semantics.portals;
    let mut closed: Vec<String> = Vec::new();
    let mut j: usize = 0;
    while j < portals.len()
        invariant
            j <= portals@.len(),
            closed@.map_values(|s: String| s@) == closed_portal_ids(portals@.take(j as int)),
        decreases portals@.len() - j,
    {
        proof {
            assert(portals@.take(j as int + 1).drop_last() =~= portals@.take(j as int));
        }
        if !portals[j].initially_open {
            closed.push(portals[j].id.clone());
            proof {
                assert(closed@.map_values(|s: String| s@) =~= closed_portal_ids(portals@.take(j as int)).push(
                    portals@[j as int].id@,
                ));
            }
        }
        j = j + 1;
    }
    proof {
        assert(portals@.take(portals@.len() as int) =~= portals@);
    }
    let groups = group_by_spawn(agents, ir.semantics.spawns.len());
    ConcourseSchedule {
        agents_by_spawn: groups,
        timed_portal_events: out,
        initially_closed_portals: closed,
        duration_ticks: duration_ticks(ir.clock),
    }
}

} // verus!
