//! The decision step of the live behavior runtime: every agent whose
//! population has a program decides once per tick, each keeping its own
//! timer memory, and what it decided becomes a steering intent.

use vstd::prelude::*;
use crate::behavior::{
    action_view, empty_outcome, ActionView, BehaviorAction, BehaviorContext, BehaviorVm, BehaviorVmState,
    DecisionOutcome, OutcomeView,
};
use crate::ids::AgentId;
use crate::keyed::{TextMap, U64Map};
use crate::text::{decimal, owned, str_eq, with_decimal};

verus! {

/// The navigation target that stands for "the destination already assigned".
pub const ASSIGNED_DESTINATION: &'static str = "__assigned_destination";

/// One agent's part in a decision tick, as the world shows it.
pub struct AgentTick {
    pub slot: u32,
    pub agent_id: u64,
    pub population: u16,
    /// The destination index the agent currently heads for.
    pub destination: u16,
    /// What the agent observes this tick.
    pub context: BehaviorContext,
}

/// What a decision asks of the agent's steering.
#[derive(Clone, Copy, Debug, PartialEq, Eq, Structural)]
pub enum SteeringIntent {
    /// Leave steering as it is.
    Keep,
    /// Stand still this tick.
    Stop,
    /// Head for another destination, with the route planned afresh.
    Retarget(u16),
}

/// One agent's decision this tick.
pub struct AgentDecision {
    pub slot: u32,
    pub agent_id: u64,
    pub population: u16,
    pub outcome: DecisionOutcome,
    pub steering: SteeringIntent,
}

/// The steering an action asks for: waiting and holding stop the agent; a
/// navigation to a named, known destination other than the current one
/// retargets it; anything else keeps its steering.
pub open spec fn steering_for(a: Option<ActionView>, dests: Map<Seq<char>, u16>, current: u16) -> SteeringIntent {
    match a {
        Some(ActionView::Wait(_)) => SteeringIntent::Stop,
        Some(ActionView::HoldPosition) => SteeringIntent::Stop,
        Some(ActionView::Navigate(id)) => if id != ASSIGNED_DESTINATION@ && dests.dom().contains(id) && dests[id]
            != current {
            SteeringIntent::Retarget(dests[id])
        } else {
            SteeringIntent::Keep
        },
        _ => SteeringIntent::Keep,
    }
}

/// The last program registered for population `p`.
pub open spec fn program_index(pops: Seq<u16>, p: u16) -> Option<int>
    decreases pops.len(),
{
    if pops.len() == 0 {
        None
    } else if pops.last() == p {
        Some(pops.len() - 1)
    } else {
        program_index(pops.drop_last(), p)
    }
}

/// The timers an agent starts a tick with: its stored state's, or none.
pub open spec fn stored_timers(states: Map<u64, BehaviorVmState>, id: u64) -> Map<Seq<char>, u64> {
    if states.dom().contains(id) {
        states[id].timers()
    } else {
        Map::empty()
    }
}

/// One decision of `vm` from `timers`: the action, the timers after, the record.
pub open spec fn decision_of(vm: BehaviorVm, ctx: BehaviorContext, timers: Map<Seq<char>, u64>) -> (
    Option<ActionView>,
    Map<Seq<char>, u64>,
    OutcomeView,
) {
    vm.eval(ctx, vm.vm_program().entry(), timers, empty_outcome())
}

/// The timers of agent `id` after the first `n` agents of the tick decided.
pub open spec fn timers_after(
    pops: Seq<u16>,
    vms: Seq<BehaviorVm>,
    states: Map<u64, BehaviorVmState>,
    agents: Seq<AgentTick>,
    n: nat,
    id: u64,
) -> Map<Seq<char>, u64>
    decreases n,
{
    if n == 0 {
        stored_timers(states, id)
    } else {
        let a = agents[n - 1];
        let before = timers_after(pops, vms, states, agents, (n - 1) as nat, id);
        if a.agent_id == id && program_index(pops, a.population) is Some {
            decision_of(vms[program_index(pops, a.population).unwrap()], a.context, before).1
        } else {
            before
        }
    }
}

/// The positions, among the first `n` agents, of those whose population has
/// a program.
pub open spec fn decided_upto(pops: Seq<u16>, agents: Seq<AgentTick>, n: nat) -> Seq<int>
    decreases n,
{
    if n == 0 {
        Seq::empty()
    } else if program_index(pops, agents[n - 1].population) is Some {
        decided_upto(pops, agents, (n - 1) as nat).push(n - 1)
    } else {
        decided_upto(pops, agents, (n - 1) as nat)
    }
}

/// Behavior programs by population, known destinations, and each agent's
/// timer memory.
pub struct RuntimeBehaviorController {
    populations: Vec<u16>,
    vms: Vec<BehaviorVm>,
    destination_indices: TextMap<u16>,
    states: U64Map<BehaviorVmState>,
}

impl RuntimeBehaviorController {
    pub closed spec fn programs(&self) -> Seq<u16> {
        self.populations@
    }

    pub closed spec fn machines(&self) -> Seq<BehaviorVm> {
        self.vms@
    }

    pub closed spec fn destinations(&self) -> Map<Seq<char>, u16> {
        self.destination_indices.as_map()
    }

    pub closed spec fn states(&self) -> Map<u64, BehaviorVmState> {
        self.states.as_map()
    }

    pub closed spec fn wf(&self) -> bool {
        &&& self.populations@.len() == self.vms@.len()
        &&& forall|i: int| 0 <= i < self.vms@.len() ==> (#[trigger] self.vms@[i]).wf()
        &&& self.destination_indices.wf()
        &&& self.states.wf()
        &&& forall|id: u64| #[trigger] self.states.as_map().dom().contains(id) ==> self.states.as_map()[id].wf()
    }

    /// A controller with no agent memory yet.
    pub fn new(populations: Vec<u16>, vms: Vec<BehaviorVm>, destination_indices: TextMap<u16>) -> (r: Self)
        requires
            populations@.len() == vms@.len(),
            forall|i: int| 0 <= i < vms@.len() ==> (#[trigger] vms@[i]).wf(),
            destination_indices.wf(),
        ensures
            r.wf(),
            r.programs() == populations@,
            r.machines() == vms@,
            r.destinations() == destination_indices.as_map(),
            r.states() == Map::<u64, BehaviorVmState>::empty(),
    {
        RuntimeBehaviorController { populations, vms, destination_indices, states: U64Map::new() }
    }

    fn find_program(&self, p: u16) -> (r: Option<usize>)
        requires
            self.wf(),
        ensures
            r matches Some(i) ==> program_index(self.programs(), p) == Some(i as int) && i < self.vms@.len(),
            r is None ==> program_index(self.programs(), p) is None,
    {
        let mut found: Option<usize> = None;
        let mut i: usize = 0;
        while i < self.populations.len()
            invariant
                i <= self.populations@.len(),
                found matches Some(f) ==> program_index(self.populations@.take(i as int), p) == Some(f as int) && f < i,
                found is None ==> program_index(self.populations@.take(i as int), p) is None,
            decreases self.populations@.len() - i,
        {
            proof {
                assert(self.populations@.take(i as int + 1).drop_last() =~= self.populations@.take(i as int));
            }
            if self.populations[i] == p {
                found = Some(i);
            }
            i = i + 1;
        }
        proof {
            assert(self.populations@.take(self.populations@.len() as int) =~= self.populations@);
        }
        found
    }

    /// Decide for every agent whose population has a program, in the order
    /// given: each decides from the timers it kept, and its decision becomes
    /// a steering intent.
    pub fn decide_tick(&mut self, agents: &Vec<AgentTick>) -> (r: Vec<AgentDecision>)
        requires
            old(self).wf(),
            forall|i: int| 0 <= i < agents@.len() ==> (#[trigger] agents@[i]).context.wf(),
        ensures
            final(self).wf(),
            final(self).programs() == old(self).programs(),
            final(self).machines() == old(self).machines(),
            final(self).destinations() == old(self).destinations(),
            r@.len() == decided_upto(old(self).programs(), agents@, agents@.len()).len(),
            forall|k: int|
                0 <= k < r@.len() ==> {
                    let i = decided_upto(old(self).programs(), agents@, agents@.len())[k];
                    let a = agents@[i];
                    let vm = old(self).machines()[program_index(old(self).programs(), a.population).unwrap()];
                    let e = decision_of(
                        vm,
                        a.context,
                        timers_after(
                            old(self).programs(),
                            old(self).machines(),
                            old(self).states(),
                            agents@,
                            i as nat,
                            a.agent_id,
                        ),
                    );
                    &&& 0 <= i < agents@.len()
                    &&& (#[trigger] r@[k]).slot == a.slot
                    &&& r@[k].agent_id == a.agent_id
                    &&& r@[k].population == a.population
                    &&& action_view(r@[k].outcome.action) == e.0
                    &&& r@[k].outcome.record() == e.2
                    &&& r@[k].steering == steering_for(e.0, old(self).destinations(), a.destination)
                },
            forall|id: u64|
                #[trigger] stored_timers(final(self).states(), id) == timers_after(
                    old(self).programs(),
                    old(self).machines(),
                    old(self).states(),
                    agents@,
                    agents@.len(),
                    id,
                ),
    {
        let ghost pops = self.populations@;
        let ghost vms = self.vms@;
        let ghost s0 = self.states.as_map();
        let mut out: Vec<AgentDecision> = Vec::new();
        let mut i: usize = 0;
        while i < agents.len()
            invariant
                i <= agents@.len(),
                self.wf(),
                self.populations@ == pops,
                self.vms@ == vms,
                self.destination_indices == old(self).destination_indices,
                pops == old(self).programs(),
                vms == old(self).machines(),
                s0 == old(self).states(),
                forall|j: int| 0 <= j < agents@.len() ==> (#[trigger] agents@[j]).context.wf(),
                out@.len() == decided_upto(pops, agents@, i as nat).len(),
                forall|k: int|
                    0 <= k < out@.len() ==> {
                        let j = decided_upto(pops, agents@, i as nat)[k];
                        let a = agents@[j];
                        let e = decision_of(
                            vms[program_index(pops, a.population).unwrap()],
                            a.context,
                            timers_after(pops, vms, s0, agents@, j as nat, a.agent_id),
                        );
                        &&& 0 <= j < i
                        &&& (#[trigger] out@[k]).slot == a.slot
                        &&& out@[k].agent_id == a.agent_id
                        &&& out@[k].population == a.population
                        &&& action_view(out@[k].outcome.action) == e.0
                        &&& out@[k].outcome.record() == e.2
                        &&& out@[k].steering == steering_for(e.0, self.destination_indices.as_map(), a.destination)
                    },
                forall|id: u64| #[trigger]
                    stored_timers(self.states.as_map(), id) == timers_after(pops, vms, s0, agents@, i as nat, id),
            decreases agents@.len() - i,
        {
            let a = &agents[i];
            let found = self.find_program(a.population);
            let ghost before_out = out@;
            let ghost before_states = self.states.as_map();
            match found {
                None => {
                    proof {
                        assert(decided_upto(pops, agents@, i as nat + 1) == decided_upto(pops, agents@, i as nat));
                        assert forall|id: u64| #[trigger]
                            stored_timers(self.states.as_map(), id) == timers_after(pops, vms, s0, agents@, i as nat + 1, id) by {
                            assert(timers_after(pops, vms, s0, agents@, i as nat + 1, id) == timers_after(
                                pops,
                                vms,
                                s0,
                                agents@,
                                i as nat,
                                id,
                            ));
                        }
                    }
                },
                Some(idx) => {
                    let taken = self.states.take(a.agent_id);
                    let mut state = match taken {
                        Some(s) => s,
                        None => BehaviorVmState::new(),
                    };
                    proof {
                        assert(state.timers() == stored_timers(before_states, a.agent_id));
                        assert(state.timers() == timers_after(pops, vms, s0, agents@, i as nat, a.agent_id));
                    }
                    let outcome = self.vms[idx].decide(&mut state, &a.context);
                    let steering = steering_exec(&outcome.action, &self.destination_indices, a.destination);
                    let ghost after_timers = state.timers();
                    self.states.put(a.agent_id, state);
                    out.push(AgentDecision { slot: a.slot, agent_id: a.agent_id, population: a.population, outcome, steering });
                    proof {
                        let d = decided_upto(pops, agents@, i as nat + 1);
                        assert(d == decided_upto(pops, agents@, i as nat).push(i as int));
                        assert forall|id: u64| #[trigger] self.states.as_map().dom().contains(id) implies self.states.as_map()[id].wf() by {
                            if id != a.agent_id {
                                assert(before_states.dom().contains(id));
                            }
                        }
                        assert forall|id: u64| #[trigger]
                            stored_timers(self.states.as_map(), id) == timers_after(pops, vms, s0, agents@, i as nat + 1, id) by {
                            if id != a.agent_id {
                                assert(stored_timers(self.states.as_map(), id) == stored_timers(before_states, id));
                            } else {
                                assert(after_timers == timers_after(pops, vms, s0, agents@, i as nat + 1, id));
                            }
                        }
                        assert forall|k: int| 0 <= k < out@.len() implies {
                            let j = d[k];
                            let a2 = agents@[j];
                            let e = decision_of(
                                vms[program_index(pops, a2.population).unwrap()],
                                a2.context,
                                timers_after(pops, vms, s0, agents@, j as nat, a2.agent_id),
                            );
                            &&& 0 <= j < i + 1
                            &&& (#[trigger] out@[k]).slot == a2.slot
                            &&& out@[k].agent_id == a2.agent_id
                            &&& out@[k].population == a2.population
                            &&& action_view(out@[k].outcome.action) == e.0
                            &&& out@[k].outcome.record() == e.2
                            &&& out@[k].steering == steering_for(e.0, self.destination_indices.as_map(), a2.destination)
                        } by {
                            if k < before_out.len() {
                                assert(out@[k] == before_out[k]);
                                assert(d[k] == decided_upto(pops, agents@, i as nat)[k]);
                            }
                        }
                    }
                },
            }
            i = i + 1;
        }
        out
    }
}

fn steering_exec(action: &Option<BehaviorAction>, dests: &TextMap<u16>, current: u16) -> (r: SteeringIntent)
    requires
        dests.wf(),
    ensures
        r == steering_for(action_view(*action), dests.as_map(), current),
{
    match action {
        Some(BehaviorAction::Wait { .. }) => SteeringIntent::Stop,
        Some(BehaviorAction::HoldPosition) => SteeringIntent::Stop,
        Some(BehaviorAction::Navigate { destination_id }) => {
            if str_eq(destination_id.as_str(), ASSIGNED_DESTINATION) {
                SteeringIntent::Keep
            } else {
                match dests.get(destination_id.as_str()) {
                    Some(d) => if *d != current {
                        SteeringIntent::Retarget(*d)
                    } else {
                        SteeringIntent::Keep
                    },
                    None => SteeringIntent::Keep,
                }
            }
        },
        _ => SteeringIntent::Keep,
    }
}

/// The crowd observations every agent gets from its neighbour count: whether
/// anyone is near, whether the crowd is dense (eight or more), the count,
/// and a density score of 62 500 millionths per neighbour, capped at one.
pub fn crowd_context(tick: u64, agent_id: u64, neighbor_count: u32, completed_nodes: TextMap<()>) -> (r: BehaviorContext)
    requires
        neighbor_count * 62_500 <= i32::MAX,
        completed_nodes.wf(),
    ensures
        r.wf(),
        r.tick == tick,
        r.agent_id == AgentId(agent_id),
        r.bool_observations.as_map() == Map::<Seq<char>, bool>::empty().insert("nearby_agents"@, neighbor_count > 0).insert(
            "density_high"@,
            neighbor_count >= 8,
        ),
        r.number_observations.as_map() == Map::<Seq<char>, i32>::empty().insert(
            "nearby_agent_count"@,
            neighbor_count as i32,
        ).insert("density_score"@, if neighbor_count * 62_500 < 1_000_000 { (neighbor_count * 62_500) as i32 } else { 1_000_000 }),
        r.events.as_map() == Map::<Seq<char>, ()>::empty(),
        r.completed_nodes == completed_nodes,
{
    let mut flags: TextMap<bool> = TextMap::new();
    flags.insert(owned("nearby_agents"), neighbor_count > 0);
    flags.insert(owned("density_high"), neighbor_count >= 8);
    let mut numbers: TextMap<i32> = TextMap::new();
    let n = neighbor_count as i32;
    numbers.insert(owned("nearby_agent_count"), n);
    let score: i32 = if n * 62_500 < 1_000_000 { n * 62_500 } else { 1_000_000 };
    numbers.insert(owned("density_score"), score);
    BehaviorContext {
        tick,
        agent_id: AgentId(agent_id),
        bool_observations: flags,
        number_observations: numbers,
        events: TextMap::new(),
        completed_nodes,
    }
}

/// An agent that does not decide this tick keeps the timers it had.
pub proof fn lemma_absent_agent_keeps_timers(
    pops: Seq<u16>,
    vms: Seq<BehaviorVm>,
    states: Map<u64, BehaviorVmState>,
    agents: Seq<AgentTick>,
    n: nat,
    id: u64,
)
    requires
        n <= agents.len(),
        forall|i: int| 0 <= i < n && (#[trigger] agents[i]).agent_id == id ==> program_index(pops, agents[i].population) is None,
    ensures
        timers_after(pops, vms, states, agents, n, id) == stored_timers(states, id),
    decreases n,
{
    if n > 0 {
        lemma_absent_agent_keeps_timers(pops, vms, states, agents, (n - 1) as nat, id);
        assert(agents[n - 1].agent_id == id ==> program_index(pops, agents[n - 1].population) is None);
    }
}

/// A decision as the runtime reports it.
pub struct DecisionEvent {
    pub tick: u64,
    pub agent_id: u64,
    /// `population:` and the population number.
    pub detail: String,
    pub decisive_node: Option<String>,
}

/// A reported decision as plain values: tick, agent, detail, decisive node.
pub open spec fn event_view(e: DecisionEvent) -> (u64, u64, Seq<char>, Option<Seq<char>>) {
    (e.tick, e.agent_id, e.detail@, match e.decisive_node {
        Some(n) => Some(n@),
        None => None,
    })
}

/// The report of decision `d` at `tick`.
pub open spec fn report_of(tick: u64, d: AgentDecision) -> (u64, u64, Seq<char>, Option<Seq<char>>) {
    (tick, d.agent_id, "population:"@ + decimal(d.population as nat), d.outcome.record().decisive)
}

/// `e` placed after every report of an agent with an ID no greater.
pub open spec fn insert_by_agent(
    s: Seq<(u64, u64, Seq<char>, Option<Seq<char>>)>,
    e: (u64, u64, Seq<char>, Option<Seq<char>>),
) -> Seq<(u64, u64, Seq<char>, Option<Seq<char>>)>
    decreases s.len(),
{
    if s.len() == 0 {
        seq![e]
    } else if e.1 < s[0].1 {
        seq![e] + s
    } else {
        seq![s[0]] + insert_by_agent(s.drop_first(), e)
    }
}

/// The reports of the first `n` decisions, ordered by agent ID, decisions of
/// one agent in the order made.
pub open spec fn reports_upto(tick: u64, ds: Seq<AgentDecision>, n: nat) -> Seq<(u64, u64, Seq<char>, Option<Seq<char>>)>
    decreases n,
{
    if n == 0 {
        Seq::empty()
    } else {
        insert_by_agent(reports_upto(tick, ds, (n - 1) as nat), report_of(tick, ds[n - 1]))
    }
}

proof fn lemma_insert_by_agent_at(
    s: Seq<(u64, u64, Seq<char>, Option<Seq<char>>)>,
    e: (u64, u64, Seq<char>, Option<Seq<char>>),
    p: int,
)
    requires
        0 <= p <= s.len(),
        forall|k: int| 0 <= k < p ==> (#[trigger] s[k]).1 <= e.1,
        p < s.len() ==> e.1 < s[p].1,
    ensures
        insert_by_agent(s, e) == s.insert(p, e),
    decreases s.len(),
{
    if s.len() == 0 {
        assert(s.insert(p, e) =~= seq![e]);
    } else if p == 0 {
        assert(s.insert(p, e) =~= seq![e] + s);
    } else {
        let t = s.drop_first();
        assert forall|k: int| 0 <= k < p - 1 implies (#[trigger] t[k]).1 <= e.1 by {
            assert(t[k] == s[k + 1]);
        }
        if p < s.len() {
            assert(t[p - 1] == s[p]);
        }
        assert(s[0].1 <= e.1);
        lemma_insert_by_agent_at(t, e, p - 1);
        assert(s.insert(p, e) =~= seq![s[0]] + t.insert(p - 1, e));
    }
}

/// Report the tick's decisions, ordered by agent ID as the runtime's event
/// log is.
pub fn decision_events(tick: u64, decisions: &Vec<AgentDecision>) -> (r: Vec<DecisionEvent>)
    ensures
        r@.map_values(|e: DecisionEvent| event_view(e)) == reports_upto(tick, decisions@, decisions@.len()),
        forall|i: int, j: int| 0 <= i < j < r@.len() ==> (#[trigger] r@[i]).agent_id <= (#[trigger] r@[j]).agent_id,
        forall|i: int| 0 <= i < r@.len() ==> (#[trigger] r@[i]).tick == tick,
{
    let mut out: Vec<DecisionEvent> = Vec::new();
    let mut i: usize = 0;
    while i < decisions.len()
        invariant
            i <= decisions@.len(),
            out@.map_values(|e: DecisionEvent| event_view(e)) == reports_upto(tick, decisions@, i as nat),
            forall|x: int, y: int| 0 <= x < y < out@.len() ==> (#[trigger] out@[x]).agent_id <= (#[trigger] out@[y]).agent_id,
            forall|x: int| 0 <= x < out@.len() ==> (#[trigger] out@[x]).tick == tick,
        decreases decisions@.len() - i,
    {
        let d = &decisions[i];
        let node = match &d.outcome.decisive_node {
            Some(n) => Some(n.clone()),
            None => None,
        };
        let e = DecisionEvent {
            tick,
            agent_id: d.agent_id,
            detail: with_decimal("population:", d.population as u64),
            decisive_node: node,
        };
        let mut p: usize = 0;
        while p < out.len() && out[p].agent_id <= e.agent_id
            invariant
                p <= out@.len(),
                forall|k: int| 0 <= k < p ==> (#[trigger] out@[k]).agent_id <= e.agent_id,
            decreases out@.len() - p,
        {
            p = p + 1;
        }
        let ghost before = out@;
        let ghost bv = before.map_values(|x: DecisionEvent| event_view(x));
        proof {
            assert(event_view(e) == report_of(tick, decisions@[i as int]));
            assert forall|k: int| 0 <= k < p implies (#[trigger] bv[k]).1 <= event_view(e).1 by {
                assert(bv[k] == event_view(before[k]));
            }
            if p < before.len() {
                assert(bv[p as int] == event_view(before[p as int]));
            }
            lemma_insert_by_agent_at(bv, event_view(e), p as int);
        }
        out.insert(p, e);
        proof {
            let after = out@;
            assert(after.map_values(|x: DecisionEvent| event_view(x)) =~= bv.insert(p as int, event_view(e)));
            assert forall|x: int, y: int| 0 <= x < y < after.len() implies (#[trigger] after[x]).agent_id <= (
            #[trigger] after[y]).agent_id by {
                if y < p {
                    assert(after[x] == before[x] && after[y] == before[y]);
                } else if y == p {
                    assert(after[x] == before[x]);
                } else if x < p {
                    assert(after[x] == before[x] && after[y] == before[y - 1]);
                    assert(before[p as int].agent_id <= before[y - 1].agent_id || y - 1 == p);
                } else if x == p {
                    assert(after[y] == before[y - 1]);
                    assert(before[p as int].agent_id <= before[y - 1].agent_id || y - 1 == p);
                } else {
                    assert(after[x] == before[x - 1] && after[y] == before[y - 1]);
                }
            }
            assert forall|x: int| 0 <= x < after.len() implies (#[trigger] after[x]).tick == tick by {
                if x < p {
                    assert(after[x] == before[x]);
                } else if x > p {
                    assert(after[x] == before[x - 1]);
                }
            }
        }
        i = i + 1;
    }
    out
}

} // verus!
