//! Typed perception snapshots, and how a snapshot feeds a brain's decision
//! context.
//!
//! Each observation sets the context entries its channel names; later
//! observations overwrite earlier ones, so the context reflects a snapshot in
//! observation order.

use vstd::prelude::*;
use crate::blackboard::{BlackboardValueV1, value_view};
use crate::ids::AgentId;
use crate::keyed::{lemma_masked_len, masked, TextMap, U64Map};
use crate::text::{
    compare_str, lemma_text_lt_asymmetric, lemma_text_lt_irreflexive, lemma_text_lt_transitive, owned, text_lt, TextOrder,
};

verus! {

/// The perception schema version this library reads.
pub const PERCEPTION_SCHEMA_VERSION: u32 = 1;

/// What sense an observation came from.
#[derive(Clone, Copy, Debug, PartialEq, Eq, PartialOrd, Ord, Structural)]
pub enum ObservationChannelV1 {
    VisionAgent,
    Hearing,
    Touch,
    Density,
    FlowSpeed,
    SemanticDistance,
    GroupExtent,
    NearestFriend,
    NearestThreat,
    AttentionTarget,
}

/// What an observation carries.
#[derive(Clone, Debug, PartialEq, Eq)]
pub enum PerceptionValueV1 {
    Bool(bool),
    NumberI32(i32),
    Agent(AgentId),
    Text(String),
}

/// One observation of a snapshot.
#[derive(Clone, Debug, PartialEq, Eq)]
pub struct ObservationV1 {
    pub channel: ObservationChannelV1,
    pub value: PerceptionValueV1,
    pub source_agent_id: Option<AgentId>,
    pub key: Option<String>,
}

/// A remembered observation and when it is forgotten.
#[derive(Clone, Debug, PartialEq, Eq)]
pub struct MemoryEntryV1 {
    pub key: String,
    pub value: PerceptionValueV1,
    pub expires_tick: u64,
}

/// Everything one agent perceived on one tick.
#[derive(Clone, Debug, PartialEq, Eq)]
pub struct PerceptionSnapshotV1 {
    pub schema_version: u32,
    pub agent_id: AgentId,
    pub tick: u64,
    pub observations: Vec<ObservationV1>,
    pub memory: Vec<MemoryEntryV1>,
    pub degraded_evidence: Option<String>,
}

/// A decision context as perception writes it: boolean and numeric
/// observations, blackboard values (by their comparable view), and heard
/// events.
pub type ContextView = (Map<Seq<char>, bool>, Map<Seq<char>, i32>, Map<Seq<char>, (int, int, Seq<char>)>, Set<Seq<char>>);

/// The blackboard values of `board`, by their comparable view.
pub open spec fn board_view(board: TextMap<BlackboardValueV1>) -> Map<Seq<char>, (int, int, Seq<char>)> {
    board.as_map().map_values(|v: BlackboardValueV1| value_view(v))
}

/// The context after an agent observation on a channel named `name`.
pub open spec fn with_agent(c: ContextView, name: Seq<char>, agent: AgentId) -> ContextView {
    (c.0.insert(name, true), c.1, c.2.insert(name, (3, agent.0 as int, Seq::empty())), c.3)
}

/// The context after a numeric observation stored under `name` and, on the
/// blackboard, under `board_key`.
pub open spec fn with_number(c: ContextView, name: Seq<char>, board_key: Seq<char>, value: i32) -> ContextView {
    (c.0, c.1.insert(name, value), c.2.insert(board_key, (1, value as int, Seq::empty())), c.3)
}

/// The context after one observation.
pub open spec fn perceive(c: ContextView, o: ObservationV1) -> ContextView {
    match (o.channel, o.value) {
        (ObservationChannelV1::VisionAgent, PerceptionValueV1::Agent(a)) => with_agent(c, "vision_agent"@, a),
        (ObservationChannelV1::Touch, PerceptionValueV1::Agent(a)) => with_agent(c, "touch_contact"@, a),
        (ObservationChannelV1::NearestThreat, PerceptionValueV1::Agent(a)) => with_agent(c, "threat_visible"@, a),
        (ObservationChannelV1::Hearing, PerceptionValueV1::Text(e)) => (
            c.0.insert("heard_event"@, true),
            c.1,
            c.2.insert("last_heard_event"@, (4, 0, e@)),
            c.3.insert(e@),
        ),
        (ObservationChannelV1::Density, PerceptionValueV1::NumberI32(v)) => with_number(
            c,
            "perception_density"@,
            "perception_density"@,
            v,
        ),
        (ObservationChannelV1::FlowSpeed, PerceptionValueV1::NumberI32(v)) => with_number(
            c,
            "perception_flow_speed"@,
            "perception_flow_speed"@,
            v,
        ),
        (ObservationChannelV1::GroupExtent, PerceptionValueV1::NumberI32(v)) => with_number(
            c,
            "group_extent"@,
            "group_extent"@,
            v,
        ),
        (ObservationChannelV1::SemanticDistance, PerceptionValueV1::NumberI32(v)) => with_number(
            c,
            "semantic_distance"@,
            match o.key {
                Some(k) => k@,
                None => "semantic_distance"@,
            },
            v,
        ),
        _ => c,
    }
}

/// The context after the observations `os`, in order.
pub open spec fn perceive_all(c: ContextView, os: Seq<ObservationV1>) -> ContextView
    decreases os.len(),
{
    if os.len() == 0 {
        c
    } else {
        perceive(perceive_all(c, os.drop_last()), os.last())
    }
}

/// The context the four collections hold.
pub open spec fn context_view(
    bools: TextMap<bool>,
    numbers: TextMap<i32>,
    board: TextMap<BlackboardValueV1>,
    events: TextMap<()>,
) -> ContextView {
    (bools.as_map(), numbers.as_map(), board_view(board), events.as_map().dom())
}

fn set_board(board: &mut TextMap<BlackboardValueV1>, key: String, value: BlackboardValueV1)
    requires
        old(board).wf(),
    ensures
        final(board).wf(),
        board_view(*final(board)) == board_view(*old(board)).insert(key@, value_view(value)),
{
    let ghost k = key@;
    board.insert(key, value);
    proof {
        assert(board_view(*board) =~= board_view(*old(board)).insert(k, value_view(value)));
    }
}

/// Feed a perception snapshot into a decision context: each observation, in
/// order, sets the entries its channel names.
pub fn apply_perception_to_context(
    snapshot: &PerceptionSnapshotV1,
    bool_observations: &mut TextMap<bool>,
    number_observations: &mut TextMap<i32>,
    typed_blackboard: &mut TextMap<BlackboardValueV1>,
    events: &mut TextMap<()>,
)
    requires
        old(bool_observations).wf(),
        old(number_observations).wf(),
        old(typed_blackboard).wf(),
        old(events).wf(),
    ensures
        final(bool_observations).wf(),
        final(number_observations).wf(),
        final(typed_blackboard).wf(),
        final(events).wf(),
        context_view(*final(bool_observations), *final(number_observations), *final(typed_blackboard), *final(events))
            == perceive_all(
            context_view(*old(bool_observations), *old(number_observations), *old(typed_blackboard), *old(events)),
            snapshot.observations@,
        ),
{
    let ghost start = context_view(*bool_observations, *number_observations, *typed_blackboard, *events);
    let os = &snapshot.observations;
    let mut i: usize = 0;
    while i < os.len()
        invariant
            bool_observations.wf(),
            number_observations.wf(),
            typed_blackboard.wf(),
            events.wf(),
            i <= os@.len(),
            context_view(*bool_observations, *number_observations, *typed_blackboard, *events) == perceive_all(
                start,
                os@.take(i as int),
            ),
        decreases os@.len() - i,
    {
        let o = &os[i];
        let ghost before = context_view(*bool_observations, *number_observations, *typed_blackboard, *events);
        match (o.channel, &o.value) {
            (ObservationChannelV1::VisionAgent, PerceptionValueV1::Agent(a)) => {
                bool_observations.insert(owned("vision_agent"), true);
                set_board(typed_blackboard, owned("vision_agent"), BlackboardValueV1::AgentId(*a));
            },
            (ObservationChannelV1::Touch, PerceptionValueV1::Agent(a)) => {
                bool_observations.insert(owned("touch_contact"), true);
                set_board(typed_blackboard, owned("touch_contact"), BlackboardValueV1::AgentId(*a));
            },
            (ObservationChannelV1::NearestThreat, PerceptionValueV1::Agent(a)) => {
                bool_observations.insert(owned("threat_visible"), true);
                set_board(typed_blackboard, owned("threat_visible"), BlackboardValueV1::AgentId(*a));
            },
            (ObservationChannelV1::Hearing, PerceptionValueV1::Text(e)) => {
                bool_observations.insert(owned("heard_event"), true);
                events.insert(e.clone(), ());
                set_board(typed_blackboard, owned("last_heard_event"), BlackboardValueV1::Text(e.clone()));
            },
            (ObservationChannelV1::Density, PerceptionValueV1::NumberI32(v)) => {
                number_observations.insert(owned("perception_density"), *v);
                set_board(typed_blackboard, owned("perception_density"), BlackboardValueV1::NumberI32(*v));
            },
            (ObservationChannelV1::FlowSpeed, PerceptionValueV1::NumberI32(v)) => {
                number_observations.insert(owned("perception_flow_speed"), *v);
                set_board(typed_blackboard, owned("perception_flow_speed"), BlackboardValueV1::NumberI32(*v));
            },
            (ObservationChannelV1::GroupExtent, PerceptionValueV1::NumberI32(v)) => {
                number_observations.insert(owned("group_extent"), *v);
                set_board(typed_blackboard, owned("group_extent"), BlackboardValueV1::NumberI32(*v));
            },
            (ObservationChannelV1::SemanticDistance, PerceptionValueV1::NumberI32(v)) => {
                number_observations.insert(owned("semantic_distance"), *v);
                let board_key = match &o.key {
                    Some(k) => k.clone(),
                    None => owned("semantic_distance"),
                };
                set_board(typed_blackboard, board_key, BlackboardValueV1::NumberI32(*v));
            },
            _ => {},
        }
        proof {
            let t = os@.take(i + 1);
            assert(t.drop_last() =~= os@.take(i as int));
            assert(t.last() == os@[i as int]);
            assert(events.as_map().dom() =~= perceive(before, os@[i as int]).3);
            assert(context_view(*bool_observations, *number_observations, *typed_blackboard, *events) =~= perceive(
                before,
                os@[i as int],
            ));
        }
        i = i + 1;
    }
    assert(os@.take(os@.len() as int) =~= os@);
}

/// Perception only adds to a context: every entry present before is present
/// after, and no heard event is forgotten.
pub proof fn lemma_perception_only_adds(c: ContextView, os: Seq<ObservationV1>)
    ensures
        c.0.dom().subset_of(perceive_all(c, os).0.dom()),
        c.1.dom().subset_of(perceive_all(c, os).1.dom()),
        c.2.dom().subset_of(perceive_all(c, os).2.dom()),
        c.3.subset_of(perceive_all(c, os).3),
    decreases os.len(),
{
    if os.len() > 0 {
        lemma_perception_only_adds(c, os.drop_last());
    }
}

// ---------------------------------------------------------------------------
// The perception engine
// ---------------------------------------------------------------------------

impl PerceptionValueV1 {
    /// An exact copy.
    pub fn duplicate(&self) -> (r: Self)
        ensures
            r == *self,
    {
        match self {
            PerceptionValueV1::Bool(b) => PerceptionValueV1::Bool(*b),
            PerceptionValueV1::NumberI32(n) => PerceptionValueV1::NumberI32(*n),
            PerceptionValueV1::Agent(a) => PerceptionValueV1::Agent(*a),
            PerceptionValueV1::Text(t) => PerceptionValueV1::Text(t.clone()),
        }
    }
}

impl MemoryEntryV1 {
    /// An exact copy.
    pub fn duplicate(&self) -> (r: Self)
        ensures
            r == *self,
    {
        MemoryEntryV1 { key: self.key.clone(), value: self.value.duplicate(), expires_tick: self.expires_tick }
    }
}

/// The pair of two agents, smaller ID first.
pub open spec fn ordered_pair(first: AgentId, second: AgentId) -> (u64, u64) {
    if first.0 <= second.0 {
        (first.0, second.0)
    } else {
        (second.0, first.0)
    }
}

fn pair_of(first: AgentId, second: AgentId) -> (r: (u64, u64))
    ensures
        r == ordered_pair(first, second),
{
    if first.0 <= second.0 {
        (first.0, second.0)
    } else {
        (second.0, first.0)
    }
}

/// The position of `p` in `pairs`, if present.
fn pair_position(pairs: &Vec<(u64, u64)>, p: (u64, u64)) -> (r: Option<usize>)
    ensures
        r is None <==> !pairs@.contains(p),
        r matches Some(i) ==> i < pairs@.len() && pairs@[i as int] == p,
{
    let mut i: usize = 0;
    while i < pairs.len()
        invariant
            i <= pairs@.len(),
            forall|j: int| 0 <= j < i ==> pairs@[j] != p,
        decreases pairs@.len() - i,
    {
        if pairs[i].0 == p.0 && pairs[i].1 == p.1 {
            return Some(i);
        }
        i = i + 1;
    }
    None
}

/// Add `p` to a set of pairs held without repeats.
fn add_pair(pairs: &mut Vec<(u64, u64)>, p: (u64, u64))
    requires
        old(pairs)@.no_duplicates(),
    ensures
        final(pairs)@.no_duplicates(),
        final(pairs)@.to_set() == old(pairs)@.to_set().insert(p),
{
    if pair_position(pairs, p).is_none() {
        pairs.push(p);
        proof {
            assert(pairs@ =~= old(pairs)@.push(p));
            old(pairs)@.lemma_push_to_set_commute(p);
            assert(pairs@.no_duplicates()) by {
                assert forall|a: int, b: int| 0 <= a < b < pairs@.len() implies pairs@[a] != pairs@[b] by {
                    if b == old(pairs)@.len() {
                        assert(old(pairs)@.contains(pairs@[a]));
                    }
                }
            }
        }
    } else {
        proof {
            assert(old(pairs)@.to_set() =~= old(pairs)@.to_set().insert(p));
        }
    }
}

/// Remove `p` from a set of pairs held without repeats.
fn drop_pair(pairs: &mut Vec<(u64, u64)>, p: (u64, u64))
    requires
        old(pairs)@.no_duplicates(),
    ensures
        final(pairs)@.no_duplicates(),
        final(pairs)@.to_set() == old(pairs)@.to_set().remove(p),
{
    match pair_position(pairs, p) {
        Some(i) => {
            let ghost before = pairs@;
            pairs.remove(i);
            proof {
                assert(pairs@ =~= before.remove(i as int));
                assert forall|a: int, b: int| 0 <= a < b < pairs@.len() implies pairs@[a] != pairs@[b] by {
                    let a2 = if a < i { a } else { a + 1 };
                    let b2 = if b < i { b } else { b + 1 };
                    assert(pairs@[a] == before[a2] && pairs@[b] == before[b2]);
                }
                assert forall|x: (u64, u64)| pairs@.to_set().contains(x) <==> before.to_set().remove(p).contains(x) by {
                    if pairs@.contains(x) {
                        let j = pairs@.index_of(x);
                        let j2 = if j < i { j } else { j + 1 };
                        assert(before[j2] == x);
                        assert(j2 != i);
                    }
                    if before.contains(x) && x != p {
                        let j = before.index_of(x);
                        if j < i {
                            assert(pairs@[j] == x);
                        } else {
                            assert(j != i);
                            assert(pairs@[j - 1] == x);
                        }
                    }
                }
                assert(pairs@.to_set() =~= before.to_set().remove(p));
            }
        },
        None => {
            proof {
                assert(old(pairs)@.to_set() =~= old(pairs)@.to_set().remove(p));
            }
        },
    }
}

/// Member IDs strictly increasing.
pub open spec fn members_sorted(ms: Seq<AgentId>) -> bool {
    forall|i: int, j: int| 0 <= i < j < ms.len() ==> (#[trigger] ms[i]).0 < (#[trigger] ms[j]).0
}

/// The members, sorted by ID with repeats removed.
fn sorted_members(members: Vec<AgentId>) -> (r: Vec<AgentId>)
    ensures
        members_sorted(r@),
        r@.to_set() == members@.to_set(),
{
    let mut out: Vec<AgentId> = Vec::new();
    let mut i: usize = 0;
    while i < members.len()
        invariant
            i <= members@.len(),
            members_sorted(out@),
            out@.to_set() == members@.take(i as int).to_set(),
        decreases members@.len() - i,
    {
        let x = members[i];
        let mut p: usize = 0;
        while p < out.len() && out[p].0 < x.0
            invariant
                p <= out@.len(),
                forall|j: int| 0 <= j < p ==> (#[trigger] out@[j]).0 < x.0,
            decreases out@.len() - p,
        {
            p = p + 1;
        }
        let ghost before = out@;
        proof {
            assert(members@.take(i + 1) =~= members@.take(i as int).push(x));
            members@.take(i as int).lemma_push_to_set_commute(x);
        }
        if p < out.len() && out[p].0 == x.0 {
            proof {
                assert(out@[p as int] == x);
                assert(out@.to_set().contains(x));
                assert(members@.take(i + 1).to_set() =~= out@.to_set());
            }
        } else {
            out.insert(p, x);
            proof {
                assert(out@ =~= before.insert(p as int, x));
                assert forall|a: int, b: int| 0 <= a < b < out@.len() implies (#[trigger] out@[a]).0 < (#[trigger] out@[b]).0 by {
                    if b < p {
                        assert(out@[a] == before[a] && out@[b] == before[b]);
                    } else if b == p {
                        assert(out@[a] == before[a]);
                    } else if a < p {
                        assert(out@[a] == before[a] && out@[b] == before[b - 1]);
                        assert(before[b - 1].0 >= x.0 || b - 1 < p);
                    } else if a == p {
                        assert(out@[b] == before[b - 1]);
                        assert(before[p as int].0 > x.0);
                        if b - 1 > p {
                            assert(before[p as int].0 < before[b - 1].0);
                        }
                    } else {
                        assert(out@[a] == before[a - 1] && out@[b] == before[b - 1]);
                    }
                }
                assert forall|y: AgentId| out@.to_set().contains(y) <==> before.to_set().insert(x).contains(y) by {
                    if out@.contains(y) {
                        let j = out@.index_of(y);
                        if j < p {
                            assert(before[j] == y);
                        } else if j > p {
                            assert(before[j - 1] == y);
                        }
                    }
                    if before.contains(y) {
                        let j = before.index_of(y);
                        if j < p {
                            assert(out@[j] == y);
                        } else {
                            assert(out@[j + 1] == y);
                        }
                    }
                    if y == x {
                        assert(out@[p as int] == x);
                    }
                }
                assert(out@.to_set() =~= before.to_set().insert(x));
            }
        }
        i = i + 1;
    }
    assert(members@.take(members@.len() as int) =~= members@);
    out
}

/// The state perception reads besides the scene: groups, friendships,
/// threats, touch and hearing events, semantic distances, attention targets
/// and each agent's memory, with the memory capacity and the number of
/// observations a snapshot may hold.
pub struct PerceptionEngine {
    memory_capacity: usize,
    observation_budget: usize,
    groups: TextMap<Vec<AgentId>>,
    friendship: Vec<(u64, u64)>,
    threats: Vec<(u64, u64)>,
    touch_events: Vec<(u64, u64)>,
    hearing_events: U64Map<TextMap<()>>,
    semantic_distances: U64Map<TextMap<i32>>,
    attention_targets: U64Map<u64>,
    memory: U64Map<TextMap<MemoryEntryV1>>,
}

impl PerceptionEngine {
    pub closed spec fn capacity(&self) -> nat {
        self.memory_capacity as nat
    }

    pub closed spec fn budget(&self) -> nat {
        self.observation_budget as nat
    }

    /// The groups by ID, members sorted.
    pub closed spec fn group_table(&self) -> TextMap<Vec<AgentId>> {
        self.groups
    }

    /// Friend pairs, smaller ID first.
    pub closed spec fn friend_pairs(&self) -> Set<(u64, u64)> {
        self.friendship@.to_set()
    }

    /// (observer, threat) pairs.
    pub closed spec fn threat_pairs(&self) -> Set<(u64, u64)> {
        self.threats@.to_set()
    }

    /// Touch pairs, smaller ID first.
    pub closed spec fn touch_pairs(&self) -> Set<(u64, u64)> {
        self.touch_events@.to_set()
    }

    /// The events agent `a` heard, in text order.
    pub closed spec fn heard(&self, a: u64) -> Seq<Seq<char>> {
        if self.hearing_events.as_map().dom().contains(a) {
            self.hearing_events.as_map()[a].keys()
        } else {
            Seq::empty()
        }
    }

    /// The semantic distances agent `a` observes, by semantic ID.
    pub closed spec fn semantic(&self, a: u64) -> Map<Seq<char>, i32> {
        if self.semantic_distances.as_map().dom().contains(a) {
            self.semantic_distances.as_map()[a].as_map()
        } else {
            Map::empty()
        }
    }

    /// The agent each agent attends to.
    pub closed spec fn attention(&self) -> Map<u64, u64> {
        self.attention_targets.as_map()
    }

    /// Agent `a`'s memory entries, in key order.
    pub closed spec fn memory_entries(&self, a: u64) -> Seq<MemoryEntryV1> {
        if self.memory.as_map().dom().contains(a) {
            self.memory.as_map()[a].values()
        } else {
            Seq::empty()
        }
    }

    /// Agent `a`'s memory, by key.
    pub closed spec fn memory_of(&self, a: u64) -> Map<Seq<char>, MemoryEntryV1> {
        if self.memory.as_map().dom().contains(a) {
            self.memory.as_map()[a].as_map()
        } else {
            Map::empty()
        }
    }

    pub closed spec fn wf(&self) -> bool {
        &&& self.groups.wf()
        &&& forall|k: Seq<char>| #[trigger] self.groups.as_map().dom().contains(k) ==> members_sorted(self.groups.as_map()[k]@)
        &&& self.friendship@.no_duplicates()
        &&& self.threats@.no_duplicates()
        &&& self.touch_events@.no_duplicates()
        &&& self.hearing_events.wf()
        &&& forall|a: u64| #[trigger] self.hearing_events.as_map().dom().contains(a) ==> self.hearing_events.as_map()[a].wf()
        &&& self.semantic_distances.wf()
        &&& forall|a: u64| #[trigger] self.semantic_distances.as_map().dom().contains(a) ==> self.semantic_distances.as_map()[a].wf()
        &&& self.attention_targets.wf()
        &&& self.memory.wf()
        &&& forall|a: u64| #[trigger] self.memory.as_map().dom().contains(a) ==> {
            &&& self.memory.as_map()[a].wf()
            &&& self.memory.as_map()[a].keys().len() <= self.memory_capacity
        }
    }

    /// An engine with no perception state.
    pub fn new(memory_capacity: usize, observation_budget: usize) -> (r: Self)
        ensures
            r.wf(),
            r.capacity() == memory_capacity,
            r.budget() == observation_budget,
            r.group_table().keys().len() == 0,
            r.friend_pairs() == Set::<(u64, u64)>::empty(),
            r.threat_pairs() == Set::<(u64, u64)>::empty(),
            r.touch_pairs() == Set::<(u64, u64)>::empty(),
            r.attention() == Map::<u64, u64>::empty(),
            forall|a: u64| #[trigger] r.heard(a).len() == 0 && r.semantic(a) == Map::<Seq<char>, i32>::empty() && r.memory_entries(a).len() == 0,
    {
        let r = PerceptionEngine {
            memory_capacity,
            observation_budget,
            groups: TextMap::new(),
            friendship: Vec::new(),
            threats: Vec::new(),
            touch_events: Vec::new(),
            hearing_events: U64Map::new(),
            semantic_distances: U64Map::new(),
            attention_targets: U64Map::new(),
            memory: U64Map::new(),
        };
        proof {
            assert(r.friendship@.to_set() =~= Set::<(u64, u64)>::empty());
            assert(r.threats@.to_set() =~= Set::<(u64, u64)>::empty());
            assert(r.touch_events@.to_set() =~= Set::<(u64, u64)>::empty());
        }
        r
    }

    /// Set the members of group `group_id`, sorted by ID without repeats.
    pub fn set_group_members(&mut self, group_id: String, members: Vec<AgentId>)
        requires
            old(self).wf(),
        ensures
            final(self).wf(),
            final(self).group_table().as_map().dom() == old(self).group_table().as_map().dom().insert(group_id@),
            final(self).group_table().as_map()[group_id@]@.to_set() == members@.to_set(),
            forall|k: Seq<char>| k != group_id@ && #[trigger] old(self).group_table().as_map().dom().contains(k) ==> final(self).group_table().as_map()[k] == old(self).group_table().as_map()[k],
            final(self).friend_pairs() == old(self).friend_pairs(),
            final(self).threat_pairs() == old(self).threat_pairs(),
            final(self).touch_pairs() == old(self).touch_pairs(),
            final(self).attention() == old(self).attention(),
            forall|a: u64| #[trigger] final(self).heard(a) == old(self).heard(a) && final(self).semantic(a) == old(self).semantic(a) && final(self).memory_entries(a) == old(self).memory_entries(a) && final(self).memory_of(a) == old(self).memory_of(a),
            final(self).capacity() == old(self).capacity() && final(self).budget() == old(self).budget(),
    {
        let sorted = sorted_members(members);
        self.groups.insert(group_id, sorted);
    }

    /// Make `first` and `second` friends, or not.
    pub fn set_friendship(&mut self, first: AgentId, second: AgentId, is_friend: bool)
        requires
            old(self).wf(),
        ensures
            final(self).wf(),
            final(self).friend_pairs() == if is_friend {
                old(self).friend_pairs().insert(ordered_pair(first, second))
            } else {
                old(self).friend_pairs().remove(ordered_pair(first, second))
            },
            final(self).group_table() == old(self).group_table(),
            final(self).threat_pairs() == old(self).threat_pairs(),
            final(self).touch_pairs() == old(self).touch_pairs(),
            final(self).attention() == old(self).attention(),
            forall|a: u64| #[trigger] final(self).heard(a) == old(self).heard(a) && final(self).semantic(a) == old(self).semantic(a) && final(self).memory_entries(a) == old(self).memory_entries(a) && final(self).memory_of(a) == old(self).memory_of(a),
            final(self).capacity() == old(self).capacity() && final(self).budget() == old(self).budget(),
    {
        let p = pair_of(first, second);
        if is_friend {
            add_pair(&mut self.friendship, p);
        } else {
            drop_pair(&mut self.friendship, p);
        }
    }

    /// Make `threat` a threat to `observer`, or not.
    pub fn set_threat(&mut self, observer: AgentId, threat: AgentId, is_threat: bool)
        requires
            old(self).wf(),
        ensures
            final(self).wf(),
            final(self).threat_pairs() == if is_threat {
                old(self).threat_pairs().insert((observer.0, threat.0))
            } else {
                old(self).threat_pairs().remove((observer.0, threat.0))
            },
            final(self).group_table() == old(self).group_table(),
            final(self).friend_pairs() == old(self).friend_pairs(),
            final(self).touch_pairs() == old(self).touch_pairs(),
            final(self).attention() == old(self).attention(),
            forall|a: u64| #[trigger] final(self).heard(a) == old(self).heard(a) && final(self).semantic(a) == old(self).semantic(a) && final(self).memory_entries(a) == old(self).memory_entries(a) && final(self).memory_of(a) == old(self).memory_of(a),
            final(self).capacity() == old(self).capacity() && final(self).budget() == old(self).budget(),
    {
        if is_threat {
            add_pair(&mut self.threats, (observer.0, threat.0));
        } else {
            drop_pair(&mut self.threats, (observer.0, threat.0));
        }
    }

    /// Record that `first` and `second` touch.
    pub fn set_touch_event(&mut self, first: AgentId, second: AgentId)
        requires
            old(self).wf(),
        ensures
            final(self).wf(),
            final(self).touch_pairs() == old(self).touch_pairs().insert(ordered_pair(first, second)),
            final(self).group_table() == old(self).group_table(),
            final(self).friend_pairs() == old(self).friend_pairs(),
            final(self).threat_pairs() == old(self).threat_pairs(),
            final(self).attention() == old(self).attention(),
            forall|a: u64| #[trigger] final(self).heard(a) == old(self).heard(a) && final(self).semantic(a) == old(self).semantic(a) && final(self).memory_entries(a) == old(self).memory_entries(a) && final(self).memory_of(a) == old(self).memory_of(a),
            final(self).capacity() == old(self).capacity() && final(self).budget() == old(self).budget(),
    {
        let p = pair_of(first, second);
        add_pair(&mut self.touch_events, p);
    }

    /// Record that `agent_id` heard `event`.
    pub fn set_hearing_event(&mut self, agent_id: AgentId, event: String)
        requires
            old(self).wf(),
        ensures
            final(self).wf(),
            final(self).heard(agent_id.0).to_set() == old(self).heard(agent_id.0).to_set().insert(event@),
            forall|a: u64| a != agent_id.0 ==> #[trigger] final(self).heard(a) == old(self).heard(a),
            final(self).group_table() == old(self).group_table(),
            final(self).friend_pairs() == old(self).friend_pairs(),
            final(self).threat_pairs() == old(self).threat_pairs(),
            final(self).touch_pairs() == old(self).touch_pairs(),
            final(self).attention() == old(self).attention(),
            forall|a: u64| #[trigger] final(self).semantic(a) == old(self).semantic(a) && final(self).memory_entries(a) == old(self).memory_entries(a) && final(self).memory_of(a) == old(self).memory_of(a),
            final(self).capacity() == old(self).capacity() && final(self).budget() == old(self).budget(),
    {
        let ghost e = event@;
        let mut events = match self.hearing_events.take(agent_id.0) {
            Some(m) => m,
            None => TextMap::new(),
        };
        proof {
            events.lemma_keys_sorted();
        }
        let ghost before = events;
        events.insert(event, ());
        proof {
            events.lemma_keys_sorted();
            assert(events.keys().to_set() =~= events.as_map().dom());
            assert(before.keys().to_set() =~= before.as_map().dom());
        }
        self.hearing_events.put(agent_id.0, events);
        proof {
            assert(self.heard(agent_id.0) == events.keys());
            assert(events.keys().to_set() =~= before.keys().to_set().insert(e));
        }
    }

    /// Set the distance, in millionths, from `agent_id` to the semantic
    /// entity `semantic_id`; a negative distance counts as zero.
    pub fn set_semantic_distance_millionths(&mut self, agent_id: AgentId, semantic_id: String, distance_millionths: i32)
        requires
            old(self).wf(),
        ensures
            final(self).wf(),
            final(self).semantic(agent_id.0) == old(self).semantic(agent_id.0).insert(
                semantic_id@,
                if distance_millionths < 0 { 0i32 } else { distance_millionths },
            ),
            forall|a: u64| a != agent_id.0 ==> #[trigger] final(self).semantic(a) == old(self).semantic(a),
            final(self).group_table() == old(self).group_table(),
            final(self).friend_pairs() == old(self).friend_pairs(),
            final(self).threat_pairs() == old(self).threat_pairs(),
            final(self).touch_pairs() == old(self).touch_pairs(),
            final(self).attention() == old(self).attention(),
            forall|a: u64| #[trigger] final(self).heard(a) == old(self).heard(a) && final(self).memory_entries(a) == old(self).memory_entries(a) && final(self).memory_of(a) == old(self).memory_of(a),
            final(self).capacity() == old(self).capacity() && final(self).budget() == old(self).budget(),
    {
        let d = if distance_millionths < 0 { 0i32 } else { distance_millionths };
        let mut table = match self.semantic_distances.take(agent_id.0) {
            Some(m) => m,
            None => TextMap::new(),
        };
        table.insert(semantic_id, d);
        self.semantic_distances.put(agent_id.0, table);
    }

    /// Make `target` the agent `agent_id` attends to.
    pub fn set_attention_target(&mut self, agent_id: AgentId, target: AgentId)
        requires
            old(self).wf(),
        ensures
            final(self).wf(),
            final(self).attention() == old(self).attention().insert(agent_id.0, target.0),
            final(self).group_table() == old(self).group_table(),
            final(self).friend_pairs() == old(self).friend_pairs(),
            final(self).threat_pairs() == old(self).threat_pairs(),
            final(self).touch_pairs() == old(self).touch_pairs(),
            forall|a: u64| #[trigger] final(self).heard(a) == old(self).heard(a) && final(self).semantic(a) == old(self).semantic(a) && final(self).memory_entries(a) == old(self).memory_entries(a) && final(self).memory_of(a) == old(self).memory_of(a),
            final(self).capacity() == old(self).capacity() && final(self).budget() == old(self).budget(),
    {
        self.attention_targets.put(agent_id.0, target.0);
    }
}

/// `k` is the entry of `m` that expires last, later keys winning ties.
pub open spec fn is_latest(m: Map<Seq<char>, MemoryEntryV1>, k: Seq<char>) -> bool {
    &&& m.dom().contains(k)
    &&& forall|k2: Seq<char>|
        #[trigger] m.dom().contains(k2) && k2 != k ==> m[k2].expires_tick < m[k].expires_tick || (m[k2].expires_tick
            == m[k].expires_tick && text_lt(k2, k))
}

/// The entry of `m` that expires last.
pub open spec fn latest_key(m: Map<Seq<char>, MemoryEntryV1>) -> Seq<char> {
    choose|k: Seq<char>| is_latest(m, k)
}

/// A memory after remembering `e` with room for `cap` entries: `e` replaces
/// the entry under its key, then the entry that expires last is forgotten
/// when there are too many.
pub open spec fn remembered(m: Map<Seq<char>, MemoryEntryV1>, cap: nat, e: MemoryEntryV1) -> Map<
    Seq<char>,
    MemoryEntryV1,
> {
    let inserted = m.insert(e.key@, e);
    if inserted.dom().len() > cap {
        inserted.remove(latest_key(inserted))
    } else {
        inserted
    }
}

proof fn lemma_latest_unique(m: Map<Seq<char>, MemoryEntryV1>, k1: Seq<char>, k2: Seq<char>)
    requires
        is_latest(m, k1),
        is_latest(m, k2),
    ensures
        k1 == k2,
{
    if k1 != k2 {
        assert(m.dom().contains(k2));
        assert(m.dom().contains(k1));
        if m[k1].expires_tick == m[k2].expires_tick {
            lemma_text_lt_asymmetric(k1, k2);
        }
    }
}

/// The position of the entry that expires last, later keys winning ties.
fn latest_position(m: &TextMap<MemoryEntryV1>) -> (r: usize)
    requires
        m.wf(),
        m.keys().len() > 0,
    ensures
        r < m.keys().len(),
        is_latest(m.as_map(), m.keys()[r as int]),
{
    let n = m.len();
    let mut best: usize = 0;
    let mut i: usize = 1;
    while i < n
        invariant
            m.wf(),
            n == m.keys().len(),
            1 <= i <= n,
            best < i,
            forall|j: int|
                0 <= j < i && j != best ==> (#[trigger] m.values()[j]).expires_tick < m.values()[best as int].expires_tick
                    || (m.values()[j].expires_tick == m.values()[best as int].expires_tick && j < best),
        decreases n - i,
    {
        if m.value_at(i).expires_tick >= m.value_at(best).expires_tick {
            best = i;
        }
        i = i + 1;
    }
    proof {
        let ks = m.keys();
        m.lemma_lookup(best as int);
        assert forall|k2: Seq<char>| #[trigger] m.as_map().dom().contains(k2) && k2 != ks[best as int] implies m.as_map()[k2].expires_tick
            < m.as_map()[ks[best as int]].expires_tick || (m.as_map()[k2].expires_tick
            == m.as_map()[ks[best as int]].expires_tick && text_lt(k2, ks[best as int])) by {
            let j = ks.index_of(k2);
            m.lemma_lookup(j);
            assert(j != best);
            if j < best {
                assert(text_lt(ks[j], ks[best as int]));
            }
        }
    }
    best
}

impl PerceptionEngine {
    /// Remember `value` under `key` for agent `agent_id` until
    /// `expires_tick`; when the memory is full, the entry that expires last
    /// is forgotten. An engine without memory remembers nothing.
    pub fn remember(&mut self, agent_id: AgentId, key: String, value: PerceptionValueV1, expires_tick: u64)
        requires
            old(self).wf(),
        ensures
            final(self).wf(),
            old(self).capacity() == 0 ==> final(self).memory_of(agent_id.0) == old(self).memory_of(agent_id.0),
            old(self).capacity() > 0 ==> final(self).memory_of(agent_id.0) == remembered(
                old(self).memory_of(agent_id.0),
                old(self).capacity(),
                MemoryEntryV1 { key, value, expires_tick },
            ),
            forall|a: u64| a != agent_id.0 ==> #[trigger] final(self).memory_of(a) == old(self).memory_of(a)
                && final(self).memory_entries(a) == old(self).memory_entries(a),
            final(self).group_table() == old(self).group_table(),
            final(self).friend_pairs() == old(self).friend_pairs(),
            final(self).threat_pairs() == old(self).threat_pairs(),
            final(self).touch_pairs() == old(self).touch_pairs(),
            final(self).attention() == old(self).attention(),
            forall|a: u64| #[trigger] final(self).heard(a) == old(self).heard(a) && final(self).semantic(a) == old(self).semantic(a),
            final(self).capacity() == old(self).capacity() && final(self).budget() == old(self).budget(),
    {
        if self.memory_capacity == 0 {
            return;
        }
        let ghost entry = MemoryEntryV1 { key, value, expires_tick };
        let ghost before_map = self.memory_of(agent_id.0);
        let mut entries = match self.memory.take(agent_id.0) {
            Some(m) => m,
            None => TextMap::new(),
        };
        proof {
            assert(entries.as_map() == before_map);
            assert(entries.keys().len() <= self.memory_capacity);
        }
        let k = key.clone();
        entries.insert(k, MemoryEntryV1 { key, value, expires_tick });
        let ghost inserted = entries.as_map();
        proof {
            assert(inserted == before_map.insert(entry.key@, entry));
            entries.lemma_dom_len();
        }
        if entries.len() > self.memory_capacity {
            let p = latest_position(&entries);
            let ghost lk = entries.keys()[p as int];
            let _ = entries.remove_at(p);
            proof {
                lemma_latest_unique(inserted, lk, latest_key(inserted));
            }
        }
        proof {
            assert(entries.as_map() == remembered(before_map, self.memory_capacity as nat, entry));
            entries.lemma_dom_len();
        }
        self.memory.put(agent_id.0, entries);
    }

    /// The members of the first group, in ID order, that has `agent_id`.
    pub fn group_for(&self, agent_id: AgentId) -> (r: Option<&Vec<AgentId>>)
        requires
            self.wf(),
        ensures
            r is None <==> forall|i: int|
                0 <= i < self.group_table().keys().len() ==> !(#[trigger] self.group_table().values()[i])@.contains(agent_id),
            r matches Some(ms) ==> exists|i: int|
                0 <= i < self.group_table().keys().len() && *ms == self.group_table().values()[i] && ms@.contains(agent_id)
                    && forall|j: int| 0 <= j < i ==> !(#[trigger] self.group_table().values()[j])@.contains(agent_id),
    {
        let n = self.groups.len();
        let mut i: usize = 0;
        while i < n
            invariant
                self.groups.wf(),
                n == self.groups.keys().len(),
                i <= n,
                forall|j: int| 0 <= j < i ==> !(#[trigger] self.groups.values()[j])@.contains(agent_id),
            decreases n - i,
        {
            let ms = self.groups.value_at(i);
            let mut found = false;
            let mut j: usize = 0;
            while j < ms.len()
                invariant
                    j <= ms@.len(),
                    found <==> ms@.take(j as int).contains(agent_id),
                decreases ms@.len() - j,
            {
                proof {
                    assert(ms@.take(j + 1) =~= ms@.take(j as int).push(ms@[j as int]));
                }
                if ms[j].0 == agent_id.0 {
                    found = true;
                    proof {
                        assert(ms@.take(j + 1)[j as int] == agent_id);
                    }
                } else {
                    proof {
                        assert(ms@[j as int] != agent_id);
                        if ms@.take(j + 1).contains(agent_id) {
                            let q = ms@.take(j + 1).index_of(agent_id);
                            if q < j {
                                assert(ms@.take(j as int)[q] == agent_id);
                            }
                        }
                    }
                }
                j = j + 1;
            }
            proof {
                assert(ms@.take(ms@.len() as int) =~= ms@);
            }
            if found {
                proof {
                    assert(*ms == self.groups.values()[i as int]);
                    assert(ms@.contains(agent_id));
                    assert(0 <= i < self.group_table().keys().len() && *ms == self.group_table().values()[i as int]);
                }
                return Some(ms);
            }
            i = i + 1;
        }
        None
    }
}

/// What an observation is ordered by: channel, source agent (none first),
/// key (none first, then text order), then value (by kind, then number or
/// text).
pub type ObservationView = (int, int, int, Seq<char>, int, int, Seq<char>);

pub open spec fn channel_rank(c: ObservationChannelV1) -> int {
    match c {
        ObservationChannelV1::VisionAgent => 0,
        ObservationChannelV1::Hearing => 1,
        ObservationChannelV1::Touch => 2,
        ObservationChannelV1::Density => 3,
        ObservationChannelV1::FlowSpeed => 4,
        ObservationChannelV1::SemanticDistance => 5,
        ObservationChannelV1::GroupExtent => 6,
        ObservationChannelV1::NearestFriend => 7,
        ObservationChannelV1::NearestThreat => 8,
        ObservationChannelV1::AttentionTarget => 9,
    }
}

/// The ordering view of an observation.
pub open spec fn observation_view(o: ObservationV1) -> ObservationView {
    let source = match o.source_agent_id {
        None => -1int,
        Some(a) => a.0 as int,
    };
    let (key_tag, key_text) = match o.key {
        None => (0int, Seq::<char>::empty()),
        Some(k) => (1int, k@),
    };
    let (tag, num, text) = match o.value {
        PerceptionValueV1::Bool(b) => (0int, if b { 1int } else { 0int }, Seq::<char>::empty()),
        PerceptionValueV1::NumberI32(n) => (1int, n as int, Seq::<char>::empty()),
        PerceptionValueV1::Agent(a) => (2int, a.0 as int, Seq::<char>::empty()),
        PerceptionValueV1::Text(t) => (3int, 0int, t@),
    };
    (channel_rank(o.channel), source, key_tag, key_text, tag, num, text)
}

/// Lexicographic order on observation views.
pub open spec fn view_before(a: ObservationView, b: ObservationView) -> bool {
    ||| a.0 < b.0
    ||| (a.0 == b.0 && a.1 < b.1)
    ||| (a.0 == b.0 && a.1 == b.1 && a.2 < b.2)
    ||| (a.0 == b.0 && a.1 == b.1 && a.2 == b.2 && text_lt(a.3, b.3))
    ||| (a.0 == b.0 && a.1 == b.1 && a.2 == b.2 && a.3 == b.3 && a.4 < b.4)
    ||| (a.0 == b.0 && a.1 == b.1 && a.2 == b.2 && a.3 == b.3 && a.4 == b.4 && a.5 < b.5)
    ||| (a.0 == b.0 && a.1 == b.1 && a.2 == b.2 && a.3 == b.3 && a.4 == b.4 && a.5 == b.5 && text_lt(a.6, b.6))
}

/// Views in order: no view comes after one it sorts before.
pub open spec fn views_sorted(s: Seq<ObservationView>) -> bool {
    forall|i: int, j: int| 0 <= i < j < s.len() ==> !view_before(#[trigger] s[j], #[trigger] s[i])
}

pub open spec fn views_of(s: Seq<ObservationV1>) -> Seq<ObservationView> {
    s.map_values(|o: ObservationV1| observation_view(o))
}

proof fn lemma_view_before_irreflexive(a: ObservationView)
    ensures
        !view_before(a, a),
{
    lemma_text_lt_irreflexive(a.3);
    lemma_text_lt_irreflexive(a.6);
}

proof fn lemma_view_before_transitive(a: ObservationView, b: ObservationView, c: ObservationView)
    requires
        view_before(a, b),
        view_before(b, c),
    ensures
        view_before(a, c),
{
    if a.0 == b.0 && b.0 == c.0 && a.1 == b.1 && b.1 == c.1 && a.2 == b.2 && b.2 == c.2 {
        if text_lt(a.3, b.3) && text_lt(b.3, c.3) {
            lemma_text_lt_transitive(a.3, b.3, c.3);
        }
        if a.3 == b.3 && b.3 == c.3 && a.4 == b.4 && b.4 == c.4 && a.5 == b.5 && b.5 == c.5 && text_lt(a.6, b.6)
            && text_lt(b.6, c.6) {
            lemma_text_lt_transitive(a.6, b.6, c.6);
        }
    }
}

fn channel_index(c: ObservationChannelV1) -> (r: u8)
    ensures
        r as int == channel_rank(c),
{
    match c {
        ObservationChannelV1::VisionAgent => 0,
        ObservationChannelV1::Hearing => 1,
        ObservationChannelV1::Touch => 2,
        ObservationChannelV1::Density => 3,
        ObservationChannelV1::FlowSpeed => 4,
        ObservationChannelV1::SemanticDistance => 5,
        ObservationChannelV1::GroupExtent => 6,
        ObservationChannelV1::NearestFriend => 7,
        ObservationChannelV1::NearestThreat => 8,
        ObservationChannelV1::AttentionTarget => 9,
    }
}

/// Whether `a` sorts before `b`.
fn observation_precedes(a: &ObservationV1, b: &ObservationV1) -> (r: bool)
    ensures
        r == view_before(observation_view(*a), observation_view(*b)),
{
    let ca = channel_index(a.channel);
    let cb = channel_index(b.channel);
    if ca != cb {
        return ca < cb;
    }
    match (a.source_agent_id, b.source_agent_id) {
        (None, Some(_)) => {
            return true;
        },
        (Some(_), None) => {
            return false;
        },
        (Some(x), Some(y)) => {
            if x.0 != y.0 {
                return x.0 < y.0;
            }
        },
        (None, None) => {},
    }
    match (&a.key, &b.key) {
        (None, Some(_)) => {
            return true;
        },
        (Some(_), None) => {
            return false;
        },
        (Some(x), Some(y)) => {
            match compare_str(x.as_str(), y.as_str()) {
                TextOrder::Less => {
                    return true;
                },
                TextOrder::Greater => {
                    proof {
                        lemma_text_lt_asymmetric(y@, x@);
                    }
                    return false;
                },
                TextOrder::Equal => {},
            }
        },
        (None, None) => {},
    }
    match (&a.value, &b.value) {
        (PerceptionValueV1::Bool(x), PerceptionValueV1::Bool(y)) => !*x && *y,
        (PerceptionValueV1::NumberI32(x), PerceptionValueV1::NumberI32(y)) => *x < *y,
        (PerceptionValueV1::Agent(x), PerceptionValueV1::Agent(y)) => x.0 < y.0,
        (PerceptionValueV1::Text(x), PerceptionValueV1::Text(y)) => {
            match compare_str(x.as_str(), y.as_str()) {
                TextOrder::Less => true,
                _ => false,
            }
        },
        (PerceptionValueV1::Bool(_), _) => true,
        (PerceptionValueV1::NumberI32(_), PerceptionValueV1::Bool(_)) => false,
        (PerceptionValueV1::NumberI32(_), _) => true,
        (PerceptionValueV1::Agent(_), PerceptionValueV1::Text(_)) => true,
        (PerceptionValueV1::Agent(_), _) => false,
        (PerceptionValueV1::Text(_), _) => false,
    }
}

/// Put observations in order; the result holds the same observations,
/// counted by view.
fn sort_observations(v: Vec<ObservationV1>) -> (r: Vec<ObservationV1>)
    ensures
        views_of(r@).to_multiset() == views_of(v@).to_multiset(),
        views_sorted(views_of(r@)),
{
    let ghost all = views_of(v@).to_multiset();
    let mut rest = v;
    let mut out: Vec<ObservationV1> = Vec::new();
    proof {
        assert(views_of(out@) =~= Seq::<ObservationView>::empty());
        vstd::seq_lib::to_multiset_len(views_of(out@));
        vstd::multiset::lemma_multiset_empty_len(views_of(out@).to_multiset());
        assert(views_of(out@).to_multiset() =~= vstd::multiset::Multiset::empty());
        assert(views_of(out@).to_multiset().add(views_of(rest@).to_multiset()) =~= all);
    }
    while rest.len() > 0
        invariant
            views_of(out@).to_multiset().add(views_of(rest@).to_multiset()) == all,
            views_sorted(views_of(out@)),
        decreases rest@.len(),
    {
        let ghost before_rest = rest@;
        let x = rest.pop().unwrap();
        let ghost xv = observation_view(x);
        proof {
            assert(before_rest =~= rest@.push(x));
            assert(views_of(before_rest) =~= views_of(rest@).push(xv));
        }
        let mut p: usize = 0;
        while p < out.len() && !observation_precedes(&x, &out[p])
            invariant
                p <= out@.len(),
                xv == observation_view(x),
                forall|i: int| 0 <= i < p ==> !view_before(xv, #[trigger] views_of(out@)[i]),
            decreases out@.len() - p,
        {
            p = p + 1;
        }
        let ghost old_views = views_of(out@);
        proof {
            if p < out@.len() {
                assert(view_before(xv, old_views[p as int]));
            }
        }
        out.insert(p, x);
        proof {
            let nk = views_of(out@);
            assert(nk =~= old_views.insert(p as int, xv));
            assert forall|i: int, j: int| 0 <= i < j < nk.len() implies !view_before(#[trigger] nk[j], #[trigger] nk[i]) by {
                if j < p {
                    assert(nk[i] == old_views[i] && nk[j] == old_views[j]);
                } else if j == p {
                    assert(nk[i] == old_views[i]);
                } else if i < p {
                    assert(nk[i] == old_views[i] && nk[j] == old_views[j - 1]);
                } else if i == p {
                    assert(nk[j] == old_views[j - 1]);
                    if view_before(old_views[j - 1], xv) {
                        lemma_view_before_transitive(old_views[j - 1], xv, old_views[p as int]);
                        if j - 1 == p {
                            lemma_view_before_irreflexive(old_views[p as int]);
                        }
                    }
                } else {
                    assert(nk[i] == old_views[i - 1] && nk[j] == old_views[j - 1]);
                }
            }
            vstd::seq_lib::to_multiset_insert(old_views, p as int, xv);
            vstd::seq_lib::to_multiset_build(views_of(rest@), xv);
            assert(views_of(out@).to_multiset() == old_views.to_multiset().insert(xv));
            assert(views_of(before_rest).to_multiset() == views_of(rest@).to_multiset().insert(xv));
            assert(views_of(out@).to_multiset().add(views_of(rest@).to_multiset()) =~= all);
        }
    }
    proof {
        assert(views_of(rest@) =~= Seq::<ObservationView>::empty());
        vstd::seq_lib::to_multiset_len(views_of(rest@));
        vstd::multiset::lemma_multiset_empty_len(views_of(rest@).to_multiset());
        assert(views_of(rest@).to_multiset() =~= vstd::multiset::Multiset::empty());
        assert(views_of(out@).to_multiset() =~= all);
    }
    out
}

/// What the scene shows an agent of one neighbor: whether the agent sees it
/// and whether their bodies are within touching range.
#[derive(Clone, Copy, Debug)]
pub struct NeighborSenseV1 {
    pub agent_id: AgentId,
    pub visible: bool,
    pub within_touch_range: bool,
}

/// The view of an observation of agent `a` on channel `ch`.
pub open spec fn agent_view(ch: ObservationChannelV1, a: AgentId) -> ObservationView {
    (channel_rank(ch), a.0 as int, 0, Seq::empty(), 2, a.0 as int, Seq::empty())
}

/// The view of a number on channel `ch`.
pub open spec fn number_view(ch: ObservationChannelV1, n: i32) -> ObservationView {
    (channel_rank(ch), -1, 0, Seq::empty(), 1, n as int, Seq::empty())
}

/// The view of the semantic distance `d` to `id`.
pub open spec fn semantic_view(id: Seq<char>, d: i32) -> ObservationView {
    (channel_rank(ObservationChannelV1::SemanticDistance), -1, 1, id, 1, d as int, Seq::empty())
}

/// The view of a heard event.
pub open spec fn heard_view(event: Seq<char>) -> ObservationView {
    (channel_rank(ObservationChannelV1::Hearing), -1, 0, Seq::empty(), 3, 0, event)
}

/// The memory entries that have not expired at `tick`, in order.
pub open spec fn unexpired(s: Seq<MemoryEntryV1>, tick: u64) -> Seq<MemoryEntryV1> {
    masked(s, Seq::new(s.len(), |i: int| s[i].expires_tick >= tick))
}

/// The message of a snapshot cut to the observation budget.
pub open spec fn budget_message() -> Seq<char> {
    "observation budget reduced M6 evidence for this tier"@
}

fn agent_observation(ch: ObservationChannelV1, a: AgentId) -> (r: ObservationV1)
    ensures
        observation_view(r) == agent_view(ch, a),
{
    ObservationV1 { channel: ch, value: PerceptionValueV1::Agent(a), source_agent_id: Some(a), key: None }
}

fn number_observation(ch: ObservationChannelV1, n: i32) -> (r: ObservationV1)
    ensures
        observation_view(r) == number_view(ch, n),
{
    ObservationV1 { channel: ch, value: PerceptionValueV1::NumberI32(n), source_agent_id: None, key: None }
}

impl PerceptionEngine {
    /// The IDs agent `a` has semantic distances to, in text order.
    pub closed spec fn semantic_keys(&self, a: u64) -> Seq<Seq<char>> {
        if self.semantic_distances.as_map().dom().contains(a) {
            self.semantic_distances.as_map()[a].keys()
        } else {
            Seq::empty()
        }
    }

    /// Agent `a` belongs to a group.
    pub open spec fn in_group(&self, a: AgentId) -> bool {
        exists|i: int| 0 <= i < self.group_table().keys().len() && (#[trigger] self.group_table().values()[i])@.contains(a)
    }

    /// What agent `a` senses of one neighbor: the neighbor if visible, and
    /// a touch if a touch was recorded or the bodies are within range.
    pub open spec fn sense_views(&self, a: AgentId, n: NeighborSenseV1) -> Seq<ObservationView> {
        (if n.visible {
            seq![agent_view(ObservationChannelV1::VisionAgent, n.agent_id)]
        } else {
            Seq::empty()
        }) + (if self.touch_pairs().contains(ordered_pair(a, n.agent_id)) || n.within_touch_range {
            seq![agent_view(ObservationChannelV1::Touch, n.agent_id)]
        } else {
            Seq::empty()
        })
    }

    pub open spec fn neighbor_views(&self, a: AgentId, ns: Seq<NeighborSenseV1>) -> Seq<ObservationView>
        decreases ns.len(),
    {
        if ns.len() == 0 {
            Seq::empty()
        } else {
            self.neighbor_views(a, ns.drop_last()) + self.sense_views(a, ns.last())
        }
    }

    /// The first agent of `order` that is a friend of `a`.
    pub open spec fn first_friend(&self, a: AgentId, order: Seq<AgentId>) -> Option<AgentId>
        decreases order.len(),
    {
        if order.len() == 0 {
            None
        } else if self.friend_pairs().contains(ordered_pair(a, order[0])) {
            Some(order[0])
        } else {
            self.first_friend(a, order.drop_first())
        }
    }

    /// The first agent of `order` that threatens `a`.
    pub open spec fn first_threat(&self, a: AgentId, order: Seq<AgentId>) -> Option<AgentId>
        decreases order.len(),
    {
        if order.len() == 0 {
            None
        } else if self.threat_pairs().contains((a.0, order[0].0)) {
            Some(order[0])
        } else {
            self.first_threat(a, order.drop_first())
        }
    }

    /// Everything agent `a` perceives, before ordering: its neighbors, the
    /// nearest friend and threat, density and flow, group extent when it is
    /// grouped, its semantic distances, its attention target and what it
    /// heard.
    pub open spec fn raw_views(
        &self,
        a: AgentId,
        ns: Seq<NeighborSenseV1>,
        nearest_first: Seq<AgentId>,
        density: i32,
        flow: i32,
        extent: i32,
    ) -> Seq<ObservationView> {
        self.neighbor_views(a, ns) + match self.first_friend(a, nearest_first) {
            Some(f) => seq![agent_view(ObservationChannelV1::NearestFriend, f)],
            None => Seq::empty(),
        } + match self.first_threat(a, nearest_first) {
            Some(t) => seq![agent_view(ObservationChannelV1::NearestThreat, t)],
            None => Seq::empty(),
        } + seq![number_view(ObservationChannelV1::Density, density), number_view(ObservationChannelV1::FlowSpeed, flow)]
            + (if self.in_group(a) {
            seq![number_view(ObservationChannelV1::GroupExtent, extent)]
        } else {
            Seq::empty()
        }) + self.semantic_keys(a.0).map_values(|k: Seq<char>| semantic_view(k, self.semantic(a.0)[k])) + (if self.attention().dom().contains(a.0) {
            seq![agent_view(ObservationChannelV1::AttentionTarget, AgentId(self.attention()[a.0]))]
        } else {
            Seq::empty()
        }) + self.heard(a.0).map_values(|e: Seq<char>| heard_view(e))
    }

    fn nearest_friend(&self, a: AgentId, order: &Vec<AgentId>) -> (r: Option<AgentId>)
        requires
            self.wf(),
        ensures
            r == self.first_friend(a, order@),
    {
        let mut i: usize = 0;
        assert(order@.skip(0) =~= order@);
        while i < order.len()
            invariant
                i <= order@.len(),
                self.first_friend(a, order@) == self.first_friend(a, order@.skip(i as int)),
            decreases order@.len() - i,
        {
            let x = order[i];
            proof {
                assert(order@.skip(i as int)[0] == x);
                assert(order@.skip(i as int).drop_first() =~= order@.skip(i + 1));
            }
            if pair_position(&self.friendship, pair_of(a, x)).is_some() {
                return Some(x);
            }
            i = i + 1;
        }
        proof {
            assert(order@.skip(i as int).len() == 0);
        }
        None
    }

    fn nearest_threat(&self, a: AgentId, order: &Vec<AgentId>) -> (r: Option<AgentId>)
        requires
            self.wf(),
        ensures
            r == self.first_threat(a, order@),
    {
        let mut i: usize = 0;
        assert(order@.skip(0) =~= order@);
        while i < order.len()
            invariant
                i <= order@.len(),
                self.first_threat(a, order@) == self.first_threat(a, order@.skip(i as int)),
            decreases order@.len() - i,
        {
            let x = order[i];
            proof {
                assert(order@.skip(i as int)[0] == x);
                assert(order@.skip(i as int).drop_first() =~= order@.skip(i + 1));
            }
            if pair_position(&self.threats, (a.0, x.0)).is_some() {
                return Some(x);
            }
            i = i + 1;
        }
        proof {
            assert(order@.skip(i as int).len() == 0);
        }
        None
    }
}

impl PerceptionEngine {
    fn push_neighbor_observations(&self, a: AgentId, ns: &Vec<NeighborSenseV1>, out: &mut Vec<ObservationV1>)
        requires
            self.wf(),
        ensures
            views_of(final(out)@) == views_of(old(out)@) + self.neighbor_views(a, ns@),
    {
        let ghost start = views_of(out@);
        let mut i: usize = 0;
        proof {
            assert(ns@.take(0) =~= Seq::<NeighborSenseV1>::empty());
            assert(views_of(out@) =~= start + self.neighbor_views(a, ns@.take(0)));
        }
        while i < ns.len()
            invariant
                self.wf(),
                i <= ns@.len(),
                start == views_of(old(out)@),
                views_of(out@) == start + self.neighbor_views(a, ns@.take(i as int)),
            decreases ns@.len() - i,
        {
            let n = ns[i];
            let ghost before = views_of(out@);
            if n.visible {
                out.push(agent_observation(ObservationChannelV1::VisionAgent, n.agent_id));
            }
            let touching = pair_position(&self.touch_events, pair_of(a, n.agent_id)).is_some() || n.within_touch_range;
            if touching {
                out.push(agent_observation(ObservationChannelV1::Touch, n.agent_id));
            }
            proof {
                let t = ns@.take(i + 1);
                assert(t.drop_last() =~= ns@.take(i as int));
                assert(t.last() == n);
                assert(views_of(out@) =~= before + self.sense_views(a, n));
                assert(views_of(out@) =~= start + self.neighbor_views(a, t));
            }
            i = i + 1;
        }
        assert(ns@.take(ns@.len() as int) =~= ns@);
    }

    fn push_semantic_observations(&self, a: AgentId, out: &mut Vec<ObservationV1>)
        requires
            self.wf(),
        ensures
            views_of(final(out)@) == views_of(old(out)@) + self.semantic_keys(a.0).map_values(
                |k: Seq<char>| semantic_view(k, self.semantic(a.0)[k]),
            ),
    {
        let ghost f = |k: Seq<char>| semantic_view(k, self.semantic(a.0)[k]);
        match self.semantic_distances.get(a.0) {
            Some(t) => {
                let ghost start = views_of(out@);
                let n = t.len();
                let mut j: usize = 0;
                proof {
                    assert(views_of(out@) =~= start + t.keys().take(0).map_values(f));
                }
                while j < n
                    invariant
                        t.wf(),
                        n == t.keys().len(),
                        j <= n,
                        t.as_map() == self.semantic(a.0),
                        t.keys() == self.semantic_keys(a.0),
                        f == (|k: Seq<char>| semantic_view(k, self.semantic(a.0)[k])),
                        start == views_of(old(out)@),
                        views_of(out@) == start + t.keys().take(j as int).map_values(f),
                    decreases n - j,
                {
                    let k = t.key_at(j).clone();
                    let d = *t.value_at(j);
                    proof {
                        t.lemma_lookup(j as int);
                    }
                    let ghost before = views_of(out@);
                    out.push(
                        ObservationV1 {
                            channel: ObservationChannelV1::SemanticDistance,
                            value: PerceptionValueV1::NumberI32(d),
                            source_agent_id: None,
                            key: Some(k),
                        },
                    );
                    proof {
                        assert(t.keys().take(j + 1) =~= t.keys().take(j as int).push(t.keys()[j as int]));
                        assert(views_of(out@) =~= before.push(f(t.keys()[j as int])));
                        assert(views_of(out@) =~= start + t.keys().take(j + 1).map_values(f));
                    }
                    j = j + 1;
                }
                proof {
                    assert(t.keys().take(n as int) =~= t.keys());
                }
            },
            None => {
                proof {
                    assert(self.semantic_keys(a.0).map_values(f) =~= Seq::<ObservationView>::empty());
                    assert(views_of(out@) =~= views_of(old(out)@) + Seq::<ObservationView>::empty());
                }
            },
        }
    }

    fn push_heard_observations(&self, a: AgentId, out: &mut Vec<ObservationV1>)
        requires
            self.wf(),
        ensures
            views_of(final(out)@) == views_of(old(out)@) + self.heard(a.0).map_values(|e: Seq<char>| heard_view(e)),
    {
        let ghost f = |e: Seq<char>| heard_view(e);
        match self.hearing_events.get(a.0) {
            Some(t) => {
                let ghost start = views_of(out@);
                let n = t.len();
                let mut j: usize = 0;
                proof {
                    assert(views_of(out@) =~= start + t.keys().take(0).map_values(f));
                }
                while j < n
                    invariant
                        n == t.keys().len(),
                        j <= n,
                        t.keys() == self.heard(a.0),
                        f == (|e: Seq<char>| heard_view(e)),
                        start == views_of(old(out)@),
                        views_of(out@) == start + t.keys().take(j as int).map_values(f),
                    decreases n - j,
                {
                    let e = t.key_at(j).clone();
                    let ghost before = views_of(out@);
                    out.push(
                        ObservationV1 {
                            channel: ObservationChannelV1::Hearing,
                            value: PerceptionValueV1::Text(e),
                            source_agent_id: None,
                            key: None,
                        },
                    );
                    proof {
                        assert(t.keys().take(j + 1) =~= t.keys().take(j as int).push(t.keys()[j as int]));
                        assert(views_of(out@) =~= before.push(f(t.keys()[j as int])));
                        assert(views_of(out@) =~= start + t.keys().take(j + 1).map_values(f));
                    }
                    j = j + 1;
                }
                proof {
                    assert(t.keys().take(n as int) =~= t.keys());
                }
            },
            None => {
                proof {
                    assert(self.heard(a.0).map_values(f) =~= Seq::<ObservationView>::empty());
                    assert(views_of(out@) =~= views_of(old(out)@) + Seq::<ObservationView>::empty());
                }
            },
        }
    }

    /// Everything agent `a` perceives, before ordering.
    fn raw_observations(
        &self,
        a: AgentId,
        ns: &Vec<NeighborSenseV1>,
        nearest_first: &Vec<AgentId>,
        density: i32,
        flow: i32,
        extent: i32,
    ) -> (r: Vec<ObservationV1>)
        requires
            self.wf(),
        ensures
            views_of(r@) == self.raw_views(a, ns@, nearest_first@, density, flow, extent),
    {
        let mut out: Vec<ObservationV1> = Vec::new();
        self.push_neighbor_observations(a, ns, &mut out);
        let ghost v1 = views_of(out@);
        let ghost friend_part = match self.first_friend(a, nearest_first@) {
            Some(f) => seq![agent_view(ObservationChannelV1::NearestFriend, f)],
            None => Seq::<ObservationView>::empty(),
        };
        let ghost threat_part = match self.first_threat(a, nearest_first@) {
            Some(t) => seq![agent_view(ObservationChannelV1::NearestThreat, t)],
            None => Seq::<ObservationView>::empty(),
        };
        match self.nearest_friend(a, nearest_first) {
            Some(f) => out.push(agent_observation(ObservationChannelV1::NearestFriend, f)),
            None => {},
        }
        proof {
            assert(views_of(out@) =~= v1 + friend_part);
        }
        let ghost v1a = views_of(out@);
        match self.nearest_threat(a, nearest_first) {
            Some(t) => out.push(agent_observation(ObservationChannelV1::NearestThreat, t)),
            None => {},
        }
        proof {
            assert(views_of(out@) =~= v1a + threat_part);
        }
        let ghost v1b = views_of(out@);
        out.push(number_observation(ObservationChannelV1::Density, density));
        out.push(number_observation(ObservationChannelV1::FlowSpeed, flow));
        proof {
            assert(views_of(out@) =~= v1b + seq![
                number_view(ObservationChannelV1::Density, density),
                number_view(ObservationChannelV1::FlowSpeed, flow),
            ]);
        }
        let ghost v1c = views_of(out@);
        let grouped = self.group_for(a).is_some();
        let ghost group_part = if self.in_group(a) {
            seq![number_view(ObservationChannelV1::GroupExtent, extent)]
        } else {
            Seq::<ObservationView>::empty()
        };
        proof {
            if grouped {
                assert(self.in_group(a));
            } else {
                assert(!self.in_group(a));
            }
        }
        if grouped {
            out.push(number_observation(ObservationChannelV1::GroupExtent, extent));
        }
        proof {
            assert(views_of(out@) =~= v1c + group_part);
        }
        let ghost v2 = views_of(out@);
        self.push_semantic_observations(a, &mut out);
        let ghost v3 = views_of(out@);
        let ghost attention_part = if self.attention().dom().contains(a.0) {
            seq![agent_view(ObservationChannelV1::AttentionTarget, AgentId(self.attention()[a.0]))]
        } else {
            Seq::<ObservationView>::empty()
        };
        match self.attention_targets.get(a.0) {
            Some(t) => out.push(agent_observation(ObservationChannelV1::AttentionTarget, AgentId(*t))),
            None => {},
        }
        proof {
            assert(views_of(out@) =~= v3 + attention_part);
        }
        let ghost v4 = views_of(out@);
        self.push_heard_observations(a, &mut out);
        proof {
            assert(views_of(out@) =~= self.raw_views(a, ns@, nearest_first@, density, flow, extent));
        }
        out
    }
}

/// `got` is the ordered observations `raw`, cut to `budget` when there are
/// more.
pub open spec fn observations_fit(raw: Seq<ObservationView>, budget: nat, got: Seq<ObservationView>) -> bool {
    exists|sorted: Seq<ObservationView>|
        {
            &&& sorted.to_multiset() == raw.to_multiset()
            &&& views_sorted(sorted)
            &&& got == if raw.len() > budget {
                sorted.take(budget as int)
            } else {
                sorted
            }
        }
}

impl PerceptionEngine {
    /// Forget agent `a`'s memories that expired before `tick`; the rest
    /// come back in key order.
    fn keep_memories(&mut self, a: u64, tick: u64) -> (r: Vec<MemoryEntryV1>)
        requires
            old(self).wf(),
        ensures
            final(self).wf(),
            r@ == unexpired(old(self).memory_entries(a), tick),
            final(self).memory_entries(a) == unexpired(old(self).memory_entries(a), tick),
            forall|k: Seq<char>|
                #[trigger] final(self).memory_of(a).dom().contains(k) <==> (old(self).memory_of(a).dom().contains(k)
                    && old(self).memory_of(a)[k].expires_tick >= tick),
            forall|k: Seq<char>|
                #[trigger] final(self).memory_of(a).dom().contains(k) ==> final(self).memory_of(a)[k] == old(self).memory_of(
                    a,
                )[k],
            forall|b: u64| b != a ==> #[trigger] final(self).memory_of(b) == old(self).memory_of(b),
            forall|b: u64| b != a ==> #[trigger] final(self).memory_entries(b) == old(self).memory_entries(b),
            final(self).group_table() == old(self).group_table(),
            final(self).friend_pairs() == old(self).friend_pairs(),
            final(self).threat_pairs() == old(self).threat_pairs(),
            final(self).touch_pairs() == old(self).touch_pairs(),
            final(self).attention() == old(self).attention(),
            forall|b: u64| #[trigger] final(self).heard(b) == old(self).heard(b) && final(self).semantic(b) == old(self).semantic(b)
                && final(self).semantic_keys(b) == old(self).semantic_keys(b),
            final(self).capacity() == old(self).capacity() && final(self).budget() == old(self).budget(),
    {
        let mut table = match self.memory.take(a) {
            Some(m) => m,
            None => TextMap::new(),
        };
        let ghost before = table;
        proof {
            assert(before.values() == old(self).memory_entries(a));
            assert(before.as_map() == old(self).memory_of(a));
        }
        let n = table.len();
        let mut mask: Vec<bool> = Vec::new();
        let mut j: usize = 0;
        while j < n
            invariant
                table == before,
                n == table.keys().len(),
                table.wf(),
                j <= n,
                mask@ == Seq::new(j as nat, |i: int| table.values()[i].expires_tick >= tick),
            decreases n - j,
        {
            mask.push(table.value_at(j).expires_tick >= tick);
            proof {
                assert(mask@ =~= Seq::new((j + 1) as nat, |i: int| table.values()[i].expires_tick >= tick));
            }
            j = j + 1;
        }
        proof {
            assert(mask@ =~= Seq::new(before.values().len(), |i: int| before.values()[i].expires_tick >= tick));
        }
        table.keep_where(&mask);
        proof {
            lemma_masked_len(before.keys(), mask@);
            assert forall|k: Seq<char>| #[trigger] table.as_map().dom().contains(k) <==> (before.as_map().dom().contains(k)
                && before.as_map()[k].expires_tick >= tick) by {
                if before.as_map().dom().contains(k) {
                    let i = before.keys().index_of(k);
                    before.lemma_lookup(i);
                }
            }
        }
        let m = table.len();
        let mut out: Vec<MemoryEntryV1> = Vec::new();
        let mut j: usize = 0;
        while j < m
            invariant
                table.wf(),
                m == table.keys().len(),
                j <= m,
                out@ == table.values().take(j as int),
            decreases m - j,
        {
            out.push(table.value_at(j).duplicate());
            proof {
                assert(table.values().take(j + 1) =~= table.values().take(j as int).push(table.values()[j as int]));
            }
            j = j + 1;
        }
        proof {
            assert(table.values().take(m as int) =~= table.values());
        }
        self.memory.put(a, table);
        out
    }

    /// What agent `agent_id` perceives at `tick`, given what the scene
    /// shows of its neighbors (in ID order), its neighbors nearest first,
    /// its neighbor count, the mean flow speed of its neighbors and the
    /// extent of its group, in millionths.
    ///
    /// The snapshot's observations are ordered by channel, source, key and
    /// value and cut to the observation budget, which the snapshot then
    /// says; its memory is the agent's memories that have not expired, which
    /// are all the agent keeps.
    pub fn observe_agent(
        &mut self,
        agent_id: AgentId,
        tick: u64,
        neighbors: &Vec<NeighborSenseV1>,
        nearest_first: &Vec<AgentId>,
        density: i32,
        flow_speed_millionths: i32,
        group_extent_millionths: i32,
    ) -> (r: PerceptionSnapshotV1)
        requires
            old(self).wf(),
        ensures
            final(self).wf(),
            r.schema_version == PERCEPTION_SCHEMA_VERSION,
            r.agent_id == agent_id,
            r.tick == tick,
            observations_fit(
                old(self).raw_views(
                    agent_id,
                    neighbors@,
                    nearest_first@,
                    density,
                    flow_speed_millionths,
                    group_extent_millionths,
                ),
                old(self).budget(),
                views_of(r.observations@),
            ),
            r.degraded_evidence is Some <==> old(self).raw_views(
                agent_id,
                neighbors@,
                nearest_first@,
                density,
                flow_speed_millionths,
                group_extent_millionths,
            ).len() > old(self).budget(),
            r.degraded_evidence matches Some(t) ==> t@ == budget_message(),
            r.memory@ == unexpired(old(self).memory_entries(agent_id.0), tick),
            final(self).memory_entries(agent_id.0) == unexpired(old(self).memory_entries(agent_id.0), tick),
            forall|k: Seq<char>|
                #[trigger] final(self).memory_of(agent_id.0).dom().contains(k) <==> (old(self).memory_of(
                    agent_id.0,
                ).dom().contains(k) && old(self).memory_of(agent_id.0)[k].expires_tick >= tick),
            forall|k: Seq<char>|
                #[trigger] final(self).memory_of(agent_id.0).dom().contains(k) ==> final(self).memory_of(agent_id.0)[k]
                    == old(self).memory_of(agent_id.0)[k],
            forall|b: u64| b != agent_id.0 ==> #[trigger] final(self).memory_of(b) == old(self).memory_of(b),
            forall|b: u64| b != agent_id.0 ==> #[trigger] final(self).memory_entries(b) == old(self).memory_entries(b),
            final(self).group_table() == old(self).group_table(),
            final(self).friend_pairs() == old(self).friend_pairs(),
            final(self).threat_pairs() == old(self).threat_pairs(),
            final(self).touch_pairs() == old(self).touch_pairs(),
            final(self).attention() == old(self).attention(),
            forall|b: u64| #[trigger] final(self).heard(b) == old(self).heard(b),
            forall|b: u64| #[trigger] final(self).semantic(b) == old(self).semantic(b),
            forall|b: u64| #[trigger] final(self).semantic_keys(b) == old(self).semantic_keys(b),
            final(self).capacity() == old(self).capacity() && final(self).budget() == old(self).budget(),
    {
        let raw = self.raw_observations(
            agent_id,
            neighbors,
            nearest_first,
            density,
            flow_speed_millionths,
            group_extent_millionths,
        );
        let ghost raw_views = views_of(raw@);
        let mut observations = sort_observations(raw);
        let ghost sorted = views_of(observations@);
        proof {
            vstd::seq_lib::to_multiset_len(sorted);
            vstd::seq_lib::to_multiset_len(raw_views);
        }
        let mut degraded_evidence: Option<String> = None;
        if observations.len() > self.observation_budget {
            observations.truncate(self.observation_budget);
            degraded_evidence = Some(owned("observation budget reduced M6 evidence for this tier"));
            proof {
                assert(views_of(observations@) =~= sorted.take(self.observation_budget as int));
            }
        }
        proof {
            assert(observations_fit(raw_views, self.observation_budget as nat, views_of(observations@)));
        }
        let ghost mid = *self;
        let memory = self.keep_memories(agent_id.0, tick);
        proof {
            assert forall|b: u64| #[trigger] self.semantic_keys(b) == old(self).semantic_keys(b) by {
                assert(self.heard(b) == mid.heard(b));
            }
            assert forall|b: u64| #[trigger] self.semantic(b) == old(self).semantic(b) by {
                assert(self.heard(b) == mid.heard(b));
            }
            assert forall|b: u64| #[trigger] self.heard(b) == old(self).heard(b) by {
                assert(self.heard(b) == mid.heard(b));
            }
            assert forall|b: u64| b != agent_id.0 implies #[trigger] self.memory_of(b) == old(self).memory_of(b) by {
                assert(self.memory_of(b) == mid.memory_of(b));
            }
            assert forall|b: u64| b != agent_id.0 implies #[trigger] self.memory_entries(b) == old(self).memory_entries(b) by {
                assert(self.memory_entries(b) == mid.memory_entries(b));
            }
        }
        PerceptionSnapshotV1 {
            schema_version: PERCEPTION_SCHEMA_VERSION,
            agent_id,
            tick,
            observations,
            memory,
            degraded_evidence,
        }
    }
}

} // verus!
