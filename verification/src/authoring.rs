//! The authorable project: a base project with behavior graphs, population
//! behavior assignments, M2 semantics (queues, lanes, cost regions), social
//! groups and an asset library, checked as a whole.

use vstd::prelude::*;
use crate::behavior::{
    compile_graph, cycle_keys, cycle_reachable, graph_cycle_reports, graph_adj, graph_entry, graph_problem_keys, node_for, on_cycle,
    program_ids, same_node, unreachable_keys, BehaviorGraphV1, BehaviorNodeV1, BehaviorProgram,
};
use crate::route::reachable;
use crate::diagnostics::{keys, keys_sorted, lemma_map_same_multiset, report_of, sort_diagnostics, DiagnosticKey};
use crate::keyed::{lemma_is_sorted_keys, sorted_keys, TextMap};
use crate::project::{
    check_project, destination_id_list, destination_ids, population_id_list, population_ids, portal_id_list,
    portal_ids, project_issue_keys, text_views, walkable_id_list, walkable_ids, ProjectIrV1,
};
use crate::agents::{agent_ids_upto, compiled_agent_ids, lemma_checked_sources_known};
use crate::assets::{
    asset_library_fits, asset_library_keys, compiled_from, validate_asset_library, AssetDiagnostic, AssetLibraryV1,
    CompiledAssetLibrary,
};
use crate::text::{decimal, join2, join3, join4, owned, str_eq, with_decimal};

verus! {

/// The authorable project schema version this library reads.
pub const AUTHORABLE_PROJECT_SCHEMA_VERSION: u32 = 2;

/// Which behavior graph drives a population.
#[derive(Debug)]
pub struct PopulationBehaviorV2 {
    pub population_id: String,
    pub graph_id: String,
}

/// A queue in front of a portal, as validation reads it.
#[derive(Debug)]
pub struct QueueV2 {
    pub id: String,
    pub portal_id: String,
    /// How many standing slots the queue has.
    pub slot_count: usize,
    pub admission_capacity: u32,
}

/// A flow lane, as validation reads it.
#[derive(Debug)]
pub struct LaneV2 {
    pub id: String,
    /// How many points the lane's polyline has.
    pub point_count: usize,
    pub strength_millionths: u32,
}

/// What a cost region means to path planning.
#[derive(Clone, Copy, Debug, PartialEq, Eq, Structural)]
pub enum CostRegionKindV2 {
    Interest,
    Danger,
    Preferred,
    Forbidden,
}

/// A region that changes path cost, as validation reads it.
#[derive(Debug)]
pub struct CostRegionV2 {
    pub id: String,
    pub walkable_id: String,
    /// Its bounds are finite and ordered on both axes.
    pub bounds_valid: bool,
    pub kind: CostRegionKindV2,
    pub weight_millionths: u32,
}

/// The M2 semantic layer.
#[derive(Debug)]
pub struct AuthorableSemanticsV2 {
    pub queues: Vec<QueueV2>,
    pub lanes: Vec<LaneV2>,
    pub cost_regions: Vec<CostRegionV2>,
}

/// The kind of a social group.
#[derive(Clone, Copy, Debug, PartialEq, Eq, Structural)]
pub enum GroupKindV2 {
    Couple,
    Family,
    LeaderFollower,
}

/// How a social group traverses a capacity-constrained authored queue.
#[derive(Clone, Copy, Debug, PartialEq, Eq, Structural)]
pub enum GroupBottleneckPolicyV2 {
    /// Each member queues on its own.
    Individual,
    /// Admit the declared leader, then each remaining member in stable ID
    /// order.
    LeaderFirst,
}

/// A social group of agents that travel together.
#[derive(Debug)]
pub struct GroupV2 {
    pub id: String,
    pub kind: GroupKindV2,
    pub member_agent_ids: Vec<u64>,
    pub leader_agent_id: Option<u64>,
    pub shared_destination_id: String,
    pub max_separation_millimeters: u32,
    pub bottleneck_policy: GroupBottleneckPolicyV2,
}

/// What is wrong with an authorable project; the variant order is the
/// report order within one entity.
#[derive(Clone, Copy, Debug, PartialEq, Eq, PartialOrd, Ord, Structural)]
pub enum AuthoringDiagnosticCode {
    UnsupportedVersion,
    BaseProject,
    DuplicateId,
    InvalidGraph,
    MissingBehavior,
    MissingSemanticReference,
    InvalidSemanticGeometry,
    UnknownAgent,
    InvalidGroupLeader,
    InvalidGroup,
    InvalidAsset,
}

impl AuthoringDiagnosticCode {
    /// The position of the code in report order.
    pub open spec fn rank(self) -> nat {
        match self {
            AuthoringDiagnosticCode::UnsupportedVersion => 0,
            AuthoringDiagnosticCode::BaseProject => 1,
            AuthoringDiagnosticCode::DuplicateId => 2,
            AuthoringDiagnosticCode::InvalidGraph => 3,
            AuthoringDiagnosticCode::MissingBehavior => 4,
            AuthoringDiagnosticCode::MissingSemanticReference => 5,
            AuthoringDiagnosticCode::InvalidSemanticGeometry => 6,
            AuthoringDiagnosticCode::UnknownAgent => 7,
            AuthoringDiagnosticCode::InvalidGroupLeader => 8,
            AuthoringDiagnosticCode::InvalidGroup => 9,
            AuthoringDiagnosticCode::InvalidAsset => 10,
        }
    }

    pub fn rank_of(self) -> (r: u8)
        ensures
            r as nat == self.rank(),
    {
        match self {
            AuthoringDiagnosticCode::UnsupportedVersion => 0,
            AuthoringDiagnosticCode::BaseProject => 1,
            AuthoringDiagnosticCode::DuplicateId => 2,
            AuthoringDiagnosticCode::InvalidGraph => 3,
            AuthoringDiagnosticCode::MissingBehavior => 4,
            AuthoringDiagnosticCode::MissingSemanticReference => 5,
            AuthoringDiagnosticCode::InvalidSemanticGeometry => 6,
            AuthoringDiagnosticCode::UnknownAgent => 7,
            AuthoringDiagnosticCode::InvalidGroupLeader => 8,
            AuthoringDiagnosticCode::InvalidGroup => 9,
            AuthoringDiagnosticCode::InvalidAsset => 10,
        }
    }
}

/// One problem found in an authorable project.
#[derive(Debug)]
pub struct AuthoringDiagnostic {
    pub code: AuthoringDiagnosticCode,
    pub entity_id: String,
    pub message: String,
}

/// The key of an authoring diagnostic: reports sort by entity, then code,
/// then message.
pub open spec fn authoring_key(code: AuthoringDiagnosticCode, entity: Seq<char>, message: Seq<char>) -> DiagnosticKey {
    (0, entity, code.rank(), message)
}

impl crate::diagnostics::Diagnostic for AuthoringDiagnostic {
    open spec fn key(&self) -> DiagnosticKey {
        authoring_key(self.code, self.entity_id@, self.message@)
    }

    fn class_rank(&self) -> (r: u8) {
        0
    }

    fn subject_str(&self) -> (r: &str) {
        self.entity_id.as_str()
    }

    fn code_rank(&self) -> (r: u8) {
        self.code.rank_of()
    }

    fn message_str(&self) -> (r: &str) {
        self.message.as_str()
    }
}

/// A diagnostic with these parts when `cond` holds, nothing otherwise.
pub open spec fn flag_when(cond: bool, code: AuthoringDiagnosticCode, entity: Seq<char>, message: Seq<char>) -> Seq<
    DiagnosticKey,
> {
    if cond {
        seq![authoring_key(code, entity, message)]
    } else {
        Seq::empty()
    }
}

/// Record a diagnostic with these parts when `cond` holds.
fn flag(diagnostics: &mut Vec<AuthoringDiagnostic>, cond: bool, code: AuthoringDiagnosticCode, entity: String, message: String)
    ensures
        keys(final(diagnostics)@) == keys(old(diagnostics)@) + flag_when(cond, code, entity@, message@),
{
    if cond {
        diagnostics.push(AuthoringDiagnostic { code, entity_id: entity, message });
    }
    proof {
        assert(keys(diagnostics@) =~= keys(old(diagnostics)@) + flag_when(cond, code, entity@, message@));
    }
}

/// `kind:id`.
pub open spec fn tagged(kind: Seq<char>, id: Seq<char>) -> Seq<char> {
    kind + ":"@ + id
}

/// Whether `x` is among the first `end` entries of `v`.
fn listed_u64(v: &Vec<u64>, end: usize, x: u64) -> (r: bool)
    requires
        end <= v@.len(),
    ensures
        r == v@.take(end as int).contains(x),
{
    let mut k: usize = 0;
    while k < end
        invariant
            end <= v@.len(),
            k <= end,
            forall|j: int| 0 <= j < k ==> v@[j] != x,
        decreases end - k,
    {
        if v[k] == x {
            assert(v@.take(end as int)[k as int] == x);
            return true;
        }
        k = k + 1;
    }
    proof {
        if v@.take(end as int).contains(x) {
            let j = v@.take(end as int).index_of(x);
            assert(v@[j] == x);
        }
    }
    false
}

/// Whether `id` is among `ids`.
fn listed_text(ids: &Vec<&str>, id: &str) -> (r: bool)
    ensures
        r == text_views(ids@).contains(id@),
{
    let ghost t = text_views(ids@);
    let mut k: usize = 0;
    while k < ids.len()
        invariant
            t == text_views(ids@),
            k <= ids@.len(),
            forall|j: int| 0 <= j < k ==> t[j] != id@,
        decreases ids@.len() - k,
    {
        assert(t[k as int] == ids@[k as int]@);
        if str_eq(ids[k], id) {
            return true;
        }
        k = k + 1;
    }
    proof {
        if t.contains(id@) {
            let j = t.index_of(id@);
            assert(t[j] == id@);
        }
    }
    false
}

// ---------------------------------------------------------------------------
// Social groups
// ---------------------------------------------------------------------------

/// Whether every member of `ms` is a known agent not yet in a group, and the
/// agents assigned once the check stops: members are taken in order, each
/// known, unassigned one is assigned, and the check stops at the first that
/// is unknown or already assigned.
pub open spec fn members_fit(ms: Seq<u64>, known: Seq<u64>, assigned: Set<u64>) -> (bool, Set<u64>)
    decreases ms.len(),
{
    if ms.len() == 0 {
        (true, assigned)
    } else if !known.contains(ms[0]) || assigned.contains(ms[0]) {
        (false, assigned)
    } else {
        members_fit(ms.drop_first(), known, assigned.insert(ms[0]))
    }
}

/// The group IDs seen and the agents assigned after the groups `gs`.
pub open spec fn groups_state(gs: Seq<GroupV2>, known: Seq<u64>) -> (Set<Seq<char>>, Set<u64>)
    decreases gs.len(),
{
    if gs.len() == 0 {
        (Set::empty(), Set::empty())
    } else {
        let (ids, assigned) = groups_state(gs.drop_last(), known);
        let g = gs.last();
        (
            if g.id@.len() == 0 {
                ids
            } else {
                ids.insert(g.id@)
            },
            members_fit(g.member_agent_ids@, known, assigned).1,
        )
    }
}

/// The problems of the groups `gs`, given the known agents and destinations.
pub open spec fn group_keys(gs: Seq<GroupV2>, known: Seq<u64>, dids: Seq<Seq<char>>) -> Seq<DiagnosticKey>
    decreases gs.len(),
{
    if gs.len() == 0 {
        Seq::empty()
    } else {
        let (ids, assigned) = groups_state(gs.drop_last(), known);
        let g = gs.last();
        let e = tagged("group"@, g.id@);
        group_keys(gs.drop_last(), known, dids) + flag_when(
            g.id@.len() == 0 || ids.contains(g.id@),
            AuthoringDiagnosticCode::DuplicateId,
            e,
            "give the group a unique stable ID"@,
        ) + flag_when(
            g.member_agent_ids@.len() < 2 || g.max_separation_millimeters == 0 || !dids.contains(
                g.shared_destination_id@,
            ),
            AuthoringDiagnosticCode::InvalidGroup,
            e,
            "add at least two members, a positive separation, and an existing destination"@,
        ) + flag_when(
            !members_fit(g.member_agent_ids@, known, assigned).0,
            AuthoringDiagnosticCode::UnknownAgent,
            e,
            "use known stable agent IDs and assign each agent to at most one group"@,
        ) + flag_when(
            g.leader_agent_id matches Some(leader) && !g.member_agent_ids@.contains(leader),
            AuthoringDiagnosticCode::InvalidGroupLeader,
            e,
            "choose a leader from this group's member IDs"@,
        )
    }
}

/// Check the members of one group, assigning them as they pass.
fn check_members(members: &Vec<u64>, known: &Vec<u64>, assigned: &mut Vec<u64>) -> (r: bool)
    ensures
        r == members_fit(members@, known@, old(assigned)@.to_set()).0,
        final(assigned)@.to_set() == members_fit(members@, known@, old(assigned)@.to_set()).1,
{
    let mut k: usize = 0;
    proof {
        assert(members@.skip(0) =~= members@);
    }
    while k < members.len()
        invariant
            k <= members@.len(),
            members_fit(members@, known@, old(assigned)@.to_set()) == members_fit(
                members@.skip(k as int),
                known@,
                assigned@.to_set(),
            ),
        decreases members@.len() - k,
    {
        let m = members[k];
        proof {
            let rest = members@.skip(k as int);
            assert(rest[0] == m);
            assert(rest.drop_first() =~= members@.skip(k + 1));
            assert(known@.take(known@.len() as int) =~= known@);
            assert(assigned@.take(assigned@.len() as int) =~= assigned@);
        }
        if !listed_u64(known, known.len(), m) || listed_u64(assigned, assigned.len(), m) {
            return false;
        }
        let ghost before = assigned@;
        assigned.push(m);
        proof {
            before.lemma_push_to_set_commute(m);
        }
        k = k + 1;
    }
    proof {
        assert(members@.skip(k as int) =~= Seq::<u64>::empty());
    }
    true
}

/// Report the problems of the social groups.
pub fn validate_groups(
    groups: &Vec<GroupV2>,
    agent_ids: &Vec<u64>,
    destination_ids: &Vec<&str>,
    diagnostics: &mut Vec<AuthoringDiagnostic>,
)
    ensures
        keys(final(diagnostics)@) == keys(old(diagnostics)@) + group_keys(groups@, agent_ids@, text_views(destination_ids@)),
{
    let ghost k0 = keys(diagnostics@);
    let ghost dids = text_views(destination_ids@);
    let mut seen: Vec<&str> = Vec::new();
    let mut assigned: Vec<u64> = Vec::new();
    let mut i: usize = 0;
    proof {
        assert(groups@.take(0) =~= Seq::<GroupV2>::empty());
        assert(keys(diagnostics@) =~= k0 + group_keys(groups@.take(0), agent_ids@, dids));
        assert(text_views(seen@).to_set() =~= Set::<Seq<char>>::empty());
        assert(assigned@.to_set() =~= Set::<u64>::empty());
    }
    while i < groups.len()
        invariant
            i <= groups@.len(),
            dids == text_views(destination_ids@),
            k0 == keys(old(diagnostics)@),
            keys(diagnostics@) == k0 + group_keys(groups@.take(i as int), agent_ids@, dids),
            text_views(seen@).to_set() == groups_state(groups@.take(i as int), agent_ids@).0,
            assigned@.to_set() == groups_state(groups@.take(i as int), agent_ids@).1,
        decreases groups@.len() - i,
    {
        let g = &groups[i];
        let e = join3("group", ":", g.id.as_str());
        let ghost ids_before = text_views(seen@);
        let repeated = g.id.as_str().is_empty() || listed_text(&seen, g.id.as_str());
        flag(&mut *diagnostics, repeated, AuthoringDiagnosticCode::DuplicateId, e.clone(), owned("give the group a unique stable ID"));
        if !g.id.as_str().is_empty() {
            let ghost before = seen@;
            seen.push(g.id.as_str());
            proof {
                assert(text_views(seen@) =~= text_views(before).push(g.id@));
                text_views(before).lemma_push_to_set_commute(g.id@);
            }
        }
        flag(
            &mut *diagnostics,
            g.member_agent_ids.len() < 2 || g.max_separation_millimeters == 0 || !listed_text(
                destination_ids,
                g.shared_destination_id.as_str(),
            ),
            AuthoringDiagnosticCode::InvalidGroup,
            e.clone(),
            owned("add at least two members, a positive separation, and an existing destination"),
        );
        let fits = check_members(&g.member_agent_ids, agent_ids, &mut assigned);
        flag(
            &mut *diagnostics,
            !fits,
            AuthoringDiagnosticCode::UnknownAgent,
            e.clone(),
            owned("use known stable agent IDs and assign each agent to at most one group"),
        );
        let bad_leader = match g.leader_agent_id {
            Some(leader) => {
                let found = listed_u64(&g.member_agent_ids, g.member_agent_ids.len(), leader);
                proof {
                    assert(g.member_agent_ids@.take(g.member_agent_ids@.len() as int) =~= g.member_agent_ids@);
                }
                !found
            },
            None => false,
        };
        flag(
            &mut *diagnostics,
            bad_leader,
            AuthoringDiagnosticCode::InvalidGroupLeader,
            e,
            owned("choose a leader from this group's member IDs"),
        );
        proof {
            let t = groups@.take(i + 1);
            assert(t.drop_last() =~= groups@.take(i as int));
            assert(t.last() == groups@[i as int]);
            assert(keys(diagnostics@) =~= k0 + group_keys(t, agent_ids@, dids));
        }
        i = i + 1;
    }
    assert(groups@.take(groups@.len() as int) =~= groups@);
}

// ---------------------------------------------------------------------------
// M2 semantics
// ---------------------------------------------------------------------------

pub open spec fn queue_ids(v: Seq<QueueV2>) -> Seq<Seq<char>> {
    v.map_values(|q: QueueV2| q.id@)
}

pub open spec fn lane_ids(v: Seq<LaneV2>) -> Seq<Seq<char>> {
    v.map_values(|l: LaneV2| l.id@)
}

pub open spec fn region_ids(v: Seq<CostRegionV2>) -> Seq<Seq<char>> {
    v.map_values(|r: CostRegionV2| r.id@)
}

/// M2 entities of `kind` whose IDs are empty or repeat any M2 ID before
/// them, `before` being the IDs of the kinds listed earlier.
pub open spec fn m2_id_keys(kind: Seq<char>, before: Seq<Seq<char>>, ids: Seq<Seq<char>>) -> Seq<DiagnosticKey>
    decreases ids.len(),
{
    if ids.len() == 0 {
        Seq::empty()
    } else {
        let id = ids.last();
        m2_id_keys(kind, before, ids.drop_last()) + flag_when(
            id.len() == 0 || (before + ids.drop_last()).contains(id),
            AuthoringDiagnosticCode::DuplicateId,
            tagged(kind, id),
            "give every M2 semantic entity a unique stable ID"@,
        )
    }
}

pub open spec fn queue_keys(qs: Seq<QueueV2>, pids: Seq<Seq<char>>) -> Seq<DiagnosticKey>
    decreases qs.len(),
{
    if qs.len() == 0 {
        Seq::empty()
    } else {
        let q = qs.last();
        let e = tagged("queue"@, q.id@);
        queue_keys(qs.drop_last(), pids) + flag_when(
            !pids.contains(q.portal_id@),
            AuthoringDiagnosticCode::MissingSemanticReference,
            e,
            "choose an existing portal for this queue"@,
        ) + flag_when(
            q.slot_count == 0 || q.admission_capacity == 0,
            AuthoringDiagnosticCode::InvalidSemanticGeometry,
            e,
            "add at least one queue slot and positive admission capacity"@,
        )
    }
}

pub open spec fn lane_keys(ls: Seq<LaneV2>) -> Seq<DiagnosticKey>
    decreases ls.len(),
{
    if ls.len() == 0 {
        Seq::empty()
    } else {
        let l = ls.last();
        lane_keys(ls.drop_last()) + flag_when(
            l.point_count < 2 || l.strength_millionths > 1_000_000,
            AuthoringDiagnosticCode::InvalidSemanticGeometry,
            tagged("lane"@, l.id@),
            "add at least two points and set strength between 0 and 1000000"@,
        )
    }
}

pub open spec fn region_keys(rs: Seq<CostRegionV2>, wids: Seq<Seq<char>>) -> Seq<DiagnosticKey>
    decreases rs.len(),
{
    if rs.len() == 0 {
        Seq::empty()
    } else {
        let r = rs.last();
        let e = tagged("region"@, r.id@);
        region_keys(rs.drop_last(), wids) + flag_when(
            !wids.contains(r.walkable_id@),
            AuthoringDiagnosticCode::MissingSemanticReference,
            e,
            "choose an existing walkable region"@,
        ) + flag_when(
            !r.bounds_valid || r.weight_millionths > 1_000_000,
            AuthoringDiagnosticCode::InvalidSemanticGeometry,
            e,
            "use finite ordered bounds and a weight between 0 and 1000000"@,
        )
    }
}

/// The entity of node `n` of graph `gid`.
pub open spec fn node_entity(gid: Seq<char>, n: BehaviorNodeV1) -> Seq<char> {
    "graph:"@ + gid + "/node:"@ + n.node_id()
}

/// A navigation, queue or lane node that names nothing the project has.
pub open spec fn node_ref_keys(
    gid: Seq<char>,
    n: BehaviorNodeV1,
    dids: Seq<Seq<char>>,
    qids: Seq<Seq<char>>,
    lids: Seq<Seq<char>>,
) -> Seq<DiagnosticKey> {
    match n {
        BehaviorNodeV1::Navigate { destination_id, .. } => flag_when(
            !(destination_id@ == "__assigned_destination"@ || dids.contains(destination_id@)),
            AuthoringDiagnosticCode::MissingSemanticReference,
            node_entity(gid, n),
            "choose an existing destination instead of '"@ + destination_id@ + "'"@,
        ),
        BehaviorNodeV1::Queue { queue_id, .. } => flag_when(
            !qids.contains(queue_id@),
            AuthoringDiagnosticCode::MissingSemanticReference,
            node_entity(gid, n),
            "choose an existing queue instead of '"@ + queue_id@ + "'"@,
        ),
        BehaviorNodeV1::FollowLane { lane_id, .. } => flag_when(
            !lids.contains(lane_id@),
            AuthoringDiagnosticCode::MissingSemanticReference,
            node_entity(gid, n),
            "choose an existing lane instead of '"@ + lane_id@ + "'"@,
        ),
        _ => Seq::empty(),
    }
}

pub open spec fn program_ref_keys(
    gid: Seq<char>,
    nodes: Seq<BehaviorNodeV1>,
    dids: Seq<Seq<char>>,
    qids: Seq<Seq<char>>,
    lids: Seq<Seq<char>>,
) -> Seq<DiagnosticKey>
    decreases nodes.len(),
{
    if nodes.len() == 0 {
        Seq::empty()
    } else {
        program_ref_keys(gid, nodes.drop_last(), dids, qids, lids) + node_ref_keys(gid, nodes.last(), dids, qids, lids)
    }
}

/// The dangling references of the programs, graph by graph in ID order.
pub open spec fn all_program_ref_keys(
    gids: Seq<Seq<char>>,
    programs: Seq<BehaviorProgram>,
    dids: Seq<Seq<char>>,
    qids: Seq<Seq<char>>,
    lids: Seq<Seq<char>>,
) -> Seq<DiagnosticKey>
    decreases gids.len(),
{
    if gids.len() == 0 {
        Seq::empty()
    } else {
        let k = gids.len() - 1;
        all_program_ref_keys(gids.drop_last(), programs, dids, qids, lids) + program_ref_keys(
            gids[k],
            programs[k].node_seq(),
            dids,
            qids,
            lids,
        )
    }
}

/// Every problem of the M2 semantics, in the order found.
pub open spec fn m2_semantic_keys(
    sem: AuthorableSemanticsV2,
    pids: Seq<Seq<char>>,
    wids: Seq<Seq<char>>,
    dids: Seq<Seq<char>>,
    gids: Seq<Seq<char>>,
    programs: Seq<BehaviorProgram>,
) -> Seq<DiagnosticKey> {
    m2_layer_keys(sem, pids, wids) + all_program_ref_keys(
        gids,
        programs,
        dids,
        queue_ids(sem.queues@),
        lane_ids(sem.lanes@),
    )
}

/// The problems of the M2 semantic layer itself: repeated IDs, then queues,
/// lanes and cost regions in turn.
pub open spec fn m2_layer_keys(sem: AuthorableSemanticsV2, pids: Seq<Seq<char>>, wids: Seq<Seq<char>>) -> Seq<
    DiagnosticKey,
> {
    let q = queue_ids(sem.queues@);
    let l = lane_ids(sem.lanes@);
    let r = region_ids(sem.cost_regions@);
    m2_id_keys("queue"@, Seq::empty(), q) + m2_id_keys("lane"@, q, l) + m2_id_keys("region"@, q + l, r) + queue_keys(
        sem.queues@,
        pids,
    ) + lane_keys(sem.lanes@) + region_keys(sem.cost_regions@, wids)
}

fn queue_id_list(v: &Vec<QueueV2>) -> (r: Vec<&str>)
    ensures
        text_views(r@) == queue_ids(v@),
{
    let mut out: Vec<&str> = Vec::new();
    let mut i: usize = 0;
    while i < v.len()
        invariant
            i <= v@.len(),
            text_views(out@) == queue_ids(v@).take(i as int),
        decreases v@.len() - i,
    {
        let ghost before = out@;
        let id = v[i].id.as_str();
        out.push(id);
        proof {
            assert(text_views(out@) =~= text_views(before).push(id@));
            assert(queue_ids(v@).take(i + 1) =~= queue_ids(v@).take(i as int).push(v@[i as int].id@));
        }
        i = i + 1;
    }
    assert(queue_ids(v@).take(v@.len() as int) =~= queue_ids(v@));
    out
}

fn lane_id_list(v: &Vec<LaneV2>) -> (r: Vec<&str>)
    ensures
        text_views(r@) == lane_ids(v@),
{
    let mut out: Vec<&str> = Vec::new();
    let mut i: usize = 0;
    while i < v.len()
        invariant
            i <= v@.len(),
            text_views(out@) == lane_ids(v@).take(i as int),
        decreases v@.len() - i,
    {
        let ghost before = out@;
        let id = v[i].id.as_str();
        out.push(id);
        proof {
            assert(text_views(out@) =~= text_views(before).push(id@));
            assert(lane_ids(v@).take(i + 1) =~= lane_ids(v@).take(i as int).push(v@[i as int].id@));
        }
        i = i + 1;
    }
    assert(lane_ids(v@).take(v@.len() as int) =~= lane_ids(v@));
    out
}

fn region_id_list(v: &Vec<CostRegionV2>) -> (r: Vec<&str>)
    ensures
        text_views(r@) == region_ids(v@),
{
    let mut out: Vec<&str> = Vec::new();
    let mut i: usize = 0;
    while i < v.len()
        invariant
            i <= v@.len(),
            text_views(out@) == region_ids(v@).take(i as int),
        decreases v@.len() - i,
    {
        let ghost before = out@;
        let id = v[i].id.as_str();
        out.push(id);
        proof {
            assert(text_views(out@) =~= text_views(before).push(id@));
            assert(region_ids(v@).take(i + 1) =~= region_ids(v@).take(i as int).push(v@[i as int].id@));
        }
        i = i + 1;
    }
    assert(region_ids(v@).take(v@.len() as int) =~= region_ids(v@));
    out
}

/// Whether `id` is among the first `end` texts of `ids`.
fn listed_before(ids: &Vec<&str>, end: usize, id: &str) -> (r: bool)
    requires
        end <= ids@.len(),
    ensures
        r == text_views(ids@).take(end as int).contains(id@),
{
    let ghost t = text_views(ids@).take(end as int);
    let mut k: usize = 0;
    while k < end
        invariant
            end <= ids@.len(),
            t == text_views(ids@).take(end as int),
            k <= end,
            forall|j: int| 0 <= j < k ==> t[j] != id@,
        decreases end - k,
    {
        assert(t[k as int] == ids@[k as int]@);
        if str_eq(ids[k], id) {
            return true;
        }
        k = k + 1;
    }
    proof {
        if t.contains(id@) {
            let j = t.index_of(id@);
            assert(t[j] == id@);
        }
    }
    false
}

/// Report the M2 IDs `chain[start..end]`, all of `kind`.
fn m2_ids(kind: &str, chain: &Vec<&str>, start: usize, end: usize, diagnostics: &mut Vec<AuthoringDiagnostic>)
    requires
        start <= end <= chain@.len(),
    ensures
        keys(final(diagnostics)@) == keys(old(diagnostics)@) + m2_id_keys(
            kind@,
            text_views(chain@).take(start as int),
            text_views(chain@).subrange(start as int, end as int),
        ),
{
    let ghost k0 = keys(diagnostics@);
    let ghost all = text_views(chain@);
    let ghost before = all.take(start as int);
    let mut j: usize = start;
    proof {
        assert(all.subrange(start as int, start as int) =~= Seq::<Seq<char>>::empty());
    }
    while j < end
        invariant
            start <= j <= end <= chain@.len(),
            all == text_views(chain@),
            before == all.take(start as int),
            k0 == keys(old(diagnostics)@),
            keys(diagnostics@) == k0 + m2_id_keys(kind@, before, all.subrange(start as int, j as int)),
        decreases end - j,
    {
        let id = chain[j];
        let bad = id.is_empty() || listed_before(chain, j, id);
        flag(
            diagnostics,
            bad,
            AuthoringDiagnosticCode::DuplicateId,
            join3(kind, ":", id),
            owned("give every M2 semantic entity a unique stable ID"),
        );
        proof {
            let t = all.subrange(start as int, j + 1);
            assert(t.drop_last() =~= all.subrange(start as int, j as int));
            assert(t.last() == id@);
            assert(before + t.drop_last() =~= all.take(j as int));
            assert(keys(diagnostics@) =~= k0 + m2_id_keys(kind@, before, t));
        }
        j = j + 1;
    }
}

fn queue_pass(qs: &Vec<QueueV2>, pids: &Vec<&str>, diagnostics: &mut Vec<AuthoringDiagnostic>)
    ensures
        keys(final(diagnostics)@) == keys(old(diagnostics)@) + queue_keys(qs@, text_views(pids@)),
{
    let ghost k0 = keys(diagnostics@);
    let ghost w = text_views(pids@);
    let mut i: usize = 0;
    proof {
        assert(qs@.take(0) =~= Seq::<QueueV2>::empty());
        assert(keys(diagnostics@) =~= k0 + queue_keys(qs@.take(0), w));
    }
    while i < qs.len()
        invariant
            i <= qs@.len(),
            w == text_views(pids@),
            k0 == keys(old(diagnostics)@),
            keys(diagnostics@) == k0 + queue_keys(qs@.take(i as int), w),
        decreases qs@.len() - i,
    {
        let q = &qs[i];
        let e = join3("queue", ":", q.id.as_str());
        flag(
            diagnostics,
            !listed_text(pids, q.portal_id.as_str()),
            AuthoringDiagnosticCode::MissingSemanticReference,
            e.clone(),
            owned("choose an existing portal for this queue"),
        );
        flag(
            diagnostics,
            q.slot_count == 0 || q.admission_capacity == 0,
            AuthoringDiagnosticCode::InvalidSemanticGeometry,
            e,
            owned("add at least one queue slot and positive admission capacity"),
        );
        proof {
            let t = qs@.take(i + 1);
            assert(t.drop_last() =~= qs@.take(i as int));
            assert(t.last() == qs@[i as int]);
            assert(keys(diagnostics@) =~= k0 + queue_keys(t, w));
        }
        i = i + 1;
    }
    assert(qs@.take(qs@.len() as int) =~= qs@);
}

fn lane_pass(ls: &Vec<LaneV2>, diagnostics: &mut Vec<AuthoringDiagnostic>)
    ensures
        keys(final(diagnostics)@) == keys(old(diagnostics)@) + lane_keys(ls@),
{
    let ghost k0 = keys(diagnostics@);
    let mut i: usize = 0;
    proof {
        assert(ls@.take(0) =~= Seq::<LaneV2>::empty());
        assert(keys(diagnostics@) =~= k0 + lane_keys(ls@.take(0)));
    }
    while i < ls.len()
        invariant
            i <= ls@.len(),
            k0 == keys(old(diagnostics)@),
            keys(diagnostics@) == k0 + lane_keys(ls@.take(i as int)),
        decreases ls@.len() - i,
    {
        let l = &ls[i];
        flag(
            diagnostics,
            l.point_count < 2 || l.strength_millionths > 1_000_000,
            AuthoringDiagnosticCode::InvalidSemanticGeometry,
            join3("lane", ":", l.id.as_str()),
            owned("add at least two points and set strength between 0 and 1000000"),
        );
        proof {
            let t = ls@.take(i + 1);
            assert(t.drop_last() =~= ls@.take(i as int));
            assert(t.last() == ls@[i as int]);
            assert(keys(diagnostics@) =~= k0 + lane_keys(t));
        }
        i = i + 1;
    }
    assert(ls@.take(ls@.len() as int) =~= ls@);
}

fn region_pass(rs: &Vec<CostRegionV2>, wids: &Vec<&str>, diagnostics: &mut Vec<AuthoringDiagnostic>)
    ensures
        keys(final(diagnostics)@) == keys(old(diagnostics)@) + region_keys(rs@, text_views(wids@)),
{
    let ghost k0 = keys(diagnostics@);
    let ghost w = text_views(wids@);
    let mut i: usize = 0;
    proof {
        assert(rs@.take(0) =~= Seq::<CostRegionV2>::empty());
        assert(keys(diagnostics@) =~= k0 + region_keys(rs@.take(0), w));
    }
    while i < rs.len()
        invariant
            i <= rs@.len(),
            w == text_views(wids@),
            k0 == keys(old(diagnostics)@),
            keys(diagnostics@) == k0 + region_keys(rs@.take(i as int), w),
        decreases rs@.len() - i,
    {
        let r = &rs[i];
        let e = join3("region", ":", r.id.as_str());
        flag(
            diagnostics,
            !listed_text(wids, r.walkable_id.as_str()),
            AuthoringDiagnosticCode::MissingSemanticReference,
            e.clone(),
            owned("choose an existing walkable region"),
        );
        flag(
            diagnostics,
            !r.bounds_valid || r.weight_millionths > 1_000_000,
            AuthoringDiagnosticCode::InvalidSemanticGeometry,
            e,
            owned("use finite ordered bounds and a weight between 0 and 1000000"),
        );
        proof {
            let t = rs@.take(i + 1);
            assert(t.drop_last() =~= rs@.take(i as int));
            assert(t.last() == rs@[i as int]);
            assert(keys(diagnostics@) =~= k0 + region_keys(t, w));
        }
        i = i + 1;
    }
    assert(rs@.take(rs@.len() as int) =~= rs@);
}

/// Report a node of graph `gid` that names nothing the project has.
fn node_refs(
    gid: &str,
    n: &BehaviorNodeV1,
    dids: &Vec<&str>,
    qids: &Vec<&str>,
    lids: &Vec<&str>,
    diagnostics: &mut Vec<AuthoringDiagnostic>,
)
    ensures
        keys(final(diagnostics)@) == keys(old(diagnostics)@) + node_ref_keys(
            gid@,
            *n,
            text_views(dids@),
            text_views(qids@),
            text_views(lids@),
        ),
{
    match n {
        BehaviorNodeV1::Navigate { destination_id, .. } => {
            let ok = str_eq(destination_id.as_str(), "__assigned_destination") || listed_text(dids, destination_id.as_str());
            flag(
                diagnostics,
                !ok,
                AuthoringDiagnosticCode::MissingSemanticReference,
                join4("graph:", gid, "/node:", n.id()),
                join3("choose an existing destination instead of '", destination_id.as_str(), "'"),
            );
        },
        BehaviorNodeV1::Queue { queue_id, .. } => {
            flag(
                diagnostics,
                !listed_text(qids, queue_id.as_str()),
                AuthoringDiagnosticCode::MissingSemanticReference,
                join4("graph:", gid, "/node:", n.id()),
                join3("choose an existing queue instead of '", queue_id.as_str(), "'"),
            );
        },
        BehaviorNodeV1::FollowLane { lane_id, .. } => {
            flag(
                diagnostics,
                !listed_text(lids, lane_id.as_str()),
                AuthoringDiagnosticCode::MissingSemanticReference,
                join4("graph:", gid, "/node:", n.id()),
                join3("choose an existing lane instead of '", lane_id.as_str(), "'"),
            );
        },
        _ => {
            proof {
                assert(keys(diagnostics@) =~= keys(old(diagnostics)@) + node_ref_keys(
                    gid@,
                    *n,
                    text_views(dids@),
                    text_views(qids@),
                    text_views(lids@),
                ));
            }
        },
    }
}

/// Report the dangling references of every program, in graph ID order.
fn program_refs(
    programs: &TextMap<BehaviorProgram>,
    dids: &Vec<&str>,
    qids: &Vec<&str>,
    lids: &Vec<&str>,
    diagnostics: &mut Vec<AuthoringDiagnostic>,
)
    requires
        programs.wf(),
    ensures
        keys(final(diagnostics)@) == keys(old(diagnostics)@) + all_program_ref_keys(
            programs.keys(),
            programs.values(),
            text_views(dids@),
            text_views(qids@),
            text_views(lids@),
        ),
{
    let ghost k0 = keys(diagnostics@);
    let ghost (d, q, l) = (text_views(dids@), text_views(qids@), text_views(lids@));
    let ghost gids = programs.keys();
    let ghost progs = programs.values();
    let mut g: usize = 0;
    proof {
        assert(gids.take(0) =~= Seq::<Seq<char>>::empty());
        assert(keys(diagnostics@) =~= k0 + all_program_ref_keys(gids.take(0), progs, d, q, l));
    }
    while g < programs.len()
        invariant
            programs.wf(),
            gids == programs.keys(),
            progs == programs.values(),
            d == text_views(dids@),
            q == text_views(qids@),
            l == text_views(lids@),
            g <= gids.len(),
            k0 == keys(old(diagnostics)@),
            keys(diagnostics@) == k0 + all_program_ref_keys(gids.take(g as int), progs, d, q, l),
        decreases gids.len() - g,
    {
        let gid = programs.key_at(g).as_str();
        let nodes = programs.value_at(g).nodes();
        let ghost before = keys(diagnostics@);
        let mut k: usize = 0;
        proof {
            assert(nodes@.take(0) =~= Seq::<BehaviorNodeV1>::empty());
            assert(keys(diagnostics@) =~= before + program_ref_keys(gid@, nodes@.take(0), d, q, l));
        }
        while k < nodes.len()
            invariant
                d == text_views(dids@),
                q == text_views(qids@),
                l == text_views(lids@),
                k <= nodes@.len(),
                keys(diagnostics@) == before + program_ref_keys(gid@, nodes@.take(k as int), d, q, l),
            decreases nodes@.len() - k,
        {
            node_refs(gid, &nodes[k], dids, qids, lids, diagnostics);
            proof {
                let t = nodes@.take(k + 1);
                assert(t.drop_last() =~= nodes@.take(k as int));
                assert(t.last() == nodes@[k as int]);
                assert(keys(diagnostics@) =~= before + program_ref_keys(gid@, t, d, q, l));
            }
            k = k + 1;
        }
        proof {
            assert(nodes@.take(nodes@.len() as int) =~= nodes@);
            let t = gids.take(g + 1);
            assert(t.drop_last() =~= gids.take(g as int));
            assert(t[g as int] == gid@);
            assert(keys(diagnostics@) =~= k0 + all_program_ref_keys(t, progs, d, q, l));
        }
        g = g + 1;
    }
    assert(gids.take(gids.len() as int) =~= gids);
}

/// Three ID lists one after another.
fn join_ids<'a>(qids: &Vec<&'a str>, lids: &Vec<&'a str>, rids: &Vec<&'a str>) -> (chain: Vec<&'a str>)
    ensures
        chain@ == qids@ + lids@ + rids@,
{
    let mut chain: Vec<&str> = Vec::new();
    let mut i: usize = 0;
    while i < qids.len()
        invariant
            i <= qids@.len(),
            chain@ == qids@.take(i as int),
        decreases qids@.len() - i,
    {
        chain.push(qids[i]);
        proof {
            assert(qids@.take(i + 1) =~= qids@.take(i as int).push(qids@[i as int]));
        }
        i = i + 1;
    }
    i = 0;
    while i < lids.len()
        invariant
            i <= lids@.len(),
            chain@ == qids@ + lids@.take(i as int),
        decreases lids@.len() - i,
    {
        chain.push(lids[i]);
        proof {
            assert(lids@.take(i + 1) =~= lids@.take(i as int).push(lids@[i as int]));
        }
        i = i + 1;
    }
    i = 0;
    while i < rids.len()
        invariant
            i <= rids@.len(),
            chain@ == qids@ + lids@ + rids@.take(i as int),
        decreases rids@.len() - i,
    {
        chain.push(rids[i]);
        proof {
            assert(rids@.take(i + 1) =~= rids@.take(i as int).push(rids@[i as int]));
        }
        i = i + 1;
    }
    proof {
        assert(qids@.take(qids@.len() as int) =~= qids@);
        assert(lids@.take(lids@.len() as int) =~= lids@);
        assert(rids@.take(rids@.len() as int) =~= rids@);
    }
    chain
}

/// Report the problems of the M2 semantics and the references the programs
/// make to destinations, queues and lanes.
#[verifier::rlimit(40)]
pub fn validate_semantics(
    sem: &AuthorableSemanticsV2,
    programs: &TextMap<BehaviorProgram>,
    portal_ids: &Vec<&str>,
    walkable_ids: &Vec<&str>,
    destination_ids: &Vec<&str>,
) -> (r: Vec<AuthoringDiagnostic>)
    requires
        programs.wf(),
    ensures
        keys(r@) == m2_semantic_keys(
            *sem,
            text_views(portal_ids@),
            text_views(walkable_ids@),
            text_views(destination_ids@),
            programs.keys(),
            programs.values(),
        ),
{
    let qids = queue_id_list(&sem.queues);
    let lids = lane_id_list(&sem.lanes);
    let rids = region_id_list(&sem.cost_regions);
    let chain = join_ids(&qids, &lids, &rids);
    let n3 = chain.len();
    assert(n3 == qids@.len() + lids@.len() + rids@.len());
    let n1 = qids.len();
    let n2 = n1 + lids.len();
    proof {
        assert(qids@.take(qids@.len() as int) =~= qids@);
        assert(lids@.take(lids@.len() as int) =~= lids@);
        assert(rids@.take(rids@.len() as int) =~= rids@);
        let all = text_views(chain@);
        let q = queue_ids(sem.queues@);
        let l = lane_ids(sem.lanes@);
        let r = region_ids(sem.cost_regions@);
        assert(all =~= q + l + r);
        assert(all.take(0) =~= Seq::<Seq<char>>::empty());
        assert(all.subrange(0, n1 as int) =~= q);
        assert(all.take(n1 as int) =~= q);
        assert(all.subrange(n1 as int, n2 as int) =~= l);
        assert(all.take(n2 as int) =~= q + l);
        assert(all.subrange(n2 as int, n3 as int) =~= r);
    }
    let mut d: Vec<AuthoringDiagnostic> = Vec::new();
    m2_ids("queue", &chain, 0, n1, &mut d);
    m2_ids("lane", &chain, n1, n2, &mut d);
    m2_ids("region", &chain, n2, n3, &mut d);
    let ghost k1 = keys(d@);
    let mut rest: Vec<AuthoringDiagnostic> = Vec::new();
    queue_pass(&sem.queues, portal_ids, &mut rest);
    lane_pass(&sem.lanes, &mut rest);
    region_pass(&sem.cost_regions, walkable_ids, &mut rest);
    program_refs(programs, destination_ids, &qids, &lids, &mut rest);
    let ghost k2 = keys(rest@);
    d.append(&mut rest);
    proof {
        assert(keys(d@) =~= k1 + k2);
        assert(keys(d@) =~= m2_semantic_keys(
            *sem,
            text_views(portal_ids@),
            text_views(walkable_ids@),
            text_views(destination_ids@),
            programs.keys(),
            programs.values(),
        ));
    }
    d
}

// ---------------------------------------------------------------------------
// Behavior graphs
// ---------------------------------------------------------------------------

/// The graph compiles: no structural problem, no reachable cycle, every node
/// reachable from the entry.
pub open spec fn graph_compiles(g: BehaviorGraphV1) -> bool {
    let ids = program_ids(g);
    let adj = graph_adj(g);
    let entry = graph_entry(g);
    &&& graph_problem_keys(g).len() == 0
    &&& !cycle_reachable(adj, entry)
    &&& forall|v: u32| v < ids.len() ==> reachable(adj, entry, v)
}

/// `k` is a report the graph compiler may give for the failing graph `g`.
pub open spec fn graph_report_fits(g: BehaviorGraphV1, k: Seq<DiagnosticKey>) -> bool {
    let ids = program_ids(g);
    let adj = graph_adj(g);
    let entry = graph_entry(g);
    if graph_problem_keys(g).len() > 0 {
        k.to_multiset() == graph_problem_keys(g).to_multiset()
    } else {
        exists|cyc: Seq<u32>|
            {
                &&& k.to_multiset() == (cycle_keys(ids, cyc) + unreachable_keys(ids, adj, entry, ids.len())).to_multiset()
                &&& cyc == graph_cycle_reports(g)
                &&& (cyc.len() > 0 <==> cycle_reachable(adj, entry))
                &&& forall|i: int|
                    0 <= i < cyc.len() ==> (#[trigger] cyc[i]) < ids.len() && reachable(adj, entry, cyc[i]) && on_cycle(
                        adj,
                        cyc[i],
                    )
            }
    }
}

/// The nodes of the program compiled from `g`, in program order.
pub open spec fn compiled_nodes(g: BehaviorGraphV1) -> Seq<BehaviorNodeV1> {
    program_ids(g).map_values(|id: Seq<char>| node_for(g.nodes@, id))
}

/// The IDs of the graphs that compile.
pub open spec fn compiled_graph_ids(gs: Seq<BehaviorGraphV1>) -> Set<Seq<char>>
    decreases gs.len(),
{
    if gs.len() == 0 {
        Set::empty()
    } else if graph_compiles(gs.last()) {
        compiled_graph_ids(gs.drop_last()).insert(gs.last().id@)
    } else {
        compiled_graph_ids(gs.drop_last())
    }
}

/// The program nodes under graph ID `id`: those of the last graph with that
/// ID that compiles.
pub open spec fn program_nodes_for(gs: Seq<BehaviorGraphV1>, id: Seq<char>) -> Seq<BehaviorNodeV1>
    decreases gs.len(),
{
    if gs.len() == 0 {
        Seq::empty()
    } else if graph_compiles(gs.last()) && gs.last().id@ == id {
        compiled_nodes(gs.last())
    } else {
        program_nodes_for(gs.drop_last(), id)
    }
}

/// The diagnostics of graph compilation, given the reports of the graphs
/// that do not compile: a compiled graph repeating the ID of an earlier
/// compiled one, and each problem of a failing graph under its node.
pub open spec fn graph_keys(gs: Seq<BehaviorGraphV1>, reports: Seq<Seq<DiagnosticKey>>) -> Seq<DiagnosticKey>
    decreases gs.len(),
{
    if gs.len() == 0 {
        Seq::empty()
    } else {
        let g = gs.last();
        graph_keys(gs.drop_last(), reports) + if graph_compiles(g) {
            flag_when(
                compiled_graph_ids(gs.drop_last()).contains(g.id@),
                AuthoringDiagnosticCode::DuplicateId,
                tagged("graph"@, g.id@),
                "rename the duplicate behavior graph"@,
            )
        } else {
            reports[gs.len() - 1].map_values(
                |k: DiagnosticKey|
                    authoring_key(
                        AuthoringDiagnosticCode::InvalidGraph,
                        "graph:"@ + g.id@ + "/node:"@ + k.1,
                        k.3,
                    ),
            )
        }
    }
}

/// Two node sequences agree node by node.
pub open spec fn nodes_match(a: Seq<BehaviorNodeV1>, b: Seq<BehaviorNodeV1>) -> bool {
    a.len() == b.len() && forall|j: int| 0 <= j < a.len() ==> same_node(#[trigger] a[j], b[j])
}

/// The compiled programs hold, under each compiled graph ID, the nodes of
/// the last graph with that ID that compiles.
pub open spec fn programs_from(programs: TextMap<BehaviorProgram>, gs: Seq<BehaviorGraphV1>) -> bool {
    &&& programs.wf()
    &&& programs.as_map().dom() == compiled_graph_ids(gs)
    &&& forall|key: Seq<char>|
        #[trigger] programs.as_map().dom().contains(key) ==> nodes_match(
            programs.as_map()[key].node_seq(),
            program_nodes_for(gs, key),
        )
}

/// Report each problem of a failing graph under its node.
fn graph_errors(
    gid: &str,
    errors: &Vec<crate::behavior::GraphDiagnostic>,
    diagnostics: &mut Vec<AuthoringDiagnostic>,
)
    ensures
        keys(final(diagnostics)@) == keys(old(diagnostics)@) + keys(errors@).map_values(
            |k: DiagnosticKey|
                authoring_key(AuthoringDiagnosticCode::InvalidGraph, "graph:"@ + gid@ + "/node:"@ + k.1, k.3),
        ),
{
    let ghost k0 = keys(diagnostics@);
    let ghost f = |k: DiagnosticKey|
        authoring_key(AuthoringDiagnosticCode::InvalidGraph, "graph:"@ + gid@ + "/node:"@ + k.1, k.3);
    let mut j: usize = 0;
    proof {
        assert(keys(errors@).take(0).map_values(f) =~= Seq::<DiagnosticKey>::empty());
        assert(keys(diagnostics@) =~= k0 + keys(errors@).take(0).map_values(f));
    }
    while j < errors.len()
        invariant
            j <= errors@.len(),
            k0 == keys(old(diagnostics)@),
            f == (|k: DiagnosticKey|
                authoring_key(AuthoringDiagnosticCode::InvalidGraph, "graph:"@ + gid@ + "/node:"@ + k.1, k.3)),
            keys(diagnostics@) == k0 + keys(errors@).take(j as int).map_values(f),
        decreases errors@.len() - j,
    {
        let e = &errors[j];
        flag(
            diagnostics,
            true,
            AuthoringDiagnosticCode::InvalidGraph,
            join4("graph:", gid, "/node:", e.node_id.as_str()),
            e.message.clone(),
        );
        proof {
            let ks = keys(errors@);
            assert(ks[j as int] == crate::behavior::graph_key(e.code, e.node_id@, e.message@));
            assert(ks.take(j + 1).map_values(f) =~= ks.take(j as int).map_values(f).push(f(ks[j as int])));
            assert(keys(diagnostics@) =~= k0 + ks.take(j + 1).map_values(f));
        }
        j = j + 1;
    }
    assert(keys(errors@).take(errors@.len() as int) =~= keys(errors@));
}

/// Keeping a newly compiled graph's program keeps the programs consistent
/// with the graphs so far.
proof fn lemma_programs_step(
    before: TextMap<BehaviorProgram>,
    after: TextMap<BehaviorProgram>,
    gs: Seq<BehaviorGraphV1>,
    g: BehaviorGraphV1,
    program: BehaviorProgram,
)
    requires
        programs_from(before, gs),
        graph_compiles(g),
        after.wf(),
        after.as_map() == before.as_map().insert(g.id@, program),
        nodes_match(program.node_seq(), compiled_nodes(g)),
    ensures
        programs_from(after, gs.push(g)),
{
    let t = gs.push(g);
    assert(t.drop_last() =~= gs);
    assert(t.last() == g);
    assert(after.as_map().dom() =~= compiled_graph_ids(t));
    assert forall|key: Seq<char>| #[trigger] after.as_map().dom().contains(key) implies nodes_match(
        after.as_map()[key].node_seq(),
        program_nodes_for(t, key),
    ) by {
        if key != g.id@ {
            assert(before.as_map().dom().contains(key));
        }
    }
}

/// Keeping nothing for a failing graph keeps the programs consistent.
proof fn lemma_programs_skip(programs: TextMap<BehaviorProgram>, gs: Seq<BehaviorGraphV1>, g: BehaviorGraphV1)
    requires
        programs_from(programs, gs),
        !graph_compiles(g),
    ensures
        programs_from(programs, gs.push(g)),
{
    let t = gs.push(g);
    assert(t.drop_last() =~= gs);
    assert(t.last() == g);
    assert(programs.as_map().dom() =~= compiled_graph_ids(t));
    assert forall|key: Seq<char>| #[trigger] programs.as_map().dom().contains(key) implies nodes_match(
        programs.as_map()[key].node_seq(),
        program_nodes_for(t, key),
    ) by {}
}

/// `reports` holds, for each graph that does not compile, a report the
/// graph compiler may give for it.
pub open spec fn graph_reports_fit(gs: Seq<BehaviorGraphV1>, reports: Seq<Seq<DiagnosticKey>>) -> bool {
    &&& reports.len() == gs.len()
    &&& forall|i: int| 0 <= i < gs.len() && !graph_compiles(#[trigger] gs[i]) ==> graph_report_fits(gs[i], reports[i])
}

/// Compile every graph, keeping the last compiled program of each ID.
fn compile_programs(graphs: &Vec<BehaviorGraphV1>, diagnostics: &mut Vec<AuthoringDiagnostic>) -> (programs: TextMap<
    BehaviorProgram,
>)
    requires
        forall|i: int| 0 <= i < graphs@.len() ==> (#[trigger] graphs@[i]).nodes@.len() <= u32::MAX,
    ensures
        programs_from(programs, graphs@),
        exists|reports: Seq<Seq<DiagnosticKey>>|
            {
                &&& graph_reports_fit(graphs@, reports)
                &&& keys(final(diagnostics)@) == keys(old(diagnostics)@) + graph_keys(graphs@, reports)
            },
{
    let ghost k0 = keys(diagnostics@);
    let ghost mut reports: Seq<Seq<DiagnosticKey>> = Seq::empty();
    let mut programs: TextMap<BehaviorProgram> = TextMap::new();
    let mut i: usize = 0;
    proof {
        assert(graphs@.take(0) =~= Seq::<BehaviorGraphV1>::empty());
        assert(programs.as_map().dom() =~= compiled_graph_ids(graphs@.take(0)));
    }
    while i < graphs.len()
        invariant
            forall|j: int| 0 <= j < graphs@.len() ==> (#[trigger] graphs@[j]).nodes@.len() <= u32::MAX,
            i <= graphs@.len(),
            reports.len() == i,
            programs_from(programs, graphs@.take(i as int)),
            forall|j: int|
                0 <= j < i && !graph_compiles(#[trigger] graphs@[j]) ==> graph_report_fits(graphs@[j], reports[j]),
            k0 == keys(old(diagnostics)@),
            keys(diagnostics@) == k0 + graph_keys(graphs@.take(i as int), reports),
        decreases graphs@.len() - i,
    {
        let g = &graphs[i];
        let ghost before = graphs@.take(i as int);
        let ghost t = graphs@.take(i + 1);
        let ghost k_before = keys(diagnostics@);
        proof {
            assert(t.drop_last() =~= before);
            assert(t.last() == graphs@[i as int]);
            assert(before.push(*g) =~= t);
        }
        match compile_graph(g) {
            Ok(program) => {
                assert(graph_compiles(*g));
                let ghost old_programs = programs;
                let duplicate = programs.contains_key(g.id.as_str());
                programs.insert(g.id.clone(), program);
                flag(
                    diagnostics,
                    duplicate,
                    AuthoringDiagnosticCode::DuplicateId,
                    join3("graph", ":", g.id.as_str()),
                    owned("rename the duplicate behavior graph"),
                );
                proof {
                    assert(nodes_match(program.node_seq(), compiled_nodes(*g)));
                    lemma_programs_step(old_programs, programs, before, *g, program);
                    assert(duplicate == compiled_graph_ids(before).contains(g.id@));
                    let old_reports = reports;
                    reports = reports.push(Seq::empty());
                    assert(graph_keys(before, reports) == graph_keys(before, old_reports)) by {
                        lemma_graph_keys_prefix(before, old_reports, reports);
                    }
                    assert(graph_keys(t, reports) == graph_keys(before, reports) + flag_when(
                        compiled_graph_ids(before).contains(g.id@),
                        AuthoringDiagnosticCode::DuplicateId,
                        tagged("graph"@, g.id@),
                        "rename the duplicate behavior graph"@,
                    ));
                    assert(keys(diagnostics@) =~= k0 + graph_keys(t, reports));
                }
            },
            Err(errors) => {
                assert(!graph_compiles(*g));
                graph_errors(g.id.as_str(), &errors, diagnostics);
                proof {
                    lemma_programs_skip(programs, before, *g);
                    let old_reports = reports;
                    reports = reports.push(keys(errors@));
                    assert(graph_keys(before, reports) == graph_keys(before, old_reports)) by {
                        lemma_graph_keys_prefix(before, old_reports, reports);
                    }
                    assert(keys(diagnostics@) =~= k0 + graph_keys(t, reports));
                }
            },
        }
        i = i + 1;
    }
    assert(graphs@.take(graphs@.len() as int) =~= graphs@);
    assert(graph_reports_fit(graphs@, reports));
    programs
}

/// Graph diagnostics depend only on the reports of the graphs they cover.
proof fn lemma_graph_keys_prefix(gs: Seq<BehaviorGraphV1>, r1: Seq<Seq<DiagnosticKey>>, r2: Seq<Seq<DiagnosticKey>>)
    requires
        r1.len() >= gs.len(),
        r2.len() >= gs.len(),
        forall|i: int| 0 <= i < gs.len() ==> r1[i] == r2[i],
    ensures
        graph_keys(gs, r1) == graph_keys(gs, r2),
    decreases gs.len(),
{
    if gs.len() > 0 {
        lemma_graph_keys_prefix(gs.drop_last(), r1, r2);
    }
}

// ---------------------------------------------------------------------------
// Population behavior assignments
// ---------------------------------------------------------------------------

/// The assignment names a population of the base project and a graph that
/// compiled.
pub open spec fn assignment_ok(a: PopulationBehaviorV2, pids: Seq<Seq<char>>, gids: Set<Seq<char>>) -> bool {
    pids.contains(a.population_id@) && gids.contains(a.graph_id@)
}

/// The graph ID kept for each population: the last valid assignment wins.
pub open spec fn assigned(abs: Seq<PopulationBehaviorV2>, pids: Seq<Seq<char>>, gids: Set<Seq<char>>) -> Map<
    Seq<char>,
    Seq<char>,
>
    decreases abs.len(),
{
    if abs.len() == 0 {
        Map::empty()
    } else {
        let a = abs.last();
        let m = assigned(abs.drop_last(), pids, gids);
        if assignment_ok(a, pids, gids) {
            m.insert(a.population_id@, a.graph_id@)
        } else {
            m
        }
    }
}

/// The problems of the assignments, in the order found: an assignment that
/// names an unknown population or graph, or a population assigned again.
pub open spec fn assignment_keys(abs: Seq<PopulationBehaviorV2>, pids: Seq<Seq<char>>, gids: Set<Seq<char>>) -> Seq<
    DiagnosticKey,
>
    decreases abs.len(),
{
    if abs.len() == 0 {
        Seq::empty()
    } else {
        let a = abs.last();
        let entity = tagged("population"@, a.population_id@);
        assignment_keys(abs.drop_last(), pids, gids) + if !assignment_ok(a, pids, gids) {
            seq![
                authoring_key(
                    AuthoringDiagnosticCode::MissingBehavior,
                    entity,
                    "choose an existing population and behavior graph"@,
                ),
            ]
        } else {
            flag_when(
                assigned(abs.drop_last(), pids, gids).dom().contains(a.population_id@),
                AuthoringDiagnosticCode::DuplicateId,
                entity,
                "keep one behavior assignment per population"@,
            )
        }
    }
}

/// A text map of texts, as a map of texts.
pub open spec fn text_map_view(m: TextMap<String>) -> Map<Seq<char>, Seq<char>> {
    m.as_map().map_values(|s: String| s@)
}

/// Assign each population its behavior graph, reporting every assignment
/// that names an unknown population or graph and every population assigned
/// twice.
fn assign_behaviors(
    abs: &Vec<PopulationBehaviorV2>,
    pids: &Vec<&str>,
    programs: &TextMap<BehaviorProgram>,
    diagnostics: &mut Vec<AuthoringDiagnostic>,
) -> (r: TextMap<String>)
    requires
        programs.wf(),
    ensures
        r.wf(),
        text_map_view(r) == assigned(abs@, text_views(pids@), programs.as_map().dom()),
        keys(final(diagnostics)@) == keys(old(diagnostics)@) + assignment_keys(
            abs@,
            text_views(pids@),
            programs.as_map().dom(),
        ),
{
    let ghost k0 = keys(diagnostics@);
    let ghost p = text_views(pids@);
    let ghost g = programs.as_map().dom();
    let mut out: TextMap<String> = TextMap::new();
    let mut i: usize = 0;
    proof {
        assert(abs@.take(0) =~= Seq::<PopulationBehaviorV2>::empty());
        assert(text_map_view(out) =~= assigned(abs@.take(0), p, g));
    }
    while i < abs.len()
        invariant
            i <= abs@.len(),
            programs.wf(),
            p == text_views(pids@),
            g == programs.as_map().dom(),
            out.wf(),
            text_map_view(out) == assigned(abs@.take(i as int), p, g),
            k0 == keys(old(diagnostics)@),
            keys(diagnostics@) == k0 + assignment_keys(abs@.take(i as int), p, g),
        decreases abs@.len() - i,
    {
        let a = &abs[i];
        let ghost before = abs@.take(i as int);
        let ghost t = abs@.take(i + 1);
        proof {
            assert(t.drop_last() =~= before);
            assert(t.last() == abs@[i as int]);
        }
        let entity = join3("population", ":", a.population_id.as_str());
        let ok = listed_text(pids, a.population_id.as_str()) && programs.contains_key(a.graph_id.as_str());
        if !ok {
            flag(
                diagnostics,
                true,
                AuthoringDiagnosticCode::MissingBehavior,
                entity,
                owned("choose an existing population and behavior graph"),
            );
            proof {
                assert(keys(diagnostics@) =~= k0 + assignment_keys(t, p, g));
                assert(text_map_view(out) =~= assigned(t, p, g));
            }
        } else {
            let ghost old_out = out;
            let previous = out.insert(a.population_id.clone(), a.graph_id.clone());
            flag(
                diagnostics,
                previous.is_some(),
                AuthoringDiagnosticCode::DuplicateId,
                entity,
                owned("keep one behavior assignment per population"),
            );
            proof {
                assert(old_out.as_map().dom() == text_map_view(old_out).dom());
                assert(keys(diagnostics@) =~= k0 + assignment_keys(t, p, g));
                assert(text_map_view(out) =~= assigned(t, p, g));
            }
        }
        i = i + 1;
    }
    assert(abs@.take(abs@.len() as int) =~= abs@);
    out
}

/// The dangling references of the compiled graphs `gids`, each read from the
/// program that graph ID holds.
pub open spec fn graph_ref_keys(
    gids: Seq<Seq<char>>,
    gs: Seq<BehaviorGraphV1>,
    dids: Seq<Seq<char>>,
    qids: Seq<Seq<char>>,
    lids: Seq<Seq<char>>,
) -> Seq<DiagnosticKey>
    decreases gids.len(),
{
    if gids.len() == 0 {
        Seq::empty()
    } else {
        graph_ref_keys(gids.drop_last(), gs, dids, qids, lids) + program_ref_keys(
            gids.last(),
            program_nodes_for(gs, gids.last()),
            dids,
            qids,
            lids,
        )
    }
}

/// Matching node sequences make the same references.
proof fn lemma_ref_keys_match(
    gid: Seq<char>,
    a: Seq<BehaviorNodeV1>,
    b: Seq<BehaviorNodeV1>,
    dids: Seq<Seq<char>>,
    qids: Seq<Seq<char>>,
    lids: Seq<Seq<char>>,
)
    requires
        nodes_match(a, b),
    ensures
        program_ref_keys(gid, a, dids, qids, lids) == program_ref_keys(gid, b, dids, qids, lids),
    decreases a.len(),
{
    if a.len() > 0 {
        assert(same_node(a[a.len() - 1], b[b.len() - 1]));
        assert(nodes_match(a.drop_last(), b.drop_last())) by {
            assert forall|j: int| 0 <= j < a.drop_last().len() implies same_node(
                #[trigger] a.drop_last()[j],
                b.drop_last()[j],
            ) by {
                assert(same_node(a[j], b[j]));
            }
        }
        lemma_ref_keys_match(gid, a.drop_last(), b.drop_last(), dids, qids, lids);
    }
}

/// The programs compiled from `gs` are keyed by the compiled graph IDs in
/// text order, and their references are those of the graphs they came from.
proof fn lemma_programs_refs(
    programs: TextMap<BehaviorProgram>,
    gs: Seq<BehaviorGraphV1>,
    dids: Seq<Seq<char>>,
    qids: Seq<Seq<char>>,
    lids: Seq<Seq<char>>,
)
    requires
        programs_from(programs, gs),
    ensures
        programs.keys() == sorted_keys(compiled_graph_ids(gs)),
        all_program_ref_keys(programs.keys(), programs.values(), dids, qids, lids) == graph_ref_keys(
            programs.keys(),
            gs,
            dids,
            qids,
            lids,
        ),
{
    let ks = programs.keys();
    assert(ks.to_set() =~= programs.as_map().dom()) by {
        assert forall|k: Seq<char>| ks.to_set().contains(k) <==> programs.as_map().dom().contains(k) by {}
    }
    lemma_is_sorted_keys(ks);
    lemma_programs_refs_upto(programs, gs, dids, qids, lids, ks.len() as int);
    assert(ks.take(ks.len() as int) =~= ks);
}

proof fn lemma_programs_refs_upto(
    programs: TextMap<BehaviorProgram>,
    gs: Seq<BehaviorGraphV1>,
    dids: Seq<Seq<char>>,
    qids: Seq<Seq<char>>,
    lids: Seq<Seq<char>>,
    n: int,
)
    requires
        programs_from(programs, gs),
        0 <= n <= programs.keys().len(),
    ensures
        all_program_ref_keys(programs.keys().take(n), programs.values(), dids, qids, lids) == graph_ref_keys(
            programs.keys().take(n),
            gs,
            dids,
            qids,
            lids,
        ),
    decreases n,
{
    if n > 0 {
        let ks = programs.keys();
        let t = ks.take(n);
        assert(t.drop_last() =~= ks.take(n - 1));
        lemma_programs_refs_upto(programs, gs, dids, qids, lids, n - 1);
        programs.lemma_lookup(n - 1);
        let key = ks[n - 1];
        assert(t.last() == key);
        assert(t[t.len() - 1] == key);
        assert(programs.as_map().dom().contains(key));
        lemma_ref_keys_match(
            key,
            programs.values()[n - 1].node_seq(),
            program_nodes_for(gs, key),
            dids,
            qids,
            lids,
        );
    }
}

// ---------------------------------------------------------------------------
// The authorable project
// ---------------------------------------------------------------------------

/// A base project with the authoring layers over it.
#[derive(Debug)]
pub struct AuthorableProjectV2 {
    pub schema_version: u32,
    pub base: ProjectIrV1,
    pub behavior_graphs: Vec<BehaviorGraphV1>,
    pub population_behaviors: Vec<PopulationBehaviorV2>,
    pub semantics: AuthorableSemanticsV2,
    pub groups: Vec<GroupV2>,
    pub assets: AssetLibraryV1,
}

/// An authorable project that passed every check: its programs by graph ID,
/// the graph ID of each population, and its asset library.
pub struct CompiledAuthorableProject {
    programs: TextMap<BehaviorProgram>,
    population_graphs: TextMap<String>,
    assets: CompiledAssetLibrary,
}

impl CompiledAuthorableProject {
    /// The programs, by graph ID.
    pub closed spec fn program_table(&self) -> TextMap<BehaviorProgram> {
        self.programs
    }

    /// The graph ID of each assigned population.
    pub closed spec fn assignment_table(&self) -> TextMap<String> {
        self.population_graphs
    }

    /// The checked asset library.
    pub closed spec fn asset_table(&self) -> CompiledAssetLibrary {
        self.assets
    }

    pub open spec fn wf(&self) -> bool {
        &&& self.program_table().wf()
        &&& self.assignment_table().wf()
        &&& self.asset_table().wf()
    }

    /// The program compiled for graph `id`.
    pub fn behavior_program(&self, id: &str) -> (r: Option<&BehaviorProgram>)
        requires
            self.wf(),
        ensures
            r is Some <==> self.program_table().as_map().dom().contains(id@),
            r matches Some(p) ==> *p == self.program_table().as_map()[id@],
    {
        self.programs.get(id)
    }

    /// The graph ID assigned to population `population_id`.
    pub fn population_graph(&self, population_id: &str) -> (r: Option<&str>)
        requires
            self.wf(),
        ensures
            r is Some <==> text_map_view(self.assignment_table()).dom().contains(population_id@),
            r matches Some(g) ==> g@ == text_map_view(self.assignment_table())[population_id@],
    {
        match self.population_graphs.get(population_id) {
            Some(g) => Some(g.as_str()),
            None => None,
        }
    }

    /// How many programs compiled.
    pub fn behavior_program_count(&self) -> (r: usize)
        ensures
            r == self.program_table().keys().len(),
    {
        self.programs.len()
    }

    /// The checked asset library.
    pub fn assets(&self) -> (r: &CompiledAssetLibrary)
        ensures
            *r == self.asset_table(),
    {
        &self.assets
    }
}

/// What checking an authorable project needs the machine to hold: region,
/// spawn-source and graph-node counts that fit a `u32`, and an asset library
/// that fits (see `asset_library_fits`).
pub open spec fn authorable_fits(p: AuthorableProjectV2) -> bool {
    &&& p.base.semantics.walkable@.len() <= u32::MAX
    &&& forall|i: int|
        0 <= i < p.base.populations@.len() ==> (#[trigger] p.base.populations@[i]).spawn_source_ids@.len() <= u32::MAX
    &&& forall|i: int| 0 <= i < p.behavior_graphs@.len() ==> (#[trigger] p.behavior_graphs@[i]).nodes@.len() <= u32::MAX
    &&& asset_library_fits(p.assets)
}

/// A schema version other than the one this library reads.
pub open spec fn version_keys(v: u32) -> Seq<DiagnosticKey> {
    flag_when(
        v != AUTHORABLE_PROJECT_SCHEMA_VERSION,
        AuthoringDiagnosticCode::UnsupportedVersion,
        "project"@,
        "migrate schema "@ + decimal(v as nat) + " to authorable schema 2"@,
    )
}

/// A problem of the base project, reported under its entity and message.
pub open spec fn base_key(k: DiagnosticKey) -> DiagnosticKey {
    authoring_key(AuthoringDiagnosticCode::BaseProject, k.1, k.3)
}

/// A problem of the asset library, reported under its entity and message.
pub open spec fn asset_problem_key(k: DiagnosticKey) -> DiagnosticKey {
    authoring_key(AuthoringDiagnosticCode::InvalidAsset, k.1, k.3)
}

/// The report of a project whose base project has problems: the version
/// problem, if any, and the base project's report.
pub open spec fn base_failure_keys(p: AuthorableProjectV2) -> Seq<DiagnosticKey> {
    version_keys(p.schema_version) + report_of(project_issue_keys(p.base).to_set()).map_values(
        |k: DiagnosticKey| base_key(k),
    )
}

/// The problems of the behavior layers, given the reports of the graphs
/// that do not compile: graphs, assignments, the M2 semantic layer, then the
/// references the programs make.
pub open spec fn behavior_keys(p: AuthorableProjectV2, reports: Seq<Seq<DiagnosticKey>>) -> Seq<DiagnosticKey> {
    let gs = p.behavior_graphs@;
    let b = p.base;
    graph_keys(gs, reports) + assignment_keys(
        p.population_behaviors@,
        population_ids(b.populations@),
        compiled_graph_ids(gs),
    ) + m2_layer_keys(p.semantics, portal_ids(b.semantics.portals@), walkable_ids(b.semantics.walkable@))
        + graph_ref_keys(
        sorted_keys(compiled_graph_ids(gs)),
        gs,
        destination_ids(b.semantics.destinations@),
        queue_ids(p.semantics.queues@),
        lane_ids(p.semantics.lanes@),
    )
}

/// The problems of the social groups, over the agents the base project
/// spawns.
pub open spec fn social_keys(p: AuthorableProjectV2) -> Seq<DiagnosticKey> {
    let b = p.base;
    group_keys(p.groups@, agent_ids_upto(b, b.populations@.len()), destination_ids(b.semantics.destinations@))
}

/// The problems of the asset library, under the asset code.
pub open spec fn asset_keys(p: AuthorableProjectV2) -> Seq<DiagnosticKey> {
    asset_library_keys(p.assets).map_values(|k: DiagnosticKey| asset_problem_key(k))
}

/// Every problem of a project whose base project is sound, given the reports
/// of the graphs that do not compile: version, behavior layers, groups, then
/// assets.
pub open spec fn authoring_keys(p: AuthorableProjectV2, reports: Seq<Seq<DiagnosticKey>>) -> Seq<DiagnosticKey> {
    version_keys(p.schema_version) + behavior_keys(p, reports) + social_keys(p) + asset_keys(p)
}

/// Report each problem of a list under its entity and message with `code`.
fn report_under(
    code: AuthoringDiagnosticCode,
    entities: &Vec<String>,
    messages: &Vec<String>,
    diagnostics: &mut Vec<AuthoringDiagnostic>,
)
    requires
        entities@.len() == messages@.len(),
    ensures
        keys(final(diagnostics)@) == keys(old(diagnostics)@) + Seq::new(
            entities@.len(),
            |i: int| authoring_key(code, entities@[i]@, messages@[i]@),
        ),
{
    let ghost k0 = keys(diagnostics@);
    let ghost f = |i: int| authoring_key(code, entities@[i]@, messages@[i]@);
    let mut i: usize = 0;
    proof {
        assert(keys(diagnostics@) =~= k0 + Seq::new(0, f));
    }
    while i < entities.len()
        invariant
            i <= entities@.len(),
            entities@.len() == messages@.len(),
            k0 == keys(old(diagnostics)@),
            f == (|i: int| authoring_key(code, entities@[i]@, messages@[i]@)),
            keys(diagnostics@) == k0 + Seq::new(i as nat, f),
        decreases entities@.len() - i,
    {
        flag(diagnostics, true, code, entities[i].clone(), messages[i].clone());
        proof {
            assert(keys(diagnostics@) =~= k0 + Seq::new((i + 1) as nat, f));
        }
        i = i + 1;
    }
}

/// Report the base project's problems under the base project code.
fn base_errors(errors: &Vec<crate::project::Diagnostic>, diagnostics: &mut Vec<AuthoringDiagnostic>)
    ensures
        keys(final(diagnostics)@) == keys(old(diagnostics)@) + keys(errors@).map_values(|k: DiagnosticKey| base_key(k)),
{
    let mut entities: Vec<String> = Vec::new();
    let mut messages: Vec<String> = Vec::new();
    let mut i: usize = 0;
    while i < errors.len()
        invariant
            i <= errors@.len(),
            entities@.len() == i,
            messages@.len() == i,
            forall|j: int|
                0 <= j < i ==> (#[trigger] entities@[j])@ == errors@[j].entity_id@ && messages@[j]@ == errors@[j].message@,
        decreases errors@.len() - i,
    {
        let ghost old_entities = entities@;
        let ghost old_messages = messages@;
        let e = errors[i].entity_id.clone();
        let m = errors[i].message.clone();
        entities.push(e);
        messages.push(m);
        proof {
            assert forall|j: int| 0 <= j <= i implies (#[trigger] entities@[j])@ == errors@[j].entity_id@
                && messages@[j]@ == errors@[j].message@ by {
                if j < i {
                    assert(entities@[j] == old_entities[j]);
                    assert(messages@[j] == old_messages[j]);
                }
            }
        }
        i = i + 1;
    }
    report_under(AuthoringDiagnosticCode::BaseProject, &entities, &messages, diagnostics);
    proof {
        assert(Seq::new(
            entities@.len(),
            |i: int| authoring_key(AuthoringDiagnosticCode::BaseProject, entities@[i]@, messages@[i]@),
        ) =~= keys(errors@).map_values(|k: DiagnosticKey| base_key(k)));
    }
}

/// Report the asset library's problems under the asset code.
fn asset_errors(errors: &Vec<AssetDiagnostic>, diagnostics: &mut Vec<AuthoringDiagnostic>)
    ensures
        keys(final(diagnostics)@) == keys(old(diagnostics)@) + keys(errors@).map_values(
            |k: DiagnosticKey| asset_problem_key(k),
        ),
{
    let mut entities: Vec<String> = Vec::new();
    let mut messages: Vec<String> = Vec::new();
    let mut i: usize = 0;
    while i < errors.len()
        invariant
            i <= errors@.len(),
            entities@.len() == i,
            messages@.len() == i,
            forall|j: int|
                0 <= j < i ==> (#[trigger] entities@[j])@ == errors@[j].entity_id@ && messages@[j]@ == errors@[j].message@,
        decreases errors@.len() - i,
    {
        let ghost old_entities = entities@;
        let ghost old_messages = messages@;
        let e = errors[i].entity_id.clone();
        let m = errors[i].message.clone();
        entities.push(e);
        messages.push(m);
        proof {
            assert forall|j: int| 0 <= j <= i implies (#[trigger] entities@[j])@ == errors@[j].entity_id@
                && messages@[j]@ == errors@[j].message@ by {
                if j < i {
                    assert(entities@[j] == old_entities[j]);
                    assert(messages@[j] == old_messages[j]);
                }
            }
        }
        i = i + 1;
    }
    report_under(AuthoringDiagnosticCode::InvalidAsset, &entities, &messages, diagnostics);
    proof {
        assert(Seq::new(
            entities@.len(),
            |i: int| authoring_key(AuthoringDiagnosticCode::InvalidAsset, entities@[i]@, messages@[i]@),
        ) =~= keys(errors@).map_values(|k: DiagnosticKey| asset_problem_key(k)));
    }
}

/// The message of an unsupported schema version.
fn version_message(v: u32) -> (r: String)
    ensures
        r@ == "migrate schema "@ + decimal(v as nat) + " to authorable schema 2"@,
{
    let head = with_decimal("migrate schema ", v as u64);
    join2(head.as_str(), " to authorable schema 2")
}

/// Compile the graphs, assign the populations their graphs and check the M2
/// semantics and the references of the programs.
fn check_behaviors(project: &AuthorableProjectV2, diagnostics: &mut Vec<AuthoringDiagnostic>) -> (r: (
    TextMap<BehaviorProgram>,
    TextMap<String>,
))
    requires
        authorable_fits(*project),
    ensures
        programs_from(r.0, project.behavior_graphs@),
        r.1.wf(),
        text_map_view(r.1) == assigned(
            project.population_behaviors@,
            population_ids(project.base.populations@),
            compiled_graph_ids(project.behavior_graphs@),
        ),
        exists|reports: Seq<Seq<DiagnosticKey>>|
            {
                &&& graph_reports_fit(project.behavior_graphs@, reports)
                &&& keys(final(diagnostics)@) == keys(old(diagnostics)@) + behavior_keys(*project, reports)
            },
{
    let ghost k0 = keys(diagnostics@);
    let gs = &project.behavior_graphs;
    let programs = compile_programs(gs, diagnostics);
    let ghost k_graphs = keys(diagnostics@);
    let ghost reports = choose|reports: Seq<Seq<DiagnosticKey>>|
        {
            &&& graph_reports_fit(gs@, reports)
            &&& k_graphs == k0 + graph_keys(gs@, reports)
        };
    let pids = population_id_list(&project.base.populations);
    let population_graphs = assign_behaviors(&project.population_behaviors, &pids, &programs, diagnostics);
    let portals = portal_id_list(&project.base.semantics.portals);
    let walkable = walkable_id_list(&project.base.semantics.walkable);
    let destinations = destination_id_list(&project.base.semantics.destinations);
    let mut semantic = validate_semantics(&project.semantics, &programs, &portals, &walkable, &destinations);
    proof {
        lemma_programs_refs(
            programs,
            gs@,
            destination_ids(project.base.semantics.destinations@),
            queue_ids(project.semantics.queues@),
            lane_ids(project.semantics.lanes@),
        );
    }
    let ghost k_before = keys(diagnostics@);
    let ghost k_sem = keys(semantic@);
    diagnostics.append(&mut semantic);
    proof {
        assert(keys(diagnostics@) =~= k_before + k_sem);
        assert(keys(diagnostics@) =~= k0 + behavior_keys(*project, reports));
        assert(graph_reports_fit(gs@, reports));
    }
    (programs, population_graphs)
}

/// Check the social groups and the asset library; the asset library comes
/// back when it has no problem.
fn check_groups_and_assets(project: &AuthorableProjectV2, diagnostics: &mut Vec<AuthoringDiagnostic>) -> (r: Option<
    CompiledAssetLibrary,
>)
    requires
        authorable_fits(*project),
        project_issue_keys(project.base).len() == 0,
    ensures
        r is Some <==> asset_keys(*project).len() == 0,
        r is Some ==> keys(final(diagnostics)@) == keys(old(diagnostics)@) + social_keys(*project),
        r is None ==> keys(final(diagnostics)@).to_multiset() == (keys(old(diagnostics)@) + social_keys(*project)
            + asset_keys(*project)).to_multiset() && keys(final(diagnostics)@).len() > 0,
        r matches Some(a) ==> a.wf() && compiled_from(a.profiles(), project.assets.variations@),
{
    proof {
        lemma_checked_sources_known(project.base);
    }
    let destinations = destination_id_list(&project.base.semantics.destinations);
    let agents = compiled_agent_ids(&project.base);
    validate_groups(&project.groups, &agents, &destinations, diagnostics);
    let ghost k_groups = keys(diagnostics@);
    let ghost f = |k: DiagnosticKey| asset_problem_key(k);
    match validate_asset_library(&project.assets) {
        Ok(a) => Some(a),
        Err(errors) => {
            asset_errors(&errors, diagnostics);
            proof {
                let found = keys(errors@);
                let want = asset_library_keys(project.assets);
                lemma_map_same_multiset(found, want, f);
                vstd::seq_lib::lemma_multiset_commutative(k_groups, found.map_values(f));
                vstd::seq_lib::lemma_multiset_commutative(k_groups, want.map_values(f));
                assert(keys(diagnostics@) =~= k_groups + found.map_values(f));
                assert(asset_keys(*project) =~= want.map_values(f));
                vstd::seq_lib::to_multiset_len(want);
                vstd::seq_lib::to_multiset_len(found);
                assert(found.len() > 0);
                assert(found.map_values(f).len() > 0);
            }
            None
        },
    }
}

/// Check an authorable project as a whole.
///
/// A base project with problems stops the check: `Err` then holds the
/// version problem, if any, and the base project's report, each problem
/// under the base project code. Otherwise every layer is checked: `Err`
/// holds every problem found, sorted by entity, code and message, and `Ok`
/// holds the compiled programs, the population assignments and the asset
/// library.
pub fn compile_authorable_project(project: &AuthorableProjectV2) -> (r: Result<
    CompiledAuthorableProject,
    Vec<AuthoringDiagnostic>,
>)
    requires
        authorable_fits(*project),
    ensures
        project_issue_keys(project.base).len() > 0 ==> (r matches Err(d) && keys(d@).to_multiset()
            == base_failure_keys(*project).to_multiset() && keys_sorted(keys(d@))),
        project_issue_keys(project.base).len() == 0 ==> exists|reports: Seq<Seq<DiagnosticKey>>|
            {
                &&& graph_reports_fit(project.behavior_graphs@, reports)
                &&& (r is Ok <==> authoring_keys(*project, reports).len() == 0)
                &&& (r matches Err(d) ==> keys(d@).to_multiset() == authoring_keys(*project, reports).to_multiset()
                    && keys_sorted(keys(d@)))
            },
        r matches Ok(c) ==> {
            &&& c.wf()
            &&& programs_from(c.program_table(), project.behavior_graphs@)
            &&& text_map_view(c.assignment_table()) == assigned(
                project.population_behaviors@,
                population_ids(project.base.populations@),
                compiled_graph_ids(project.behavior_graphs@),
            )
            &&& compiled_from(c.asset_table().profiles(), project.assets.variations@)
        },
{
    let mut diagnostics: Vec<AuthoringDiagnostic> = Vec::new();
    flag(
        &mut diagnostics,
        project.schema_version != AUTHORABLE_PROJECT_SCHEMA_VERSION,
        AuthoringDiagnosticCode::UnsupportedVersion,
        owned("project"),
        version_message(project.schema_version),
    );
    let ghost k_version = keys(diagnostics@);
    proof {
        assert(k_version =~= version_keys(project.schema_version));
    }
    match check_project(&project.base) {
        Err(errors) => {
            base_errors(&errors, &mut diagnostics);
            proof {
                assert(keys(diagnostics@) =~= base_failure_keys(*project));
            }
            return Err(sort_diagnostics(diagnostics));
        },
        Ok(()) => {},
    }
    let (programs, population_graphs) = check_behaviors(project, &mut diagnostics);
    let ghost k_behavior = keys(diagnostics@);
    let ghost reports = choose|reports: Seq<Seq<DiagnosticKey>>|
        {
            &&& graph_reports_fit(project.behavior_graphs@, reports)
            &&& k_behavior == k_version + behavior_keys(*project, reports)
        };
    let compiled_assets = check_groups_and_assets(project, &mut diagnostics);
    let ghost total = authoring_keys(*project, reports);
    proof {
        assert(graph_reports_fit(project.behavior_graphs@, reports));
        assert(k_behavior + social_keys(*project) + asset_keys(*project) =~= total);
        vstd::seq_lib::to_multiset_len(keys(diagnostics@));
        vstd::seq_lib::to_multiset_len(total);
        if compiled_assets is Some {
            assert(keys(diagnostics@) =~= total);
        }
        assert(keys(diagnostics@).len() == diagnostics@.len());
    }
    match compiled_assets {
        Some(assets) => {
            if diagnostics.len() == 0 {
                return Ok(CompiledAuthorableProject { programs, population_graphs, assets });
            }
        },
        None => {},
    }
    let sorted = sort_diagnostics(diagnostics);
    proof {
        vstd::seq_lib::to_multiset_len(keys(sorted@));
    }
    Err(sorted)
}

/// The graph every migrated population runs: walk to the assigned
/// destination.
pub open spec fn is_commuter_graph(g: BehaviorGraphV1) -> bool {
    &&& g.id@ == "commuter_v1"@
    &&& g.entry_id@ == "assigned_destination"@
    &&& g.nodes@.len() == 1
    &&& g.nodes@[0] matches BehaviorNodeV1::Navigate { id, destination_id }
    &&& id@ == "assigned_destination"@
    &&& destination_id@ == "__assigned_destination"@
}

/// Lift a base project to the authorable schema: every population runs the
/// commuter graph, with no M2 semantics, groups or assets.
pub fn migrate_project_v1(base: ProjectIrV1) -> (r: AuthorableProjectV2)
    ensures
        r.schema_version == AUTHORABLE_PROJECT_SCHEMA_VERSION,
        r.base == base,
        r.behavior_graphs@.len() == 1,
        is_commuter_graph(r.behavior_graphs@[0]),
        r.population_behaviors@.len() == base.populations@.len(),
        forall|i: int|
            0 <= i < base.populations@.len() ==> (#[trigger] r.population_behaviors@[i]).population_id@
                == base.populations@[i].id@ && r.population_behaviors@[i].graph_id@ == "commuter_v1"@,
        r.semantics.queues@.len() == 0,
        r.semantics.lanes@.len() == 0,
        r.semantics.cost_regions@.len() == 0,
        r.groups@.len() == 0,
        r.assets.retarget_profiles@.len() == 0,
        r.assets.clips@.len() == 0,
        r.assets.variations@.len() == 0,
{
    let mut population_behaviors: Vec<PopulationBehaviorV2> = Vec::new();
    let mut i: usize = 0;
    while i < base.populations.len()
        invariant
            i <= base.populations@.len(),
            population_behaviors@.len() == i,
            forall|j: int|
                0 <= j < i ==> (#[trigger] population_behaviors@[j]).population_id@ == base.populations@[j].id@
                    && population_behaviors@[j].graph_id@ == "commuter_v1"@,
        decreases base.populations@.len() - i,
    {
        population_behaviors.push(
            PopulationBehaviorV2 { population_id: base.populations[i].id.clone(), graph_id: owned("commuter_v1") },
        );
        i = i + 1;
    }
    let node = BehaviorNodeV1::Navigate {
        id: owned("assigned_destination"),
        destination_id: owned("__assigned_destination"),
    };
    let mut behavior_graphs: Vec<BehaviorGraphV1> = Vec::new();
    behavior_graphs.push(
        BehaviorGraphV1 { id: owned("commuter_v1"), entry_id: owned("assigned_destination"), nodes: vec![node] },
    );
    AuthorableProjectV2 {
        schema_version: AUTHORABLE_PROJECT_SCHEMA_VERSION,
        base,
        behavior_graphs,
        population_behaviors,
        semantics: AuthorableSemanticsV2 { queues: Vec::new(), lanes: Vec::new(), cost_regions: Vec::new() },
        groups: Vec::new(),
        assets: AssetLibraryV1 { retarget_profiles: Vec::new(), clips: Vec::new(), variations: Vec::new() },
    }
}

} // verus!
