//! Typed, bounded behavior-graph authoring IR and deterministic compiler.
//!
//! The graph is data, not callbacks: it can be validated before a bake and
//! lowered to an index-addressed program whose evaluation always terminates.

use vstd::prelude::*;
use crate::diagnostics::{Diagnostic, DiagnosticKey, keys, keys_sorted, sort_diagnostics};
use crate::keyed::{TextMap, sorted_keys, strictly_sorted, lemma_sorted_distinct};
use crate::route::{is_walk, reachable, count_unmarked, lemma_mark_decreases, lemma_closed_walk, lemma_count_none_marked};
use crate::text::{join3, owned, str_eq, text_lt, compare_str, TextOrder};
use crate::ids::{AgentId, fnv1a, hash_combine, hash_combine_spec, hash_str, mix64_spec};
use vstd::utf8::encode_utf8;

verus! {

/// An authored behavior graph.
#[derive(Debug)]
pub struct BehaviorGraphV1 {
    pub id: String,
    pub entry_id: String,
    pub nodes: Vec<BehaviorNodeV1>,
}

/// A child of a utility selector, scored by a numeric observation.
#[derive(Debug)]
pub struct UtilityOptionV1 {
    pub child: String,
    pub score_key: String,
}

/// A branch of a state switch, taken when the state equals `value`.
#[derive(Debug)]
pub struct StateBranchV1 {
    pub value: i32,
    pub child: String,
}

/// One node of a behavior graph.
#[derive(Debug)]
pub enum BehaviorNodeV1 {
    Selector { id: String, children: Vec<String> },
    Sequence { id: String, children: Vec<String> },
    Fallback { id: String, children: Vec<String> },
    UtilitySelector { id: String, options: Vec<UtilityOptionV1> },
    StateSwitch { id: String, state_key: String, branches: Vec<StateBranchV1>, fallback: String },
    Interrupt { id: String, condition_key: String, child: String },
    Timer { id: String, ticks: u32, child: String },
    Probability { id: String, probability_millionths: u32, child: String },
    Event { id: String, event_type: String, child: String },
    BlackboardCompare { id: String, key: String, child: String },
    Navigate { id: String, destination_id: String },
    Wait { id: String, ticks: u32 },
    Queue { id: String, queue_id: String },
    FollowLane { id: String, lane_id: String },
    HoldPosition { id: String },
}

/// The texts of a list of strings.
pub open spec fn texts(v: Seq<String>) -> Seq<Seq<char>> {
    v.map_values(|s: String| s@)
}

impl BehaviorNodeV1 {
    /// The node's ID.
    pub open spec fn node_id(&self) -> Seq<char> {
        match self {
            BehaviorNodeV1::Selector { id, .. } => id@,
            BehaviorNodeV1::Sequence { id, .. } => id@,
            BehaviorNodeV1::Fallback { id, .. } => id@,
            BehaviorNodeV1::UtilitySelector { id, .. } => id@,
            BehaviorNodeV1::StateSwitch { id, .. } => id@,
            BehaviorNodeV1::Interrupt { id, .. } => id@,
            BehaviorNodeV1::Timer { id, .. } => id@,
            BehaviorNodeV1::Probability { id, .. } => id@,
            BehaviorNodeV1::Event { id, .. } => id@,
            BehaviorNodeV1::BlackboardCompare { id, .. } => id@,
            BehaviorNodeV1::Navigate { id, .. } => id@,
            BehaviorNodeV1::Wait { id, .. } => id@,
            BehaviorNodeV1::Queue { id, .. } => id@,
            BehaviorNodeV1::FollowLane { id, .. } => id@,
            BehaviorNodeV1::HoldPosition { id } => id@,
        }
    }

    /// The IDs the node refers to, in evaluation order.
    pub open spec fn child_ids(&self) -> Seq<Seq<char>> {
        match self {
            BehaviorNodeV1::Selector { children, .. } => texts(children@),
            BehaviorNodeV1::Sequence { children, .. } => texts(children@),
            BehaviorNodeV1::Fallback { children, .. } => texts(children@),
            BehaviorNodeV1::UtilitySelector { options, .. } => options@.map_values(|o: UtilityOptionV1| o.child@),
            BehaviorNodeV1::StateSwitch { branches, fallback, .. } => branches@.map_values(
                |b: StateBranchV1| b.child@,
            ).push(fallback@),
            BehaviorNodeV1::Interrupt { child, .. } => seq![child@],
            BehaviorNodeV1::Timer { child, .. } => seq![child@],
            BehaviorNodeV1::Probability { child, .. } => seq![child@],
            BehaviorNodeV1::Event { child, .. } => seq![child@],
            BehaviorNodeV1::BlackboardCompare { child, .. } => seq![child@],
            _ => Seq::empty(),
        }
    }

    /// What the node's parameters lack, if anything.
    pub open spec fn parameter_problem(&self) -> Option<Seq<char>> {
        match self {
            BehaviorNodeV1::Selector { children, .. } => if children@.len() == 0 {
                Some("add at least one child"@)
            } else {
                None
            },
            BehaviorNodeV1::Sequence { children, .. } => if children@.len() == 0 {
                Some("add at least one child"@)
            } else {
                None
            },
            BehaviorNodeV1::Fallback { children, .. } => if children@.len() == 0 {
                Some("add at least one child"@)
            } else {
                None
            },
            BehaviorNodeV1::UtilitySelector { options, .. } => if options@.len() == 0 || exists|i: int|
                0 <= i < options@.len() && ((#[trigger] options@[i]).child@.len() == 0 || options@[i].score_key@.len()
                    == 0) {
                Some("add at least one child with a numeric score key"@)
            } else {
                None
            },
            BehaviorNodeV1::StateSwitch { state_key, branches, fallback, .. } => if state_key@.len() == 0
                || branches@.len() == 0 || fallback@.len() == 0 {
                Some("set a state key, at least one branch, and a fallback"@)
            } else {
                None
            },
            BehaviorNodeV1::Timer { ticks, .. } => if *ticks == 0 {
                Some("set ticks to a positive value"@)
            } else {
                None
            },
            BehaviorNodeV1::Wait { ticks, .. } => if *ticks == 0 {
                Some("set ticks to a positive value"@)
            } else {
                None
            },
            BehaviorNodeV1::Probability { probability_millionths, .. } => if *probability_millionths > 1_000_000 {
                Some("set probability_millionths between 0 and 1000000"@)
            } else {
                None
            },
            BehaviorNodeV1::Interrupt { condition_key, .. } => if condition_key@.len() == 0 {
                Some("set a blackboard condition key"@)
            } else {
                None
            },
            BehaviorNodeV1::Event { event_type, .. } => if event_type@.len() == 0 {
                Some("set an event type"@)
            } else {
                None
            },
            BehaviorNodeV1::BlackboardCompare { key, .. } => if key@.len() == 0 {
                Some("set a blackboard key"@)
            } else {
                None
            },
            BehaviorNodeV1::Navigate { destination_id, .. } => if destination_id@.len() == 0 {
                Some("set a destination ID"@)
            } else {
                None
            },
            BehaviorNodeV1::Queue { queue_id, .. } => if queue_id@.len() == 0 {
                Some("set a queue ID"@)
            } else {
                None
            },
            BehaviorNodeV1::FollowLane { lane_id, .. } => if lane_id@.len() == 0 {
                Some("set a lane ID"@)
            } else {
                None
            },
            BehaviorNodeV1::HoldPosition { .. } => None,
        }
    }

    /// The node's ID.
    pub fn id(&self) -> (r: &str)
        ensures
            r@ == self.node_id(),
    {
        match self {
            BehaviorNodeV1::Selector { id, .. } => id.as_str(),
            BehaviorNodeV1::Sequence { id, .. } => id.as_str(),
            BehaviorNodeV1::Fallback { id, .. } => id.as_str(),
            BehaviorNodeV1::UtilitySelector { id, .. } => id.as_str(),
            BehaviorNodeV1::StateSwitch { id, .. } => id.as_str(),
            BehaviorNodeV1::Interrupt { id, .. } => id.as_str(),
            BehaviorNodeV1::Timer { id, .. } => id.as_str(),
            BehaviorNodeV1::Probability { id, .. } => id.as_str(),
            BehaviorNodeV1::Event { id, .. } => id.as_str(),
            BehaviorNodeV1::BlackboardCompare { id, .. } => id.as_str(),
            BehaviorNodeV1::Navigate { id, .. } => id.as_str(),
            BehaviorNodeV1::Wait { id, .. } => id.as_str(),
            BehaviorNodeV1::Queue { id, .. } => id.as_str(),
            BehaviorNodeV1::FollowLane { id, .. } => id.as_str(),
            BehaviorNodeV1::HoldPosition { id } => id.as_str(),
        }
    }

    /// The IDs the node refers to, in evaluation order.
    pub fn children(&self) -> (r: Vec<String>)
        ensures
            texts(r@) == self.child_ids(),
    {
        let mut out: Vec<String> = Vec::new();
        match self {
            BehaviorNodeV1::Selector { children, .. }
            | BehaviorNodeV1::Sequence { children, .. }
            | BehaviorNodeV1::Fallback { children, .. } => {
                let mut i: usize = 0;
                while i < children.len()
                    invariant
                        i <= children@.len(),
                        texts(out@) == texts(children@).take(i as int),
                    decreases children@.len() - i,
                {
                    let ghost prior = out@;
                    out.push(children[i].clone());
                    proof {
                        assert(texts(out@) =~= texts(prior).push(children@[i as int]@));
                        assert(texts(children@).take(i + 1) =~= texts(children@).take(i as int).push(children@[i as int]@));
                    }
                    i = i + 1;
                }
                assert(texts(children@).take(children@.len() as int) =~= texts(children@));
            },
            BehaviorNodeV1::UtilitySelector { options, .. } => {
                let ghost want = options@.map_values(|o: UtilityOptionV1| o.child@);
                let mut i: usize = 0;
                while i < options.len()
                    invariant
                        want == options@.map_values(|o: UtilityOptionV1| o.child@),
                        i <= options@.len(),
                        texts(out@) == want.take(i as int),
                    decreases options@.len() - i,
                {
                    let ghost prior = out@;
                    out.push(options[i].child.clone());
                    proof {
                        assert(texts(out@) =~= texts(prior).push(options@[i as int].child@));
                        assert(want.take(i + 1) =~= want.take(i as int).push(options@[i as int].child@));
                    }
                    i = i + 1;
                }
                assert(want.take(options@.len() as int) =~= want);
            },
            BehaviorNodeV1::StateSwitch { branches, fallback, .. } => {
                let ghost want = branches@.map_values(|b: StateBranchV1| b.child@);
                let mut i: usize = 0;
                while i < branches.len()
                    invariant
                        want == branches@.map_values(|b: StateBranchV1| b.child@),
                        i <= branches@.len(),
                        texts(out@) == want.take(i as int),
                    decreases branches@.len() - i,
                {
                    let ghost prior = out@;
                    out.push(branches[i].child.clone());
                    proof {
                        assert(texts(out@) =~= texts(prior).push(branches@[i as int].child@));
                        assert(want.take(i + 1) =~= want.take(i as int).push(branches@[i as int].child@));
                    }
                    i = i + 1;
                }
                assert(want.take(branches@.len() as int) =~= want);
                let ghost prior = out@;
                out.push(fallback.clone());
                assert(texts(out@) =~= texts(prior).push(fallback@));
            },
            BehaviorNodeV1::Interrupt { child, .. }
            | BehaviorNodeV1::Timer { child, .. }
            | BehaviorNodeV1::Probability { child, .. }
            | BehaviorNodeV1::Event { child, .. }
            | BehaviorNodeV1::BlackboardCompare { child, .. } => {
                out.push(child.clone());
                assert(texts(out@) =~= seq![child@]);
            },
            _ => {
                assert(texts(out@) =~= Seq::<Seq<char>>::empty());
            },
        }
        out
    }

    /// What the node's parameters lack, if anything.
    pub fn validate_parameters(&self) -> (r: Option<&'static str>)
        ensures
            r is Some <==> self.parameter_problem() is Some,
            r matches Some(m) ==> self.parameter_problem() == Some(m@),
    {
        match self {
            BehaviorNodeV1::Selector { children, .. }
            | BehaviorNodeV1::Sequence { children, .. }
            | BehaviorNodeV1::Fallback { children, .. } => if children.len() == 0 {
                Some("add at least one child")
            } else {
                None
            },
            BehaviorNodeV1::UtilitySelector { options, .. } => {
                let mut bad = options.len() == 0;
                let mut i: usize = 0;
                while i < options.len()
                    invariant
                        i <= options@.len(),
                        bad == (options@.len() == 0 || exists|j: int|
                            0 <= j < i && ((#[trigger] options@[j]).child@.len() == 0 || options@[j].score_key@.len()
                                == 0)),
                    decreases options@.len() - i,
                {
                    if options[i].child.as_str().is_empty() || options[i].score_key.as_str().is_empty() {
                        bad = true;
                    }
                    i = i + 1;
                }
                if bad {
                    Some("add at least one child with a numeric score key")
                } else {
                    None
                }
            },
            BehaviorNodeV1::StateSwitch { state_key, branches, fallback, .. } => if state_key.as_str().is_empty()
                || branches.len() == 0 || fallback.as_str().is_empty() {
                Some("set a state key, at least one branch, and a fallback")
            } else {
                None
            },
            BehaviorNodeV1::Timer { ticks, .. } | BehaviorNodeV1::Wait { ticks, .. } => if *ticks == 0 {
                Some("set ticks to a positive value")
            } else {
                None
            },
            BehaviorNodeV1::Probability { probability_millionths, .. } => if *probability_millionths > 1_000_000 {
                Some("set probability_millionths between 0 and 1000000")
            } else {
                None
            },
            BehaviorNodeV1::Interrupt { condition_key, .. } => if condition_key.as_str().is_empty() {
                Some("set a blackboard condition key")
            } else {
                None
            },
            BehaviorNodeV1::Event { event_type, .. } => if event_type.as_str().is_empty() {
                Some("set an event type")
            } else {
                None
            },
            BehaviorNodeV1::BlackboardCompare { key, .. } => if key.as_str().is_empty() {
                Some("set a blackboard key")
            } else {
                None
            },
            BehaviorNodeV1::Navigate { destination_id, .. } => if destination_id.as_str().is_empty() {
                Some("set a destination ID")
            } else {
                None
            },
            BehaviorNodeV1::Queue { queue_id, .. } => if queue_id.as_str().is_empty() {
                Some("set a queue ID")
            } else {
                None
            },
            BehaviorNodeV1::FollowLane { lane_id, .. } => if lane_id.as_str().is_empty() {
                Some("set a lane ID")
            } else {
                None
            },
            BehaviorNodeV1::HoldPosition { .. } => None,
        }
    }
}

/// An exact copy of a list of strings.
fn duplicate_strings(v: &Vec<String>) -> (r: Vec<String>)
    ensures
        r@ == v@,
{
    let mut out: Vec<String> = Vec::new();
    let mut i: usize = 0;
    while i < v.len()
        invariant
            i <= v@.len(),
            out@ == v@.take(i as int),
        decreases v@.len() - i,
    {
        out.push(v[i].clone());
        proof {
            assert(v@.take(i + 1) =~= v@.take(i as int).push(v@[i as int]));
        }
        i = i + 1;
    }
    assert(v@.take(v@.len() as int) =~= v@);
    out
}

impl UtilityOptionV1 {
    /// An exact copy.
    pub fn duplicate(&self) -> (r: Self)
        ensures
            r == *self,
    {
        UtilityOptionV1 { child: self.child.clone(), score_key: self.score_key.clone() }
    }
}

impl StateBranchV1 {
    /// An exact copy.
    pub fn duplicate(&self) -> (r: Self)
        ensures
            r == *self,
    {
        StateBranchV1 { value: self.value, child: self.child.clone() }
    }
}

fn duplicate_options(v: &Vec<UtilityOptionV1>) -> (r: Vec<UtilityOptionV1>)
    ensures
        r@ == v@,
{
    let mut out: Vec<UtilityOptionV1> = Vec::new();
    let mut i: usize = 0;
    while i < v.len()
        invariant
            i <= v@.len(),
            out@ == v@.take(i as int),
        decreases v@.len() - i,
    {
        out.push(v[i].duplicate());
        proof {
            assert(v@.take(i + 1) =~= v@.take(i as int).push(v@[i as int]));
        }
        i = i + 1;
    }
    assert(v@.take(v@.len() as int) =~= v@);
    out
}

fn duplicate_branches(v: &Vec<StateBranchV1>) -> (r: Vec<StateBranchV1>)
    ensures
        r@ == v@,
{
    let mut out: Vec<StateBranchV1> = Vec::new();
    let mut i: usize = 0;
    while i < v.len()
        invariant
            i <= v@.len(),
            out@ == v@.take(i as int),
        decreases v@.len() - i,
    {
        out.push(v[i].duplicate());
        proof {
            assert(v@.take(i + 1) =~= v@.take(i as int).push(v@[i as int]));
        }
        i = i + 1;
    }
    assert(v@.take(v@.len() as int) =~= v@);
    out
}

/// Two nodes of the same kind with the same fields.
pub open spec fn same_node(a: BehaviorNodeV1, b: BehaviorNodeV1) -> bool {
    match (a, b) {
        (BehaviorNodeV1::Selector { id: x, children: c }, BehaviorNodeV1::Selector { id: y, children: d }) => x
            == y && c@ == d@,
        (BehaviorNodeV1::Sequence { id: x, children: c }, BehaviorNodeV1::Sequence { id: y, children: d }) => x
            == y && c@ == d@,
        (BehaviorNodeV1::Fallback { id: x, children: c }, BehaviorNodeV1::Fallback { id: y, children: d }) => x
            == y && c@ == d@,
        (
            BehaviorNodeV1::UtilitySelector { id: x, options: c },
            BehaviorNodeV1::UtilitySelector { id: y, options: d },
        ) => x == y && c@ == d@,
        (
            BehaviorNodeV1::StateSwitch { id: x, state_key: k1, branches: c, fallback: f1 },
            BehaviorNodeV1::StateSwitch { id: y, state_key: k2, branches: d, fallback: f2 },
        ) => x == y && k1 == k2 && c@ == d@ && f1 == f2,
        (_, _) => a == b,
    }
}

proof fn lemma_same_node_facts(a: BehaviorNodeV1, b: BehaviorNodeV1)
    requires
        same_node(a, b),
    ensures
        a.node_id() == b.node_id(),
        a.child_ids() == b.child_ids(),
        a.parameter_problem() == b.parameter_problem(),
{
}

impl BehaviorNodeV1 {
    /// An exact copy.
    pub fn duplicate(&self) -> (r: Self)
        ensures
            same_node(r, *self),
    {
        match self {
            BehaviorNodeV1::Selector { id, children } => BehaviorNodeV1::Selector {
                id: id.clone(),
                children: duplicate_strings(children),
            },
            BehaviorNodeV1::Sequence { id, children } => BehaviorNodeV1::Sequence {
                id: id.clone(),
                children: duplicate_strings(children),
            },
            BehaviorNodeV1::Fallback { id, children } => BehaviorNodeV1::Fallback {
                id: id.clone(),
                children: duplicate_strings(children),
            },
            BehaviorNodeV1::UtilitySelector { id, options } => BehaviorNodeV1::UtilitySelector {
                id: id.clone(),
                options: duplicate_options(options),
            },
            BehaviorNodeV1::StateSwitch { id, state_key, branches, fallback } => BehaviorNodeV1::StateSwitch {
                id: id.clone(),
                state_key: state_key.clone(),
                branches: duplicate_branches(branches),
                fallback: fallback.clone(),
            },
            BehaviorNodeV1::Interrupt { id, condition_key, child } => BehaviorNodeV1::Interrupt {
                id: id.clone(),
                condition_key: condition_key.clone(),
                child: child.clone(),
            },
            BehaviorNodeV1::Timer { id, ticks, child } => BehaviorNodeV1::Timer {
                id: id.clone(),
                ticks: *ticks,
                child: child.clone(),
            },
            BehaviorNodeV1::Probability { id, probability_millionths, child } => BehaviorNodeV1::Probability {
                id: id.clone(),
                probability_millionths: *probability_millionths,
                child: child.clone(),
            },
            BehaviorNodeV1::Event { id, event_type, child } => BehaviorNodeV1::Event {
                id: id.clone(),
                event_type: event_type.clone(),
                child: child.clone(),
            },
            BehaviorNodeV1::BlackboardCompare { id, key, child } => BehaviorNodeV1::BlackboardCompare {
                id: id.clone(),
                key: key.clone(),
                child: child.clone(),
            },
            BehaviorNodeV1::Navigate { id, destination_id } => BehaviorNodeV1::Navigate {
                id: id.clone(),
                destination_id: destination_id.clone(),
            },
            BehaviorNodeV1::Wait { id, ticks } => BehaviorNodeV1::Wait { id: id.clone(), ticks: *ticks },
            BehaviorNodeV1::Queue { id, queue_id } => BehaviorNodeV1::Queue {
                id: id.clone(),
                queue_id: queue_id.clone(),
            },
            BehaviorNodeV1::FollowLane { id, lane_id } => BehaviorNodeV1::FollowLane {
                id: id.clone(),
                lane_id: lane_id.clone(),
            },
            BehaviorNodeV1::HoldPosition { id } => BehaviorNodeV1::HoldPosition { id: id.clone() },
        }
    }
}

/// What is wrong with a behavior graph; the variant order is the report
/// order.
#[derive(Clone, Copy, Debug, PartialEq, Eq, PartialOrd, Ord, Structural)]
pub enum GraphDiagnosticCode {
    EmptyGraph,
    DuplicateNode,
    MissingEntry,
    MissingNode,
    Cycle,
    UnreachableNode,
    InvalidNode,
}

impl GraphDiagnosticCode {
    /// The position of the code in report order.
    pub open spec fn rank(self) -> nat {
        match self {
            GraphDiagnosticCode::EmptyGraph => 0,
            GraphDiagnosticCode::DuplicateNode => 1,
            GraphDiagnosticCode::MissingEntry => 2,
            GraphDiagnosticCode::MissingNode => 3,
            GraphDiagnosticCode::Cycle => 4,
            GraphDiagnosticCode::UnreachableNode => 5,
            GraphDiagnosticCode::InvalidNode => 6,
        }
    }

    pub fn rank_of(self) -> (r: u8)
        ensures
            r as nat == self.rank(),
    {
        match self {
            GraphDiagnosticCode::EmptyGraph => 0,
            GraphDiagnosticCode::DuplicateNode => 1,
            GraphDiagnosticCode::MissingEntry => 2,
            GraphDiagnosticCode::MissingNode => 3,
            GraphDiagnosticCode::Cycle => 4,
            GraphDiagnosticCode::UnreachableNode => 5,
            GraphDiagnosticCode::InvalidNode => 6,
        }
    }
}

/// One problem found in a behavior graph.
#[derive(Debug)]
pub struct GraphDiagnostic {
    pub code: GraphDiagnosticCode,
    pub node_id: String,
    pub message: String,
}

/// The key of a diagnostic with these parts.
pub open spec fn graph_key(code: GraphDiagnosticCode, node_id: Seq<char>, message: Seq<char>) -> DiagnosticKey {
    (0, node_id, code.rank(), message)
}

impl Diagnostic for GraphDiagnostic {
    open spec fn key(&self) -> DiagnosticKey {
        graph_key(self.code, self.node_id@, self.message@)
    }

    fn class_rank(&self) -> (r: u8) {
        0
    }

    fn subject_str(&self) -> (r: &str) {
        self.node_id.as_str()
    }

    fn code_rank(&self) -> (r: u8) {
        self.code.rank_of()
    }

    fn message_str(&self) -> (r: &str) {
        self.message.as_str()
    }
}

/// `d` when `cond` holds, nothing otherwise.
pub open spec fn key_when(cond: bool, d: DiagnosticKey) -> Seq<DiagnosticKey> {
    if cond {
        seq![d]
    } else {
        Seq::empty()
    }
}

/// Record `code` about `node_id` with `message` when `cond` holds.
fn report_when(diagnostics: &mut Vec<GraphDiagnostic>, cond: bool, code: GraphDiagnosticCode, node_id: &str, message: String)
    ensures
        keys(final(diagnostics)@) == keys(old(diagnostics)@) + key_when(cond, graph_key(code, node_id@, message@)),
{
    if cond {
        let d = GraphDiagnostic { code, node_id: owned(node_id), message };
        diagnostics.push(d);
        proof {
            assert(keys(diagnostics@) =~= keys(old(diagnostics)@).push(d.key()));
        }
    }
    proof {
        assert(keys(diagnostics@) =~= keys(old(diagnostics)@) + key_when(cond, graph_key(code, node_id@, message@)));
    }
}

// ---------------------------------------------------------------------------
// Compilation: the checks that need no traversal
// ---------------------------------------------------------------------------

/// The position of the last node with each non-empty ID.
pub open spec fn last_index_map(nodes: Seq<BehaviorNodeV1>) -> Map<Seq<char>, usize>
    decreases nodes.len(),
{
    if nodes.len() == 0 {
        Map::empty()
    } else {
        let k = nodes.len() - 1;
        let m = last_index_map(nodes.take(k));
        if nodes[k].node_id().len() == 0 {
            m
        } else {
            m.insert(nodes[k].node_id(), k as usize)
        }
    }
}

proof fn lemma_last_index_map(nodes: Seq<BehaviorNodeV1>)
    requires
        nodes.len() <= usize::MAX,
    ensures
        forall|key: Seq<char>| #[trigger] last_index_map(nodes).dom().contains(key) ==> {
            &&& last_index_map(nodes)[key] < nodes.len()
            &&& nodes[last_index_map(nodes)[key] as int].node_id() == key
            &&& key.len() > 0
        },
        forall|i: int| 0 <= i < nodes.len() && nodes[i].node_id().len() > 0 ==> #[trigger] last_index_map(
            nodes,
        ).dom().contains(nodes[i].node_id()),
    decreases nodes.len(),
{
    if nodes.len() > 0 {
        let k = nodes.len() - 1;
        let pre = nodes.take(k);
        lemma_last_index_map(pre);
        let m = last_index_map(pre);
        assert(last_index_map(nodes) == if nodes[k].node_id().len() == 0 {
            m
        } else {
            m.insert(nodes[k].node_id(), k as usize)
        });
        assert forall|key: Seq<char>| #[trigger] last_index_map(nodes).dom().contains(key) implies {
            &&& last_index_map(nodes)[key] < nodes.len()
            &&& nodes[last_index_map(nodes)[key] as int].node_id() == key
            &&& key.len() > 0
        } by {
            if nodes[k].node_id().len() == 0 || key != nodes[k].node_id() {
                assert(last_index_map(pre).dom().contains(key));
                assert(pre[last_index_map(pre)[key] as int] == nodes[last_index_map(pre)[key] as int]);
            }
        }
        assert forall|i: int| 0 <= i < nodes.len() && nodes[i].node_id().len() > 0 implies #[trigger] last_index_map(
            nodes,
        ).dom().contains(nodes[i].node_id()) by {
            if i < k {
                assert(pre[i] == nodes[i]);
                assert(m.dom().contains(pre[i].node_id()));
            }
        }
    }
}

/// What is wrong with node `k`, given the nodes before it.
pub open spec fn node_keys(nodes: Seq<BehaviorNodeV1>, k: int) -> Seq<DiagnosticKey> {
    let n = nodes[k];
    let id = n.node_id();
    if id.len() == 0 {
        seq![graph_key(GraphDiagnosticCode::InvalidNode, "<unnamed>"@, "give every node a stable ID"@)]
    } else {
        key_when(
            last_index_map(nodes.take(k)).dom().contains(id),
            graph_key(GraphDiagnosticCode::DuplicateNode, id, "rename the duplicate node ID"@),
        ) + match n.parameter_problem() {
            Some(m) => seq![graph_key(GraphDiagnosticCode::InvalidNode, id, m)],
            None => Seq::empty(),
        }
    }
}

pub open spec fn all_node_keys(nodes: Seq<BehaviorNodeV1>) -> Seq<DiagnosticKey>
    decreases nodes.len(),
{
    if nodes.len() == 0 {
        Seq::empty()
    } else {
        all_node_keys(nodes.take(nodes.len() - 1)) + node_keys(nodes, nodes.len() - 1)
    }
}

/// The children of node `id` that name no node.
pub open spec fn missing_child_keys(id: Seq<char>, children: Seq<Seq<char>>, known: Set<Seq<char>>) -> Seq<
    DiagnosticKey,
>
    decreases children.len(),
{
    if children.len() == 0 {
        Seq::empty()
    } else {
        let c = children.last();
        missing_child_keys(id, children.drop_last(), known) + key_when(
            !known.contains(c),
            graph_key(
                GraphDiagnosticCode::MissingNode,
                id,
                "connect to an existing node instead of '"@ + c + "'"@,
            ),
        )
    }
}

/// The node kept under `key`: the last with that ID.
pub open spec fn node_for(nodes: Seq<BehaviorNodeV1>, key: Seq<char>) -> BehaviorNodeV1 {
    nodes[last_index_map(nodes)[key] as int]
}

pub open spec fn all_missing_child_keys(ids: Seq<Seq<char>>, nodes: Seq<BehaviorNodeV1>) -> Seq<DiagnosticKey>
    decreases ids.len(),
{
    if ids.len() == 0 {
        Seq::empty()
    } else {
        let key = ids.last();
        all_missing_child_keys(ids.drop_last(), nodes) + missing_child_keys(
            key,
            node_for(nodes, key).child_ids(),
            last_index_map(nodes).dom(),
        )
    }
}

/// The node IDs of the compiled program, in order.
pub open spec fn program_ids(graph: BehaviorGraphV1) -> Seq<Seq<char>> {
    sorted_keys(last_index_map(graph.nodes@).dom())
}

/// Every problem found before the graph is traversed, in the order found.
pub open spec fn graph_problem_keys(graph: BehaviorGraphV1) -> Seq<DiagnosticKey> {
    let m = last_index_map(graph.nodes@);
    key_when(
        graph.id@.len() == 0 || graph.nodes@.len() == 0,
        graph_key(GraphDiagnosticCode::EmptyGraph, graph.id@, "add a graph ID and at least one node"@),
    ) + all_node_keys(graph.nodes@) + key_when(
        !m.dom().contains(graph.entry_id@),
        graph_key(GraphDiagnosticCode::MissingEntry, graph.entry_id@, "choose an existing entry node"@),
    ) + all_missing_child_keys(program_ids(graph), graph.nodes@)
}

/// Report nodes without ID, repeated IDs and bad parameters; key the nodes
/// by ID, the last of each ID winning.
fn node_pass(diagnostics: &mut Vec<GraphDiagnostic>, nodes: &Vec<BehaviorNodeV1>) -> (by_id: TextMap<usize>)
    ensures
        keys(final(diagnostics)@) == keys(old(diagnostics)@) + all_node_keys(nodes@),
        by_id.wf(),
        by_id.as_map() == last_index_map(nodes@),
        by_id.keys().len() <= nodes@.len(),
{
    let ghost start = keys(diagnostics@);
    let mut by_id: TextMap<usize> = TextMap::new();
    let mut k: usize = 0;
    proof {
        assert(nodes@.take(0) =~= Seq::<BehaviorNodeV1>::empty());
        assert(keys(diagnostics@) =~= start + all_node_keys(nodes@.take(0)));
        assert(by_id.as_map() =~= last_index_map(nodes@.take(0)));
    }
    while k < nodes.len()
        invariant
            k <= nodes@.len(),
            start == keys(old(diagnostics)@),
            keys(diagnostics@) == start + all_node_keys(nodes@.take(k as int)),
            by_id.wf(),
            by_id.as_map() == last_index_map(nodes@.take(k as int)),
            by_id.keys().len() <= k,
        decreases nodes@.len() - k,
    {
        let node = &nodes[k];
        let id = node.id();
        let ghost pre = nodes@.take(k as int);
        let ghost next = nodes@.take(k + 1);
        proof {
            assert(next.take(k as int) =~= pre);
            assert(next[k as int] == nodes@[k as int]);
            assert(next.len() - 1 == k);
        }
        if id.is_empty() {
            report_when(
                diagnostics,
                true,
                GraphDiagnosticCode::InvalidNode,
                "<unnamed>",
                owned("give every node a stable ID"),
            );
            proof {
                assert(keys(diagnostics@) =~= start + all_node_keys(next));
            }
        } else {
            let previous = by_id.insert(owned(id), k);
            report_when(
                diagnostics,
                previous.is_some(),
                GraphDiagnosticCode::DuplicateNode,
                id,
                owned("rename the duplicate node ID"),
            );
            match node.validate_parameters() {
                Some(m) => {
                    report_when(diagnostics, true, GraphDiagnosticCode::InvalidNode, id, owned(m));
                },
                None => {},
            }
            proof {
                assert(keys(diagnostics@) =~= start + all_node_keys(next));
            }
        }
        k = k + 1;
    }
    assert(nodes@.take(nodes@.len() as int) =~= nodes@);
    by_id
}

/// Report each child, of each kept node in ID order, that names no node.
fn child_pass(diagnostics: &mut Vec<GraphDiagnostic>, nodes: &Vec<BehaviorNodeV1>, by_id: &TextMap<usize>)
    requires
        by_id.wf(),
        by_id.as_map() == last_index_map(nodes@),
    ensures
        keys(final(diagnostics)@) == keys(old(diagnostics)@) + all_missing_child_keys(
            sorted_keys(last_index_map(nodes@).dom()),
            nodes@,
        ),
{
    let ghost start = keys(diagnostics@);
    let ghost ids = by_id.keys();
    let ghost known = last_index_map(nodes@).dom();
    let node_count = nodes.len();
    proof {
        by_id.lemma_keys_sorted();
        lemma_last_index_map(nodes@);
        assert(ids.take(0) =~= Seq::<Seq<char>>::empty());
        assert(keys(diagnostics@) =~= start + all_missing_child_keys(ids.take(0), nodes@));
    }
    let n = by_id.len();
    let mut i: usize = 0;
    while i < n
        invariant
            by_id.wf(),
            by_id.as_map() == last_index_map(nodes@),
            ids == by_id.keys(),
            known == last_index_map(nodes@).dom(),
            n == ids.len(),
            i <= n,
            start == keys(old(diagnostics)@),
            keys(diagnostics@) == start + all_missing_child_keys(ids.take(i as int), nodes@),
            forall|key: Seq<char>| #[trigger] last_index_map(nodes@).dom().contains(key) ==> last_index_map(
                nodes@,
            )[key] < nodes@.len(),
        decreases n - i,
    {
        let key = by_id.key_at(i);
        let index = *by_id.value_at(i);
        proof {
            by_id.lemma_lookup(i as int);
        }
        let node = &nodes[index];
        let children = node.children();
        let ghost before = keys(diagnostics@);
        let ghost kids = texts(children@);
        let mut c: usize = 0;
        proof {
            assert(kids.take(0) =~= Seq::<Seq<char>>::empty());
            assert(keys(diagnostics@) =~= before + missing_child_keys(key@, kids.take(0), known));
        }
        while c < children.len()
            invariant
                by_id.wf(),
                by_id.as_map() == last_index_map(nodes@),
                known == last_index_map(nodes@).dom(),
                kids == texts(children@),
                c <= children@.len(),
                keys(diagnostics@) == before + missing_child_keys(key@, kids.take(c as int), known),
            decreases children@.len() - c,
        {
            let child = children[c].as_str();
            let present = by_id.contains_key(child);
            proof {
                assert(kids.take(c + 1).drop_last() =~= kids.take(c as int));
                assert(kids.take(c + 1).last() == child@);
            }
            report_when(
                diagnostics,
                !present,
                GraphDiagnosticCode::MissingNode,
                key.as_str(),
                join3("connect to an existing node instead of '", child, "'"),
            );
            proof {
                assert(keys(diagnostics@) =~= before + missing_child_keys(key@, kids.take(c + 1), known));
            }
            c = c + 1;
        }
        proof {
            assert(kids.take(children@.len() as int) =~= kids);
            assert(ids.take(i + 1).drop_last() =~= ids.take(i as int));
            assert(ids.take(i + 1).last() == key@);
            assert(node_for(nodes@, key@) == nodes@[index as int]);
            assert(keys(diagnostics@) =~= start + all_missing_child_keys(ids.take(i + 1), nodes@));
        }
        i = i + 1;
    }
    assert(ids.take(n as int) =~= ids);
}

// ---------------------------------------------------------------------------
// Compilation: the depth-first traversal
// ---------------------------------------------------------------------------

/// Node `x` lies on a closed walk.
pub open spec fn on_cycle(adj: Seq<Seq<u32>>, x: u32) -> bool {
    exists|path: Seq<u32>| path.len() >= 2 && path[0] == x && path.last() == x && #[trigger] is_walk(adj, path)
}

/// Some node reachable from `entry` lies on a closed walk.
pub open spec fn cycle_reachable(adj: Seq<Seq<u32>>, entry: u32) -> bool {
    exists|x: u32| reachable(adj, entry, x) && #[trigger] on_cycle(adj, x)
}

/// The lists of a list of lists.
pub open spec fn adj_view(adj: Seq<Vec<u32>>) -> Seq<Seq<u32>> {
    adj.map_values(|l: Vec<u32>| l@)
}

/// Every edge leads to a node.
pub open spec fn edges_in_range(adj: Seq<Seq<u32>>) -> bool {
    forall|u: int, k: int| 0 <= u < adj.len() && 0 <= k < adj[u].len() ==> (#[trigger] adj[u][k]) < adj.len()
}

/// What the traversal keeps true between calls: finished nodes are reachable
/// and their children finished or on the current path; reported nodes lie on
/// reachable cycles; while nothing is reported, every child finished before
/// its parent.
pub open spec fn dfs_state_ok(
    adj: Seq<Seq<u32>>,
    entry: u32,
    visiting: Seq<bool>,
    visited: Seq<bool>,
    cycles: Seq<u32>,
    finish: Seq<u32>,
    clock: u32,
) -> bool {
    let n = adj.len();
    &&& visiting.len() == n && visited.len() == n && finish.len() == n
    &&& forall|x: int| 0 <= x < n ==> !(#[trigger] visiting[x] && visited[x])
    &&& forall|x: int| 0 <= x < n && #[trigger] visited[x] ==> reachable(adj, entry, x as u32)
    &&& forall|u: int, k: int|
        0 <= u < n && visited[u] && 0 <= k < adj[u].len() ==> visited[#[trigger] adj[u][k] as int]
            || visiting[adj[u][k] as int]
    &&& forall|i: int|
        0 <= i < cycles.len() ==> (#[trigger] cycles[i]) < n && reachable(adj, entry, cycles[i]) && on_cycle(
            adj,
            cycles[i],
        )
    &&& forall|x: int| 0 <= x < n && #[trigger] visited[x] ==> finish[x] < clock
    &&& clock + count_unvisited(visited) <= n
    &&& cycles.len() == 0 ==> forall|u: int, k: int|
        0 <= u < n && visited[u] && 0 <= k < adj[u].len() ==> visited[#[trigger] adj[u][k] as int] && finish[adj[u][k] as int]
            < finish[u]
}

/// The nodes on the current path are exactly those being visited, and the
/// path walks from the entry.
pub open spec fn dfs_path_ok(adj: Seq<Seq<u32>>, entry: u32, path: Seq<u32>, visiting: Seq<bool>) -> bool {
    &&& forall|x: int| 0 <= x < visiting.len() ==> (#[trigger] visiting[x] <==> path.contains(x as u32))
    &&& path.len() > 0 ==> path[0] == entry && is_walk(adj, path)
}

/// What a depth-first visit of `v` does, children in authored order: the
/// visited marks after it, and the nodes met again while still on the path
/// (each back edge reports the node it re-enters), in the order met.
pub open spec fn dfs_visit(adj: Seq<Seq<u32>>, v: int, visiting: Seq<bool>, visited: Seq<bool>) -> (Seq<bool>, Seq<u32>)
    decreases count_unvisited(visiting), 0nat,
{
    if !(0 <= v < adj.len() && v < visiting.len() && v < visited.len()) {
        (visited, Seq::empty())
    } else if visited[v] {
        (visited, Seq::empty())
    } else if visiting[v] {
        (visited, seq![v as u32])
    } else {
        proof {
            lemma_mark_decreases(visiting, v);
        }
        let r = dfs_children(adj, v, adj[v].len(), visiting.update(v, true), visited);
        (r.0.update(v, true), r.1)
    }
}

/// A depth-first visit of the first `k` children of `v`, in order.
pub open spec fn dfs_children(adj: Seq<Seq<u32>>, v: int, k: nat, visiting: Seq<bool>, visited: Seq<bool>) -> (
    Seq<bool>,
    Seq<u32>,
)
    decreases count_unvisited(visiting), k + 1,
{
    if k == 0 || !(0 <= v < adj.len()) || k > adj[v].len() {
        (visited, Seq::empty())
    } else {
        let prev = dfs_children(adj, v, (k - 1) as nat, visiting, visited);
        let here = dfs_visit(adj, adj[v][k - 1] as int, visiting, prev.0);
        (here.0, prev.1 + here.1)
    }
}

/// The nodes a depth-first traversal from the entry reports as re-entered.
pub open spec fn graph_cycle_reports(graph: BehaviorGraphV1) -> Seq<u32> {
    let adj = graph_adj(graph);
    let none = Seq::new(adj.len(), |i: int| false);
    dfs_visit(adj, graph_entry(graph) as int, none, none).1
}

/// How many nodes are not marked.
pub open spec fn count_unvisited(marks: Seq<bool>) -> nat {
    count_unmarked(marks)
}

proof fn lemma_walk_prefix(adj: Seq<Seq<u32>>, path: Seq<u32>, m: int)
    requires
        is_walk(adj, path),
        0 < m <= path.len(),
    ensures
        is_walk(adj, path.take(m)),
{
    let t = path.take(m);
    assert forall|k: int| 0 <= k < t.len() - 1 implies #[trigger] adj[t[k] as int].contains(t[k + 1]) by {
        assert(t[k] == path[k] && t[k + 1] == path[k + 1]);
    }
}

/// A back edge from the end of the path to a node on it closes a cycle
/// through that node.
proof fn lemma_back_edge_cycle(adj: Seq<Seq<u32>>, entry: u32, path: Seq<u32>, v: u32)
    requires
        path.len() > 0,
        path[0] == entry,
        is_walk(adj, path),
        path.contains(v),
        adj[path.last() as int].contains(v),
    ensures
        reachable(adj, entry, v),
        on_cycle(adj, v),
{
    let p = path.index_of(v);
    let head = path.take(p + 1);
    lemma_walk_prefix(adj, path, p + 1);
    assert(head[0] == entry && head.last() == v);
    assert(is_walk(adj, head));
    let tail = path.subrange(p, path.len() as int).push(v);
    assert forall|k: int| 0 <= k < tail.len() - 1 implies #[trigger] adj[tail[k] as int].contains(tail[k + 1]) by {
        if k < tail.len() - 2 {
            assert(tail[k] == path[p + k] && tail[k + 1] == path[p + k + 1]);
        } else {
            assert(tail[k] == path.last());
        }
    }
    assert forall|k: int| 0 <= k < tail.len() implies (#[trigger] tail[k]) < adj.len() by {
        if k < tail.len() - 1 {
            assert(tail[k] == path[p + k]);
        }
    }
    assert(is_walk(adj, tail));
    assert(tail[0] == v && tail.last() == v);
}

/// Visit `v` and everything below it, depth first, children in order;
/// report each node met again while it is still on the path.
fn visit(
    v: usize,
    adj: &Vec<Vec<u32>>,
    visiting: &mut Vec<bool>,
    visited: &mut Vec<bool>,
    cycles: &mut Vec<u32>,
    finish: &mut Vec<u32>,
    clock: &mut u32,
    Ghost(entry): Ghost<u32>,
    Ghost(path): Ghost<Seq<u32>>,
)
    requires
        adj@.len() <= u32::MAX,
        edges_in_range(adj_view(adj@)),
        v < adj@.len(),
        entry < adj@.len(),
        dfs_state_ok(adj_view(adj@), entry, old(visiting)@, old(visited)@, old(cycles)@, old(finish)@, *old(clock)),
        dfs_path_ok(adj_view(adj@), entry, path, old(visiting)@),
        path.len() == 0 ==> v == entry,
        path.len() > 0 ==> adj_view(adj@)[path.last() as int].contains(v as u32),
    ensures
        dfs_state_ok(adj_view(adj@), entry, final(visiting)@, final(visited)@, final(cycles)@, final(finish)@, *final(clock)),
        final(visiting)@ == old(visiting)@,
        forall|x: int| 0 <= x < adj@.len() && #[trigger] old(visited)@[x] ==> final(visited)@[x],
        !old(visiting)@[v as int] ==> final(visited)@[v as int],
        old(visiting)@[v as int] ==> final(cycles)@.len() > old(cycles)@.len(),
        final(cycles)@.len() >= old(cycles)@.len(),
        final(visited)@ == dfs_visit(adj_view(adj@), v as int, old(visiting)@, old(visited)@).0,
        final(cycles)@ == old(cycles)@ + dfs_visit(adj_view(adj@), v as int, old(visiting)@, old(visited)@).1,
    decreases count_unvisited(old(visiting)@),
{
    let ghost a = adj_view(adj@);
    let ghost n = adj@.len();
    if visited[v] {
        proof {
            assert(cycles@ =~= old(cycles)@ + Seq::<u32>::empty());
        }
        return;
    }
    if visiting[v] {
        proof {
            assert(path.contains(v as u32));
            lemma_back_edge_cycle(a, entry, path, v as u32);
        }
        let ghost before = cycles@;
        cycles.push(v as u32);
        proof {
            assert(cycles@ =~= before + seq![v as u32]);
            assert forall|i: int| 0 <= i < cycles@.len() implies (#[trigger] cycles@[i]) < n && reachable(a, entry, cycles@[i])
                && on_cycle(a, cycles@[i]) by {
                if i < before.len() {
                    assert(cycles@[i] == before[i]);
                }
            }
        }
        return;
    }
    proof {
        lemma_mark_decreases(visiting@, v as int);
    }
    visiting.set(v, true);
    let ghost marked = visiting@;
    let ghost path2 = path.push(v as u32);
    proof {
        assert(path2[path2.len() - 1] == v as u32);
        assert forall|x: int| 0 <= x < n implies (#[trigger] marked[x] <==> path2.contains(x as u32)) by {
            if path2.contains(x as u32) {
                let m = path2.index_of(x as u32);
                if m < path.len() {
                    assert(path[m] == x as u32);
                }
            }
            if path.contains(x as u32) {
                let m = path.index_of(x as u32);
                assert(path2[m] == x as u32);
            }
        }
        if path.len() > 0 {
            assert forall|k: int| 0 <= k < path2.len() - 1 implies #[trigger] a[path2[k] as int].contains(path2[k + 1]) by {
                if k < path.len() - 1 {
                    assert(path2[k] == path[k] && path2[k + 1] == path[k + 1]);
                } else {
                    assert(path2[k] == path.last());
                }
            }
            assert forall|k: int| 0 <= k < path2.len() implies (#[trigger] path2[k]) < a.len() by {
                if k < path.len() {
                    assert(path2[k] == path[k]);
                }
            }
        } else {
            assert forall|k: int| 0 <= k < path2.len() implies (#[trigger] path2[k]) < a.len() by {}
        }
        assert(is_walk(a, path2));
        assert(path2.len() > 0 && path2[0] == entry && path2.last() == v as u32);
        assert(reachable(a, entry, v as u32));
    }
    let list = &adj[v];
    assert(list@ == a[v as int]);
    let ghost cycles_at_start = cycles@.len();
    let ghost cycles_seq0 = cycles@;
    let ghost visited0 = visited@;
    proof {
        assert(cycles@ =~= cycles_seq0 + dfs_children(a, v as int, 0, marked, visited0).1);
    }
    let mut k: usize = 0;
    while k < list.len()
        invariant
            adj@.len() <= u32::MAX,
            a == adj_view(adj@),
            n == adj@.len(),
            edges_in_range(a),
            v < n,
            entry < n,
            list@ == a[v as int],
            k <= list@.len(),
            visiting@ == marked,
            marked[v as int],
            !visited@[v as int],
            count_unvisited(marked) < count_unvisited(old(visiting)@),
            reachable(a, entry, v as u32),
            dfs_path_ok(a, entry, path2, marked),
            path2.len() > 0,
            path2.last() == v as u32,
            dfs_state_ok(a, entry, visiting@, visited@, cycles@, finish@, *clock),
            forall|x: int| 0 <= x < n && #[trigger] old(visited)@[x] ==> visited@[x],
            cycles@.len() >= cycles_at_start,
            cycles_at_start >= old(cycles)@.len(),
            forall|j: int| 0 <= j < k ==> visited@[#[trigger] list@[j] as int] || marked[list@[j] as int],
            cycles@.len() == 0 ==> forall|j: int| 0 <= j < k ==> visited@[#[trigger] list@[j] as int],
            visited@ == dfs_children(a, v as int, k as nat, marked, visited0).0,
            cycles@ == cycles_seq0 + dfs_children(a, v as int, k as nat, marked, visited0).1,
        decreases list@.len() - k,
    {
        let child = list[k] as usize;
        assert(a[v as int][k as int] == list@[k as int]);
        assert(a[v as int][k as int] < n);
        let ghost was_marked = marked[child as int];
        let ghost cyc_before = cycles@;
        visit(child, adj, visiting, visited, cycles, finish, clock, Ghost(entry), Ghost(path2));
        proof {
            if cycles@.len() == 0 && was_marked {
                assert(false);
            }
            let prev = dfs_children(a, v as int, k as nat, marked, visited0);
            let here = dfs_visit(a, a[v as int][k as int] as int, marked, prev.0);
            assert(dfs_children(a, v as int, (k + 1) as nat, marked, visited0) == (here.0, prev.1 + here.1));
            assert(cycles@ =~= cycles_seq0 + (prev.1 + here.1));
        }
        k = k + 1;
    }
    proof {
        lemma_mark_decreases(visited@, v as int);
    }
    let ghost visited_children = visited@;
    visiting.set(v, false);
    visited.set(v, true);
    finish.set(v, *clock);
    *clock = *clock + 1;
    proof {
        assert(marked == old(visiting)@.update(v as int, true));
        assert(visited0 == old(visited)@);
        assert(visited@ == visited_children.update(v as int, true));
        assert(dfs_visit(a, v as int, old(visiting)@, old(visited)@) == (
            dfs_children(a, v as int, a[v as int].len(), marked, visited0).0.update(v as int, true),
            dfs_children(a, v as int, a[v as int].len(), marked, visited0).1,
        ));
        assert(visiting@ =~= old(visiting)@);
        let st_visited = visited@;
        assert forall|u: int, j: int|
            0 <= u < n && st_visited[u] && 0 <= j < a[u].len() implies st_visited[#[trigger] a[u][j] as int]
            || visiting@[a[u][j] as int] by {
            if u == v {
                assert(a[u][j] == list@[j]);
            }
        }
    }
}

/// Along a walk through finished nodes whose children all finished earlier,
/// finish times fall.
proof fn lemma_finish_falls(adj: Seq<Seq<u32>>, visited: Seq<bool>, finish: Seq<u32>, path: Seq<u32>)
    requires
        is_walk(adj, path),
        path.len() >= 2,
        visited.len() == adj.len(),
        finish.len() == adj.len(),
        visited[path[0] as int],
        forall|u: int, k: int|
            0 <= u < adj.len() && visited[u] && 0 <= k < adj[u].len() ==> visited[#[trigger] adj[u][k] as int]
                && finish[adj[u][k] as int] < finish[u],
    ensures
        visited[path.last() as int],
        finish[path.last() as int] < finish[path[0] as int],
    decreases path.len(),
{
    let u = path[0];
    let zero: int = 0;
    assert(adj[path[zero] as int].contains(path[zero + 1]));
    let k = adj[u as int].index_of(path[1]);
    assert(adj[u as int][k] == path[1]);
    if path.len() > 2 {
        let rest = path.drop_first();
        assert forall|i: int| 0 <= i < rest.len() - 1 implies #[trigger] adj[rest[i] as int].contains(rest[i + 1]) by {
            assert(rest[i] == path[i + 1] && rest[i + 1] == path[i + 2]);
            assert(adj[path[i + 1] as int].contains(path[i + 1 + 1]));
        }
        assert forall|i: int| 0 <= i < rest.len() implies (#[trigger] rest[i]) < adj.len() by {
            assert(rest[i] == path[i + 1]);
        }
        lemma_finish_falls(adj, visited, finish, rest);
    }
}

/// Traverse depth first from `entry`: which nodes were reached, which were
/// met again while on the path, and the order they finished in.
fn traverse(adj: &Vec<Vec<u32>>, entry: usize) -> (r: (Vec<u32>, Vec<bool>, Vec<u32>))
    requires
        adj@.len() <= u32::MAX,
        edges_in_range(adj_view(adj@)),
        entry < adj@.len(),
    ensures
        r.1@.len() == adj@.len(),
        r.2@.len() == adj@.len(),
        forall|x: int| 0 <= x < adj@.len() ==> (#[trigger] r.1@[x] <==> reachable(adj_view(adj@), entry as u32, x as u32)),
        forall|i: int|
            0 <= i < r.0@.len() ==> (#[trigger] r.0@[i]) < adj@.len() && reachable(adj_view(adj@), entry as u32, r.0@[i])
                && on_cycle(adj_view(adj@), r.0@[i]),
        r.0@.len() > 0 <==> cycle_reachable(adj_view(adj@), entry as u32),
        r.0@ == dfs_visit(
            adj_view(adj@),
            entry as int,
            Seq::new(adj@.len() as nat, |i: int| false),
            Seq::new(adj@.len() as nat, |i: int| false),
        ).1,
        r.0@.len() == 0 ==> forall|u: int, k: int|
            0 <= u < adj@.len() && r.1@[u] && 0 <= k < adj_view(adj@)[u].len() ==> r.2@[#[trigger] adj_view(
                adj@,
            )[u][k] as int] < r.2@[u],
{
    let ghost a = adj_view(adj@);
    let n = adj.len();
    let mut visiting: Vec<bool> = Vec::new();
    let mut visited: Vec<bool> = Vec::new();
    let mut finish: Vec<u32> = Vec::new();
    let mut i: usize = 0;
    while i < n
        invariant
            n == adj@.len(),
            i <= n,
            visiting@.len() == i,
            visited@.len() == i,
            finish@.len() == i,
            forall|x: int| 0 <= x < i ==> !visiting@[x] && !visited@[x],
        decreases n - i,
    {
        visiting.push(false);
        visited.push(false);
        finish.push(0);
        i = i + 1;
    }
    let mut cycles: Vec<u32> = Vec::new();
    let mut clock: u32 = 0;
    proof {
        lemma_count_none_marked(visited@);
        assert forall|x: int| 0 <= x < visiting@.len() implies (#[trigger] visiting@[x] <==> Seq::<u32>::empty().contains(
            x as u32,
        )) by {}
    }
    proof {
        assert(visiting@ =~= Seq::new(n as nat, |i: int| false));
        assert(visited@ =~= Seq::new(n as nat, |i: int| false));
    }
    visit(entry, adj, &mut visiting, &mut visited, &mut cycles, &mut finish, &mut clock, Ghost(entry as u32), Ghost(Seq::empty()));
    proof {
        assert(cycles@ =~= Seq::<u32>::empty() + dfs_visit(
            a,
            entry as int,
            Seq::new(n as nat, |i: int| false),
            Seq::new(n as nat, |i: int| false),
        ).1);
    }
    proof {
        assert forall|u: int, k: int| 0 <= u < a.len() && visited@[u] && 0 <= k < a[u].len() implies visited@[#[trigger] a[u][k] as int] by {
            assert(!visiting@[a[u][k] as int]);
        }
        assert forall|x: int| 0 <= x < n implies (#[trigger] visited@[x] <==> reachable(a, entry as u32, x as u32)) by {
            if reachable(a, entry as u32, x as u32) {
                let path = choose|path: Seq<u32>| path.len() > 0 && path[0] == entry as u32 && path.last() == x as u32
                    && #[trigger] is_walk(a, path);
                lemma_closed_walk(a, visited@, path);
            }
        }
        if cycles@.len() > 0 {
            assert(reachable(a, entry as u32, cycles@[0]) && on_cycle(a, cycles@[0]));
        } else {
            if cycle_reachable(a, entry as u32) {
                let x = choose|x: u32| reachable(a, entry as u32, x) && #[trigger] on_cycle(a, x);
                let path = choose|path: Seq<u32>| path.len() >= 2 && path[0] == x && path.last() == x && #[trigger] is_walk(
                    a,
                    path,
                );
                assert(x < n) by {
                    assert(path[0] < a.len());
                }
                assert(visited@[x as int]);
                lemma_finish_falls(a, visited@, finish@, path);
            }
            assert forall|u: int, k: int|
                0 <= u < adj@.len() && visited@[u] && 0 <= k < a[u].len() implies finish@[#[trigger] a[u][k] as int]
                < finish@[u] by {}
        }
    }
    (cycles, visited, finish)
}

// ---------------------------------------------------------------------------
// The compiled program
// ---------------------------------------------------------------------------

/// The positions, among `ids`, of a node's children.
pub open spec fn child_indices(ids: Seq<Seq<char>>, n: BehaviorNodeV1) -> Seq<u32> {
    n.child_ids().map_values(|c: Seq<char>| ids.index_of(c) as u32)
}

/// A normalized, index-addressable graph. Its node order is stable by node
/// ID, and every node's children come before it in the order the compiler
/// proved acyclic.
pub struct BehaviorProgram {
    id: String,
    entry_index: u32,
    nodes: Vec<BehaviorNodeV1>,
    ranks: Ghost<Seq<int>>,
}

impl BehaviorProgram {
    pub closed spec fn program_id(&self) -> Seq<char> {
        self.id@
    }

    pub closed spec fn entry(&self) -> int {
        self.entry_index as int
    }

    /// The nodes, in ID order.
    pub closed spec fn node_seq(&self) -> Seq<BehaviorNodeV1> {
        self.nodes@
    }

    pub open spec fn node_ids(&self) -> Seq<Seq<char>> {
        self.node_seq().map_values(|n: BehaviorNodeV1| n.node_id())
    }

    /// Node IDs sorted and distinct, the entry a node, every child a node
    /// ranked below its parent.
    pub closed spec fn wf(&self) -> bool {
        let ids = self.node_ids();
        &&& self.nodes@.len() <= u32::MAX
        &&& (self.entry_index as int) < self.nodes@.len()
        &&& strictly_sorted(ids)
        &&& self.ranks@.len() == self.nodes@.len()
        &&& forall|i: int| 0 <= i < self.nodes@.len() ==> #[trigger] self.ranks@[i] >= 0
        &&& forall|i: int, k: int|
            0 <= i < self.nodes@.len() && 0 <= k < self.nodes@[i].child_ids().len() ==> ids.contains(
                #[trigger] self.nodes@[i].child_ids()[k],
            ) && self.ranks@[ids.index_of(self.nodes@[i].child_ids()[k])] < self.ranks@[i]
    }

    pub fn id(&self) -> (r: &str)
        ensures
            r@ == self.program_id(),
    {
        self.id.as_str()
    }

    pub fn entry_index(&self) -> (r: u32)
        ensures
            r as int == self.entry(),
    {
        self.entry_index
    }

    pub fn node_count(&self) -> (r: usize)
        ensures
            r == self.node_seq().len(),
    {
        self.nodes.len()
    }

    pub fn nodes(&self) -> (r: &[BehaviorNodeV1])
        ensures
            r@ == self.node_seq(),
    {
        self.nodes.as_slice()
    }
}

/// The compiled adjacency of a graph: each kept node's children by position
/// in ID order.
pub open spec fn graph_adj(graph: BehaviorGraphV1) -> Seq<Seq<u32>> {
    let ids = program_ids(graph);
    ids.map_values(|k: Seq<char>| child_indices(ids, node_for(graph.nodes@, k)))
}

/// The position of the entry node in ID order.
pub open spec fn graph_entry(graph: BehaviorGraphV1) -> u32 {
    program_ids(graph).index_of(graph.entry_id@) as u32
}

/// The nodes, of the first `n` in ID order, that the entry cannot reach.
pub open spec fn unreachable_keys(ids: Seq<Seq<char>>, adj: Seq<Seq<u32>>, entry: u32, n: nat) -> Seq<DiagnosticKey>
    decreases n,
{
    if n == 0 {
        Seq::empty()
    } else {
        unreachable_keys(ids, adj, entry, (n - 1) as nat) + key_when(
            !reachable(adj, entry, (n - 1) as u32),
            graph_key(
                GraphDiagnosticCode::UnreachableNode,
                ids[n - 1],
                "connect this node to the entry or remove it"@,
            ),
        )
    }
}

/// A cycle report for each of `cyc`.
pub open spec fn cycle_keys(ids: Seq<Seq<char>>, cyc: Seq<u32>) -> Seq<DiagnosticKey> {
    cyc.map_values(
        |x: u32| graph_key(GraphDiagnosticCode::Cycle, ids[x as int], "remove the cycle; behavior graphs cannot loop"@),
    )
}

proof fn lemma_unreachable_keys_empty(ids: Seq<Seq<char>>, adj: Seq<Seq<u32>>, entry: u32, n: nat)
    requires
        n <= u32::MAX + 1,
    ensures
        unreachable_keys(ids, adj, entry, n).len() == 0 <==> forall|v: u32| v < n ==> reachable(adj, entry, v),
    decreases n,
{
    if n > 0 {
        lemma_unreachable_keys_empty(ids, adj, entry, (n - 1) as nat);
        if unreachable_keys(ids, adj, entry, n).len() == 0 {
            assert forall|v: u32| v < n implies reachable(adj, entry, v) by {
                if v < n - 1 {
                } else {
                    assert(v == (n - 1) as u32);
                }
            }
        }
    }
}

proof fn lemma_children_known(ids: Seq<Seq<char>>, nodes: Seq<BehaviorNodeV1>)
    requires
        all_missing_child_keys(ids, nodes).len() == 0,
    ensures
        forall|i: int, k: int|
            0 <= i < ids.len() && 0 <= k < node_for(nodes, ids[i]).child_ids().len() ==> last_index_map(nodes).dom().contains(
                #[trigger] node_for(nodes, ids[i]).child_ids()[k],
            ),
    decreases ids.len(),
{
    if ids.len() > 0 {
        let pre = ids.drop_last();
        lemma_children_known(pre, nodes);
        let key = ids.last();
        lemma_missing_children_none(key, node_for(nodes, key).child_ids(), last_index_map(nodes).dom());
        assert forall|i: int, k: int|
            0 <= i < ids.len() && 0 <= k < node_for(nodes, ids[i]).child_ids().len() implies last_index_map(
            nodes,
        ).dom().contains(#[trigger] node_for(nodes, ids[i]).child_ids()[k]) by {
            if i < ids.len() - 1 {
                assert(pre[i] == ids[i]);
            }
        }
    }
}

proof fn lemma_missing_children_none(id: Seq<char>, children: Seq<Seq<char>>, known: Set<Seq<char>>)
    requires
        missing_child_keys(id, children, known).len() == 0,
    ensures
        forall|k: int| 0 <= k < children.len() ==> known.contains(#[trigger] children[k]),
    decreases children.len(),
{
    if children.len() > 0 {
        let pre = children.drop_last();
        lemma_missing_children_none(id, pre, known);
        assert forall|k: int| 0 <= k < children.len() implies known.contains(#[trigger] children[k]) by {
            if k < children.len() - 1 {
                assert(pre[k] == children[k]);
            }
        }
    }
}

/// The kept nodes, copied, in ID order.
fn build_program_nodes(nodes: &Vec<BehaviorNodeV1>, by_id: &TextMap<usize>) -> (r: Vec<BehaviorNodeV1>)
    requires
        by_id.wf(),
        by_id.as_map() == last_index_map(nodes@),
    ensures
        r@.len() == by_id.keys().len(),
        forall|i: int| 0 <= i < r@.len() ==> same_node(#[trigger] r@[i], node_for(nodes@, by_id.keys()[i])),
{
    let node_count = nodes.len();
    proof {
        lemma_last_index_map(nodes@);
    }
    let mut out: Vec<BehaviorNodeV1> = Vec::new();
    let mut i: usize = 0;
    while i < by_id.len()
        invariant
            by_id.wf(),
            by_id.as_map() == last_index_map(nodes@),
            i <= by_id.keys().len(),
            out@.len() == i,
            forall|j: int| 0 <= j < i ==> same_node(#[trigger] out@[j], node_for(nodes@, by_id.keys()[j])),
            forall|key: Seq<char>| #[trigger] last_index_map(nodes@).dom().contains(key) ==> last_index_map(
                nodes@,
            )[key] < nodes@.len(),
        decreases by_id.keys().len() - i,
    {
        let index = *by_id.value_at(i);
        proof {
            by_id.lemma_lookup(i as int);
        }
        let copy = nodes[index].duplicate();
        out.push(copy);
        i = i + 1;
    }
    out
}

/// Each node's children, as positions in ID order.
fn build_adjacency(prog: &Vec<BehaviorNodeV1>, by_id: &TextMap<usize>) -> (r: Vec<Vec<u32>>)
    requires
        by_id.wf(),
        by_id.keys().len() <= u32::MAX,
        forall|i: int, k: int|
            0 <= i < prog@.len() && 0 <= k < prog@[i].child_ids().len() ==> by_id.keys().contains(
                #[trigger] prog@[i].child_ids()[k],
            ),
    ensures
        r@.len() == prog@.len(),
        forall|i: int| 0 <= i < prog@.len() ==> #[trigger] adj_view(r@)[i] == child_indices(by_id.keys(), prog@[i]),
{
    let ghost ids = by_id.keys();
    let mut out: Vec<Vec<u32>> = Vec::new();
    let mut i: usize = 0;
    while i < prog.len()
        invariant
            by_id.wf(),
            ids == by_id.keys(),
            ids.len() <= u32::MAX,
            forall|i: int, k: int|
                0 <= i < prog@.len() && 0 <= k < prog@[i].child_ids().len() ==> ids.contains(
                    #[trigger] prog@[i].child_ids()[k],
                ),
            i <= prog@.len(),
            out@.len() == i,
            forall|j: int| 0 <= j < i ==> #[trigger] adj_view(out@)[j] == child_indices(ids, prog@[j]),
        decreases prog@.len() - i,
    {
        let children = prog[i].children();
        let ghost want = child_indices(ids, prog@[i as int]);
        let mut row: Vec<u32> = Vec::new();
        let mut c: usize = 0;
        while c < children.len()
            invariant
                by_id.wf(),
                ids == by_id.keys(),
                ids.len() <= u32::MAX,
                texts(children@) == prog@[i as int].child_ids(),
                want == child_indices(ids, prog@[i as int]),
                forall|k: int| 0 <= k < prog@[i as int].child_ids().len() ==> ids.contains(
                    #[trigger] prog@[i as int].child_ids()[k],
                ),
                c <= children@.len(),
                row@ == want.take(c as int),
            decreases children@.len() - c,
        {
            assert(texts(children@)[c as int] == children@[c as int]@);
            assert(ids.contains(prog@[i as int].child_ids()[c as int]));
            match by_id.find(children[c].as_str()) {
                Some(pos) => {
                    proof {
                        by_id.lemma_lookup(pos as int);
                        assert(want[c as int] == pos as u32);
                        assert(want.take(c + 1) =~= want.take(c as int).push(pos as u32));
                    }
                    row.push(pos as u32);
                },
                None => {
                    proof {
                        assert(false);
                    }
                },
            }
            c = c + 1;
        }
        assert(want.take(children@.len() as int) =~= want);
        let ghost prior = out@;
        out.push(row);
        proof {
            assert forall|j: int| 0 <= j < i + 1 implies #[trigger] adj_view(out@)[j] == child_indices(ids, prog@[j]) by {
                if j < i {
                    assert(out@[j] == prior[j]);
                    assert(adj_view(prior)[j] == child_indices(ids, prog@[j]));
                }
            }
        }
        i = i + 1;
    }
    out
}

/// Report each node met again on the path, then each node the entry cannot
/// reach, in ID order.
fn report_traversal(
    diagnostics: &mut Vec<GraphDiagnostic>,
    by_id: &TextMap<usize>,
    cycles: &Vec<u32>,
    visited: &Vec<bool>,
    Ghost(adj): Ghost<Seq<Seq<u32>>>,
    Ghost(entry): Ghost<u32>,
)
    requires
        by_id.wf(),
        by_id.keys().len() <= u32::MAX,
        visited@.len() == by_id.keys().len(),
        forall|i: int| 0 <= i < cycles@.len() ==> (#[trigger] cycles@[i]) < by_id.keys().len(),
        forall|x: int| 0 <= x < visited@.len() ==> (#[trigger] visited@[x] <==> reachable(adj, entry, x as u32)),
    ensures
        keys(final(diagnostics)@) == keys(old(diagnostics)@) + cycle_keys(by_id.keys(), cycles@) + unreachable_keys(
            by_id.keys(),
            adj,
            entry,
            by_id.keys().len(),
        ),
{
    let ghost ids = by_id.keys();
    let ghost start = keys(diagnostics@);
    let mut t: usize = 0;
    proof {
        assert(cycles@.take(0) =~= Seq::<u32>::empty());
        assert(keys(diagnostics@) =~= start + cycle_keys(ids, cycles@.take(0)));
    }
    while t < cycles.len()
        invariant
            by_id.wf(),
            ids == by_id.keys(),
            forall|i: int| 0 <= i < cycles@.len() ==> (#[trigger] cycles@[i]) < ids.len(),
            t <= cycles@.len(),
            start == keys(old(diagnostics)@),
            keys(diagnostics@) == start + cycle_keys(ids, cycles@.take(t as int)),
        decreases cycles@.len() - t,
    {
        let x = cycles[t] as usize;
        assert(cycles@[t as int] < ids.len());
        let key = by_id.key_at(x);
        report_when(
            diagnostics,
            true,
            GraphDiagnosticCode::Cycle,
            key.as_str(),
            owned("remove the cycle; behavior graphs cannot loop"),
        );
        proof {
            assert(cycles@.take(t + 1) =~= cycles@.take(t as int).push(cycles@[t as int]));
            assert(cycle_keys(ids, cycles@.take(t + 1)) =~= cycle_keys(ids, cycles@.take(t as int)).push(
                graph_key(GraphDiagnosticCode::Cycle, ids[x as int], "remove the cycle; behavior graphs cannot loop"@),
            ));
            assert(keys(diagnostics@) =~= start + cycle_keys(ids, cycles@.take(t + 1)));
        }
        t = t + 1;
    }
    assert(cycles@.take(cycles@.len() as int) =~= cycles@);
    let ghost mid = keys(diagnostics@);
    let n = by_id.len();
    let mut i: usize = 0;
    proof {
        assert(keys(diagnostics@) =~= mid + unreachable_keys(ids, adj, entry, 0));
    }
    while i < n
        invariant
            by_id.wf(),
            ids == by_id.keys(),
            n == ids.len(),
            n <= u32::MAX,
            visited@.len() == n,
            forall|x: int| 0 <= x < visited@.len() ==> (#[trigger] visited@[x] <==> reachable(adj, entry, x as u32)),
            i <= n,
            keys(diagnostics@) == mid + unreachable_keys(ids, adj, entry, i as nat),
        decreases n - i,
    {
        let key = by_id.key_at(i);
        assert(visited@[i as int] <==> reachable(adj, entry, i as u32));
        report_when(
            diagnostics,
            !visited[i],
            GraphDiagnosticCode::UnreachableNode,
            key.as_str(),
            owned("connect this node to the entry or remove it"),
        );
        proof {
            assert((i + 1 - 1) as u32 == i as u32);
            assert(keys(diagnostics@) =~= mid + unreachable_keys(ids, adj, entry, (i + 1) as nat));
        }
        i = i + 1;
    }
}

/// Compile a behavior graph into a program, or report every problem.
///
/// Problems found without traversal (`graph_problem_keys`) are reported
/// alone. Otherwise the graph is traversed depth first from the entry:
/// it compiles when no cycle is reachable and every node is reachable, and
/// otherwise reports cycle nodes and unreachable nodes. Reports come sorted
/// by node ID, code and message.
pub fn compile_graph(graph: &BehaviorGraphV1) -> (r: Result<BehaviorProgram, Vec<GraphDiagnostic>>)
    requires
        graph.nodes@.len() <= u32::MAX,
    ensures
        r matches Err(d) ==> keys_sorted(keys(d@)),
        graph_problem_keys(*graph).len() > 0 ==> (r matches Err(d) && keys(d@).to_multiset()
            == graph_problem_keys(*graph).to_multiset()),
        graph_problem_keys(*graph).len() == 0 ==> {
            let ids = program_ids(*graph);
            let adj = graph_adj(*graph);
            let entry = graph_entry(*graph);
            &&& (r is Ok <==> (!cycle_reachable(adj, entry) && forall|v: u32| v < ids.len() ==> reachable(adj, entry, v)))
            &&& r matches Err(d) ==> exists|cyc: Seq<u32>|
                {
                    &&& keys(d@).to_multiset() == (cycle_keys(ids, cyc) + unreachable_keys(ids, adj, entry, ids.len())).to_multiset()
                    &&& cyc == graph_cycle_reports(*graph)
                    &&& (cyc.len() > 0 <==> cycle_reachable(adj, entry))
                    &&& forall|i: int|
                        0 <= i < cyc.len() ==> (#[trigger] cyc[i]) < ids.len() && reachable(adj, entry, cyc[i])
                            && on_cycle(adj, cyc[i])
                }
            &&& r matches Ok(p) ==> {
                &&& p.wf()
                &&& p.program_id() == graph.id@
                &&& p.node_ids() == ids
                &&& p.entry() == entry
                &&& forall|i: int| 0 <= i < ids.len() ==> same_node(#[trigger] p.node_seq()[i], node_for(graph.nodes@, ids[i]))
            }
        },
{
    let mut diagnostics: Vec<GraphDiagnostic> = Vec::new();
    report_when(
        &mut diagnostics,
        graph.id.as_str().is_empty() || graph.nodes.len() == 0,
        GraphDiagnosticCode::EmptyGraph,
        graph.id.as_str(),
        owned("add a graph ID and at least one node"),
    );
    let by_id = node_pass(&mut diagnostics, &graph.nodes);
    let has_entry = by_id.contains_key(graph.entry_id.as_str());
    report_when(
        &mut diagnostics,
        !has_entry,
        GraphDiagnosticCode::MissingEntry,
        graph.entry_id.as_str(),
        owned("choose an existing entry node"),
    );
    child_pass(&mut diagnostics, &graph.nodes, &by_id);
    proof {
        by_id.lemma_keys_sorted();
        assert(by_id.keys() == program_ids(*graph));
        assert(keys(diagnostics@) =~= graph_problem_keys(*graph));
    }
    if diagnostics.len() > 0 {
        let sorted = sort_diagnostics(diagnostics);
        proof {
            vstd::seq_lib::to_multiset_len(keys(sorted@));
            vstd::seq_lib::to_multiset_len(graph_problem_keys(*graph));
        }
        return Err(sorted);
    }
    let ghost ids = by_id.keys();
    let ghost nodes = graph.nodes@;
    proof {
        lemma_children_known(ids, nodes);
        lemma_last_index_map(nodes);
    }
    let prog = build_program_nodes(&graph.nodes, &by_id);
    proof {
        assert forall|i: int, k: int| 0 <= i < prog@.len() && 0 <= k < prog@[i].child_ids().len() implies ids.contains(
            #[trigger] prog@[i].child_ids()[k],
        ) by {
            lemma_same_node_facts(prog@[i], node_for(nodes, ids[i]));
            assert(node_for(nodes, ids[i]).child_ids()[k] == prog@[i].child_ids()[k]);
            let c = prog@[i].child_ids()[k];
            assert(last_index_map(nodes).dom().contains(c));
            assert(by_id.as_map().dom().contains(c));
        }
    }
    let adj = build_adjacency(&prog, &by_id);
    let ghost a = adj_view(adj@);
    proof {
        assert(a =~= graph_adj(*graph)) by {
            assert forall|i: int| 0 <= i < a.len() implies #[trigger] a[i] == graph_adj(*graph)[i] by {
                lemma_same_node_facts(prog@[i], node_for(nodes, ids[i]));
            }
        }
        assert forall|u: int, k: int| 0 <= u < a.len() && 0 <= k < a[u].len() implies (#[trigger] a[u][k]) < a.len() by {
            let c = prog@[u].child_ids()[k];
            assert(ids.contains(c));
            assert(a[u][k] == ids.index_of(c) as u32);
        }
    }
    let entry = match by_id.find(graph.entry_id.as_str()) {
        Some(pos) => pos,
        None => {
            proof {
                assert(false);
            }
            0
        },
    };
    proof {
        by_id.lemma_lookup(entry as int);
        assert(entry as u32 == graph_entry(*graph));
    }
    let (cycles, visited, finish) = traverse(&adj, entry);
    report_traversal(&mut diagnostics, &by_id, &cycles, &visited, Ghost(a), Ghost(entry as u32));
    let ghost found = keys(diagnostics@);
    let sorted = sort_diagnostics(diagnostics);
    proof {
        vstd::seq_lib::to_multiset_len(keys(sorted@));
        vstd::seq_lib::to_multiset_len(found);
        lemma_unreachable_keys_empty(ids, a, entry as u32, ids.len());
        assert(found =~= cycle_keys(ids, cycles@) + unreachable_keys(ids, a, entry as u32, ids.len()));
    }
    if sorted.len() > 0 {
        return Err(sorted);
    }
    proof {
        assert(cycles@.len() == 0) by {
            assert(cycle_keys(ids, cycles@).len() == cycles@.len());
        }
    }
    let program = BehaviorProgram {
        id: graph.id.clone(),
        entry_index: entry as u32,
        nodes: prog,
        ranks: Ghost(finish@.map_values(|f: u32| f as int)),
    };
    proof {
        let pids = program.node_ids();
        assert(pids =~= ids) by {
            assert forall|i: int| 0 <= i < pids.len() implies pids[i] == ids[i] by {
                lemma_same_node_facts(prog@[i], node_for(nodes, ids[i]));
                by_id.lemma_lookup(i);
                assert(last_index_map(nodes).dom().contains(ids[i]));
                assert(node_for(nodes, ids[i]).node_id() == ids[i]);
            }
        }
        assert forall|i: int, k: int|
            0 <= i < program.nodes@.len() && 0 <= k < program.nodes@[i].child_ids().len() implies pids.contains(
            #[trigger] program.nodes@[i].child_ids()[k],
        ) && program.ranks@[pids.index_of(program.nodes@[i].child_ids()[k])] < program.ranks@[i] by {
            let c = program.nodes@[i].child_ids()[k];
            assert(ids.contains(c));
            assert(a[i][k] == ids.index_of(c) as u32);
            assert(visited@[i] <==> reachable(a, entry as u32, i as u32));
        }
    }
    Ok(program)
}

// ---------------------------------------------------------------------------
// The virtual machine
// ---------------------------------------------------------------------------

/// What a decision tells the agent to do.
#[derive(Debug)]
pub enum BehaviorAction {
    Navigate { destination_id: String },
    Wait { ticks: u32 },
    Queue { queue_id: String },
    FollowLane { lane_id: String },
    HoldPosition,
}

/// An action as plain values.
pub enum ActionView {
    Navigate(Seq<char>),
    Wait(u32),
    Queue(Seq<char>),
    FollowLane(Seq<char>),
    HoldPosition,
}

impl View for BehaviorAction {
    type V = ActionView;

    open spec fn view(&self) -> ActionView {
        match self {
            BehaviorAction::Navigate { destination_id } => ActionView::Navigate(destination_id@),
            BehaviorAction::Wait { ticks } => ActionView::Wait(*ticks),
            BehaviorAction::Queue { queue_id } => ActionView::Queue(queue_id@),
            BehaviorAction::FollowLane { lane_id } => ActionView::FollowLane(lane_id@),
            BehaviorAction::HoldPosition => ActionView::HoldPosition,
        }
    }
}

/// What one agent observes at one tick.
#[derive(Debug)]
pub struct BehaviorContext {
    pub tick: u64,
    pub agent_id: AgentId,
    pub bool_observations: TextMap<bool>,
    /// Fixed-point numeric observations (one unit = 1e-6).
    pub number_observations: TextMap<i32>,
    pub events: TextMap<()>,
    /// Node IDs whose action completed since the preceding decision.
    pub completed_nodes: TextMap<()>,
}

impl BehaviorContext {
    pub open spec fn wf(&self) -> bool {
        &&& self.bool_observations.wf()
        &&& self.number_observations.wf()
        &&& self.events.wf()
        &&& self.completed_nodes.wf()
    }

    /// The boolean observed under `key`; false when absent.
    pub open spec fn flag(&self, key: Seq<char>) -> bool {
        if self.bool_observations.as_map().dom().contains(key) {
            self.bool_observations.as_map()[key]
        } else {
            false
        }
    }

    /// The number observed under `key`; zero when absent.
    pub open spec fn number(&self, key: Seq<char>) -> i32 {
        if self.number_observations.as_map().dom().contains(key) {
            self.number_observations.as_map()[key]
        } else {
            0
        }
    }
}

/// Per-agent memory of the machine: when each timer node started.
#[derive(Debug)]
pub struct BehaviorVmState {
    timer_started_at: TextMap<u64>,
}

impl BehaviorVmState {
    pub closed spec fn timers(&self) -> Map<Seq<char>, u64> {
        self.timer_started_at.as_map()
    }

    pub closed spec fn wf(&self) -> bool {
        self.timer_started_at.wf()
    }

    pub fn new() -> (s: Self)
        ensures
            s.wf(),
            s.timers() == Map::<Seq<char>, u64>::empty(),
    {
        BehaviorVmState { timer_started_at: TextMap::new() }
    }
}

/// The result of one decision, with what was looked at on the way.
#[derive(Debug)]
pub struct DecisionOutcome {
    pub action: Option<BehaviorAction>,
    pub decisive_node: Option<String>,
    pub visited_nodes: Vec<String>,
    pub observations: Vec<(String, bool)>,
    pub number_observations: Vec<(String, i32)>,
}

/// A decision record as plain values.
pub struct OutcomeView {
    pub decisive: Option<Seq<char>>,
    pub visited: Seq<Seq<char>>,
    pub observations: Seq<(Seq<char>, bool)>,
    pub numbers: Seq<(Seq<char>, i32)>,
}

/// The record of a decision not yet started.
pub open spec fn empty_outcome() -> OutcomeView {
    OutcomeView { decisive: None, visited: Seq::empty(), observations: Seq::empty(), numbers: Seq::empty() }
}

impl DecisionOutcome {
    /// The record, as plain values.
    pub open spec fn record(&self) -> OutcomeView {
        OutcomeView {
            decisive: match self.decisive_node {
                Some(s) => Some(s@),
                None => None,
            },
            visited: texts(self.visited_nodes@),
            observations: self.observations@.map_values(|p: (String, bool)| (p.0@, p.1)),
            numbers: self.number_observations@.map_values(|p: (String, i32)| (p.0@, p.1)),
        }
    }
}

/// The action as plain values.
pub open spec fn action_view(a: Option<BehaviorAction>) -> Option<ActionView> {
    match a {
        Some(x) => Some(x@),
        None => None,
    }
}

/// The hash of a text, as `hash_str` computes it.
pub open spec fn text_hash(s: Seq<char>) -> u64 {
    mix64_spec(fnv1a(encode_utf8(s)))
}

/// The position of the first child not yet completed.
pub open spec fn first_incomplete(kids: Seq<Seq<char>>, completed: Set<Seq<char>>, k: int) -> Option<int>
    decreases kids.len() - k,
{
    if k >= kids.len() || k < 0 {
        None
    } else if !completed.contains(kids[k]) {
        Some(k)
    } else {
        first_incomplete(kids, completed, k + 1)
    }
}

/// Whether `(score, child)` ranks before `(best_score, best_child)`: a higher
/// score, or an equal score and a smaller child ID.
pub open spec fn ranks_before(score: i32, child: Seq<char>, best_score: i32, best_child: Seq<char>) -> bool {
    score > best_score || (score == best_score && text_lt(child, best_child))
}

/// The position of the best-scored option among the first `n`; the first of
/// equals.
pub open spec fn best_option(options: Seq<UtilityOptionV1>, ctx: BehaviorContext, n: int) -> int
    decreases n,
{
    if n <= 1 {
        0
    } else {
        let b = best_option(options, ctx, n - 1);
        let o = options[n - 1];
        if ranks_before(ctx.number(o.score_key@), o.child@, ctx.number(options[b].score_key@), options[b].child@) {
            n - 1
        } else {
            b
        }
    }
}

/// The position, among a state switch's children, of the branch taken for
/// `value`: the first branch with that value, or the fallback after them.
pub open spec fn branch_taken(branches: Seq<StateBranchV1>, value: i32, k: int) -> int
    decreases branches.len() - k,
{
    if k >= branches.len() || k < 0 {
        branches.len() as int
    } else if branches[k].value == value {
        k
    } else {
        branch_taken(branches, value, k + 1)
    }
}

pub proof fn lemma_first_incomplete_range(kids: Seq<Seq<char>>, completed: Set<Seq<char>>, k: int)
    requires
        0 <= k,
    ensures
        first_incomplete(kids, completed, k) matches Some(i) ==> k <= i < kids.len() && !completed.contains(kids[i]),
        first_incomplete(kids, completed, k) is None ==> forall|j: int| k <= j < kids.len() ==> completed.contains(#[trigger] kids[j]),
    decreases kids.len() - k,
{
    if k < kids.len() && completed.contains(kids[k]) {
        lemma_first_incomplete_range(kids, completed, k + 1);
    }
}

pub proof fn lemma_best_option_range(options: Seq<UtilityOptionV1>, ctx: BehaviorContext, n: int)
    requires
        n >= 1,
    ensures
        0 <= best_option(options, ctx, n) < n,
    decreases n,
{
    if n > 1 {
        lemma_best_option_range(options, ctx, n - 1);
    }
}

/// A utility choice takes an option whose observed score no option beats,
/// and among equal scores the least child ID.
pub proof fn lemma_best_option_scores_highest(options: Seq<UtilityOptionV1>, ctx: BehaviorContext, n: int)
    requires
        1 <= n <= options.len(),
    ensures
        forall|i: int|
            0 <= i < n ==> ctx.number((#[trigger] options[i]).score_key@) <= ctx.number(
                options[best_option(options, ctx, n)].score_key@,
            ) && (ctx.number(options[i].score_key@) == ctx.number(options[best_option(options, ctx, n)].score_key@)
                ==> !text_lt(options[i].child@, options[best_option(options, ctx, n)].child@)),
    decreases n,
{
    lemma_best_option_range(options, ctx, n);
    if n > 1 {
        lemma_best_option_scores_highest(options, ctx, n - 1);
        let p = best_option(options, ctx, n - 1);
        let l = n - 1;
        let o = options[l];
        if ranks_before(ctx.number(o.score_key@), o.child@, ctx.number(options[p].score_key@), options[p].child@) {
            assert forall|i: int| 0 <= i < n implies ctx.number((#[trigger] options[i]).score_key@) <= ctx.number(
                options[l].score_key@,
            ) && (ctx.number(options[i].score_key@) == ctx.number(options[l].score_key@) ==> !text_lt(
                options[i].child@,
                options[l].child@,
            )) by {
                if i < l {
                    if ctx.number(options[i].score_key@) == ctx.number(options[l].score_key@) && text_lt(
                        options[i].child@,
                        options[l].child@,
                    ) {
                        crate::text::lemma_text_lt_transitive(options[i].child@, options[l].child@, options[p].child@);
                    }
                } else {
                    crate::text::lemma_text_lt_irreflexive(options[l].child@);
                }
            }
        }
    } else {
        crate::text::lemma_text_lt_irreflexive(options[0].child@);
    }
}

pub proof fn lemma_branch_taken_range(branches: Seq<StateBranchV1>, value: i32, k: int)
    requires
        0 <= k <= branches.len(),
    ensures
        k <= branch_taken(branches, value, k) <= branches.len(),
        branch_taken(branches, value, k) < branches.len() ==> branches[branch_taken(branches, value, k)].value == value,
        forall|j: int| k <= j < branch_taken(branches, value, k) ==> (#[trigger] branches[j]).value != value,
    decreases branches.len() - k,
{
    if k < branches.len() && branches[k].value != value {
        lemma_branch_taken_range(branches, value, k + 1);
    }
}

/// Executes a compiled program for one agent.
pub struct BehaviorVm {
    program: BehaviorProgram,
    global_seed: u64,
    node_indices: TextMap<u32>,
}

impl BehaviorProgram {
    /// How far below every parent a node sits.
    pub closed spec fn rank(&self, i: int) -> int {
        self.ranks@[i]
    }

    pub proof fn lemma_children(&self, i: int, k: int)
        requires
            self.wf(),
            0 <= i < self.node_seq().len(),
            0 <= k < self.node_seq()[i].child_ids().len(),
        ensures
            self.node_ids().contains(self.node_seq()[i].child_ids()[k]),
            0 <= self.node_ids().index_of(self.node_seq()[i].child_ids()[k]) < self.node_seq().len(),
            self.rank(self.node_ids().index_of(self.node_seq()[i].child_ids()[k])) < self.rank(i),
            0 <= self.rank(self.node_ids().index_of(self.node_seq()[i].child_ids()[k])),
            self.node_seq().len() <= u32::MAX,
    {
        let c = self.nodes@[i].child_ids()[k];
        assert(self.node_ids().contains(c));
        let j = self.node_ids().index_of(c);
        assert(self.ranks@[j] >= 0);
    }

    pub proof fn lemma_ranks(&self, i: int)
        requires
            self.wf(),
            0 <= i < self.node_seq().len(),
        ensures
            self.rank(i) >= 0,
            (self.entry() as int) < self.node_seq().len(),
    {
        assert(self.ranks@[i] >= 0);
    }
}

impl BehaviorVm {
    pub closed spec fn vm_program(&self) -> &BehaviorProgram {
        &self.program
    }

    pub closed spec fn seed(&self) -> u64 {
        self.global_seed
    }

    pub closed spec fn wf(&self) -> bool {
        let ids = self.program.node_ids();
        &&& self.program.wf()
        &&& self.node_indices.wf()
        &&& forall|k: Seq<char>| #[trigger] self.node_indices.as_map().dom().contains(k) <==> ids.contains(k)
        &&& forall|i: int| 0 <= i < ids.len() ==> self.node_indices.as_map()[#[trigger] ids[i]] == i as u32
    }

    /// The node of the program at `idx`.
    pub open spec fn node_at(&self, idx: int) -> BehaviorNodeV1 {
        self.vm_program().node_seq()[idx]
    }

    /// The position of child `k` of node `idx`.
    pub open spec fn child_at(&self, idx: int, k: int) -> int {
        self.vm_program().node_ids().index_of(self.node_at(idx).child_ids()[k])
    }

    /// Evaluate node `idx` from `timers` and the record `out`: the action
    /// chosen, the timers after, and the record after.
    pub open spec fn eval(
        &self,
        ctx: BehaviorContext,
        idx: int,
        timers: Map<Seq<char>, u64>,
        out: OutcomeView,
    ) -> (Option<ActionView>, Map<Seq<char>, u64>, OutcomeView)
        decreases self.vm_program().rank(idx), 1int, 0int,
        when self.wf() && 0 <= idx < self.vm_program().node_seq().len()
    {
        let node = self.node_at(idx);
        let id = node.node_id();
        let o1 = OutcomeView { visited: out.visited.push(id), ..out };
        match node {
            BehaviorNodeV1::Selector { .. } => self.eval_first(ctx, idx, 0, timers, o1),
            BehaviorNodeV1::Fallback { .. } => self.eval_first(ctx, idx, 0, timers, o1),
            BehaviorNodeV1::Sequence { .. } => match first_incomplete(
                node.child_ids(),
                ctx.completed_nodes.as_map().dom(),
                0,
            ) {
                Some(k) => {
                    proof {
                        lemma_first_incomplete_range(node.child_ids(), ctx.completed_nodes.as_map().dom(), 0);
                        self.vm_program().lemma_children(idx, k);
                    }
                    self.eval(ctx, self.child_at(idx, k), timers, o1)
                },
                None => (None, timers, o1),
            },
            BehaviorNodeV1::UtilitySelector { options, .. } => {
                let scored = options@.map_values(|o: UtilityOptionV1| (o.score_key@, ctx.number(o.score_key@)));
                let o2 = OutcomeView { numbers: o1.numbers + scored, ..o1 };
                if options@.len() == 0 {
                    (None, timers, o2)
                } else {
                    let k = best_option(options@, ctx, options@.len() as int);
                    proof {
                        lemma_best_option_range(options@, ctx, options@.len() as int);
                        self.vm_program().lemma_children(idx, k);
                    }
                    self.eval(ctx, self.child_at(idx, k), timers, o2)
                }
            },
            BehaviorNodeV1::StateSwitch { state_key, branches, .. } => {
                let value = ctx.number(state_key@);
                let o2 = OutcomeView { numbers: o1.numbers.push((state_key@, value)), ..o1 };
                let k = branch_taken(branches@, value, 0);
                proof {
                    lemma_branch_taken_range(branches@, value, 0);
                    self.vm_program().lemma_children(idx, k);
                }
                self.eval(ctx, self.child_at(idx, k), timers, o2)
            },
            BehaviorNodeV1::Interrupt { condition_key, .. } => self.eval_guard(ctx, idx, condition_key@, timers, o1),
            BehaviorNodeV1::BlackboardCompare { key, .. } => self.eval_guard(ctx, idx, key@, timers, o1),
            BehaviorNodeV1::Timer { id, ticks, .. } => {
                let started = if timers.dom().contains(id@) {
                    timers[id@]
                } else {
                    ctx.tick
                };
                let t2 = if timers.dom().contains(id@) {
                    timers
                } else {
                    timers.insert(id@, ctx.tick)
                };
                let elapsed: int = if ctx.tick >= started {
                    ctx.tick - started
                } else {
                    0
                };
                if elapsed >= ticks {
                    proof {
                        self.vm_program().lemma_children(idx, 0);
                    }
                    self.eval(ctx, self.child_at(idx, 0), t2, o1)
                } else {
                    (None, t2, o1)
                }
            },
            BehaviorNodeV1::Probability { id, probability_millionths, .. } => {
                let sample = hash_combine_spec(
                    hash_combine_spec(hash_combine_spec(self.seed(), ctx.agent_id.0), ctx.tick),
                    text_hash(id@),
                );
                if sample % 1_000_000 < probability_millionths {
                    proof {
                        self.vm_program().lemma_children(idx, 0);
                    }
                    self.eval(ctx, self.child_at(idx, 0), timers, o1)
                } else {
                    (None, timers, o1)
                }
            },
            BehaviorNodeV1::Event { event_type, .. } => if ctx.events.as_map().dom().contains(event_type@) {
                proof {
                    self.vm_program().lemma_children(idx, 0);
                }
                self.eval(ctx, self.child_at(idx, 0), timers, o1)
            } else {
                (None, timers, o1)
            },
            BehaviorNodeV1::Navigate { destination_id, .. } => (
                Some(ActionView::Navigate(destination_id@)),
                timers,
                OutcomeView { decisive: Some(id), ..o1 },
            ),
            BehaviorNodeV1::Wait { ticks, .. } => (
                Some(ActionView::Wait(ticks)),
                timers,
                OutcomeView { decisive: Some(id), ..o1 },
            ),
            BehaviorNodeV1::Queue { queue_id, .. } => (
                Some(ActionView::Queue(queue_id@)),
                timers,
                OutcomeView { decisive: Some(id), ..o1 },
            ),
            BehaviorNodeV1::FollowLane { lane_id, .. } => (
                Some(ActionView::FollowLane(lane_id@)),
                timers,
                OutcomeView { decisive: Some(id), ..o1 },
            ),
            BehaviorNodeV1::HoldPosition { .. } => (
                Some(ActionView::HoldPosition),
                timers,
                OutcomeView { decisive: Some(id), ..o1 },
            ),
        }
    }

    /// Evaluate the children of node `idx` from the `k`-th on, until one
    /// chooses an action.
    pub open spec fn eval_first(
        &self,
        ctx: BehaviorContext,
        idx: int,
        k: int,
        timers: Map<Seq<char>, u64>,
        out: OutcomeView,
    ) -> (Option<ActionView>, Map<Seq<char>, u64>, OutcomeView)
        decreases self.vm_program().rank(idx), 0int, self.node_at(idx).child_ids().len() - k,
        when self.wf() && 0 <= idx < self.vm_program().node_seq().len() && 0 <= k
    {
        if k >= self.node_at(idx).child_ids().len() {
            (None, timers, out)
        } else {
            proof {
                self.vm_program().lemma_children(idx, k);
            }
            let r = self.eval(ctx, self.child_at(idx, k), timers, out);
            if r.0 is Some {
                r
            } else {
                self.eval_first(ctx, idx, k + 1, r.1, r.2)
            }
        }
    }

    /// A guard on the boolean observation `key`: recorded once per decision,
    /// and the only child evaluated when it holds.
    pub open spec fn eval_guard(
        &self,
        ctx: BehaviorContext,
        idx: int,
        key: Seq<char>,
        timers: Map<Seq<char>, u64>,
        out: OutcomeView,
    ) -> (Option<ActionView>, Map<Seq<char>, u64>, OutcomeView)
        decreases self.vm_program().rank(idx), 0int, 0int,
        when self.wf() && 0 <= idx < self.vm_program().node_seq().len() && self.node_at(idx).child_ids().len() == 1
    {
        let value = ctx.flag(key);
        let seen = exists|i: int| 0 <= i < out.observations.len() && (#[trigger] out.observations[i]).0 == key;
        let o2 = if seen {
            out
        } else {
            OutcomeView { observations: out.observations.push((key, value)), ..out }
        };
        if value {
            proof {
                self.vm_program().lemma_children(idx, 0);
            }
            self.eval(ctx, self.child_at(idx, 0), timers, o2)
        } else {
            (None, timers, o2)
        }
    }
}

/// Record that `id` was visited.
fn record_visit(outcome: &mut DecisionOutcome, id: &str)
    ensures
        final(outcome).record() == (OutcomeView { visited: old(outcome).record().visited.push(id@), ..old(outcome).record() }),
        final(outcome).action == old(outcome).action,
{
    outcome.visited_nodes.push(owned(id));
    proof {
        assert(texts(outcome.visited_nodes@) =~= texts(old(outcome).visited_nodes@).push(id@));
        assert(outcome.observations@ == old(outcome).observations@);
        assert(outcome.number_observations@ == old(outcome).number_observations@);
    }
}

/// Record the numeric observation read under `key`.
fn record_number(outcome: &mut DecisionOutcome, key: &String, value: i32)
    ensures
        final(outcome).record() == (OutcomeView {
            numbers: old(outcome).record().numbers.push((key@, value)),
            ..old(outcome).record()
        }),
        final(outcome).action == old(outcome).action,
{
    outcome.number_observations.push((key.clone(), value));
    proof {
        assert(outcome.number_observations@.map_values(|p: (String, i32)| (p.0@, p.1)) =~= old(
            outcome,
        ).number_observations@.map_values(|p: (String, i32)| (p.0@, p.1)).push((key@, value)));
        assert(outcome.visited_nodes@ == old(outcome).visited_nodes@);
        assert(outcome.observations@ == old(outcome).observations@);
    }
}

/// Record the boolean observation read under `key`, unless one under that
/// key is already recorded.
fn record_flag(outcome: &mut DecisionOutcome, key: &String, value: bool)
    ensures
        final(outcome).record() == (if exists|i: int|
            0 <= i < old(outcome).record().observations.len() && (#[trigger] old(outcome).record().observations[i]).0
                == key@ {
            old(outcome).record()
        } else {
            OutcomeView {
                observations: old(outcome).record().observations.push((key@, value)),
                ..old(outcome).record()
            }
        }),
        final(outcome).action == old(outcome).action,
{
    let ghost obs = old(outcome).record().observations;
    let mut seen = false;
    let mut i: usize = 0;
    while i < outcome.observations.len()
        invariant
            outcome.observations@ == old(outcome).observations@,
            obs == old(outcome).observations@.map_values(|p: (String, bool)| (p.0@, p.1)),
            i <= obs.len(),
            seen == exists|j: int| 0 <= j < i && (#[trigger] obs[j]).0 == key@,
        decreases obs.len() - i,
    {
        assert(obs[i as int].0 == outcome.observations@[i as int].0@);
        if str_eq(outcome.observations[i].0.as_str(), key.as_str()) {
            seen = true;
        }
        i = i + 1;
    }
    if !seen {
        outcome.observations.push((key.clone(), value));
        proof {
            assert(outcome.observations@.map_values(|p: (String, bool)| (p.0@, p.1)) =~= obs.push((key@, value)));
        }
    }
}

/// Record the node that chose the action.
fn record_decisive(outcome: &mut DecisionOutcome, id: &str)
    ensures
        final(outcome).record() == (OutcomeView { decisive: Some(id@), ..old(outcome).record() }),
        final(outcome).action == old(outcome).action,
{
    outcome.decisive_node = Some(owned(id));
}

impl BehaviorVm {
    /// A machine for `program`, with the seed that drives probability nodes.
    pub fn new(program: BehaviorProgram, global_seed: u64) -> (vm: Self)
        requires
            program.wf(),
        ensures
            vm.wf(),
            vm.vm_program() == program,
            vm.seed() == global_seed,
    {
        let ghost ids = program.node_ids();
        let mut node_indices: TextMap<u32> = TextMap::new();
        let n = program.nodes.len();
        let mut i: usize = 0;
        while i < n
            invariant
                program.wf(),
                ids == program.node_ids(),
                n == ids.len(),
                n <= u32::MAX,
                i <= n,
                node_indices.wf(),
                forall|k: Seq<char>| #[trigger] node_indices.as_map().dom().contains(k) <==> ids.take(i as int).contains(k),
                forall|j: int| 0 <= j < i ==> node_indices.as_map()[#[trigger] ids[j]] == j as u32,
            decreases n - i,
        {
            let id = program.nodes[i].id();
            assert(id@ == ids[i as int]);
            let ghost before = node_indices.as_map();
            node_indices.insert(owned(id), i as u32);
            proof {
                assert forall|k: Seq<char>| #[trigger] node_indices.as_map().dom().contains(k) <==> ids.take(i + 1).contains(k) by {
                    if ids.take(i + 1).contains(k) {
                        let m = ids.take(i + 1).index_of(k);
                        if m < i {
                            assert(ids.take(i as int)[m] == k);
                        }
                    }
                    if ids.take(i as int).contains(k) {
                        let m = ids.take(i as int).index_of(k);
                        assert(ids.take(i + 1)[m] == k);
                    }
                    if k == ids[i as int] {
                        assert(ids.take(i + 1)[i as int] == k);
                    }
                }
                assert forall|j: int| 0 <= j < i + 1 implies node_indices.as_map()[#[trigger] ids[j]] == j as u32 by {
                    if j < i {
                        lemma_sorted_distinct(ids, j, i as int);
                    }
                }
            }
            i = i + 1;
        }
        proof {
            assert(ids.take(n as int) =~= ids);
        }
        BehaviorVm { program, global_seed, node_indices }
    }

    /// The position of the node named `id`.
    fn child_index(&self, id: &str) -> (r: u32)
        requires
            self.wf(),
            self.vm_program().node_ids().contains(id@),
        ensures
            r as int == self.vm_program().node_ids().index_of(id@),
    {
        let ghost ids = self.program.node_ids();
        let ghost j = ids.index_of(id@);
        assert(ids[j] == id@);
        match self.node_indices.get(id) {
            Some(r) => *r,
            None => {
                proof {
                    assert(false);
                }
                0
            },
        }
    }
}

/// The number observed under `key`; zero when absent.
fn number_of(context: &BehaviorContext, key: &str) -> (r: i32)
    requires
        context.wf(),
    ensures
        r == context.number(key@),
{
    match context.number_observations.get(key) {
        Some(v) => *v,
        None => 0,
    }
}

/// The boolean observed under `key`; false when absent.
fn flag_of(context: &BehaviorContext, key: &str) -> (r: bool)
    requires
        context.wf(),
    ensures
        r == context.flag(key@),
{
    match context.bool_observations.get(key) {
        Some(v) => *v,
        None => false,
    }
}

impl BehaviorVm {
    /// Evaluate node `index`, updating the timers and the decision record.
    fn evaluate(
        &self,
        index: u32,
        state: &mut BehaviorVmState,
        context: &BehaviorContext,
        outcome: &mut DecisionOutcome,
    ) -> (r: Option<BehaviorAction>)
        requires
            self.wf(),
            context.wf(),
            old(state).wf(),
            index < self.vm_program().node_seq().len(),
        ensures
            final(state).wf(),
            final(outcome).action == old(outcome).action,
            (action_view(r), final(state).timers(), final(outcome).record()) == self.eval(
                *context,
                index as int,
                old(state).timers(),
                old(outcome).record(),
            ),
        decreases self.vm_program().rank(index as int), 1int, 0int,
    {
        proof {
            self.program.lemma_ranks(index as int);
        }
        let node = &self.program.nodes[index as usize];
        assert(*node == self.node_at(index as int));
        match node {
            BehaviorNodeV1::Selector { .. } | BehaviorNodeV1::Fallback { .. } => self.eval_selector(
                index,
                node,
                state,
                context,
                outcome,
            ),
            BehaviorNodeV1::Sequence { .. } => self.eval_sequence(index, node, state, context, outcome),
            BehaviorNodeV1::UtilitySelector { .. } => self.eval_utility(index, node, state, context, outcome),
            BehaviorNodeV1::StateSwitch { .. } => self.eval_switch(index, node, state, context, outcome),
            BehaviorNodeV1::Interrupt { .. } | BehaviorNodeV1::BlackboardCompare { .. } => self.eval_flag_guard(
                index,
                node,
                state,
                context,
                outcome,
            ),
            BehaviorNodeV1::Timer { .. } => self.eval_timer(index, node, state, context, outcome),
            BehaviorNodeV1::Probability { .. } | BehaviorNodeV1::Event { .. } => self.eval_chance_or_event(
                index,
                node,
                state,
                context,
                outcome,
            ),
            _ => self.eval_leaf(index, node, state, context, outcome),
        }
    }

    fn eval_selector(
        &self,
        index: u32,
        node: &BehaviorNodeV1,
        state: &mut BehaviorVmState,
        context: &BehaviorContext,
        outcome: &mut DecisionOutcome,
    ) -> (r: Option<BehaviorAction>)
        requires
            self.wf(),
            context.wf(),
            old(state).wf(),
            index < self.vm_program().node_seq().len(),
            *node == self.node_at(index as int),
            node is Selector || node is Fallback,
        ensures
            final(state).wf(),
            final(outcome).action == old(outcome).action,
            (action_view(r), final(state).timers(), final(outcome).record()) == self.eval(
                *context,
                index as int,
                old(state).timers(),
                old(outcome).record(),
            ),
        decreases self.vm_program().rank(index as int), 0int, 0int,
    {
        let ghost idx = index as int;
        let ghost t0 = state.timers();
        let ghost o0 = outcome.record();
        let children = match node {
            BehaviorNodeV1::Selector { children, .. } => children,
            BehaviorNodeV1::Fallback { children, .. } => children,
            _ => {
                proof {
                    assert(false);
                }
                return None;
            },
        };
        record_visit(outcome, node.id());
        assert(self.eval(*context, idx, t0, o0) == self.eval_first(*context, idx, 0, t0, outcome.record()));
        let mut k: usize = 0;
        while k < children.len()
            invariant
                self.wf(),
                context.wf(),
                state.wf(),
                idx == index as int,
                t0 == old(state).timers(),
                o0 == old(outcome).record(),
                0 <= idx < self.vm_program().node_seq().len(),
                self.node_at(idx).child_ids() == texts(children@),
                k <= children@.len(),
                self.eval(*context, idx, t0, o0) == self.eval_first(*context, idx, k as int, state.timers(), outcome.record()),
                outcome.action == old(outcome).action,
            decreases children@.len() - k,
        {
            proof {
                self.vm_program().lemma_children(idx, k as int);
                assert(texts(children@)[k as int] == children@[k as int]@);
            }
            let child = self.child_index(children[k].as_str());
            let r = self.evaluate(child, state, context, outcome);
            if r.is_some() {
                return r;
            }
            k = k + 1;
        }
        None
    }

    fn eval_sequence(
        &self,
        index: u32,
        node: &BehaviorNodeV1,
        state: &mut BehaviorVmState,
        context: &BehaviorContext,
        outcome: &mut DecisionOutcome,
    ) -> (r: Option<BehaviorAction>)
        requires
            self.wf(),
            context.wf(),
            old(state).wf(),
            index < self.vm_program().node_seq().len(),
            *node == self.node_at(index as int),
            node is Sequence,
        ensures
            final(state).wf(),
            final(outcome).action == old(outcome).action,
            (action_view(r), final(state).timers(), final(outcome).record()) == self.eval(
                *context,
                index as int,
                old(state).timers(),
                old(outcome).record(),
            ),
        decreases self.vm_program().rank(index as int), 0int, 0int,
    {
        let ghost idx = index as int;
        let children = match node {
            BehaviorNodeV1::Sequence { children, .. } => children,
            _ => {
                proof {
                    assert(false);
                }
                return None;
            },
        };
        record_visit(outcome, node.id());
        let ghost kids = texts(children@);
        let ghost done = context.completed_nodes.as_map().dom();
        let mut k: usize = 0;
        while k < children.len() && context.completed_nodes.contains_key(children[k].as_str())
            invariant
                context.wf(),
                kids == texts(children@),
                done == context.completed_nodes.as_map().dom(),
                k <= children@.len(),
                first_incomplete(kids, done, 0) == first_incomplete(kids, done, k as int),
            decreases children@.len() - k,
        {
            assert(kids[k as int] == children@[k as int]@);
            k = k + 1;
        }
        if k < children.len() {
            proof {
                assert(kids[k as int] == children@[k as int]@);
                assert(first_incomplete(kids, done, 0) == Some(k as int));
                self.vm_program().lemma_children(idx, k as int);
            }
            let child = self.child_index(children[k].as_str());
            self.evaluate(child, state, context, outcome)
        } else {
            None
        }
    }

    fn eval_utility(
        &self,
        index: u32,
        node: &BehaviorNodeV1,
        state: &mut BehaviorVmState,
        context: &BehaviorContext,
        outcome: &mut DecisionOutcome,
    ) -> (r: Option<BehaviorAction>)
        requires
            self.wf(),
            context.wf(),
            old(state).wf(),
            index < self.vm_program().node_seq().len(),
            *node == self.node_at(index as int),
            node is UtilitySelector,
        ensures
            final(state).wf(),
            final(outcome).action == old(outcome).action,
            (action_view(r), final(state).timers(), final(outcome).record()) == self.eval(
                *context,
                index as int,
                old(state).timers(),
                old(outcome).record(),
            ),
        decreases self.vm_program().rank(index as int), 0int, 0int,
    {
        let ghost idx = index as int;
        let options = match node {
            BehaviorNodeV1::UtilitySelector { options, .. } => options,
            _ => {
                proof {
                    assert(false);
                }
                return None;
            },
        };
        record_visit(outcome, node.id());
        let ghost o1 = outcome.record();
        let ghost scored = options@.map_values(|o: UtilityOptionV1| (o.score_key@, context.number(o.score_key@)));
        let n = options.len();
        let mut k: usize = 0;
        proof {
            assert(o1.numbers + scored.take(0) =~= o1.numbers);
            assert(outcome.record() =~= (OutcomeView { numbers: o1.numbers + scored.take(0), ..o1 }));
        }
        while k < n
            invariant
                context.wf(),
                n == options@.len(),
                scored == options@.map_values(|o: UtilityOptionV1| (o.score_key@, context.number(o.score_key@))),
                k <= n,
                outcome.record() == (OutcomeView { numbers: o1.numbers + scored.take(k as int), ..o1 }),
                outcome.action == old(outcome).action,
            decreases n - k,
        {
            let key = &options[k].score_key;
            let score = number_of(context, key.as_str());
            record_number(outcome, key, score);
            proof {
                assert(o1.numbers + scored.take(k + 1) =~= (o1.numbers + scored.take(k as int)).push((key@, score)));
            }
            k = k + 1;
        }
        proof {
            assert(scored.take(n as int) =~= scored);
        }
        if n == 0 {
            return None;
        }
        let mut best: usize = 0;
        let mut best_score = number_of(context, options[0].score_key.as_str());
        let mut k: usize = 1;
        while k < n
            invariant
                context.wf(),
                n == options@.len(),
                1 <= k <= n,
                best < k,
                best as int == best_option(options@, *context, k as int),
                best_score == context.number(options@[best as int].score_key@),
            decreases n - k,
        {
            let score = number_of(context, options[k].score_key.as_str());
            let smaller = match compare_str(options[k].child.as_str(), options[best].child.as_str()) {
                TextOrder::Less => true,
                _ => false,
            };
            if score > best_score || (score == best_score && smaller) {
                best = k;
                best_score = score;
            }
            k = k + 1;
        }
        proof {
            lemma_best_option_range(options@, *context, n as int);
            self.vm_program().lemma_children(idx, best as int);
        }
        let child = self.child_index(options[best].child.as_str());
        self.evaluate(child, state, context, outcome)
    }

    fn eval_switch(
        &self,
        index: u32,
        node: &BehaviorNodeV1,
        state: &mut BehaviorVmState,
        context: &BehaviorContext,
        outcome: &mut DecisionOutcome,
    ) -> (r: Option<BehaviorAction>)
        requires
            self.wf(),
            context.wf(),
            old(state).wf(),
            index < self.vm_program().node_seq().len(),
            *node == self.node_at(index as int),
            node is StateSwitch,
        ensures
            final(state).wf(),
            final(outcome).action == old(outcome).action,
            (action_view(r), final(state).timers(), final(outcome).record()) == self.eval(
                *context,
                index as int,
                old(state).timers(),
                old(outcome).record(),
            ),
        decreases self.vm_program().rank(index as int), 0int, 0int,
    {
        let ghost idx = index as int;
        let (state_key, branches, fallback) = match node {
            BehaviorNodeV1::StateSwitch { state_key, branches, fallback, .. } => (state_key, branches, fallback),
            _ => {
                proof {
                    assert(false);
                }
                return None;
            },
        };
        record_visit(outcome, node.id());
        let value = number_of(context, state_key.as_str());
        record_number(outcome, state_key, value);
        let mut k: usize = 0;
        while k < branches.len() && branches[k].value != value
            invariant
                k <= branches@.len(),
                branch_taken(branches@, value, 0) == branch_taken(branches@, value, k as int),
            decreases branches@.len() - k,
        {
            k = k + 1;
        }
        proof {
            lemma_branch_taken_range(branches@, value, k as int);
            assert(branch_taken(branches@, value, 0) == k as int);
            self.vm_program().lemma_children(idx, k as int);
        }
        let child_id = if k < branches.len() {
            branches[k].child.as_str()
        } else {
            fallback.as_str()
        };
        assert(child_id@ == self.node_at(idx).child_ids()[k as int]);
        let child = self.child_index(child_id);
        self.evaluate(child, state, context, outcome)
    }

    fn eval_flag_guard(
        &self,
        index: u32,
        node: &BehaviorNodeV1,
        state: &mut BehaviorVmState,
        context: &BehaviorContext,
        outcome: &mut DecisionOutcome,
    ) -> (r: Option<BehaviorAction>)
        requires
            self.wf(),
            context.wf(),
            old(state).wf(),
            index < self.vm_program().node_seq().len(),
            *node == self.node_at(index as int),
            node is Interrupt || node is BlackboardCompare,
        ensures
            final(state).wf(),
            final(outcome).action == old(outcome).action,
            (action_view(r), final(state).timers(), final(outcome).record()) == self.eval(
                *context,
                index as int,
                old(state).timers(),
                old(outcome).record(),
            ),
        decreases self.vm_program().rank(index as int), 0int, 0int,
    {
        let ghost idx = index as int;
        let ghost t0 = state.timers();
        let ghost o0 = outcome.record();
        let (key, child) = match node {
            BehaviorNodeV1::Interrupt { condition_key, child, .. } => (condition_key, child),
            BehaviorNodeV1::BlackboardCompare { key, child, .. } => (key, child),
            _ => {
                proof {
                    assert(false);
                }
                return None;
            },
        };
        record_visit(outcome, node.id());
        let ghost o1 = outcome.record();
        assert(self.eval(*context, idx, t0, o0) == self.eval_guard(*context, idx, key@, t0, o1));
        let value = flag_of(context, key.as_str());
        record_flag(outcome, key, value);
        let ghost o2 = outcome.record();
        if value {
            proof {
                self.vm_program().lemma_children(idx, 0);
                assert(self.eval_guard(*context, idx, key@, t0, o1) == self.eval(*context, self.child_at(idx, 0), t0, o2));
            }
            let c = self.child_index(child.as_str());
            self.evaluate(c, state, context, outcome)
        } else {
            None
        }
    }

    fn eval_timer(
        &self,
        index: u32,
        node: &BehaviorNodeV1,
        state: &mut BehaviorVmState,
        context: &BehaviorContext,
        outcome: &mut DecisionOutcome,
    ) -> (r: Option<BehaviorAction>)
        requires
            self.wf(),
            context.wf(),
            old(state).wf(),
            index < self.vm_program().node_seq().len(),
            *node == self.node_at(index as int),
            node is Timer,
        ensures
            final(state).wf(),
            final(outcome).action == old(outcome).action,
            (action_view(r), final(state).timers(), final(outcome).record()) == self.eval(
                *context,
                index as int,
                old(state).timers(),
                old(outcome).record(),
            ),
        decreases self.vm_program().rank(index as int), 0int, 0int,
    {
        let ghost idx = index as int;
        let (timer_id, ticks, child) = match node {
            BehaviorNodeV1::Timer { id, ticks, child } => (id, ticks, child),
            _ => {
                proof {
                    assert(false);
                }
                return None;
            },
        };
        record_visit(outcome, node.id());
        let existing: Option<u64> = match state.timer_started_at.get(timer_id.as_str()) {
            Some(t) => Some(*t),
            None => None,
        };
        let started = match existing {
            Some(t) => t,
            None => {
                state.timer_started_at.insert(timer_id.clone(), context.tick);
                context.tick
            },
        };
        let elapsed = if context.tick >= started {
            context.tick - started
        } else {
            0
        };
        if elapsed >= *ticks as u64 {
            proof {
                self.vm_program().lemma_children(idx, 0);
            }
            let c = self.child_index(child.as_str());
            self.evaluate(c, state, context, outcome)
        } else {
            None
        }
    }

    fn eval_chance_or_event(
        &self,
        index: u32,
        node: &BehaviorNodeV1,
        state: &mut BehaviorVmState,
        context: &BehaviorContext,
        outcome: &mut DecisionOutcome,
    ) -> (r: Option<BehaviorAction>)
        requires
            self.wf(),
            context.wf(),
            old(state).wf(),
            index < self.vm_program().node_seq().len(),
            *node == self.node_at(index as int),
            node is Probability || node is Event,
        ensures
            final(state).wf(),
            final(outcome).action == old(outcome).action,
            (action_view(r), final(state).timers(), final(outcome).record()) == self.eval(
                *context,
                index as int,
                old(state).timers(),
                old(outcome).record(),
            ),
        decreases self.vm_program().rank(index as int), 0int, 0int,
    {
        let ghost idx = index as int;
        record_visit(outcome, node.id());
        let (pass, child) = match node {
            BehaviorNodeV1::Probability { id: node_id, probability_millionths, child } => {
                let mut sample = hash_combine(self.global_seed, context.agent_id.0);
                sample = hash_combine(sample, context.tick);
                sample = hash_combine(sample, hash_str(node_id.as_str()));
                (sample % 1_000_000 < *probability_millionths as u64, child)
            },
            BehaviorNodeV1::Event { event_type, child, .. } => (
                context.events.contains_key(event_type.as_str()),
                child,
            ),
            _ => {
                proof {
                    assert(false);
                }
                return None;
            },
        };
        if pass {
            proof {
                self.vm_program().lemma_children(idx, 0);
            }
            let c = self.child_index(child.as_str());
            self.evaluate(c, state, context, outcome)
        } else {
            None
        }
    }

    fn eval_leaf(
        &self,
        index: u32,
        node: &BehaviorNodeV1,
        state: &mut BehaviorVmState,
        context: &BehaviorContext,
        outcome: &mut DecisionOutcome,
    ) -> (r: Option<BehaviorAction>)
        requires
            self.wf(),
            context.wf(),
            old(state).wf(),
            index < self.vm_program().node_seq().len(),
            *node == self.node_at(index as int),
            node is Navigate || node is Wait || node is Queue || node is FollowLane || node is HoldPosition,
        ensures
            final(state).wf(),
            final(outcome).action == old(outcome).action,
            (action_view(r), final(state).timers(), final(outcome).record()) == self.eval(
                *context,
                index as int,
                old(state).timers(),
                old(outcome).record(),
            ),
        decreases self.vm_program().rank(index as int), 0int, 0int,
    {
        record_visit(outcome, node.id());
        record_decisive(outcome, node.id());
        match node {
            BehaviorNodeV1::Navigate { destination_id, .. } => Some(
                BehaviorAction::Navigate { destination_id: destination_id.clone() },
            ),
            BehaviorNodeV1::Wait { ticks, .. } => Some(BehaviorAction::Wait { ticks: *ticks }),
            BehaviorNodeV1::Queue { queue_id, .. } => Some(BehaviorAction::Queue { queue_id: queue_id.clone() }),
            BehaviorNodeV1::FollowLane { lane_id, .. } => Some(BehaviorAction::FollowLane { lane_id: lane_id.clone() }),
            _ => Some(BehaviorAction::HoldPosition),
        }
    }

    /// Decide one agent's action at one tick: evaluate the program from its
    /// entry, remembering when timers started.
    pub fn decide(&self, state: &mut BehaviorVmState, context: &BehaviorContext) -> (r: DecisionOutcome)
        requires
            self.wf(),
            old(state).wf(),
            context.wf(),
        ensures
            final(state).wf(),
            ({
                let e = self.eval(*context, self.vm_program().entry(), old(state).timers(), empty_outcome());
                &&& action_view(r.action) == e.0
                &&& final(state).timers() == e.1
                &&& r.record() == e.2
            }),
    {
        let mut outcome = DecisionOutcome {
            action: None,
            decisive_node: None,
            visited_nodes: Vec::new(),
            observations: Vec::new(),
            number_observations: Vec::new(),
        };
        proof {
            assert(outcome.record() =~= empty_outcome()) by {
                assert(texts(outcome.visited_nodes@) =~= Seq::<Seq<char>>::empty());
                assert(outcome.observations@.map_values(|p: (String, bool)| (p.0@, p.1)) =~= Seq::<(Seq<char>, bool)>::empty());
                assert(outcome.number_observations@.map_values(|p: (String, i32)| (p.0@, p.1)) =~= Seq::<(Seq<char>, i32)>::empty());
            }
            self.program.lemma_ranks(0);
        }
        let action = self.evaluate(self.program.entry_index, state, context, &mut outcome);
        outcome.action = action;
        outcome
    }
}

/// What a step of evaluation keeps: timers only gain entries, the visited
/// nodes only grow at the end, and, while no node was decisive, an action
/// is chosen exactly when a decisive node is recorded.
pub open spec fn evaluation_grows(
    timers: Map<Seq<char>, u64>,
    out: OutcomeView,
    r: (Option<ActionView>, Map<Seq<char>, u64>, OutcomeView),
) -> bool {
    &&& forall|k: Seq<char>| #[trigger] timers.dom().contains(k) ==> r.1.dom().contains(k) && r.1[k] == timers[k]
    &&& r.2.visited.len() >= out.visited.len()
    &&& r.2.visited.take(out.visited.len() as int) =~= out.visited
    &&& out.decisive is None ==> (r.0 is Some <==> r.2.decisive is Some)
}

impl BehaviorVm {
    proof fn lemma_eval_grows(&self, ctx: BehaviorContext, idx: int, timers: Map<Seq<char>, u64>, out: OutcomeView)
        requires
            self.wf(),
            0 <= idx < self.vm_program().node_seq().len(),
        ensures
            evaluation_grows(timers, out, self.eval(ctx, idx, timers, out)),
            self.eval(ctx, idx, timers, out).2.visited.len() > out.visited.len(),
            self.eval(ctx, idx, timers, out).2.visited[out.visited.len() as int] == self.node_at(idx).node_id(),
        decreases self.vm_program().rank(idx), 1int, 0int,
    {
        let node = self.node_at(idx);
        let id = node.node_id();
        let o1 = OutcomeView { visited: out.visited.push(id), ..out };
        let r = self.eval(ctx, idx, timers, out);
        match node {
            BehaviorNodeV1::Selector { .. } => self.lemma_eval_first_grows(ctx, idx, 0, timers, o1),
            BehaviorNodeV1::Fallback { .. } => self.lemma_eval_first_grows(ctx, idx, 0, timers, o1),
            BehaviorNodeV1::Sequence { .. } => match first_incomplete(node.child_ids(), ctx.completed_nodes.as_map().dom(), 0) {
                Some(k) => {
                    lemma_first_incomplete_range(node.child_ids(), ctx.completed_nodes.as_map().dom(), 0);
                    self.vm_program().lemma_children(idx, k);
                    self.lemma_eval_grows(ctx, self.child_at(idx, k), timers, o1);
                },
                None => {},
            },
            BehaviorNodeV1::UtilitySelector { options, .. } => {
                if options@.len() > 0 {
                    let scored = options@.map_values(|o: UtilityOptionV1| (o.score_key@, ctx.number(o.score_key@)));
                    let o2 = OutcomeView { numbers: o1.numbers + scored, ..o1 };
                    let k = best_option(options@, ctx, options@.len() as int);
                    lemma_best_option_range(options@, ctx, options@.len() as int);
                    self.vm_program().lemma_children(idx, k);
                    self.lemma_eval_grows(ctx, self.child_at(idx, k), timers, o2);
                }
            },
            BehaviorNodeV1::StateSwitch { state_key, branches, .. } => {
                let value = ctx.number(state_key@);
                let o2 = OutcomeView { numbers: o1.numbers.push((state_key@, value)), ..o1 };
                let k = branch_taken(branches@, value, 0);
                lemma_branch_taken_range(branches@, value, 0);
                self.vm_program().lemma_children(idx, k);
                self.lemma_eval_grows(ctx, self.child_at(idx, k), timers, o2);
            },
            BehaviorNodeV1::Interrupt { condition_key, .. } => self.lemma_eval_guard_grows(ctx, idx, condition_key@, timers, o1),
            BehaviorNodeV1::BlackboardCompare { key, .. } => self.lemma_eval_guard_grows(ctx, idx, key@, timers, o1),
            BehaviorNodeV1::Timer { id, ticks, .. } => {
                let started = if timers.dom().contains(id@) {
                    timers[id@]
                } else {
                    ctx.tick
                };
                let t2 = if timers.dom().contains(id@) {
                    timers
                } else {
                    timers.insert(id@, ctx.tick)
                };
                let elapsed: int = if ctx.tick >= started {
                    ctx.tick - started
                } else {
                    0
                };
                if elapsed >= ticks {
                    self.vm_program().lemma_children(idx, 0);
                    self.lemma_eval_grows(ctx, self.child_at(idx, 0), t2, o1);
                    let rc = self.eval(ctx, self.child_at(idx, 0), t2, o1);
                    assert forall|key: Seq<char>| #[trigger] timers.dom().contains(key) implies rc.1.dom().contains(key)
                        && rc.1[key] == timers[key] by {
                        assert(t2.dom().contains(key));
                    }
                }
            },
            BehaviorNodeV1::Probability { .. } => {
                if self.node_at(idx).child_ids().len() > 0 {
                    self.vm_program().lemma_children(idx, 0);
                    self.lemma_eval_grows(ctx, self.child_at(idx, 0), timers, o1);
                }
            },
            BehaviorNodeV1::Event { .. } => {
                if self.node_at(idx).child_ids().len() > 0 {
                    self.vm_program().lemma_children(idx, 0);
                    self.lemma_eval_grows(ctx, self.child_at(idx, 0), timers, o1);
                }
            },
            _ => {},
        }
        assert(r.2.visited.len() >= o1.visited.len());
        assert(r.2.visited.take(o1.visited.len() as int) =~= o1.visited);
        assert(r.2.visited.take(out.visited.len() as int) =~= r.2.visited.take(o1.visited.len() as int).take(out.visited.len() as int));
        assert(r.2.visited.take(o1.visited.len() as int)[out.visited.len() as int] == id);
    }

    proof fn lemma_eval_first_grows(
        &self,
        ctx: BehaviorContext,
        idx: int,
        k: int,
        timers: Map<Seq<char>, u64>,
        out: OutcomeView,
    )
        requires
            self.wf(),
            0 <= idx < self.vm_program().node_seq().len(),
            0 <= k,
        ensures
            evaluation_grows(timers, out, self.eval_first(ctx, idx, k, timers, out)),
        decreases self.vm_program().rank(idx), 0int, self.node_at(idx).child_ids().len() - k,
    {
        if k < self.node_at(idx).child_ids().len() {
            self.vm_program().lemma_children(idx, k);
            let c = self.child_at(idx, k);
            self.lemma_eval_grows(ctx, c, timers, out);
            let r = self.eval(ctx, c, timers, out);
            if r.0 is None {
                self.lemma_eval_first_grows(ctx, idx, k + 1, r.1, r.2);
                let f = self.eval_first(ctx, idx, k + 1, r.1, r.2);
                assert(f.2.visited.take(out.visited.len() as int) =~= f.2.visited.take(r.2.visited.len() as int).take(
                    out.visited.len() as int,
                ));
                assert forall|key: Seq<char>| #[trigger] timers.dom().contains(key) implies f.1.dom().contains(key)
                    && f.1[key] == timers[key] by {
                    assert(r.1.dom().contains(key));
                }
            }
        } else {
            assert(out.visited.take(out.visited.len() as int) =~= out.visited);
        }
    }

    proof fn lemma_eval_guard_grows(
        &self,
        ctx: BehaviorContext,
        idx: int,
        key: Seq<char>,
        timers: Map<Seq<char>, u64>,
        out: OutcomeView,
    )
        requires
            self.wf(),
            0 <= idx < self.vm_program().node_seq().len(),
            self.node_at(idx).child_ids().len() == 1,
        ensures
            evaluation_grows(timers, out, self.eval_guard(ctx, idx, key, timers, out)),
        decreases self.vm_program().rank(idx), 0int, 0int,
    {
        let value = ctx.flag(key);
        let seen = exists|i: int| 0 <= i < out.observations.len() && (#[trigger] out.observations[i]).0 == key;
        let o2 = if seen {
            out
        } else {
            OutcomeView { observations: out.observations.push((key, value)), ..out }
        };
        if value {
            self.vm_program().lemma_children(idx, 0);
            self.lemma_eval_grows(ctx, self.child_at(idx, 0), timers, o2);
        } else {
            assert(o2.visited.take(out.visited.len() as int) =~= out.visited);
        }
    }

    /// A decision starts at the entry node, chooses an action exactly when
    /// it records a decisive node, and keeps every timer that had started.
    pub proof fn lemma_decision_shape(&self, ctx: BehaviorContext, timers: Map<Seq<char>, u64>)
        requires
            self.wf(),
        ensures
            ({
                let e = self.eval(ctx, self.vm_program().entry(), timers, empty_outcome());
                &&& e.2.visited.len() > 0
                &&& e.2.visited[0] == self.node_at(self.vm_program().entry()).node_id()
                &&& (e.0 is Some <==> e.2.decisive is Some)
                &&& forall|k: Seq<char>| #[trigger] timers.dom().contains(k) ==> e.1.dom().contains(k) && e.1[k] == timers[k]
            }),
    {
        self.vm_program().lemma_ranks(0);
        self.lemma_eval_grows(ctx, self.vm_program().entry(), timers, empty_outcome());
    }
}

} // verus!
