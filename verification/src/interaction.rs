//! Versioned interaction requests and the deterministic interaction
//! scheduler.
//!
//! The crowd runtime owns roles, roots, contacts and fallback decisions. A
//! request is validated before it is queued; a promoted group locks its
//! participants, and releasing the group frees them all together.

use vstd::prelude::*;
use crate::diagnostics::{Diagnostic, DiagnosticKey, keys, keys_sorted, sort_diagnostics};
use crate::text::{decimal, is_hash, is_hash_spec, owned, push_decimal, str_eq};
use vstd::utf8::encode_utf8;
use crate::keyed::{TextMap, sorted_keys};
use std::collections::BTreeMap;

verus! {

broadcast use vstd::laws_cmp::group_laws_cmp;

/// The request schema version this library reads.
pub const INTERACTION_REQUEST_SCHEMA_VERSION: u32 = 1;

/// The lifecycle of a queued interaction group.
#[derive(Clone, Copy, Debug, PartialEq, Eq, Structural)]
pub enum InteractionGroupStatusV1 {
    Queued,
    Promoted,
    Completed,
    Fallback,
}

/// How strictly a worker must follow the request.
#[derive(Clone, Copy, Debug, PartialEq, Eq, Structural)]
pub enum InteractionModeV1 {
    Strict,
    Exploratory,
}

/// The kind of a contact between two participants.
#[derive(Clone, Copy, Debug, PartialEq, Eq, PartialOrd, Ord, Structural)]
pub enum ContactLabelV1 {
    NoContact,
    Touch,
    Support,
    Impact,
    Grip,
    Forbidden,
}

/// One agent taking part, with its role and skeleton.
#[derive(Debug)]
pub struct InteractionParticipantV1 {
    pub agent_id: u64,
    pub role: String,
    pub retarget_profile_id: String,
}

/// An authored root sample, as the validation reads it: its tick, whether
/// its position and yaw are finite numbers, and whether its position is
/// farther than the allowed root step from the sample before it.
#[derive(Clone, Copy, Debug, PartialEq, Eq, Structural)]
pub struct RootSampleV1 {
    pub tick: u64,
    pub finite: bool,
    pub step_too_far: bool,
}

/// The authored root path of one participant.
#[derive(Debug)]
pub struct RootConstraintV1 {
    pub agent_id: u64,
    pub samples: Vec<RootSampleV1>,
}

/// A contact the interaction declares between two participants.
#[derive(Debug)]
pub struct ContactConstraintV1 {
    pub contact_id: String,
    pub owner_agent_id: u64,
    pub other_agent_id: u64,
    pub label: ContactLabelV1,
    pub tick_start: u64,
    pub tick_end: u64,
    pub required: bool,
}

/// Where the request came from.
#[derive(Debug)]
pub struct InteractionProvenanceV1 {
    pub base_cache_hash: String,
    pub graph_hash: String,
    pub worker_protocol: String,
}

/// What a worker may spend.
#[derive(Clone, Copy, Debug, PartialEq, Eq, Structural)]
pub struct InteractionBudgetsV1 {
    pub max_latency_ms: u64,
    pub max_memory_bytes: u64,
    pub max_output_bytes: u64,
}

/// A request to animate one interaction group.
#[derive(Debug)]
pub struct InteractionRequestV1 {
    pub schema_version: u32,
    pub request_id: String,
    pub group_id: String,
    pub participants: Vec<InteractionParticipantV1>,
    pub tick_start: u64,
    pub tick_end: u64,
    pub seed: u64,
    pub mode: InteractionModeV1,
    pub action: String,
    pub outcome: String,
    pub root_constraints: Vec<RootConstraintV1>,
    pub contact_constraints: Vec<ContactConstraintV1>,
    pub provenance: InteractionProvenanceV1,
    pub budgets: InteractionBudgetsV1,
}

/// What is wrong with a request; the variant order is the report order.
#[derive(Clone, Copy, Debug, PartialEq, Eq, PartialOrd, Ord, Structural)]
pub enum InteractionIssueCode {
    UnsupportedVersion,
    EmptyId,
    InvalidTickRange,
    TooFewParticipants,
    DuplicateParticipant,
    InvalidParticipant,
    MissingRootConstraint,
    DuplicateRootConstraint,
    InvalidRootSamples,
    InvalidContactConstraint,
    DuplicateContactConstraint,
    InvalidProvenance,
    InvalidBudget,
    RequestIdMismatch,
    ParticipantSetMismatch,
    MissingMotionParticipant,
    DuplicateMotionParticipant,
    InvalidMotionRoots,
    RootDiscontinuity,
    RootDeviation,
    InvalidSkeletalChannel,
    UnknownContact,
    InvalidContact,
    ForbiddenContact,
    RequiredContactMissing,
    InvalidMotionProvenance,
    MissingFallback,
}

impl InteractionIssueCode {
    /// The position of the code in report order.
    pub open spec fn rank(self) -> nat {
        match self {
            InteractionIssueCode::UnsupportedVersion => 0,
            InteractionIssueCode::EmptyId => 1,
            InteractionIssueCode::InvalidTickRange => 2,
            InteractionIssueCode::TooFewParticipants => 3,
            InteractionIssueCode::DuplicateParticipant => 4,
            InteractionIssueCode::InvalidParticipant => 5,
            InteractionIssueCode::MissingRootConstraint => 6,
            InteractionIssueCode::DuplicateRootConstraint => 7,
            InteractionIssueCode::InvalidRootSamples => 8,
            InteractionIssueCode::InvalidContactConstraint => 9,
            InteractionIssueCode::DuplicateContactConstraint => 10,
            InteractionIssueCode::InvalidProvenance => 11,
            InteractionIssueCode::InvalidBudget => 12,
            InteractionIssueCode::RequestIdMismatch => 13,
            InteractionIssueCode::ParticipantSetMismatch => 14,
            InteractionIssueCode::MissingMotionParticipant => 15,
            InteractionIssueCode::DuplicateMotionParticipant => 16,
            InteractionIssueCode::InvalidMotionRoots => 17,
            InteractionIssueCode::RootDiscontinuity => 18,
            InteractionIssueCode::RootDeviation => 19,
            InteractionIssueCode::InvalidSkeletalChannel => 20,
            InteractionIssueCode::UnknownContact => 21,
            InteractionIssueCode::InvalidContact => 22,
            InteractionIssueCode::ForbiddenContact => 23,
            InteractionIssueCode::RequiredContactMissing => 24,
            InteractionIssueCode::InvalidMotionProvenance => 25,
            InteractionIssueCode::MissingFallback => 26,
        }
    }

    pub fn rank_of(self) -> (r: u8)
        ensures
            r as nat == self.rank(),
    {
        match self {
            InteractionIssueCode::UnsupportedVersion => 0,
            InteractionIssueCode::EmptyId => 1,
            InteractionIssueCode::InvalidTickRange => 2,
            InteractionIssueCode::TooFewParticipants => 3,
            InteractionIssueCode::DuplicateParticipant => 4,
            InteractionIssueCode::InvalidParticipant => 5,
            InteractionIssueCode::MissingRootConstraint => 6,
            InteractionIssueCode::DuplicateRootConstraint => 7,
            InteractionIssueCode::InvalidRootSamples => 8,
            InteractionIssueCode::InvalidContactConstraint => 9,
            InteractionIssueCode::DuplicateContactConstraint => 10,
            InteractionIssueCode::InvalidProvenance => 11,
            InteractionIssueCode::InvalidBudget => 12,
            InteractionIssueCode::RequestIdMismatch => 13,
            InteractionIssueCode::ParticipantSetMismatch => 14,
            InteractionIssueCode::MissingMotionParticipant => 15,
            InteractionIssueCode::DuplicateMotionParticipant => 16,
            InteractionIssueCode::InvalidMotionRoots => 17,
            InteractionIssueCode::RootDiscontinuity => 18,
            InteractionIssueCode::RootDeviation => 19,
            InteractionIssueCode::InvalidSkeletalChannel => 20,
            InteractionIssueCode::UnknownContact => 21,
            InteractionIssueCode::InvalidContact => 22,
            InteractionIssueCode::ForbiddenContact => 23,
            InteractionIssueCode::RequiredContactMissing => 24,
            InteractionIssueCode::InvalidMotionProvenance => 25,
            InteractionIssueCode::MissingFallback => 26,
        }
    }
}

/// One problem found in a request.
#[derive(Debug)]
pub struct InteractionIssue {
    pub code: InteractionIssueCode,
    pub message: String,
}

/// The key of an issue: issues sort by code, then message.
pub open spec fn issue_key(code: InteractionIssueCode, message: Seq<char>) -> DiagnosticKey {
    (0, Seq::empty(), code.rank(), message)
}

impl Diagnostic for InteractionIssue {
    open spec fn key(&self) -> DiagnosticKey {
        issue_key(self.code, self.message@)
    }

    fn class_rank(&self) -> (r: u8) {
        0
    }

    fn subject_str(&self) -> (r: &str) {
        proof {
            reveal_strlit("");
        }
        ""
    }

    fn code_rank(&self) -> (r: u8) {
        self.code.rank_of()
    }

    fn message_str(&self) -> (r: &str) {
        self.message.as_str()
    }
}

/// `d` when `cond` holds, nothing otherwise.
pub open spec fn issue_when(cond: bool, code: InteractionIssueCode, message: Seq<char>) -> Seq<DiagnosticKey> {
    if cond {
        seq![issue_key(code, message)]
    } else {
        Seq::empty()
    }
}

/// Record `code` with `message` when `cond` holds.
fn report_issue(issues: &mut Vec<InteractionIssue>, cond: bool, code: InteractionIssueCode, message: String)
    ensures
        keys(final(issues)@) == keys(old(issues)@) + issue_when(cond, code, message@),
{
    if cond {
        let d = InteractionIssue { code, message };
        issues.push(d);
        proof {
            assert(keys(issues@) =~= keys(old(issues)@).push(d.key()));
        }
    }
    proof {
        assert(keys(issues@) =~= keys(old(issues)@) + issue_when(cond, code, message@));
    }
}

/// `prefix`, the decimal form of `n`, then `suffix`.
fn numbered(prefix: &str, n: u64, suffix: &str) -> (r: String)
    ensures
        r@ == prefix@ + decimal(n as nat) + suffix@,
{
    let mut out = owned(prefix);
    push_decimal(&mut out, n);
    out.append(suffix);
    out
}

// ---------------------------------------------------------------------------
// Request validation
// ---------------------------------------------------------------------------

pub open spec fn participant_ids(ps: Seq<InteractionParticipantV1>) -> Seq<u64> {
    ps.map_values(|p: InteractionParticipantV1| p.agent_id)
}

pub open spec fn root_agent_ids(rs: Seq<RootConstraintV1>) -> Seq<u64> {
    rs.map_values(|r: RootConstraintV1| r.agent_id)
}

pub open spec fn contact_ids(cs: Seq<ContactConstraintV1>) -> Seq<Seq<char>> {
    cs.map_values(|c: ContactConstraintV1| c.contact_id@)
}

/// Participants with an empty role or profile, or seen before.
pub open spec fn participant_issue_keys(ps: Seq<InteractionParticipantV1>) -> Seq<DiagnosticKey>
    decreases ps.len(),
{
    if ps.len() == 0 {
        Seq::empty()
    } else {
        let p = ps.last();
        let before = ps.drop_last();
        participant_issue_keys(before) + issue_when(
            p.role@.len() == 0 || p.retarget_profile_id@.len() == 0,
            InteractionIssueCode::InvalidParticipant,
            "participant "@ + decimal(p.agent_id as nat) + " has an empty role or retarget profile"@,
        ) + issue_when(
            participant_ids(before).contains(p.agent_id),
            InteractionIssueCode::DuplicateParticipant,
            "participant "@ + decimal(p.agent_id as nat) + " appears more than once"@,
        )
    }
}

/// Samples out of the request interval, out of order, or not finite.
pub open spec fn sample_issue_keys(samples: Seq<RootSampleV1>, start: u64, end: u64) -> Seq<DiagnosticKey>
    decreases samples.len(),
{
    if samples.len() == 0 {
        Seq::empty()
    } else {
        let s = samples.last();
        let before = samples.drop_last();
        sample_issue_keys(before, start, end) + issue_when(
            s.tick < start || s.tick > end || (before.len() > 0 && s.tick <= before.last().tick) || !s.finite,
            InteractionIssueCode::InvalidRootSamples,
            "invalid or unordered root sample at tick "@ + decimal(s.tick as nat),
        )
    }
}

/// The problems of one root constraint's samples.
pub open spec fn root_sample_keys(samples: Seq<RootSampleV1>, start: u64, end: u64) -> Seq<DiagnosticKey> {
    issue_when(
        samples.len() == 0 || samples[0].tick != start || samples.last().tick != end,
        InteractionIssueCode::InvalidRootSamples,
        "root samples must cover the complete request interval"@,
    ) + sample_issue_keys(samples, start, end)
}

/// Root constraints repeated, for non-participants, or with bad samples.
pub open spec fn root_issue_keys(rs: Seq<RootConstraintV1>, pids: Seq<u64>, start: u64, end: u64) -> Seq<
    DiagnosticKey,
>
    decreases rs.len(),
{
    if rs.len() == 0 {
        Seq::empty()
    } else {
        let r = rs.last();
        let before = rs.drop_last();
        root_issue_keys(before, pids, start, end) + issue_when(
            root_agent_ids(before).contains(r.agent_id),
            InteractionIssueCode::DuplicateRootConstraint,
            "root constraint for agent "@ + decimal(r.agent_id as nat) + " appears more than once"@,
        ) + issue_when(
            !pids.contains(r.agent_id),
            InteractionIssueCode::InvalidRootSamples,
            "root constraint references non-participant "@ + decimal(r.agent_id as nat),
        ) + root_sample_keys(r.samples@, start, end)
    }
}

/// Each distinct participant without a root constraint.
pub open spec fn missing_root_keys(pids: Seq<u64>, roots: Seq<u64>) -> Seq<DiagnosticKey>
    decreases pids.len(),
{
    if pids.len() == 0 {
        Seq::empty()
    } else {
        let a = pids.last();
        missing_root_keys(pids.drop_last(), roots) + issue_when(
            !pids.drop_last().contains(a) && !roots.contains(a),
            InteractionIssueCode::MissingRootConstraint,
            "participant "@ + decimal(a as nat) + " has no root constraint"@,
        )
    }
}

/// A contact outside the declared interaction.
pub open spec fn contact_invalid(c: ContactConstraintV1, pids: Seq<u64>, start: u64, end: u64) -> bool {
    ||| c.contact_id@.len() == 0
    ||| c.owner_agent_id == c.other_agent_id
    ||| !pids.contains(c.owner_agent_id)
    ||| !pids.contains(c.other_agent_id)
    ||| c.tick_start > c.tick_end
    ||| c.tick_start < start
    ||| c.tick_end > end
}

/// Contacts repeated or outside the declared interaction.
pub open spec fn contact_issue_keys(cs: Seq<ContactConstraintV1>, pids: Seq<u64>, start: u64, end: u64) -> Seq<
    DiagnosticKey,
>
    decreases cs.len(),
{
    if cs.len() == 0 {
        Seq::empty()
    } else {
        let c = cs.last();
        let before = cs.drop_last();
        contact_issue_keys(before, pids, start, end) + issue_when(
            contact_ids(before).contains(c.contact_id@),
            InteractionIssueCode::DuplicateContactConstraint,
            "contact "@ + c.contact_id@ + " appears more than once"@,
        ) + issue_when(
            contact_invalid(c, pids, start, end),
            InteractionIssueCode::InvalidContactConstraint,
            "contact "@ + c.contact_id@ + " is outside the declared interaction"@,
        )
    }
}

/// Every problem of the request, in the order found.
/// A request without issues has the supported schema, non-empty request and
/// group IDs, a tick range that does not run backwards, at least two
/// participants, and positive budgets.
pub proof fn lemma_clean_request_is_well_formed(r: InteractionRequestV1)
    requires
        request_issue_keys(r).len() == 0,
    ensures
        r.schema_version == INTERACTION_REQUEST_SCHEMA_VERSION,
        r.request_id@.len() > 0 && r.group_id@.len() > 0,
        r.tick_start <= r.tick_end,
        r.participants@.len() >= 2,
        r.budgets.max_latency_ms > 0 && r.budgets.max_memory_bytes > 0 && r.budgets.max_output_bytes > 0,
{
    let pids = participant_ids(r.participants@);
    let a = issue_when(
        r.schema_version != INTERACTION_REQUEST_SCHEMA_VERSION,
        InteractionIssueCode::UnsupportedVersion,
        "expected request schema version 1"@,
    );
    let b = issue_when(
        r.request_id@.len() == 0 || r.group_id@.len() == 0,
        InteractionIssueCode::EmptyId,
        "request_id and group_id must be non-empty"@,
    );
    let c = issue_when(
        r.tick_start > r.tick_end,
        InteractionIssueCode::InvalidTickRange,
        "tick_start must not be after tick_end"@,
    );
    let d = issue_when(
        r.participants@.len() < 2,
        InteractionIssueCode::TooFewParticipants,
        "an interaction group requires at least two participants"@,
    );
    let e = participant_issue_keys(r.participants@) + root_issue_keys(
        r.root_constraints@,
        pids,
        r.tick_start,
        r.tick_end,
    ) + missing_root_keys(pids, root_agent_ids(r.root_constraints@)) + contact_issue_keys(
        r.contact_constraints@,
        pids,
        r.tick_start,
        r.tick_end,
    ) + issue_when(
        !is_hash_spec(encode_utf8(r.provenance.base_cache_hash@)) || !is_hash_spec(
            encode_utf8(r.provenance.graph_hash@),
        ) || r.provenance.worker_protocol@.len() == 0,
        InteractionIssueCode::InvalidProvenance,
        "base_cache_hash and graph_hash must be 64 lowercase hex characters and worker_protocol must be non-empty"@,
    );
    let f = issue_when(
        r.budgets.max_latency_ms == 0 || r.budgets.max_memory_bytes == 0 || r.budgets.max_output_bytes == 0,
        InteractionIssueCode::InvalidBudget,
        "interaction budgets must be positive"@,
    );
    assert(request_issue_keys(r) =~= a + b + c + d + e + f);
    assert(a.len() == 0 && b.len() == 0 && c.len() == 0 && d.len() == 0 && f.len() == 0);
}

pub open spec fn request_issue_keys(r: InteractionRequestV1) -> Seq<DiagnosticKey> {
    let pids = participant_ids(r.participants@);
    issue_when(
        r.schema_version != INTERACTION_REQUEST_SCHEMA_VERSION,
        InteractionIssueCode::UnsupportedVersion,
        "expected request schema version 1"@,
    ) + issue_when(
        r.request_id@.len() == 0 || r.group_id@.len() == 0,
        InteractionIssueCode::EmptyId,
        "request_id and group_id must be non-empty"@,
    ) + issue_when(
        r.tick_start > r.tick_end,
        InteractionIssueCode::InvalidTickRange,
        "tick_start must not be after tick_end"@,
    ) + issue_when(
        r.participants@.len() < 2,
        InteractionIssueCode::TooFewParticipants,
        "an interaction group requires at least two participants"@,
    ) + participant_issue_keys(r.participants@) + root_issue_keys(
        r.root_constraints@,
        pids,
        r.tick_start,
        r.tick_end,
    ) + missing_root_keys(pids, root_agent_ids(r.root_constraints@)) + contact_issue_keys(
        r.contact_constraints@,
        pids,
        r.tick_start,
        r.tick_end,
    ) + issue_when(
        !is_hash_spec(encode_utf8(r.provenance.base_cache_hash@)) || !is_hash_spec(
            encode_utf8(r.provenance.graph_hash@),
        ) || r.provenance.worker_protocol@.len() == 0,
        InteractionIssueCode::InvalidProvenance,
        "base_cache_hash and graph_hash must be 64 lowercase hex characters and worker_protocol must be non-empty"@,
    ) + issue_when(
        r.budgets.max_latency_ms == 0 || r.budgets.max_memory_bytes == 0 || r.budgets.max_output_bytes == 0,
        InteractionIssueCode::InvalidBudget,
        "interaction budgets must be positive"@,
    )
}

/// Whether one of the first `end` entries is `x`.
fn u64_seen(v: &Vec<u64>, end: usize, x: u64) -> (r: bool)
    requires
        end <= v@.len(),
    ensures
        r == v@.take(end as int).contains(x),
{
    let mut k: usize = 0;
    while k < end
        invariant
            end <= v@.len(),
            k <= end,
            forall|j: int| 0 <= j < k ==> v@[j] != x,
        decreases end - k,
    {
        if v[k] == x {
            assert(v@.take(end as int)[k as int] == x);
            return true;
        }
        k = k + 1;
    }
    proof {
        if v@.take(end as int).contains(x) {
            let j = v@.take(end as int).index_of(x);
            assert(v@[j] == x);
        }
    }
    false
}

fn participant_id_list(ps: &Vec<InteractionParticipantV1>) -> (r: Vec<u64>)
    ensures
        r@ == participant_ids(ps@),
{
    let mut out: Vec<u64> = Vec::new();
    let mut i: usize = 0;
    while i < ps.len()
        invariant
            i <= ps@.len(),
            out@ == participant_ids(ps@).take(i as int),
        decreases ps@.len() - i,
    {
        out.push(ps[i].agent_id);
        proof {
            assert(participant_ids(ps@).take(i + 1) =~= participant_ids(ps@).take(i as int).push(ps@[i as int].agent_id));
        }
        i = i + 1;
    }
    assert(participant_ids(ps@).take(ps@.len() as int) =~= participant_ids(ps@));
    out
}

fn root_id_list(rs: &Vec<RootConstraintV1>) -> (r: Vec<u64>)
    ensures
        r@ == root_agent_ids(rs@),
{
    let mut out: Vec<u64> = Vec::new();
    let mut i: usize = 0;
    while i < rs.len()
        invariant
            i <= rs@.len(),
            out@ == root_agent_ids(rs@).take(i as int),
        decreases rs@.len() - i,
    {
        out.push(rs[i].agent_id);
        proof {
            assert(root_agent_ids(rs@).take(i + 1) =~= root_agent_ids(rs@).take(i as int).push(rs@[i as int].agent_id));
        }
        i = i + 1;
    }
    assert(root_agent_ids(rs@).take(rs@.len() as int) =~= root_agent_ids(rs@));
    out
}

fn participant_pass(issues: &mut Vec<InteractionIssue>, ps: &Vec<InteractionParticipantV1>, pids: &Vec<u64>)
    requires
        pids@ == participant_ids(ps@),
    ensures
        keys(final(issues)@) == keys(old(issues)@) + participant_issue_keys(ps@),
{
    let ghost start = keys(issues@);
    let mut i: usize = 0;
    proof {
        assert(ps@.take(0) =~= Seq::<InteractionParticipantV1>::empty());
        assert(keys(issues@) =~= start + participant_issue_keys(ps@.take(0)));
    }
    while i < ps.len()
        invariant
            pids@ == participant_ids(ps@),
            i <= ps@.len(),
            start == keys(old(issues)@),
            keys(issues@) == start + participant_issue_keys(ps@.take(i as int)),
        decreases ps@.len() - i,
    {
        let p = &ps[i];
        report_issue(
            issues,
            p.role.as_str().is_empty() || p.retarget_profile_id.as_str().is_empty(),
            InteractionIssueCode::InvalidParticipant,
            numbered("participant ", p.agent_id, " has an empty role or retarget profile"),
        );
        let seen = u64_seen(pids, i, p.agent_id);
        report_issue(
            issues,
            seen,
            InteractionIssueCode::DuplicateParticipant,
            numbered("participant ", p.agent_id, " appears more than once"),
        );
        proof {
            let t = ps@.take(i + 1);
            assert(t.drop_last() =~= ps@.take(i as int));
            assert(t.last() == ps@[i as int]);
            assert(participant_ids(ps@.take(i as int)) =~= pids@.take(i as int));
            assert(keys(issues@) =~= start + participant_issue_keys(t));
        }
        i = i + 1;
    }
    assert(ps@.take(ps@.len() as int) =~= ps@);
}

fn sample_pass(issues: &mut Vec<InteractionIssue>, samples: &Vec<RootSampleV1>, start: u64, end: u64)
    ensures
        keys(final(issues)@) == keys(old(issues)@) + root_sample_keys(samples@, start, end),
{
    let ghost k0 = keys(issues@);
    let n = samples.len();
    let uncovered = n == 0 || samples[0].tick != start || samples[n - 1].tick != end;
    proof {
        reveal_strlit("root samples must cover the complete request interval");
    }
    report_issue(
        issues,
        uncovered,
        InteractionIssueCode::InvalidRootSamples,
        owned("root samples must cover the complete request interval"),
    );
    let ghost k1 = keys(issues@);
    let mut i: usize = 0;
    proof {
        assert(samples@.take(0) =~= Seq::<RootSampleV1>::empty());
        assert(keys(issues@) =~= k1 + sample_issue_keys(samples@.take(0), start, end));
    }
    while i < n
        invariant
            n == samples@.len(),
            i <= n,
            keys(issues@) == k1 + sample_issue_keys(samples@.take(i as int), start, end),
        decreases n - i,
    {
        let s = samples[i];
        let unordered = i > 0 && s.tick <= samples[i - 1].tick;
        report_issue(
            issues,
            s.tick < start || s.tick > end || unordered || !s.finite,
            InteractionIssueCode::InvalidRootSamples,
            numbered("invalid or unordered root sample at tick ", s.tick, ""),
        );
        proof {
            reveal_strlit("");
            let t = samples@.take(i + 1);
            assert(t.drop_last() =~= samples@.take(i as int));
            assert(t.last() == s);
            if i > 0 {
                assert(t.drop_last().last() == samples@[i - 1]);
            }
            assert(("invalid or unordered root sample at tick "@ + decimal(s.tick as nat) + ""@) =~= (
            "invalid or unordered root sample at tick "@ + decimal(s.tick as nat)));
            assert(keys(issues@) =~= k1 + sample_issue_keys(t, start, end));
        }
        i = i + 1;
    }
    proof {
        assert(samples@.take(n as int) =~= samples@);
        assert(keys(issues@) =~= k0 + root_sample_keys(samples@, start, end));
    }
}

fn root_pass(
    issues: &mut Vec<InteractionIssue>,
    rs: &Vec<RootConstraintV1>,
    rids: &Vec<u64>,
    pids: &Vec<u64>,
    start: u64,
    end: u64,
)
    requires
        rids@ == root_agent_ids(rs@),
    ensures
        keys(final(issues)@) == keys(old(issues)@) + root_issue_keys(rs@, pids@, start, end),
{
    let ghost k0 = keys(issues@);
    let mut i: usize = 0;
    proof {
        assert(rs@.take(0) =~= Seq::<RootConstraintV1>::empty());
        assert(keys(issues@) =~= k0 + root_issue_keys(rs@.take(0), pids@, start, end));
    }
    while i < rs.len()
        invariant
            rids@ == root_agent_ids(rs@),
            i <= rs@.len(),
            k0 == keys(old(issues)@),
            keys(issues@) == k0 + root_issue_keys(rs@.take(i as int), pids@, start, end),
        decreases rs@.len() - i,
    {
        let r = &rs[i];
        let repeated = u64_seen(rids, i, r.agent_id);
        report_issue(
            issues,
            repeated,
            InteractionIssueCode::DuplicateRootConstraint,
            numbered("root constraint for agent ", r.agent_id, " appears more than once"),
        );
        let member = u64_seen(pids, pids.len(), r.agent_id);
        report_issue(
            issues,
            !member,
            InteractionIssueCode::InvalidRootSamples,
            numbered("root constraint references non-participant ", r.agent_id, ""),
        );
        sample_pass(issues, &r.samples, start, end);
        proof {
            reveal_strlit("");
            let t = rs@.take(i + 1);
            assert(t.drop_last() =~= rs@.take(i as int));
            assert(t.last() == rs@[i as int]);
            assert(root_agent_ids(rs@.take(i as int)) =~= rids@.take(i as int));
            assert(pids@.take(pids@.len() as int) =~= pids@);
            assert(("root constraint references non-participant "@ + decimal(r.agent_id as nat) + ""@) =~= (
            "root constraint references non-participant "@ + decimal(r.agent_id as nat)));
            assert(keys(issues@) =~= k0 + root_issue_keys(t, pids@, start, end));
        }
        i = i + 1;
    }
    assert(rs@.take(rs@.len() as int) =~= rs@);
}

fn missing_root_pass(issues: &mut Vec<InteractionIssue>, pids: &Vec<u64>, rids: &Vec<u64>)
    ensures
        keys(final(issues)@) == keys(old(issues)@) + missing_root_keys(pids@, rids@),
{
    let ghost k0 = keys(issues@);
    let mut i: usize = 0;
    proof {
        assert(pids@.take(0) =~= Seq::<u64>::empty());
        assert(keys(issues@) =~= k0 + missing_root_keys(pids@.take(0), rids@));
    }
    while i < pids.len()
        invariant
            i <= pids@.len(),
            k0 == keys(old(issues)@),
            keys(issues@) == k0 + missing_root_keys(pids@.take(i as int), rids@),
        decreases pids@.len() - i,
    {
        let a = pids[i];
        let first = !u64_seen(pids, i, a);
        let has_root = u64_seen(rids, rids.len(), a);
        report_issue(
            issues,
            first && !has_root,
            InteractionIssueCode::MissingRootConstraint,
            numbered("participant ", a, " has no root constraint"),
        );
        proof {
            let t = pids@.take(i + 1);
            assert(t.drop_last() =~= pids@.take(i as int));
            assert(t.last() == a);
            assert(rids@.take(rids@.len() as int) =~= rids@);
            assert(keys(issues@) =~= k0 + missing_root_keys(t, rids@));
        }
        i = i + 1;
    }
    assert(pids@.take(pids@.len() as int) =~= pids@);
}

/// Whether one of the first `end` contacts has the ID `id`.
fn contact_seen(cs: &Vec<ContactConstraintV1>, end: usize, id: &str) -> (r: bool)
    requires
        end <= cs@.len(),
    ensures
        r == contact_ids(cs@.take(end as int)).contains(id@),
{
    let ghost t = contact_ids(cs@.take(end as int));
    let mut k: usize = 0;
    while k < end
        invariant
            end <= cs@.len(),
            t == contact_ids(cs@.take(end as int)),
            k <= end,
            forall|j: int| 0 <= j < k ==> t[j] != id@,
        decreases end - k,
    {
        assert(t[k as int] == cs@[k as int].contact_id@);
        if str_eq(cs[k].contact_id.as_str(), id) {
            return true;
        }
        k = k + 1;
    }
    proof {
        if t.contains(id@) {
            let j = t.index_of(id@);
            assert(t[j] == id@);
        }
    }
    false
}

fn contact_pass(issues: &mut Vec<InteractionIssue>, cs: &Vec<ContactConstraintV1>, pids: &Vec<u64>, start: u64, end: u64)
    ensures
        keys(final(issues)@) == keys(old(issues)@) + contact_issue_keys(cs@, pids@, start, end),
{
    let ghost k0 = keys(issues@);
    let mut i: usize = 0;
    proof {
        assert(cs@.take(0) =~= Seq::<ContactConstraintV1>::empty());
        assert(keys(issues@) =~= k0 + contact_issue_keys(cs@.take(0), pids@, start, end));
    }
    while i < cs.len()
        invariant
            i <= cs@.len(),
            k0 == keys(old(issues)@),
            keys(issues@) == k0 + contact_issue_keys(cs@.take(i as int), pids@, start, end),
        decreases cs@.len() - i,
    {
        let c = &cs[i];
        let id = c.contact_id.as_str();
        let repeated = contact_seen(cs, i, id);
        let mut message = owned("contact ");
        message.append(id);
        message.append(" appears more than once");
        report_issue(issues, repeated, InteractionIssueCode::DuplicateContactConstraint, message);
        let owner_known = u64_seen(pids, pids.len(), c.owner_agent_id);
        let other_known = u64_seen(pids, pids.len(), c.other_agent_id);
        let invalid = id.is_empty() || c.owner_agent_id == c.other_agent_id || !owner_known || !other_known
            || c.tick_start > c.tick_end || c.tick_start < start || c.tick_end > end;
        let mut message2 = owned("contact ");
        message2.append(id);
        message2.append(" is outside the declared interaction");
        report_issue(issues, invalid, InteractionIssueCode::InvalidContactConstraint, message2);
        proof {
            let t = cs@.take(i + 1);
            assert(t.drop_last() =~= cs@.take(i as int));
            assert(t.last() == cs@[i as int]);
            assert(pids@.take(pids@.len() as int) =~= pids@);
            assert(keys(issues@) =~= k0 + contact_issue_keys(t, pids@, start, end));
        }
        i = i + 1;
    }
    assert(cs@.take(cs@.len() as int) =~= cs@);
}

/// Every problem of the request `r`, in the order found.
fn request_issues(r: &InteractionRequestV1) -> (issues: Vec<InteractionIssue>)
    ensures
        keys(issues@) == request_issue_keys(*r),
{
    let mut issues: Vec<InteractionIssue> = Vec::new();
    report_issue(
        &mut issues,
        r.schema_version != INTERACTION_REQUEST_SCHEMA_VERSION,
        InteractionIssueCode::UnsupportedVersion,
        owned("expected request schema version 1"),
    );
    report_issue(
        &mut issues,
        r.request_id.as_str().is_empty() || r.group_id.as_str().is_empty(),
        InteractionIssueCode::EmptyId,
        owned("request_id and group_id must be non-empty"),
    );
    report_issue(
        &mut issues,
        r.tick_start > r.tick_end,
        InteractionIssueCode::InvalidTickRange,
        owned("tick_start must not be after tick_end"),
    );
    report_issue(
        &mut issues,
        r.participants.len() < 2,
        InteractionIssueCode::TooFewParticipants,
        owned("an interaction group requires at least two participants"),
    );
    let pids = participant_id_list(&r.participants);
    let rids = root_id_list(&r.root_constraints);
    participant_pass(&mut issues, &r.participants, &pids);
    root_pass(&mut issues, &r.root_constraints, &rids, &pids, r.tick_start, r.tick_end);
    missing_root_pass(&mut issues, &pids, &rids);
    contact_pass(&mut issues, &r.contact_constraints, &pids, r.tick_start, r.tick_end);
    report_issue(
        &mut issues,
        !is_hash(r.provenance.base_cache_hash.as_str()) || !is_hash(r.provenance.graph_hash.as_str())
            || r.provenance.worker_protocol.as_str().is_empty(),
        InteractionIssueCode::InvalidProvenance,
        owned(
            "base_cache_hash and graph_hash must be 64 lowercase hex characters and worker_protocol must be non-empty",
        ),
    );
    report_issue(
        &mut issues,
        r.budgets.max_latency_ms == 0 || r.budgets.max_memory_bytes == 0 || r.budgets.max_output_bytes
            == 0,
        InteractionIssueCode::InvalidBudget,
        owned("interaction budgets must be positive"),
    );
    proof {
        assert(keys(issues@) =~= request_issue_keys(*r));
    }
    issues
}

impl InteractionRequestV1 {
    /// Check the request, reporting every problem sorted by code and message.
    ///
    /// `Ok` exactly when `request_issue_keys` finds nothing.
    pub fn validate(&self) -> (r: Result<(), Vec<InteractionIssue>>)
        ensures
            r is Ok <==> request_issue_keys(*self).len() == 0,
            r matches Err(d) ==> keys(d@).to_multiset() == request_issue_keys(*self).to_multiset() && keys_sorted(
                keys(d@),
            ),
            r is Ok ==> self.schema_version == INTERACTION_REQUEST_SCHEMA_VERSION && self.request_id@.len() > 0
                && self.group_id@.len() > 0 && self.tick_start <= self.tick_end && self.participants@.len() >= 2,
    {
        proof {
            if request_issue_keys(*self).len() == 0 {
                lemma_clean_request_is_well_formed(*self);
            }
        }
        let issues = request_issues(self);
        let ghost found = keys(issues@);
        if issues.len() == 0 {
            return Ok(());
        }
        let sorted = sort_diagnostics(issues);
        proof {
            vstd::seq_lib::to_multiset_len(keys(sorted@));
            vstd::seq_lib::to_multiset_len(found);
        }
        Err(sorted)
    }
}

// ---------------------------------------------------------------------------
// Scheduling
// ---------------------------------------------------------------------------

/// What the scheduler keeps of a queued group: who takes part, and where the
/// group stands.
#[derive(Debug)]
pub struct InteractionGroupStateV1 {
    participants: Vec<u64>,
    status: InteractionGroupStatusV1,
}

/// Deterministic promotion and failure isolation for multi-agent
/// interactions.
///
/// Promotion locks every participant to the group; completing or failing a
/// promoted group releases every participant together.
#[derive(Debug)]
pub struct InteractionSchedulerV1 {
    capacity: usize,
    groups: TextMap<InteractionGroupStateV1>,
    active_by_agent: BTreeMap<u64, String>,
}

/// How many groups stand promoted.
pub open spec fn promoted_count(groups: Seq<InteractionGroupStateV1>) -> nat
    decreases groups.len(),
{
    if groups.len() == 0 {
        0
    } else {
        promoted_count(groups.drop_last()) + if groups.last().status_of() == InteractionGroupStatusV1::Promoted {
            1nat
        } else {
            0nat
        }
    }
}

impl InteractionGroupStateV1 {
    pub closed spec fn status_of(&self) -> InteractionGroupStatusV1 {
        self.status
    }

    pub closed spec fn members(&self) -> Seq<u64> {
        self.participants@
    }
}

/// The issue messages joined by "; ".
pub open spec fn joined_messages(d: Seq<DiagnosticKey>) -> Seq<char>
    decreases d.len(),
{
    if d.len() == 0 {
        Seq::empty()
    } else if d.len() == 1 {
        d[0].3
    } else {
        joined_messages(d.drop_last()) + "; "@ + d.last().3
    }
}

/// The position of the first of `agents` with an active group.
pub open spec fn first_active(agents: Seq<u64>, active: Map<u64, Seq<char>>, k: int) -> Option<int>
    decreases agents.len() - k,
{
    if k < 0 || k >= agents.len() {
        None
    } else if active.dom().contains(agents[k]) {
        Some(k)
    } else {
        first_active(agents, active, k + 1)
    }
}

/// The first of `ids` whose group is queued.
pub open spec fn first_queued(ids: Seq<Seq<char>>, statuses: Map<Seq<char>, InteractionGroupStatusV1>, k: int) -> Option<
    Seq<char>,
>
    decreases ids.len() - k,
{
    if k < 0 || k >= ids.len() {
        None
    } else if statuses[ids[k]] == InteractionGroupStatusV1::Queued {
        Some(ids[k])
    } else {
        first_queued(ids, statuses, k + 1)
    }
}

/// `active` with every one of `agents` mapped to `group`.
pub open spec fn lock_all(active: Map<u64, Seq<char>>, agents: Seq<u64>, group: Seq<char>) -> Map<u64, Seq<char>>
    decreases agents.len(),
{
    if agents.len() == 0 {
        active
    } else {
        lock_all(active, agents.drop_last(), group).insert(agents.last(), group)
    }
}

impl InteractionSchedulerV1 {
    /// Where each queued group stands, by request ID.
    pub closed spec fn statuses(&self) -> Map<Seq<char>, InteractionGroupStatusV1> {
        self.groups.as_map().map_values(|g: InteractionGroupStateV1| g.status)
    }

    /// Who takes part in each queued group, by request ID.
    pub closed spec fn members(&self) -> Map<Seq<char>, Seq<u64>> {
        self.groups.as_map().map_values(|g: InteractionGroupStateV1| g.participants@)
    }

    /// The group each locked agent belongs to.
    pub closed spec fn active(&self) -> Map<u64, Seq<char>> {
        self.active_by_agent@.map_values(|s: String| s@)
    }

    /// How many groups may stand promoted at once.
    pub closed spec fn limit(&self) -> nat {
        self.capacity as nat
    }

    /// How many groups stand promoted.
    pub closed spec fn promoted(&self) -> nat {
        promoted_count(self.groups.values())
    }

    /// Every locked agent belongs to a promoted group that names it, and no
    /// more groups stand promoted than the capacity allows.
    pub closed spec fn wf(&self) -> bool {
        &&& self.groups.wf()
        &&& forall|a: u64| #[trigger] self.active().dom().contains(a) ==> {
            &&& self.statuses().dom().contains(self.active()[a])
            &&& self.statuses()[self.active()[a]] == InteractionGroupStatusV1::Promoted
            &&& self.members()[self.active()[a]].contains(a)
        }
        &&& self.promoted() <= self.limit()
    }

    pub fn new(capacity: usize) -> (s: Self)
        ensures
            s.wf(),
            s.limit() == capacity,
            s.statuses() == Map::<Seq<char>, InteractionGroupStatusV1>::empty(),
            s.members() == Map::<Seq<char>, Seq<u64>>::empty(),
            s.active() == Map::<u64, Seq<char>>::empty(),
    {
        let s = InteractionSchedulerV1 { capacity, groups: TextMap::new(), active_by_agent: BTreeMap::new() };
        proof {
            assert(s.statuses() =~= Map::<Seq<char>, InteractionGroupStatusV1>::empty());
            assert(s.members() =~= Map::<Seq<char>, Seq<u64>>::empty());
            assert(s.active() =~= Map::<u64, Seq<char>>::empty());
            assert(s.groups.values().len() == 0);
        }
        s
    }

    /// Where the group `request_id` stands, if it was queued.
    pub fn status(&self, request_id: &str) -> (r: Option<InteractionGroupStatusV1>)
        requires
            self.wf(),
        ensures
            r is Some <==> self.statuses().dom().contains(request_id@),
            r matches Some(st) ==> st == self.statuses()[request_id@],
    {
        match self.groups.get(request_id) {
            Some(g) => Some(g.status),
            None => None,
        }
    }

    /// The group that holds `agent_id`, if any.
    pub fn active_group_for(&self, agent_id: u64) -> (r: Option<&str>)
        requires
            self.wf(),
        ensures
            r is Some <==> self.active().dom().contains(agent_id),
            r matches Some(g) ==> g@ == self.active()[agent_id],
    {
        broadcast use vstd::std_specs::btree::group_btree_axioms;

        match self.active_by_agent.get(&agent_id) {
            Some(g) => Some(g.as_str()),
            None => None,
        }
    }
}

/// `active` with none of `agents` mapped.
pub open spec fn unlock_all(active: Map<u64, Seq<char>>, agents: Seq<u64>) -> Map<u64, Seq<char>>
    decreases agents.len(),
{
    if agents.len() == 0 {
        active
    } else {
        unlock_all(active, agents.drop_last()).remove(agents.last())
    }
}

/// Locking a group maps each of its participants to it and leaves every
/// other agent as it was.
pub proof fn lemma_lock_all(active: Map<u64, Seq<char>>, agents: Seq<u64>, group: Seq<char>)
    ensures
        forall|a: u64| #[trigger] lock_all(active, agents, group).dom().contains(a) <==> (active.dom().contains(a)
            || agents.contains(a)),
        forall|a: u64| agents.contains(a) ==> #[trigger] lock_all(active, agents, group)[a] == group,
        forall|a: u64| !agents.contains(a) && active.dom().contains(a) ==> #[trigger] lock_all(active, agents, group)[a]
            == active[a],
    decreases agents.len(),
{
    if agents.len() > 0 {
        let pre = agents.drop_last();
        lemma_lock_all(active, pre, group);
        assert(lock_all(active, agents, group) == lock_all(active, pre, group).insert(agents.last(), group));
        assert forall|a: u64| agents.contains(a) <==> (pre.contains(a) || a == agents.last()) by {
            if agents.contains(a) {
                let k = agents.index_of(a);
                if k < agents.len() - 1 {
                    assert(pre[k] == a);
                }
            }
            if pre.contains(a) {
                let k = pre.index_of(a);
                assert(agents[k] == a);
            }
            if a == agents.last() {
                assert(agents[agents.len() - 1] == a);
            }
        }
    }
}

/// Releasing a group frees each of its participants and leaves every other
/// agent as it was.
pub proof fn lemma_unlock_all(active: Map<u64, Seq<char>>, agents: Seq<u64>)
    ensures
        forall|a: u64| #[trigger] unlock_all(active, agents).dom().contains(a) <==> (active.dom().contains(a)
            && !agents.contains(a)),
        forall|a: u64| #[trigger] unlock_all(active, agents).dom().contains(a) ==> unlock_all(active, agents)[a]
            == active[a],
    decreases agents.len(),
{
    if agents.len() > 0 {
        let pre = agents.drop_last();
        lemma_unlock_all(active, pre);
        assert(unlock_all(active, agents) == unlock_all(active, pre).remove(agents.last()));
        assert forall|a: u64| agents.contains(a) <==> (pre.contains(a) || a == agents.last()) by {
            if agents.contains(a) {
                let k = agents.index_of(a);
                if k < agents.len() - 1 {
                    assert(pre[k] == a);
                }
            }
            if pre.contains(a) {
                let k = pre.index_of(a);
                assert(agents[k] == a);
            }
            if a == agents.last() {
                assert(agents[agents.len() - 1] == a);
            }
        }
    }
}

proof fn lemma_promoted_count_update(s: Seq<InteractionGroupStateV1>, i: int, x: InteractionGroupStateV1)
    requires
        0 <= i < s.len(),
    ensures
        promoted_count(s.update(i, x)) + (if s[i].status_of() == InteractionGroupStatusV1::Promoted {
            1int
        } else {
            0int
        }) == promoted_count(s) + (if x.status_of() == InteractionGroupStatusV1::Promoted {
            1int
        } else {
            0int
        }),
    decreases s.len(),
{
    if i < s.len() - 1 {
        lemma_promoted_count_update(s.drop_last(), i, x);
        assert(s.update(i, x).drop_last() =~= s.drop_last().update(i, x));
    } else {
        assert(s.update(i, x).drop_last() =~= s.drop_last());
    }
}

proof fn lemma_promoted_count_insert(s: Seq<InteractionGroupStateV1>, i: int, x: InteractionGroupStateV1)
    requires
        0 <= i <= s.len(),
    ensures
        promoted_count(s.insert(i, x)) == promoted_count(s) + (if x.status_of() == InteractionGroupStatusV1::Promoted {
            1int
        } else {
            0int
        }),
    decreases s.len(),
{
    if i < s.len() {
        lemma_promoted_count_insert(s.drop_last(), i, x);
        assert(s.insert(i, x).drop_last() =~= s.drop_last().insert(i, x));
    } else {
        assert(s.insert(i, x).drop_last() =~= s);
    }
}

/// The issue messages of `issues`, joined by "; ".
fn join_issue_messages(issues: &Vec<InteractionIssue>) -> (r: String)
    ensures
        r@ == joined_messages(keys(issues@)),
{
    let ghost k = keys(issues@);
    let mut out = String::new();
    let mut i: usize = 0;
    proof {
        assert(k.take(0) =~= Seq::<DiagnosticKey>::empty());
    }
    while i < issues.len()
        invariant
            k == keys(issues@),
            i <= issues@.len(),
            out@ == joined_messages(k.take(i as int)),
        decreases issues@.len() - i,
    {
        if i > 0 {
            out.append("; ");
        }
        out.append(issues[i].message.as_str());
        proof {
            let t = k.take(i + 1);
            assert(t.drop_last() =~= k.take(i as int));
            assert(t.last() == issues@[i as int].key());
            if i == 0 {
                assert(t.len() == 1);
            }
        }
        i = i + 1;
    }
    assert(k.take(issues@.len() as int) =~= k);
    out
}

impl InteractionSchedulerV1 {
    /// Queue a validated request.
    ///
    /// Fails with the joined validation messages, or when the request ID is
    /// already queued, or when a participant is locked in a promoted group;
    /// the scheduler is then unchanged.
    pub fn enqueue(&mut self, request: InteractionRequestV1) -> (r: Result<(), String>)
        requires
            old(self).wf(),
        ensures
            final(self).wf(),
            final(self).limit() == old(self).limit(),
            r is Err ==> final(self).statuses() == old(self).statuses() && final(self).members() == old(
                self,
            ).members() && final(self).active() == old(self).active(),
            request_issue_keys(request).len() > 0 ==> (r matches Err(m) && exists|d: Seq<DiagnosticKey>|
                d.to_multiset() == request_issue_keys(request).to_multiset() && keys_sorted(d) && m@
                    == joined_messages(d)),
            request_issue_keys(request).len() == 0 && old(self).statuses().dom().contains(request.request_id@) ==> (
            r matches Err(m) && m@ == "interaction request "@ + request.request_id@ + " is duplicated"@),
            request_issue_keys(request).len() == 0 && !old(self).statuses().dom().contains(request.request_id@) ==> {
                let pids = participant_ids(request.participants@);
                match first_active(pids, old(self).active(), 0) {
                    Some(k) => r matches Err(m) && m@ == "participant "@ + decimal(pids[k] as nat)
                        + " is already promoted in "@ + old(self).active()[pids[k]],
                    None => {
                        &&& r is Ok
                        &&& final(self).statuses() == old(self).statuses().insert(
                            request.request_id@,
                            InteractionGroupStatusV1::Queued,
                        )
                        &&& final(self).members() == old(self).members().insert(request.request_id@, pids)
                        &&& final(self).active() == old(self).active()
                    },
                }
            },
    {
        broadcast use vstd::std_specs::btree::group_btree_axioms;

        match request.validate() {
            Err(issues) => {
                let message = join_issue_messages(&issues);
                proof {
                    let d = keys(issues@);
                    assert(request_issue_keys(request).len() > 0);
                    assert(d.to_multiset() == request_issue_keys(request).to_multiset() && keys_sorted(d) && message@
                        == joined_messages(d));
                    assert(exists|e: Seq<DiagnosticKey>|
                        e.to_multiset() == request_issue_keys(request).to_multiset() && keys_sorted(e) && message@
                            == joined_messages(e));
                }
                return Err(message);
            },
            Ok(()) => {},
        }
        if self.groups.contains_key(request.request_id.as_str()) {
            let mut message = owned("interaction request ");
            message.append(request.request_id.as_str());
            message.append(" is duplicated");
            return Err(message);
        }
        let pids = participant_id_list(&request.participants);
        let ghost active0 = self.active();
        let mut k: usize = 0;
        while k < pids.len()
            invariant
                self.wf(),
                *self == *old(self),
                active0 == self.active(),
                pids@ == participant_ids(request.participants@),
                request_issue_keys(request).len() == 0,
                !old(self).statuses().dom().contains(request.request_id@),
                k <= pids@.len(),
                first_active(pids@, active0, 0) == first_active(pids@, active0, k as int),
            decreases pids@.len() - k,
        {
            match self.active_by_agent.get(&pids[k]) {
                Some(group) => {
                    let mut message = numbered("participant ", pids[k], " is already promoted in ");
                    message.append(group.as_str());
                    proof {
                        assert(first_active(pids@, active0, k as int) == Some(k as int));
                    }
                    return Err(message);
                },
                None => {},
            }
            k = k + 1;
        }
        let ghost old_values = self.groups.values();
        let entry = InteractionGroupStateV1 { participants: pids, status: InteractionGroupStatusV1::Queued };
        let ghost g = entry;
        self.groups.insert(request.request_id, entry);
        proof {
            let i = choose|i: int| 0 <= i <= old_values.len() && self.groups.values() == old_values.insert(i, g);
            lemma_promoted_count_insert(old_values, i, g);
            assert(self.statuses() =~= old(self).statuses().insert(request.request_id@, InteractionGroupStatusV1::Queued));
            assert(self.members() =~= old(self).members().insert(request.request_id@, participant_ids(request.participants@)));
        }
        Ok(())
    }
}

impl InteractionSchedulerV1 {
    /// Promote the first queued group in request ID order, locking its
    /// participants to it; nothing while the promoted groups fill the
    /// capacity or nothing is queued.
    pub fn promote_next(&mut self) -> (r: Option<String>)
        requires
            old(self).wf(),
        ensures
            final(self).wf(),
            final(self).limit() == old(self).limit(),
            final(self).members() == old(self).members(),
            r is None ==> final(self).statuses() == old(self).statuses() && final(self).active() == old(self).active(),
            old(self).promoted() >= old(self).limit() ==> r is None,
            old(self).promoted() < old(self).limit() ==> match first_queued(
                sorted_keys(old(self).statuses().dom()),
                old(self).statuses(),
                0,
            ) {
                None => r is None,
                Some(q) => {
                    &&& r matches Some(id) && id@ == q
                    &&& final(self).statuses() == old(self).statuses().insert(q, InteractionGroupStatusV1::Promoted)
                    &&& final(self).active() == lock_all(old(self).active(), old(self).members()[q], q)
                    &&& final(self).promoted() == old(self).promoted() + 1
                },
            },
    {
        broadcast use vstd::std_specs::btree::group_btree_axioms;

        let n = self.groups.len();
        let ghost vals = self.groups.values();
        let mut count: usize = 0;
        let mut i: usize = 0;
        proof {
            assert(vals.take(0) =~= Seq::<InteractionGroupStateV1>::empty());
        }
        while i < n
            invariant
                self.wf(),
                *self == *old(self),
                vals == self.groups.values(),
                n == vals.len(),
                i <= n,
                count == promoted_count(vals.take(i as int)),
                count <= i,
            decreases n - i,
        {
            let st = self.groups.value_at(i).status;
            proof {
                assert(vals.take(i + 1).drop_last() =~= vals.take(i as int));
                assert(vals.take(i + 1).last() == vals[i as int]);
            }
            if st == InteractionGroupStatusV1::Promoted {
                count = count + 1;
            }
            i = i + 1;
        }
        assert(vals.take(n as int) =~= vals);
        if count >= self.capacity {
            return None;
        }
        let ghost ids = self.groups.keys();
        let ghost st0 = self.statuses();
        proof {
            self.groups.lemma_keys_sorted();
            assert(st0.dom() =~= self.groups.as_map().dom());
            assert(ids == sorted_keys(st0.dom()));
        }
        let mut q: usize = 0;
        while q < n && self.groups.value_at(q).status != InteractionGroupStatusV1::Queued
            invariant
                self.wf(),
                *self == *old(self),
                ids == self.groups.keys(),
                st0 == self.statuses(),
                n == ids.len(),
                q <= n,
                first_queued(ids, st0, 0) == first_queued(ids, st0, q as int),
            decreases n - q,
        {
            proof {
                self.groups.lemma_lookup(q as int);
                assert(st0[ids[q as int]] == self.groups.values()[q as int].status);
            }
            q = q + 1;
        }
        if q == n {
            return None;
        }
        proof {
            self.groups.lemma_lookup(q as int);
            assert(st0[ids[q as int]] == InteractionGroupStatusV1::Queued);
            assert(first_queued(ids, st0, q as int) == Some(ids[q as int]));
        }
        let id = self.groups.key_at(q).clone();
        let ghost members = self.members()[id@];
        let ghost active0 = self.active();
        let mut k: usize = 0;
        while k < self.groups.value_at(q).participants.len()
            invariant
                self.groups == old(self).groups,
                self.capacity == old(self).capacity,
                q < self.groups.keys().len(),
                self.groups.wf(),
                members == self.groups.values()[q as int].participants@,
                k <= members.len(),
                self.active() == lock_all(active0, members.take(k as int), id@),
            decreases members.len() - k,
        {
            let agent = self.groups.value_at(q).participants[k];
            self.active_by_agent.insert(agent, id.clone());
            proof {
                assert(members.take(k + 1).drop_last() =~= members.take(k as int));
                assert(members.take(k + 1).last() == agent);
                assert(self.active() =~= lock_all(active0, members.take(k + 1), id@));
            }
            k = k + 1;
        }
        proof {
            assert(members.take(members.len() as int) =~= members);
        }
        let ghost old_values = self.groups.values();
        let taken = self.groups.replace_at(
            q,
            InteractionGroupStateV1 { participants: Vec::new(), status: InteractionGroupStatusV1::Promoted },
        );
        let promoted = InteractionGroupStateV1 { participants: taken.participants, status: InteractionGroupStatusV1::Promoted };
        let ghost pg = promoted;
        self.groups.replace_at(q, promoted);
        proof {
            let vals2 = self.groups.values();
            assert(vals2 =~= old_values.update(q as int, pg));
            lemma_promoted_count_update(old_values, q as int, pg);
            assert(self.statuses() =~= st0.insert(id@, InteractionGroupStatusV1::Promoted));
            assert(self.members() =~= old(self).members());
            lemma_lock_all(active0, members, id@);
            assert forall|a: u64| #[trigger] self.active().dom().contains(a) implies {
                &&& self.statuses().dom().contains(self.active()[a])
                &&& self.statuses()[self.active()[a]] == InteractionGroupStatusV1::Promoted
                &&& self.members()[self.active()[a]].contains(a)
            } by {
                if !members.contains(a) {
                    assert(active0.dom().contains(a));
                    assert(active0[a] != id@);
                }
            }
        }
        Some(id)
    }

    /// Move the group `request_id` to `status`, freeing its participants if
    /// it stood promoted.
    fn release_group(&mut self, request_id: &str, status: InteractionGroupStatusV1) -> (r: Option<
        InteractionGroupStatusV1,
    >)
        requires
            old(self).wf(),
            status != InteractionGroupStatusV1::Promoted,
            status != InteractionGroupStatusV1::Queued,
        ensures
            final(self).wf(),
            final(self).limit() == old(self).limit(),
            final(self).members() == old(self).members(),
            !old(self).statuses().dom().contains(request_id@) ==> r is None && final(self).statuses() == old(
                self,
            ).statuses() && final(self).active() == old(self).active(),
            old(self).statuses().dom().contains(request_id@) ==> {
                &&& r == Some(status)
                &&& final(self).statuses() == old(self).statuses().insert(request_id@, status)
                &&& final(self).active() == if old(self).statuses()[request_id@] == InteractionGroupStatusV1::Promoted {
                    unlock_all(old(self).active(), old(self).members()[request_id@])
                } else {
                    old(self).active()
                }
            },
    {
        broadcast use vstd::std_specs::btree::group_btree_axioms;

        let q = match self.groups.find(request_id) {
            Some(q) => q,
            None => {
                return None;
            },
        };
        proof {
            self.groups.lemma_lookup(q as int);
        }
        let ghost st0 = self.statuses();
        let ghost members = self.members()[request_id@];
        let ghost active0 = self.active();
        let was_promoted = self.groups.value_at(q).status == InteractionGroupStatusV1::Promoted;
        if was_promoted {
            let mut k: usize = 0;
            while k < self.groups.value_at(q).participants.len()
                invariant
                    self.groups == old(self).groups,
                    self.capacity == old(self).capacity,
                    q < self.groups.keys().len(),
                    self.groups.wf(),
                    members == self.groups.values()[q as int].participants@,
                    k <= members.len(),
                    self.active() == unlock_all(active0, members.take(k as int)),
                decreases members.len() - k,
            {
                let agent = self.groups.value_at(q).participants[k];
                self.active_by_agent.remove(&agent);
                proof {
                    assert(members.take(k + 1).drop_last() =~= members.take(k as int));
                    assert(members.take(k + 1).last() == agent);
                    assert(self.active() =~= unlock_all(active0, members.take(k + 1)));
                }
                k = k + 1;
            }
            proof {
                assert(members.take(members.len() as int) =~= members);
            }
        }
        let ghost old_values = self.groups.values();
        let taken = self.groups.replace_at(q, InteractionGroupStateV1 { participants: Vec::new(), status });
        let released = InteractionGroupStateV1 { participants: taken.participants, status };
        let ghost rg = released;
        self.groups.replace_at(q, released);
        proof {
            assert(self.groups.values() =~= old_values.update(q as int, rg));
            lemma_promoted_count_update(old_values, q as int, rg);
            assert(self.statuses() =~= st0.insert(request_id@, status));
            assert(self.members() =~= old(self).members());
            lemma_unlock_all(active0, members);
            assert forall|a: u64| #[trigger] self.active().dom().contains(a) implies {
                &&& self.statuses().dom().contains(self.active()[a])
                &&& self.statuses()[self.active()[a]] == InteractionGroupStatusV1::Promoted
                &&& self.members()[self.active()[a]].contains(a)
            } by {
                assert(active0.dom().contains(a));
                if active0[a] == request_id@ {
                    assert(members.contains(a));
                }
            }
        }
        Some(status)
    }

    /// Mark the group `request_id` completed, releasing its participants.
    pub fn complete(&mut self, request_id: &str) -> (r: Option<InteractionGroupStatusV1>)
        requires
            old(self).wf(),
        ensures
            final(self).wf(),
            final(self).limit() == old(self).limit(),
            final(self).members() == old(self).members(),
            !old(self).statuses().dom().contains(request_id@) ==> r is None && final(self).statuses() == old(
                self,
            ).statuses() && final(self).active() == old(self).active(),
            old(self).statuses().dom().contains(request_id@) ==> {
                &&& r == Some(InteractionGroupStatusV1::Completed)
                &&& final(self).statuses() == old(self).statuses().insert(request_id@, InteractionGroupStatusV1::Completed)
                &&& final(self).active() == if old(self).statuses()[request_id@] == InteractionGroupStatusV1::Promoted {
                    unlock_all(old(self).active(), old(self).members()[request_id@])
                } else {
                    old(self).active()
                }
            },
    {
        self.release_group(request_id, InteractionGroupStatusV1::Completed)
    }

    /// Mark the group `request_id` failed: its participants are all released
    /// together and the group records the deterministic fallback.
    pub fn fail(&mut self, request_id: &str, reason: &str) -> (r: Option<InteractionGroupStatusV1>)
        requires
            old(self).wf(),
        ensures
            final(self).wf(),
            final(self).limit() == old(self).limit(),
            final(self).members() == old(self).members(),
            !old(self).statuses().dom().contains(request_id@) ==> r is None && final(self).statuses() == old(
                self,
            ).statuses() && final(self).active() == old(self).active(),
            old(self).statuses().dom().contains(request_id@) ==> {
                &&& r == Some(InteractionGroupStatusV1::Fallback)
                &&& final(self).statuses() == old(self).statuses().insert(request_id@, InteractionGroupStatusV1::Fallback)
                &&& final(self).active() == if old(self).statuses()[request_id@] == InteractionGroupStatusV1::Promoted {
                    unlock_all(old(self).active(), old(self).members()[request_id@])
                } else {
                    old(self).active()
                }
            },
    {
        self.release_group(request_id, InteractionGroupStatusV1::Fallback)
    }
}

/// A locked agent is held by a promoted group that names it: a participant
/// stays locked to its group for the whole promoted interval.
pub proof fn lemma_locked_agent_belongs_to_promoted_group(s: InteractionSchedulerV1, a: u64)
    requires
        s.wf(),
        s.active().dom().contains(a),
    ensures
        s.statuses().dom().contains(s.active()[a]),
        s.statuses()[s.active()[a]] == InteractionGroupStatusV1::Promoted,
        s.members()[s.active()[a]].contains(a),
{
}

/// No more groups stand promoted than the capacity allows.
pub proof fn lemma_promotions_within_capacity(s: InteractionSchedulerV1)
    requires
        s.wf(),
    ensures
        s.promoted() <= s.limit(),
{
}

// ---------------------------------------------------------------------------
// Motion validation
// ---------------------------------------------------------------------------

/// The motion schema version this library reads.
pub const INTERACTION_MOTION_SCHEMA_VERSION: u32 = 1;

/// A proposed root sample, as the validation reads it: its tick, and the
/// measurements made of its position against the previous sample and the
/// authored path.
#[derive(Clone, Copy, Debug, PartialEq, Eq, Structural)]
pub struct MotionRootSampleV1 {
    pub tick: u64,
    /// Position and yaw are finite numbers.
    pub finite: bool,
    /// Farther than the allowed step from the previous sample, when there is
    /// one.
    pub step_too_far: bool,
    /// Farther than the allowed deviation from the authored root path.
    pub off_path: bool,
}

/// A proposed joint channel, as the validation reads it.
#[derive(Debug)]
pub struct SkeletalChannelV1 {
    pub joint: String,
    pub ticks: Vec<u64>,
    /// How many values the channel carries.
    pub value_count: usize,
    /// Every component of every value is a finite number.
    pub values_finite: bool,
}

/// The proposed motion of one participant.
#[derive(Debug)]
pub struct MotionParticipantV1 {
    pub agent_id: u64,
    pub root_samples: Vec<MotionRootSampleV1>,
    pub skeletal_channels: Vec<SkeletalChannelV1>,
}

/// A contact the motion reports, as the validation reads it.
#[derive(Debug)]
pub struct MotionContactV1 {
    pub contact_id: String,
    pub label: ContactLabelV1,
    pub owner_agent_id: u64,
    pub other_agent_id: u64,
    pub tick: u64,
    /// The reported distance is a finite, non-negative number.
    pub distance_valid: bool,
    /// The reported distance is within contact range.
    pub within_reach: bool,
}

/// What produced the motion.
#[derive(Debug)]
pub struct MotionProvenanceV1 {
    pub backend: String,
    pub model_hash: Option<String>,
    pub seed: u64,
    pub config_hash: String,
}

/// The clip to play if the motion is refused.
#[derive(Debug)]
pub struct FallbackReferenceV1 {
    pub clip_set_id: String,
    pub clip_id: String,
    pub reason: String,
}

/// Motion a worker proposes for a request.
#[derive(Debug)]
pub struct InteractionMotionV1 {
    pub schema_version: u32,
    pub request_id: String,
    pub participants: Vec<MotionParticipantV1>,
    pub contacts: Vec<MotionContactV1>,
    pub provenance: MotionProvenanceV1,
    pub diagnostics: Vec<String>,
    pub fallback: FallbackReferenceV1,
}

/// The last root constraint for `agent`.
pub open spec fn root_for(rs: Seq<RootConstraintV1>, agent: u64) -> Option<int>
    decreases rs.len(),
{
    if rs.len() == 0 {
        None
    } else if rs.last().agent_id == agent {
        Some(rs.len() - 1)
    } else {
        root_for(rs.drop_last(), agent)
    }
}

/// The last contact constraint named `id`.
pub open spec fn constraint_for(cs: Seq<ContactConstraintV1>, id: Seq<char>) -> Option<int>
    decreases cs.len(),
{
    if cs.len() == 0 {
        None
    } else if cs.last().contact_id@ == id {
        Some(cs.len() - 1)
    } else {
        constraint_for(cs.drop_last(), id)
    }
}

/// Motion samples out of the interval, out of order, not finite, jumping, or
/// off the authored path.
pub open spec fn motion_sample_keys(samples: Seq<MotionRootSampleV1>, agent: u64, start: u64, end: u64) -> Seq<
    DiagnosticKey,
>
    decreases samples.len(),
{
    if samples.len() == 0 {
        Seq::empty()
    } else {
        let s = samples.last();
        let before = samples.drop_last();
        motion_sample_keys(before, agent, start, end) + issue_when(
            s.tick < start || s.tick > end || (before.len() > 0 && s.tick <= before.last().tick) || !s.finite,
            InteractionIssueCode::InvalidMotionRoots,
            "invalid or unordered motion root sample at tick "@ + decimal(s.tick as nat),
        ) + issue_when(
            before.len() > 0 && s.step_too_far,
            InteractionIssueCode::RootDiscontinuity,
            "agent "@ + decimal(agent as nat) + " moves too far between ticks "@ + decimal(before.last().tick as nat)
                + " and "@ + decimal(s.tick as nat),
        ) + issue_when(
            s.off_path,
            InteractionIssueCode::RootDeviation,
            "agent "@ + decimal(agent as nat) + " motion root deviates from its authored path at tick "@ + decimal(
                s.tick as nat,
            ),
        )
    }
}

pub open spec fn motion_root_keys(samples: Seq<MotionRootSampleV1>, agent: u64, start: u64, end: u64) -> Seq<
    DiagnosticKey,
> {
    issue_when(
        samples.len() == 0 || samples[0].tick != start || samples.last().tick != end,
        InteractionIssueCode::InvalidMotionRoots,
        "agent "@ + decimal(agent as nat) + " motion roots must cover the complete interval"@,
    ) + motion_sample_keys(samples, agent, start, end)
}

/// A channel with a joint, ticks, and one value per tick.
pub open spec fn channel_shaped(c: SkeletalChannelV1) -> bool {
    c.joint@.len() > 0 && c.ticks@.len() > 0 && c.ticks@.len() == c.value_count
}

pub open spec fn ticks_increasing(t: Seq<u64>) -> bool {
    forall|i: int| 0 <= i < t.len() - 1 ==> #[trigger] t[i] < t[i + 1]
}

/// An earlier well-shaped channel drives the same joint.
pub open spec fn joint_taken(before: Seq<SkeletalChannelV1>, joint: Seq<char>) -> bool {
    exists|j: int| 0 <= j < before.len() && channel_shaped(#[trigger] before[j]) && before[j].joint@ == joint
}

pub open spec fn channel_keys(cs: Seq<SkeletalChannelV1>) -> Seq<DiagnosticKey>
    decreases cs.len(),
{
    if cs.len() == 0 {
        Seq::empty()
    } else {
        let c = cs.last();
        let before = cs.drop_last();
        channel_keys(before) + issue_when(
            !channel_shaped(c) || joint_taken(before, c.joint@) || !ticks_increasing(c.ticks@) || !c.values_finite,
            InteractionIssueCode::InvalidSkeletalChannel,
            "invalid skeletal channel "@ + c.joint@,
        )
    }
}

pub open spec fn motion_ids(ps: Seq<MotionParticipantV1>) -> Seq<u64> {
    ps.map_values(|p: MotionParticipantV1| p.agent_id)
}

pub open spec fn motion_participant_keys(ps: Seq<MotionParticipantV1>, rs: Seq<RootConstraintV1>, start: u64, end: u64) -> Seq<
    DiagnosticKey,
>
    decreases ps.len(),
{
    if ps.len() == 0 {
        Seq::empty()
    } else {
        let p = ps.last();
        let before = ps.drop_last();
        motion_participant_keys(before, rs, start, end) + issue_when(
            motion_ids(before).contains(p.agent_id),
            InteractionIssueCode::DuplicateMotionParticipant,
            "motion participant "@ + decimal(p.agent_id as nat) + " appears more than once"@,
        ) + match root_for(rs, p.agent_id) {
            None => issue_when(
                true,
                InteractionIssueCode::MissingMotionParticipant,
                "motion participant "@ + decimal(p.agent_id as nat) + " has no request root"@,
            ),
            Some(i) => motion_root_keys(p.root_samples@, rs[i].agent_id, start, end) + channel_keys(
                p.skeletal_channels@,
            ),
        }
    }
}

/// A reported contact that breaks its declared constraint.
pub open spec fn contact_breaks(c: MotionContactV1, k: ContactConstraintV1) -> bool {
    ||| c.owner_agent_id != k.owner_agent_id
    ||| c.other_agent_id != k.other_agent_id
    ||| c.label != k.label
    ||| c.tick < k.tick_start
    ||| c.tick > k.tick_end
    ||| !c.distance_valid
}

/// A reported contact that names a declared constraint and keeps it.
pub open spec fn contact_accepted(c: MotionContactV1, ks: Seq<ContactConstraintV1>) -> bool {
    constraint_for(ks, c.contact_id@) matches Some(i) && !contact_breaks(c, ks[i])
}

/// An earlier accepted report of the same contact at the same tick.
pub open spec fn contact_repeated(before: Seq<MotionContactV1>, ks: Seq<ContactConstraintV1>, c: MotionContactV1) -> bool {
    exists|j: int|
        0 <= j < before.len() && contact_accepted(#[trigger] before[j], ks) && before[j].contact_id@ == c.contact_id@
            && before[j].tick == c.tick
}

pub open spec fn motion_contact_keys(cs: Seq<MotionContactV1>, ks: Seq<ContactConstraintV1>) -> Seq<DiagnosticKey>
    decreases cs.len(),
{
    if cs.len() == 0 {
        Seq::empty()
    } else {
        let c = cs.last();
        let before = cs.drop_last();
        motion_contact_keys(before, ks) + match constraint_for(ks, c.contact_id@) {
            None => issue_when(
                true,
                InteractionIssueCode::UnknownContact,
                "motion references unknown contact "@ + c.contact_id@,
            ),
            Some(i) => if contact_breaks(c, ks[i]) {
                issue_when(
                    true,
                    InteractionIssueCode::InvalidContact,
                    "motion contact "@ + c.contact_id@ + " violates its declared constraint"@,
                )
            } else {
                issue_when(
                    contact_repeated(before, ks, c),
                    InteractionIssueCode::InvalidContact,
                    "motion contact "@ + c.contact_id@ + " is duplicated at tick "@ + decimal(c.tick as nat),
                ) + issue_when(
                    c.label == ContactLabelV1::Forbidden || (ks[i].label == ContactLabelV1::Forbidden && c.within_reach),
                    InteractionIssueCode::ForbiddenContact,
                    "forbidden contact "@ + c.contact_id@ + " was reported"@,
                )
            },
        }
    }
}

/// A required contact the motion was seen to make.
pub open spec fn required_seen(cs: Seq<MotionContactV1>, ks: Seq<ContactConstraintV1>, id: Seq<char>) -> bool {
    exists|j: int|
        0 <= j < cs.len() && contact_accepted(#[trigger] cs[j], ks) && cs[j].contact_id@ == id && ks[constraint_for(
            ks,
            id,
        )->0].required && cs[j].within_reach
}

pub open spec fn required_missing_keys(ks: Seq<ContactConstraintV1>, all: Seq<ContactConstraintV1>, cs: Seq<MotionContactV1>) -> Seq<
    DiagnosticKey,
>
    decreases ks.len(),
{
    if ks.len() == 0 {
        Seq::empty()
    } else {
        let k = ks.last();
        required_missing_keys(ks.drop_last(), all, cs) + issue_when(
            k.required && !required_seen(cs, all, k.contact_id@),
            InteractionIssueCode::RequiredContactMissing,
            "required contact "@ + k.contact_id@ + " was not observed"@,
        )
    }
}

/// Every problem of the motion itself, in the order found.
pub open spec fn motion_issue_keys(m: InteractionMotionV1, r: InteractionRequestV1) -> Seq<DiagnosticKey> {
    issue_when(
        m.schema_version != INTERACTION_MOTION_SCHEMA_VERSION,
        InteractionIssueCode::UnsupportedVersion,
        "expected motion schema version 1"@,
    ) + issue_when(
        m.request_id@ != r.request_id@,
        InteractionIssueCode::RequestIdMismatch,
        "motion request "@ + m.request_id@ + " does not match "@ + r.request_id@,
    ) + motion_participant_keys(m.participants@, r.root_constraints@, r.tick_start, r.tick_end) + issue_when(
        motion_ids(m.participants@).to_set() != participant_ids(r.participants@).to_set(),
        InteractionIssueCode::ParticipantSetMismatch,
        "motion participants must exactly match request participants"@,
    ) + motion_contact_keys(m.contacts@, r.contact_constraints@) + required_missing_keys(
        r.contact_constraints@,
        r.contact_constraints@,
        m.contacts@,
    ) + issue_when(
        m.provenance.backend@.len() == 0 || m.provenance.config_hash@.len() == 0 || (r.mode
            == InteractionModeV1::Strict && m.provenance.seed != r.seed),
        InteractionIssueCode::InvalidMotionProvenance,
        "motion provenance must name a backend/config and match the strict request seed"@,
    ) + issue_when(
        m.fallback.clip_set_id@.len() == 0 || m.fallback.clip_id@.len() == 0 || m.fallback.reason@.len() == 0,
        InteractionIssueCode::MissingFallback,
        "motion must declare a deterministic fallback clip and reason"@,
    )
}

fn root_index_for(rs: &Vec<RootConstraintV1>, agent: u64) -> (r: Option<usize>)
    ensures
        match root_for(rs@, agent) {
            Some(i) => r matches Some(k) && k == i,
            None => r is None,
        },
        r matches Some(k) ==> k < rs@.len() && rs@[k as int].agent_id == agent,
        root_for(rs@, agent) matches Some(i) ==> 0 <= i < rs@.len(),
{
    proof {
        assert(rs@.take(rs@.len() as int) =~= rs@);
    }
    let mut k = rs.len();
    while k > 0
        invariant
            k <= rs@.len(),
            root_for(rs@, agent) == root_for(rs@.take(k as int), agent),
        decreases k,
    {
        proof {
            let t = rs@.take(k as int);
            assert(t.last() == rs@[k - 1]);
            assert(t.drop_last() =~= rs@.take(k - 1));
        }
        if rs[k - 1].agent_id == agent {
            return Some(k - 1);
        }
        k = k - 1;
    }
    assert(rs@.take(0).len() == 0);
    None
}

fn constraint_index_for(cs: &Vec<ContactConstraintV1>, id: &str) -> (r: Option<usize>)
    ensures
        match constraint_for(cs@, id@) {
            Some(i) => r matches Some(k) && k == i,
            None => r is None,
        },
        r matches Some(k) ==> k < cs@.len() && cs@[k as int].contact_id@ == id@,
        constraint_for(cs@, id@) matches Some(i) ==> 0 <= i < cs@.len(),
{
    proof {
        assert(cs@.take(cs@.len() as int) =~= cs@);
    }
    let mut k = cs.len();
    while k > 0
        invariant
            k <= cs@.len(),
            constraint_for(cs@, id@) == constraint_for(cs@.take(k as int), id@),
        decreases k,
    {
        proof {
            let t = cs@.take(k as int);
            assert(t.last() == cs@[k - 1]);
            assert(t.drop_last() =~= cs@.take(k - 1));
        }
        if str_eq(cs[k - 1].contact_id.as_str(), id) {
            return Some(k - 1);
        }
        k = k - 1;
    }
    None
}

fn motion_root_pass(issues: &mut Vec<InteractionIssue>, samples: &Vec<MotionRootSampleV1>, agent: u64, start: u64, end: u64)
    ensures
        keys(final(issues)@) == keys(old(issues)@) + motion_root_keys(samples@, agent, start, end),
{
    let ghost k0 = keys(issues@);
    let n = samples.len();
    let uncovered = n == 0 || samples[0].tick != start || samples[n - 1].tick != end;
    report_issue(
        issues,
        uncovered,
        InteractionIssueCode::InvalidMotionRoots,
        numbered("agent ", agent, " motion roots must cover the complete interval"),
    );
    let ghost k1 = keys(issues@);
    let mut i: usize = 0;
    proof {
        assert(samples@.take(0) =~= Seq::<MotionRootSampleV1>::empty());
        assert(keys(issues@) =~= k1 + motion_sample_keys(samples@.take(0), agent, start, end));
    }
    while i < n
        invariant
            n == samples@.len(),
            i <= n,
            keys(issues@) == k1 + motion_sample_keys(samples@.take(i as int), agent, start, end),
        decreases n - i,
    {
        let s = samples[i];
        let unordered = i > 0 && s.tick <= samples[i - 1].tick;
        report_issue(
            issues,
            s.tick < start || s.tick > end || unordered || !s.finite,
            InteractionIssueCode::InvalidMotionRoots,
            numbered("invalid or unordered motion root sample at tick ", s.tick, ""),
        );
        let jumped = i > 0 && s.step_too_far;
        let mut message = numbered("agent ", agent, " moves too far between ticks ");
        if i > 0 {
            push_decimal(&mut message, samples[i - 1].tick);
        }
        message.append(" and ");
        push_decimal(&mut message, s.tick);
        report_issue(issues, jumped, InteractionIssueCode::RootDiscontinuity, message);
        let mut message2 = numbered("agent ", agent, " motion root deviates from its authored path at tick ");
        push_decimal(&mut message2, s.tick);
        report_issue(issues, s.off_path, InteractionIssueCode::RootDeviation, message2);
        proof {
            reveal_strlit("");
            let t = samples@.take(i + 1);
            assert(t.drop_last() =~= samples@.take(i as int));
            assert(t.last() == s);
            if i > 0 {
                assert(t.drop_last().last() == samples@[i - 1]);
            }
            assert(("invalid or unordered motion root sample at tick "@ + decimal(s.tick as nat) + ""@) =~= (
            "invalid or unordered motion root sample at tick "@ + decimal(s.tick as nat)));
            assert(keys(issues@) =~= k1 + motion_sample_keys(t, agent, start, end));
        }
        i = i + 1;
    }
    proof {
        assert(samples@.take(n as int) =~= samples@);
        assert(keys(issues@) =~= k0 + motion_root_keys(samples@, agent, start, end));
    }
}

fn channel_is_shaped(c: &SkeletalChannelV1) -> (r: bool)
    ensures
        r == channel_shaped(*c),
{
    !c.joint.as_str().is_empty() && c.ticks.len() > 0 && c.ticks.len() == c.value_count
}

fn ticks_are_increasing(t: &Vec<u64>) -> (r: bool)
    ensures
        r == ticks_increasing(t@),
{
    let mut i: usize = 1;
    while i < t.len()
        invariant
            1 <= i,
            forall|j: int| 0 <= j < i - 1 && j < t@.len() - 1 ==> #[trigger] t@[j] < t@[j + 1],
        decreases t@.len() - i,
    {
        if t[i - 1] >= t[i] {
            assert(!(t@[i - 1] < t@[(i - 1) + 1]));
            return false;
        }
        i = i + 1;
    }
    true
}

/// Whether a well-shaped channel among the first `end` drives `joint`.
fn joint_used(cs: &Vec<SkeletalChannelV1>, end: usize, joint: &str) -> (r: bool)
    requires
        end <= cs@.len(),
    ensures
        r == joint_taken(cs@.take(end as int), joint@),
{
    let ghost before = cs@.take(end as int);
    let mut k: usize = 0;
    while k < end
        invariant
            end <= cs@.len(),
            before == cs@.take(end as int),
            k <= end,
            forall|j: int| 0 <= j < k ==> !(channel_shaped(#[trigger] before[j]) && before[j].joint@ == joint@),
        decreases end - k,
    {
        assert(before[k as int] == cs@[k as int]);
        if channel_is_shaped(&cs[k]) && str_eq(cs[k].joint.as_str(), joint) {
            return true;
        }
        k = k + 1;
    }
    false
}

fn channel_pass(issues: &mut Vec<InteractionIssue>, cs: &Vec<SkeletalChannelV1>)
    ensures
        keys(final(issues)@) == keys(old(issues)@) + channel_keys(cs@),
{
    let ghost k0 = keys(issues@);
    let mut i: usize = 0;
    proof {
        assert(cs@.take(0) =~= Seq::<SkeletalChannelV1>::empty());
        assert(keys(issues@) =~= k0 + channel_keys(cs@.take(0)));
    }
    while i < cs.len()
        invariant
            i <= cs@.len(),
            k0 == keys(old(issues)@),
            keys(issues@) == k0 + channel_keys(cs@.take(i as int)),
        decreases cs@.len() - i,
    {
        let c = &cs[i];
        let bad = !channel_is_shaped(c) || joint_used(cs, i, c.joint.as_str()) || !ticks_are_increasing(&c.ticks)
            || !c.values_finite;
        let mut message = owned("invalid skeletal channel ");
        message.append(c.joint.as_str());
        report_issue(issues, bad, InteractionIssueCode::InvalidSkeletalChannel, message);
        proof {
            let t = cs@.take(i + 1);
            assert(t.drop_last() =~= cs@.take(i as int));
            assert(t.last() == cs@[i as int]);
            assert(keys(issues@) =~= k0 + channel_keys(t));
        }
        i = i + 1;
    }
    assert(cs@.take(cs@.len() as int) =~= cs@);
}

fn motion_id_list(ps: &Vec<MotionParticipantV1>) -> (r: Vec<u64>)
    ensures
        r@ == motion_ids(ps@),
{
    let mut out: Vec<u64> = Vec::new();
    let mut i: usize = 0;
    while i < ps.len()
        invariant
            i <= ps@.len(),
            out@ == motion_ids(ps@).take(i as int),
        decreases ps@.len() - i,
    {
        out.push(ps[i].agent_id);
        proof {
            assert(motion_ids(ps@).take(i + 1) =~= motion_ids(ps@).take(i as int).push(ps@[i as int].agent_id));
        }
        i = i + 1;
    }
    assert(motion_ids(ps@).take(ps@.len() as int) =~= motion_ids(ps@));
    out
}

fn motion_participant_pass(
    issues: &mut Vec<InteractionIssue>,
    ps: &Vec<MotionParticipantV1>,
    mids: &Vec<u64>,
    rs: &Vec<RootConstraintV1>,
    start: u64,
    end: u64,
)
    requires
        mids@ == motion_ids(ps@),
    ensures
        keys(final(issues)@) == keys(old(issues)@) + motion_participant_keys(ps@, rs@, start, end),
{
    let ghost k0 = keys(issues@);
    let mut i: usize = 0;
    proof {
        assert(ps@.take(0) =~= Seq::<MotionParticipantV1>::empty());
        assert(keys(issues@) =~= k0 + motion_participant_keys(ps@.take(0), rs@, start, end));
    }
    while i < ps.len()
        invariant
            mids@ == motion_ids(ps@),
            i <= ps@.len(),
            k0 == keys(old(issues)@),
            keys(issues@) == k0 + motion_participant_keys(ps@.take(i as int), rs@, start, end),
        decreases ps@.len() - i,
    {
        let p = &ps[i];
        let ghost before = keys(issues@);
        let seen = u64_seen(mids, i, p.agent_id);
        report_issue(
            issues,
            seen,
            InteractionIssueCode::DuplicateMotionParticipant,
            numbered("motion participant ", p.agent_id, " appears more than once"),
        );
        let ghost mid = keys(issues@);
        let ghost tail = match root_for(rs@, p.agent_id) {
            None => issue_when(
                true,
                InteractionIssueCode::MissingMotionParticipant,
                "motion participant "@ + decimal(p.agent_id as nat) + " has no request root"@,
            ),
            Some(j) => motion_root_keys(p.root_samples@, rs@[j].agent_id, start, end) + channel_keys(
                p.skeletal_channels@,
            ),
        };
        match root_index_for(rs, p.agent_id) {
            None => {
                report_issue(
                    issues,
                    true,
                    InteractionIssueCode::MissingMotionParticipant,
                    numbered("motion participant ", p.agent_id, " has no request root"),
                );
            },
            Some(k) => {
                let ghost m1 = keys(issues@);
                motion_root_pass(issues, &p.root_samples, rs[k].agent_id, start, end);
                let ghost m2 = keys(issues@);
                channel_pass(issues, &p.skeletal_channels);
                proof {
                    assert(root_for(rs@, p.agent_id) == Some(k as int));
                    let a = motion_root_keys(p.root_samples@, rs@[k as int].agent_id, start, end);
                    let b = channel_keys(p.skeletal_channels@);
                    assert(tail == a + b);
                    assert(m2 == mid + a);
                    assert(keys(issues@) == m2 + b);
                    assert((mid + a) + b =~= mid + (a + b));
                }
            },
        }
        proof {
            let t = ps@.take(i + 1);
            assert(t.drop_last() =~= ps@.take(i as int));
            assert(t.last() == ps@[i as int]);
            assert(motion_ids(ps@.take(i as int)) =~= mids@.take(i as int));
            assert(keys(issues@) == mid + tail);
            assert(motion_participant_keys(t, rs@, start, end) == motion_participant_keys(ps@.take(i as int), rs@, start, end)
                + issue_when(
                motion_ids(ps@.take(i as int)).contains(p.agent_id),
                InteractionIssueCode::DuplicateMotionParticipant,
                "motion participant "@ + decimal(p.agent_id as nat) + " appears more than once"@,
            ) + tail);
            assert(keys(issues@) =~= k0 + motion_participant_keys(t, rs@, start, end));
        }
        i = i + 1;
    }
    assert(ps@.take(ps@.len() as int) =~= ps@);
}

/// Whether every entry of `a` occurs in `b`.
fn all_within(a: &Vec<u64>, b: &Vec<u64>) -> (r: bool)
    ensures
        r == (forall|j: int| 0 <= j < a@.len() ==> b@.contains(#[trigger] a@[j])),
{
    let mut k: usize = 0;
    while k < a.len()
        invariant
            k <= a@.len(),
            forall|j: int| 0 <= j < k ==> b@.contains(#[trigger] a@[j]),
        decreases a@.len() - k,
    {
        let found = u64_seen(b, b.len(), a[k]);
        proof {
            assert(b@.take(b@.len() as int) =~= b@);
        }
        if !found {
            return false;
        }
        k = k + 1;
    }
    true
}

/// Whether `a` and `b` hold the same IDs, each counted once.
fn same_members(a: &Vec<u64>, b: &Vec<u64>) -> (r: bool)
    ensures
        r == (a@.to_set() == b@.to_set()),
{
    let ab = all_within(a, b);
    let ba = all_within(b, a);
    proof {
        if ab && ba {
            assert forall|x: u64| a@.to_set().contains(x) == b@.to_set().contains(x) by {
                if a@.contains(x) {
                    let j = a@.index_of(x);
                    assert(b@.contains(a@[j]));
                }
                if b@.contains(x) {
                    let j = b@.index_of(x);
                    assert(a@.contains(b@[j]));
                }
            }
            assert(a@.to_set() =~= b@.to_set());
        }
        if !ab {
            let j = choose|j: int| 0 <= j < a@.len() && !b@.contains(#[trigger] a@[j]);
            assert(a@.to_set().contains(a@[j]));
            assert(!b@.to_set().contains(a@[j]));
        }
        if !ba {
            let j = choose|j: int| 0 <= j < b@.len() && !a@.contains(#[trigger] b@[j]);
            assert(b@.to_set().contains(b@[j]));
            assert(!a@.to_set().contains(b@[j]));
        }
    }
    ab && ba
}

fn contact_breaks_constraint(c: &MotionContactV1, k: &ContactConstraintV1) -> (r: bool)
    ensures
        r == contact_breaks(*c, *k),
{
    c.owner_agent_id != k.owner_agent_id || c.other_agent_id != k.other_agent_id || c.label != k.label || c.tick
        < k.tick_start || c.tick > k.tick_end || !c.distance_valid
}

/// Whether an accepted report among the first `end` names the contact and
/// tick of `c`, whose constraint is `ks[ki]`.
fn contact_reported(
    cs: &Vec<MotionContactV1>,
    end: usize,
    ks: &Vec<ContactConstraintV1>,
    ki: usize,
    c: &MotionContactV1,
) -> (r: bool)
    requires
        end <= cs@.len(),
        ki < ks@.len(),
        constraint_for(ks@, c.contact_id@) == Some(ki as int),
    ensures
        r == contact_repeated(cs@.take(end as int), ks@, *c),
{
    let ghost before = cs@.take(end as int);
    let mut k: usize = 0;
    while k < end
        invariant
            end <= cs@.len(),
            ki < ks@.len(),
            constraint_for(ks@, c.contact_id@) == Some(ki as int),
            before == cs@.take(end as int),
            k <= end,
            forall|j: int|
                0 <= j < k ==> !(contact_accepted(#[trigger] before[j], ks@) && before[j].contact_id@
                    == c.contact_id@ && before[j].tick == c.tick),
        decreases end - k,
    {
        assert(before[k as int] == cs@[k as int]);
        let same = str_eq(cs[k].contact_id.as_str(), c.contact_id.as_str()) && cs[k].tick == c.tick;
        if same && !contact_breaks_constraint(&cs[k], &ks[ki]) {
            return true;
        }
        k = k + 1;
    }
    false
}

fn motion_contact_pass(issues: &mut Vec<InteractionIssue>, cs: &Vec<MotionContactV1>, ks: &Vec<ContactConstraintV1>)
    ensures
        keys(final(issues)@) == keys(old(issues)@) + motion_contact_keys(cs@, ks@),
{
    let ghost k0 = keys(issues@);
    let mut i: usize = 0;
    proof {
        assert(cs@.take(0) =~= Seq::<MotionContactV1>::empty());
        assert(keys(issues@) =~= k0 + motion_contact_keys(cs@.take(0), ks@));
    }
    while i < cs.len()
        invariant
            i <= cs@.len(),
            k0 == keys(old(issues)@),
            keys(issues@) == k0 + motion_contact_keys(cs@.take(i as int), ks@),
        decreases cs@.len() - i,
    {
        let c = &cs[i];
        let id = c.contact_id.as_str();
        let ghost mid = keys(issues@);
        let ghost before = cs@.take(i as int);
        let ghost tail = match constraint_for(ks@, c.contact_id@) {
            None => issue_when(
                true,
                InteractionIssueCode::UnknownContact,
                "motion references unknown contact "@ + c.contact_id@,
            ),
            Some(j) => if contact_breaks(*c, ks@[j]) {
                issue_when(
                    true,
                    InteractionIssueCode::InvalidContact,
                    "motion contact "@ + c.contact_id@ + " violates its declared constraint"@,
                )
            } else {
                issue_when(
                    contact_repeated(before, ks@, *c),
                    InteractionIssueCode::InvalidContact,
                    "motion contact "@ + c.contact_id@ + " is duplicated at tick "@ + decimal(c.tick as nat),
                ) + issue_when(
                    c.label == ContactLabelV1::Forbidden || (ks@[j].label == ContactLabelV1::Forbidden
                        && c.within_reach),
                    InteractionIssueCode::ForbiddenContact,
                    "forbidden contact "@ + c.contact_id@ + " was reported"@,
                )
            },
        };
        match constraint_index_for(ks, id) {
            None => {
                let mut message = owned("motion references unknown contact ");
                message.append(id);
                report_issue(issues, true, InteractionIssueCode::UnknownContact, message);
            },
            Some(ki) => {
                let kc = &ks[ki];
                if contact_breaks_constraint(c, kc) {
                    let mut message = owned("motion contact ");
                    message.append(id);
                    message.append(" violates its declared constraint");
                    report_issue(issues, true, InteractionIssueCode::InvalidContact, message);
                } else {
                    let repeated = contact_reported(cs, i, ks, ki, c);
                    let mut message = owned("motion contact ");
                    message.append(id);
                    message.append(" is duplicated at tick ");
                    push_decimal(&mut message, c.tick);
                    report_issue(issues, repeated, InteractionIssueCode::InvalidContact, message);
                    let ghost m1 = keys(issues@);
                    let forbidden = c.label == ContactLabelV1::Forbidden || (kc.label == ContactLabelV1::Forbidden
                        && c.within_reach);
                    let mut message2 = owned("forbidden contact ");
                    message2.append(id);
                    message2.append(" was reported");
                    report_issue(issues, forbidden, InteractionIssueCode::ForbiddenContact, message2);
                    proof {
                        let a = issue_when(
                            repeated,
                            InteractionIssueCode::InvalidContact,
                            "motion contact "@ + c.contact_id@ + " is duplicated at tick "@ + decimal(c.tick as nat),
                        );
                        let b = issue_when(
                            forbidden,
                            InteractionIssueCode::ForbiddenContact,
                            "forbidden contact "@ + c.contact_id@ + " was reported"@,
                        );
                        assert(m1 == mid + a);
                        assert((mid + a) + b =~= mid + (a + b));
                    }
                }
            },
        }
        proof {
            let t = cs@.take(i + 1);
            assert(t.drop_last() =~= before);
            assert(t.last() == cs@[i as int]);
            assert(keys(issues@) == mid + tail);
            assert(keys(issues@) =~= k0 + motion_contact_keys(t, ks@));
        }
        i = i + 1;
    }
    assert(cs@.take(cs@.len() as int) =~= cs@);
}

/// Whether the motion was seen to make the required contact `id`.
fn required_observed(cs: &Vec<MotionContactV1>, ks: &Vec<ContactConstraintV1>, id: &str) -> (r: bool)
    ensures
        r == required_seen(cs@, ks@, id@),
{
    match constraint_index_for(ks, id) {
        None => {
            proof {
                assert forall|j: int| 0 <= j < cs@.len() && cs@[j].contact_id@ == id@ implies !contact_accepted(
                    #[trigger] cs@[j],
                    ks@,
                ) by {}
            }
            false
        },
        Some(ki) => {
            if !ks[ki].required {
                return false;
            }
            let mut k: usize = 0;
            while k < cs.len()
                invariant
                    ki < ks@.len(),
                    constraint_for(ks@, id@) == Some(ki as int),
                    ks@[ki as int].required,
                    k <= cs@.len(),
                    forall|j: int|
                        0 <= j < k ==> !(contact_accepted(#[trigger] cs@[j], ks@) && cs@[j].contact_id@ == id@
                            && cs@[j].within_reach),
                decreases cs@.len() - k,
            {
                let c = &cs[k];
                if str_eq(c.contact_id.as_str(), id) && !contact_breaks_constraint(c, &ks[ki]) && c.within_reach {
                    return true;
                }
                k = k + 1;
            }
            false
        },
    }
}

fn required_missing_pass(issues: &mut Vec<InteractionIssue>, ks: &Vec<ContactConstraintV1>, cs: &Vec<MotionContactV1>)
    ensures
        keys(final(issues)@) == keys(old(issues)@) + required_missing_keys(ks@, ks@, cs@),
{
    let ghost k0 = keys(issues@);
    let mut i: usize = 0;
    proof {
        assert(ks@.take(0) =~= Seq::<ContactConstraintV1>::empty());
        assert(keys(issues@) =~= k0 + required_missing_keys(ks@.take(0), ks@, cs@));
    }
    while i < ks.len()
        invariant
            i <= ks@.len(),
            k0 == keys(old(issues)@),
            keys(issues@) == k0 + required_missing_keys(ks@.take(i as int), ks@, cs@),
        decreases ks@.len() - i,
    {
        let k = &ks[i];
        let missing = k.required && !required_observed(cs, ks, k.contact_id.as_str());
        let mut message = owned("required contact ");
        message.append(k.contact_id.as_str());
        message.append(" was not observed");
        report_issue(issues, missing, InteractionIssueCode::RequiredContactMissing, message);
        proof {
            let t = ks@.take(i + 1);
            assert(t.drop_last() =~= ks@.take(i as int));
            assert(t.last() == ks@[i as int]);
            assert(keys(issues@) =~= k0 + required_missing_keys(t, ks@, cs@));
        }
        i = i + 1;
    }
    assert(ks@.take(ks@.len() as int) =~= ks@);
}

/// Every problem found when checking `m` against `r`: the request's own
/// problems first, then the motion's.
pub open spec fn validation_keys(m: InteractionMotionV1, r: InteractionRequestV1) -> Seq<DiagnosticKey> {
    request_issue_keys(r) + motion_issue_keys(m, r)
}

/// Every problem of the motion `m` against the request `r`, in the order
/// found.
fn motion_issues(m: &InteractionMotionV1, r: &InteractionRequestV1) -> (issues: Vec<InteractionIssue>)
    ensures
        keys(issues@) == motion_issue_keys(*m, *r),
{
    let mut issues: Vec<InteractionIssue> = Vec::new();
    report_issue(
        &mut issues,
        m.schema_version != INTERACTION_MOTION_SCHEMA_VERSION,
        InteractionIssueCode::UnsupportedVersion,
        owned("expected motion schema version 1"),
    );
    let mut message = owned("motion request ");
    message.append(m.request_id.as_str());
    message.append(" does not match ");
    message.append(r.request_id.as_str());
    report_issue(
        &mut issues,
        !str_eq(m.request_id.as_str(), r.request_id.as_str()),
        InteractionIssueCode::RequestIdMismatch,
        message,
    );
    let mids = motion_id_list(&m.participants);
    let pids = participant_id_list(&r.participants);
    motion_participant_pass(
        &mut issues,
        &m.participants,
        &mids,
        &r.root_constraints,
        r.tick_start,
        r.tick_end,
    );
    report_issue(
        &mut issues,
        !same_members(&mids, &pids),
        InteractionIssueCode::ParticipantSetMismatch,
        owned("motion participants must exactly match request participants"),
    );
    motion_contact_pass(&mut issues, &m.contacts, &r.contact_constraints);
    required_missing_pass(&mut issues, &r.contact_constraints, &m.contacts);
    report_issue(
        &mut issues,
        m.provenance.backend.as_str().is_empty() || m.provenance.config_hash.as_str().is_empty() || (
        r.mode == InteractionModeV1::Strict && m.provenance.seed != r.seed),
        InteractionIssueCode::InvalidMotionProvenance,
        owned("motion provenance must name a backend/config and match the strict request seed"),
    );
    report_issue(
        &mut issues,
        m.fallback.clip_set_id.as_str().is_empty() || m.fallback.clip_id.as_str().is_empty()
            || m.fallback.reason.as_str().is_empty(),
        InteractionIssueCode::MissingFallback,
        owned("motion must declare a deterministic fallback clip and reason"),
    );
    proof {
        assert(keys(issues@) =~= motion_issue_keys(*m, *r));
    }
    issues
}

impl InteractionMotionV1 {
    /// Check proposed motion against the request it answers, reporting every
    /// problem of either, sorted by code and message.
    ///
    /// `Ok` exactly when `validation_keys` finds nothing.
    pub fn validate_against(&self, request: &InteractionRequestV1) -> (r: Result<(), Vec<InteractionIssue>>)
        ensures
            r is Ok <==> validation_keys(*self, *request).len() == 0,
            r matches Err(d) ==> keys(d@).to_multiset() == validation_keys(*self, *request).to_multiset()
                && keys_sorted(keys(d@)),
    {
        let mut issues = request_issues(request);
        let mut found_in_motion = motion_issues(self, request);
        let ghost a = issues@;
        let ghost b = found_in_motion@;
        issues.append(&mut found_in_motion);
        proof {
            assert(keys(issues@) =~= keys(a) + keys(b));
        }
        proof {
            assert(keys(issues@) =~= validation_keys(*self, *request));
        }
        let ghost found = keys(issues@);
        if issues.len() == 0 {
            return Ok(());
        }
        let sorted = sort_diagnostics(issues);
        proof {
            vstd::seq_lib::to_multiset_len(keys(sorted@));
            vstd::seq_lib::to_multiset_len(found);
        }
        Err(sorted)
    }
}

// ---------------------------------------------------------------------------
// Authored baseline
// ---------------------------------------------------------------------------

/// The motion sample that replays an authored sample: it stays on the
/// authored path and steps as far as the authored path does.
pub open spec fn replayed_sample(s: RootSampleV1) -> MotionRootSampleV1 {
    MotionRootSampleV1 { tick: s.tick, finite: s.finite, step_too_far: s.step_too_far, off_path: false }
}

/// `c` reports the declared contact `k` at the middle of its window, at
/// zero distance.
pub open spec fn replayed_contact(c: MotionContactV1, k: ContactConstraintV1) -> bool {
    &&& c.contact_id@ == k.contact_id@
    &&& c.label == k.label
    &&& c.owner_agent_id == k.owner_agent_id
    &&& c.other_agent_id == k.other_agent_id
    &&& c.tick == k.tick_start + (k.tick_end - k.tick_start) / 2
    &&& c.distance_valid
    &&& c.within_reach
}

/// A declared contact the baseline reports: required, and not forbidden.
pub open spec fn replayed_constraint(k: ContactConstraintV1) -> bool {
    k.required && k.label != ContactLabelV1::Forbidden
}

/// `cs` reports, in order, each contact of `ks` that the baseline replays.
pub open spec fn replayed_contacts(cs: Seq<MotionContactV1>, ks: Seq<ContactConstraintV1>) -> bool
    decreases ks.len(),
{
    if ks.len() == 0 {
        cs.len() == 0
    } else if replayed_constraint(ks.last()) {
        cs.len() > 0 && replayed_contact(cs.last(), ks.last()) && replayed_contacts(cs.drop_last(), ks.drop_last())
    } else {
        replayed_contacts(cs, ks.drop_last())
    }
}

/// `m` is the baseline that replays the authored roots and required contacts
/// of `r`.
pub open spec fn is_paired_clip(m: InteractionMotionV1, r: InteractionRequestV1) -> bool {
    &&& m.schema_version == INTERACTION_MOTION_SCHEMA_VERSION
    &&& m.request_id@ == r.request_id@
    &&& m.participants@.len() == r.root_constraints@.len()
    &&& forall|i: int|
        #![trigger m.participants@[i]]
        0 <= i < m.participants@.len() ==> {
            &&& m.participants@[i].agent_id == r.root_constraints@[i].agent_id
            &&& m.participants@[i].root_samples@ == r.root_constraints@[i].samples@.map_values(
                |s: RootSampleV1| replayed_sample(s),
            )
            &&& m.participants@[i].skeletal_channels@.len() == 0
        }
    &&& replayed_contacts(m.contacts@, r.contact_constraints@)
    &&& m.provenance.backend@ == "authored-paired-clip"@
    &&& m.provenance.model_hash is None
    &&& m.provenance.seed == r.seed
    &&& m.provenance.config_hash@ == "authored-paired-clip-v1"@
    &&& m.diagnostics@.len() == 0
    &&& m.fallback.clip_set_id@ == "pedestrian_basic"@
    &&& m.fallback.clip_id@ == "walk"@
    &&& m.fallback.reason@ == "deterministic paired-clip baseline"@
}

/// A contact list without problems holds only windows that open before they
/// close.
proof fn lemma_contact_windows(cs: Seq<ContactConstraintV1>, pids: Seq<u64>, start: u64, end: u64)
    requires
        contact_issue_keys(cs, pids, start, end).len() == 0,
    ensures
        forall|i: int| 0 <= i < cs.len() ==> (#[trigger] cs[i]).tick_start <= cs[i].tick_end,
    decreases cs.len(),
{
    if cs.len() > 0 {
        lemma_contact_windows(cs.drop_last(), pids, start, end);
        assert forall|i: int| 0 <= i < cs.len() implies (#[trigger] cs[i]).tick_start <= cs[i].tick_end by {
            if i < cs.len() - 1 {
                assert(cs[i] == cs.drop_last()[i]);
            }
        }
    }
}

fn replay_samples(samples: &Vec<RootSampleV1>) -> (r: Vec<MotionRootSampleV1>)
    ensures
        r@ == samples@.map_values(|s: RootSampleV1| replayed_sample(s)),
{
    let mut out: Vec<MotionRootSampleV1> = Vec::new();
    let mut i: usize = 0;
    while i < samples.len()
        invariant
            i <= samples@.len(),
            out@ == samples@.take(i as int).map_values(|s: RootSampleV1| replayed_sample(s)),
        decreases samples@.len() - i,
    {
        let s = samples[i];
        out.push(MotionRootSampleV1 { tick: s.tick, finite: s.finite, step_too_far: s.step_too_far, off_path: false });
        proof {
            assert(samples@.take(i + 1).map_values(|s: RootSampleV1| replayed_sample(s)) =~= samples@.take(
                i as int,
            ).map_values(|s: RootSampleV1| replayed_sample(s)).push(replayed_sample(s)));
        }
        i = i + 1;
    }
    assert(samples@.take(samples@.len() as int) =~= samples@);
    out
}

fn replay_contacts(ks: &Vec<ContactConstraintV1>) -> (r: Vec<MotionContactV1>)
    requires
        forall|i: int| 0 <= i < ks@.len() ==> (#[trigger] ks@[i]).tick_start <= ks@[i].tick_end,
    ensures
        replayed_contacts(r@, ks@),
{
    let mut out: Vec<MotionContactV1> = Vec::new();
    let mut i: usize = 0;
    proof {
        assert(ks@.take(0) =~= Seq::<ContactConstraintV1>::empty());
    }
    while i < ks.len()
        invariant
            i <= ks@.len(),
            forall|j: int| 0 <= j < ks@.len() ==> (#[trigger] ks@[j]).tick_start <= ks@[j].tick_end,
            replayed_contacts(out@, ks@.take(i as int)),
        decreases ks@.len() - i,
    {
        let k = &ks[i];
        let ghost before = out@;
        if k.required && k.label != ContactLabelV1::Forbidden {
            assert(k.tick_start <= k.tick_end);
            out.push(
                MotionContactV1 {
                    contact_id: k.contact_id.clone(),
                    label: k.label,
                    owner_agent_id: k.owner_agent_id,
                    other_agent_id: k.other_agent_id,
                    tick: k.tick_start + (k.tick_end - k.tick_start) / 2,
                    distance_valid: true,
                    within_reach: true,
                },
            );
            proof {
                assert(out@.drop_last() =~= before);
            }
        }
        proof {
            let t = ks@.take(i + 1);
            assert(t.drop_last() =~= ks@.take(i as int));
            assert(t.last() == ks@[i as int]);
        }
        i = i + 1;
    }
    assert(ks@.take(ks@.len() as int) =~= ks@);
    out
}

/// The authored baseline for `request`: each participant replays its
/// authored roots, each required, allowed contact is reported at the middle
/// of its window, and the motion is checked against the request before it is
/// returned.
///
/// Refused with the request's own problems when the request is invalid, and
/// with the baseline's problems when the baseline does not pass.
pub fn deterministic_paired_clip(request: &InteractionRequestV1) -> (r: Result<InteractionMotionV1, Vec<InteractionIssue>>)
    ensures
        request_issue_keys(*request).len() > 0 ==> (r matches Err(d) && keys(d@).to_multiset()
            == request_issue_keys(*request).to_multiset() && keys_sorted(keys(d@))),
        request_issue_keys(*request).len() == 0 ==> match r {
            Ok(m) => is_paired_clip(m, *request) && validation_keys(m, *request).len() == 0,
            Err(d) => exists|m: InteractionMotionV1|
                is_paired_clip(m, *request) && validation_keys(m, *request).len() > 0 && keys(d@).to_multiset()
                    == validation_keys(m, *request).to_multiset() && keys_sorted(keys(d@)),
        },
{
    match request.validate() {
        Err(d) => {
            return Err(d);
        },
        Ok(()) => {},
    }
    proof {
        let pids = participant_ids(request.participants@);
        let c = contact_issue_keys(request.contact_constraints@, pids, request.tick_start, request.tick_end);
        assert(c.len() == 0);
        lemma_contact_windows(request.contact_constraints@, pids, request.tick_start, request.tick_end);
    }
    let mut participants: Vec<MotionParticipantV1> = Vec::new();
    let mut i: usize = 0;
    while i < request.root_constraints.len()
        invariant
            i <= request.root_constraints@.len(),
            participants@.len() == i,
            forall|j: int|
                #![trigger participants@[j]]
                0 <= j < i ==> {
                    &&& participants@[j].agent_id == request.root_constraints@[j].agent_id
                    &&& participants@[j].root_samples@ == request.root_constraints@[j].samples@.map_values(
                        |s: RootSampleV1| replayed_sample(s),
                    )
                    &&& participants@[j].skeletal_channels@.len() == 0
                },
        decreases request.root_constraints@.len() - i,
    {
        let rc = &request.root_constraints[i];
        participants.push(
            MotionParticipantV1 {
                agent_id: rc.agent_id,
                root_samples: replay_samples(&rc.samples),
                skeletal_channels: Vec::new(),
            },
        );
        i = i + 1;
    }
    let contacts = replay_contacts(&request.contact_constraints);
    let motion = InteractionMotionV1 {
        schema_version: INTERACTION_MOTION_SCHEMA_VERSION,
        request_id: request.request_id.clone(),
        participants,
        contacts,
        provenance: MotionProvenanceV1 {
            backend: owned("authored-paired-clip"),
            model_hash: None,
            seed: request.seed,
            config_hash: owned("authored-paired-clip-v1"),
        },
        diagnostics: Vec::new(),
        fallback: FallbackReferenceV1 {
            clip_set_id: owned("pedestrian_basic"),
            clip_id: owned("walk"),
            reason: owned("deterministic paired-clip baseline"),
        },
    };
    assert(is_paired_clip(motion, *request));
    match motion.validate_against(request) {
        Ok(()) => Ok(motion),
        Err(d) => Err(d),
    }
}

} // verus!
