//! Deterministic finite-resource activities and reservations.

use vstd::prelude::*;
use crate::text::{msg_if, push_joined_if, push_literal_if, str_eq, views};

verus! {

pub const ACTIVITY_SCHEMA_VERSION: u32 = 1;

#[derive(Clone, Copy, Debug, PartialEq, Eq, Structural)]
pub enum ActivityResourceKindV1 {
    Seat,
    Door,
    HandoffPoint,
    ConversationSpace,
}

#[derive(Clone, Debug, PartialEq, Eq)]
pub struct NeedGoalV1 {
    pub key: String,
    pub target_millionths: u32,
    pub decay_per_tick: u32,
}

#[derive(Clone, Debug, PartialEq, Eq)]
pub struct ActivityResourceBindingV1 {
    pub id: String,
    pub kind: ActivityResourceKindV1,
    pub capacity: usize,
}

#[derive(Clone, Debug, PartialEq, Eq)]
pub struct PairedActivityV1 {
    pub action_id: String,
    pub participant_roles: Vec<String>,
}

#[derive(Clone, Debug, PartialEq, Eq)]
pub struct ActivityPlanV1 {
    pub id: String,
    pub windows: Vec<(u64, u64)>,
    pub needs: Vec<NeedGoalV1>,
    pub resources: Vec<ActivityResourceBindingV1>,
    pub paired_action: Option<PairedActivityV1>,
    pub capacity: usize,
    pub failure_policy: ActivityFailurePolicyV1,
}

#[derive(Clone, Copy, Debug, PartialEq, Eq, Structural)]
pub enum ActivityFailurePolicyV1 {
    Retry,
    Release,
    Fallback,
    Fail,
}

#[derive(Clone, Debug, PartialEq, Eq, Structural)]
pub struct ActivityWindowV1 {
    pub start_tick: u64,
    pub end_tick: u64,
    pub priority: i32,
}

#[derive(Clone, Debug, PartialEq, Eq)]
pub struct ActivityScheduleV1 {
    pub schema_version: u32,
    pub id: String,
    /// Inclusive, deterministically ordered activity windows.
    pub windows: Vec<ActivityWindowV1>,
    pub resources: Vec<String>,
    pub needs: Vec<NeedGoalV1>,
    pub paired_action: Option<PairedActivityV1>,
    pub capacity: usize,
    pub failure_policy: ActivityFailurePolicyV1,
}

#[derive(Clone, Debug, PartialEq, Eq)]
pub enum ActivityError {
    UnsupportedVersion(u32),
    InvalidSchedule(String),
    EmptyResource,
    DuplicateResource(String),
    ZeroCapacity(String),
}

// ---------------------------------------------------------------------------
// Plan and schedule validation
// ---------------------------------------------------------------------------

/// Some window starts after it ends.
pub open spec fn some_window_inverted(windows: Seq<(u64, u64)>) -> bool {
    exists|i: int| 0 <= i < windows.len() && (#[trigger] windows[i]).0 > windows[i].1
}

/// Need `i` repeats the key of an earlier need.
pub open spec fn need_repeated(needs: Seq<NeedGoalV1>, i: int) -> bool {
    exists|j: int| 0 <= j < i && (#[trigger] needs[j]).key@ == needs[i].key@
}

pub open spec fn need_errors(needs: Seq<NeedGoalV1>, n: nat) -> Seq<Seq<char>>
    decreases n,
{
    if n == 0 {
        Seq::empty()
    } else {
        let i = n - 1;
        let k = needs[i].key@;
        need_errors(needs, (n - 1) as nat) + msg_if(
            k.len() == 0 || needs[i].target_millionths > 1_000_000,
            "activity need "@ + k + " is invalid"@,
        ) + msg_if(need_repeated(needs, i), "activity need "@ + k + " is duplicated"@)
    }
}

/// Resource binding `i` repeats the ID of an earlier one.
pub open spec fn resource_repeated(rs: Seq<ActivityResourceBindingV1>, i: int) -> bool {
    exists|j: int| 0 <= j < i && (#[trigger] rs[j]).id@ == rs[i].id@
}

pub open spec fn resource_binding_errors(rs: Seq<ActivityResourceBindingV1>, n: nat) -> Seq<
    Seq<char>,
>
    decreases n,
{
    if n == 0 {
        Seq::empty()
    } else {
        let i = n - 1;
        let id = rs[i].id@;
        resource_binding_errors(rs, (n - 1) as nat) + msg_if(
            id.len() == 0 || rs[i].capacity == 0,
            "activity resource "@ + id + " has invalid capacity"@,
        ) + msg_if(resource_repeated(rs, i), "activity resource "@ + id + " is duplicated"@)
    }
}

/// Role `i` is empty or repeats an earlier role.
pub open spec fn role_invalid(roles: Seq<String>, i: int) -> bool {
    roles[i]@.len() == 0 || exists|j: int| 0 <= j < i && (#[trigger] roles[j])@ == roles[i]@
}

pub open spec fn role_errors(roles: Seq<String>, n: nat) -> Seq<Seq<char>>
    decreases n,
{
    if n == 0 {
        Seq::empty()
    } else {
        role_errors(roles, (n - 1) as nat) + msg_if(
            role_invalid(roles, n - 1),
            "paired activity roles must be non-empty and unique"@,
        )
    }
}

pub open spec fn paired_errors(paired: Option<PairedActivityV1>) -> Seq<Seq<char>> {
    match paired {
        None => Seq::empty(),
        Some(p) => msg_if(
            p.action_id@.len() == 0 || p.participant_roles@.len() < 2,
            "paired activity requires an action and at least two roles"@,
        ) + role_errors(p.participant_roles@, p.participant_roles@.len()),
    }
}

/// The diagnostics of an activity plan with these parts, in order.
pub open spec fn plan_errors_of(
    id: Seq<char>,
    windows: Seq<(u64, u64)>,
    needs: Seq<NeedGoalV1>,
    resources: Seq<ActivityResourceBindingV1>,
    paired: Option<PairedActivityV1>,
    capacity: usize,
) -> Seq<Seq<char>> {
    msg_if(id.len() == 0, "activity ID must be non-empty"@) + msg_if(
        windows.len() == 0 || some_window_inverted(windows),
        "activity window declarations are invalid"@,
    ) + msg_if(capacity == 0, "activity capacity must be positive"@) + need_errors(
        needs,
        needs.len(),
    ) + resource_binding_errors(resources, resources.len()) + paired_errors(paired)
}

/// A plan with no ID, no or an inverted window, or no capacity is reported
/// for each of these, whatever else is wrong with it.
pub proof fn lemma_plan_errors_report(
    id: Seq<char>,
    windows: Seq<(u64, u64)>,
    needs: Seq<NeedGoalV1>,
    resources: Seq<ActivityResourceBindingV1>,
    paired: Option<PairedActivityV1>,
    capacity: usize,
)
    ensures
        id.len() == 0 ==> plan_errors_of(id, windows, needs, resources, paired, capacity).contains(
            "activity ID must be non-empty"@,
        ),
        windows.len() == 0 || (exists|i: int| 0 <= i < windows.len() && windows[i].0 > windows[i].1)
            ==> plan_errors_of(id, windows, needs, resources, paired, capacity).contains(
            "activity window declarations are invalid"@,
        ),
        capacity == 0 ==> plan_errors_of(id, windows, needs, resources, paired, capacity).contains(
            "activity capacity must be positive"@,
        ),
        plan_errors_of(id, windows, needs, resources, paired, capacity).len() == 0 ==> id.len() > 0 && windows.len()
            > 0 && capacity > 0 && forall|i: int| 0 <= i < windows.len() ==> windows[i].0 <= windows[i].1,
{
    let a = msg_if(id.len() == 0, "activity ID must be non-empty"@);
    let b = msg_if(windows.len() == 0 || some_window_inverted(windows), "activity window declarations are invalid"@);
    let c = msg_if(capacity == 0, "activity capacity must be positive"@);
    let rest = need_errors(needs, needs.len()) + resource_binding_errors(resources, resources.len()) + paired_errors(
        paired,
    );
    let all = plan_errors_of(id, windows, needs, resources, paired, capacity);
    assert(all =~= a + b + c + rest);
    if id.len() == 0 {
        assert(all[0] == "activity ID must be non-empty"@);
    }
    if windows.len() == 0 || (exists|i: int| 0 <= i < windows.len() && windows[i].0 > windows[i].1) {
        if !(windows.len() == 0) {
            let i = choose|i: int| 0 <= i < windows.len() && windows[i].0 > windows[i].1;
            assert(windows[i].0 > windows[i].1);
        }
        assert(all[a.len() as int] == "activity window declarations are invalid"@);
    }
    if capacity == 0 {
        assert(all[(a.len() + b.len()) as int] == "activity capacity must be positive"@);
    }
    if all.len() == 0 {
        assert forall|i: int| 0 <= i < windows.len() implies windows[i].0 <= windows[i].1 by {
            if windows[i].0 > windows[i].1 {
                assert(some_window_inverted(windows));
            }
        }
    }
}

proof fn lemma_need_errors_empty(needs: Seq<NeedGoalV1>, n: nat)
    requires
        n <= needs.len(),
        need_errors(needs, n).len() == 0,
    ensures
        forall|i: int| 0 <= i < n ==> (#[trigger] needs[i]).key@.len() > 0 && needs[i].target_millionths <= 1_000_000,
        forall|i: int, j: int| 0 <= j < i < n ==> (#[trigger] needs[j]).key@ != (#[trigger] needs[i]).key@,
    decreases n,
{
    if n > 0 {
        lemma_need_errors_empty(needs, (n - 1) as nat);
        assert(!need_repeated(needs, n - 1));
    }
}

proof fn lemma_resource_errors_empty(rs: Seq<ActivityResourceBindingV1>, n: nat)
    requires
        n <= rs.len(),
        resource_binding_errors(rs, n).len() == 0,
    ensures
        forall|i: int| 0 <= i < n ==> (#[trigger] rs[i]).id@.len() > 0 && rs[i].capacity > 0,
        forall|i: int, j: int| 0 <= j < i < n ==> (#[trigger] rs[j]).id@ != (#[trigger] rs[i]).id@,
    decreases n,
{
    if n > 0 {
        lemma_resource_errors_empty(rs, (n - 1) as nat);
        assert(!resource_repeated(rs, n - 1));
    }
}

proof fn lemma_role_errors_empty(roles: Seq<String>, n: nat)
    requires
        n <= roles.len(),
        role_errors(roles, n).len() == 0,
    ensures
        forall|i: int| 0 <= i < n ==> (#[trigger] roles[i])@.len() > 0,
        forall|i: int, j: int| 0 <= j < i < n ==> (#[trigger] roles[j])@ != (#[trigger] roles[i])@,
    decreases n,
{
    if n > 0 {
        lemma_role_errors_empty(roles, (n - 1) as nat);
        assert(!role_invalid(roles, n - 1));
    }
}

/// A plan without diagnostics has well-formed needs, resources and pairing:
/// every need has a key and a target of at most one million, no two needs
/// share a key, every resource has an ID and a positive capacity, no two
/// share an ID, and a paired action names an action and at least two
/// distinct, non-empty roles.
pub proof fn lemma_clean_plan_is_well_formed(
    id: Seq<char>,
    windows: Seq<(u64, u64)>,
    needs: Seq<NeedGoalV1>,
    resources: Seq<ActivityResourceBindingV1>,
    paired: Option<PairedActivityV1>,
    capacity: usize,
)
    requires
        plan_errors_of(id, windows, needs, resources, paired, capacity).len() == 0,
    ensures
        forall|i: int| 0 <= i < needs.len() ==> (#[trigger] needs[i]).key@.len() > 0 && needs[i].target_millionths <= 1_000_000,
        forall|i: int, j: int| 0 <= j < i < needs.len() ==> (#[trigger] needs[j]).key@ != (#[trigger] needs[i]).key@,
        forall|i: int| 0 <= i < resources.len() ==> (#[trigger] resources[i]).id@.len() > 0 && resources[i].capacity > 0,
        forall|i: int, j: int| 0 <= j < i < resources.len() ==> (#[trigger] resources[j]).id@ != (#[trigger] resources[i]).id@,
        paired matches Some(p) ==> {
            &&& p.action_id@.len() > 0
            &&& p.participant_roles@.len() >= 2
            &&& forall|i: int| 0 <= i < p.participant_roles@.len() ==> (#[trigger] p.participant_roles@[i])@.len() > 0
            &&& forall|i: int, j: int|
                0 <= j < i < p.participant_roles@.len() ==> (#[trigger] p.participant_roles@[j])@ != (
                #[trigger] p.participant_roles@[i])@
        },
{
    let a = msg_if(id.len() == 0, "activity ID must be non-empty"@);
    let b = msg_if(windows.len() == 0 || some_window_inverted(windows), "activity window declarations are invalid"@);
    let c = msg_if(capacity == 0, "activity capacity must be positive"@);
    let ne = need_errors(needs, needs.len());
    let re = resource_binding_errors(resources, resources.len());
    let pe = paired_errors(paired);
    assert(plan_errors_of(id, windows, needs, resources, paired, capacity) =~= a + b + c + ne + re + pe);
    assert(ne.len() == 0 && re.len() == 0 && pe.len() == 0);
    lemma_need_errors_empty(needs, needs.len());
    lemma_resource_errors_empty(resources, resources.len());
    if let Some(p) = paired {
        let roles = p.participant_roles@;
        assert(pe =~= msg_if(p.action_id@.len() == 0 || roles.len() < 2, "paired activity requires an action and at least two roles"@)
            + role_errors(roles, roles.len()));
        lemma_role_errors_empty(roles, roles.len());
    }
}

/// The diagnostics of an activity plan, in order.
pub open spec fn plan_errors(p: ActivityPlanV1) -> Seq<Seq<char>> {
    plan_errors_of(p.id@, p.windows@, p.needs@, p.resources@, p.paired_action, p.capacity)
}

fn any_window_inverted(windows: &Vec<(u64, u64)>) -> (r: bool)
    ensures
        r == some_window_inverted(windows@),
{
    let mut i: usize = 0;
    while i < windows.len()
        invariant
            i <= windows@.len(),
            forall|j: int| 0 <= j < i ==> (#[trigger] windows@[j]).0 <= windows@[j].1,
        decreases windows@.len() - i,
    {
        if windows[i].0 > windows[i].1 {
            return true;
        }
        i = i + 1;
    }
    false
}

fn need_seen_before(needs: &Vec<NeedGoalV1>, i: usize) -> (r: bool)
    requires
        i < needs@.len(),
    ensures
        r == need_repeated(needs@, i as int),
{
    let mut j: usize = 0;
    while j < i
        invariant
            i < needs@.len(),
            j <= i,
            forall|k: int| 0 <= k < j ==> (#[trigger] needs@[k]).key@ != needs@[i as int].key@,
        decreases i - j,
    {
        if str_eq(needs[j].key.as_str(), needs[i].key.as_str()) {
            return true;
        }
        j = j + 1;
    }
    false
}

fn resource_seen_before(rs: &Vec<ActivityResourceBindingV1>, i: usize) -> (r: bool)
    requires
        i < rs@.len(),
    ensures
        r == resource_repeated(rs@, i as int),
{
    let mut j: usize = 0;
    while j < i
        invariant
            i < rs@.len(),
            j <= i,
            forall|k: int| 0 <= k < j ==> (#[trigger] rs@[k]).id@ != rs@[i as int].id@,
        decreases i - j,
    {
        if str_eq(rs[j].id.as_str(), rs[i].id.as_str()) {
            return true;
        }
        j = j + 1;
    }
    false
}

fn role_is_invalid(roles: &Vec<String>, i: usize) -> (r: bool)
    requires
        i < roles@.len(),
    ensures
        r == role_invalid(roles@, i as int),
{
    if roles[i].as_str().is_empty() {
        return true;
    }
    let mut j: usize = 0;
    while j < i
        invariant
            i < roles@.len(),
            j <= i,
            forall|k: int| 0 <= k < j ==> (#[trigger] roles@[k])@ != roles@[i as int]@,
        decreases i - j,
    {
        if str_eq(roles[j].as_str(), roles[i].as_str()) {
            return true;
        }
        j = j + 1;
    }
    false
}

/// Collect the diagnostics of an activity plan with these parts.
fn collect_plan_errors(
    id: &str,
    windows: &Vec<(u64, u64)>,
    needs: &Vec<NeedGoalV1>,
    resources: &Vec<ActivityResourceBindingV1>,
    paired: &Option<PairedActivityV1>,
    capacity: usize,
) -> (errors: Vec<String>)
    ensures
        views(errors@) == plan_errors_of(id@, windows@, needs@, resources@, *paired, capacity),
{
    let mut errors: Vec<String> = Vec::new();
    push_literal_if(&mut errors, id.is_empty(), "activity ID must be non-empty");
    let bad_windows = windows.len() == 0 || any_window_inverted(windows);
    push_literal_if(&mut errors, bad_windows, "activity window declarations are invalid");
    push_literal_if(&mut errors, capacity == 0, "activity capacity must be positive");
    let ghost head = views(errors@);
    let mut i: usize = 0;
    while i < needs.len()
        invariant
            i <= needs@.len(),
            views(errors@) == head + need_errors(needs@, i as nat),
        decreases needs@.len() - i,
    {
        let need = &needs[i];
        let ghost before = views(errors@);
        let invalid = need.key.as_str().is_empty() || need.target_millionths > 1_000_000;
        push_joined_if(&mut errors, invalid, "activity need ", need.key.as_str(), " is invalid");
        let ghost mid = views(errors@);
        let repeated = need_seen_before(needs, i);
        push_joined_if(&mut errors, repeated, "activity need ", need.key.as_str(), " is duplicated");
        proof {
            assert(views(errors@) =~= head + need_errors(needs@, (i + 1) as nat));
        }
        i = i + 1;
    }
    let ghost head2 = views(errors@);
    let mut r: usize = 0;
    while r < resources.len()
        invariant
            r <= resources@.len(),
            views(errors@) == head2 + resource_binding_errors(resources@, r as nat),
        decreases resources@.len() - r,
    {
        let binding = &resources[r];
        let invalid = binding.id.as_str().is_empty() || binding.capacity == 0;
        push_joined_if(&mut errors, invalid, "activity resource ", binding.id.as_str(), " has invalid capacity");
        let repeated = resource_seen_before(resources, r);
        push_joined_if(&mut errors, repeated, "activity resource ", binding.id.as_str(), " is duplicated");
        proof {
            assert(views(errors@) =~= head2 + resource_binding_errors(resources@, (r + 1) as nat));
        }
        r = r + 1;
    }
    let ghost head3 = views(errors@);
    match paired {
        None => {
            proof {
                assert(views(errors@) =~= head3 + paired_errors(*paired));
            }
        },
        Some(p) => {
            let short = p.action_id.as_str().is_empty() || p.participant_roles.len() < 2;
            push_literal_if(&mut errors, short, "paired activity requires an action and at least two roles");
            let ghost head4 = views(errors@);
            let mut k: usize = 0;
            while k < p.participant_roles.len()
                invariant
                    k <= p.participant_roles@.len(),
                    views(errors@) == head4 + role_errors(p.participant_roles@, k as nat),
                decreases p.participant_roles@.len() - k,
            {
                let bad = role_is_invalid(&p.participant_roles, k);
                push_literal_if(&mut errors, bad, "paired activity roles must be non-empty and unique");
                proof {
                    assert(views(errors@) =~= head4 + role_errors(p.participant_roles@, (k + 1) as nat));
                }
                k = k + 1;
            }
            proof {
                assert(views(errors@) =~= head3 + paired_errors(*paired));
            }
        },
    }
    proof {
        assert(views(errors@) =~= plan_errors_of(id@, windows@, needs@, resources@, *paired, capacity));
    }
    errors
}

/// Some window contains `tick`.
pub open spec fn plan_active_at(windows: Seq<(u64, u64)>, tick: u64) -> bool {
    exists|i: int| 0 <= i < windows.len() && (#[trigger] windows[i]).0 <= tick <= windows[i].1
}

impl ActivityPlanV1 {
    pub fn validate(&self) -> (r: Result<(), Vec<String>>)
        ensures
            r is Ok <==> plan_errors(*self).len() == 0,
            r matches Err(e) ==> views(e@) == plan_errors(*self),
            r is Ok ==> self.capacity > 0 && self.id@.len() > 0 && self.windows@.len() > 0 && forall|i: int|
                0 <= i < self.windows@.len() ==> self.windows@[i].0 <= self.windows@[i].1,
            r is Ok ==> forall|i: int|
                0 <= i < self.needs@.len() ==> (#[trigger] self.needs@[i]).key@.len() > 0
                    && self.needs@[i].target_millionths <= 1_000_000,
            r is Ok ==> forall|i: int|
                0 <= i < self.resources@.len() ==> (#[trigger] self.resources@[i]).id@.len() > 0
                    && self.resources@[i].capacity > 0,
            self.capacity == 0 ==> (r matches Err(e) && views(e@).contains("activity capacity must be positive"@)),
            self.id@.len() == 0 ==> (r matches Err(e) && views(e@).contains("activity ID must be non-empty"@)),
            self.windows@.len() == 0 ==> (r matches Err(e) && views(e@).contains(
                "activity window declarations are invalid"@,
            )),
    {
        proof {
            lemma_plan_errors_report(
                self.id@,
                self.windows@,
                self.needs@,
                self.resources@,
                self.paired_action,
                self.capacity,
            );
            if plan_errors(*self).len() == 0 {
                lemma_clean_plan_is_well_formed(
                    self.id@,
                    self.windows@,
                    self.needs@,
                    self.resources@,
                    self.paired_action,
                    self.capacity,
                );
            }
        }
        let errors = collect_plan_errors(
            self.id.as_str(),
            &self.windows,
            &self.needs,
            &self.resources,
            &self.paired_action,
            self.capacity,
        );
        if errors.len() == 0 {
            Ok(())
        } else {
            Err(errors)
        }
    }

    pub fn is_active(&self, tick: u64) -> (b: bool)
        ensures
            b == plan_active_at(self.windows@, tick),
    {
        let mut i: usize = 0;
        while i < self.windows.len()
            invariant
                i <= self.windows@.len(),
                forall|j: int| 0 <= j < i ==> !((#[trigger] self.windows@[j]).0 <= tick <= self.windows@[j].1),
            decreases self.windows@.len() - i,
        {
            if self.windows[i].0 <= tick && tick <= self.windows[i].1 {
                return true;
            }
            i = i + 1;
        }
        false
    }
}

/// The window bounds of a schedule, as a plan holds them.
pub open spec fn window_bounds(windows: Seq<ActivityWindowV1>) -> Seq<(u64, u64)> {
    windows.map_values(|w: ActivityWindowV1| (w.start_tick, w.end_tick))
}

/// `parts` separated by `sep`.
pub open spec fn joined(parts: Seq<Seq<char>>, sep: Seq<char>) -> Seq<char>
    decreases parts.len(),
{
    if parts.len() == 0 {
        Seq::empty()
    } else if parts.len() == 1 {
        parts[0]
    } else {
        joined(parts.drop_last(), sep) + sep + parts.last()
    }
}

fn join_messages(parts: &Vec<String>, sep: &str) -> (r: String)
    ensures
        r@ == joined(views(parts@), sep@),
{
    let mut out = String::new();
    let mut i: usize = 0;
    while i < parts.len()
        invariant
            i <= parts@.len(),
            out@ == joined(views(parts@).subrange(0, i as int), sep@),
        decreases parts@.len() - i,
    {
        proof {
            let s = views(parts@).subrange(0, i as int + 1);
            assert(s.drop_last() =~= views(parts@).subrange(0, i as int));
        }
        if i > 0 {
            out.append(sep);
        }
        out.append(parts[i].as_str());
        proof {
            if i == 0 {
                assert(out@ =~= views(parts@).subrange(0, 1)[0]);
            }
        }
        i = i + 1;
    }
    proof {
        assert(views(parts@).subrange(0, i as int) =~= views(parts@));
    }
    out
}

/// The verdict on an activity schedule; the message carried by
/// `InvalidSchedule` is given by `schedule_message`.
pub open spec fn schedule_verdict(s: ActivityScheduleV1) -> Result<(), ActivityError> {
    let plan_errs = plan_errors_of(
        s.id@,
        window_bounds(s.windows@),
        s.needs@,
        Seq::empty(),
        s.paired_action,
        s.capacity,
    );
    if s.schema_version != ACTIVITY_SCHEMA_VERSION {
        Err(ActivityError::UnsupportedVersion(s.schema_version))
    } else if s.id@.len() == 0 || s.windows@.len() == 0 || s.resources@.len() == 0 || s.capacity
        == 0 || some_window_inverted(window_bounds(s.windows@)) || crate::text::any_empty(
        s.resources@,
    ) || plan_errs.len() > 0 {
        Err(ActivityError::InvalidSchedule(arbitrary()))
    } else {
        Ok(())
    }
}

/// The message of an invalid schedule.
pub open spec fn schedule_message(s: ActivityScheduleV1) -> Seq<char> {
    if s.id@.len() == 0 || s.windows@.len() == 0 || s.resources@.len() == 0 || s.capacity == 0 {
        "id, windows, resources, and positive capacity are required"@
    } else if some_window_inverted(window_bounds(s.windows@)) {
        "activity window start must not be after end"@
    } else if crate::text::any_empty(s.resources@) {
        "activity resources must be non-empty"@
    } else {
        joined(
            plan_errors_of(
                s.id@,
                window_bounds(s.windows@),
                s.needs@,
                Seq::empty(),
                s.paired_action,
                s.capacity,
            ),
            "; "@,
        )
    }
}

/// Some schedule window contains `tick`.
pub open spec fn schedule_active_at(windows: Seq<ActivityWindowV1>, tick: u64) -> bool {
    exists|i: int|
        0 <= i < windows.len() && (#[trigger] windows[i]).start_tick <= tick <= windows[i].end_tick
}

impl ActivityScheduleV1 {
    pub fn validate(&self) -> (r: Result<(), ActivityError>)
        ensures
            r is Ok <==> schedule_verdict(*self) is Ok,
            r matches Err(ActivityError::UnsupportedVersion(v)) ==> schedule_verdict(*self)
                == Err::<(), ActivityError>(ActivityError::UnsupportedVersion(v)),
            r matches Err(ActivityError::InvalidSchedule(m)) ==> schedule_verdict(*self) matches Err(
                ActivityError::InvalidSchedule(_),
            ) && m@ == schedule_message(*self),
            r is Err ==> (r matches Err(ActivityError::UnsupportedVersion(_))) || (r matches Err(
                ActivityError::InvalidSchedule(_),
            )),
    {
        if self.schema_version != ACTIVITY_SCHEMA_VERSION {
            return Err(ActivityError::UnsupportedVersion(self.schema_version));
        }
        if self.id.as_str().is_empty() || self.windows.len() == 0 || self.resources.len() == 0
            || self.capacity == 0 {
            return Err(
                ActivityError::InvalidSchedule(
                    String::from_str("id, windows, resources, and positive capacity are required"),
                ),
            );
        }
        let mut bounds: Vec<(u64, u64)> = Vec::new();
        let mut i: usize = 0;
        while i < self.windows.len()
            invariant
                i <= self.windows@.len(),
                bounds@ == window_bounds(self.windows@).subrange(0, i as int),
            decreases self.windows@.len() - i,
        {
            bounds.push((self.windows[i].start_tick, self.windows[i].end_tick));
            proof {
                assert(bounds@ =~= window_bounds(self.windows@).subrange(0, i as int + 1));
            }
            i = i + 1;
        }
        proof {
            assert(bounds@ =~= window_bounds(self.windows@));
        }
        if any_window_inverted(&bounds) {
            return Err(
                ActivityError::InvalidSchedule(
                    String::from_str("activity window start must not be after end"),
                ),
            );
        }
        if crate::text::has_empty(&self.resources) {
            return Err(
                ActivityError::InvalidSchedule(String::from_str("activity resources must be non-empty")),
            );
        }
        let no_bindings: Vec<ActivityResourceBindingV1> = Vec::new();
        let plan_errors = collect_plan_errors(
            self.id.as_str(),
            &bounds,
            &self.needs,
            &no_bindings,
            &self.paired_action,
            self.capacity,
        );
        proof {
            assert(no_bindings@ =~= Seq::<ActivityResourceBindingV1>::empty());
        }
        if plan_errors.len() > 0 {
            return Err(ActivityError::InvalidSchedule(join_messages(&plan_errors, "; ")));
        }
        Ok(())
    }

    pub fn is_active(&self, tick: u64) -> (b: bool)
        ensures
            b == schedule_active_at(self.windows@, tick),
    {
        let mut i: usize = 0;
        while i < self.windows.len()
            invariant
                i <= self.windows@.len(),
                forall|j: int|
                    0 <= j < i ==> !((#[trigger] self.windows@[j]).start_tick <= tick
                        <= self.windows@[j].end_tick),
            decreases self.windows@.len() - i,
        {
            if self.windows[i].start_tick <= tick && tick <= self.windows[i].end_tick {
                return true;
            }
            i = i + 1;
        }
        false
    }
}

/// The capacity a schedule declares when it names none.
pub fn default_activity_capacity() -> (c: usize)
    ensures
        c == 1,
{
    1
}

} // verus!
