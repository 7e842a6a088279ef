//! Stable group roles and formations.

use vstd::prelude::*;
use crate::ids::AgentId;

verus! {

pub const FORMATION_SCHEMA_VERSION: u32 = 1;

#[derive(Clone, Debug, PartialEq, Eq)]
pub struct FormationRoleV1 {
    pub agent_id: AgentId,
    pub role: String,
    pub offset_millimeters: [i32; 2],
}

#[derive(Clone, Copy, Debug, PartialEq, Eq, Structural)]
pub enum FormationSplitPolicyV1 {
    HoldLeader,
    Regroup,
    ContinueIndividual,
}

#[derive(Clone, Debug, PartialEq, Eq)]
pub struct FormationV1 {
    pub schema_version: u32,
    pub id: String,
    pub leader_agent_id: AgentId,
    pub roles: Vec<FormationRoleV1>,
    pub max_separation_millimeters: u32,
    pub split_policy: FormationSplitPolicyV1,
}

#[derive(Clone, Copy, Debug, PartialEq, Eq, Structural)]
pub enum FormationError {
    UnsupportedVersion(u32),
    EmptyId,
    EmptyRoles,
    DuplicateMember(AgentId),
    MissingLeader(AgentId),
    EmptyRole(AgentId),
    InvalidSeparation,
}

/// 0 when role `i` is acceptable; 1 for an empty role name, 2 for a member
/// listed before.
pub open spec fn role_problem(roles: Seq<FormationRoleV1>, i: int) -> int {
    if roles[i].role@.len() == 0 {
        1
    } else if exists|j: int| 0 <= j < i && (#[trigger] roles[j]).agent_id == roles[i].agent_id {
        2
    } else {
        0
    }
}

/// The first unacceptable role among the first `n`, or -1.
pub open spec fn first_bad_role(roles: Seq<FormationRoleV1>, n: nat) -> int
    decreases n,
{
    if n == 0 {
        -1
    } else if first_bad_role(roles, (n - 1) as nat) >= 0 {
        first_bad_role(roles, (n - 1) as nat)
    } else if role_problem(roles, n - 1) != 0 {
        n - 1
    } else {
        -1
    }
}

proof fn lemma_first_bad_role_stable(roles: Seq<FormationRoleV1>, m: nat, n: nat)
    requires
        m <= n,
        first_bad_role(roles, m) >= 0,
    ensures
        first_bad_role(roles, n) == first_bad_role(roles, m),
    decreases n,
{
    if n > m {
        lemma_first_bad_role_stable(roles, m, (n - 1) as nat);
    }
}

/// Some role belongs to the agent.
pub open spec fn is_member(roles: Seq<FormationRoleV1>, agent: AgentId) -> bool {
    exists|i: int| 0 <= i < roles.len() && (#[trigger] roles[i]).agent_id == agent
}

/// The verdict on a formation with these parts: its first failed check.
pub open spec fn formation_verdict_of(
    version: u32,
    id: Seq<char>,
    leader: AgentId,
    roles: Seq<FormationRoleV1>,
    max_separation_millimeters: u32,
) -> Result<(), FormationError> {
    let k = first_bad_role(roles, roles.len());
    if version != FORMATION_SCHEMA_VERSION {
        Err(FormationError::UnsupportedVersion(version))
    } else if id.len() == 0 {
        Err(FormationError::EmptyId)
    } else if roles.len() == 0 {
        Err(FormationError::EmptyRoles)
    } else if max_separation_millimeters == 0 {
        Err(FormationError::InvalidSeparation)
    } else if k >= 0 && role_problem(roles, k) == 1 {
        Err(FormationError::EmptyRole(roles[k].agent_id))
    } else if k >= 0 {
        Err(FormationError::DuplicateMember(roles[k].agent_id))
    } else if !is_member(roles, leader) {
        Err(FormationError::MissingLeader(leader))
    } else {
        Ok(())
    }
}

/// The verdict on a formation: its first failed check.
pub open spec fn formation_verdict(f: FormationV1) -> Result<(), FormationError> {
    formation_verdict_of(f.schema_version, f.id@, f.leader_agent_id, f.roles@, f.max_separation_millimeters)
}

impl FormationV1 {
    pub fn new(
        id: &str,
        leader_agent_id: AgentId,
        roles: Vec<FormationRoleV1>,
        max_separation_millimeters: u32,
        split_policy: FormationSplitPolicyV1,
    ) -> (r: Result<Self, FormationError>)
        ensures
            r matches Ok(f) ==> f.schema_version == FORMATION_SCHEMA_VERSION && f.id@ == id@
                && f.leader_agent_id == leader_agent_id && f.roles == roles
                && f.max_separation_millimeters == max_separation_millimeters && f.split_policy
                == split_policy && formation_verdict(f) is Ok,
            r matches Err(e) ==> formation_verdict_of(
                FORMATION_SCHEMA_VERSION,
                id@,
                leader_agent_id,
                roles@,
                max_separation_millimeters,
            ) == Err::<(), FormationError>(e),
            r is Ok <==> formation_verdict_of(
                FORMATION_SCHEMA_VERSION,
                id@,
                leader_agent_id,
                roles@,
                max_separation_millimeters,
            ) is Ok,
    {
        let formation = Self {
            schema_version: FORMATION_SCHEMA_VERSION,
            id: String::from_str(id),
            leader_agent_id,
            roles,
            max_separation_millimeters,
            split_policy,
        };
        match formation.validate() {
            Ok(()) => Ok(formation),
            Err(e) => Err(e),
        }
    }

    pub fn validate(&self) -> (r: Result<(), FormationError>)
        ensures
            r == formation_verdict(*self),
    {
        if self.schema_version != FORMATION_SCHEMA_VERSION {
            return Err(FormationError::UnsupportedVersion(self.schema_version));
        }
        if self.id.as_str().is_empty() {
            return Err(FormationError::EmptyId);
        }
        if self.roles.len() == 0 {
            return Err(FormationError::EmptyRoles);
        }
        if self.max_separation_millimeters == 0 {
            return Err(FormationError::InvalidSeparation);
        }
        let mut i: usize = 0;
        while i < self.roles.len()
            invariant
                i <= self.roles@.len(),
                self.schema_version == FORMATION_SCHEMA_VERSION,
                self.id@.len() > 0,
                self.roles@.len() > 0,
                self.max_separation_millimeters > 0,
                first_bad_role(self.roles@, i as nat) < 0,
            decreases self.roles@.len() - i,
        {
            let role = &self.roles[i];
            if role.role.as_str().is_empty() {
                proof {
                    assert(role_problem(self.roles@, i as int) == 1);
                    assert(first_bad_role(self.roles@, (i + 1) as nat) == i as int);
                    lemma_first_bad_role_stable(self.roles@, (i + 1) as nat, self.roles@.len());
                }
                return Err(FormationError::EmptyRole(role.agent_id));
            }
            let mut j: usize = 0;
            while j < i
                invariant
                    i < self.roles@.len(),
                    j <= i,
                    *role == self.roles@[i as int],
                    role.role@.len() > 0,
                    self.schema_version == FORMATION_SCHEMA_VERSION,
                    self.id@.len() > 0,
                    self.roles@.len() > 0,
                    self.max_separation_millimeters > 0,
                    first_bad_role(self.roles@, i as nat) < 0,
                    forall|k: int| 0 <= k < j ==> (#[trigger] self.roles@[k]).agent_id != role.agent_id,
                decreases i - j,
            {
                if self.roles[j].agent_id.0 == role.agent_id.0 {
                    proof {
                        assert(self.roles@[j as int].agent_id == role.agent_id);
                        assert(role_problem(self.roles@, i as int) == 2);
                        assert(first_bad_role(self.roles@, (i + 1) as nat) == i as int);
                        lemma_first_bad_role_stable(self.roles@, (i + 1) as nat, self.roles@.len());
                    }
                    return Err(FormationError::DuplicateMember(role.agent_id));
                }
                j = j + 1;
            }
            proof {
                assert(role_problem(self.roles@, i as int) == 0);
            }
            i = i + 1;
        }
        let mut k: usize = 0;
        while k < self.roles.len()
            invariant
                k <= self.roles@.len(),
                self.schema_version == FORMATION_SCHEMA_VERSION,
                self.id@.len() > 0,
                self.roles@.len() > 0,
                self.max_separation_millimeters > 0,
                first_bad_role(self.roles@, self.roles@.len()) < 0,
                forall|m: int| 0 <= m < k ==> (#[trigger] self.roles@[m]).agent_id != self.leader_agent_id,
            decreases self.roles@.len() - k,
        {
            if self.roles[k].agent_id.0 == self.leader_agent_id.0 {
                assert(self.roles@[k as int].agent_id == self.leader_agent_id);
                return Ok(());
            }
            k = k + 1;
        }
        Err(FormationError::MissingLeader(self.leader_agent_id))
    }

    /// The formation offset of a member, in millimetres.
    pub fn offset_millimeters_for(&self, agent_id: AgentId) -> (r: Option<[i32; 2]>)
        ensures
            r is None <==> !is_member(self.roles@, agent_id),
            r matches Some(o) ==> exists|i: int| 0 <= i < self.roles@.len() && (#[trigger] self.roles@[i]).agent_id == agent_id
                && self.roles@[i].offset_millimeters == o && forall|j: int| 0 <= j < i ==> (#[trigger] self.roles@[j]).agent_id != agent_id,
    {
        let mut k: usize = 0;
        while k < self.roles.len()
            invariant
                k <= self.roles@.len(),
                forall|m: int| 0 <= m < k ==> (#[trigger] self.roles@[m]).agent_id != agent_id,
            decreases self.roles@.len() - k,
        {
            if self.roles[k].agent_id.0 == agent_id.0 {
                assert(self.roles@[k as int].agent_id == agent_id);
                return Some(self.roles[k].offset_millimeters);
            }
            k = k + 1;
        }
        None
    }
}

} // verus!
