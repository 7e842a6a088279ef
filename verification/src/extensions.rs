//! Versioned external behavior/action extension boundary.

use vstd::prelude::*;
use crate::text::{any_empty, contains_text, decimal, finish, has_empty, msg_if, push_joined_if, push_literal_if, push_message, str_eq, text_in, views, with_decimal};

verus! {

pub const EXTENSION_SCHEMA_VERSION: u32 = 1;

#[derive(Clone, Debug, PartialEq, Eq)]
pub struct ExtensionChannelV1 {
    pub name: String,
    pub version: u32,
    pub inputs: Vec<String>,
    pub outputs: Vec<String>,
    pub cost_budget_millionths: u32,
    pub deterministic: bool,
    pub failure_isolated: bool,
}

#[derive(Clone, Debug, PartialEq, Eq)]
pub struct ExtensionManifestV1 {
    pub schema_version: u32,
    pub id: String,
    pub channels: Vec<ExtensionChannelV1>,
}

#[derive(Clone, Debug, PartialEq, Eq)]
pub enum ExtensionValidationError {
    UnsupportedVersion(u32),
    UnknownChannel(String),
    UndeclaredInput(String),
    CostBudgetExceeded,
    NonDeterministic,
    NotFailureIsolated,
}

/// An earlier channel carries the same name as channel `i`.
pub open spec fn name_seen_before(chs: Seq<ExtensionChannelV1>, i: int) -> bool {
    exists|j: int| 0 <= j < i && (#[trigger] chs[j]).name@ == chs[i].name@
}

/// The diagnostics channel `i` earns, in order.
pub open spec fn channel_errors(chs: Seq<ExtensionChannelV1>, i: int) -> Seq<Seq<char>> {
    let c = chs[i];
    let n = c.name@;
    msg_if(
        n.len() == 0 || name_seen_before(chs, i),
        "extension channel "@ + n + " must have a unique non-empty name"@,
    ) + msg_if(c.version == 0, "extension channel "@ + n + " must declare a positive version"@)
        + msg_if(
        any_empty(c.inputs@) || any_empty(c.outputs@),
        "extension channel "@ + n + " has an empty channel declaration"@,
    ) + msg_if(
        c.cost_budget_millionths == 0,
        "extension channel "@ + n + " must declare a positive cost budget"@,
    ) + msg_if(
        !c.deterministic,
        "extension channel "@ + n + " must be deterministic in strict mode"@,
    ) + msg_if(!c.failure_isolated, "extension channel "@ + n + " must be failure isolated"@)
}

/// The diagnostics of the first `n` channels, in order.
pub open spec fn channels_errors(chs: Seq<ExtensionChannelV1>, n: nat) -> Seq<Seq<char>>
    decreases n,
{
    if n == 0 {
        Seq::empty()
    } else {
        channels_errors(chs, (n - 1) as nat) + channel_errors(chs, n - 1)
    }
}

/// The diagnostics a manifest with these parts earns, in order.
pub open spec fn manifest_errors_of(
    version: u32,
    id: Seq<char>,
    chs: Seq<ExtensionChannelV1>,
) -> Seq<Seq<char>> {
    msg_if(
        version != EXTENSION_SCHEMA_VERSION,
        "unsupported extension schema version "@ + decimal(version as nat),
    ) + msg_if(id.len() == 0, "extension manifest ID must be non-empty"@) + channels_errors(
        chs,
        chs.len(),
    )
}

/// The diagnostics a manifest earns, in order.
pub open spec fn manifest_errors(m: ExtensionManifestV1) -> Seq<Seq<char>> {
    manifest_errors_of(m.schema_version, m.id@, m.channels@)
}

/// The position of the first channel named `name`, or -1.
pub open spec fn find_channel(chs: Seq<ExtensionChannelV1>, name: Seq<char>) -> int
    decreases chs.len(),
{
    if chs.len() == 0 {
        -1
    } else if find_channel(chs.drop_last(), name) >= 0 {
        find_channel(chs.drop_last(), name)
    } else if chs.last().name@ == name {
        chs.len() - 1
    } else {
        -1
    }
}

/// The position of the first input not declared by `declared`, or -1.
pub open spec fn first_undeclared(inputs: Seq<Seq<char>>, declared: Seq<String>) -> int
    decreases inputs.len(),
{
    if inputs.len() == 0 {
        -1
    } else if first_undeclared(inputs.drop_last(), declared) >= 0 {
        first_undeclared(inputs.drop_last(), declared)
    } else if !text_in(declared, inputs.last()) {
        inputs.len() - 1
    } else {
        -1
    }
}

/// The verdict on one call of an extension channel.
pub open spec fn call_verdict(
    m: ExtensionManifestV1,
    channel_name: Seq<char>,
    inputs: Seq<Seq<char>>,
    estimated_cost_millionths: u32,
) -> Result<(), ExtensionValidationError> {
    let idx = find_channel(m.channels@, channel_name);
    if m.schema_version != EXTENSION_SCHEMA_VERSION {
        Err(ExtensionValidationError::UnsupportedVersion(m.schema_version))
    } else if idx < 0 {
        Err(ExtensionValidationError::UnknownChannel(arbitrary()))
    } else if !m.channels@[idx].deterministic {
        Err(ExtensionValidationError::NonDeterministic)
    } else if !m.channels@[idx].failure_isolated {
        Err(ExtensionValidationError::NotFailureIsolated)
    } else if first_undeclared(inputs, m.channels@[idx].inputs@) >= 0 {
        Err(ExtensionValidationError::UndeclaredInput(arbitrary()))
    } else if estimated_cost_millionths > m.channels@[idx].cost_budget_millionths {
        Err(ExtensionValidationError::CostBudgetExceeded)
    } else {
        Ok(())
    }
}

/// Two verdicts agree; the texts carried by errors are compared by value.
pub open spec fn same_verdict(
    a: Result<(), ExtensionValidationError>,
    b: Result<(), ExtensionValidationError>,
) -> bool {
    match (a, b) {
        (Err(ExtensionValidationError::UnknownChannel(_)), Err(ExtensionValidationError::UnknownChannel(_))) => true,
        (Err(ExtensionValidationError::UndeclaredInput(_)), Err(ExtensionValidationError::UndeclaredInput(_))) => true,
        _ => a == b,
    }
}

fn seen_before(chs: &Vec<ExtensionChannelV1>, i: usize) -> (r: bool)
    requires
        i < chs@.len(),
    ensures
        r == name_seen_before(chs@, i as int),
{
    let mut j: usize = 0;
    while j < i
        invariant
            i < chs@.len(),
            j <= i,
            forall|k: int| 0 <= k < j ==> (#[trigger] chs@[k]).name@ != chs@[i as int].name@,
        decreases i - j,
    {
        if str_eq(chs[j].name.as_str(), chs[i].name.as_str()) {
            return true;
        }
        j = j + 1;
    }
    false
}

#[verifier::rlimit(60)]
fn push_channel_errors(errors: &mut Vec<String>, chs: &Vec<ExtensionChannelV1>, i: usize)
    requires
        i < chs@.len(),
    ensures
        views(final(errors)@) == views(old(errors)@) + channel_errors(chs@, i as int),
{
    let channel = &chs[i];
    let name = channel.name.as_str();
    let ghost n = channel.name@;
    let ghost e0 = views(errors@);
    let dup = name.is_empty() || seen_before(chs, i);
    push_joined_if(errors, dup, "extension channel ", name, " must have a unique non-empty name");
    let ghost e1 = views(errors@);
    push_joined_if(errors, channel.version == 0, "extension channel ", name, " must declare a positive version");
    let ghost e2 = views(errors@);
    let empty_decl = has_empty(&channel.inputs) || has_empty(&channel.outputs);
    push_joined_if(errors, empty_decl, "extension channel ", name, " has an empty channel declaration");
    let ghost e3 = views(errors@);
    push_joined_if(errors, channel.cost_budget_millionths == 0, "extension channel ", name, " must declare a positive cost budget");
    let ghost e4 = views(errors@);
    push_joined_if(errors, !channel.deterministic, "extension channel ", name, " must be deterministic in strict mode");
    let ghost e5 = views(errors@);
    push_joined_if(errors, !channel.failure_isolated, "extension channel ", name, " must be failure isolated");
    proof {
        let c = chs@[i as int];
        let m1 = msg_if(n.len() == 0 || name_seen_before(chs@, i as int), "extension channel "@ + n + " must have a unique non-empty name"@);
        let m2 = msg_if(c.version == 0, "extension channel "@ + n + " must declare a positive version"@);
        let m3 = msg_if(any_empty(c.inputs@) || any_empty(c.outputs@), "extension channel "@ + n + " has an empty channel declaration"@);
        let m4 = msg_if(c.cost_budget_millionths == 0, "extension channel "@ + n + " must declare a positive cost budget"@);
        let m5 = msg_if(!c.deterministic, "extension channel "@ + n + " must be deterministic in strict mode"@);
        let m6 = msg_if(!c.failure_isolated, "extension channel "@ + n + " must be failure isolated"@);
        assert(e1 == e0 + m1);
        assert(e2 == e1 + m2);
        assert(e3 == e2 + m3);
        assert(e4 == e3 + m4);
        assert(e5 == e4 + m5);
        assert(views(errors@) == e5 + m6);
        assert(channel_errors(chs@, i as int) == m1 + m2 + m3 + m4 + m5 + m6);
        assert(views(errors@) =~= e0 + (m1 + m2 + m3 + m4 + m5 + m6));
    }
}

impl ExtensionManifestV1 {
    pub fn new(id: &str, channels: Vec<ExtensionChannelV1>) -> (r: Result<Self, Vec<String>>)
        ensures
            r is Ok <==> manifest_errors_of(EXTENSION_SCHEMA_VERSION, id@, channels@).len() == 0,
            r matches Ok(m) ==> m.schema_version == EXTENSION_SCHEMA_VERSION && m.id@ == id@
                && m.channels == channels,
            r matches Err(e) ==> views(e@) == manifest_errors_of(
                EXTENSION_SCHEMA_VERSION,
                id@,
                channels@,
            ),
    {
        let manifest = Self {
            schema_version: EXTENSION_SCHEMA_VERSION,
            id: String::from_str(id),
            channels,
        };
        match manifest.validate() {
            Ok(()) => Ok(manifest),
            Err(e) => Err(e),
        }
    }

    pub fn validate(&self) -> (r: Result<(), Vec<String>>)
        ensures
            r is Ok <==> manifest_errors(*self).len() == 0,
            r matches Err(e) ==> views(e@) == manifest_errors(*self),
    {
        let mut errors: Vec<String> = Vec::new();
        if self.schema_version != EXTENSION_SCHEMA_VERSION {
            push_message(
                &mut errors,
                with_decimal("unsupported extension schema version ", self.schema_version as u64),
            );
        }
        let ghost first = views(errors@);
        proof {
            assert(first =~= msg_if(
                self.schema_version != EXTENSION_SCHEMA_VERSION,
                "unsupported extension schema version "@ + decimal(self.schema_version as nat),
            ));
        }
        push_literal_if(&mut errors, self.id.as_str().is_empty(), "extension manifest ID must be non-empty");
        let ghost head = views(errors@);
        let mut i: usize = 0;
        while i < self.channels.len()
            invariant
                i <= self.channels@.len(),
                views(errors@) == head + channels_errors(self.channels@, i as nat),
            decreases self.channels@.len() - i,
        {
            push_channel_errors(&mut errors, &self.channels, i);
            proof {
                assert(head + channels_errors(self.channels@, (i + 1) as nat) =~= head
                    + channels_errors(self.channels@, i as nat) + channel_errors(self.channels@, i as int));
            }
            i = i + 1;
        }
        proof {
            assert(views(errors@) =~= manifest_errors(*self));
        }
        finish(errors)
    }

    pub fn validate_call(
        &self,
        channel_name: &str,
        inputs: &[&str],
        estimated_cost_millionths: u32,
    ) -> (r: Result<(), ExtensionValidationError>)
        ensures
            same_verdict(
                r,
                call_verdict(
                    *self,
                    channel_name@,
                    inputs@.map_values(|s: &str| s@),
                    estimated_cost_millionths,
                ),
            ),
            r matches Err(ExtensionValidationError::UnknownChannel(s)) ==> s@ == channel_name@,
            r matches Err(ExtensionValidationError::UndeclaredInput(s)) ==> ({
                let chs = self.channels@;
                let idx = find_channel(chs, channel_name@);
                let k = first_undeclared(inputs@.map_values(|s: &str| s@), chs[idx].inputs@);
                0 <= k < inputs@.len() && s@ == inputs@[k]@
            }),
    {
        if self.schema_version != EXTENSION_SCHEMA_VERSION {
            return Err(ExtensionValidationError::UnsupportedVersion(self.schema_version));
        }
        let mut idx: usize = 0;
        while idx < self.channels.len() && !str_eq(self.channels[idx].name.as_str(), channel_name)
            invariant
                idx <= self.channels@.len(),
                find_channel(self.channels@.subrange(0, idx as int), channel_name@) == -1,
            decreases self.channels@.len() - idx,
        {
            proof {
                assert(self.channels@.subrange(0, idx as int + 1).drop_last()
                    =~= self.channels@.subrange(0, idx as int));
            }
            idx = idx + 1;
        }
        proof {
            lemma_find_channel_prefix(self.channels@, channel_name@, idx as int);
        }
        if idx == self.channels.len() {
            return Err(ExtensionValidationError::UnknownChannel(String::from_str(channel_name)));
        }
        let channel = &self.channels[idx];
        if !channel.deterministic {
            return Err(ExtensionValidationError::NonDeterministic);
        }
        if !channel.failure_isolated {
            return Err(ExtensionValidationError::NotFailureIsolated);
        }
        let ghost all = inputs@.map_values(|s: &str| s@);
        let mut k: usize = 0;
        while k < inputs.len()
            invariant
                k <= inputs@.len(),
                idx < self.channels@.len(),
                *channel == self.channels@[idx as int],
                channel.deterministic && channel.failure_isolated,
                self.schema_version == EXTENSION_SCHEMA_VERSION,
                find_channel(self.channels@, channel_name@) == idx,
                all == inputs@.map_values(|s: &str| s@),
                first_undeclared(all.subrange(0, k as int), channel.inputs@) == -1,
            decreases inputs@.len() - k,
        {
            proof {
                assert(all.subrange(0, k as int + 1).drop_last() =~= all.subrange(0, k as int));
            }
            if !contains_text(&channel.inputs, inputs[k]) {
                proof {
                    assert(all[k as int] == inputs@[k as int]@);
                    lemma_first_undeclared_prefix(all, channel.inputs@, k as int);
                }
                return Err(ExtensionValidationError::UndeclaredInput(String::from_str(inputs[k])));
            }
            k = k + 1;
        }
        proof {
            assert(all.subrange(0, k as int) =~= all);
        }
        if estimated_cost_millionths > channel.cost_budget_millionths {
            return Err(ExtensionValidationError::CostBudgetExceeded);
        }
        Ok(())
    }
}

proof fn lemma_find_channel_prefix(chs: Seq<ExtensionChannelV1>, name: Seq<char>, idx: int)
    requires
        0 <= idx <= chs.len(),
        find_channel(chs.subrange(0, idx), name) == -1,
        idx < chs.len() ==> chs[idx].name@ == name,
    ensures
        idx == chs.len() ==> find_channel(chs, name) == -1,
        idx < chs.len() ==> find_channel(chs, name) == idx,
    decreases chs.len(),
{
    if idx == chs.len() {
        assert(chs.subrange(0, idx) =~= chs);
    } else {
        if idx + 1 == chs.len() {
            assert(chs.drop_last() =~= chs.subrange(0, idx));
        } else {
            assert(chs.drop_last().subrange(0, idx) =~= chs.subrange(0, idx));
            lemma_find_channel_prefix(chs.drop_last(), name, idx);
        }
    }
}

proof fn lemma_first_undeclared_prefix(inputs: Seq<Seq<char>>, declared: Seq<String>, k: int)
    requires
        0 <= k < inputs.len(),
        first_undeclared(inputs.subrange(0, k), declared) == -1,
        !text_in(declared, inputs[k]),
    ensures
        first_undeclared(inputs, declared) == k,
    decreases inputs.len(),
{
    if k + 1 == inputs.len() {
        assert(inputs.drop_last() =~= inputs.subrange(0, k));
    } else {
        assert(inputs.drop_last().subrange(0, k) =~= inputs.subrange(0, k));
        lemma_first_undeclared_prefix(inputs.drop_last(), declared, k);
    }
}

} // verus!
