//! Reusable, bounded action definitions for brain authoring.

use vstd::prelude::*;
use crate::keyed::{sorted_keys, TextMap};
use crate::text::{join4, msg_if, push_joined_if, push_literal_if, push_message, views};

verus! {

#[derive(Clone, Debug, PartialEq, Eq)]
pub struct ActionDefinitionV1 {
    pub id: String,
    pub channel: String,
    pub cost_millionths: u32,
    pub fallback_id: String,
}

impl ActionDefinitionV1 {
    pub fn new(id: &str, channel: &str, cost_millionths: u32, fallback_id: &str) -> (a: Self)
        ensures
            a.id@ == id@,
            a.channel@ == channel@,
            a.cost_millionths == cost_millionths,
            a.fallback_id@ == fallback_id@,
    {
        Self {
            id: String::from_str(id),
            channel: String::from_str(channel),
            cost_millionths,
            fallback_id: String::from_str(fallback_id),
        }
    }
}

/// A validated set of actions, keyed and iterated by action ID.
#[derive(Debug)]
pub struct ActionLibraryV1 {
    actions: TextMap<ActionDefinitionV1>,
}

/// The actions by ID after the first `n` are registered; a later action with
/// the same ID replaces an earlier one.
pub open spec fn actions_by_id(actions: Seq<ActionDefinitionV1>, n: nat) -> Map<
    Seq<char>,
    ActionDefinitionV1,
>
    decreases n,
{
    if n == 0 {
        Map::empty()
    } else {
        actions_by_id(actions, (n - 1) as nat).insert(actions[n - 1].id@, actions[n - 1])
    }
}

/// The diagnostics action `i` earns when it is registered.
pub open spec fn registration_errors(actions: Seq<ActionDefinitionV1>, i: int) -> Seq<Seq<char>> {
    let a = actions[i];
    msg_if(
        a.id@.len() == 0 || a.channel@.len() == 0 || a.fallback_id@.len() == 0,
        "action "@ + a.id@ + " must declare ID, channel, and fallback"@,
    ) + msg_if(a.cost_millionths == 0, "action "@ + a.id@ + " must declare a positive cost"@)
        + msg_if(
        actions_by_id(actions, i as nat).dom().contains(a.id@),
        "duplicate action ID"@,
    )
}

/// The diagnostics of registering the first `n` actions, in order.
pub open spec fn registrations_errors(actions: Seq<ActionDefinitionV1>, n: nat) -> Seq<Seq<char>>
    decreases n,
{
    if n == 0 {
        Seq::empty()
    } else {
        registrations_errors(actions, (n - 1) as nat) + registration_errors(actions, n - 1)
    }
}

/// The dangling-fallback diagnostics of the registered actions whose IDs are
/// the first `n` of `keys`.
pub open spec fn fallback_errors(
    by_id: Map<Seq<char>, ActionDefinitionV1>,
    keys: Seq<Seq<char>>,
    n: nat,
) -> Seq<Seq<char>>
    decreases n,
{
    if n == 0 {
        Seq::empty()
    } else {
        let a = by_id[keys[n - 1]];
        fallback_errors(by_id, keys, (n - 1) as nat) + msg_if(
            !by_id.dom().contains(a.fallback_id@),
            "action "@ + a.id@ + " references missing fallback "@ + a.fallback_id@,
        )
    }
}

/// Every diagnostic a list of action definitions earns, in order.
pub open spec fn library_errors(actions: Seq<ActionDefinitionV1>) -> Seq<Seq<char>> {
    let by_id = actions_by_id(actions, actions.len());
    let keys = sorted_keys(by_id.dom());
    registrations_errors(actions, actions.len()) + fallback_errors(by_id, keys, keys.len())
}

impl ActionLibraryV1 {
    /// The actions, by ID.
    pub closed spec fn as_map(&self) -> Map<Seq<char>, ActionDefinitionV1> {
        self.actions.as_map()
    }

    pub closed spec fn wf(&self) -> bool {
        self.actions.wf()
    }

    pub fn new(actions: Vec<ActionDefinitionV1>) -> (r: Result<Self, Vec<String>>)
        ensures
            r is Ok <==> library_errors(actions@).len() == 0,
            r matches Ok(lib) ==> lib.wf() && lib.as_map() == actions_by_id(
                actions@,
                actions@.len(),
            ),
            r matches Err(e) ==> views(e@) == library_errors(actions@),
    {
        let ghost input = actions@;
        let mut errors: Vec<String> = Vec::new();
        let mut by_id: TextMap<ActionDefinitionV1> = TextMap::new();
        let total = actions.len();
        let mut remaining = actions;
        let mut i: usize = 0;
        while remaining.len() > 0
            invariant
                i <= input.len(),
                remaining@ == input.subrange(i as int, input.len() as int),
                total == input.len(),
                by_id.wf(),
                by_id.as_map() == actions_by_id(input, i as nat),
                views(errors@) == registrations_errors(input, i as nat),
            decreases remaining@.len(),
        {
            let action = remaining.remove(0);
            assert(action == input[i as int]);
            let ghost before = views(errors@);
            let ghost a = action;
            let incomplete = action.id.as_str().is_empty() || action.channel.as_str().is_empty()
                || action.fallback_id.as_str().is_empty();
            push_joined_if(&mut errors, incomplete, "action ", action.id.as_str(), " must declare ID, channel, and fallback");
            let ghost e1 = views(errors@);
            push_joined_if(&mut errors, action.cost_millionths == 0, "action ", action.id.as_str(), " must declare a positive cost");
            let ghost e2 = views(errors@);
            let key = action.id.clone();
            let previous = by_id.insert(key, action);
            push_literal_if(&mut errors, previous.is_some(), "duplicate action ID");
            proof {
                let m1 = msg_if(
                    a.id@.len() == 0 || a.channel@.len() == 0 || a.fallback_id@.len() == 0,
                    "action "@ + a.id@ + " must declare ID, channel, and fallback"@,
                );
                let m2 = msg_if(a.cost_millionths == 0, "action "@ + a.id@ + " must declare a positive cost"@);
                let m3 = msg_if(actions_by_id(input, i as nat).dom().contains(a.id@), "duplicate action ID"@);
                assert(registration_errors(input, i as int) == m1 + m2 + m3);
                assert(views(errors@) =~= before + (m1 + m2 + m3));
            }
            i = i + 1;
        }
        let ghost head = views(errors@);
        let ghost by_id_map = by_id.as_map();
        proof {
            by_id.lemma_keys_sorted();
        }
        let mut j: usize = 0;
        while j < by_id.len()
            invariant
                i == input.len(),
                by_id.wf(),
                by_id.as_map() == by_id_map,
                by_id.keys() == sorted_keys(by_id_map.dom()),
                j <= by_id.keys().len(),
                views(errors@) == head + fallback_errors(by_id_map, by_id.keys(), j as nat),
            decreases by_id.keys().len() - j,
        {
            let action = by_id.value_at(j);
            proof {
                by_id.lemma_lookup(j as int);
            }
            let dangling = !by_id.contains_key(action.fallback_id.as_str());
            let ghost before = views(errors@);
            if dangling {
                push_message(
                    &mut errors,
                    join4("action ", action.id.as_str(), " references missing fallback ", action.fallback_id.as_str()),
                );
            }
            proof {
                assert(views(errors@) =~= before + msg_if(
                    !by_id_map.dom().contains(action.fallback_id@),
                    "action "@ + action.id@ + " references missing fallback "@ + action.fallback_id@,
                ));
            }
            j = j + 1;
        }
        proof {
            assert(views(errors@) =~= library_errors(input));
        }
        if errors.len() == 0 {
            Ok(Self { actions: by_id })
        } else {
            Err(errors)
        }
    }

    pub fn len(&self) -> (n: usize)
        requires
            self.wf(),
        ensures
            n == self.as_map().dom().len(),
    {
        proof {
            self.actions.lemma_keys_sorted();
            lemma_keys_len(self.actions.keys());
        }
        self.actions.len()
    }

    pub fn is_empty(&self) -> (b: bool)
        requires
            self.wf(),
        ensures
            b == (self.as_map().dom().len() == 0),
    {
        self.len() == 0
    }

    /// The action IDs, in ID order.
    pub fn ids(&self) -> (r: Vec<String>)
        requires
            self.wf(),
        ensures
            views(r@) == sorted_keys(self.as_map().dom()),
    {
        let r = self.actions.key_list();
        proof {
            assert(views(r@) =~= r@.map_values(|s: String| s@));
        }
        r
    }

    pub fn get(&self, id: &str) -> (r: Option<&ActionDefinitionV1>)
        requires
            self.wf(),
        ensures
            r is Some <==> self.as_map().dom().contains(id@),
            r matches Some(a) ==> *a == self.as_map()[id@],
    {
        self.actions.get(id)
    }
}

/// A strictly sorted key list has as many keys as its set.
proof fn lemma_keys_len(keys: Seq<Seq<char>>)
    requires
        crate::keyed::strictly_sorted(keys),
    ensures
        keys.to_set().len() == keys.len(),
{
    assert(keys.no_duplicates()) by {
        assert forall|a: int, b: int| 0 <= a < keys.len() && 0 <= b < keys.len() && a != b implies keys[a] != keys[b] by {
            crate::keyed::lemma_sorted_distinct(keys, a, b);
        }
    }
    keys.unique_seq_to_set();
}

} // verus!
