//! Finite-capacity resource reservations with deterministic waiting lines.
//!
//! Each resource grants up to its capacity; everyone else waits, ranked by
//! priority (higher first) and then by agent ID (lower first). A freed place
//! always goes to the best-ranked waiter.

use vstd::prelude::*;
use crate::keyed::TextMap;
use crate::text::{compare_str, str_eq, text_lt, TextOrder};
use crate::activity::ActivityError;

verus! {

#[derive(Clone, Debug, PartialEq, Eq)]
pub struct ResourceV1 {
    pub id: String,
    pub capacity: usize,
}

#[derive(Clone, Debug, PartialEq, Eq)]
pub struct ActivityRequestV1 {
    pub agent_id: u64,
    pub resource_id: String,
    pub priority: i32,
}

#[derive(Clone, Debug, PartialEq, Eq)]
pub enum ReservationStatusV1 {
    Granted,
    Waiting { ordinal: usize },
    Released,
    Failed { reason: String },
}

#[derive(Clone, Debug, PartialEq, Eq)]
pub struct ReservationResultV1 {
    pub agent_id: u64,
    pub resource_id: String,
    pub status: ReservationStatusV1,
}

/// One agent waiting for a resource.
#[derive(Clone, Copy, Debug, PartialEq, Eq, Structural)]
pub struct WaitingEntry {
    pub agent_id: u64,
    pub priority: i32,
}

/// The state of one resource: its capacity, its owners in ID order, and its
/// waiting agents in ID order.
#[derive(Debug)]
pub struct ResourceState {
    pub capacity: usize,
    pub owners: Vec<u64>,
    pub waiting: Vec<WaitingEntry>,
}

// ---------------------------------------------------------------------------
// The model of one resource
// ---------------------------------------------------------------------------

pub open spec fn increasing(s: Seq<u64>) -> bool {
    forall|i: int, j: int| 0 <= i < j < s.len() ==> s[i] < s[j]
}

pub open spec fn waiting_agents_increasing(w: Seq<WaitingEntry>) -> bool {
    forall|i: int, j: int| 0 <= i < j < w.len() ==> (#[trigger] w[i]).agent_id < (#[trigger] w[j]).agent_id
}

/// The position of `agent` among the waiting, or -1.
pub open spec fn waiting_index(w: Seq<WaitingEntry>, agent: u64) -> int
    decreases w.len(),
{
    if w.len() == 0 {
        -1
    } else if waiting_index(w.drop_last(), agent) >= 0 {
        waiting_index(w.drop_last(), agent)
    } else if w.last().agent_id == agent {
        w.len() - 1
    } else {
        -1
    }
}

/// `a` is served before `b`: higher priority first, then lower agent ID.
pub open spec fn ranks_before(a: WaitingEntry, b: WaitingEntry) -> bool {
    a.priority > b.priority || (a.priority == b.priority && a.agent_id < b.agent_id)
}

/// The position of the best-ranked waiting agent.
pub open spec fn best_waiting(w: Seq<WaitingEntry>) -> int
    decreases w.len(),
{
    if w.len() <= 1 {
        0
    } else {
        let b = best_waiting(w.drop_last());
        if ranks_before(w.last(), w[b]) {
            w.len() - 1
        } else {
            b
        }
    }
}

/// `x` inserted into an increasing sequence.
pub open spec fn insert_sorted(s: Seq<u64>, x: u64) -> Seq<u64>
    decreases s.len(),
{
    if s.len() == 0 {
        seq![x]
    } else if x < s[0] {
        seq![x] + s
    } else {
        seq![s[0]] + insert_sorted(s.drop_first(), x)
    }
}

/// `e` inserted into the waiting line, kept in agent order.
pub open spec fn insert_waiting(w: Seq<WaitingEntry>, e: WaitingEntry) -> Seq<WaitingEntry>
    decreases w.len(),
{
    if w.len() == 0 {
        seq![e]
    } else if e.agent_id < w[0].agent_id {
        seq![e] + w
    } else {
        seq![w[0]] + insert_waiting(w.drop_first(), e)
    }
}

pub proof fn lemma_best_waiting_in_range(w: Seq<WaitingEntry>)
    requires
        w.len() > 0,
    ensures
        0 <= best_waiting(w) < w.len(),
    decreases w.len(),
{
    if w.len() > 1 {
        lemma_best_waiting_in_range(w.drop_last());
    }
}

/// Move best-ranked waiters into free places until the resource is full or
/// nobody waits.
pub open spec fn promote(owners: Seq<u64>, waiting: Seq<WaitingEntry>, capacity: nat) -> (
    Seq<u64>,
    Seq<WaitingEntry>,
)
    decreases waiting.len(),
{
    if owners.len() < capacity && waiting.len() > 0 {
        let b = best_waiting(waiting);
        proof {
            lemma_best_waiting_in_range(waiting);
        }
        promote(insert_sorted(owners, waiting[b].agent_id), waiting.remove(b), capacity)
    } else {
        (owners, waiting)
    }
}

/// How many waiting agents are served before `t`.
pub open spec fn count_before(w: Seq<WaitingEntry>, t: WaitingEntry) -> nat
    decreases w.len(),
{
    if w.len() == 0 {
        0
    } else {
        count_before(w.drop_last(), t) + if ranks_before(w.last(), t) {
            1nat
        } else {
            0nat
        }
    }
}

/// The well-formed states of one resource.
pub open spec fn resource_wf(capacity: usize, owners: Seq<u64>, waiting: Seq<WaitingEntry>) -> bool {
    &&& capacity > 0
    &&& increasing(owners)
    &&& waiting_agents_increasing(waiting)
    &&& owners.len() <= capacity
    &&& waiting.len() > 0 ==> owners.len() == capacity
    &&& forall|i: int| 0 <= i < waiting.len() ==> !owners.contains(#[trigger] waiting[i].agent_id)
}

/// The status of `agent` at a resource in this state.
pub open spec fn status_of(owners: Seq<u64>, waiting: Seq<WaitingEntry>, agent: u64) -> ReservationStatusV1 {
    if owners.contains(agent) {
        ReservationStatusV1::Granted
    } else if waiting_index(waiting, agent) >= 0 {
        ReservationStatusV1::Waiting {
            ordinal: (count_before(waiting, waiting[waiting_index(waiting, agent)]) + 1) as usize,
        }
    } else {
        ReservationStatusV1::Released
    }
}

impl ResourceState {
    pub open spec fn wf(&self) -> bool {
        resource_wf(self.capacity, self.owners@, self.waiting@)
    }
}


// ---------------------------------------------------------------------------
// Facts about the model
// ---------------------------------------------------------------------------

proof fn lemma_insert_sorted_at(s: Seq<u64>, x: u64, p: int)
    requires
        0 <= p <= s.len(),
        forall|j: int| 0 <= j < p ==> !(x < #[trigger] s[j]),
        p < s.len() ==> x < s[p],
    ensures
        insert_sorted(s, x) == s.insert(p, x),
    decreases s.len(),
{
    if p == 0 {
        if s.len() > 0 {
            assert(seq![x] + s =~= s.insert(0, x));
        } else {
            assert(seq![x] =~= s.insert(0, x));
        }
    } else {
        let t = s.drop_first();
        assert forall|j: int| 0 <= j < p - 1 implies !(x < #[trigger] t[j]) by {
            assert(t[j] == s[j + 1]);
        }
        lemma_insert_sorted_at(t, x, p - 1);
        assert(seq![s[0]] + t.insert(p - 1, x) =~= s.insert(p, x));
    }
}

proof fn lemma_insert_waiting_at(w: Seq<WaitingEntry>, e: WaitingEntry, p: int)
    requires
        0 <= p <= w.len(),
        forall|j: int| 0 <= j < p ==> !(e.agent_id < (#[trigger] w[j]).agent_id),
        p < w.len() ==> e.agent_id < w[p].agent_id,
    ensures
        insert_waiting(w, e) == w.insert(p, e),
    decreases w.len(),
{
    if p == 0 {
        if w.len() > 0 {
            assert(seq![e] + w =~= w.insert(0, e));
        } else {
            assert(seq![e] =~= w.insert(0, e));
        }
    } else {
        let t = w.drop_first();
        assert forall|j: int| 0 <= j < p - 1 implies !(e.agent_id < (#[trigger] t[j]).agent_id) by {
            assert(t[j] == w[j + 1]);
        }
        lemma_insert_waiting_at(t, e, p - 1);
        assert(seq![w[0]] + t.insert(p - 1, e) =~= w.insert(p, e));
    }
}

/// The best-ranked waiter is served before every other waiter.
pub proof fn lemma_best_waiting_ranks_first(w: Seq<WaitingEntry>, j: int)
    requires
        w.len() > 0,
        waiting_agents_increasing(w),
        0 <= j < w.len(),
        j != best_waiting(w),
    ensures
        ranks_before(w[best_waiting(w)], w[j]),
    decreases w.len(),
{
    lemma_best_waiting_in_range(w);
    if w.len() > 1 {
        let d = w.drop_last();
        lemma_best_waiting_in_range(d);
        let b = best_waiting(d);
        assert(d[b] == w[b]);
        if j < w.len() - 1 && j != b {
            lemma_best_waiting_ranks_first(d, j);
        }
        if j < w.len() - 1 && j != b && ranks_before(w.last(), w[b]) {
            // transitivity of the ranking
            assert(ranks_before(w.last(), w[j]));
        }
        if j == w.len() - 1 {
            assert(w[b].agent_id < w[j].agent_id);
        }
        if j == b {
            assert(w[j].agent_id < w.last().agent_id);
        }
    }
}

proof fn lemma_remove_keeps_increasing(w: Seq<WaitingEntry>, b: int)
    requires
        waiting_agents_increasing(w),
        0 <= b < w.len(),
    ensures
        waiting_agents_increasing(w.remove(b)),
{
    let r = w.remove(b);
    assert forall|i: int, j: int| 0 <= i < j < r.len() implies (#[trigger] r[i]).agent_id < (#[trigger] r[j]).agent_id by {
        let oi = if i < b { i } else { i + 1 };
        let oj = if j < b { j } else { j + 1 };
        assert(r[i] == w[oi]);
        assert(r[j] == w[oj]);
    }
}

proof fn lemma_insert_sorted_facts(s: Seq<u64>, x: u64)
    requires
        increasing(s),
        !s.contains(x),
    ensures
        increasing(insert_sorted(s, x)),
        insert_sorted(s, x).len() == s.len() + 1,
        forall|y: u64| insert_sorted(s, x).contains(y) <==> (y == x || s.contains(y)),
    decreases s.len(),
{
    if s.len() == 0 {
        assert(insert_sorted(s, x) =~= seq![x]);
        assert forall|y: u64| insert_sorted(s, x).contains(y) <==> (y == x || s.contains(y)) by {
            if insert_sorted(s, x).contains(y) {
                assert(insert_sorted(s, x)[0] == x);
            }
            if y == x {
                assert(insert_sorted(s, x)[0] == x);
            }
        }
    } else if x < s[0] {
        let r = seq![x] + s;
        assert forall|y: u64| r.contains(y) <==> (y == x || s.contains(y)) by {
            if r.contains(y) {
                let i = r.index_of(y);
                if i > 0 {
                    assert(s[i - 1] == y);
                }
            }
            if y == x {
                assert(r[0] == x);
            }
            if s.contains(y) {
                let i = s.index_of(y);
                assert(r[i + 1] == y);
            }
        }
    } else {
        let t = s.drop_first();
        assert(increasing(t)) by {
            assert forall|i: int, j: int| 0 <= i < j < t.len() implies t[i] < t[j] by {
                assert(t[i] == s[i + 1] && t[j] == s[j + 1]);
            }
        }
        assert(!t.contains(x)) by {
            if t.contains(x) {
                let i = t.index_of(x);
                assert(s[i + 1] == x);
            }
        }
        lemma_insert_sorted_facts(t, x);
        let it = insert_sorted(t, x);
        let r = seq![s[0]] + it;
        assert(x != s[0]) by {
            assert(s[0] == s[0]);
        }
        assert forall|i: int| 0 <= i < it.len() implies s[0] < #[trigger] it[i] by {
            assert(it.contains(it[i]));
            if it[i] != x {
                assert(t.contains(it[i]));
                let k = t.index_of(it[i]);
                assert(s[k + 1] == it[i]);
            }
        }
        assert forall|i: int, j: int| 0 <= i < j < r.len() implies r[i] < r[j] by {
            if i == 0 {
                assert(r[j] == it[j - 1]);
            } else {
                assert(r[i] == it[i - 1] && r[j] == it[j - 1]);
            }
        }
        assert forall|y: u64| r.contains(y) <==> (y == x || s.contains(y)) by {
            if r.contains(y) {
                let i = r.index_of(y);
                if i > 0 {
                    assert(it[i - 1] == y);
                    assert(it.contains(y));
                    if y != x {
                        assert(t.contains(y));
                        let k = t.index_of(y);
                        assert(t[k] == y);
                        assert(s[k + 1] == y);
                    }
                }
            }
            if y == x {
                assert(it.contains(x));
                let k = it.index_of(x);
                assert(r[k + 1] == x);
            }
            if s.contains(y) {
                let k = s.index_of(y);
                if k == 0 {
                    assert(r[0] == y);
                } else {
                    assert(t[k - 1] == y);
                    assert(t.contains(y));
                    assert(it.contains(y));
                    let m = it.index_of(y);
                    assert(r[m + 1] == y);
                }
            }
        }
    }
}

/// Promotion keeps every agent it is given, fills free places, and leaves a
/// well-formed resource.
pub proof fn lemma_promote_wf(owners: Seq<u64>, waiting: Seq<WaitingEntry>, capacity: usize)
    requires
        capacity > 0,
        increasing(owners),
        waiting_agents_increasing(waiting),
        owners.len() <= capacity,
        forall|i: int| 0 <= i < waiting.len() ==> !owners.contains(#[trigger] waiting[i].agent_id),
    ensures
        resource_wf(capacity, promote(owners, waiting, capacity as nat).0, promote(owners, waiting, capacity as nat).1),
        forall|x: u64| owners.contains(x) ==> promote(owners, waiting, capacity as nat).0.contains(x),
        forall|i: int| 0 <= i < waiting.len() ==> (promote(owners, waiting, capacity as nat).0.contains(
            #[trigger] waiting[i].agent_id,
        ) || waiting_index(promote(owners, waiting, capacity as nat).1, waiting[i].agent_id) >= 0),
    decreases waiting.len(),
{
    if owners.len() < capacity && waiting.len() > 0 {
        let b = best_waiting(waiting);
        lemma_best_waiting_in_range(waiting);
        let x = waiting[b].agent_id;
        lemma_insert_sorted_facts(owners, x);
        let o2 = insert_sorted(owners, x);
        let w2 = waiting.remove(b);
        lemma_remove_keeps_increasing(waiting, b);
        assert forall|i: int| 0 <= i < w2.len() implies !o2.contains(#[trigger] w2[i].agent_id) by {
            let oi = if i < b { i } else { i + 1 };
            assert(w2[i] == waiting[oi]);
            assert(waiting[oi].agent_id != x);
        }
        lemma_promote_wf(o2, w2, capacity);
        let (fo, fw) = promote(o2, w2, capacity as nat);
        assert forall|i: int| 0 <= i < waiting.len() implies (fo.contains(#[trigger] waiting[i].agent_id)
            || waiting_index(fw, waiting[i].agent_id) >= 0) by {
            if i == b {
                assert(o2.contains(x));
            } else {
                let oi = if i < b { i } else { i - 1 };
                assert(w2[oi] == waiting[i]);
            }
        }
    } else {
        assert forall|i: int| 0 <= i < waiting.len() implies (owners.contains(#[trigger] waiting[i].agent_id)
            || waiting_index(waiting, waiting[i].agent_id) >= 0) by {
            lemma_waiting_index_found(waiting, i);
        }
    }
}

pub proof fn lemma_waiting_index_found(w: Seq<WaitingEntry>, i: int)
    requires
        0 <= i < w.len(),
    ensures
        waiting_index(w, w[i].agent_id) >= 0,
        0 <= waiting_index(w, w[i].agent_id) < w.len(),
        w[waiting_index(w, w[i].agent_id)].agent_id == w[i].agent_id,
    decreases w.len(),
{
    if i < w.len() - 1 {
        lemma_waiting_index_found(w.drop_last(), i);
    } else if waiting_index(w.drop_last(), w[i].agent_id) >= 0 {
        lemma_waiting_index_range(w.drop_last(), w[i].agent_id);
    }
}

pub proof fn lemma_waiting_index_range(w: Seq<WaitingEntry>, agent: u64)
    ensures
        waiting_index(w, agent) >= 0 ==> waiting_index(w, agent) < w.len() && w[waiting_index(w, agent)].agent_id == agent,
        waiting_index(w, agent) < 0 ==> forall|i: int| 0 <= i < w.len() ==> (#[trigger] w[i]).agent_id != agent,
    decreases w.len(),
{
    if w.len() > 0 {
        lemma_waiting_index_range(w.drop_last(), agent);
        assert forall|i: int| 0 <= i < w.len() - 1 implies w.drop_last()[i] == #[trigger] w[i] by {}
    }
}


// ---------------------------------------------------------------------------
// Executable steps on one resource
// ---------------------------------------------------------------------------

proof fn lemma_waiting_index_prefix(w: Seq<WaitingEntry>, agent: u64, i: int)
    requires
        0 <= i <= w.len(),
        forall|j: int| 0 <= j < i ==> (#[trigger] w[j]).agent_id != agent,
        i < w.len() ==> w[i].agent_id == agent,
    ensures
        i < w.len() ==> waiting_index(w, agent) == i,
        i == w.len() ==> waiting_index(w, agent) == -1,
    decreases w.len(),
{
    if w.len() > 0 {
        if i < w.len() - 1 {
            lemma_waiting_index_prefix(w.drop_last(), agent, i);
        } else {
            let d = w.drop_last();
            assert forall|j: int| 0 <= j < d.len() implies (#[trigger] d[j]).agent_id != agent by {
                assert(d[j] == w[j]);
            }
            lemma_waiting_index_prefix(d, agent, d.len() as int);
        }
    }
}

fn owners_contain(owners: &Vec<u64>, agent: u64) -> (r: bool)
    ensures
        r == owners@.contains(agent),
{
    let mut i: usize = 0;
    while i < owners.len()
        invariant
            i <= owners@.len(),
            forall|j: int| 0 <= j < i ==> owners@[j] != agent,
        decreases owners@.len() - i,
    {
        if owners[i] == agent {
            assert(owners@[i as int] == agent);
            return true;
        }
        i = i + 1;
    }
    false
}

fn find_waiting(w: &Vec<WaitingEntry>, agent: u64) -> (r: Option<usize>)
    ensures
        r matches Some(i) ==> i as int == waiting_index(w@, agent) && i < w@.len(),
        r is None ==> waiting_index(w@, agent) == -1,
{
    let mut i: usize = 0;
    while i < w.len()
        invariant
            i <= w@.len(),
            forall|j: int| 0 <= j < i ==> (#[trigger] w@[j]).agent_id != agent,
        decreases w@.len() - i,
    {
        if w[i].agent_id == agent {
            proof {
                lemma_waiting_index_prefix(w@, agent, i as int);
            }
            return Some(i);
        }
        i = i + 1;
    }
    proof {
        lemma_waiting_index_prefix(w@, agent, i as int);
    }
    None
}

fn insert_owner(owners: &mut Vec<u64>, x: u64)
    ensures
        final(owners)@ == insert_sorted(old(owners)@, x),
{
    let mut p: usize = 0;
    while p < owners.len() && !(x < owners[p])
        invariant
            p <= owners@.len(),
            forall|j: int| 0 <= j < p ==> !(x < #[trigger] owners@[j]),
        decreases owners@.len() - p,
    {
        p = p + 1;
    }
    proof {
        lemma_insert_sorted_at(owners@, x, p as int);
    }
    owners.insert(p, x);
}

fn insert_waiter(w: &mut Vec<WaitingEntry>, e: WaitingEntry)
    ensures
        final(w)@ == insert_waiting(old(w)@, e),
{
    let mut p: usize = 0;
    while p < w.len() && !(e.agent_id < w[p].agent_id)
        invariant
            p <= w@.len(),
            forall|j: int| 0 <= j < p ==> !(e.agent_id < (#[trigger] w@[j]).agent_id),
        decreases w@.len() - p,
    {
        p = p + 1;
    }
    proof {
        lemma_insert_waiting_at(w@, e, p as int);
    }
    w.insert(p, e);
}

fn best_waiting_position(w: &Vec<WaitingEntry>) -> (b: usize)
    requires
        w@.len() > 0,
    ensures
        b as int == best_waiting(w@),
        b < w@.len(),
{
    let mut b: usize = 0;
    let mut i: usize = 1;
    proof {
        assert(w@.subrange(0, 1).len() == 1);
    }
    while i < w.len()
        invariant
            1 <= i <= w@.len(),
            b < i,
            b as int == best_waiting(w@.subrange(0, i as int)),
        decreases w@.len() - i,
    {
        let ghost pre = w@.subrange(0, i as int + 1);
        proof {
            assert(pre.drop_last() =~= w@.subrange(0, i as int));
            assert(pre.last() == w@[i as int]);
            assert(pre[b as int] == w@[b as int]);
        }
        let better = w[i].priority > w[b].priority || (w[i].priority == w[b].priority
            && w[i].agent_id < w[b].agent_id);
        if better {
            b = i;
        }
        i = i + 1;
    }
    proof {
        assert(w@.subrange(0, i as int) =~= w@);
    }
    b
}

/// Move the best-ranked waiters into free places.
fn promote_waiters(state: &mut ResourceState)
    requires
        old(state).capacity > 0,
        increasing(old(state).owners@),
        waiting_agents_increasing(old(state).waiting@),
        old(state).owners@.len() <= old(state).capacity,
        forall|i: int|
            0 <= i < old(state).waiting@.len() ==> !old(state).owners@.contains(
                #[trigger] old(state).waiting@[i].agent_id,
            ),
    ensures
        final(state).capacity == old(state).capacity,
        (final(state).owners@, final(state).waiting@) == promote(
            old(state).owners@,
            old(state).waiting@,
            old(state).capacity as nat,
        ),
{
    let ghost target = promote(state.owners@, state.waiting@, state.capacity as nat);
    while state.owners.len() < state.capacity && state.waiting.len() > 0
        invariant
            state.capacity == old(state).capacity,
            state.capacity > 0,
            increasing(state.owners@),
            waiting_agents_increasing(state.waiting@),
            state.owners@.len() <= state.capacity,
            forall|i: int|
                0 <= i < state.waiting@.len() ==> !state.owners@.contains(
                    #[trigger] state.waiting@[i].agent_id,
                ),
            promote(state.owners@, state.waiting@, state.capacity as nat) == target,
        decreases state.waiting@.len(),
    {
        let ghost ow = state.owners@;
        let ghost wa = state.waiting@;
        let b = best_waiting_position(&state.waiting);
        let entry = state.waiting.remove(b);
        proof {
            lemma_insert_sorted_facts(ow, entry.agent_id);
            lemma_remove_keeps_increasing(wa, b as int);
            assert forall|i: int| 0 <= i < state.waiting@.len() implies !insert_sorted(ow, entry.agent_id).contains(
                #[trigger] state.waiting@[i].agent_id,
            ) by {
                let oi = if i < b { i } else { i + 1 };
                assert(state.waiting@[i] == wa[oi]);
                assert(wa[oi].agent_id != entry.agent_id);
            }
        }
        insert_owner(&mut state.owners, entry.agent_id);
    }
}

fn count_ranked_before(w: &Vec<WaitingEntry>, t: WaitingEntry) -> (n: usize)
    ensures
        n as nat == count_before(w@, t),
{
    let mut n: usize = 0;
    let mut i: usize = 0;
    while i < w.len()
        invariant
            i <= w@.len(),
            n <= i,
            n as nat == count_before(w@.subrange(0, i as int), t),
        decreases w@.len() - i,
    {
        proof {
            let pre = w@.subrange(0, i as int + 1);
            assert(pre.drop_last() =~= w@.subrange(0, i as int));
            assert(pre.last() == w@[i as int]);
        }
        if w[i].priority > t.priority || (w[i].priority == t.priority && w[i].agent_id < t.agent_id) {
            n = n + 1;
        }
        i = i + 1;
    }
    proof {
        assert(w@.subrange(0, i as int) =~= w@);
    }
    n
}

proof fn lemma_count_before_bound(w: Seq<WaitingEntry>, k: int)
    requires
        0 <= k < w.len(),
    ensures
        count_before(w, w[k]) < w.len(),
    decreases w.len(),
{
    if k < w.len() - 1 {
        lemma_count_before_bound(w.drop_last(), k);
        assert(w.drop_last()[k] == w[k]);
    } else {
        lemma_count_before_le(w.drop_last(), w[k]);
    }
}

proof fn lemma_count_before_le(w: Seq<WaitingEntry>, t: WaitingEntry)
    ensures
        count_before(w, t) <= w.len(),
    decreases w.len(),
{
    if w.len() > 0 {
        lemma_count_before_le(w.drop_last(), t);
    }
}

/// The status of `agent` at one resource.
fn status_for(state: &ResourceState, agent: u64) -> (s: ReservationStatusV1)
    ensures
        s == status_of(state.owners@, state.waiting@, agent),
{
    if owners_contain(&state.owners, agent) {
        return ReservationStatusV1::Granted;
    }
    match find_waiting(&state.waiting, agent) {
        Some(i) => {
            let n = count_ranked_before(&state.waiting, state.waiting[i]);
            let len = state.waiting.len();
            proof {
                lemma_count_before_bound(state.waiting@, i as int);
                assert(n < len);
            }
            ReservationStatusV1::Waiting { ordinal: n + 1 }
        },
        None => ReservationStatusV1::Released,
    }
}


// ---------------------------------------------------------------------------
// Batches of requests
// ---------------------------------------------------------------------------

/// The agents of a waiting line, in line order.
pub open spec fn agents(w: Seq<WaitingEntry>) -> Seq<u64> {
    w.map_values(|e: WaitingEntry| e.agent_id)
}

/// `a` is handled before `b` within one resource's batch.
pub open spec fn request_before(a: ActivityRequestV1, b: ActivityRequestV1) -> bool {
    a.priority > b.priority || (a.priority == b.priority && a.agent_id < b.agent_id)
}

pub open spec fn insert_request(s: Seq<ActivityRequestV1>, q: ActivityRequestV1) -> Seq<ActivityRequestV1>
    decreases s.len(),
{
    if s.len() == 0 {
        seq![q]
    } else if request_before(q, s[0]) {
        seq![q] + s
    } else {
        seq![s[0]] + insert_request(s.drop_first(), q)
    }
}

/// Requests in handling order (stable: ties keep their input order).
pub open spec fn sort_requests(s: Seq<ActivityRequestV1>) -> Seq<ActivityRequestV1>
    decreases s.len(),
{
    if s.len() == 0 {
        Seq::empty()
    } else {
        insert_request(sort_requests(s.drop_last()), s.last())
    }
}

/// Consecutive requests by the same agent collapsed to the first of them.
pub open spec fn dedup_agents(s: Seq<ActivityRequestV1>) -> Seq<ActivityRequestV1>
    decreases s.len(),
{
    if s.len() == 0 {
        Seq::empty()
    } else if s.len() >= 2 && s.last().agent_id == s[s.len() - 2].agent_id {
        dedup_agents(s.drop_last())
    } else {
        dedup_agents(s.drop_last()).push(s.last())
    }
}

/// The requests for resource `rid`, in input order.
pub open spec fn group(reqs: Seq<ActivityRequestV1>, rid: Seq<char>) -> Seq<ActivityRequestV1>
    decreases reqs.len(),
{
    if reqs.len() == 0 {
        Seq::empty()
    } else if reqs.last().resource_id@ == rid {
        group(reqs.drop_last(), rid).push(reqs.last())
    } else {
        group(reqs.drop_last(), rid)
    }
}

/// The resource IDs named by the requests, in order of first mention.
pub open spec fn distinct_ids(reqs: Seq<ActivityRequestV1>) -> Seq<Seq<char>>
    decreases reqs.len(),
{
    if reqs.len() == 0 {
        Seq::empty()
    } else if distinct_ids(reqs.drop_last()).contains(reqs.last().resource_id@) {
        distinct_ids(reqs.drop_last())
    } else {
        distinct_ids(reqs.drop_last()).push(reqs.last().resource_id@)
    }
}

/// One resource's batch, in handling order.
pub open spec fn batch_group(reqs: Seq<ActivityRequestV1>, rid: Seq<char>) -> Seq<ActivityRequestV1> {
    dedup_agents(sort_requests(group(reqs, rid)))
}

/// The waiting line after the batch joins it; an agent already owning or
/// already waiting keeps its place.
pub open spec fn enqueue(owners: Seq<u64>, w: Seq<WaitingEntry>, reqs: Seq<ActivityRequestV1>) -> Seq<WaitingEntry>
    decreases reqs.len(),
{
    if reqs.len() == 0 {
        w
    } else {
        let w1 = enqueue(owners, w, reqs.drop_last());
        let q = reqs.last();
        if owners.contains(q.agent_id) || waiting_index(w1, q.agent_id) >= 0 {
            w1
        } else {
            insert_waiting(w1, WaitingEntry { agent_id: q.agent_id, priority: q.priority })
        }
    }
}

/// A resource model: capacity, owners, waiting line.
pub open spec fn admitted(
    st: (usize, Seq<u64>, Seq<WaitingEntry>),
    batch: Seq<ActivityRequestV1>,
) -> (usize, Seq<u64>, Seq<WaitingEntry>) {
    let p = promote(st.1, enqueue(st.1, st.2, batch), st.0 as nat);
    (st.0, p.0, p.1)
}

/// The resources after the batches of the first `n` of `ids` are applied.
pub open spec fn apply_batch(
    m: Map<Seq<char>, (usize, Seq<u64>, Seq<WaitingEntry>)>,
    reqs: Seq<ActivityRequestV1>,
    ids: Seq<Seq<char>>,
    n: nat,
) -> Map<Seq<char>, (usize, Seq<u64>, Seq<WaitingEntry>)>
    decreases n,
{
    if n == 0 {
        m
    } else {
        let acc = apply_batch(m, reqs, ids, (n - 1) as nat);
        let rid = ids[n - 1];
        if acc.dom().contains(rid) {
            acc.insert(rid, admitted(acc[rid], batch_group(reqs, rid)))
        } else {
            acc
        }
    }
}

/// A status as a comparable value: `Granted` is -1, `Released` -2, `Failed`
/// -3 with its reason, and `Waiting` its ordinal.
pub open spec fn status_view(s: ReservationStatusV1) -> (int, Seq<char>) {
    match s {
        ReservationStatusV1::Granted => (-1, Seq::empty()),
        ReservationStatusV1::Waiting { ordinal } => (ordinal as int, Seq::empty()),
        ReservationStatusV1::Released => (-2, Seq::empty()),
        ReservationStatusV1::Failed { reason } => (-3, reason@),
    }
}

pub open spec fn result_view(r: ReservationResultV1) -> (u64, Seq<char>, (int, Seq<char>)) {
    (r.agent_id, r.resource_id@, status_view(r.status))
}

pub open spec fn result_views(s: Seq<ReservationResultV1>) -> Seq<(u64, Seq<char>, (int, Seq<char>))> {
    s.map_values(|r: ReservationResultV1| result_view(r))
}

/// The results of resource `rid`'s batch against the resources `m`.
pub open spec fn group_results(
    m: Map<Seq<char>, (usize, Seq<u64>, Seq<WaitingEntry>)>,
    reqs: Seq<ActivityRequestV1>,
    rid: Seq<char>,
) -> Seq<(u64, Seq<char>, (int, Seq<char>))> {
    if !m.dom().contains(rid) {
        group(reqs, rid).map_values(
            |q: ActivityRequestV1| (q.agent_id, rid, (-3int, "unknown resource"@)),
        )
    } else {
        let b = batch_group(reqs, rid);
        let a = admitted(m[rid], b);
        b.map_values(
            |q: ActivityRequestV1| (q.agent_id, rid, status_view(status_of(a.1, a.2, q.agent_id))),
        )
    }
}

/// The results of the batches of the first `n` of `ids`, unsorted.
pub open spec fn batch_results(
    m: Map<Seq<char>, (usize, Seq<u64>, Seq<WaitingEntry>)>,
    reqs: Seq<ActivityRequestV1>,
    ids: Seq<Seq<char>>,
    n: nat,
) -> Seq<(u64, Seq<char>, (int, Seq<char>))>
    decreases n,
{
    if n == 0 {
        Seq::empty()
    } else {
        batch_results(m, reqs, ids, (n - 1) as nat) + group_results(
            apply_batch(m, reqs, ids, (n - 1) as nat),
            reqs,
            ids[n - 1],
        )
    }
}

/// Results are reported by agent ID, then resource ID.
pub open spec fn result_before(
    a: (u64, Seq<char>, (int, Seq<char>)),
    b: (u64, Seq<char>, (int, Seq<char>)),
) -> bool {
    a.0 < b.0 || (a.0 == b.0 && text_lt(a.1, b.1))
}

pub open spec fn insert_result(
    s: Seq<(u64, Seq<char>, (int, Seq<char>))>,
    x: (u64, Seq<char>, (int, Seq<char>)),
) -> Seq<(u64, Seq<char>, (int, Seq<char>))>
    decreases s.len(),
{
    if s.len() == 0 {
        seq![x]
    } else if result_before(x, s[0]) {
        seq![x] + s
    } else {
        seq![s[0]] + insert_result(s.drop_first(), x)
    }
}

/// Results in report order (stable).
pub open spec fn sort_results(s: Seq<(u64, Seq<char>, (int, Seq<char>))>) -> Seq<
    (u64, Seq<char>, (int, Seq<char>)),
>
    decreases s.len(),
{
    if s.len() == 0 {
        Seq::empty()
    } else {
        insert_result(sort_results(s.drop_last()), s.last())
    }
}


// ---------------------------------------------------------------------------
// Facts about batches
// ---------------------------------------------------------------------------

proof fn lemma_agents_index(w: Seq<WaitingEntry>, a: u64)
    ensures
        waiting_index(w, a) >= 0 <==> agents(w).contains(a),
{
    lemma_waiting_index_range(w, a);
    if agents(w).contains(a) {
        let i = agents(w).index_of(a);
        lemma_waiting_index_found(w, i);
    }
    if waiting_index(w, a) >= 0 {
        assert(agents(w)[waiting_index(w, a)] == a);
    }
}

proof fn lemma_agents_increasing(w: Seq<WaitingEntry>)
    ensures
        waiting_agents_increasing(w) <==> increasing(agents(w)),
{
    if increasing(agents(w)) {
        assert forall|i: int, j: int| 0 <= i < j < w.len() implies (#[trigger] w[i]).agent_id < (#[trigger] w[j]).agent_id by {
            assert(agents(w)[i] < agents(w)[j]);
        }
    }
}

proof fn lemma_insert_waiting_agents(w: Seq<WaitingEntry>, e: WaitingEntry)
    ensures
        agents(insert_waiting(w, e)) == insert_sorted(agents(w), e.agent_id),
    decreases w.len(),
{
    if w.len() == 0 {
        assert(agents(insert_waiting(w, e)) =~= seq![e.agent_id]);
    } else if e.agent_id < w[0].agent_id {
        assert(agents(insert_waiting(w, e)) =~= seq![e.agent_id] + agents(w));
    } else {
        lemma_insert_waiting_agents(w.drop_first(), e);
        assert(agents(w.drop_first()) =~= agents(w).drop_first());
        assert(agents(insert_waiting(w, e)) =~= seq![w[0].agent_id] + agents(insert_waiting(w.drop_first(), e)));
    }
}

/// Joining a batch keeps the line in agent order, apart from the owners, and
/// places every requester as owner or waiter.
proof fn lemma_enqueue_facts(owners: Seq<u64>, w: Seq<WaitingEntry>, reqs: Seq<ActivityRequestV1>)
    requires
        waiting_agents_increasing(w),
        forall|i: int| 0 <= i < w.len() ==> !owners.contains(#[trigger] w[i].agent_id),
    ensures
        waiting_agents_increasing(enqueue(owners, w, reqs)),
        forall|i: int| 0 <= i < enqueue(owners, w, reqs).len() ==> !owners.contains(
            #[trigger] enqueue(owners, w, reqs)[i].agent_id,
        ),
        forall|a: u64| agents(w).contains(a) ==> agents(enqueue(owners, w, reqs)).contains(a),
        forall|k: int| 0 <= k < reqs.len() ==> (owners.contains(#[trigger] reqs[k].agent_id)
            || agents(enqueue(owners, w, reqs)).contains(reqs[k].agent_id)),
    decreases reqs.len(),
{
    if reqs.len() > 0 {
        let d = reqs.drop_last();
        lemma_enqueue_facts(owners, w, d);
        let w1 = enqueue(owners, w, d);
        let q = reqs.last();
        lemma_agents_index(w1, q.agent_id);
        if !(owners.contains(q.agent_id) || waiting_index(w1, q.agent_id) >= 0) {
            let e = WaitingEntry { agent_id: q.agent_id, priority: q.priority };
            lemma_insert_waiting_agents(w1, e);
            lemma_agents_increasing(w1);
            lemma_insert_sorted_facts(agents(w1), q.agent_id);
            let w2 = insert_waiting(w1, e);
            lemma_agents_increasing(w2);
            assert forall|i: int| 0 <= i < w2.len() implies !owners.contains(#[trigger] w2[i].agent_id) by {
                assert(agents(w2)[i] == w2[i].agent_id);
                assert(agents(w2).contains(w2[i].agent_id));
                if w2[i].agent_id != q.agent_id {
                    assert(agents(w1).contains(w2[i].agent_id));
                    let j = agents(w1).index_of(w2[i].agent_id);
                    assert(w1[j].agent_id == w2[i].agent_id);
                }
            }
        }
        assert forall|k: int| 0 <= k < reqs.len() implies (owners.contains(#[trigger] reqs[k].agent_id)
            || agents(enqueue(owners, w, reqs)).contains(reqs[k].agent_id)) by {
            if k < reqs.len() - 1 {
                assert(d[k] == reqs[k]);
            }
        }
    }
}

proof fn lemma_insert_request_at(s: Seq<ActivityRequestV1>, q: ActivityRequestV1, p: int)
    requires
        0 <= p <= s.len(),
        forall|j: int| 0 <= j < p ==> !request_before(q, #[trigger] s[j]),
        p < s.len() ==> request_before(q, s[p]),
    ensures
        insert_request(s, q) == s.insert(p, q),
    decreases s.len(),
{
    if p == 0 {
        if s.len() > 0 {
            assert(seq![q] + s =~= s.insert(0, q));
        } else {
            assert(seq![q] =~= s.insert(0, q));
        }
    } else {
        let t = s.drop_first();
        assert forall|j: int| 0 <= j < p - 1 implies !request_before(q, #[trigger] t[j]) by {
            assert(t[j] == s[j + 1]);
        }
        lemma_insert_request_at(t, q, p - 1);
        assert(seq![s[0]] + t.insert(p - 1, q) =~= s.insert(p, q));
    }
}

proof fn lemma_insert_result_at(
    s: Seq<(u64, Seq<char>, (int, Seq<char>))>,
    x: (u64, Seq<char>, (int, Seq<char>)),
    p: int,
)
    requires
        0 <= p <= s.len(),
        forall|j: int| 0 <= j < p ==> !result_before(x, #[trigger] s[j]),
        p < s.len() ==> result_before(x, s[p]),
    ensures
        insert_result(s, x) == s.insert(p, x),
    decreases s.len(),
{
    if p == 0 {
        if s.len() > 0 {
            assert(seq![x] + s =~= s.insert(0, x));
        } else {
            assert(seq![x] =~= s.insert(0, x));
        }
    } else {
        let t = s.drop_first();
        assert forall|j: int| 0 <= j < p - 1 implies !result_before(x, #[trigger] t[j]) by {
            assert(t[j] == s[j + 1]);
        }
        lemma_insert_result_at(t, x, p - 1);
        assert(seq![s[0]] + t.insert(p - 1, x) =~= s.insert(p, x));
    }
}

// ---------------------------------------------------------------------------
// Executable batch steps
// ---------------------------------------------------------------------------

fn copy_request(q: &ActivityRequestV1) -> (r: ActivityRequestV1)
    ensures
        r == *q,
{
    ActivityRequestV1 { agent_id: q.agent_id, resource_id: q.resource_id.clone(), priority: q.priority }
}

fn distinct_resource_ids(requests: &[ActivityRequestV1]) -> (ids: Vec<String>)
    ensures
        crate::text::views(ids@) == distinct_ids(requests@),
{
    let mut ids: Vec<String> = Vec::new();
    let mut i: usize = 0;
    while i < requests.len()
        invariant
            i <= requests@.len(),
            crate::text::views(ids@) == distinct_ids(requests@.subrange(0, i as int)),
        decreases requests@.len() - i,
    {
        let ghost pre = requests@.subrange(0, i as int + 1);
        proof {
            assert(pre.drop_last() =~= requests@.subrange(0, i as int));
            assert(pre.last() == requests@[i as int]);
        }
        let rid = requests[i].resource_id.as_str();
        let seen = crate::text::contains_text(&ids, rid);
        proof {
            let v = crate::text::views(ids@);
            if seen {
                let k = choose|k: int| 0 <= k < ids@.len() && (#[trigger] ids@[k])@ == rid@;
                assert(v[k] == rid@);
                assert(v.contains(rid@));
            } else {
                assert forall|j: int| 0 <= j < v.len() implies v[j] != rid@ by {
                    assert(v[j] == ids@[j]@);
                }
            }
        }
        if !seen {
            crate::text::push_message(&mut ids, String::from_str(rid));
        }
        i = i + 1;
    }
    proof {
        assert(requests@.subrange(0, i as int) =~= requests@);
    }
    ids
}

fn requests_for(requests: &[ActivityRequestV1], rid: &str) -> (g: Vec<ActivityRequestV1>)
    ensures
        g@ == group(requests@, rid@),
{
    let mut g: Vec<ActivityRequestV1> = Vec::new();
    let mut i: usize = 0;
    while i < requests.len()
        invariant
            i <= requests@.len(),
            g@ == group(requests@.subrange(0, i as int), rid@),
        decreases requests@.len() - i,
    {
        proof {
            let pre = requests@.subrange(0, i as int + 1);
            assert(pre.drop_last() =~= requests@.subrange(0, i as int));
            assert(pre.last() == requests@[i as int]);
        }
        if str_eq(requests[i].resource_id.as_str(), rid) {
            g.push(copy_request(&requests[i]));
        }
        i = i + 1;
    }
    proof {
        assert(requests@.subrange(0, i as int) =~= requests@);
    }
    g
}

fn sort_requests_exec(input: Vec<ActivityRequestV1>) -> (out: Vec<ActivityRequestV1>)
    ensures
        out@ == sort_requests(input@),
{
    let ghost orig = input@;
    let total = input.len();
    let mut rest = input;
    let mut out: Vec<ActivityRequestV1> = Vec::new();
    let mut i: usize = 0;
    while rest.len() > 0
        invariant
            total == orig.len(),
            i <= orig.len(),
            rest@ == orig.subrange(i as int, orig.len() as int),
            out@ == sort_requests(orig.subrange(0, i as int)),
        decreases rest@.len(),
    {
        let q = rest.remove(0);
        proof {
            let pre = orig.subrange(0, i as int + 1);
            assert(pre.drop_last() =~= orig.subrange(0, i as int));
            assert(pre.last() == q);
        }
        let mut p: usize = 0;
        while p < out.len() && !(q.priority > out[p].priority || (q.priority == out[p].priority
            && q.agent_id < out[p].agent_id))
            invariant
                p <= out@.len(),
                forall|j: int| 0 <= j < p ==> !request_before(q, #[trigger] out@[j]),
            decreases out@.len() - p,
        {
            p = p + 1;
        }
        proof {
            lemma_insert_request_at(out@, q, p as int);
        }
        out.insert(p, q);
        i = i + 1;
    }
    proof {
        assert(orig.subrange(0, i as int) =~= orig);
    }
    out
}

fn dedup_agents_exec(input: &Vec<ActivityRequestV1>) -> (out: Vec<ActivityRequestV1>)
    ensures
        out@ == dedup_agents(input@),
{
    let mut out: Vec<ActivityRequestV1> = Vec::new();
    let mut i: usize = 0;
    while i < input.len()
        invariant
            i <= input@.len(),
            out@ == dedup_agents(input@.subrange(0, i as int)),
        decreases input@.len() - i,
    {
        proof {
            let pre = input@.subrange(0, i as int + 1);
            assert(pre.drop_last() =~= input@.subrange(0, i as int));
            assert(pre.last() == input@[i as int]);
            if i >= 1 {
                assert(pre[pre.len() - 2] == input@[i - 1]);
            }
        }
        if !(i >= 1 && input[i].agent_id == input[i - 1].agent_id) {
            out.push(copy_request(&input[i]));
        }
        i = i + 1;
    }
    proof {
        assert(input@.subrange(0, i as int) =~= input@);
    }
    out
}

fn enqueue_requests(state: &mut ResourceState, reqs: &Vec<ActivityRequestV1>)
    requires
        waiting_agents_increasing(old(state).waiting@),
        forall|i: int|
            0 <= i < old(state).waiting@.len() ==> !old(state).owners@.contains(
                #[trigger] old(state).waiting@[i].agent_id,
            ),
    ensures
        final(state).capacity == old(state).capacity,
        final(state).owners@ == old(state).owners@,
        final(state).waiting@ == enqueue(old(state).owners@, old(state).waiting@, reqs@),
{
    let mut i: usize = 0;
    while i < reqs.len()
        invariant
            i <= reqs@.len(),
            state.capacity == old(state).capacity,
            state.owners@ == old(state).owners@,
            state.waiting@ == enqueue(old(state).owners@, old(state).waiting@, reqs@.subrange(0, i as int)),
            waiting_agents_increasing(old(state).waiting@),
            forall|i: int|
                0 <= i < old(state).waiting@.len() ==> !old(state).owners@.contains(
                    #[trigger] old(state).waiting@[i].agent_id,
                ),
        decreases reqs@.len() - i,
    {
        proof {
            let pre = reqs@.subrange(0, i as int + 1);
            assert(pre.drop_last() =~= reqs@.subrange(0, i as int));
            assert(pre.last() == reqs@[i as int]);
        }
        let q = &reqs[i];
        let owned = owners_contain(&state.owners, q.agent_id);
        let waiting = find_waiting(&state.waiting, q.agent_id);
        if !owned && waiting.is_none() {
            insert_waiter(&mut state.waiting, WaitingEntry { agent_id: q.agent_id, priority: q.priority });
        }
        i = i + 1;
    }
    proof {
        assert(reqs@.subrange(0, i as int) =~= reqs@);
    }
}

fn sort_results_exec(input: Vec<ReservationResultV1>) -> (out: Vec<ReservationResultV1>)
    ensures
        result_views(out@) == sort_results(result_views(input@)),
{
    let ghost orig = input@;
    let total = input.len();
    let mut rest = input;
    let mut out: Vec<ReservationResultV1> = Vec::new();
    let mut i: usize = 0;
    while rest.len() > 0
        invariant
            total == orig.len(),
            i <= orig.len(),
            rest@ == orig.subrange(i as int, orig.len() as int),
            result_views(out@) == sort_results(result_views(orig.subrange(0, i as int))),
        decreases rest@.len(),
    {
        let x = rest.remove(0);
        proof {
            let pre = result_views(orig.subrange(0, i as int + 1));
            assert(pre.drop_last() =~= result_views(orig.subrange(0, i as int)));
            assert(pre.last() == result_view(x));
        }
        let mut p: usize = 0;
        while p < out.len() && !(x.agent_id < out[p].agent_id || (x.agent_id == out[p].agent_id
            && compare_str(x.resource_id.as_str(), out[p].resource_id.as_str()) == TextOrder::Less))
            invariant
                p <= out@.len(),
                forall|j: int| 0 <= j < p ==> !result_before(result_view(x), #[trigger] result_views(out@)[j]),
            decreases out@.len() - p,
        {
            p = p + 1;
        }
        proof {
            lemma_insert_result_at(result_views(out@), result_view(x), p as int);
        }
        let ghost before = out@;
        out.insert(p, x);
        proof {
            assert(result_views(out@) =~= result_views(before).insert(p as int, result_view(x)));
        }
        i = i + 1;
    }
    proof {
        assert(orig.subrange(0, i as int) =~= orig);
    }
    out
}


// ---------------------------------------------------------------------------
// The runtime
// ---------------------------------------------------------------------------

/// A resource's state as a value: capacity, owners, waiting line.
pub open spec fn state_model(st: ResourceState) -> (usize, Seq<u64>, Seq<WaitingEntry>) {
    (st.capacity, st.owners@, st.waiting@)
}

/// Every resource is well formed: never over capacity, nobody waiting while a
/// place is free, owners and waiters disjoint.
pub open spec fn model_wf(m: Map<Seq<char>, (usize, Seq<u64>, Seq<WaitingEntry>)>) -> bool {
    forall|k: Seq<char>| #[trigger] m.dom().contains(k) ==> resource_wf(m[k].0, m[k].1, m[k].2)
}

/// 0 when resource declaration `i` is acceptable; 1 for an empty ID, 2 for
/// zero capacity, 3 for an ID declared before.
pub open spec fn resource_problem(rs: Seq<ResourceV1>, i: int) -> int {
    if rs[i].id@.len() == 0 {
        1
    } else if rs[i].capacity == 0 {
        2
    } else if exists|j: int| 0 <= j < i && (#[trigger] rs[j]).id@ == rs[i].id@ {
        3
    } else {
        0
    }
}

/// The first unacceptable declaration among the first `n`, or -1.
pub open spec fn first_problem(rs: Seq<ResourceV1>, n: nat) -> int
    decreases n,
{
    if n == 0 {
        -1
    } else if first_problem(rs, (n - 1) as nat) >= 0 {
        first_problem(rs, (n - 1) as nat)
    } else if resource_problem(rs, n - 1) != 0 {
        n - 1
    } else {
        -1
    }
}

/// The resources declared by the first `n` declarations, all free.
pub open spec fn initial_model(rs: Seq<ResourceV1>, n: nat) -> Map<
    Seq<char>,
    (usize, Seq<u64>, Seq<WaitingEntry>),
>
    decreases n,
{
    if n == 0 {
        Map::empty()
    } else {
        initial_model(rs, (n - 1) as nat).insert(
            rs[n - 1].id@,
            (rs[n - 1].capacity, Seq::empty(), Seq::empty()),
        )
    }
}

/// A resource after `agent` leaves it, as owner or waiter. A freed place goes
/// to the best-ranked waiter.
pub open spec fn release_model(st: (usize, Seq<u64>, Seq<WaitingEntry>), agent: u64) -> (
    usize,
    Seq<u64>,
    Seq<WaitingEntry>,
) {
    let o = st.1;
    let w = st.2;
    let o2 = if o.contains(agent) {
        o.remove(o.index_of(agent))
    } else {
        o
    };
    let wi = waiting_index(w, agent);
    let w2 = if wi >= 0 {
        w.remove(wi)
    } else {
        w
    };
    if o.contains(agent) {
        let p = promote(o2, w2, st.0 as nat);
        (st.0, p.0, p.1)
    } else {
        (st.0, o2, w2)
    }
}

#[derive(Debug)]
pub struct ReservationRuntimeV1 {
    resources: TextMap<ResourceState>,
}

proof fn lemma_first_problem_stable(rs: Seq<ResourceV1>, m: nat, n: nat)
    requires
        m <= n,
        first_problem(rs, m) >= 0,
    ensures
        first_problem(rs, n) == first_problem(rs, m),
    decreases n,
{
    if n > m {
        lemma_first_problem_stable(rs, m, (n - 1) as nat);
    }
}

proof fn lemma_initial_model_dom(rs: Seq<ResourceV1>, n: nat, k: Seq<char>)
    requires
        n <= rs.len(),
    ensures
        initial_model(rs, n).dom().contains(k) <==> exists|j: int| 0 <= j < n && (#[trigger] rs[j]).id@ == k,
    decreases n,
{
    if n > 0 {
        lemma_initial_model_dom(rs, (n - 1) as nat, k);
        if rs[n - 1].id@ == k {
            assert(rs[n - 1].id@ == k);
        }
    }
}

proof fn lemma_remove_u64_increasing(o: Seq<u64>, i: int)
    requires
        increasing(o),
        0 <= i < o.len(),
    ensures
        increasing(o.remove(i)),
        forall|x: u64| o.remove(i).contains(x) ==> o.contains(x) && x != o[i],
{
    let r = o.remove(i);
    assert forall|a: int, b: int| 0 <= a < b < r.len() implies r[a] < r[b] by {
        let oa = if a < i { a } else { a + 1 };
        let ob = if b < i { b } else { b + 1 };
        assert(r[a] == o[oa] && r[b] == o[ob]);
    }
    assert forall|x: u64| r.contains(x) implies o.contains(x) && x != o[i] by {
        let a = r.index_of(x);
        let oa = if a < i { a } else { a + 1 };
        assert(r[a] == o[oa]);
    }
}

/// Releasing keeps the resource well formed.
proof fn lemma_release_wf(st: (usize, Seq<u64>, Seq<WaitingEntry>), agent: u64)
    requires
        resource_wf(st.0, st.1, st.2),
    ensures
        resource_wf(release_model(st, agent).0, release_model(st, agent).1, release_model(st, agent).2),
{
    let o = st.1;
    let w = st.2;
    let wi = waiting_index(w, agent);
    lemma_waiting_index_range(w, agent);
    let o2 = if o.contains(agent) { o.remove(o.index_of(agent)) } else { o };
    let w2 = if wi >= 0 { w.remove(wi) } else { w };
    if o.contains(agent) {
        lemma_remove_u64_increasing(o, o.index_of(agent));
    }
    if wi >= 0 {
        lemma_remove_keeps_increasing(w, wi);
    }
    assert forall|i: int| 0 <= i < w2.len() implies !o2.contains(#[trigger] w2[i].agent_id) by {
        let oi = if wi >= 0 && i >= wi { i + 1 } else { i };
        assert(w2[i] == w[oi]);
    }
    if o.contains(agent) {
        lemma_promote_wf(o2, w2, st.0);
    } else {
        if wi >= 0 {
            assert(w.len() > 0);
        }
    }
}

impl ReservationRuntimeV1 {
    /// Every resource's state, by resource ID.
    pub closed spec fn model(&self) -> Map<Seq<char>, (usize, Seq<u64>, Seq<WaitingEntry>)> {
        self.resources.as_map().map_values(|st: ResourceState| state_model(st))
    }

    pub closed spec fn wf(&self) -> bool {
        self.resources.wf() && model_wf(self.model())
    }

    proof fn lemma_model_at(&self, i: int)
        requires
            self.resources.wf(),
            0 <= i < self.resources.keys().len(),
        ensures
            self.model().dom().contains(self.resources.keys()[i]),
            self.model()[self.resources.keys()[i]] == state_model(self.resources.values()[i]),
    {
        self.resources.lemma_lookup(i);
    }

    pub fn new(resources: Vec<ResourceV1>) -> (r: Result<Self, ActivityError>)
        ensures
            r is Ok <==> first_problem(resources@, resources@.len()) < 0,
            r matches Ok(rt) ==> rt.wf() && model_wf(rt.model()) && rt.model() == initial_model(
                resources@,
                resources@.len(),
            ),
            r is Err ==> ({
                let k = first_problem(resources@, resources@.len());
                0 <= k < resources@.len() && match r->Err_0 {
                    ActivityError::EmptyResource => resource_problem(resources@, k) == 1,
                    ActivityError::ZeroCapacity(id) => resource_problem(resources@, k) == 2
                        && id@ == resources@[k].id@,
                    ActivityError::DuplicateResource(id) => resource_problem(resources@, k) == 3
                        && id@ == resources@[k].id@,
                    _ => false,
                }
            }),
    {
        let ghost input = resources@;
        let total = resources.len();
        let mut rest = resources;
        let mut states: TextMap<ResourceState> = TextMap::new();
        let mut i: usize = 0;
        while rest.len() > 0
            invariant
                total == input.len(),
                input == resources@,
                i <= input.len(),
                rest@ == input.subrange(i as int, input.len() as int),
                states.wf(),
                states.as_map().map_values(|st: ResourceState| state_model(st)) == initial_model(input, i as nat),
                model_wf(initial_model(input, i as nat)),
                first_problem(input, i as nat) < 0,
            decreases rest@.len(),
        {
            let resource = rest.remove(0);
            assert(resource == input[i as int]);
            if resource.id.as_str().is_empty() {
                proof {
                    assert(resource_problem(input, i as int) != 0);
                    assert(first_problem(input, (i + 1) as nat) == i as int);
                    lemma_first_problem_stable(input, (i + 1) as nat, input.len());
                }
                return Err(ActivityError::EmptyResource);
            }
            if resource.capacity == 0 {
                proof {
                    assert(resource_problem(input, i as int) != 0);
                    assert(first_problem(input, (i + 1) as nat) == i as int);
                    lemma_first_problem_stable(input, (i + 1) as nat, input.len());
                }
                return Err(ActivityError::ZeroCapacity(resource.id));
            }
            let ghost before = states.as_map();
            proof {
                lemma_initial_model_dom(input, i as nat, resource.id@);
                assert(before.dom() =~= initial_model(input, i as nat).dom());
            }
            let key = resource.id.clone();
            let previous = states.insert(
                key,
                ResourceState { capacity: resource.capacity, owners: Vec::new(), waiting: Vec::new() },
            );
            if previous.is_some() {
                proof {
                    let j = choose|j: int| 0 <= j < i && (#[trigger] input[j]).id@ == resource.id@;
                    assert(resource_problem(input, i as int) == 3);
                    assert(resource_problem(input, i as int) != 0);
                    assert(first_problem(input, (i + 1) as nat) == i as int);
                    lemma_first_problem_stable(input, (i + 1) as nat, input.len());
                }
                return Err(ActivityError::DuplicateResource(resource.id));
            }
            proof {
                assert(states.as_map().map_values(|st: ResourceState| state_model(st)) =~= initial_model(input, (i + 1) as nat));
                assert(forall|j: int| 0 <= j < i ==> (#[trigger] input[j]).id@ != input[i as int].id@);
            }
            i = i + 1;
        }
        proof {
            assert(input.subrange(0, i as int) =~= input);
        }
        let rt = Self { resources: states };
        Ok(rt)
    }

    /// The status of `agent` at resource `resource_id`.
    pub fn status(&self, agent_id: u64, resource_id: &str) -> (s: ReservationStatusV1)
        requires
            self.wf(),
        ensures
            !self.model().dom().contains(resource_id@) ==> (s matches ReservationStatusV1::Failed { reason }
                && reason@ == "unknown resource"@),
            self.model().dom().contains(resource_id@) ==> s == status_of(
                self.model()[resource_id@].1,
                self.model()[resource_id@].2,
                agent_id,
            ),
    {
        match self.resources.find(resource_id) {
            None => ReservationStatusV1::Failed { reason: String::from_str("unknown resource") },
            Some(i) => {
                proof {
                    self.lemma_model_at(i as int);
                }
                status_for(self.resources.value_at(i), agent_id)
            },
        }
    }

    /// The owners of `resource_id`, in ID order; none for an unknown resource.
    pub fn owners(&self, resource_id: &str) -> (r: Vec<u64>)
        requires
            self.wf(),
        ensures
            !self.model().dom().contains(resource_id@) ==> r@.len() == 0,
            self.model().dom().contains(resource_id@) ==> r@ == self.model()[resource_id@].1,
    {
        match self.resources.find(resource_id) {
            None => Vec::new(),
            Some(i) => {
                proof {
                    self.lemma_model_at(i as int);
                }
                let st = self.resources.value_at(i);
                let mut out: Vec<u64> = Vec::new();
                let mut k: usize = 0;
                while k < st.owners.len()
                    invariant
                        k <= st.owners@.len(),
                        out@ == st.owners@.subrange(0, k as int),
                    decreases st.owners@.len() - k,
                {
                    out.push(st.owners[k]);
                    proof {
                        assert(out@ =~= st.owners@.subrange(0, k as int + 1));
                    }
                    k = k + 1;
                }
                proof {
                    assert(st.owners@.subrange(0, k as int) =~= st.owners@);
                }
                out
            },
        }
    }

    fn run_group(
        &mut self,
        requests: &[ActivityRequestV1],
        rid: &String,
        collected: &mut Vec<ReservationResultV1>,
    )
        requires
            old(self).wf(),
        ensures
            final(self).wf(),
            final(self).model() == (if old(self).model().dom().contains(rid@) {
                old(self).model().insert(
                    rid@,
                    admitted(old(self).model()[rid@], batch_group(requests@, rid@)),
                )
            } else {
                old(self).model()
            }),
            result_views(final(collected)@) == result_views(old(collected)@) + group_results(
                old(self).model(),
                requests@,
                rid@,
            ),
    {
        let group = requests_for(requests, rid.as_str());
        let ghost m0 = self.model();
        let ghost c0 = result_views(collected@);
        match self.resources.find(rid.as_str()) {
            None => {
                let mut k: usize = 0;
                while k < group.len()
                    invariant
                        k <= group@.len(),
                        !m0.dom().contains(rid@),
                        group@ == crate::reservation::group(requests@, rid@),
                        result_views(collected@) == c0 + group@.subrange(0, k as int).map_values(
                            |q: ActivityRequestV1| (q.agent_id, rid@, (-3int, "unknown resource"@)),
                        ),
                    decreases group@.len() - k,
                {
                    let result = ReservationResultV1 {
                        agent_id: group[k].agent_id,
                        resource_id: rid.clone(),
                        status: ReservationStatusV1::Failed { reason: String::from_str("unknown resource") },
                    };
                    let ghost rv = result_view(result);
                    let ghost before = collected@;
                    collected.push(result);
                    proof {
                        assert(rv == (group@[k as int].agent_id, rid@, (-3int, "unknown resource"@)));
                        assert(result_views(collected@) =~= result_views(before).push(rv));
                        assert(group@.subrange(0, k as int + 1).map_values(
                            |q: ActivityRequestV1| (q.agent_id, rid@, (-3int, "unknown resource"@)),
                        ) =~= group@.subrange(0, k as int).map_values(
                            |q: ActivityRequestV1| (q.agent_id, rid@, (-3int, "unknown resource"@)),
                        ).push(rv));
                        assert(result_views(collected@) =~= c0 + group@.subrange(0, k as int + 1).map_values(
                            |q: ActivityRequestV1| (q.agent_id, rid@, (-3int, "unknown resource"@)),
                        ));
                    }
                    k = k + 1;
                }
                proof {
                    assert(group@.subrange(0, k as int) =~= group@);
                }
            },
            Some(i) => {
                proof {
                    self.lemma_model_at(i as int);
                }
                let sorted = sort_requests_exec(group);
                let batch = dedup_agents_exec(&sorted);
                let ghost key = self.resources.keys()[i as int];
                let mut st = self.resources.replace_at(
                    i,
                    ResourceState { capacity: 1, owners: Vec::new(), waiting: Vec::new() },
                );
                let ghost st0 = state_model(st);
                assert(st0 == m0[rid@]);
                enqueue_requests(&mut st, &batch);
                proof {
                    lemma_enqueue_facts(st0.1, st0.2, batch@);
                    lemma_promote_wf(st.owners@, st.waiting@, st.capacity);
                }
                promote_waiters(&mut st);
                let ghost a = admitted(st0, batch@);
                assert(state_model(st) == a);
                let mut k: usize = 0;
                while k < batch.len()
                    invariant
                        k <= batch@.len(),
                        batch@ == batch_group(requests@, rid@),
                        m0.dom().contains(rid@),
                        state_model(st) == a,
                        a == admitted(m0[rid@], batch@),
                        result_views(collected@) == c0 + batch@.subrange(0, k as int).map_values(
                            |q: ActivityRequestV1| (q.agent_id, rid@, status_view(status_of(a.1, a.2, q.agent_id))),
                        ),
                    decreases batch@.len() - k,
                {
                    let status = status_for(&st, batch[k].agent_id);
                    let result = ReservationResultV1 {
                        agent_id: batch[k].agent_id,
                        resource_id: rid.clone(),
                        status,
                    };
                    let ghost rv = result_view(result);
                    let ghost before = collected@;
                    collected.push(result);
                    proof {
                        assert(rv == (batch@[k as int].agent_id, rid@, status_view(status_of(a.1, a.2, batch@[k as int].agent_id))));
                        assert(result_views(collected@) =~= result_views(before).push(rv));
                        assert(batch@.subrange(0, k as int + 1).map_values(
                            |q: ActivityRequestV1| (q.agent_id, rid@, status_view(status_of(a.1, a.2, q.agent_id))),
                        ) =~= batch@.subrange(0, k as int).map_values(
                            |q: ActivityRequestV1| (q.agent_id, rid@, status_view(status_of(a.1, a.2, q.agent_id))),
                        ).push(rv));
                        assert(result_views(collected@) =~= c0 + batch@.subrange(0, k as int + 1).map_values(
                            |q: ActivityRequestV1| (q.agent_id, rid@, status_view(status_of(a.1, a.2, q.agent_id))),
                        ));
                    }
                    k = k + 1;
                }
                proof {
                    assert(batch@.subrange(0, k as int) =~= batch@);
                }
                self.resources.replace_at(i, st);
                proof {
                    assert(self.model() =~= m0.insert(rid@, a));
                    assert forall|k2: Seq<char>| #[trigger] self.model().dom().contains(k2) implies resource_wf(
                        self.model()[k2].0,
                        self.model()[k2].1,
                        self.model()[k2].2,
                    ) by {
                        if k2 != rid@ {
                            assert(m0.dom().contains(k2));
                        }
                    }
                }
            },
        }
    }

    /// Submit a batch of requests. Each resource's requests are handled in
    /// priority order (ties by agent ID); an agent already owning or waiting
    /// keeps its place; free places then go to the best-ranked waiters.
    /// Results are reported by agent ID, then resource ID.
    pub fn request_batch(&mut self, requests: &[ActivityRequestV1]) -> (r: Vec<ReservationResultV1>)
        requires
            old(self).wf(),
        ensures
            final(self).wf(),
            model_wf(final(self).model()),
            final(self).model() == apply_batch(
                old(self).model(),
                requests@,
                distinct_ids(requests@),
                distinct_ids(requests@).len(),
            ),
            result_views(r@) == sort_results(
                batch_results(
                    old(self).model(),
                    requests@,
                    distinct_ids(requests@),
                    distinct_ids(requests@).len(),
                ),
            ),
    {
        let ids = distinct_resource_ids(requests);
        let ghost idv = distinct_ids(requests@);
        let ghost m0 = self.model();
        let mut collected: Vec<ReservationResultV1> = Vec::new();
        let mut k: usize = 0;
        while k < ids.len()
            invariant
                k <= ids@.len(),
                crate::text::views(ids@) == idv,
                self.wf(),
                self.model() == apply_batch(m0, requests@, idv, k as nat),
                result_views(collected@) == batch_results(m0, requests@, idv, k as nat),
            decreases ids@.len() - k,
        {
            assert(ids@[k as int]@ == idv[k as int]);
            self.run_group(requests, &ids[k], &mut collected);
            k = k + 1;
        }
        sort_results_exec(collected)
    }

    /// `agent` leaves `resource_id`; returns whether it owned a place there.
    pub fn release(&mut self, agent_id: u64, resource_id: &str) -> (released: bool)
        requires
            old(self).wf(),
        ensures
            final(self).wf(),
            model_wf(final(self).model()),
            !old(self).model().dom().contains(resource_id@) ==> !released && final(self).model()
                == old(self).model(),
            old(self).model().dom().contains(resource_id@) ==> released == old(self).model()[resource_id@].1.contains(
                agent_id,
            ) && final(self).model() == old(self).model().insert(
                resource_id@,
                release_model(old(self).model()[resource_id@], agent_id),
            ),
    {
        match self.resources.find(resource_id) {
            None => false,
            Some(i) => {
                proof {
                    self.lemma_model_at(i as int);
                }
                let ghost key = self.resources.keys()[i as int];
                let ghost m0 = self.model();
                let mut st = self.resources.replace_at(
                    i,
                    ResourceState { capacity: 1, owners: Vec::new(), waiting: Vec::new() },
                );
                let ghost st0 = state_model(st);
                assert(st0 == m0[key]);
                let mut released = false;
                let mut k: usize = 0;
                while k < st.owners.len() && st.owners[k] != agent_id
                    invariant
                        k <= st.owners@.len(),
                        forall|j: int| 0 <= j < k ==> st.owners@[j] != agent_id,
                    decreases st.owners@.len() - k,
                {
                    k = k + 1;
                }
                if k < st.owners.len() {
                    proof {
                        assert(st.owners@.contains(agent_id));
                        lemma_remove_u64_increasing(st.owners@, k as int);
                        assert(st.owners@.index_of(agent_id) == k) by {
                            let j = st.owners@.index_of(agent_id);
                            if j != k {
                                if j < k {
                                } else {
                                    assert(st.owners@[k as int] == agent_id);
                                }
                            }
                        }
                    }
                    st.owners.remove(k);
                    released = true;
                } else {
                    proof {
                        assert(!st.owners@.contains(agent_id)) by {
                            if st.owners@.contains(agent_id) {
                                let j = st.owners@.index_of(agent_id);
                                assert(st.owners@[j] == agent_id);
                            }
                        }
                    }
                }
                match find_waiting(&st.waiting, agent_id) {
                    Some(w) => {
                        st.waiting.remove(w);
                    },
                    None => {},
                }
                proof {
                    lemma_release_wf(st0, agent_id);
                    let o = st0.1;
                    let w = st0.2;
                    let wi = waiting_index(w, agent_id);
                    lemma_waiting_index_range(w, agent_id);
                    let o2 = if o.contains(agent_id) { o.remove(o.index_of(agent_id)) } else { o };
                    let w2 = if wi >= 0 { w.remove(wi) } else { w };
                    assert(st.owners@ == o2);
                    assert(st.waiting@ == w2);
                    if released {
                        lemma_remove_u64_increasing(o, o.index_of(agent_id));
                        if wi >= 0 {
                            lemma_remove_keeps_increasing(w, wi);
                        }
                        assert forall|i: int| 0 <= i < w2.len() implies !o2.contains(#[trigger] w2[i].agent_id) by {
                            let oi = if wi >= 0 && i >= wi { i + 1 } else { i };
                            assert(w2[i] == w[oi]);
                        }
                    }
                }
                if released {
                    promote_waiters(&mut st);
                }
                proof {
                    assert(state_model(st) == release_model(st0, agent_id));
                }
                self.resources.replace_at(i, st);
                proof {
                    assert(self.model() =~= m0.insert(key, release_model(st0, agent_id)));
                    assert forall|k2: Seq<char>| #[trigger] self.model().dom().contains(k2) implies resource_wf(
                        self.model()[k2].0,
                        self.model()[k2].1,
                        self.model()[k2].2,
                    ) by {
                        if k2 != key {
                            assert(m0.dom().contains(k2));
                        }
                    }
                }
                released
            },
        }
    }
}


// ---------------------------------------------------------------------------
// Laws
// ---------------------------------------------------------------------------

proof fn lemma_promote_subset(owners: Seq<u64>, waiting: Seq<WaitingEntry>, capacity: nat, x: u64)
    requires
        waiting_agents_increasing(waiting),
    ensures
        promote(owners, waiting, capacity).0.contains(x) ==> owners.contains(x) || agents(waiting).contains(x),
        agents(promote(owners, waiting, capacity).1).contains(x) ==> agents(waiting).contains(x),
    decreases waiting.len(),
{
    if owners.len() < capacity && waiting.len() > 0 {
        let b = best_waiting(waiting);
        lemma_best_waiting_in_range(waiting);
        let y = waiting[b].agent_id;
        let o2 = insert_sorted(owners, y);
        let w2 = waiting.remove(b);
        lemma_remove_keeps_increasing(waiting, b);
        lemma_promote_subset(o2, w2, capacity, x);
        if o2.contains(x) {
            lemma_insert_sorted_contains(owners, y, x);
            if x == y {
                assert(agents(waiting)[b] == y);
            }
        }
        if agents(w2).contains(x) {
            let i = agents(w2).index_of(x);
            let oi = if i < b { i } else { i + 1 };
            assert(w2[i] == waiting[oi]);
            assert(agents(waiting)[oi] == x);
        }
    }
}

proof fn lemma_insert_sorted_contains(s: Seq<u64>, y: u64, x: u64)
    ensures
        insert_sorted(s, y).contains(x) ==> x == y || s.contains(x),
    decreases s.len(),
{
    if s.len() > 0 && !(y < s[0]) {
        lemma_insert_sorted_contains(s.drop_first(), y, x);
        let r = insert_sorted(s, y);
        if r.contains(x) {
            let i = r.index_of(x);
            if i > 0 {
                assert(insert_sorted(s.drop_first(), y)[i - 1] == x);
                if s.drop_first().contains(x) {
                    let j = s.drop_first().index_of(x);
                    assert(s[j + 1] == x);
                }
            }
        }
    } else if s.len() > 0 {
        let r = insert_sorted(s, y);
        if r.contains(x) {
            let i = r.index_of(x);
            if i > 0 {
                assert(s[i - 1] == x);
            }
        }
    }
}

/// An owner that releases its place holds no place afterwards and is not
/// waiting either.
pub proof fn lemma_release_frees_owner(st: (usize, Seq<u64>, Seq<WaitingEntry>), agent: u64)
    requires
        resource_wf(st.0, st.1, st.2),
        st.1.contains(agent),
    ensures
        status_of(release_model(st, agent).1, release_model(st, agent).2, agent)
            == ReservationStatusV1::Released,
{
    let o = st.1;
    let w = st.2;
    let wi = waiting_index(w, agent);
    lemma_waiting_index_range(w, agent);
    assert(wi < 0) by {
        if wi >= 0 {
            assert(!o.contains(w[wi].agent_id));
        }
    }
    let o2 = o.remove(o.index_of(agent));
    lemma_remove_u64_increasing(o, o.index_of(agent));
    lemma_promote_subset(o2, w, st.0 as nat, agent);
    lemma_agents_index(w, agent);
    let p = promote(o2, w, st.0 as nat);
    lemma_agents_index(p.1, agent);
    assert(!o2.contains(agent));
}

/// Every agent of a known resource's batch ends up owning a place or waiting
/// for one: a request is never silently dropped.
pub proof fn lemma_batch_requests_are_placed(
    m: Map<Seq<char>, (usize, Seq<u64>, Seq<WaitingEntry>)>,
    reqs: Seq<ActivityRequestV1>,
    rid: Seq<char>,
    k: int,
)
    requires
        model_wf(m),
        m.dom().contains(rid),
        0 <= k < batch_group(reqs, rid).len(),
    ensures
        status_of(
            admitted(m[rid], batch_group(reqs, rid)).1,
            admitted(m[rid], batch_group(reqs, rid)).2,
            batch_group(reqs, rid)[k].agent_id,
        ) != ReservationStatusV1::Released,
{
    let st = m[rid];
    let b = batch_group(reqs, rid);
    let a = b[k].agent_id;
    lemma_enqueue_facts(st.1, st.2, b);
    let w1 = enqueue(st.1, st.2, b);
    lemma_promote_wf(st.1, w1, st.0);
    let p = promote(st.1, w1, st.0 as nat);
    if !st.1.contains(a) {
        assert(agents(w1).contains(a));
        let i = agents(w1).index_of(a);
        assert(w1[i].agent_id == a);
        assert(p.0.contains(w1[i].agent_id) || waiting_index(p.1, w1[i].agent_id) >= 0);
    }
}

proof fn lemma_insert_sorted_keeps(s: Seq<u64>, y: u64, x: u64)
    requires
        s.contains(x),
    ensures
        insert_sorted(s, y).contains(x),
    decreases s.len(),
{
    if y < s[0] {
        assert((seq![y] + s)[s.index_of(x) + 1] == x);
    } else if s[0] == x {
        assert(insert_sorted(s, y)[0] == x);
    } else {
        let j = s.index_of(x);
        assert(s.drop_first()[j - 1] == x);
        lemma_insert_sorted_keeps(s.drop_first(), y, x);
        let r = insert_sorted(s.drop_first(), y);
        let k = r.index_of(x);
        assert(insert_sorted(s, y)[k + 1] == x);
    }
}

proof fn lemma_promote_keeps_owners(owners: Seq<u64>, waiting: Seq<WaitingEntry>, capacity: nat, x: u64)
    requires
        owners.contains(x),
    ensures
        promote(owners, waiting, capacity).0.contains(x),
    decreases waiting.len(),
{
    if owners.len() < capacity && waiting.len() > 0 {
        let b = best_waiting(waiting);
        lemma_best_waiting_in_range(waiting);
        lemma_insert_sorted_keeps(owners, waiting[b].agent_id, x);
        lemma_promote_keeps_owners(insert_sorted(owners, waiting[b].agent_id), waiting.remove(b), capacity, x);
    }
}

proof fn lemma_insert_sorted_has(s: Seq<u64>, x: u64)
    ensures
        insert_sorted(s, x).contains(x),
    decreases s.len(),
{
    if s.len() == 0 {
        assert(insert_sorted(s, x)[0] == x);
    } else if x < s[0] {
        assert(insert_sorted(s, x)[0] == x);
    } else {
        lemma_insert_sorted_has(s.drop_first(), x);
        let r = insert_sorted(s.drop_first(), x);
        let k = r.index_of(x);
        assert(insert_sorted(s, x)[k + 1] == x);
    }
}

proof fn lemma_promote_waiting_subset(owners: Seq<u64>, waiting: Seq<WaitingEntry>, capacity: nat, y: WaitingEntry)
    requires
        promote(owners, waiting, capacity).1.contains(y),
    ensures
        waiting.contains(y),
    decreases waiting.len(),
{
    if owners.len() < capacity && waiting.len() > 0 {
        let b = best_waiting(waiting);
        lemma_best_waiting_in_range(waiting);
        let w1 = waiting.remove(b);
        lemma_promote_waiting_subset(insert_sorted(owners, waiting[b].agent_id), w1, capacity, y);
        let k = w1.index_of(y);
        if k < b {
            assert(waiting[k] == y);
        } else {
            assert(waiting[k + 1] == y);
        }
    }
}

/// Places go to the waiting agents served first: every agent that leaves the
/// waiting line for a place has a higher priority than every agent left
/// waiting, or the same priority and a lower agent ID; and it owns a place.
pub proof fn lemma_promote_serves_highest_priority(
    owners: Seq<u64>,
    waiting: Seq<WaitingEntry>,
    capacity: nat,
    x: WaitingEntry,
    y: WaitingEntry,
)
    requires
        waiting_agents_increasing(waiting),
        waiting.contains(x),
        !promote(owners, waiting, capacity).1.contains(x),
        promote(owners, waiting, capacity).1.contains(y),
    ensures
        x.priority > y.priority || (x.priority == y.priority && x.agent_id < y.agent_id),
        promote(owners, waiting, capacity).0.contains(x.agent_id),
    decreases waiting.len(),
{
    if owners.len() < capacity && waiting.len() > 0 {
        let b = best_waiting(waiting);
        lemma_best_waiting_in_range(waiting);
        let wb = waiting[b];
        let w1 = waiting.remove(b);
        let o1 = insert_sorted(owners, wb.agent_id);
        lemma_remove_keeps_increasing(waiting, b);
        lemma_promote_waiting_subset(o1, w1, capacity, y);
        let ky = w1.index_of(y);
        let jy = if ky < b { ky } else { ky + 1 };
        assert(waiting[jy] == y);
        if x == wb {
            if jy == b {
                assert(false);
            }
            lemma_best_waiting_ranks_first(waiting, jy);
            lemma_insert_sorted_has(owners, wb.agent_id);
            lemma_promote_keeps_owners(o1, w1, capacity, wb.agent_id);
        } else {
            let kx = waiting.index_of(x);
            assert(kx != b);
            let ix = if kx < b { kx } else { kx - 1 };
            assert(w1[ix] == x);
            lemma_promote_serves_highest_priority(o1, w1, capacity, x, y);
        }
    } else {
        assert(false);
    }
}

/// Promotion loses nobody: every agent in the waiting line either still
/// waits or owns a place.
proof fn lemma_promote_keeps_everyone(owners: Seq<u64>, waiting: Seq<WaitingEntry>, capacity: nat, x: WaitingEntry)
    requires
        waiting.contains(x),
    ensures
        promote(owners, waiting, capacity).1.contains(x) || promote(owners, waiting, capacity).0.contains(x.agent_id),
    decreases waiting.len(),
{
    if owners.len() < capacity && waiting.len() > 0 {
        let b = best_waiting(waiting);
        lemma_best_waiting_in_range(waiting);
        let wb = waiting[b];
        let w1 = waiting.remove(b);
        let o1 = insert_sorted(owners, wb.agent_id);
        if x == wb {
            lemma_insert_sorted_has(owners, wb.agent_id);
            lemma_promote_keeps_owners(o1, w1, capacity, wb.agent_id);
        } else {
            let kx = waiting.index_of(x);
            let ix = if kx < b { kx } else { kx - 1 };
            assert(w1[ix] == x);
            lemma_promote_keeps_everyone(o1, w1, capacity, x);
        }
    }
}

/// Admitting a batch answers every request in it: each requesting agent
/// ends up owning a place or waiting in line.
pub proof fn lemma_admitted_answers_every_request(
    st: (usize, Seq<u64>, Seq<WaitingEntry>),
    batch: Seq<ActivityRequestV1>,
    k: int,
)
    requires
        resource_wf(st.0, st.1, st.2),
        0 <= k < batch.len(),
    ensures
        admitted(st, batch).1.contains(batch[k].agent_id) || exists|i: int|
            0 <= i < admitted(st, batch).2.len() && (#[trigger] admitted(st, batch).2[i]).agent_id == batch[k].agent_id,
{
    let a = batch[k].agent_id;
    let enq = enqueue(st.1, st.2, batch);
    lemma_enqueue_facts(st.1, st.2, batch);
    if st.1.contains(a) {
        lemma_promote_keeps_owners(st.1, enq, st.0 as nat, a);
    } else {
        assert(agents(enq).contains(a));
        let i = agents(enq).index_of(a);
        let x = enq[i];
        assert(x.agent_id == a);
        lemma_promote_keeps_everyone(st.1, enq, st.0 as nat, x);
        let w2 = admitted(st, batch).2;
        if w2.contains(x) {
            let j = w2.index_of(x);
            assert(w2[j].agent_id == a);
        }
    }
}

/// Admitting a batch to a well-formed resource gives its places to the best
/// served: anyone in the line the batch joined who gets a place outranks, by
/// priority and then agent ID, everyone still waiting.
pub proof fn lemma_admitted_serves_highest_priority(
    st: (usize, Seq<u64>, Seq<WaitingEntry>),
    batch: Seq<ActivityRequestV1>,
    x: WaitingEntry,
    y: WaitingEntry,
)
    requires
        resource_wf(st.0, st.1, st.2),
        enqueue(st.1, st.2, batch).contains(x),
        !admitted(st, batch).2.contains(x),
        admitted(st, batch).2.contains(y),
    ensures
        x.priority > y.priority || (x.priority == y.priority && x.agent_id < y.agent_id),
        admitted(st, batch).1.contains(x.agent_id),
{
    lemma_enqueue_facts(st.1, st.2, batch);
    lemma_promote_serves_highest_priority(st.1, enqueue(st.1, st.2, batch), st.0 as nat, x, y);
}

/// Releasing a place gives it to the best served: anyone who leaves the
/// waiting line for a place outranks, by priority and then agent ID, everyone
/// still waiting.
pub proof fn lemma_release_serves_highest_priority(
    st: (usize, Seq<u64>, Seq<WaitingEntry>),
    agent: u64,
    x: WaitingEntry,
    y: WaitingEntry,
)
    requires
        resource_wf(st.0, st.1, st.2),
        st.2.contains(x),
        x.agent_id != agent,
        !release_model(st, agent).2.contains(x),
        release_model(st, agent).2.contains(y),
    ensures
        x.priority > y.priority || (x.priority == y.priority && x.agent_id < y.agent_id),
        release_model(st, agent).1.contains(x.agent_id),
{
    let o = st.1;
    let w = st.2;
    let wi = waiting_index(w, agent);
    let w2 = if wi >= 0 { w.remove(wi) } else { w };
    lemma_waiting_index_range(w, agent);
    if wi >= 0 {
        lemma_remove_keeps_increasing(w, wi);
        let k = w.index_of(x);
        assert(w[k] == x);
        assert(k != wi);
        let i2 = if k < wi { k } else { k - 1 };
        assert(w2[i2] == x);
    }
    if o.contains(agent) {
        let o2 = o.remove(o.index_of(agent));
        lemma_promote_serves_highest_priority(o2, w2, st.0 as nat, x, y);
    } else {
        assert(release_model(st, agent).2 == w2);
        assert(w2.contains(x));
        assert(false);
    }
}

/// A waiting agent's place in line counts exactly the waiters with a higher
/// priority, or the same priority and a lower agent ID.
pub proof fn lemma_count_before_counts_outranking(w: Seq<WaitingEntry>, t: WaitingEntry)
    ensures
        count_before(w, t) == w.filter(
            |e: WaitingEntry| e.priority > t.priority || (e.priority == t.priority && e.agent_id < t.agent_id),
        ).len(),
    decreases w.len(),
{
    let f = |e: WaitingEntry| e.priority > t.priority || (e.priority == t.priority && e.agent_id < t.agent_id);
    reveal(Seq::filter);
    if w.len() > 0 {
        lemma_count_before_counts_outranking(w.drop_last(), t);
        let sub = w.drop_last().filter(f);
        assert(w.filter(f) == if f(w.last()) { sub.push(w.last()) } else { sub });
        assert(f(w.last()) == ranks_before(w.last(), t));
    }
}

proof fn lemma_distinct_ids_unique(reqs: Seq<ActivityRequestV1>)
    ensures
        distinct_ids(reqs).no_duplicates(),
    decreases reqs.len(),
{
    if reqs.len() > 0 {
        lemma_distinct_ids_unique(reqs.drop_last());
    }
}

/// After the batches of the first `n` of `ids`, a named resource holds what
/// admitting its own batch made of it.
proof fn lemma_batch_state_of(
    m: Map<Seq<char>, (usize, Seq<u64>, Seq<WaitingEntry>)>,
    reqs: Seq<ActivityRequestV1>,
    ids: Seq<Seq<char>>,
    n: nat,
    rid: Seq<char>,
)
    requires
        ids.no_duplicates(),
        n <= ids.len(),
        m.dom().contains(rid),
        ids.take(n as int).contains(rid),
    ensures
        apply_batch(m, reqs, ids, n)[rid] == admitted(m[rid], batch_group(reqs, rid)),
    decreases n,
{
    let prev = ids.take(n - 1);
    lemma_batch_touches_only_named(m, reqs, ids, (n - 1) as nat);
    if ids[n - 1] == rid {
        if prev.contains(rid) {
            let j = prev.index_of(rid);
            assert(ids[j] == ids[n - 1]);
        }
    } else {
        let j = ids.take(n as int).index_of(rid);
        assert(ids[j] == rid);
        assert(prev[j] == rid);
        lemma_batch_state_of(m, reqs, ids, (n - 1) as nat, rid);
    }
}

/// A request batch gives each named resource's places to the best served:
/// anyone in that resource's line (waiting before, or asking now) who gets a
/// place outranks, by priority and then agent ID, everyone left waiting on
/// it, and owns a place.
pub proof fn lemma_batch_serves_highest_priority(
    m: Map<Seq<char>, (usize, Seq<u64>, Seq<WaitingEntry>)>,
    reqs: Seq<ActivityRequestV1>,
    rid: Seq<char>,
    x: WaitingEntry,
    y: WaitingEntry,
)
    requires
        model_wf(m),
        m.dom().contains(rid),
        distinct_ids(reqs).contains(rid),
        enqueue(m[rid].1, m[rid].2, batch_group(reqs, rid)).contains(x),
        !apply_batch(m, reqs, distinct_ids(reqs), distinct_ids(reqs).len())[rid].2.contains(x),
        apply_batch(m, reqs, distinct_ids(reqs), distinct_ids(reqs).len())[rid].2.contains(y),
    ensures
        x.priority > y.priority || (x.priority == y.priority && x.agent_id < y.agent_id),
        apply_batch(m, reqs, distinct_ids(reqs), distinct_ids(reqs).len())[rid].1.contains(x.agent_id),
{
    let ids = distinct_ids(reqs);
    lemma_distinct_ids_unique(reqs);
    assert(ids.take(ids.len() as int) =~= ids);
    lemma_batch_state_of(m, reqs, ids, ids.len(), rid);
    lemma_admitted_serves_highest_priority(m[rid], batch_group(reqs, rid), x, y);
}

/// A batch takes no place away: every owner of a resource before the batch
/// still owns a place after it.
pub proof fn lemma_batch_keeps_owners(
    m: Map<Seq<char>, (usize, Seq<u64>, Seq<WaitingEntry>)>,
    reqs: Seq<ActivityRequestV1>,
    ids: Seq<Seq<char>>,
    n: nat,
    rid: Seq<char>,
    agent: u64,
)
    requires
        n <= ids.len(),
        m.dom().contains(rid),
        m[rid].1.contains(agent),
    ensures
        apply_batch(m, reqs, ids, n).dom().contains(rid),
        apply_batch(m, reqs, ids, n)[rid].1.contains(agent),
    decreases n,
{
    if n > 0 {
        lemma_batch_keeps_owners(m, reqs, ids, (n - 1) as nat, rid, agent);
        let acc = apply_batch(m, reqs, ids, (n - 1) as nat);
        if ids[n - 1] == rid {
            let st = acc[rid];
            lemma_promote_keeps_owners(st.1, enqueue(st.1, st.2, batch_group(reqs, rid)), st.0 as nat, agent);
        }
    }
}

/// A batch declares nothing and changes no resource it does not name: the
/// resources are the same, and a resource outside `ids` keeps its state (so
/// requests for undeclared resources change nothing).
pub proof fn lemma_batch_touches_only_named(
    m: Map<Seq<char>, (usize, Seq<u64>, Seq<WaitingEntry>)>,
    reqs: Seq<ActivityRequestV1>,
    ids: Seq<Seq<char>>,
    n: nat,
)
    requires
        n <= ids.len(),
    ensures
        apply_batch(m, reqs, ids, n).dom() == m.dom(),
        forall|k: Seq<char>|
            #[trigger] m.dom().contains(k) && !ids.take(n as int).contains(k) ==> apply_batch(m, reqs, ids, n)[k] == m[k],
    decreases n,
{
    if n > 0 {
        lemma_batch_touches_only_named(m, reqs, ids, (n - 1) as nat);
        let acc = apply_batch(m, reqs, ids, (n - 1) as nat);
        assert(apply_batch(m, reqs, ids, n).dom() =~= m.dom());
        assert forall|k: Seq<char>|
            #[trigger] m.dom().contains(k) && !ids.take(n as int).contains(k) implies apply_batch(m, reqs, ids, n)[k]
            == m[k] by {
            assert(ids.take(n as int)[n - 1] == ids[n - 1]);
            if ids.take((n - 1) as int).contains(k) {
                let j = ids.take((n - 1) as int).index_of(k);
                assert(ids.take(n as int)[j] == k);
            }
        }
    }
}

/// Results in report order: none comes after one it sorts before.
pub open spec fn results_sorted(s: Seq<(u64, Seq<char>, (int, Seq<char>))>) -> bool {
    forall|i: int, j: int| 0 <= i < j < s.len() ==> !result_before(#[trigger] s[j], #[trigger] s[i])
}

proof fn lemma_result_before_transitive(
    a: (u64, Seq<char>, (int, Seq<char>)),
    b: (u64, Seq<char>, (int, Seq<char>)),
    c: (u64, Seq<char>, (int, Seq<char>)),
)
    requires
        result_before(a, b),
        result_before(b, c),
    ensures
        result_before(a, c),
{
    if a.0 == b.0 && b.0 == c.0 {
        crate::text::lemma_text_lt_transitive(a.1, b.1, c.1);
    }
}

proof fn lemma_insert_result_sorted(s: Seq<(u64, Seq<char>, (int, Seq<char>))>, x: (u64, Seq<char>, (int, Seq<char>)))
    requires
        results_sorted(s),
    ensures
        results_sorted(insert_result(s, x)),
        insert_result(s, x).to_multiset() == s.to_multiset().insert(x),
    decreases s.len(),
{
    broadcast use vstd::multiset::group_multiset_axioms;
    if s.len() == 0 {
        assert(insert_result(s, x) =~= seq![x]);
        assert(seq![x] =~= Seq::<(u64, Seq<char>, (int, Seq<char>))>::empty().push(x));
        vstd::seq_lib::to_multiset_build(Seq::<(u64, Seq<char>, (int, Seq<char>))>::empty(), x);
        assert(s =~= Seq::<(u64, Seq<char>, (int, Seq<char>))>::empty());
    } else if result_before(x, s[0]) {
        let r = seq![x] + s;
        assert forall|i: int, j: int| 0 <= i < j < r.len() implies !result_before(#[trigger] r[j], #[trigger] r[i]) by {
            if i == 0 {
                if j > 1 {
                    assert(!result_before(s[j - 1], s[0]));
                    if result_before(s[j - 1], x) {
                        lemma_result_before_transitive(s[j - 1], x, s[0]);
                    }
                } else {
                    if result_before(s[0], x) {
                        lemma_result_before_transitive(s[0], x, s[0]);
                        crate::text::lemma_text_lt_irreflexive(s[0].1);
                    }
                }
            } else {
                assert(r[i] == s[i - 1] && r[j] == s[j - 1]);
            }
        }
        vstd::seq_lib::to_multiset_insert(s, 0, x);
        assert(s.insert(0, x) =~= r);
    } else {
        let t = s.drop_first();
        assert forall|i: int, j: int| 0 <= i < j < t.len() implies !result_before(#[trigger] t[j], #[trigger] t[i]) by {
            assert(t[i] == s[i + 1] && t[j] == s[j + 1]);
        }
        lemma_insert_result_sorted(t, x);
        let it = insert_result(t, x);
        let r = seq![s[0]] + it;
        assert forall|i: int, j: int| 0 <= i < j < r.len() implies !result_before(#[trigger] r[j], #[trigger] r[i]) by {
            if i == 0 {
                let y = it[j - 1];
                assert(it.to_multiset().count(y) > 0) by {
                    vstd::seq_lib::to_multiset_contains(it, y);
                    assert(it.contains(y));
                }
                assert(t.to_multiset().insert(x).count(y) > 0);
                if y != x {
                    vstd::seq_lib::to_multiset_contains(t, y);
                    let q = t.index_of(y);
                    assert(s[q + 1] == y);
                }
            } else {
                assert(r[i] == it[i - 1] && r[j] == it[j - 1]);
            }
        }
        assert(s =~= seq![s[0]] + t);
        vstd::seq_lib::lemma_multiset_commutative(seq![s[0]], t);
        vstd::seq_lib::lemma_multiset_commutative(seq![s[0]], it);
    }
}

/// The results of a batch come in report order (agent, then resource) and
/// hold exactly the results of each resource's batch, counted.
pub proof fn lemma_sorted_results(s: Seq<(u64, Seq<char>, (int, Seq<char>))>)
    ensures
        results_sorted(sort_results(s)),
        sort_results(s).to_multiset() == s.to_multiset(),
    decreases s.len(),
{
    broadcast use vstd::multiset::group_multiset_axioms;
    if s.len() == 0 {
        assert(s.to_multiset() =~= sort_results(s).to_multiset()) by {
            assert(sort_results(s) =~= s);
        }
    } else {
        lemma_sorted_results(s.drop_last());
        lemma_insert_result_sorted(sort_results(s.drop_last()), s.last());
        assert(s =~= s.drop_last().push(s.last()));
        vstd::seq_lib::to_multiset_build(s.drop_last(), s.last());
    }
}

} // verus!
