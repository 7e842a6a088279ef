//! Pooled per-tick neighbor storage.
//!
//! Buffers are cleared and refilled each tick rather than freed, so steady
//! ticks do no allocator work. Each agent's list is addressed by a
//! `(start, len)` pair into one flat buffer; the entry type is the caller's.

use vstd::prelude::*;
use vstd::slice::slice_subrange;

verus! {

/// Flat per-agent neighbor lists with `(start, len)` indexing.
#[derive(Clone, Debug)]
pub struct NeighborArena<N> {
    entries: Vec<N>,
    start: Vec<u32>,
    len: Vec<u32>,
    /// Whether each slot's neighbours were actually looked up this tick: an
    /// empty list alone cannot tell "alone" from "not looked at".
    observed: Vec<bool>,
}

/// How many elements a `Vec` has room for without reallocating: what
/// `Vec::capacity` returns. Its documentation promises room for at least
/// the elements the vector holds; the exact number is the allocator's
/// choice and is not stated.
#[verifier::external_body]
fn vec_capacity<N>(v: &Vec<N>) -> (r: usize)
    ensures
        r >= v@.len(),
{
    v.capacity()
}

impl<N: Copy> NeighborArena<N> {
    /// Each slot's list, as recorded this tick.
    pub closed spec fn lists(&self) -> Seq<Seq<N>> {
        Seq::new(
            self.start@.len(),
            |i: int| self.entries@.subrange(self.start@[i] as int, self.start@[i] + self.len@[i]),
        )
    }

    /// Whether each slot was looked up this tick.
    pub closed spec fn observed_flags(&self) -> Seq<bool> {
        self.observed@
    }

    /// How many entries all lists hold together this tick.
    pub closed spec fn stored(&self) -> nat {
        self.entries@.len()
    }

    pub closed spec fn wf(&self) -> bool {
        &&& self.start@.len() == self.len@.len()
        &&& self.start@.len() == self.observed@.len()
        &&& self.entries@.len() <= u32::MAX
        &&& forall|i: int| 0 <= i < self.start@.len() ==> #[trigger] self.start@[i] + self.len@[i] <= self.entries@.len()
    }

    pub fn new() -> (a: Self)
        ensures
            a.wf(),
            a.lists().len() == 0,
            a.observed_flags().len() == 0,
            a.stored() == 0,
    {
        let a = NeighborArena { entries: Vec::new(), start: Vec::new(), len: Vec::new(), observed: Vec::new() };
        assert(a.lists().len() == 0);
        a
    }

    /// Reset for a tick with `agent_count` agents: every list empty, no slot
    /// looked up. Allocated room is kept.
    pub fn begin(&mut self, agent_count: usize)
        ensures
            final(self).wf(),
            final(self).lists() == Seq::new(agent_count as nat, |i: int| Seq::<N>::empty()),
            final(self).observed_flags() == Seq::new(agent_count as nat, |i: int| false),
            final(self).stored() == 0,
    {
        self.entries.clear();
        self.start.clear();
        self.len.clear();
        self.start.resize(agent_count, 0);
        self.len.resize(agent_count, 0);
        self.observed.clear();
        self.observed.resize(agent_count, false);
        proof {
            assert(self.lists() =~= Seq::new(agent_count as nat, |i: int| Seq::<N>::empty())) by {
                assert forall|i: int| 0 <= i < agent_count implies #[trigger] self.lists()[i] =~= Seq::<N>::empty() by {
                    assert(self.start@[i] == 0 && self.len@[i] == 0);
                }
            }
            assert(self.observed@ =~= Seq::new(agent_count as nat, |i: int| false));
        }
    }

    /// Record `neighbors` as the list of `slot_owner`, looked up this tick.
    /// Lists are indexed by owner, so the order of calls does not matter.
    pub fn push(&mut self, slot_owner: usize, neighbors: &[N])
        requires
            old(self).wf(),
            slot_owner < old(self).lists().len(),
            old(self).stored() + neighbors@.len() <= u32::MAX,
        ensures
            final(self).wf(),
            final(self).lists() == old(self).lists().update(slot_owner as int, neighbors@),
            final(self).observed_flags() == old(self).observed_flags().update(slot_owner as int, true),
            final(self).stored() == old(self).stored() + neighbors@.len(),
    {
        let base = self.entries.len();
        self.start.set(slot_owner, base as u32);
        self.len.set(slot_owner, neighbors.len() as u32);
        self.observed.set(slot_owner, true);
        let ghost before = self.entries@;
        let mut k: usize = 0;
        while k < neighbors.len()
            invariant
                k <= neighbors@.len(),
                before == old(self).entries@,
                base == before.len(),
                self.start@ == old(self).start@.update(slot_owner as int, base as u32),
                self.len@ == old(self).len@.update(slot_owner as int, neighbors@.len() as u32),
                self.observed@ == old(self).observed@.update(slot_owner as int, true),
                self.entries@.len() == before.len() + k,
                self.entries@.subrange(0, before.len() as int) == before,
                forall|j: int| 0 <= j < k ==> self.entries@[before.len() + j] == neighbors@[j],
            decreases neighbors@.len() - k,
        {
            let ghost prior = self.entries@;
            self.entries.push(neighbors[k]);
            proof {
                assert(self.entries@.subrange(0, before.len() as int) =~= prior.subrange(0, before.len() as int));
            }
            k = k + 1;
        }
        proof {
            let r = self.lists();
            let o = old(self).lists();
            assert forall|i: int| 0 <= i < o.len() && i != slot_owner implies r[i] == o[i] by {
                assert(r[i] =~= o[i]) by {
                    assert forall|j: int| 0 <= j < r[i].len() implies r[i][j] == o[i][j] by {
                        assert(self.entries@.subrange(0, before.len() as int)[self.start@[i] + j] == before[self.start@[i]
                            + j]);
                    }
                }
            }
            assert(r[slot_owner as int] =~= neighbors@);
            assert(r =~= o.update(slot_owner as int, neighbors@));
        }
    }

    /// Record that `slot_owner` was not looked up this tick: its list is
    /// empty and it counts as unobserved.
    pub fn push_unobserved(&mut self, slot_owner: usize)
        requires
            old(self).wf(),
            slot_owner < old(self).lists().len(),
        ensures
            final(self).wf(),
            final(self).lists() == old(self).lists().update(slot_owner as int, Seq::empty()),
            final(self).observed_flags() == old(self).observed_flags().update(slot_owner as int, false),
            final(self).stored() == old(self).stored(),
    {
        let base = self.entries.len();
        self.start.set(slot_owner, base as u32);
        self.len.set(slot_owner, 0);
        self.observed.set(slot_owner, false);
        proof {
            let r = self.lists();
            let o = old(self).lists();
            assert forall|i: int| 0 <= i < o.len() && i != slot_owner implies r[i] == o[i] by {}
            assert(r[slot_owner as int] =~= Seq::<N>::empty());
            assert(r =~= o.update(slot_owner as int, Seq::empty()));
        }
    }

    /// Whether `slot`'s neighbours were looked up this tick; false for a slot
    /// past what `begin` sized for.
    pub fn is_observed(&self, slot: usize) -> (r: bool)
        requires
            self.wf(),
        ensures
            r == (slot < self.observed_flags().len() && self.observed_flags()[slot as int]),
    {
        if slot < self.observed.len() {
            self.observed[slot]
        } else {
            false
        }
    }

    /// The list of `slot`; empty for a slot past what `begin` sized for.
    pub fn neighbors(&self, slot: usize) -> (r: &[N])
        requires
            self.wf(),
        ensures
            r@ == (if slot < self.lists().len() {
                self.lists()[slot as int]
            } else {
                Seq::<N>::empty()
            }),
    {
        if slot >= self.start.len() {
            return slice_subrange(self.entries.as_slice(), 0, 0);
        }
        let start = self.start[slot] as usize;
        let len = self.len[slot] as usize;
        assert(self.start@[slot as int] + self.len@[slot as int] <= self.entries@.len());
        slice_subrange(self.entries.as_slice(), start, start + len)
    }

    /// The room the entry buffer has; `begin` keeps it. It is at least the
    /// number of entries stored this tick.
    pub fn capacity(&self) -> (r: usize)
        ensures
            r >= self.stored(),
    {
        vec_capacity(&self.entries)
    }
}

/// Recording two owners' lists gives the same arena in either order.
pub proof fn lemma_pushes_commute<N>(lists: Seq<Seq<N>>, a: int, x: Seq<N>, b: int, y: Seq<N>)
    requires
        0 <= a < lists.len(),
        0 <= b < lists.len(),
        a != b,
    ensures
        lists.update(a, x).update(b, y) == lists.update(b, y).update(a, x),
{
    assert(lists.update(a, x).update(b, y) =~= lists.update(b, y).update(a, x));
}

} // verus!
