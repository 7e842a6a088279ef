//! Pipeline phases that timing samples are attributed to.

use vstd::prelude::*;

verus! {

/// Which pipeline phase a timing sample belongs to.
#[derive(Clone, Copy, Debug, PartialEq, Eq, Structural)]
pub enum Phase {
    Inputs,
    Spawn,
    Index,
    Perceive,
    Plan,
    Decide,
    Steer,
    Integrate,
    Animate,
    Metrics,
}

pub open spec fn phase_index(p: Phase) -> usize {
    match p {
        Phase::Inputs => 0,
        Phase::Spawn => 1,
        Phase::Index => 2,
        Phase::Perceive => 3,
        Phase::Plan => 4,
        Phase::Decide => 5,
        Phase::Steer => 6,
        Phase::Integrate => 7,
        Phase::Animate => 8,
        Phase::Metrics => 9,
    }
}

pub open spec fn phase_name(p: Phase) -> Seq<char> {
    match p {
        Phase::Inputs => "inputs"@,
        Phase::Spawn => "spawn"@,
        Phase::Index => "index"@,
        Phase::Perceive => "perceive"@,
        Phase::Plan => "plan"@,
        Phase::Decide => "decide"@,
        Phase::Steer => "steer"@,
        Phase::Integrate => "integrate"@,
        Phase::Animate => "animate"@,
        Phase::Metrics => "metrics"@,
    }
}

impl Phase {
    /// Every phase, in pipeline order.
    pub fn all() -> (r: [Phase; 10])
        ensures
            forall|i: int| 0 <= i < 10 ==> phase_index(#[trigger] r@[i]) == i,
    {
        [
            Phase::Inputs,
            Phase::Spawn,
            Phase::Index,
            Phase::Perceive,
            Phase::Plan,
            Phase::Decide,
            Phase::Steer,
            Phase::Integrate,
            Phase::Animate,
            Phase::Metrics,
        ]
    }

    /// The phase's slot in per-phase tables.
    pub fn index(self) -> (r: usize)
        ensures
            r == phase_index(self),
            r < 10,
    {
        match self {
            Phase::Inputs => 0,
            Phase::Spawn => 1,
            Phase::Index => 2,
            Phase::Perceive => 3,
            Phase::Plan => 4,
            Phase::Decide => 5,
            Phase::Steer => 6,
            Phase::Integrate => 7,
            Phase::Animate => 8,
            Phase::Metrics => 9,
        }
    }

    pub fn name(self) -> (r: &'static str)
        ensures
            r@ == phase_name(self),
    {
        match self {
            Phase::Inputs => "inputs",
            Phase::Spawn => "spawn",
            Phase::Index => "index",
            Phase::Perceive => "perceive",
            Phase::Plan => "plan",
            Phase::Decide => "decide",
            Phase::Steer => "steer",
            Phase::Integrate => "integrate",
            Phase::Animate => "animate",
            Phase::Metrics => "metrics",
        }
    }
}

/// Distinct phases occupy distinct table slots.
pub proof fn lemma_phase_index_injective(a: Phase, b: Phase)
    requires
        a != b,
    ensures
        phase_index(a) != phase_index(b),
{
}

/// What one live-or-not agent slot showed on one tick, measured by the
/// caller from the world and the neighbour lists.
#[derive(Clone, Copy, Debug, PartialEq, Eq, Structural)]
pub struct SlotTick {
    /// Still part of the crowd: neither arrived nor left without a route.
    pub live: bool,
    /// The agent's simulation tier at this tick, `0..4`.
    pub tier: u8,
    /// Its neighbours were looked up this tick.
    pub observed: bool,
    /// Overlapping neighbours with a higher agent ID (each pair counted once).
    pub pair_overlaps: u32,
    /// It overlaps some neighbour.
    pub penetrating: bool,
    /// Some overlap is deeper than the deep fraction of the pair's radius.
    pub deep: bool,
    /// The tier of the neighbour it overlaps deepest, when it overlaps one.
    pub partner_tier: Option<u8>,
    /// It has braked for at least the stall threshold of ticks.
    pub stalled: bool,
    /// Its solver is braking this tick.
    pub braking: bool,
}

/// What a slot's earlier ticks left behind: an open contact episode, an
/// open stall episode, and whether it ever stalled.
#[derive(Clone, Copy, Debug, PartialEq, Eq, Structural)]
pub struct SlotMemory {
    pub in_contact: bool,
    pub in_stall: bool,
    pub ever_stalled: bool,
}

/// Number of tallied quantities per row.
pub const TALLY_KINDS: usize = 13;

/// Number of rows: the whole crowd, then one per tier.
pub const TALLY_ROWS: usize = 5;

/// What tally `kind` gains from one slot, given what it remembered.
///
/// Kinds: 0 agent-ticks, 1 contact-observed agent-ticks, 2 overlapping pair
/// ticks, 3 overlapping agent-ticks, 4 contact episodes opened, 5 to 8
/// contacts by the tier of the deepest partner, 9 deep agent-ticks, 10 stalled
/// agent-ticks, 11 stall episodes opened, 12 agents stalled for the first time.
pub open spec fn slot_gain(s: SlotTick, m: SlotMemory, kind: int) -> nat {
    if !s.live {
        0
    } else if kind == 0 {
        1
    } else if kind == 1 {
        if s.observed { 1 } else { 0 }
    } else if kind == 2 {
        s.pair_overlaps as nat
    } else if kind == 3 {
        if s.penetrating { 1 } else { 0 }
    } else if kind == 4 {
        if s.penetrating && !m.in_contact { 1 } else { 0 }
    } else if 5 <= kind <= 8 {
        if s.penetrating && s.partner_tier == Some((kind - 5) as u8) { 1 } else { 0 }
    } else if kind == 9 {
        if s.deep { 1 } else { 0 }
    } else if kind == 10 {
        if s.stalled { 1 } else { 0 }
    } else if kind == 11 {
        if s.stalled && !m.in_stall { 1 } else { 0 }
    } else if kind == 12 {
        if s.stalled && !m.in_stall && !m.ever_stalled { 1 } else { 0 }
    } else {
        0
    }
}

/// What a slot remembers after a tick.
///
/// A contact episode opens on an overlapping tick and ends only on an
/// observed clear one; a stall episode ends when the agent stops braking.
pub open spec fn slot_after(s: SlotTick, m: SlotMemory) -> SlotMemory {
    if !s.live {
        m
    } else {
        SlotMemory {
            in_contact: if s.penetrating { true } else if s.observed { false } else { m.in_contact },
            in_stall: if s.stalled { true } else if !s.braking { false } else { m.in_stall },
            ever_stalled: m.ever_stalled || (s.stalled && !m.in_stall),
        }
    }
}

/// Row `row` counts the whole crowd when it is 0, else tier `row - 1`.
pub open spec fn in_row(s: SlotTick, row: int) -> bool {
    row == 0 || s.tier as int == row - 1
}

/// What tally `kind` of row `row` gains from the slots.
pub open spec fn tally(slots: Seq<SlotTick>, mem: Seq<SlotMemory>, row: int, kind: int) -> nat
    decreases slots.len(),
{
    if slots.len() == 0 {
        0
    } else {
        let i = slots.len() - 1;
        tally(slots.drop_last(), mem, row, kind) + if in_row(slots[i], row) {
            slot_gain(slots[i], mem[i], kind)
        } else {
            0
        }
    }
}

/// The memory of the first `n` slots, with slots not seen before starting
/// with nothing open.
pub open spec fn grown_memory(mem: Seq<SlotMemory>, n: nat) -> Seq<SlotMemory> {
    Seq::new(
        n,
        |i: int|
            if i < mem.len() {
                mem[i]
            } else {
                SlotMemory { in_contact: false, in_stall: false, ever_stalled: false }
            },
    )
}

/// Contact and stall counters per tier, and the memory per slot that
/// episodes are counted against.
pub struct TickCounters {
    totals: Vec<u64>,
    memory: Vec<SlotMemory>,
}

impl TickCounters {
    /// Tally `kind` of row `row`.
    pub closed spec fn count(&self, row: int, kind: int) -> int {
        self.totals@[row * TALLY_KINDS + kind] as int
    }

    /// What each slot remembers.
    pub closed spec fn memory(&self) -> Seq<SlotMemory> {
        self.memory@
    }

    pub closed spec fn wf(&self) -> bool {
        self.totals@.len() == TALLY_ROWS * TALLY_KINDS
    }

    pub fn new() -> (r: Self)
        ensures
            r.wf(),
            r.memory().len() == 0,
            forall|row: int, kind: int| 0 <= row < TALLY_ROWS && 0 <= kind < TALLY_KINDS ==> r.count(row, kind) == 0,
    {
        let mut totals: Vec<u64> = Vec::new();
        let mut i: usize = 0;
        while i < TALLY_ROWS * TALLY_KINDS
            invariant
                i <= TALLY_ROWS * TALLY_KINDS,
                totals@.len() == i,
                forall|j: int| 0 <= j < i ==> totals@[j] == 0,
            decreases TALLY_ROWS * TALLY_KINDS - i,
        {
            totals.push(0);
            i = i + 1;
        }
        TickCounters { totals, memory: Vec::new() }
    }

    /// Tally `kind` of row `row`: row 0 is the whole crowd, row `t + 1` tier `t`.
    pub fn get(&self, row: usize, kind: usize) -> (r: u64)
        requires
            self.wf(),
            row < TALLY_ROWS,
            kind < TALLY_KINDS,
        ensures
            r == self.count(row as int, kind as int),
    {
        self.totals[row * TALLY_KINDS + kind]
    }

    /// Count one tick of contact and stall observations, one entry per slot.
    ///
    /// Each tally gains what every live slot in its row shows; a slot's
    /// memory changes only where it is live.
    pub fn count_tick(&mut self, slots: &Vec<SlotTick>)
        requires
            old(self).wf(),
            forall|i: int| 0 <= i < slots@.len() ==> (#[trigger] slots@[i]).tier < 4,
            forall|row: int, kind: int|
                0 <= row < TALLY_ROWS && 0 <= kind < TALLY_KINDS ==> old(self).count(row, kind) + slots@.len() * 0x1_0000_0000
                    <= u64::MAX,
        ensures
            final(self).wf(),
            forall|row: int, kind: int|
                0 <= row < TALLY_ROWS && 0 <= kind < TALLY_KINDS ==> #[trigger] final(self).count(row, kind) == old(self).count(
                    row,
                    kind,
                ) + tally(slots@, grown_memory(old(self).memory(), slots@.len()), row, kind),
            final(self).memory().len() == if slots@.len() > old(self).memory().len() {
                slots@.len()
            } else {
                old(self).memory().len()
            },
            forall|i: int|
                0 <= i < slots@.len() ==> #[trigger] final(self).memory()[i] == slot_after(
                    slots@[i],
                    grown_memory(old(self).memory(), slots@.len())[i],
                ),
            forall|i: int|
                slots@.len() <= i < old(self).memory().len() ==> #[trigger] final(self).memory()[i] == old(self).memory()[i],
    {
        let n = slots.len();
        while self.memory.len() < n
            invariant
                self.wf(),
                self.totals@ == old(self).totals@,
                self.memory@.len() >= old(self).memory@.len(),
                self.memory@.len() <= n || self.memory@.len() == old(self).memory@.len(),
                forall|i: int|
                    0 <= i < self.memory@.len() ==> #[trigger] self.memory@[i] == (if i < old(self).memory@.len() {
                        old(self).memory@[i]
                    } else {
                        SlotMemory { in_contact: false, in_stall: false, ever_stalled: false }
                    }),
            decreases n - self.memory@.len(),
        {
            self.memory.push(SlotMemory { in_contact: false, in_stall: false, ever_stalled: false });
        }
        proof {
            assert forall|row: int, kind: int|
                0 <= row < TALLY_ROWS && 0 <= kind < TALLY_KINDS implies #[trigger] old(self).totals@[row * TALLY_KINDS + kind]
                    + n * 0x1_0000_0000 <= u64::MAX by {
                assert(old(self).count(row, kind) == old(self).totals@[row * TALLY_KINDS + kind]);
            }
        }
        let ghost start = self.memory@;
        let ghost before = grown_memory(old(self).memory@, n as nat);
        proof {
            assert forall|i: int| 0 <= i < n implies #[trigger] start[i] == before[i] by {}
        }
        let mut i: usize = 0;
        while i < n
            invariant
                i <= n,
                n == slots@.len(),
                self.wf(),
                forall|j: int| 0 <= j < n ==> (#[trigger] slots@[j]).tier < 4,
                self.memory@.len() == start.len(),
                start.len() >= n,
                forall|j: int| 0 <= j < n ==> #[trigger] start[j] == before[j],
                forall|j: int| 0 <= j < i ==> #[trigger] self.memory@[j] == slot_after(slots@[j], before[j]),
                forall|j: int| i <= j < start.len() ==> #[trigger] self.memory@[j] == start[j],
                forall|row: int, kind: int|
                    0 <= row < TALLY_ROWS && 0 <= kind < TALLY_KINDS ==> #[trigger] old(self).totals@[row * TALLY_KINDS + kind]
                        + n * 0x1_0000_0000 <= u64::MAX,
                forall|row: int, kind: int|
                    0 <= row < TALLY_ROWS && 0 <= kind < TALLY_KINDS ==> #[trigger] self.totals@[row * TALLY_KINDS + kind]
                        == old(self).totals@[row * TALLY_KINDS + kind] + tally(slots@.take(i as int), before, row, kind),
                forall|row: int, kind: int|
                    0 <= row < TALLY_ROWS && 0 <= kind < TALLY_KINDS ==> #[trigger] tally(slots@.take(i as int), before, row, kind)
                        <= i * 0x1_0000_0000,
            decreases n - i,
        {
            let s = slots[i];
            let m = self.memory[i];
            let row_t: usize = 1 + s.tier as usize;
            let ghost prev_totals = self.totals@;
            let ghost prev_memory = self.memory@;
            proof {
                assert(slots@.take(i as int + 1).drop_last() =~= slots@.take(i as int));
                assert(m == before[i as int]);
            }
            let mut kind: usize = 0;
            while kind < TALLY_KINDS
                invariant
                    kind <= TALLY_KINDS,
                    self.totals@.len() == TALLY_ROWS * TALLY_KINDS,
                    self.memory@ == prev_memory,
                    row_t == 1 + s.tier,
                    s.tier < 4,
                    prev_totals.len() == TALLY_ROWS * TALLY_KINDS,
                    forall|row: int, k: int|
                        0 <= row < TALLY_ROWS && 0 <= k < TALLY_KINDS ==> #[trigger] self.totals@[row * TALLY_KINDS + k]
                            == prev_totals[row * TALLY_KINDS + k] + if k < kind && in_row(s, row) {
                            slot_gain(s, m, k)
                        } else {
                            0
                        },
                    forall|row: int, k: int|
                        0 <= row < TALLY_ROWS && 0 <= k < TALLY_KINDS ==> #[trigger] prev_totals[row * TALLY_KINDS + k]
                            + 0x1_0000_0000 <= u64::MAX,
                decreases TALLY_KINDS - kind,
            {
                let gain = slot_gain_exec(s, m, kind);
                let a = kind;
                let b = row_t * TALLY_KINDS + kind;
                assert(self.totals@[0 * TALLY_KINDS + kind as int] == prev_totals[0 * TALLY_KINDS + kind as int]);
                assert(prev_totals[0 * TALLY_KINDS + kind as int] + 0x1_0000_0000 <= u64::MAX);
                assert(self.totals@[row_t * TALLY_KINDS + kind as int] == prev_totals[row_t * TALLY_KINDS + kind as int]);
                assert(prev_totals[row_t * TALLY_KINDS + kind as int] + 0x1_0000_0000 <= u64::MAX);
                let va = self.totals[a];
                self.totals.set(a, va + gain);
                let vb = self.totals[b];
                self.totals.set(b, vb + gain);
                kind = kind + 1;
            }
            self.memory.set(i, slot_after_exec(s, m));
            proof {
                assert forall|row: int, kind: int|
                    0 <= row < TALLY_ROWS && 0 <= kind < TALLY_KINDS implies #[trigger] tally(
                        slots@.take(i as int + 1),
                        before,
                        row,
                        kind,
                    ) <= (i + 1) * 0x1_0000_0000 by {
                    let t = slots@.take(i as int + 1);
                    assert(t.drop_last() =~= slots@.take(i as int));
                    assert(t[i as int] == s);
                    assert(tally(slots@.take(i as int), before, row, kind) <= i * 0x1_0000_0000);
                    assert(slot_gain(s, m, kind) <= u32::MAX);
                }
            }
            i = i + 1;
        }
        proof {
            assert(slots@.take(n as int) =~= slots@);
        }
    }
}

fn slot_gain_exec(s: SlotTick, m: SlotMemory, kind: usize) -> (r: u64)
    ensures
        r == slot_gain(s, m, kind as int),
        r <= u32::MAX,
{
    if !s.live {
        0
    } else if kind == 0 {
        1
    } else if kind == 1 {
        if s.observed { 1 } else { 0 }
    } else if kind == 2 {
        s.pair_overlaps as u64
    } else if kind == 3 {
        if s.penetrating { 1 } else { 0 }
    } else if kind == 4 {
        if s.penetrating && !m.in_contact { 1 } else { 0 }
    } else if 5 <= kind && kind <= 8 {
        let want = (kind - 5) as u8;
        match s.partner_tier {
            Some(t) => if s.penetrating && t == want { 1 } else { 0 },
            None => 0,
        }
    } else if kind == 9 {
        if s.deep { 1 } else { 0 }
    } else if kind == 10 {
        if s.stalled { 1 } else { 0 }
    } else if kind == 11 {
        if s.stalled && !m.in_stall { 1 } else { 0 }
    } else if kind == 12 {
        if s.stalled && !m.in_stall && !m.ever_stalled { 1 } else { 0 }
    } else {
        0
    }
}

fn slot_after_exec(s: SlotTick, m: SlotMemory) -> (r: SlotMemory)
    ensures
        r == slot_after(s, m),
{
    if !s.live {
        m
    } else {
        SlotMemory {
            in_contact: if s.penetrating { true } else if s.observed { false } else { m.in_contact },
            in_stall: if s.stalled { true } else if !s.braking { false } else { m.in_stall },
            ever_stalled: m.ever_stalled || (s.stalled && !m.in_stall),
        }
    }
}

/// The tiers' tallies add up to the whole crowd's: every slot belongs to
/// exactly one tier.
pub proof fn lemma_tiers_sum_to_crowd(slots: Seq<SlotTick>, mem: Seq<SlotMemory>, kind: int)
    requires
        forall|i: int| 0 <= i < slots.len() ==> (#[trigger] slots[i]).tier < 4,
    ensures
        tally(slots, mem, 0, kind) == tally(slots, mem, 1, kind) + tally(slots, mem, 2, kind) + tally(slots, mem, 3, kind)
            + tally(slots, mem, 4, kind),
    decreases slots.len(),
{
    if slots.len() > 0 {
        let d = slots.drop_last();
        assert forall|i: int| 0 <= i < d.len() implies (#[trigger] d[i]).tier < 4 by {
            assert(d[i] == slots[i]);
        }
        lemma_tiers_sum_to_crowd(d, mem, kind);
        assert(slots[slots.len() - 1].tier < 4);
    }
}

} // verus!
