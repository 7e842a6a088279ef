//! Tile-path reconstruction for the tiled navigation search.

use vstd::prelude::*;

verus! {

/// The tile `steps` predecessor links back from `tile`.
pub open spec fn predecessor(came_from: Seq<u32>, tile: u32, steps: nat) -> u32
    decreases steps,
{
    if steps == 0 {
        tile
    } else {
        let before = predecessor(came_from, tile, (steps - 1) as nat);
        came_from[before as int]
    }
}

/// Following predecessor links back from `to` reaches `from` after `steps`
/// links, every tile on the way being a tile of the search.
pub open spec fn leads_back(came_from: Seq<u32>, from: u32, to: u32, steps: nat) -> bool {
    &&& predecessor(came_from, to, steps) == from
    &&& forall|k: nat| k < steps ==> (#[trigger] predecessor(came_from, to, k)) < came_from.len()
}

/// The path the search found to `to`: from `from`, each tile the recorded
/// predecessor of the next, ending at `to`.
///
/// The search records a predecessor for every tile it reaches, so the links
/// back from a reached `to` lead to `from`.
pub fn reconstruct(came_from: &Vec<u32>, from: u32, to: u32) -> (path: Vec<u32>)
    requires
        exists|steps: nat| leads_back(came_from@, from, to, steps),
    ensures
        path@.len() > 0,
        path@[0] == from,
        path@.last() == to,
        forall|i: int| 0 <= i < path@.len() - 1 ==> #[trigger] came_from@[path@[i + 1] as int] == path@[i],
{
    let ghost steps = choose|steps: nat| leads_back(came_from@, from, to, steps);
    let ghost least = least_steps(came_from@, from, to, steps);
    let mut back: Vec<u32> = Vec::new();
    back.push(to);
    let mut cursor = to;
    let ghost mut k: nat = 0;
    while cursor != from
        invariant
            leads_back(came_from@, from, to, least),
            forall|j: nat| j < least ==> predecessor(came_from@, to, j) != from,
            k <= least,
            cursor == predecessor(came_from@, to, k),
            back@.len() == k + 1,
            back@[0] == to,
            forall|j: int| 0 <= j <= k ==> #[trigger] back@[j] == predecessor(came_from@, to, j as nat),
        decreases least - k,
    {
        proof {
            if k == least {
                assert(cursor == from);
            }
            assert(predecessor(came_from@, to, k) < came_from@.len());
        }
        cursor = came_from[cursor as usize];
        back.push(cursor);
        proof {
            k = k + 1;
            assert(back@[k as int] == predecessor(came_from@, to, k));
        }
    }
    let mut path: Vec<u32> = Vec::new();
    let mut i = back.len();
    while i > 0
        invariant
            i <= back@.len(),
            back@.len() == k + 1,
            path@.len() == back@.len() - i,
            forall|j: int| 0 <= j < path@.len() ==> #[trigger] path@[j] == back@[back@.len() - 1 - j],
        decreases i,
    {
        i = i - 1;
        path.push(back[i]);
    }
    proof {
        assert(path@[0] == back@[k as int]);
        assert(path@.last() == back@[0]);
        assert forall|i: int| 0 <= i < path@.len() - 1 implies #[trigger] came_from@[path@[i + 1] as int] == path@[i] by {
            let j = (k - 1 - i) as nat;
            assert(path@[i + 1] == back@[j as int]);
            assert(path@[i] == back@[(j + 1) as int]);
            assert(back@[(j + 1) as int] == predecessor(came_from@, to, (j + 1) as nat));
        }
    }
    path
}

/// The fewest links back from `to` to `from`.
proof fn least_steps(came_from: Seq<u32>, from: u32, to: u32, steps: nat) -> (least: nat)
    requires
        leads_back(came_from, from, to, steps),
    ensures
        least <= steps,
        leads_back(came_from, from, to, least),
        forall|j: nat| j < least ==> predecessor(came_from, to, j) != from,
    decreases steps,
{
    if exists|j: nat| j < steps && predecessor(came_from, to, j) == from {
        let j = choose|j: nat| j < steps && predecessor(came_from, to, j) == from;
        least_steps(came_from, from, to, j)
    } else {
        steps
    }
}

} // verus!
