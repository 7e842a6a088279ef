//! Route bookkeeping of the planning phase: the portals each live route
//! crosses, and invalidating the routes through a portal that closed.

use vstd::prelude::*;
use crate::keyed::U64Map;
use crate::route::{RouteHandle, NO_ROUTE_INDEX};

verus! {

/// A portal of the navigation mesh.
#[derive(Clone, Copy, Debug, PartialEq, Eq, Structural)]
pub struct PortalId(pub u32);

/// How much search planning may spend per tick.
#[derive(Clone, Copy, Debug)]
pub struct PlanConfig {
    /// Node expansions a tick may start searches with.
    pub max_expansions_per_tick: u32,
}

impl PlanConfig {
    /// The default budget: 4000 expansions per tick.
    pub fn standard() -> (r: Self)
        ensures
            r.max_expansions_per_tick == 4000,
    {
        PlanConfig { max_expansions_per_tick: 4000 }
    }
}

/// Planning state kept across ticks: where the next scan resumes, and the
/// portals each live route crosses, by route handle.
#[derive(Debug)]
pub struct PlanState {
    resume_slot: u32,
    portals_of_route: U64Map<Vec<PortalId>>,
}

impl PlanState {
    /// The portals recorded for each route handle.
    pub closed spec fn routes(&self) -> Map<u64, Seq<PortalId>> {
        self.portals_of_route.as_map().map_values(|v: Vec<PortalId>| v@)
    }

    pub closed spec fn resume(&self) -> u32 {
        self.resume_slot
    }

    pub closed spec fn wf(&self) -> bool {
        self.portals_of_route.wf()
    }

    /// No recorded routes; the scan starts at slot 0.
    pub fn new() -> (r: Self)
        ensures
            r.wf(),
            r.routes() == Map::<u64, Seq<PortalId>>::empty(),
            r.resume() == 0,
    {
        let r = PlanState { resume_slot: 0, portals_of_route: U64Map::new() };
        assert(r.routes() =~= Map::<u64, Seq<PortalId>>::empty());
        r
    }

    /// Record the portals route `handle` crosses.
    pub fn record_route(&mut self, handle: RouteHandle, portals: Vec<PortalId>)
        requires
            old(self).wf(),
        ensures
            final(self).wf(),
            final(self).routes() == old(self).routes().insert(handle.0 as u64, portals@),
            final(self).resume() == old(self).resume(),
    {
        let ghost p = portals@;
        self.portals_of_route.put(handle.0 as u64, portals);
        assert(self.routes() =~= old(self).routes().insert(handle.0 as u64, p));
    }

    /// The portals recorded for a live route handle, if any.
    pub fn portals_for(&self, handle: RouteHandle) -> (r: Option<&Vec<PortalId>>)
        requires
            self.wf(),
        ensures
            r is Some <==> self.routes().dom().contains(handle.0 as u64),
            r matches Some(v) ==> v@ == self.routes()[handle.0 as u64],
    {
        self.portals_of_route.get(handle.0 as u64)
    }
}

/// A live route of an agent still travelling crosses `portal`.
pub open spec fn route_crosses(state: PlanState, arrived: bool, h: RouteHandle, portal: PortalId) -> bool {
    &&& !arrived
    &&& h.0 != NO_ROUTE_INDEX
    &&& state.routes().dom().contains(h.0 as u64)
    &&& state.routes()[h.0 as u64].contains(portal)
}

/// How many of the first `n` agents have a route through `portal`.
pub open spec fn crossing_count(
    state: PlanState,
    arrived: Seq<bool>,
    route: Seq<RouteHandle>,
    portal: PortalId,
    n: nat,
) -> nat
    decreases n,
{
    if n == 0 {
        0
    } else {
        crossing_count(state, arrived, route, portal, (n - 1) as nat) + if route_crosses(
            state,
            arrived[n - 1],
            route[n - 1],
            portal,
        ) {
            1nat
        } else {
            0nat
        }
    }
}

fn contains_portal(v: &Vec<PortalId>, portal: PortalId) -> (r: bool)
    ensures
        r == v@.contains(portal),
{
    let mut i: usize = 0;
    while i < v.len()
        invariant
            i <= v@.len(),
            forall|j: int| 0 <= j < i ==> v@[j] != portal,
        decreases v@.len() - i,
    {
        if v[i].0 == portal.0 {
            assert(v@[i as int] == portal);
            return true;
        }
        i = i + 1;
    }
    false
}

/// Clear the route of every travelling agent whose route crosses `portal`,
/// resetting its place along the route; returns how many were cleared.
/// Agents that arrived, and agents without a route, are left alone.
pub fn invalidate_portal(
    arrived: &Vec<bool>,
    route: &mut Vec<RouteHandle>,
    route_index: &mut Vec<u16>,
    state: &PlanState,
    portal: PortalId,
) -> (count: usize)
    requires
        state.wf(),
        arrived@.len() == old(route)@.len(),
        arrived@.len() == old(route_index)@.len(),
    ensures
        final(route)@.len() == old(route)@.len(),
        final(route_index)@.len() == old(route_index)@.len(),
        forall|i: int|
            0 <= i < arrived@.len() ==> if route_crosses(*state, arrived@[i], old(route)@[i], portal) {
                (#[trigger] final(route)@[i]).0 == NO_ROUTE_INDEX && final(route_index)@[i] == 0
            } else {
                final(route)@[i] == old(route)@[i] && final(route_index)@[i] == old(route_index)@[i]
            },
        count == crossing_count(*state, arrived@, old(route)@, portal, arrived@.len()),
{
    let n = arrived.len();
    let mut count: usize = 0;
    let mut slot: usize = 0;
    while slot < n
        invariant
            state.wf(),
            n == arrived@.len(),
            route@.len() == n,
            route_index@.len() == n,
            slot <= n,
            count <= slot,
            count == crossing_count(*state, arrived@, old(route)@, portal, slot as nat),
            forall|i: int|
                #![trigger route@[i]]
                0 <= i < slot && route_crosses(*state, arrived@[i], old(route)@[i], portal) ==> route@[i].0 == NO_ROUTE_INDEX
                    && route_index@[i] == 0,
            forall|i: int|
                #![trigger route@[i]]
                0 <= i < slot && !route_crosses(*state, arrived@[i], old(route)@[i], portal) ==> route@[i] == old(route)@[i]
                    && route_index@[i] == old(route_index)@[i],
            forall|i: int|
                #![trigger route@[i]]
                slot <= i < n ==> route@[i] == old(route)@[i] && route_index@[i] == old(route_index)@[i],
        decreases n - slot,
    {
        let handle = route[slot];
        let mut crosses = false;
        if !arrived[slot] && handle.0 != NO_ROUTE_INDEX {
            match state.portals_for(handle) {
                Some(v) => {
                    crosses = contains_portal(v, portal);
                },
                None => {},
            }
        }
        assert(crosses == route_crosses(*state, arrived@[slot as int], old(route)@[slot as int], portal));
        let ghost r0 = route@;
        let ghost x0 = route_index@;
        assert forall|i: int| slot <= i < n implies r0[i] == old(route)@[i] && x0[i] == old(route_index)@[i] by {
            assert(route@[i] == old(route)@[i]);
        }
        assert forall|i: int| 0 <= i < slot && !route_crosses(*state, arrived@[i], old(route)@[i], portal) implies r0[i]
            == old(route)@[i] && x0[i] == old(route_index)@[i] by {
            assert(route@[i] == old(route)@[i]);
        }
        if crosses {
            route.set(slot, RouteHandle(NO_ROUTE_INDEX));
            route_index.set(slot, 0);
            count = count + 1;
        }
        proof {
            assert forall|i: int| 0 <= i < n && i != slot implies #[trigger] route@[i] == r0[i] && route_index@[i] == x0[i] by {}
            assert forall|i: int| slot + 1 <= i < n implies #[trigger] route@[i] == old(route)@[i] && route_index@[i]
                == old(route_index)@[i] by {
                assert(route@[i] == r0[i] && route_index@[i] == x0[i]);
            }
            assert forall|i: int|
                0 <= i < slot + 1 && !route_crosses(*state, arrived@[i], old(route)@[i], portal) implies #[trigger] route@[i]
                == old(route)@[i] && route_index@[i] == old(route_index)@[i] by {
                assert(route@[i] == r0[i] && route_index@[i] == x0[i]);
            }
        }
        slot = slot + 1;
    }
    count
}

} // verus!
