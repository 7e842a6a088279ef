use crowd_core::plan::{invalidate_portal, PlanConfig, PlanState, PortalId};
use crowd_core::route::{no_route, RouteHandle};

#[test]
fn invalidate_portal_clears_only_routes_through_the_portal() {
    let mut state = PlanState::new();
    state.record_route(RouteHandle(0), vec![PortalId(1), PortalId(2)]);
    state.record_route(RouteHandle(1), vec![PortalId(3)]);
    state.record_route(RouteHandle(2), vec![PortalId(2)]);
    let arrived = vec![false, false, true, false];
    let mut route = vec![RouteHandle(0), RouteHandle(1), RouteHandle(2), no_route()];
    let mut index = vec![3u16, 4, 5, 6];
    let cleared = invalidate_portal(&arrived, &mut route, &mut index, &state, PortalId(2));
    assert_eq!(cleared, 1);
    assert_eq!(route, vec![no_route(), RouteHandle(1), RouteHandle(2), no_route()]);
    assert_eq!(index, vec![0, 4, 5, 6]);
}

#[test]
fn recorded_portals_are_found_by_handle() {
    let mut state = PlanState::new();
    assert!(state.portals_for(RouteHandle(7)).is_none());
    state.record_route(RouteHandle(7), vec![PortalId(4)]);
    assert_eq!(state.portals_for(RouteHandle(7)), Some(&vec![PortalId(4)]));
    assert_eq!(PlanConfig::standard().max_expansions_per_tick, 4000);
}
