//! Commuter state and decision reasons reported in snapshots.

use vstd::prelude::*;

verus! {

#[derive(Clone, Copy, Debug, PartialEq, Eq, Structural)]
pub enum CommuterState {
    Unspawned,
    Travel,
    Arrived,
    Blocked,
}

#[derive(Clone, Copy, Debug, PartialEq, Eq, Structural)]
pub enum DecisionReason {
    NoneRecorded,
    InitialDestination,
    FollowCorridor,
    PortalClosedReplan,
    PortalReopened,
    DestinationReached,
    NoRoute,
}

pub open spec fn decision_text(r: DecisionReason) -> Seq<char> {
    match r {
        DecisionReason::NoneRecorded => "no decision recorded"@,
        DecisionReason::InitialDestination => "initial destination assigned"@,
        DecisionReason::FollowCorridor => "following planned corridor"@,
        DecisionReason::PortalClosedReplan => "named portal closed; corridor invalidated"@,
        DecisionReason::PortalReopened => "named portal reopened"@,
        DecisionReason::DestinationReached => "destination reached"@,
        DecisionReason::NoRoute => "no route to destination"@,
    }
}

impl DecisionReason {
    pub fn text(self) -> (r: &'static str)
        ensures
            r@ == decision_text(self),
    {
        match self {
            DecisionReason::NoneRecorded => "no decision recorded",
            DecisionReason::InitialDestination => "initial destination assigned",
            DecisionReason::FollowCorridor => "following planned corridor",
            DecisionReason::PortalClosedReplan => "named portal closed; corridor invalidated",
            DecisionReason::PortalReopened => "named portal reopened",
            DecisionReason::DestinationReached => "destination reached",
            DecisionReason::NoRoute => "no route to destination",
        }
    }
}

#[derive(Clone, Debug, PartialEq, Eq)]
pub struct TimedPortalInput {
    pub tick: u64,
    pub portal_id: String,
    pub portal_index: u32,
    pub authored_ordinal: u32,
    pub open: bool,
}

#[derive(Clone, Debug, PartialEq, Eq)]
pub enum PortalControlError {
    MissingNavigation,
    UnknownPortal(String),
}

} // verus!
