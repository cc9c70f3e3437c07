//! Admission control at the boundary between two roads.

use vstd::prelude::*;
use crate::roadmap::{Distance, RegulatedRoad};

verus! {

/// A traffic-light policy: how long a vehicle that reaches the end of
/// `from` at instant `arrival` must wait before it may enter `to`, in
/// distance-equivalent units; `0` admits it at once.
pub trait TrafficLight {
    /// The wait the policy asks of a vehicle entering `to` from `from` at
    /// instant `arrival`.
    spec fn wait_of(&self, from: RegulatedRoad, to: RegulatedRoad, arrival: i64) -> int;

    fn wait_time(&self, from: &RegulatedRoad, to: &RegulatedRoad, arrival: i64) -> (r: Distance)
        ensures
            r >= 0,
            r == self.wait_of(*from, *to, arrival),
    ;
}

/// Gives each inbound road of an intersection the right of way in turns of
/// `interval`; this reference policy admits every vehicle at once.
pub struct RoundRobinTrafficLight {
    pub interval: i64,
}

impl TrafficLight for RoundRobinTrafficLight {
    open spec fn wait_of(&self, from: RegulatedRoad, to: RegulatedRoad, arrival: i64) -> int {
        0
    }

    fn wait_time(&self, _from: &RegulatedRoad, _to: &RegulatedRoad, _arrival: i64) -> (r: Distance) {
        0
    }
}

/// Asks every vehicle for the same wait, `delay` (none if it is not
/// positive), whatever the roads and the instant.
pub struct FixedDelayTrafficLight {
    pub delay: Distance,
}

impl TrafficLight for FixedDelayTrafficLight {
    open spec fn wait_of(&self, from: RegulatedRoad, to: RegulatedRoad, arrival: i64) -> int {
        if self.delay > 0 {
            self.delay as int
        } else {
            0
        }
    }

    fn wait_time(&self, _from: &RegulatedRoad, _to: &RegulatedRoad, _arrival: i64) -> (r: Distance) {
        if self.delay > 0 {
            self.delay
        } else {
            0
        }
    }
}

} // verus!
