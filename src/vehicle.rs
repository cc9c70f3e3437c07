//! Vehicles: a route intention, a per-tick movement budget, and the state
//! machine that spends it.

use vstd::prelude::*;
use crate::roadmap::Distance;

verus! {

/// A position on a road: `offset` from its start, in `0..weight`.
#[derive(Clone, Copy, Debug, PartialEq, Eq, Structural)]
pub struct Location {
    pub road: i32,
    pub offset: Distance,
}

/// A route under way: the current position, the roads still to take (the
/// next one last), and the destination.
pub struct GotoIntention {
    pub from: Location,
    pub via: Vec<i32>,
    pub to: Location,
}

/// A vehicle at the end of `previous_road`, waiting for the light before it
/// enters `next.from.road`.
pub struct BlockedIntention {
    pub next: GotoIntention,
    pub previous_road: i32,
}

/// What a vehicle is doing.
pub enum Intention {
    /// The route is complete.
    Die,
    /// Moving along the route.
    Goto(GotoIntention),
    /// Waiting at a light.
    Blocked(BlockedIntention),
    /// Admitted by a light after a wait that used up part of the tick;
    /// `arrival` is when it reached the light and `remaining` the budget
    /// left after the wait. It moves on next tick.
    Pending { next: GotoIntention, arrival: i64, remaining: Distance },
}

/// What the simulation needs of a vehicle: its id, its route, and a
/// per-tick budget that moving and waiting spend.
pub trait Vehicle {
    /// The budget accounts of the vehicle add up.
    spec fn well_formed(&self) -> bool;

    /// What is left of this tick's budget.
    spec fn left_budget(&self) -> int;

    /// What the current tick allowed.
    spec fn tick_budget(&self) -> int;

    fn intention(&self) -> &Intention;

    fn get_id(&self) -> i32;

    fn get_left_equivalent_distance(&self) -> (r: Distance)
        ensures
            r == self.left_budget(),
    ;

    /// Moves `distance`, spending it.
    fn go_distance(&mut self, distance: Distance)
        requires
            old(self).well_formed(),
            0 <= distance <= old(self).left_budget(),
        ensures
            final(self).well_formed(),
            final(self).left_budget() == old(self).left_budget() - distance,
            final(self).tick_budget() == old(self).tick_budget(),
    ;

    /// Waits `wait`, spending it, or the whole rest of the budget if that is
    /// less; the result tells whether budget is left after the wait.
    fn blocked_by(&mut self, wait: Distance) -> (r: bool)
        requires
            old(self).well_formed(),
            wait >= 0,
        ensures
            final(self).well_formed(),
            r == (wait < old(self).left_budget()),
            r ==> final(self).left_budget() == old(self).left_budget() - wait,
            !r ==> final(self).left_budget() == 0,
            final(self).tick_budget() == old(self).tick_budget(),
    ;

    /// Starts a tick of `total_tsos`, with a fresh budget.
    fn new_tick(&mut self, total_tsos: i64)
        requires
            old(self).well_formed(),
            total_tsos >= 0,
            old(self).tick_budget_for(total_tsos as int) <= i64::MAX,
        ensures
            final(self).well_formed(),
            final(self).tick_budget() == old(self).tick_budget_for(total_tsos as int),
            final(self).left_budget() == final(self).tick_budget(),
    ;

    /// The budget that a tick of `total_tsos` gives.
    spec fn tick_budget_for(&self, total_tsos: int) -> int;
}

/// A vehicle that follows its route end to end.
///
/// `budget` is what the current tick allowed it; `consumed` what it has
/// spent of that so far, by moving or by waiting, and
/// `left_equivalent_distance` the rest. `running_distance` and
/// `blocked_distance` add up, over the whole run and saturating, how far
/// it moved and how long it waited, in distance-equivalent units.
pub struct EndToEndCar {
    pub id: i32,
    pub speed: Distance,
    pub intention: Intention,
    pub budget: Distance,
    pub consumed: Distance,
    pub left_equivalent_distance: Distance,
    pub blocked_distance: Distance,
    pub running_distance: Distance,
}

/// `i` is where a vehicle in `g` stands once it reached the end of its
/// road: at the start of the last road of `g.via`, or of the destination
/// road when `via` is empty, waiting at the light after `g.from.road`; or
/// retired if it was on the destination road.
pub open spec fn reached_boundary(g: GotoIntention, i: Intention) -> bool {
    if g.via@.len() > 0 {
        i matches Intention::Blocked(b) && b.previous_road == g.from.road && b.next.from
            == (Location { road: g.via@.last(), offset: 0 }) && b.next.via@ == g.via@.drop_last()
            && b.next.to == g.to
    } else if g.from.road == g.to.road {
        i is Die
    } else {
        i matches Intention::Blocked(b) && b.previous_road == g.from.road && b.next.from
            == (Location { road: g.to.road, offset: 0 }) && b.next.via@ == g.via@ && b.next.to
            == g.to
    }
}

/// `b` is `a` after it drove along its current road of length `weight`
/// (see `EndToEndCar::run_on_road`); `crossed` tells whether it reached the
/// end of the road.
pub open spec fn ran_on_road(a: EndToEndCar, b: EndToEndCar, weight: int, crossed: bool) -> bool {
    let g = a.intention->Goto_0;
    let rest = weight - g.from.offset;
    let left = a.left_equivalent_distance;
    &&& a.intention is Goto
    &&& b.id == a.id
    &&& b.speed == a.speed
    &&& b.budget == a.budget
    &&& b.blocked_distance == a.blocked_distance
    &&& crossed == (left >= rest)
    &&& crossed ==> b.left_equivalent_distance == left - rest && b.running_distance == sat_add(
        a.running_distance as int,
        rest,
    ) && reached_boundary(g, b.intention)
    &&& !crossed ==> b.left_equivalent_distance == 0 && b.running_distance == sat_add(
        a.running_distance as int,
        left as int,
    ) && (b.intention matches Intention::Goto(h) && h.from.road == g.from.road && h.from.offset
        == g.from.offset + left && h.via@ == g.via@ && h.to == g.to)
}

/// `b` is `a` after it faced a light that asked for a wait of `wait`, at
/// instant `arrival` (see `EndToEndCar::face_light`).
pub open spec fn faced_light(a: EndToEndCar, b: EndToEndCar, wait: int, arrival: i64) -> bool {
    let bl = a.intention->Blocked_0;
    let left = a.left_equivalent_distance;
    &&& a.intention is Blocked
    &&& b.id == a.id
    &&& b.speed == a.speed
    &&& b.budget == a.budget
    &&& b.running_distance == a.running_distance
    &&& wait == 0 ==> b.intention == Intention::Goto(bl.next) && b.left_equivalent_distance == left
        && b.blocked_distance == a.blocked_distance
    &&& wait != 0 && wait >= left ==> b.intention == a.intention && b.left_equivalent_distance == 0
        && b.blocked_distance == sat_add(a.blocked_distance as int, wait)
    &&& 0 < wait < left ==> b.left_equivalent_distance == left - wait && b.blocked_distance
        == sat_add(a.blocked_distance as int, wait) && b.intention == (Intention::Pending {
        next: bl.next,
        arrival,
        remaining: (left - wait) as i64,
    })
}

/// Adds two non-negative distances, stopping at the largest `Distance`.
pub open spec fn sat_add(a: int, b: int) -> int {
    if a + b > i64::MAX {
        i64::MAX as int
    } else {
        a + b
    }
}

/// `a + b`, or the largest `Distance` if that overflows.
fn saturating(a: Distance, b: Distance) -> (r: Distance)
    requires
        a >= 0,
        b >= 0,
    ensures
        r == sat_add(a as int, b as int),
{
    if a > i64::MAX - b {
        i64::MAX
    } else {
        a + b
    }
}

impl EndToEndCar {
    /// The budget accounts add up: what was spent and what is left make the
    /// tick's allowance, and the speed is positive.
    pub open spec fn wf(&self) -> bool {
        &&& self.speed >= 1
        &&& self.consumed >= 0
        &&& self.left_equivalent_distance >= 0
        &&& self.consumed + self.left_equivalent_distance == self.budget
        &&& self.blocked_distance >= 0
        &&& self.running_distance >= 0
    }

    /// A vehicle with a route and nothing spent yet.
    pub fn new(id: i32, speed: Distance, goto: GotoIntention) -> (r: EndToEndCar)
        requires
            speed >= 1,
        ensures
            r.wf(),
            r.id == id,
            r.speed == speed,
            r.intention == Intention::Goto(goto),
            r.budget == 0,
            r.running_distance == 0,
            r.blocked_distance == 0,
    {
        EndToEndCar {
            id,
            speed,
            intention: Intention::Goto(goto),
            budget: 0,
            consumed: 0,
            left_equivalent_distance: 0,
            blocked_distance: 0,
            running_distance: 0,
        }
    }

    pub fn intention(&self) -> (r: &Intention)
        ensures
            *r == self.intention,
    {
        &self.intention
    }

    pub fn get_id(&self) -> (r: i32)
        ensures
            r == self.id,
    {
        self.id
    }

    pub fn get_left_equivalent_distance(&self) -> (r: Distance)
        ensures
            r == self.left_equivalent_distance,
    {
        self.left_equivalent_distance
    }

    pub fn get_blocked_distance(&self) -> (r: Distance)
        ensures
            r == self.blocked_distance,
    {
        self.blocked_distance
    }

    pub fn get_running_distance(&self) -> (r: Distance)
        ensures
            r == self.running_distance,
    {
        self.running_distance
    }

    /// Moves `distance` along the road, spending it from the budget.
    pub fn go_distance(&mut self, distance: Distance)
        requires
            old(self).wf(),
            0 <= distance <= old(self).left_equivalent_distance,
        ensures
            final(self).wf(),
            final(self).left_equivalent_distance == old(self).left_equivalent_distance - distance,
            final(self).consumed == old(self).consumed + distance,
            final(self).running_distance == sat_add(old(self).running_distance as int, distance as int),
            final(self).budget == old(self).budget,
            final(self).blocked_distance == old(self).blocked_distance,
            final(self).id == old(self).id,
            final(self).speed == old(self).speed,
            final(self).intention == old(self).intention,
    {
        self.running_distance = saturating(self.running_distance, distance);
        self.left_equivalent_distance = self.left_equivalent_distance - distance;
        self.consumed = self.consumed + distance;
    }

    /// Waits `wait` at a light. Returns whether the vehicle still has budget
    /// after the wait; if the wait takes the whole rest of the budget, it is
    /// all spent waiting. The blocked time counts the whole wait.
    pub fn blocked_by(&mut self, wait: Distance) -> (r: bool)
        requires
            old(self).wf(),
            wait >= 0,
        ensures
            final(self).wf(),
            r == (wait < old(self).left_equivalent_distance),
            r ==> final(self).left_equivalent_distance == old(self).left_equivalent_distance - wait,
            !r ==> final(self).left_equivalent_distance == 0,
            final(self).consumed == old(self).consumed + (old(self).left_equivalent_distance
                - final(self).left_equivalent_distance),
            final(self).blocked_distance == sat_add(old(self).blocked_distance as int, wait as int),
            final(self).budget == old(self).budget,
            final(self).running_distance == old(self).running_distance,
            final(self).id == old(self).id,
            final(self).speed == old(self).speed,
            final(self).intention == old(self).intention,
    {
        let spent = if wait < self.left_equivalent_distance {
            wait
        } else {
            self.left_equivalent_distance
        };
        self.blocked_distance = saturating(self.blocked_distance, wait);
        self.left_equivalent_distance = self.left_equivalent_distance - spent;
        self.consumed = self.consumed + spent;
        spent == wait && spent < self.left_equivalent_distance + spent
    }

    /// Starts a tick: the budget becomes `speed * total_tsos`, none of it
    /// spent.
    pub fn new_tick(&mut self, total_tsos: i64)
        requires
            old(self).wf(),
            total_tsos >= 0,
            old(self).speed * total_tsos <= i64::MAX,
        ensures
            final(self).wf(),
            final(self).budget == old(self).speed * total_tsos,
            final(self).left_equivalent_distance == final(self).budget,
            final(self).consumed == 0,
            final(self).blocked_distance == old(self).blocked_distance,
            final(self).running_distance == old(self).running_distance,
            final(self).id == old(self).id,
            final(self).speed == old(self).speed,
            final(self).intention == old(self).intention,
    {
        assert(self.speed * total_tsos >= 0) by (nonlinear_arith)
            requires
                self.speed >= 1,
                total_tsos >= 0,
        ;
        self.budget = self.speed * total_tsos;
        self.left_equivalent_distance = self.budget;
        self.consumed = 0;
    }

    /// Drives a vehicle in `Goto` along its current road, of length
    /// `weight`. If the rest of the road fits in the budget, the vehicle
    /// spends that much and reaches the boundary: it then waits at the light
    /// before the next road (the last of `via`, or the destination road when
    /// `via` is empty), or retires if it was on the destination road already;
    /// the result is `true`. Otherwise it moves as far as the budget takes it,
    /// spends all of it, and the result is `false`.
    pub fn run_on_road(&mut self, weight: Distance) -> (crossed: bool)
        requires
            old(self).wf(),
            old(self).intention is Goto,
            0 <= (old(self).intention->Goto_0).from.offset < weight,
        ensures
            final(self).wf(),
            ran_on_road(*old(self), *final(self), weight as int, crossed),
    {
        let mut it = Intention::Die;
        core::mem::swap(&mut self.intention, &mut it);
        let mut g = match it {
            Intention::Goto(g) => g,
            _ => {
                return false;
            },
        };
        let ability = self.left_equivalent_distance;
        let rest = weight - g.from.offset;
        if ability >= rest {
            self.go_distance(rest);
            let previous_road = g.from.road;
            match g.via.pop() {
                Some(r) => {
                    g.from = Location { road: r, offset: 0 };
                    self.intention = Intention::Blocked(BlockedIntention { next: g, previous_road });
                },
                None => {
                    if g.from.road == g.to.road {
                        self.intention = Intention::Die;
                    } else {
                        g.from = Location { road: g.to.road, offset: 0 };
                        self.intention = Intention::Blocked(BlockedIntention { next: g, previous_road });
                    }
                },
            }
            true
        } else {
            g.from.offset = g.from.offset + ability;
            self.go_distance(ability);
            self.intention = Intention::Goto(g);
            false
        }
    }

    /// Faces the light before the next road, which asks for a wait of
    /// `wait`. With no wait the vehicle enters the road at once and is in
    /// `Goto` again. A wait that takes the whole rest of the budget keeps it
    /// `Blocked` with nothing left. A shorter wait is spent, and the vehicle
    /// becomes `Pending`, holding `arrival` and the budget left after the
    /// wait.
    pub fn face_light(&mut self, wait: Distance, arrival: i64)
        requires
            old(self).wf(),
            old(self).intention is Blocked,
            wait >= 0,
        ensures
            final(self).wf(),
            faced_light(*old(self), *final(self), wait as int, arrival),
    {
        if wait == 0 {
            let mut it = Intention::Die;
            core::mem::swap(&mut self.intention, &mut it);
            match it {
                Intention::Blocked(b) => {
                    self.intention = Intention::Goto(b.next);
                },
                other => {
                    self.intention = other;
                },
            }
        } else if self.blocked_by(wait) {
            let mut it = Intention::Die;
            core::mem::swap(&mut self.intention, &mut it);
            match it {
                Intention::Blocked(b) => {
                    self.intention = Intention::Pending {
                        next: b.next,
                        arrival,
                        remaining: self.left_equivalent_distance,
                    };
                },
                other => {
                    self.intention = other;
                },
            }
        }
    }
}

impl Vehicle for EndToEndCar {
    open spec fn well_formed(&self) -> bool {
        EndToEndCar::wf(self)
    }

    open spec fn left_budget(&self) -> int {
        self.left_equivalent_distance as int
    }

    open spec fn tick_budget(&self) -> int {
        self.budget as int
    }

    open spec fn tick_budget_for(&self, total_tsos: int) -> int {
        self.speed * total_tsos
    }

    fn intention(&self) -> &Intention {
        EndToEndCar::intention(self)
    }

    fn get_id(&self) -> i32 {
        EndToEndCar::get_id(self)
    }

    fn get_left_equivalent_distance(&self) -> (r: Distance) {
        EndToEndCar::get_left_equivalent_distance(self)
    }

    fn go_distance(&mut self, distance: Distance) {
        EndToEndCar::go_distance(self, distance)
    }

    fn blocked_by(&mut self, wait: Distance) -> (r: bool) {
        EndToEndCar::blocked_by(self, wait)
    }

    fn new_tick(&mut self, total_tsos: i64) {
        EndToEndCar::new_tick(self, total_tsos)
    }
}

} // verus!
