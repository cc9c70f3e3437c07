//! The per-road vehicle queues and the tick driver.

use vstd::prelude::*;
use vstd::multiset::Multiset;
use crate::roadmap::{
    arc, attained, dist, entry_wf, has_entry, optimal, roads_wf, table_view, Distance,
    RegulatedRoad, RegulatedRoadMap, Table,
};
use crate::trafficlight::TrafficLight;
use crate::vehicle::{faced_light, ran_on_road, EndToEndCar, GotoIntention, Intention, Location};

verus! {

broadcast use vstd::multiset::group_multiset_axioms, vstd::seq_lib::group_to_multiset_ensures;

/// The ways a tick can fail; each means an invariant of the simulation was
/// broken, and the simulation halts.
#[derive(Clone, Copy, Debug, PartialEq, Eq, Structural)]
pub enum SimError {
    /// A vehicle's road does not match the queue holding it, or its route
    /// names a road the map does not have.
    GraphInconsistency,
    /// A route was asked between roads with no path between them.
    UnreachableDestination,
    /// A queue holds a vehicle in a state it never receives.
    InvalidIntentionState,
}

/// The ids of a list of vehicles, with repeats.
pub open spec fn ids(s: Seq<EndToEndCar>) -> Multiset<i32> {
    s.map_values(|c: EndToEndCar| c.id).to_multiset()
}

/// Appending a vehicle adds its id.
pub proof fn lemma_ids_push(s: Seq<EndToEndCar>, c: EndToEndCar)
    ensures
        ids(s.push(c)) == ids(s).insert(c.id),
{
    let f = |c: EndToEndCar| c.id;
    assert(s.push(c).map_values(f) =~= s.map_values(f).push(c.id));
    vstd::seq_lib::to_multiset_build(s.map_values(f), c.id);
}

/// Taking the first vehicle off a list takes its id away.
pub proof fn lemma_ids_take_first(s: Seq<EndToEndCar>)
    requires
        s.len() > 0,
    ensures
        ids(s) == ids(s.remove(0)).insert(s[0].id),
{
    let f = |c: EndToEndCar| c.id;
    assert(s.remove(0).map_values(f) =~= s.map_values(f).remove(0));
    vstd::seq_lib::to_multiset_remove(s.map_values(f), 0);
    assert(s.map_values(f).to_multiset().count(s[0].id) > 0) by {
        vstd::seq_lib::to_multiset_contains(s.map_values(f), s[0].id);
        assert(s.map_values(f)[0] == s[0].id);
    }
}

/// Each vehicle is well formed, and a tick's allowance of `tso_per_tick`
/// fits its speed.
pub open spec fn cars_ok(s: Seq<EndToEndCar>, tso_per_tick: i64) -> bool {
    forall|i: int|
        0 <= i < s.len() ==> (#[trigger] s[i]).wf() && s[i].speed * tso_per_tick <= i64::MAX
}

/// Every vehicle of the list has this tick's allowance of `tso_per_tick`
/// as its budget.
pub open spec fn fresh(s: Seq<EndToEndCar>, tso_per_tick: i64) -> bool {
    forall|i: int| 0 <= i < s.len() ==> (#[trigger] s[i]).budget == s[i].speed * tso_per_tick
}

/// A newly arrived vehicle that this road may let run: in `Goto` or
/// `Pending`, on this road.
pub open spec fn arrival_ok(c: EndToEndCar, road: i32) -> bool {
    (c.intention is Goto || c.intention is Pending) && current_road(c.intention) == Some(road)
}

/// A vehicle waiting at the light before this road.
pub open spec fn waiting_ok(c: EndToEndCar, road: i32) -> bool {
    c.intention is Blocked && (c.intention->Blocked_0).next.from.road == road
}

/// A vehicle in the running queue of road `road` that can be driven: it is
/// retired, or on this road, and its route lies in the map.
pub open spec fn running_ok(c: EndToEndCar, road: i32, roads: Seq<RegulatedRoad>) -> bool {
    in_map(c, roads) && (c.intention is Die || current_road(c.intention) == Some(road))
}

/// A `Pending` vehicle moves on along its route; any other keeps its
/// intention.
pub open spec fn resumed(i: Intention) -> Intention {
    match i {
        Intention::Pending { next, .. } => Intention::Goto(next),
        _ => i,
    }
}

/// The light at instant `t` asks no wait of the vehicle `c`, blocked
/// before road `road`.
pub open spec fn admits<L: TrafficLight>(
    c: EndToEndCar,
    roads: Seq<RegulatedRoad>,
    road: i32,
    light: L,
    t: i64,
) -> bool {
    light.wait_of(roads[(c.intention->Blocked_0).previous_road - 1], roads[road - 1], t) == 0
}

/// The blocked vehicle `c` once admitted: it enters its next road in `Goto`.
pub open spec fn admitted_car(c: EndToEndCar) -> EndToEndCar {
    EndToEndCar { intention: Intention::Goto((c.intention->Blocked_0).next), ..c }
}

/// The blocked vehicles `s`, in order, split into those the light admits
/// (as they enter their road) and those that stay blocked.
pub open spec fn split_admitted<L: TrafficLight>(
    s: Seq<EndToEndCar>,
    roads: Seq<RegulatedRoad>,
    road: i32,
    light: L,
    t: i64,
) -> (Seq<EndToEndCar>, Seq<EndToEndCar>)
    decreases s.len(),
{
    if s.len() == 0 {
        (Seq::empty(), Seq::empty())
    } else {
        let p = split_admitted(s.drop_last(), roads, road, light, t);
        if admits(s.last(), roads, road, light, t) {
            (p.0.push(admitted_car(s.last())), p.1)
        } else {
            (p.0, p.1.push(s.last()))
        }
    }
}

/// The vehicle's route lies in the map, and it is on road `road`, waits
/// before it, or is retired.
pub open spec fn place_ok(c: EndToEndCar, road: i32, roads: Seq<RegulatedRoad>) -> bool {
    in_map(c, roads) && (current_road(c.intention) is None || current_road(c.intention) == Some(road))
}

/// A vehicle that queue `kind` of road `road` may hold (`0` newly
/// arrived, `1` running, `2` blocked): its route lies in the map, and it is
/// on this road, waits before it, or is retired, as the queue allows.
pub open spec fn queue_ok(c: EndToEndCar, road: i32, kind: u8, roads: Seq<RegulatedRoad>) -> bool {
    if kind == 0 {
        arrival_ok(c, road) && in_map(c, roads)
    } else if kind == 1 {
        running_ok(c, road, roads)
    } else {
        waiting_ok(c, road) && in_map(c, roads)
    }
}

/// The two vehicles agree in everything but their intention.
pub open spec fn same_car(a: EndToEndCar, b: EndToEndCar) -> bool {
    &&& a.id == b.id
    &&& a.speed == b.speed
    &&& a.budget == b.budget
    &&& a.consumed == b.consumed
    &&& a.left_equivalent_distance == b.left_equivalent_distance
    &&& a.blocked_distance == b.blocked_distance
    &&& a.running_distance == b.running_distance
}

/// The road a vehicle is on, or about to enter; none once retired.
pub open spec fn current_road(i: Intention) -> Option<i32> {
    match i {
        Intention::Die => None,
        Intention::Goto(g) => Some(g.from.road),
        Intention::Blocked(b) => Some(b.next.from.road),
        Intention::Pending { next, .. } => Some(next.from.road),
    }
}

/// `a` with a fresh tick's allowance of `tso_per_tick`, nothing of it spent.
pub open spec fn refilled(a: EndToEndCar, tso_per_tick: i64) -> EndToEndCar {
    EndToEndCar {
        id: a.id,
        speed: a.speed,
        intention: a.intention,
        budget: (a.speed * tso_per_tick) as i64,
        consumed: 0,
        left_equivalent_distance: (a.speed * tso_per_tick) as i64,
        blocked_distance: a.blocked_distance,
        running_distance: a.running_distance,
    }
}

/// Where the driven vehicles `outs` of road `road` go, in order: those in
/// `Goto` on the road to running, those `Blocked` before it to blocked,
/// those `Pending` on it to the newly arrived, retired ones to the retired,
/// and those on another road to the hand-offs, with that road.
pub open spec fn sorted_out(outs: Seq<EndToEndCar>, road: i32) -> (
    Seq<EndToEndCar>,
    Seq<EndToEndCar>,
    Seq<EndToEndCar>,
    Seq<EndToEndCar>,
    Seq<(i32, EndToEndCar)>,
)
    decreases outs.len(),
{
    if outs.len() == 0 {
        (Seq::empty(), Seq::empty(), Seq::empty(), Seq::empty(), Seq::empty())
    } else {
        let p = sorted_out(outs.drop_last(), road);
        let c = outs.last();
        match current_road(c.intention) {
            None => (p.0, p.1, p.2, p.3.push(c), p.4),
            Some(r) => if r != road {
                (p.0, p.1, p.2, p.3, p.4.push((r, c)))
            } else if c.intention is Goto {
                (p.0.push(c), p.1, p.2, p.3, p.4)
            } else if c.intention is Blocked {
                (p.0, p.1.push(c), p.2, p.3, p.4)
            } else {
                (p.0, p.1, p.2.push(c), p.3, p.4)
            },
        }
    }
}

/// The four queues of a road as sequences: newly arrived, running,
/// blocked, retired.
pub type QueueView = (Seq<EndToEndCar>, Seq<EndToEndCar>, Seq<EndToEndCar>, Seq<EndToEndCar>);

/// `c` with a `Pending` intention turned back into `Goto` (see `resumed`).
pub open spec fn resumed_car(c: EndToEndCar) -> EndToEndCar {
    EndToEndCar { intention: resumed(c.intention), ..c }
}

/// The queues of road `road` once its vehicles were let run at instant
/// `t`: the newly arrived ones resume after those running, the blocked
/// ones the light admits follow, the others stay blocked; every vehicle
/// still on the road gets a fresh allowance of `tpt`.
pub open spec fn let_in<L: TrafficLight>(
    a: QueueView,
    road: i32,
    roads: Seq<RegulatedRoad>,
    light: L,
    t: i64,
    tpt: i64,
) -> QueueView {
    let sp = split_admitted(a.2, roads, road, light, t);
    (
        Seq::empty(),
        (a.1 + a.0.map_values(|c: EndToEndCar| resumed_car(c)) + sp.0).map_values(
            |c: EndToEndCar| refilled(c, tpt),
        ),
        sp.1.map_values(|c: EndToEndCar| refilled(c, tpt)),
        a.3,
    )
}

/// `b` and the hand-offs `staged` are what running the vehicles of `a`, on
/// road `road`, gives: each running vehicle in turn is driven for the rest
/// of its budget, and `sorted_out` says where it then goes.
pub open spec fn ran<L: TrafficLight>(
    a: QueueView,
    b: QueueView,
    staged: Seq<(i32, EndToEndCar)>,
    road: i32,
    roads: Seq<RegulatedRoad>,
    light: L,
    t: i64,
) -> bool {
    exists|outs: Seq<EndToEndCar>|
        outs.len() == a.1.len() && (forall|i: int|
            0 <= i < outs.len() ==> drive_result(a.1[i], #[trigger] outs[i], roads, light, t)) && ({
            let so = #[trigger] sorted_out(outs, road);
            &&& b.1 == so.0
            &&& b.2 == a.2 + so.1
            &&& b.0 == a.0 + so.2
            &&& b.3 == a.3 + so.3
            &&& staged == so.4
        })
}

/// The hand-offs of every road, one road after the other.
pub open spec fn flatten(st: Seq<Seq<(i32, EndToEndCar)>>) -> Seq<(i32, EndToEndCar)>
    decreases st.len(),
{
    if st.len() == 0 {
        Seq::empty()
    } else {
        flatten(st.drop_last()) + st.last()
    }
}

/// The queues `vs` once each hand-off of `st`, in order, joined its road:
/// the blocked queue if it waits at the light, the newly arrived otherwise.
pub open spec fn merge_into(vs: Seq<QueueView>, st: Seq<(i32, EndToEndCar)>) -> Seq<QueueView>
    decreases st.len(),
{
    if st.len() == 0 {
        vs
    } else {
        let m = merge_into(vs, st.drop_last());
        let (r, c) = st.last();
        if 1 <= r <= m.len() {
            let v = m[r - 1];
            m.update(
                r - 1,
                if c.intention is Blocked {
                    (v.0, v.1, v.2.push(c), v.3)
                } else {
                    (v.0.push(c), v.1, v.2, v.3)
                },
            )
        } else {
            m
        }
    }
}

pub proof fn lemma_merge_len(vs: Seq<QueueView>, st: Seq<(i32, EndToEndCar)>)
    ensures
        merge_into(vs, st).len() == vs.len(),
    decreases st.len(),
{
    if st.len() > 0 {
        lemma_merge_len(vs, st.drop_last());
    }
}

/// The retired vehicles of the roads `vs`, one road after the other.
pub open spec fn all_tombs(vs: Seq<QueueView>) -> Seq<EndToEndCar>
    decreases vs.len(),
{
    if vs.len() == 0 {
        Seq::empty()
    } else {
        all_tombs(vs.drop_last()) + vs.last().3
    }
}

/// Each road `k + 1` of `ts`, in ascending order, let its vehicles run
/// (`let_in`) and then ran them (`ran`), ending with the queues `run[k]`
/// and the hand-offs `st[k]`.
pub open spec fn ran_all<L: TrafficLight>(
    ts: Seq<RoadTraffic>,
    run: Seq<QueueView>,
    st: Seq<Seq<(i32, EndToEndCar)>>,
    roads: Seq<RegulatedRoad>,
    light: L,
    t: i64,
    tpt: i64,
) -> bool {
    &&& run.len() == ts.len()
    &&& st.len() == ts.len()
    &&& forall|k: int|
        0 <= k < ts.len() ==> #[trigger] ran(
            let_in(ts[k].qview(), (k + 1) as i32, roads, light, t, tpt),
            run[k],
            st[k],
            (k + 1) as i32,
            roads,
            light,
            t,
        )
}

/// The road a vehicle whose route lies in the map is on lies in the map.
pub proof fn lemma_current_road_in(c: EndToEndCar, roads: Seq<RegulatedRoad>, r: i32)
    requires
        in_map(c, roads),
        current_road(c.intention) == Some(r),
    ensures
        road_in(roads, r),
{
}

/// The road a vehicle is on, or about to enter (see `current_road`).
pub fn road_of(c: &EndToEndCar) -> (r: Option<i32>)
    ensures
        r == current_road(c.intention),
{
    match &c.intention {
        Intention::Die => None,
        Intention::Goto(g) => Some(g.from.road),
        Intention::Blocked(b) => Some(b.next.from.road),
        Intention::Pending { next, .. } => Some(next.from.road),
    }
}

/// The position in the road table of road `id`, if the map has it.
fn road_index(map: &RegulatedRoadMap, id: i32) -> (r: Option<usize>)
    requires
        roads_wf(map.roads@),
    ensures
        r matches Some(k) ==> k < map.roads@.len() && map.roads@[k as int].id == id && k == id - 1,
        r is None ==> !(1 <= id <= map.roads@.len()),
{
    if 1 <= id && (id as usize) <= map.roads.len() {
        Some((id - 1) as usize)
    } else {
        None
    }
}

/// Road `r` is one of the map's.
pub open spec fn road_in(roads: Seq<RegulatedRoad>, r: i32) -> bool {
    1 <= r <= roads.len()
}

/// Every road of the route is one of the map's, and the position lies on
/// its road.
pub open spec fn goto_in_map(g: GotoIntention, roads: Seq<RegulatedRoad>) -> bool {
    &&& road_in(roads, g.from.road)
    &&& 0 <= g.from.offset < roads[g.from.road - 1].weight
    &&& forall|x: int| 0 <= x < g.via@.len() ==> road_in(roads, #[trigger] g.via@[x])
    &&& road_in(roads, g.to.road)
}

/// The vehicle's route, and the road it waits after, lie in the map.
pub open spec fn in_map(c: EndToEndCar, roads: Seq<RegulatedRoad>) -> bool {
    match c.intention {
        Intention::Die => true,
        Intention::Goto(g) => goto_in_map(g, roads),
        Intention::Blocked(b) => goto_in_map(b.next, roads) && road_in(roads, b.previous_road),
        Intention::Pending { next, .. } => goto_in_map(next, roads),
    }
}

/// Whether every road of the route lies in the map and the position lies
/// on its road.
fn goto_fits(g: &GotoIntention, map: &RegulatedRoadMap) -> (r: bool)
    requires
        roads_wf(map.roads@),
    ensures
        r == goto_in_map(*g, map.roads@),
{
    let n = map.roads.len();
    if g.from.road < 1 || g.from.road as usize > n || g.to.road < 1 || g.to.road as usize > n {
        return false;
    }
    let w = map.roads[(g.from.road - 1) as usize].weight;
    if g.from.offset < 0 || g.from.offset >= w {
        return false;
    }
    let mut x: usize = 0;
    while x < g.via.len()
        invariant
            x <= g.via@.len(),
            n == map.roads@.len(),
            forall|y: int| 0 <= y < x ==> road_in(map.roads@, #[trigger] g.via@[y]),
        decreases g.via@.len() - x,
    {
        let v = g.via[x];
        if v < 1 || v as usize > n {
            return false;
        }
        x = x + 1;
    }
    true
}

/// Whether the vehicle's route, and the road it waits after, lie in the map.
pub fn fits_map(c: &EndToEndCar, map: &RegulatedRoadMap) -> (r: bool)
    requires
        roads_wf(map.roads@),
    ensures
        r == in_map(*c, map.roads@),
{
    match &c.intention {
        Intention::Die => true,
        Intention::Goto(g) => goto_fits(g, map),
        Intention::Blocked(b) => goto_fits(&b.next, map) && 1 <= b.previous_road
            && b.previous_road as usize <= map.roads.len(),
        Intention::Pending { next, .. } => goto_fits(next, map),
    }
}

/// The instant a vehicle that has spent `consumed` of its budget reaches a
/// light, in a tick that began at `tick_start`.
pub open spec fn arrival_at(tick_start: i64, c: EndToEndCar) -> i64 {
    let spent = c.consumed / c.speed;
    if tick_start + spent > i64::MAX {
        i64::MAX
    } else {
        (tick_start + spent) as i64
    }
}

/// One move of a vehicle on `roads`: in `Goto`, it drives along its current
/// road; `Blocked`, it faces the light between the road it leaves and the
/// road it enters, which asks for the wait `light` gives at its arrival.
pub open spec fn one_step<L: TrafficLight>(
    a: EndToEndCar,
    b: EndToEndCar,
    roads: Seq<RegulatedRoad>,
    light: L,
    tick_start: i64,
) -> bool {
    ||| (a.intention is Goto && {
        let r = (a.intention->Goto_0).from.road;
        &&& road_in(roads, r)
        &&& (ran_on_road(a, b, roads[r - 1].weight as int, true) || ran_on_road(
            a,
            b,
            roads[r - 1].weight as int,
            false,
        ))
    })
    ||| (a.intention is Blocked && {
        let bl = a.intention->Blocked_0;
        let t = arrival_at(tick_start, a);
        &&& road_in(roads, bl.previous_road)
        &&& road_in(roads, bl.next.from.road)
        &&& faced_light(
            a,
            b,
            light.wait_of(roads[bl.previous_road - 1], roads[bl.next.from.road - 1], t),
            t,
        )
    })
}

/// The move from `trace[i]` to `trace[i + 1]` is one move of the vehicle.
pub open spec fn step_at<L: TrafficLight>(
    trace: Seq<EndToEndCar>,
    i: int,
    roads: Seq<RegulatedRoad>,
    light: L,
    tick_start: i64,
) -> bool {
    one_step(trace[i], trace[i + 1], roads, light, tick_start)
}

/// Each state of `trace` follows from the one before by one move.
pub open spec fn drove<L: TrafficLight>(
    trace: Seq<EndToEndCar>,
    roads: Seq<RegulatedRoad>,
    light: L,
    tick_start: i64,
) -> bool {
    &&& trace.len() >= 1
    &&& forall|i: int|
        0 <= i < trace.len() - 1 ==> #[trigger] step_at(trace, i, roads, light, tick_start)
}

/// A trace extended by one move is still a trace.
proof fn lemma_drove_push<L: TrafficLight>(
    trace: Seq<EndToEndCar>,
    x: EndToEndCar,
    roads: Seq<RegulatedRoad>,
    light: L,
    tick_start: i64,
)
    requires
        drove(trace, roads, light, tick_start),
        one_step(trace.last(), x, roads, light, tick_start),
    ensures
        drove(trace.push(x), roads, light, tick_start),
        trace.push(x)[0] == trace[0],
{
    let t2 = trace.push(x);
    assert forall|i: int| 0 <= i < t2.len() - 1 implies #[trigger] step_at(
        t2,
        i,
        roads,
        light,
        tick_start,
    ) by {
        if i < trace.len() - 1 {
            assert(step_at(trace, i, roads, light, tick_start));
            assert(t2[i] == trace[i] && t2[i + 1] == trace[i + 1]);
        } else {
            assert(t2[i] == trace.last() && t2[i + 1] == x);
        }
    }
}

/// Road `h + 1`, an outbound road of road `c + 1`, begins a route of the
/// table's length to road `d + 1`.
pub open spec fn hop_ok(roads: Seq<RegulatedRoad>, t: Table, c: int, h: int, d: int) -> bool {
    ||| (h == d && roads[c].weight == dist(t, c, d))
    ||| (has_entry(t, h, d) && roads[c].weight + dist(t, h, d) == dist(t, c, d))
}

/// The move from `a` to `b` ends the vehicle's tick: it retired or became
/// `Pending`, it stopped on its road short of the end, or the light held it.
pub open spec fn step_ends(a: EndToEndCar, b: EndToEndCar) -> bool {
    ||| b.intention is Die
    ||| b.intention is Pending
    ||| (a.intention is Goto && b.intention is Goto)
    ||| (a.intention is Blocked && b.intention is Blocked)
}

/// The moves of `trace` go on exactly until the tick ends: no move before
/// the last ends it, and the last one does (or, with no move, the vehicle
/// was retired or `Pending` from the start).
pub open spec fn ends_once(trace: Seq<EndToEndCar>) -> bool {
    &&& forall|i: int| 0 <= i < trace.len() - 2 ==> !step_ends(#[trigger] trace[i], trace[i + 1])
    &&& trace.len() == 1 ==> (trace[0].intention is Die || trace[0].intention is Pending)
    &&& trace.len() > 1 ==> step_ends(trace[trace.len() - 2], trace[trace.len() - 1])
}

/// `b` is what driving `a` for the rest of its tick gives: a chain of moves
/// from `a` that ends with the vehicle retired, `Pending`, or out of budget,
/// and stops at the first move that ends the tick.
pub open spec fn drive_result<L: TrafficLight>(
    a: EndToEndCar,
    b: EndToEndCar,
    roads: Seq<RegulatedRoad>,
    light: L,
    tick_start: i64,
) -> bool {
    &&& b.wf()
    &&& b.id == a.id
    &&& b.speed == a.speed
    &&& b.budget == a.budget
    &&& b.intention is Die || b.intention is Pending || b.left_equivalent_distance == 0
    &&& exists|trace: Seq<EndToEndCar>|
        #[trigger] drove(trace, roads, light, tick_start) && trace[0] == a && trace.last() == b
            && ends_once(trace)
}

/// Drives one vehicle through its state machine for the rest of its tick:
/// along roads, across boundaries, and through lights, until it retires,
/// becomes `Pending`, or has spent its whole budget. `tick_start` is the
/// instant the tick began; the light is asked at the instant the vehicle
/// reaches it. A road of the route that the map lacks, or a position
/// outside its road, is a `GraphInconsistency`; with neither, the drive
/// succeeds.
pub fn drive<L: TrafficLight>(
    car: &mut EndToEndCar,
    map: &RegulatedRoadMap,
    light: &L,
    tick_start: i64,
) -> (r: Result<(), SimError>)
    requires
        old(car).wf(),
        roads_wf(map.roads@),
        tick_start >= 0,
    ensures
        final(car).wf(),
        final(car).id == old(car).id,
        final(car).speed == old(car).speed,
        final(car).budget == old(car).budget,
        final(car).consumed >= old(car).consumed,
        final(car).consumed <= final(car).budget,
        in_map(*old(car), map.roads@) ==> r is Ok && in_map(*final(car), map.roads@),
        r is Ok ==> final(car).intention is Die || final(car).intention is Pending
            || final(car).left_equivalent_distance == 0,
        r is Ok ==> exists|trace: Seq<EndToEndCar>|
            #[trigger] drove(trace, map.roads@, *light, tick_start) && trace[0] == *old(car)
                && trace.last() == *final(car),
        r is Ok ==> drive_result(*old(car), *final(car), map.roads@, *light, tick_start),
        r matches Err(e) ==> e == SimError::GraphInconsistency,
{
    let ghost mut trace: Seq<EndToEndCar> = seq![*car];
    loop
        invariant
            drove(trace, map.roads@, *light, tick_start),
            trace[0] == *old(car),
            trace.last() == *car,
            car.wf(),
            car.id == old(car).id,
            car.speed == old(car).speed,
            car.budget == old(car).budget,
            car.consumed >= old(car).consumed,
            roads_wf(map.roads@),
            tick_start >= 0,
            in_map(*old(car), map.roads@) ==> in_map(*car, map.roads@),
            forall|i: int| 0 <= i < trace.len() - 1 ==> !step_ends(#[trigger] trace[i], trace[i + 1]),
        decreases 2 * car.left_equivalent_distance + (if car.intention is Blocked {
            1int
        } else {
            0int
        }),
    {
        let (is_goto, road, offset, previous) = match &car.intention {
            Intention::Goto(g) => (true, g.from.road, g.from.offset, 0),
            Intention::Blocked(b) => (false, b.next.from.road, 0, b.previous_road),
            _ => {
                proof {
                    if trace.len() > 1 {
                        let l = trace.len() - 1;
                        assert(trace[l] == *car);
                        assert(step_at(trace, l - 1, map.roads@, *light, tick_start));
                        assert(step_ends(trace[l - 1], trace[l]));
                    }
                }
                return Ok(());
            },
        };
        let k = match road_index(map, road) {
            Some(k) => k,
            None => {
                return Err(SimError::GraphInconsistency);
            },
        };
        if is_goto {
            let weight = map.roads[k].weight;
            if offset < 0 || offset >= weight {
                return Err(SimError::GraphInconsistency);
            }
            let ghost prev = *car;
            let crossed = car.run_on_road(weight);
            proof {
                lemma_drove_push(trace, *car, map.roads@, *light, tick_start);
                trace = trace.push(*car);
                if in_map(*old(car), map.roads@) && crossed {
                    let g = prev.intention->Goto_0;
                    if g.via@.len() > 0 {
                        assert(road_in(map.roads@, g.via@[g.via@.len() - 1]));
                        let nb = car.intention->Blocked_0;
                        assert forall|x: int| 0 <= x < nb.next.via@.len() implies road_in(
                            map.roads@,
                            #[trigger] nb.next.via@[x],
                        ) by {
                            assert(nb.next.via@[x] == g.via@[x]);
                        }
                    }
                }
            }
            let retired = match &car.intention {
                Intention::Die => true,
                _ => false,
            };
            if !crossed || retired {
                return Ok(());
            }
        } else {
            let p = match road_index(map, previous) {
                Some(p) => p,
                None => {
                    return Err(SimError::GraphInconsistency);
                },
            };
            let spent = car.consumed / car.speed;
            let arrival = if tick_start > i64::MAX - spent {
                i64::MAX
            } else {
                tick_start + spent
            };
            assert(arrival == arrival_at(tick_start, *car));
            let wait = light.wait_time(&map.roads[p], &map.roads[k], arrival);
            let ghost prev = *car;
            car.face_light(wait, arrival);
            proof {
                assert(faced_light(prev, *car, wait as int, arrival));
                lemma_drove_push(trace, *car, map.roads@, *light, tick_start);
                trace = trace.push(*car);
            }
            let admitted = match &car.intention {
                Intention::Goto(_) => true,
                _ => false,
            };
            if !admitted {
                return Ok(());
            }
        }
    }
}

/// The `i`-th road of the route that starts on `a`, takes the roads of
/// `via` from last to first, and ends on `b`.
pub open spec fn route_road(a: i32, via: Seq<i32>, b: i32, i: int) -> i32 {
    if i == 0 {
        a
    } else if i <= via.len() {
        via[via.len() - i]
    } else {
        b
    }
}

/// Each road of the route continues onto the next one.
pub open spec fn route_ok(map: RegulatedRoadMap, a: i32, via: Seq<i32>, b: i32) -> bool {
    forall|i: int|
        0 <= i <= via.len() ==> {
            &&& 1 <= #[trigger] route_road(a, via, b, i) <= map.roads@.len()
            &&& 1 <= route_road(a, via, b, i + 1) <= map.roads@.len()
            &&& arc(map.roads@, route_road(a, via, b, i) - 1, route_road(a, via, b, i + 1) - 1)
        }
}

/// In a finished table, an entry from road `a + 1` to road `b + 1` starts
/// with an arc `a + 1 -> h + 1` that begins a route of the entry's length:
/// either `h` is `b` and the arc alone has that length, or the entry from
/// `h + 1` makes up the rest.
pub proof fn lemma_first_hop(roads: Seq<RegulatedRoad>, t: Table, a: int, b: int) -> (h: int)
    requires
        roads_wf(roads),
        optimal(roads, t),
        0 <= a < roads.len(),
        0 <= b < roads.len(),
        has_entry(t, a, b),
    ensures
        0 <= h < roads.len(),
        arc(roads, a, h),
        (h == b && roads[a].weight == dist(t, a, b)) || (has_entry(t, h, b) && roads[a].weight + dist(
            t,
            h,
            b,
        ) == dist(t, a, b)),
    decreases dist(t, a, b),
{
    let n = roads.len() as int;
    assert(entry_wf(roads, t[a][b], a));
    assert(attained(roads, t, a, b));
    if arc(roads, a, b) && roads[a].weight == dist(t, a, b) {
        b
    } else {
        let c = choose|c: int|
            0 <= c < t.len() && #[trigger] has_entry(t, a, c) && has_entry(t, c, b) && dist(t, a, c)
                + dist(t, c, b) == dist(t, a, b);
        assert(entry_wf(roads, t[c][b], c));
        assert(entry_wf(roads, t[a][c], a));
        let h = lemma_first_hop(roads, t, a, c);
        if h == c && roads[a].weight == dist(t, a, c) {
            h
        } else {
            assert(entry_wf(roads, t[h][c], h));
            assert(has_entry(t, h, c) && has_entry(t, c, b) && dist(t, h, c) + dist(t, c, b) <= i64::MAX);
            assert(has_entry(t, h, b) && dist(t, h, b) <= dist(t, h, c) + dist(t, c, b));
            assert(has_entry(t, a, h) && dist(t, a, h) <= roads[a].weight);
            assert(entry_wf(roads, t[a][h], a));
            assert(dist(t, a, b) <= dist(t, a, h) + dist(t, h, b));
            h
        }
    }
}

/// The length of the entry for roads `(a, b)`, when there is one.
fn entry_dist(map: &RegulatedRoadMap, a: usize, b: usize) -> (r: Option<Distance>)
    requires
        a < table_view(map.shortest_path).len(),
        b < table_view(map.shortest_path)[a as int].len(),
    ensures
        r is Some <==> has_entry(table_view(map.shortest_path), a as int, b as int),
        r matches Some(d) ==> d == dist(table_view(map.shortest_path), a as int, b as int),
{
    assert(table_view(map.shortest_path)[a as int] == map.shortest_path@[a as int]@);
    match &map.shortest_path[a][b] {
        Some(p) => Some(p.dist),
        None => None,
    }
}

/// An outbound road of road `c + 1` that begins a route of the table's
/// length `target` to road `d + 1`, or `0` if none does.
fn find_hop(map: &RegulatedRoadMap, c: usize, d: usize, target: Distance) -> (found: i32)
    requires
        roads_wf(map.roads@),
        optimal(map.roads@, table_view(map.shortest_path)),
        c < map.roads@.len(),
        d < map.roads@.len(),
        target == dist(table_view(map.shortest_path), c as int, d as int),
        has_entry(table_view(map.shortest_path), c as int, d as int),
    ensures
        found == 0 ==> forall|y: int|
            0 <= y < map.roads@[c as int].outbounds@.len() ==> !hop_ok(
                map.roads@,
                table_view(map.shortest_path),
                c as int,
                #[trigger] map.roads@[c as int].outbounds@[y] - 1,
                d as int,
            ),
        found != 0 ==> map.roads@[c as int].outbounds@.contains(found) && hop_ok(
            map.roads@,
            table_view(map.shortest_path),
            c as int,
            found - 1,
            d as int,
        ),
{
    let ghost t = table_view(map.shortest_path);
    let n = map.roads.len();
    let w = map.roads[c].weight;
    let outs = &map.roads[c].outbounds;
    assert(crate::roadmap::ids_in(outs@, n as int));
    assert(entry_wf(map.roads@, t[c as int][d as int], c as int));
    let mut x: usize = 0;
    while x < outs.len()
        invariant
            x <= outs@.len(),
            outs == map.roads@[c as int].outbounds,
            crate::roadmap::ids_in(outs@, n as int),
            n == map.roads@.len(),
            t == table_view(map.shortest_path),
            t.len() == n,
            forall|a: int| 0 <= a < n ==> (#[trigger] t[a]).len() == n,
            d < n,
            c < n,
            w == map.roads@[c as int].weight,
            target == dist(t, c as int, d as int),
            w >= 1,
            target >= 1,
            forall|y: int| 0 <= y < x ==> !hop_ok(map.roads@, t, c as int, #[trigger] outs@[y] - 1, d as int),
        decreases outs@.len() - x,
    {
        let h = outs[x];
        let hi = (h - 1) as usize;
        if h as usize == d + 1 && w == target {
            assert(outs@.contains(h));
            return h;
        }
        match entry_dist(map, hi, d) {
            Some(rest) => {
                if rest <= target - w && w + rest == target {
                    assert(outs@.contains(outs@[x as int]));
                    return h;
                }
            },
            None => {},
        }
        x = x + 1;
    }
    0
}

/// Putting road `h` in front of `via` keeps the route's earlier roads and
/// makes `h` its last road before the destination.
proof fn lemma_route_extend(a: i32, v0: Seq<i32>, h: i32, b: i32)
    ensures
        forall|i: int|
            0 <= i <= v0.len() ==> #[trigger] route_road(a, seq![h] + v0, b, i) == route_road(
                a,
                v0,
                b,
                i,
            ),
        route_road(a, seq![h] + v0, b, v0.len() as int + 1) == h,
{
    let via = seq![h] + v0;
    assert forall|i: int| 0 <= i <= v0.len() implies #[trigger] route_road(a, via, b, i) == route_road(
        a,
        v0,
        b,
        i,
    ) by {
        if 0 < i {
            assert(via[via.len() - i] == v0[v0.len() - i]);
        }
    }
    assert(via[0] == h);
}

/// Plans a shortest route from `from` to `to`: from each road it takes an
/// outbound road that begins a route of the table's length. A road the map
/// lacks is a `GraphInconsistency`; a pair of roads the table has no entry
/// for is an `UnreachableDestination`; any other pair gets a route. A route
/// within one road takes no other road.
#[verifier::rlimit(100)]
#[verifier::spinoff_prover]
pub fn plan_route(map: &RegulatedRoadMap, from: Location, to: Location) -> (r: Result<
    GotoIntention,
    SimError,
>)
    requires
        roads_wf(map.roads@),
        optimal(map.roads@, table_view(map.shortest_path)),
    ensures
        !(1 <= from.road <= map.roads@.len()) || !(1 <= to.road <= map.roads@.len()) ==> r
            == Err::<GotoIntention, SimError>(SimError::GraphInconsistency),
        1 <= from.road <= map.roads@.len() && 1 <= to.road <= map.roads@.len() && from.road
            == to.road ==> (r matches Ok(g) && g.via@.len() == 0),
        1 <= from.road <= map.roads@.len() && 1 <= to.road <= map.roads@.len() && from.road
            != to.road ==> (r is Ok <==> has_entry(
            table_view(map.shortest_path),
            from.road - 1,
            to.road - 1,
        )),
        r matches Ok(g) ==> g.from == from && g.to == to && (from.road == to.road || route_ok(
            *map,
            from.road,
            g.via@,
            to.road,
        )),
        r matches Ok(g) ==> from.road == to.road || forall|i: int|
            0 <= i <= g.via@.len() ==> has_entry(
                table_view(map.shortest_path),
                #[trigger] route_road(from.road, g.via@, to.road, i) - 1,
                to.road - 1,
            ) && hop_ok(
                map.roads@,
                table_view(map.shortest_path),
                route_road(from.road, g.via@, to.road, i) - 1,
                route_road(from.road, g.via@, to.road, i + 1) - 1,
                to.road - 1,
            ),
        r matches Err(e) ==> (e == SimError::GraphInconsistency || e
            == SimError::UnreachableDestination) && (e == SimError::UnreachableDestination ==> !has_entry(
            table_view(map.shortest_path),
            from.road - 1,
            to.road - 1,
        )),
{
    let n = map.roads.len();
    if from.road < 1 || from.road as usize > n || to.road < 1 || to.road as usize > n {
        return Err(SimError::GraphInconsistency);
    }
    if from.road == to.road {
        return Ok(GotoIntention { from, via: Vec::new(), to });
    }
    let ghost t = table_view(map.shortest_path);
    let ghost roads = map.roads@;
    let d = (to.road - 1) as usize;
    if entry_dist(map, (from.road - 1) as usize, d).is_none() {
        return Err(SimError::UnreachableDestination);
    }
    let mut via: Vec<i32> = Vec::new();
    let mut cur = from.road;
    while cur != to.road
        invariant
            n == roads.len(),
            roads == map.roads@,
            t == table_view(map.shortest_path),
            roads_wf(roads),
            optimal(roads, t),
            1 <= from.road <= n,
            1 <= to.road <= n,
            d == to.road - 1,
            from.road != to.road,
            has_entry(t, from.road - 1, to.road - 1),
            cur != to.road ==> has_entry(t, cur - 1, to.road - 1),
            cur != to.road ==> cur == route_road(from.road, via@, to.road, via@.len() as int),
            cur == to.road ==> 1 <= route_road(from.road, via@, to.road, via@.len() as int) <= n
                && arc(roads, route_road(from.road, via@, to.road, via@.len() as int) - 1, to.road - 1),
            1 <= cur <= n,
            forall|i: int|
                0 <= i < via@.len() ==> {
                    &&& 1 <= #[trigger] route_road(from.road, via@, to.road, i) <= n
                    &&& 1 <= route_road(from.road, via@, to.road, i + 1) <= n
                    &&& arc(roads, route_road(from.road, via@, to.road, i) - 1, route_road(from.road, via@, to.road, i + 1) - 1)
                    &&& has_entry(t, route_road(from.road, via@, to.road, i) - 1, d as int)
                    &&& hop_ok(roads, t, route_road(from.road, via@, to.road, i) - 1, route_road(from.road, via@, to.road, i + 1) - 1, d as int)
                },
            cur == to.road ==> has_entry(t, route_road(from.road, via@, to.road, via@.len() as int) - 1, d as int)
                && hop_ok(roads, t, route_road(from.road, via@, to.road, via@.len() as int) - 1, d as int, d as int),
        decreases (if cur == to.road {
            0
        } else {
            dist(t, cur - 1, to.road - 1)
        }),
    {
        let c = (cur - 1) as usize;
        assert(t[c as int].len() == n);
        let target = match entry_dist(map, c, d) {
            Some(x) => x,
            None => {
                return Err(SimError::UnreachableDestination);
            },
        };
        let found = find_hop(map, c, d, target);
        let ghost outs = map.roads@[c as int].outbounds@;
        if found == 0 {
            proof {
                let h = lemma_first_hop(roads, t, c as int, d as int);
                assert(outs.contains((h + 1) as i32));
                let y = choose|y: int| 0 <= y < outs.len() && outs[y] == (h + 1) as i32;
                assert(!hop_ok(roads, t, c as int, outs[y] - 1, d as int));
            }
            return Err(SimError::UnreachableDestination);
        }
        let h = found;
        assert(arc(roads, c as int, h - 1)) by {
            assert(crate::roadmap::ids_in(outs, n as int));
            let y = choose|y: int| 0 <= y < outs.len() && outs[y] == h;
            assert(1 <= outs[y] <= n);
        }
        let ghost v0 = via@;
        if h != to.road {
            via.insert(0, h);
            proof {
                lemma_route_extend(from.road, v0, h, to.road);
                assert(via@ == seq![h] + v0);
            }
        }
        proof {
            assert(entry_wf(map.roads@, t[c as int][d as int], c as int));
        }
        cur = h;
    }
    Ok(GotoIntention { from, via, to })
}

/// Gives every vehicle of the list a fresh tick's allowance of
/// `tso_per_tick`, nothing of it spent.
pub fn refill_all(v: &mut Vec<EndToEndCar>, tso_per_tick: i64)
    requires
        cars_ok(old(v)@, tso_per_tick),
        tso_per_tick >= 0,
    ensures
        final(v)@ == old(v)@.map_values(|c: EndToEndCar| refilled(c, tso_per_tick)),
        cars_ok(final(v)@, tso_per_tick),
        fresh(final(v)@, tso_per_tick),
        ids(final(v)@) == ids(old(v)@),
{
    let ghost v0 = v@;
    let mut i: usize = 0;
    while i < v.len()
        invariant
            i <= v@.len(),
            v@.len() == v0.len(),
            tso_per_tick >= 0,
            cars_ok(v0, tso_per_tick),
            forall|j: int| 0 <= j < i ==> #[trigger] v@[j] == refilled(v0[j], tso_per_tick),
            forall|j: int| i <= j < v@.len() ==> #[trigger] v@[j] == v0[j],
            cars_ok(v@, tso_per_tick),
        decreases v@.len() - i,
    {
        let mut c = EndToEndCar {
            id: 0,
            speed: 1,
            intention: Intention::Die,
            budget: 0,
            consumed: 0,
            left_equivalent_distance: 0,
            blocked_distance: 0,
            running_distance: 0,
        };
        v.set_and_swap(i, &mut c);
        assert(c == v0[i as int]);
        c.new_tick(tso_per_tick);
        assert(c == refilled(v0[i as int], tso_per_tick));
        v.set_and_swap(i, &mut c);
        i = i + 1;
    }
    let ghost f = |c: EndToEndCar| refilled(c, tso_per_tick);
    assert(v@ =~= v0.map_values(f));
    let ghost g = |c: EndToEndCar| c.id;
    assert(v@.map_values(g) =~= v0.map_values(g));
}

/// The vehicles the light admits are ready to run on the road, and those it
/// holds back are still waiting before it; both keep their accounts.
pub proof fn lemma_split_admitted<L: TrafficLight>(
    s: Seq<EndToEndCar>,
    roads: Seq<RegulatedRoad>,
    road: i32,
    light: L,
    t: i64,
    tpt: i64,
)
    requires
        forall|j: int|
            0 <= j < s.len() ==> waiting_ok(#[trigger] s[j], road) && in_map(s[j], roads),
        cars_ok(s, tpt),
    ensures
        ({
            let sp = split_admitted(s, roads, road, light, t);
            &&& cars_ok(sp.0, tpt)
            &&& cars_ok(sp.1, tpt)
            &&& forall|i: int| 0 <= i < sp.0.len() ==> running_ok(#[trigger] sp.0[i], road, roads)
            &&& forall|i: int|
                0 <= i < sp.1.len() ==> waiting_ok(#[trigger] sp.1[i], road) && in_map(sp.1[i], roads)
            &&& ids(sp.0).add(ids(sp.1)) == ids(s)
        }),
    decreases s.len(),
{
    if s.len() == 0 {
        assert(ids(Seq::<EndToEndCar>::empty()) =~= Multiset::empty());
    } else {
        let d = s.drop_last();
        lemma_split_admitted(d, roads, road, light, t, tpt);
        let p = split_admitted(d, roads, road, light, t);
        let c = s.last();
        assert(s =~= d.push(c));
        lemma_ids_push(d, c);
        assert(waiting_ok(c, road) && in_map(c, roads));
        if admits(c, roads, road, light, t) {
            lemma_ids_push(p.0, admitted_car(c));
            assert(ids(p.0.push(admitted_car(c))).add(ids(p.1)) =~= ids(s));
        } else {
            lemma_ids_push(p.1, c);
            assert(ids(p.0).add(ids(p.1.push(c))) =~= ids(s));
        }
    }
}

/// Whether every vehicle of queue `kind` of road `road` is where it may
/// be: its route lies in the map and it is on, or waits before, this road,
/// or is retired; with `states`, also in a state the queue holds (see
/// `queue_ok`). A vehicle out of place is a `GraphInconsistency`, one in
/// the wrong state an `InvalidIntentionState`.
fn check_queue(q: &Vec<EndToEndCar>, road: i32, kind: u8, states: bool, map: &RegulatedRoadMap) -> (r:
    Result<(), SimError>)
    requires
        roads_wf(map.roads@),
        kind <= 2,
    ensures
        r is Ok <==> forall|i: int|
            0 <= i < q@.len() ==> (if states {
                queue_ok(#[trigger] q@[i], road, kind, map.roads@)
            } else {
                place_ok(q@[i], road, map.roads@)
            }),
        r matches Err(e) ==> e == SimError::GraphInconsistency || (states && e
            == SimError::InvalidIntentionState),
{
    let mut p: usize = 0;
    while p < q.len()
        invariant
            p <= q@.len(),
            roads_wf(map.roads@),
            kind <= 2,
            forall|i: int|
                0 <= i < p ==> (if states {
                    queue_ok(#[trigger] q@[i], road, kind, map.roads@)
                } else {
                    place_ok(q@[i], road, map.roads@)
                }),
        decreases q@.len() - p,
    {
        let c = &q[p];
        if !fits_map(c, map) {
            return Err(SimError::GraphInconsistency);
        }
        match road_of(c) {
            Some(rd) => {
                if rd != road {
                    return Err(SimError::GraphInconsistency);
                }
            },
            None => {},
        }
        if states {
            let state_ok = match &c.intention {
                Intention::Die => kind == 1,
                Intention::Goto(_) => kind != 2,
                Intention::Blocked(_) => kind != 0,
                Intention::Pending { .. } => kind != 2,
            };
            if !state_ok {
                return Err(SimError::InvalidIntentionState);
            }
            proof {
                let c0 = q@[p as int];
                assert(c0 == *c);
                if kind == 0 {
                    assert(arrival_ok(c0, road));
                } else if kind == 1 {
                    assert(running_ok(c0, road, map.roads@));
                } else {
                    assert(kind == 2);
                    assert(c0.intention is Blocked);
                    assert(current_road(c0.intention) == Some(road));
                    assert(waiting_ok(c0, road));
                }
                assert(queue_ok(c0, road, kind, map.roads@));
            }
        }
        proof {
            let c0 = q@[p as int];
            assert(place_ok(c0, road, map.roads@));
        }
        p = p + 1;
    }
    Ok(())
}

/// The ids of the vehicles handed off to other roads.
pub open spec fn staged_ids(s: Seq<(i32, EndToEndCar)>) -> Multiset<i32> {
    ids(s.map_values(|p: (i32, EndToEndCar)| p.1))
}

/// Appending a hand-off adds its vehicle's id.
pub proof fn lemma_staged_push(s: Seq<(i32, EndToEndCar)>, p: (i32, EndToEndCar))
    ensures
        staged_ids(s.push(p)) == staged_ids(s).insert(p.1.id),
{
    let f = |p: (i32, EndToEndCar)| p.1;
    assert(s.push(p).map_values(f) =~= s.map_values(f).push(p.1));
    lemma_ids_push(s.map_values(f), p.1);
}

/// Taking the first hand-off off the list takes its vehicle's id away.
pub proof fn lemma_staged_take_first(s: Seq<(i32, EndToEndCar)>)
    requires
        s.len() > 0,
    ensures
        staged_ids(s) == staged_ids(s.remove(0)).insert(s[0].1.id),
{
    let f = |p: (i32, EndToEndCar)| p.1;
    assert(s.remove(0).map_values(f) =~= s.map_values(f).remove(0));
    lemma_ids_take_first(s.map_values(f));
}

/// Vehicles that left a road during a tick, each with the road it is
/// entering.
pub struct RoadTrafficResult {
    pub pending_vehicles: Vec<(i32, EndToEndCar)>,
}

/// The vehicles on one road, in four queues: newly arrived, running,
/// blocked at the light, and retired. Each queue keeps arrival order.
pub struct RoadTraffic {
    pub road: i32,
    pub pending_vehicles: Vec<EndToEndCar>,
    pub running_vehicles: Vec<EndToEndCar>,
    pub blocked_vehicles: Vec<EndToEndCar>,
    pub tombstone_vehicles: Vec<EndToEndCar>,
}

impl RoadTraffic {
    /// Every vehicle in the queues is well formed.
    pub open spec fn wf(&self, tso_per_tick: i64) -> bool {
        &&& cars_ok(self.pending_vehicles@, tso_per_tick)
        &&& cars_ok(self.running_vehicles@, tso_per_tick)
        &&& cars_ok(self.blocked_vehicles@, tso_per_tick)
        &&& cars_ok(self.tombstone_vehicles@, tso_per_tick)
    }

    /// Every vehicle still on the road has this tick's allowance of
    /// `tso_per_tick` as its budget, so it spent no more than that.
    pub open spec fn fresh_queues(&self, tso_per_tick: i64) -> bool {
        &&& fresh(self.pending_vehicles@, tso_per_tick)
        &&& fresh(self.running_vehicles@, tso_per_tick)
        &&& fresh(self.blocked_vehicles@, tso_per_tick)
    }

    /// Each queue holds only what it should: newly arrived vehicles in
    /// `Goto` or `Pending` on this road, blocked ones waiting before this
    /// road, running ones on this road (or retired); every route lies in
    /// the map.
    pub open spec fn consistent(&self, roads: Seq<RegulatedRoad>) -> bool {
        &&& forall|i: int|
            0 <= i < self.pending_vehicles@.len() ==> arrival_ok(
                #[trigger] self.pending_vehicles@[i],
                self.road,
            ) && in_map(self.pending_vehicles@[i], roads)
        &&& forall|i: int|
            0 <= i < self.blocked_vehicles@.len() ==> waiting_ok(
                #[trigger] self.blocked_vehicles@[i],
                self.road,
            ) && in_map(self.blocked_vehicles@[i], roads)
        &&& forall|i: int|
            0 <= i < self.running_vehicles@.len() ==> running_ok(
                #[trigger] self.running_vehicles@[i],
                self.road,
                roads,
            )
    }

    /// The four queues as sequences.
    pub open spec fn qview(&self) -> QueueView {
        (self.pending_vehicles@, self.running_vehicles@, self.blocked_vehicles@, self.tombstone_vehicles@)
    }

    /// Every vehicle in the newly arrived, running and blocked queues is in
    /// its place (see `place_ok`).
    pub open spec fn placed(&self, roads: Seq<RegulatedRoad>) -> bool {
        &&& forall|i: int|
            0 <= i < self.pending_vehicles@.len() ==> place_ok(#[trigger] self.pending_vehicles@[i], self.road, roads)
        &&& forall|i: int|
            0 <= i < self.running_vehicles@.len() ==> place_ok(#[trigger] self.running_vehicles@[i], self.road, roads)
        &&& forall|i: int|
            0 <= i < self.blocked_vehicles@.len() ==> place_ok(#[trigger] self.blocked_vehicles@[i], self.road, roads)
    }

    /// Whether the road's queues are consistent (see `consistent`); with
    /// `states` false, only whether every vehicle is in its place.
    pub fn check(&self, map: &RegulatedRoadMap, states: bool) -> (r: Result<(), SimError>)
        requires
            roads_wf(map.roads@),
        ensures
            states ==> (r is Ok <==> self.consistent(map.roads@)),
            !states ==> (r is Ok <==> self.placed(map.roads@)),
            r matches Err(e) ==> e == SimError::GraphInconsistency || (states && e
                == SimError::InvalidIntentionState),
    {
        check_queue(&self.pending_vehicles, self.road, 0, states, map)?;
        check_queue(&self.running_vehicles, self.road, 1, states, map)?;
        check_queue(&self.blocked_vehicles, self.road, 2, states, map)?;
        Ok(())
    }

    /// The ids of every vehicle in the four queues.
    pub open spec fn all_ids(&self) -> Multiset<i32> {
        ids(self.pending_vehicles@).add(ids(self.running_vehicles@)).add(
            ids(self.blocked_vehicles@),
        ).add(ids(self.tombstone_vehicles@))
    }

    /// An empty road.
    pub fn new(road: i32) -> (r: RoadTraffic)
        ensures
            r.road == road,
            r.pending_vehicles@.len() == 0,
            r.running_vehicles@.len() == 0,
            r.blocked_vehicles@.len() == 0,
            r.tombstone_vehicles@.len() == 0,
    {
        RoadTraffic {
            road,
            pending_vehicles: Vec::new(),
            running_vehicles: Vec::new(),
            blocked_vehicles: Vec::new(),
            tombstone_vehicles: Vec::new(),
        }
    }

    /// Lets the newly arrived vehicles run, in arrival order, after those
    /// running already: a `Pending` vehicle moves on along its route, one in
    /// `Goto` goes on as it is. The budget a `Pending` vehicle kept is not
    /// carried over: the next tick's allowance replaces it, so that no tick
    /// lets a vehicle spend more than `speed * tso_per_tick`. A vehicle
    /// headed elsewhere is a `GraphInconsistency`; one retired or blocked is
    /// an `InvalidIntentionState`.
    pub fn handle_pending(&mut self) -> (r: Result<(), SimError>)
        ensures
            final(self).road == old(self).road,
            r is Ok ==> {
                let r0 = old(self).running_vehicles@;
                let p0 = old(self).pending_vehicles@;
                &&& final(self).all_ids() == old(self).all_ids()
                &&& final(self).pending_vehicles@.len() == 0
                &&& final(self).blocked_vehicles@ == old(self).blocked_vehicles@
                &&& final(self).tombstone_vehicles@ == old(self).tombstone_vehicles@
                &&& final(self).running_vehicles@.len() == r0.len() + p0.len()
                &&& final(self).running_vehicles@.subrange(0, r0.len() as int) == r0
                &&& final(self).running_vehicles@ == r0 + p0.map_values(|c: EndToEndCar| resumed_car(c))
                &&& forall|i: int|
                    0 <= i < p0.len() ==> same_car(
                        #[trigger] final(self).running_vehicles@[r0.len() + i],
                        p0[i],
                    ) && final(self).running_vehicles@[r0.len() + i].intention == resumed(
                        p0[i].intention,
                    ) && final(self).running_vehicles@[r0.len() + i].intention is Goto
            },
            r is Ok <==> forall|i: int|
                0 <= i < old(self).pending_vehicles@.len() ==> arrival_ok(
                    #[trigger] old(self).pending_vehicles@[i],
                    old(self).road,
                ),
            r matches Err(e) ==> e == SimError::GraphInconsistency || e
                == SimError::InvalidIntentionState,
    {
        let ghost r0 = self.running_vehicles@;
        let ghost p0 = self.pending_vehicles@;
        let mut x: usize = 0;
        while self.pending_vehicles.len() > 0
            invariant
                self.road == old(self).road,
                self.all_ids() == old(self).all_ids(),
                self.blocked_vehicles@ == old(self).blocked_vehicles@,
                self.tombstone_vehicles@ == old(self).tombstone_vehicles@,
                r0 == old(self).running_vehicles@,
                p0 == old(self).pending_vehicles@,
                x <= p0.len(),
                self.pending_vehicles@ == p0.subrange(x as int, p0.len() as int),
                self.running_vehicles@.len() == r0.len() + x,
                self.running_vehicles@.subrange(0, r0.len() as int) == r0,
                forall|i: int|
                    0 <= i < x ==> same_car(#[trigger] self.running_vehicles@[r0.len() + i], p0[i])
                        && self.running_vehicles@[r0.len() + i].intention == resumed(p0[i].intention)
                        && self.running_vehicles@[r0.len() + i].intention is Goto,
                forall|i: int| 0 <= i < x ==> arrival_ok(#[trigger] p0[i], self.road),
            decreases self.pending_vehicles@.len(),
        {
            let ghost pv = self.pending_vehicles@;
            let ghost q0 = self.running_vehicles@;
            assert(pv.len() == p0.len() - x);
            assert(x < old(self).pending_vehicles.len());
            let mut car = self.pending_vehicles.remove(0);
            assert(pv[0] == car);
            assert(p0[x as int] == car);
            match road_of(&car) {
                Some(road) => {
                    if road != self.road {
                        return Err(SimError::GraphInconsistency);
                    }
                },
                None => {
                    return Err(SimError::InvalidIntentionState);
                },
            }
            let mut it = Intention::Die;
            core::mem::swap(&mut car.intention, &mut it);
            match it {
                Intention::Pending { next, .. } => {
                    car.intention = Intention::Goto(next);
                },
                Intention::Goto(g) => {
                    car.intention = Intention::Goto(g);
                },
                _ => {
                    return Err(SimError::InvalidIntentionState);
                },
            }
            self.running_vehicles.push(car);
            proof {
                lemma_ids_take_first(pv);
                lemma_ids_push(q0, car);
                assert(self.all_ids() =~= old(self).all_ids());
                assert(self.pending_vehicles@ =~= p0.subrange(x + 1, p0.len() as int));
                assert(self.running_vehicles@.subrange(0, r0.len() as int) =~= r0);
                assert forall|i: int| 0 <= i < x + 1 implies same_car(#[trigger] self.running_vehicles@[r0.len() + i], p0[i])
                    && self.running_vehicles@[r0.len() + i].intention == resumed(p0[i].intention)
                    && self.running_vehicles@[r0.len() + i].intention is Goto by {
                    if i < x {
                        assert(self.running_vehicles@[r0.len() + i] == q0[r0.len() + i]);
                    }
                }
            }
            x = x + 1;
        }
        proof {
            let r0 = old(self).running_vehicles@;
            let p0 = old(self).pending_vehicles@;
            let rv = self.running_vehicles@;
            assert forall|i: int| 0 <= i < rv.len() implies #[trigger] rv[i] == (r0 + p0.map_values(
                |c: EndToEndCar| resumed_car(c),
            ))[i] by {
                if i < r0.len() {
                    assert(rv.subrange(0, r0.len() as int)[i] == r0[i]);
                } else {
                    let j = i - r0.len();
                    assert(same_car(rv[r0.len() + j], p0[j]));
                    assert(rv[r0.len() + j].intention == resumed(p0[j].intention));
                }
            }
            assert(rv =~= r0 + p0.map_values(|c: EndToEndCar| resumed_car(c)));
        }
        Ok(())
    }

    /// Asks the light, at instant `instant`, about each vehicle blocked
    /// before this road, in arrival order: those it asks no wait of are
    /// admitted, enter the road in `Goto` and join the running queue in
    /// order; the others stay blocked, in order. A vehicle that is not
    /// `Blocked` before this road, or whose route leaves the map, fails the
    /// call, which then changes nothing.
    pub fn handle_blocking<L: TrafficLight>(
        &mut self,
        map: &RegulatedRoadMap,
        light: &L,
        instant: i64,
    ) -> (r: Result<(), SimError>)
        requires
            roads_wf(map.roads@),
        ensures
            final(self).road == old(self).road,
            r is Ok <==> forall|i: int|
                0 <= i < old(self).blocked_vehicles@.len() ==> waiting_ok(
                    #[trigger] old(self).blocked_vehicles@[i],
                    old(self).road,
                ) && in_map(old(self).blocked_vehicles@[i], map.roads@),
            r is Err ==> *final(self) == *old(self),
            r is Ok ==> {
                let sp = split_admitted(old(self).blocked_vehicles@, map.roads@, old(self).road, *light, instant);
                &&& final(self).all_ids() == old(self).all_ids()
                &&& final(self).running_vehicles@ == old(self).running_vehicles@ + sp.0
                &&& final(self).blocked_vehicles@ == sp.1
                &&& final(self).pending_vehicles@ == old(self).pending_vehicles@
                &&& final(self).tombstone_vehicles@ == old(self).tombstone_vehicles@
            },
            r matches Err(e) ==> e == SimError::GraphInconsistency || e
                == SimError::InvalidIntentionState,
    {
        let mut p: usize = 0;
        while p < self.blocked_vehicles.len()
            invariant
                p <= self.blocked_vehicles@.len(),
                *self == *old(self),
                roads_wf(map.roads@),
                forall|i: int|
                    0 <= i < p ==> waiting_ok(#[trigger] self.blocked_vehicles@[i], self.road)
                        && in_map(self.blocked_vehicles@[i], map.roads@),
            decreases self.blocked_vehicles@.len() - p,
        {
            let c = &self.blocked_vehicles[p];
            match &c.intention {
                Intention::Blocked(b) => {
                    if b.next.from.road != self.road {
                        return Err(SimError::GraphInconsistency);
                    }
                },
                _ => {
                    return Err(SimError::InvalidIntentionState);
                },
            }
            if !fits_map(c, map) {
                return Err(SimError::GraphInconsistency);
            }
            p = p + 1;
        }
        let ghost b0 = self.blocked_vehicles@;
        let ghost r0 = self.running_vehicles@;
        let mut work: Vec<EndToEndCar> = Vec::new();
        core::mem::swap(&mut self.blocked_vehicles, &mut work);
        let ghost mut x: int = 0;
        proof {
            assert(work@ =~= b0.subrange(0, b0.len() as int));
            assert(split_admitted(b0.subrange(0, 0), map.roads@, self.road, *light, instant).0 =~= Seq::<EndToEndCar>::empty());
            assert(self.running_vehicles@ =~= r0 + split_admitted(b0.subrange(0, 0), map.roads@, self.road, *light, instant).0);
            assert(ids(Seq::<EndToEndCar>::empty()) =~= Multiset::empty());
            assert(ids(self.running_vehicles@).add(ids(self.blocked_vehicles@)).add(ids(work@)) =~= ids(r0).add(ids(b0)));
        }
        while work.len() > 0
            invariant
                roads_wf(map.roads@),
                self.road == old(self).road,
                self.pending_vehicles@ == old(self).pending_vehicles@,
                self.tombstone_vehicles@ == old(self).tombstone_vehicles@,
                b0 == old(self).blocked_vehicles@,
                r0 == old(self).running_vehicles@,
                forall|i: int|
                    0 <= i < b0.len() ==> waiting_ok(#[trigger] b0[i], self.road) && in_map(b0[i], map.roads@),
                0 <= x <= b0.len(),
                work@ == b0.subrange(x, b0.len() as int),
                self.running_vehicles@ == r0 + split_admitted(b0.subrange(0, x), map.roads@, self.road, *light, instant).0,
                self.blocked_vehicles@ == split_admitted(b0.subrange(0, x), map.roads@, self.road, *light, instant).1,
                ids(self.running_vehicles@).add(ids(self.blocked_vehicles@)).add(ids(work@)) == ids(r0).add(ids(b0)),
            decreases work@.len(),
        {
            let ghost w0 = work@;
            let ghost q0 = self.running_vehicles@;
            let ghost k0 = self.blocked_vehicles@;
            let mut car = work.remove(0);
            assert(w0[0] == b0[x]);
            assert(waiting_ok(car, self.road) && in_map(car, map.roads@));
            let (prev, _) = match &car.intention {
                Intention::Blocked(b) => (b.previous_road, 0),
                _ => (1, 0),
            };
            let wait = light.wait_time(
                &map.roads[(prev - 1) as usize],
                &map.roads[(self.road - 1) as usize],
                instant,
            );
            let ghost cg = car;
            let ghost pre = b0.subrange(0, x);
            let ghost pre2 = b0.subrange(0, x + 1);
            proof {
                assert(pre2.drop_last() =~= pre);
                assert(pre2.last() == cg);
            }
            if wait == 0 {
                let mut it = Intention::Die;
                core::mem::swap(&mut car.intention, &mut it);
                match it {
                    Intention::Blocked(b) => {
                        car.intention = Intention::Goto(b.next);
                    },
                    other => {
                        car.intention = other;
                    },
                }
                assert(car == admitted_car(cg));
                self.running_vehicles.push(car);
                proof {
                    lemma_ids_push(q0, car);
                    assert(self.running_vehicles@ =~= r0 + split_admitted(pre2, map.roads@, self.road, *light, instant).0);
                    assert(self.blocked_vehicles@ =~= split_admitted(pre2, map.roads@, self.road, *light, instant).1);
                }
            } else {
                self.blocked_vehicles.push(car);
                proof {
                    lemma_ids_push(k0, car);
                    assert(self.running_vehicles@ =~= r0 + split_admitted(pre2, map.roads@, self.road, *light, instant).0);
                    assert(self.blocked_vehicles@ =~= split_admitted(pre2, map.roads@, self.road, *light, instant).1);
                }
            }
            proof {
                lemma_ids_take_first(w0);
                assert(work@ =~= b0.subrange(x + 1, b0.len() as int));
                assert(ids(self.running_vehicles@).add(ids(self.blocked_vehicles@)).add(ids(work@)) =~= ids(r0).add(ids(b0)));
                x = x + 1;
            }
        }
        proof {
            assert(b0.subrange(0, x) =~= b0);
            assert(work@ =~= Seq::<EndToEndCar>::empty());
            assert(ids(Seq::<EndToEndCar>::empty()) =~= Multiset::empty());
            assert(ids(self.running_vehicles@).add(ids(self.blocked_vehicles@)) =~= ids(r0).add(ids(b0)));
            assert forall|v: i32| #[trigger] self.all_ids().count(v) == old(self).all_ids().count(v) by {
                assert(ids(self.running_vehicles@).add(ids(self.blocked_vehicles@)).count(v) == ids(r0).add(ids(b0)).count(v));
            }
            assert(self.all_ids() =~= old(self).all_ids());
        }
        Ok(())
    }

    /// Runs the tick of every vehicle in the running queue, in order: each
    /// is driven for what is left of its budget (see `drive`). Then a
    /// retired vehicle goes to the retired queue; one still on this road
    /// goes to the queue of its state; one that reached another road is
    /// handed off in the result, with that road. A vehicle in the running
    /// queue that is on another road, or whose route leaves the map, is a
    /// `GraphInconsistency`, and the call then changes nothing.
    pub fn handle_running<L: TrafficLight>(
        &mut self,
        map: &RegulatedRoadMap,
        light: &L,
        tick_start: i64,
        tso_per_tick: i64,
    ) -> (r: Result<RoadTrafficResult, SimError>)
        requires
            old(self).wf(tso_per_tick),
            roads_wf(map.roads@),
            tick_start >= 0,
            tso_per_tick >= 0,
        ensures
            final(self).road == old(self).road,
            r matches Ok(res) ==> {
                let staged = res.pending_vehicles@;
                &&& final(self).wf(tso_per_tick)
                &&& final(self).all_ids().add(staged_ids(staged)) == old(self).all_ids()
                &&& forall|i: int|
                    0 <= i < staged.len() ==> {
                        &&& (#[trigger] staged[i]).1.wf()
                        &&& staged[i].1.speed * tso_per_tick <= i64::MAX
                        &&& staged[i].0 != old(self).road
                        &&& current_road(staged[i].1.intention) == Some(staged[i].0)
                        &&& fresh(old(self).running_vehicles@, tso_per_tick) ==> staged[i].1.budget
                            == staged[i].1.speed * tso_per_tick
                    }
                &&& forall|i: int|
                    0 <= i < final(self).running_vehicles@.len() ==> (#[trigger] final(self).running_vehicles@[i]).left_equivalent_distance == 0
                &&& old(self).fresh_queues(tso_per_tick) ==> final(self).fresh_queues(tso_per_tick)
                &&& old(self).consistent(map.roads@) ==> final(self).consistent(map.roads@)
                    && forall|i: int|
                    0 <= i < staged.len() ==> in_map(#[trigger] staged[i].1, map.roads@)
            },
            (forall|i: int|
                0 <= i < old(self).running_vehicles@.len() ==> running_ok(
                    #[trigger] old(self).running_vehicles@[i],
                    old(self).road,
                    map.roads@,
                )) <==> r is Ok,
            r is Err ==> *final(self) == *old(self),
            r matches Ok(res) ==> ran(
                old(self).qview(),
                final(self).qview(),
                res.pending_vehicles@,
                old(self).road,
                map.roads@,
                *light,
                tick_start,
            ),
            r matches Ok(res) ==> exists|outs: Seq<EndToEndCar>|
                #[trigger] outs.len() == old(self).running_vehicles@.len() && (forall|i: int|
                    0 <= i < outs.len() ==> drive_result(
                        old(self).running_vehicles@[i],
                        #[trigger] outs[i],
                        map.roads@,
                        *light,
                        tick_start,
                    )) && ({
                    let so = sorted_out(outs, old(self).road);
                    &&& final(self).running_vehicles@ == so.0
                    &&& final(self).blocked_vehicles@ == old(self).blocked_vehicles@ + so.1
                    &&& final(self).pending_vehicles@ == old(self).pending_vehicles@ + so.2
                    &&& final(self).tombstone_vehicles@ == old(self).tombstone_vehicles@ + so.3
                    &&& res.pending_vehicles@ == so.4
                }),
            r matches Err(e) ==> e == SimError::GraphInconsistency,
    {
        let ghost ok0 = forall|i: int|
            0 <= i < old(self).running_vehicles@.len() ==> running_ok(
                #[trigger] old(self).running_vehicles@[i],
                old(self).road,
                map.roads@,
            );
        let ghost cons0 = old(self).consistent(map.roads@);
        let mut p: usize = 0;
        while p < self.running_vehicles.len()
            invariant
                p <= self.running_vehicles@.len(),
                *self == *old(self),
                roads_wf(map.roads@),
                forall|i: int|
                    0 <= i < p ==> running_ok(#[trigger] self.running_vehicles@[i], self.road, map.roads@),
            decreases self.running_vehicles@.len() - p,
        {
            let c = &self.running_vehicles[p];
            if !fits_map(c, map) {
                return Err(SimError::GraphInconsistency);
            }
            match road_of(c) {
                Some(road) => {
                    if road != self.road {
                        return Err(SimError::GraphInconsistency);
                    }
                },
                None => {},
            }
            p = p + 1;
        }
        assert(ok0);
        let ghost f0 = fresh(old(self).running_vehicles@, tso_per_tick);
        let mut work: Vec<EndToEndCar> = Vec::new();
        core::mem::swap(&mut self.running_vehicles, &mut work);
        let mut res = RoadTrafficResult { pending_vehicles: Vec::new() };
        let ghost r0 = old(self).running_vehicles@;
        let ghost mut outs: Seq<EndToEndCar> = Seq::empty();
        let ghost mut x: int = 0;
        proof {
            assert(work@ =~= r0.subrange(0, r0.len() as int));
            assert(self.blocked_vehicles@ =~= old(self).blocked_vehicles@ + sorted_out(outs, self.road).1);
            assert(self.pending_vehicles@ =~= old(self).pending_vehicles@ + sorted_out(outs, self.road).2);
            assert(self.tombstone_vehicles@ =~= old(self).tombstone_vehicles@ + sorted_out(outs, self.road).3);
            assert(self.running_vehicles@ =~= sorted_out(outs, self.road).0);
            assert(res.pending_vehicles@ =~= sorted_out(outs, self.road).4);
        }
        proof {
            assert(ids(Seq::<EndToEndCar>::empty()) =~= Multiset::empty());
            assert(res.pending_vehicles@.map_values(|p: (i32, EndToEndCar)| p.1) =~= Seq::<EndToEndCar>::empty());
            assert(self.all_ids().add(ids(work@)).add(staged_ids(res.pending_vehicles@)) =~= old(self).all_ids());
        }
        while work.len() > 0
            invariant
                self.road == old(self).road,
                self.wf(tso_per_tick),
                cars_ok(work@, tso_per_tick),
                roads_wf(map.roads@),
                tick_start >= 0,
                tso_per_tick >= 0,
                self.all_ids().add(ids(work@)).add(staged_ids(res.pending_vehicles@)) == old(self).all_ids(),
                forall|i: int|
                    0 <= i < res.pending_vehicles@.len() ==> {
                        &&& (#[trigger] res.pending_vehicles@[i]).1.wf()
                        &&& res.pending_vehicles@[i].1.speed * tso_per_tick <= i64::MAX
                        &&& res.pending_vehicles@[i].0 != old(self).road
                        &&& current_road(res.pending_vehicles@[i].1.intention) == Some(res.pending_vehicles@[i].0)
                        &&& f0 ==> res.pending_vehicles@[i].1.budget == res.pending_vehicles@[i].1.speed * tso_per_tick
                    },
                f0 == fresh(old(self).running_vehicles@, tso_per_tick),
                f0 ==> fresh(work@, tso_per_tick),
                ok0,
                forall|i: int|
                    0 <= i < self.running_vehicles@.len() ==> (#[trigger] self.running_vehicles@[i]).left_equivalent_distance == 0,
                f0 ==> fresh(self.running_vehicles@, tso_per_tick),
                old(self).fresh_queues(tso_per_tick) ==> fresh(self.pending_vehicles@, tso_per_tick) && fresh(
                    self.blocked_vehicles@,
                    tso_per_tick,
                ),
                ok0 ==> forall|i: int| 0 <= i < work@.len() ==> running_ok(#[trigger] work@[i], self.road, map.roads@),
                ok0 == (forall|i: int|
                    0 <= i < old(self).running_vehicles@.len() ==> running_ok(
                        #[trigger] old(self).running_vehicles@[i],
                        old(self).road,
                        map.roads@,
                    )),
                cons0 == old(self).consistent(map.roads@),
                cons0 ==> self.consistent(map.roads@) && forall|i: int|
                    0 <= i < res.pending_vehicles@.len() ==> in_map(#[trigger] res.pending_vehicles@[i].1, map.roads@),
                cons0 ==> ok0,
                r0 == old(self).running_vehicles@,
                0 <= x <= r0.len(),
                work@ == r0.subrange(x, r0.len() as int),
                outs.len() == x,
                forall|i: int|
                    0 <= i < x ==> drive_result(
                        r0[i],
                        #[trigger] outs[i],
                        map.roads@,
                        *light,
                        tick_start,
                    ),
                self.running_vehicles@ == sorted_out(outs, self.road).0,
                self.blocked_vehicles@ == old(self).blocked_vehicles@ + sorted_out(outs, self.road).1,
                self.pending_vehicles@ == old(self).pending_vehicles@ + sorted_out(outs, self.road).2,
                self.tombstone_vehicles@ == old(self).tombstone_vehicles@ + sorted_out(outs, self.road).3,
                res.pending_vehicles@ == sorted_out(outs, self.road).4,
            decreases work@.len(),
        {
            let ghost w0 = work@;
            let ghost s0 = *self;
            let ghost st0 = res.pending_vehicles@;
            let mut car = work.remove(0);
            assert(w0[0] == car);
            assert(car.wf() && car.speed * tso_per_tick <= i64::MAX);
            proof {
                assert forall|i: int| 0 <= i < work@.len() implies #[trigger] work@[i] == w0[i + 1] by {}
            }
            match road_of(&car) {
                Some(road) => {
                    if road != self.road {
                        return Err(SimError::GraphInconsistency);
                    }
                },
                None => {},
            }
            proof {
                assert(w0[0] == r0[x]);
            }
            match drive(&mut car, map, light, tick_start) {
                Ok(()) => {},
                Err(e) => {
                    return Err(e);
                },
            }
            let ghost cg = car;
            assert(car.speed * tso_per_tick <= i64::MAX);
            match road_of(&car) {
                None => {
                    self.tombstone_vehicles.push(car);
                    proof {
                        lemma_ids_push(s0.tombstone_vehicles@, car);
                    }
                },
                Some(road) => {
                    if road == self.road {
                        let kind: u8 = match &car.intention {
                            Intention::Goto(_) => 0,
                            Intention::Blocked(_) => 1,
                            _ => 2,
                        };
                        if kind == 0 {
                            self.running_vehicles.push(car);
                            proof {
                                lemma_ids_push(s0.running_vehicles@, car);
                            }
                        } else if kind == 1 {
                            self.blocked_vehicles.push(car);
                            proof {
                                lemma_ids_push(s0.blocked_vehicles@, car);
                            }
                        } else {
                            self.pending_vehicles.push(car);
                            proof {
                                lemma_ids_push(s0.pending_vehicles@, car);
                            }
                        }
                    } else {
                        res.pending_vehicles.push((road, car));
                        proof {
                            lemma_staged_push(st0, (road, car));
                        }
                    }
                },
            }
            proof {
                let o2 = outs.push(cg);
                assert(o2.drop_last() =~= outs);
                assert(o2.last() == cg);
                let so = sorted_out(outs, self.road);
                let so2 = sorted_out(o2, self.road);
                assert(self.running_vehicles@ =~= so2.0);
                assert(self.blocked_vehicles@ =~= old(self).blocked_vehicles@ + so2.1);
                assert(self.pending_vehicles@ =~= old(self).pending_vehicles@ + so2.2);
                assert(self.tombstone_vehicles@ =~= old(self).tombstone_vehicles@ + so2.3);
                assert(res.pending_vehicles@ =~= so2.4);
                assert(work@ =~= r0.subrange(x + 1, r0.len() as int));
                assert forall|i: int| 0 <= i < x + 1 implies drive_result(
                    r0[i],
                    #[trigger] o2[i],
                    map.roads@,
                    *light,
                    tick_start,
                ) by {
                    if i < x {
                        assert(o2[i] == outs[i]);
                    }
                }
                outs = o2;
                x = x + 1;
                lemma_ids_take_first(w0);
                assert(self.all_ids().add(ids(work@)).add(staged_ids(res.pending_vehicles@)) =~= old(self).all_ids());
            }
        }
        Ok(res)
    }
}

/// The ids of every vehicle on the roads of `ts`.
pub open spec fn traffic_ids(ts: Seq<RoadTraffic>) -> Multiset<i32>
    decreases ts.len(),
{
    if ts.len() == 0 {
        Multiset::empty()
    } else {
        traffic_ids(ts.drop_last()).add(ts.last().all_ids())
    }
}

/// Replacing one road's queues changes the ids by what that road's ids did.
pub proof fn lemma_traffic_ids_update(ts: Seq<RoadTraffic>, k: int, x: RoadTraffic)
    requires
        0 <= k < ts.len(),
    ensures
        traffic_ids(ts.update(k, x)).add(ts[k].all_ids()) == traffic_ids(ts).add(x.all_ids()),
    decreases ts.len(),
{
    let us = ts.update(k, x);
    if k == ts.len() - 1 {
        assert(us.drop_last() =~= ts.drop_last());
        assert(traffic_ids(us).add(ts[k].all_ids()) =~= traffic_ids(ts).add(x.all_ids()));
    } else {
        assert(us.drop_last() =~= ts.drop_last().update(k, x));
        lemma_traffic_ids_update(ts.drop_last(), k, x);
        assert(us.last() == ts.last());
        assert(ts.drop_last()[k] == ts[k]);
        assert(traffic_ids(us) == traffic_ids(ts.drop_last().update(k, x)).add(ts.last().all_ids()));
        assert(traffic_ids(ts) == traffic_ids(ts.drop_last()).add(ts.last().all_ids()));
        let a = traffic_ids(ts.drop_last().update(k, x));
        let c = traffic_ids(ts.drop_last());
        assert forall|v: i32| #[trigger] traffic_ids(us).add(ts[k].all_ids()).count(v) == traffic_ids(ts).add(
            x.all_ids(),
        ).count(v) by {
            assert(a.add(ts[k].all_ids()).count(v) == c.add(x.all_ids()).count(v));
        }
        assert(traffic_ids(us).add(ts[k].all_ids()) =~= traffic_ids(ts).add(x.all_ids()));
    }
}

/// Replacing one road's queues by queues of the same ids keeps the ids.
pub proof fn lemma_traffic_ids_replace(ts: Seq<RoadTraffic>, k: int, x: RoadTraffic)
    requires
        0 <= k < ts.len(),
    ensures
        traffic_ids(ts.update(k, x)) == traffic_ids(ts).add(x.all_ids()).sub(ts[k].all_ids()),
        x.all_ids() == ts[k].all_ids() ==> traffic_ids(ts.update(k, x)) == traffic_ids(ts),
{
    lemma_traffic_ids_update(ts, k, x);
    let a = traffic_ids(ts.update(k, x));
    assert forall|v: i32| #[trigger] a.count(v) == traffic_ids(ts).add(x.all_ids()).sub(ts[k].all_ids()).count(v) by {
        assert(a.add(ts[k].all_ids()).count(v) == traffic_ids(ts).add(x.all_ids()).count(v));
    }
    assert(a =~= traffic_ids(ts).add(x.all_ids()).sub(ts[k].all_ids()));
    if x.all_ids() == ts[k].all_ids() {
        assert(a =~= traffic_ids(ts));
    }
}

/// The whole simulation: the graph, one queue set per road (road `k + 1`
/// at `traffic[k]`), the retired vehicles, the light policy, and the clock.
pub struct Simulator<L: TrafficLight> {
    pub regulated_roadmap: RegulatedRoadMap,
    pub traffic: Vec<RoadTraffic>,
    pub tombstone_vehicles: Vec<EndToEndCar>,
    pub traffic_light: L,
    pub tso_per_tick: i64,
    pub cur_tso: i64,
}

impl<L: TrafficLight> Simulator<L> {
    /// One queue set per road, in road order, and every vehicle well formed.
    pub open spec fn wf(&self) -> bool {
        &&& roads_wf(self.regulated_roadmap.roads@)
        &&& self.traffic@.len() == self.regulated_roadmap.roads@.len()
        &&& forall|k: int|
            0 <= k < self.traffic@.len() ==> (#[trigger] self.traffic@[k]).road == k + 1
                && self.traffic@[k].wf(self.tso_per_tick)
        &&& cars_ok(self.tombstone_vehicles@, self.tso_per_tick)
        &&& self.tso_per_tick >= 0
        &&& self.cur_tso >= 0
    }

    /// Every road's queues hold only what they should (see
    /// `RoadTraffic::consistent`).
    pub open spec fn consistent(&self) -> bool {
        forall|k: int|
            0 <= k < self.traffic@.len() ==> (#[trigger] self.traffic@[k]).consistent(
                self.regulated_roadmap.roads@,
            )
    }

    /// No two vehicles of the simulation share an id: each id is held by one
    /// queue of one road, or by the retired vehicles, and only once.
    pub open spec fn ids_unique(&self) -> bool {
        forall|v: i32| #[trigger] self.vehicle_ids().count(v) <= 1
    }

    /// The ids of every vehicle the simulator holds, with repeats.
    pub open spec fn vehicle_ids(&self) -> Multiset<i32> {
        traffic_ids(self.traffic@).add(ids(self.tombstone_vehicles@))
    }

    /// A simulation over `map` with no vehicles, at instant `0`.
    pub fn new(map: RegulatedRoadMap, light: L, tso_per_tick: i64) -> (r: Simulator<L>)
        requires
            roads_wf(map.roads@),
            tso_per_tick >= 0,
        ensures
            r.wf(),
            r.regulated_roadmap == map,
            r.tso_per_tick == tso_per_tick,
            r.cur_tso == 0,
            r.vehicle_ids() == Multiset::<i32>::empty(),
            r.consistent(),
    {
        let n = map.roads.len();
        let mut traffic: Vec<RoadTraffic> = Vec::new();
        let mut k: usize = 0;
        while k < n
            invariant
                k <= n,
                n == map.roads@.len(),
                n <= crate::roadmap::MAX_ROADS,
                traffic@.len() == k,
                forall|j: int|
                    0 <= j < k ==> (#[trigger] traffic@[j]).road == j + 1 && traffic@[j].wf(tso_per_tick)
                        && traffic@[j].all_ids() == Multiset::<i32>::empty()
                        && traffic@[j].consistent(map.roads@),
                traffic_ids(traffic@) == Multiset::<i32>::empty(),
            decreases n - k,
        {
            let rt = RoadTraffic::new((k + 1) as i32);
            proof {
                assert(ids(rt.pending_vehicles@) =~= Multiset::empty());
                assert(ids(rt.running_vehicles@) =~= Multiset::empty());
                assert(ids(rt.blocked_vehicles@) =~= Multiset::empty());
                assert(ids(rt.tombstone_vehicles@) =~= Multiset::empty());
                assert(rt.all_ids() =~= Multiset::empty());
            }
            let ghost before = traffic@;
            traffic.push(rt);
            proof {
                assert(traffic@.drop_last() =~= before);
                assert(traffic_ids(traffic@) =~= Multiset::empty());
            }
            k = k + 1;
        }
        let r = Simulator {
            regulated_roadmap: map,
            traffic,
            tombstone_vehicles: Vec::new(),
            traffic_light: light,
            tso_per_tick,
            cur_tso: 0,
        };
        proof {
            assert(ids(r.tombstone_vehicles@) =~= Multiset::empty());
            assert(r.vehicle_ids() =~= Multiset::empty());
        }
        r
    }

    /// Puts a vehicle with a route on the newly-arrived queue of the road it
    /// starts on; it runs from the next tick on. A vehicle that is not in
    /// `Goto` is an `InvalidIntentionState`, one that starts on a road the
    /// map lacks a `GraphInconsistency`; the simulation is then unchanged.
    pub fn add_vehicle(&mut self, car: EndToEndCar) -> (r: Result<(), SimError>)
        requires
            old(self).wf(),
            car.wf(),
            car.speed * old(self).tso_per_tick <= i64::MAX,
        ensures
            !(car.intention is Goto) ==> r == Err::<(), SimError>(SimError::InvalidIntentionState),
            car.intention is Goto && !in_map(car, old(self).regulated_roadmap.roads@) ==> r
                == Err::<(), SimError>(SimError::GraphInconsistency),
            car.intention is Goto && in_map(car, old(self).regulated_roadmap.roads@) ==> r is Ok,
            r is Err ==> *final(self) == *old(self),
            r is Ok ==> ({
                let k = (car.intention->Goto_0).from.road - 1;
                &&& final(self).traffic@.len() == old(self).traffic@.len()
                &&& final(self).traffic@[k].pending_vehicles@ == old(
                    self,
                ).traffic@[k].pending_vehicles@.push(car)
                &&& final(self).traffic@[k].running_vehicles@ == old(self).traffic@[k].running_vehicles@
                &&& final(self).traffic@[k].blocked_vehicles@ == old(self).traffic@[k].blocked_vehicles@
                &&& final(self).traffic@[k].tombstone_vehicles@ == old(
                    self,
                ).traffic@[k].tombstone_vehicles@
                &&& forall|j: int|
                    0 <= j < final(self).traffic@.len() && j != k ==> #[trigger] final(self).traffic@[j]
                        == old(self).traffic@[j]
                &&& old(self).consistent() ==> final(self).consistent()
            }),
            r is Ok ==> final(self).wf() && final(self).vehicle_ids() == old(self).vehicle_ids().insert(
                car.id,
            ) && final(self).regulated_roadmap == old(self).regulated_roadmap
                && final(self).tso_per_tick == old(self).tso_per_tick
                && final(self).cur_tso == old(self).cur_tso,
    {
        let road = match &car.intention {
            Intention::Goto(g) => g.from.road,
            _ => {
                return Err(SimError::InvalidIntentionState);
            },
        };
        if !fits_map(&car, &self.regulated_roadmap) {
            return Err(SimError::GraphInconsistency);
        }
        let k = match road_index(&self.regulated_roadmap, road) {
            Some(k) => k,
            None => {
                return Err(SimError::GraphInconsistency);
            },
        };
        let ghost ts = self.traffic@;
        let mut rt = RoadTraffic::new(0);
        self.traffic.set_and_swap(k, &mut rt);
        let ghost rt0 = rt;
        rt.pending_vehicles.push(car);
        self.traffic.set_and_swap(k, &mut rt);
        proof {
            assert(self.traffic@ =~= ts.update(k as int, self.traffic@[k as int]));
            lemma_ids_push(rt0.pending_vehicles@, car);
            let x = self.traffic@[k as int];
            assert(x.all_ids() =~= rt0.all_ids().insert(car.id));
            lemma_traffic_ids_replace(ts, k as int, x);
            assert(traffic_ids(self.traffic@) =~= traffic_ids(ts).insert(car.id));
            assert(self.vehicle_ids() =~= old(self).vehicle_ids().insert(car.id));
        }
        Ok(())
    }

    /// Whether the simulation is consistent (see `consistent`). Every
    /// vehicle is first checked to be in its place, on every road, so a
    /// vehicle out of place fails the check with `GraphInconsistency`.
    pub fn check(&self) -> (r: Result<(), SimError>)
        requires
            self.wf(),
        ensures
            r is Ok <==> self.consistent(),
            (exists|k: int|
                0 <= k < self.traffic@.len() && !(#[trigger] self.traffic@[k]).placed(
                    self.regulated_roadmap.roads@,
                )) ==> r == Err::<(), SimError>(SimError::GraphInconsistency),
            r matches Err(e) ==> e == SimError::GraphInconsistency || e
                == SimError::InvalidIntentionState,
    {
        let ghost roads = self.regulated_roadmap.roads@;
        let n = self.traffic.len();
        let mut k: usize = 0;
        while k < n
            invariant
                k <= n,
                n == self.traffic@.len(),
                self.wf(),
                roads == self.regulated_roadmap.roads@,
                forall|j: int| 0 <= j < k ==> (#[trigger] self.traffic@[j]).placed(roads),
            decreases n - k,
        {
            match self.traffic[k].check(&self.regulated_roadmap, false) {
                Ok(()) => {},
                Err(e) => {
                    proof {
                        assert(!self.traffic@[k as int].consistent(roads));
                    }
                    return Err(e);
                },
            }
            k = k + 1;
        }
        let mut k: usize = 0;
        while k < n
            invariant
                k <= n,
                n == self.traffic@.len(),
                self.wf(),
                roads == self.regulated_roadmap.roads@,
                forall|j: int| 0 <= j < n ==> (#[trigger] self.traffic@[j]).placed(roads),
                forall|j: int| 0 <= j < k ==> (#[trigger] self.traffic@[j]).consistent(roads),
            decreases n - k,
        {
            self.traffic[k].check(&self.regulated_roadmap, true)?;
            k = k + 1;
        }
        Ok(())
    }

    /// Advances the simulation by one tick. The simulation is first checked
    /// (see `check`); an inconsistent one fails the tick and is left as it
    /// was. Then every road, in ascending order, lets its vehicles run: the
    /// newly arrived ones resume, the light is asked at the tick's instant
    /// about the blocked ones, and every vehicle still on the road gets a
    /// fresh allowance of `speed * tso_per_tick` (`let_in`). Then every road,
    /// in ascending order, runs its vehicles (see
    /// `RoadTraffic::handle_running`), the vehicles handed off being held
    /// back until all roads are done; then each of them, in the order of the
    /// roads they left and then of their queues, joins the blocked queue of
    /// its new road if it waits at the light, and the newly arrived queue
    /// otherwise (`merge_into`); then the retired vehicles of every road, in
    /// road order, join the simulation's retired vehicles; last, the clock
    /// moves on by `tso_per_tick`. No vehicle is created, lost or duplicated.
    pub fn tick(&mut self) -> (r: Result<(), SimError>)
        requires
            old(self).wf(),
            old(self).cur_tso + old(self).tso_per_tick <= i64::MAX,
        ensures
            r is Ok ==> {
                &&& final(self).wf()
                &&& final(self).vehicle_ids() == old(self).vehicle_ids()
                &&& old(self).ids_unique() ==> final(self).ids_unique()
                &&& forall|k: int|
                    0 <= k < final(self).traffic@.len() ==> (#[trigger] final(self).traffic@[k]).tombstone_vehicles@.len() == 0
                        && final(self).traffic@[k].fresh_queues(old(self).tso_per_tick)
                &&& final(self).cur_tso == old(self).cur_tso + old(self).tso_per_tick
                &&& final(self).tso_per_tick == old(self).tso_per_tick
                &&& final(self).regulated_roadmap == old(self).regulated_roadmap
            },
            r is Ok <==> old(self).consistent(),
            r is Ok ==> exists|run: Seq<QueueView>, st: Seq<Seq<(i32, EndToEndCar)>>|
                #[trigger] ran_all(old(self).traffic@, run, st, old(self).regulated_roadmap.roads@, old(self).traffic_light, old(self).cur_tso, old(self).tso_per_tick)
                && ({
                let mm = merge_into(run, flatten(st));
                &&& forall|j: int|
                    0 <= j < final(self).traffic@.len() ==> (#[trigger] final(self).traffic@[j]).qview() == (
                        mm[j].0,
                        mm[j].1,
                        mm[j].2,
                        Seq::<EndToEndCar>::empty(),
                    )
                &&& final(self).tombstone_vehicles@ == old(self).tombstone_vehicles@ + all_tombs(mm)
            }),
            r is Ok ==> final(self).consistent(),
            r is Err ==> *final(self) == *old(self),
            (exists|k: int|
                0 <= k < old(self).traffic@.len() && !(#[trigger] old(self).traffic@[k]).placed(
                    old(self).regulated_roadmap.roads@,
                )) ==> r == Err::<(), SimError>(SimError::GraphInconsistency),
            r matches Err(e) ==> e == SimError::GraphInconsistency || e
                == SimError::InvalidIntentionState,
    {
        self.check()?;
        let ghost cons0 = old(self).consistent();
        let ghost roads = self.regulated_roadmap.roads@;
        let n = self.traffic.len();
        let tpt = self.tso_per_tick;
        let mut k: usize = 0;
        while k < n
            invariant
                k <= n,
                n == self.traffic@.len(),
                tpt == self.tso_per_tick,
                self.wf(),
                self.vehicle_ids() == old(self).vehicle_ids(),
                self.cur_tso == old(self).cur_tso,
                self.tso_per_tick == old(self).tso_per_tick,
                self.regulated_roadmap == old(self).regulated_roadmap,
                forall|j: int| 0 <= j < k ==> (#[trigger] self.traffic@[j]).fresh_queues(tpt),
                roads == self.regulated_roadmap.roads@,
                cons0 == old(self).consistent(),
                cons0,
                self.consistent(),
                self.traffic_light == old(self).traffic_light,
                self.tombstone_vehicles@ == old(self).tombstone_vehicles@,
                forall|j: int|
                    0 <= j < k ==> (#[trigger] self.traffic@[j]).qview() == let_in(
                        old(self).traffic@[j].qview(),
                        (j + 1) as i32,
                        roads,
                        old(self).traffic_light,
                        old(self).cur_tso,
                        tpt,
                    ),
                forall|j: int| k <= j < n ==> #[trigger] self.traffic@[j] == old(self).traffic@[j],
            decreases n - k,
        {
            let ghost ts = self.traffic@;
            let mut rt = RoadTraffic::new(0);
            self.traffic.set_and_swap(k, &mut rt);
            let ghost rt0 = rt;
            assert(rt0.wf(tpt));
            assert(rt0 == ts[k as int]);
            assert(rt0.consistent(roads));
            rt.handle_pending()?;
            let ghost rt1 = rt;
            assert forall|i: int| 0 <= i < rt1.running_vehicles@.len() implies (#[trigger] rt1.running_vehicles@[i]).wf()
                && rt1.running_vehicles@[i].speed * tpt <= i64::MAX && running_ok(
                rt1.running_vehicles@[i],
                rt1.road,
                roads,
            ) by {
                let l = rt0.running_vehicles@.len();
                if i < l {
                    assert(rt1.running_vehicles@.subrange(0, l as int)[i] == rt0.running_vehicles@[i]);
                } else {
                    let p = rt0.pending_vehicles@[i - l];
                    assert(same_car(rt1.running_vehicles@[l + (i - l)], p));
                    assert(rt1.running_vehicles@[l + (i - l)].intention == resumed(p.intention));
                    assert(arrival_ok(p, rt0.road) && in_map(p, roads));
                }
            }
            rt.handle_blocking(&self.regulated_roadmap, &self.traffic_light, self.cur_tso)?;
            let ghost rt2 = rt;
            proof {
                lemma_split_admitted(rt1.blocked_vehicles@, roads, rt1.road, self.traffic_light, self.cur_tso, tpt);
                let sp = split_admitted(rt1.blocked_vehicles@, roads, rt1.road, self.traffic_light, self.cur_tso);
                assert forall|i: int| 0 <= i < rt2.running_vehicles@.len() implies (#[trigger] rt2.running_vehicles@[i]).wf()
                    && rt2.running_vehicles@[i].speed * tpt <= i64::MAX && running_ok(
                    rt2.running_vehicles@[i],
                    rt2.road,
                    roads,
                ) by {
                    let l = rt1.running_vehicles@.len();
                    if i < l {
                        assert(rt2.running_vehicles@[i] == rt1.running_vehicles@[i]);
                    } else {
                        assert(rt2.running_vehicles@[i] == sp.0[i - l]);
                    }
                }
            }
            refill_all(&mut rt.running_vehicles, tpt);
            refill_all(&mut rt.blocked_vehicles, tpt);
            proof {
                let f = |c: EndToEndCar| refilled(c, tpt);
                assert forall|i: int| 0 <= i < rt.running_vehicles@.len() implies running_ok(
                    #[trigger] rt.running_vehicles@[i],
                    rt.road,
                    roads,
                ) by {
                    assert(rt.running_vehicles@[i] == refilled(rt2.running_vehicles@[i], tpt));
                }
                assert forall|i: int| 0 <= i < rt.blocked_vehicles@.len() implies waiting_ok(
                    #[trigger] rt.blocked_vehicles@[i],
                    rt.road,
                ) && in_map(rt.blocked_vehicles@[i], roads) by {
                    assert(rt.blocked_vehicles@[i] == refilled(rt2.blocked_vehicles@[i], tpt));
                }
                assert(rt.all_ids() =~= rt0.all_ids());
                assert(rt.consistent(roads));
                assert(rt.fresh_queues(tpt));
                let sp = split_admitted(rt1.blocked_vehicles@, roads, rt1.road, self.traffic_light, self.cur_tso);
                assert(rt0 == old(self).traffic@[k as int]);
                assert(rt0.road == k + 1);
                assert(rt1.blocked_vehicles@ == rt0.blocked_vehicles@);
                assert(rt2.running_vehicles@ == rt1.running_vehicles@ + sp.0);
                assert(rt2.running_vehicles@ =~= rt0.running_vehicles@ + rt0.pending_vehicles@.map_values(
                    |c: EndToEndCar| resumed_car(c),
                ) + sp.0);
                assert(rt.pending_vehicles@ =~= Seq::<EndToEndCar>::empty());
                assert(rt.qview() =~= let_in(rt0.qview(), (k + 1) as i32, roads, self.traffic_light, self.cur_tso, tpt));
            }
            assert(rt.wf(tpt));
            self.traffic.set_and_swap(k, &mut rt);
            proof {
                assert(self.traffic@ =~= ts.update(k as int, self.traffic@[k as int]));
                lemma_traffic_ids_replace(ts, k as int, self.traffic@[k as int]);
                if cons0 {
                    assert forall|j: int| 0 <= j < self.traffic@.len() implies (#[trigger] self.traffic@[j]).consistent(roads) by {
                        if j != k {
                            assert(self.traffic@[j] == ts[j]);
                        }
                    }
                }
                assert forall|j: int| 0 <= j < k + 1 implies (#[trigger] self.traffic@[j]).qview() == let_in(
                    old(self).traffic@[j].qview(),
                    (j + 1) as i32,
                    roads,
                    old(self).traffic_light,
                    old(self).cur_tso,
                    tpt,
                ) by {
                    if j < k {
                        assert(self.traffic@[j] == ts[j]);
                    }
                }
                assert forall|j: int| k + 1 <= j < n implies #[trigger] self.traffic@[j] == old(self).traffic@[j] by {
                    assert(self.traffic@[j] == ts[j]);
                }
            }
            k = k + 1;
        }
        let ghost ta = self.traffic@;
        let ghost mut run: Seq<QueueView> = Seq::empty();
        let ghost mut st: Seq<Seq<(i32, EndToEndCar)>> = Seq::empty();
        let mut staged: Vec<(i32, EndToEndCar)> = Vec::new();
        proof {
            assert(staged@ =~= flatten(st));
            assert(staged@.map_values(|p: (i32, EndToEndCar)| p.1) =~= Seq::<EndToEndCar>::empty());
            assert(ids(Seq::<EndToEndCar>::empty()) =~= Multiset::empty());
            assert(self.vehicle_ids().add(staged_ids(staged@)) =~= old(self).vehicle_ids());
        }
        let mut k: usize = 0;
        while k < n
            invariant
                k <= n,
                n == self.traffic@.len(),
                tpt == self.tso_per_tick,
                self.wf(),
                self.vehicle_ids().add(staged_ids(staged@)) == old(self).vehicle_ids(),
                self.cur_tso == old(self).cur_tso,
                self.tso_per_tick == old(self).tso_per_tick,
                self.regulated_roadmap == old(self).regulated_roadmap,
                forall|i: int|
                    0 <= i < staged@.len() ==> {
                        &&& (#[trigger] staged@[i]).1.wf()
                        &&& staged@[i].1.speed * tpt <= i64::MAX
                        &&& current_road(staged@[i].1.intention) == Some(staged@[i].0)
                        &&& staged@[i].1.budget == staged@[i].1.speed * tpt
                    },
                forall|j: int| 0 <= j < n ==> (#[trigger] self.traffic@[j]).fresh_queues(tpt),
                roads == self.regulated_roadmap.roads@,
                cons0 == old(self).consistent(),
                cons0,
                cons0 ==> self.consistent() && forall|i: int|
                    0 <= i < staged@.len() ==> in_map(#[trigger] staged@[i].1, roads),
                self.traffic_light == old(self).traffic_light,
                self.tombstone_vehicles@ == old(self).tombstone_vehicles@,
                ta.len() == n,
                forall|j: int|
                    0 <= j < n ==> (#[trigger] ta[j]).qview() == let_in(
                        old(self).traffic@[j].qview(),
                        (j + 1) as i32,
                        roads,
                        old(self).traffic_light,
                        old(self).cur_tso,
                        tpt,
                    ) && ta[j].road == j + 1,
                run.len() == k,
                st.len() == k,
                forall|j: int|
                    0 <= j < k ==> (#[trigger] self.traffic@[j]).qview() == run[j] && ran(
                        ta[j].qview(),
                        run[j],
                        st[j],
                        (j + 1) as i32,
                        roads,
                        old(self).traffic_light,
                        old(self).cur_tso,
                    ),
                forall|j: int| k <= j < n ==> #[trigger] self.traffic@[j] == ta[j],
                staged@ == flatten(st),
            decreases n - k,
        {
            let ghost ts = self.traffic@;
            let ghost before = self.vehicle_ids();
            let mut rt = RoadTraffic::new(0);
            self.traffic.set_and_swap(k, &mut rt);
            let ghost rt0 = rt;
            assert(rt0 == ta[k as int]);
            let mut res = rt.handle_running(&self.regulated_roadmap, &self.traffic_light, self.cur_tso, tpt)?;
            let ghost rt1 = rt;
            let ghost r0s = res.pending_vehicles@;
            let ghost f0 = staged@;
            self.traffic.set_and_swap(k, &mut rt);
            proof {
                assert(self.traffic@ =~= ts.update(k as int, self.traffic@[k as int]));
                if cons0 {
                    assert(rt0 == ts[k as int]);
                    assert(rt0.consistent(roads));
                    assert forall|j: int| 0 <= j < self.traffic@.len() implies (#[trigger] self.traffic@[j]).consistent(roads) by {
                        if j != k {
                            assert(self.traffic@[j] == ts[j]);
                        }
                    }
                }
                lemma_traffic_ids_update(ts, k as int, self.traffic@[k as int]);
                let t1 = traffic_ids(self.traffic@);
                assert forall|v: i32| #[trigger] t1.add(staged_ids(res.pending_vehicles@)).count(v) == traffic_ids(ts).count(v) by {
                    assert(t1.add(rt0.all_ids()).count(v) == traffic_ids(ts).add(rt1.all_ids()).count(v));
                    assert(rt1.all_ids().add(staged_ids(res.pending_vehicles@)).count(v) == rt0.all_ids().count(v));
                }
                assert(t1.add(staged_ids(res.pending_vehicles@)) =~= traffic_ids(ts));
                assert(self.vehicle_ids().add(staged_ids(res.pending_vehicles@)) =~= before);
            }
            while res.pending_vehicles.len() > 0
                invariant
                    self.vehicle_ids().add(staged_ids(staged@)).add(staged_ids(res.pending_vehicles@)) == old(self).vehicle_ids(),
                    forall|i: int|
                        0 <= i < staged@.len() ==> {
                            &&& (#[trigger] staged@[i]).1.wf()
                            &&& staged@[i].1.speed * tpt <= i64::MAX
                            &&& current_road(staged@[i].1.intention) == Some(staged@[i].0)
                            &&& staged@[i].1.budget == staged@[i].1.speed * tpt
                        },
                    forall|i: int|
                        0 <= i < res.pending_vehicles@.len() ==> {
                            &&& (#[trigger] res.pending_vehicles@[i]).1.wf()
                            &&& res.pending_vehicles@[i].1.speed * tpt <= i64::MAX
                            &&& current_road(res.pending_vehicles@[i].1.intention) == Some(res.pending_vehicles@[i].0)
                            &&& res.pending_vehicles@[i].1.budget == res.pending_vehicles@[i].1.speed * tpt
                        },
                    cons0 ==> (forall|i: int|
                        0 <= i < staged@.len() ==> in_map(#[trigger] staged@[i].1, roads)) && (forall|i: int|
                        0 <= i < res.pending_vehicles@.len() ==> in_map(#[trigger] res.pending_vehicles@[i].1, roads)),
                    staged@ + res.pending_vehicles@ == f0 + r0s,
                decreases res.pending_vehicles@.len(),
            {
                let ghost p0 = res.pending_vehicles@;
                let ghost s0 = staged@;
                let item = res.pending_vehicles.remove(0);
                assert(p0[0] == item);
                proof {
                    assert forall|i: int| 0 <= i < res.pending_vehicles@.len() implies #[trigger] res.pending_vehicles@[i] == p0[i + 1] by {}
                }
                staged.push(item);
                proof {
                    lemma_staged_take_first(p0);
                    lemma_staged_push(s0, item);
                    assert(self.vehicle_ids().add(staged_ids(staged@)).add(staged_ids(res.pending_vehicles@)) =~= old(self).vehicle_ids());
                    assert(staged@ + res.pending_vehicles@ =~= s0 + p0);
                }
            }
            proof {
                assert(res.pending_vehicles@.map_values(|p: (i32, EndToEndCar)| p.1) =~= Seq::<EndToEndCar>::empty());
                assert(ids(Seq::<EndToEndCar>::empty()) =~= Multiset::empty());
                assert(self.vehicle_ids().add(staged_ids(staged@)) =~= old(self).vehicle_ids());
                let st2 = st.push(r0s);
                assert(st2.drop_last() =~= st);
                assert(staged@ =~= f0 + r0s);
                assert(staged@ =~= flatten(st2));
                let run2 = run.push(rt1.qview());
                assert forall|j: int| 0 <= j < k + 1 implies (#[trigger] self.traffic@[j]).qview() == run2[j] && ran(
                    ta[j].qview(),
                    run2[j],
                    st2[j],
                    (j + 1) as i32,
                    roads,
                    old(self).traffic_light,
                    old(self).cur_tso,
                ) by {
                    if j < k {
                        assert(self.traffic@[j] == ts[j]);
                        assert(run2[j] == run[j] && st2[j] == st[j]);
                    } else {
                        assert(self.traffic@[j] == rt1);
                    }
                }
                assert forall|j: int| k + 1 <= j < n implies #[trigger] self.traffic@[j] == ta[j] by {
                    assert(self.traffic@[j] == ts[j]);
                }
                run = run2;
                st = st2;
            }
            k = k + 1;
        }
        proof {
            assert forall|j: int| 0 <= j < n implies #[trigger] ran(
                let_in(old(self).traffic@[j].qview(), (j + 1) as i32, roads, old(self).traffic_light, old(self).cur_tso, tpt),
                run[j],
                st[j],
                (j + 1) as i32,
                roads,
                old(self).traffic_light,
                old(self).cur_tso,
            ) by {
                assert(ta[j].qview() == let_in(old(self).traffic@[j].qview(), (j + 1) as i32, roads, old(self).traffic_light, old(self).cur_tso, tpt));
                assert(self.traffic@[j].qview() == run[j]);
                assert(ran(ta[j].qview(), run[j], st[j], (j + 1) as i32, roads, old(self).traffic_light, old(self).cur_tso));
            }
        }
        let ghost rall = ran_all(old(self).traffic@, run, st, roads, old(self).traffic_light, old(self).cur_tso, tpt);
        assert(rall);
        let ghost fl = flatten(st);
        let ghost mut y: int = 0;
        proof {
            assert(fl.subrange(0, 0) =~= Seq::<(i32, EndToEndCar)>::empty());
            assert(staged@ =~= fl.subrange(0, fl.len() as int));
        }
        while staged.len() > 0
            invariant
                n == self.traffic@.len(),
                tpt == self.tso_per_tick,
                self.wf(),
                self.vehicle_ids().add(staged_ids(staged@)) == old(self).vehicle_ids(),
                self.cur_tso == old(self).cur_tso,
                self.tso_per_tick == old(self).tso_per_tick,
                self.regulated_roadmap == old(self).regulated_roadmap,
                forall|i: int|
                    0 <= i < staged@.len() ==> {
                        &&& (#[trigger] staged@[i]).1.wf()
                        &&& staged@[i].1.speed * tpt <= i64::MAX
                        &&& current_road(staged@[i].1.intention) == Some(staged@[i].0)
                        &&& staged@[i].1.budget == staged@[i].1.speed * tpt
                    },
                forall|j: int| 0 <= j < n ==> (#[trigger] self.traffic@[j]).fresh_queues(tpt),
                roads == self.regulated_roadmap.roads@,
                cons0 == old(self).consistent(),
                cons0,
                cons0 ==> self.consistent() && forall|i: int|
                    0 <= i < staged@.len() ==> in_map(#[trigger] staged@[i].1, roads),
                self.traffic_light == old(self).traffic_light,
                self.tombstone_vehicles@ == old(self).tombstone_vehicles@,
                run.len() == n,
                rall,
                rall == ran_all(old(self).traffic@, run, st, roads, old(self).traffic_light, old(self).cur_tso, tpt),
                0 <= y <= fl.len(),
                staged@ == fl.subrange(y, fl.len() as int),
                forall|j: int| 0 <= j < n ==> (#[trigger] self.traffic@[j]).qview() == merge_into(run, fl.subrange(0, y))[j],
            decreases staged@.len(),
        {
            let ghost s0 = staged@;
            let ghost ts = self.traffic@;
            let (road, car) = staged.remove(0);
            assert(s0[0] == (road, car));
            assert(fl[y] == (road, car));
            proof {
                assert forall|i: int| 0 <= i < staged@.len() implies #[trigger] staged@[i] == s0[i + 1] by {}
                if cons0 {
                    lemma_current_road_in(car, roads, road);
                }
            }
            let k = match road_index(&self.regulated_roadmap, road) {
                Some(k) => k,
                None => {
                    return Err(SimError::GraphInconsistency);
                },
            };
            let waiting = match &car.intention {
                Intention::Blocked(_) => true,
                _ => false,
            };
            let mut rt = RoadTraffic::new(0);
            self.traffic.set_and_swap(k, &mut rt);
            let ghost rt0 = rt;
            if waiting {
                rt.blocked_vehicles.push(car);
                proof {
                    lemma_ids_push(rt0.blocked_vehicles@, car);
                }
            } else {
                rt.pending_vehicles.push(car);
                proof {
                    lemma_ids_push(rt0.pending_vehicles@, car);
                }
            }
            assert(rt.all_ids() =~= rt0.all_ids().insert(car.id));
            self.traffic.set_and_swap(k, &mut rt);
            proof {
                assert(self.traffic@ =~= ts.update(k as int, self.traffic@[k as int]));
                lemma_traffic_ids_replace(ts, k as int, self.traffic@[k as int]);
                lemma_staged_take_first(s0);
                assert(traffic_ids(self.traffic@) =~= traffic_ids(ts).insert(car.id));
                if cons0 {
                    assert(rt0 == ts[k as int]);
                    assert(rt0.consistent(roads));
                    assert(self.traffic@[k as int].consistent(roads));
                    assert forall|j: int| 0 <= j < self.traffic@.len() implies (#[trigger] self.traffic@[j]).consistent(roads) by {
                        if j != k {
                            assert(self.traffic@[j] == ts[j]);
                        }
                    }
                }
                assert(self.vehicle_ids().add(staged_ids(staged@)) =~= old(self).vehicle_ids());
                let pre = fl.subrange(0, y);
                let pre2 = fl.subrange(0, y + 1);
                assert(pre2.drop_last() =~= pre);
                assert(pre2.last() == (road, car));
                lemma_merge_len(run, pre);
                let m = merge_into(run, pre);
                assert(rt0.qview() == m[k as int]);
                assert forall|j: int| 0 <= j < n implies (#[trigger] self.traffic@[j]).qview() == merge_into(run, pre2)[j] by {
                    if j != k {
                        assert(self.traffic@[j] == ts[j]);
                    } else {
                        assert(self.traffic@[j].qview() =~= merge_into(run, pre2)[j]);
                    }
                }
                assert(staged@ =~= fl.subrange(y + 1, fl.len() as int));
                y = y + 1;
            }
        }
        proof {
            assert(staged@.map_values(|p: (i32, EndToEndCar)| p.1) =~= Seq::<EndToEndCar>::empty());
            assert(ids(Seq::<EndToEndCar>::empty()) =~= Multiset::empty());
            assert(self.vehicle_ids() =~= old(self).vehicle_ids());
        }
        let ghost mm = merge_into(run, fl);
        proof {
            assert(fl.subrange(0, y) =~= fl);
            lemma_merge_len(run, fl);
            assert(mm.subrange(0, 0) =~= Seq::<QueueView>::empty());
            assert(all_tombs(mm.subrange(0, 0)) =~= Seq::<EndToEndCar>::empty());
            assert(self.tombstone_vehicles@ =~= old(self).tombstone_vehicles@ + all_tombs(mm.subrange(0, 0)));
        }
        let mut k: usize = 0;
        while k < n
            invariant
                k <= n,
                n == self.traffic@.len(),
                tpt == self.tso_per_tick,
                self.wf(),
                self.vehicle_ids() == old(self).vehicle_ids(),
                self.cur_tso == old(self).cur_tso,
                self.tso_per_tick == old(self).tso_per_tick,
                self.regulated_roadmap == old(self).regulated_roadmap,
                forall|j: int| 0 <= j < k ==> (#[trigger] self.traffic@[j]).tombstone_vehicles@.len() == 0,
                forall|j: int| 0 <= j < n ==> (#[trigger] self.traffic@[j]).fresh_queues(tpt),
                roads == self.regulated_roadmap.roads@,
                cons0 == old(self).consistent(),
                cons0 ==> self.consistent(),
                mm.len() == n,
                rall,
                rall == ran_all(old(self).traffic@, run, st, roads, old(self).traffic_light, old(self).cur_tso, tpt),
                mm == merge_into(run, flatten(st)),
                forall|j: int|
                    0 <= j < k ==> (#[trigger] self.traffic@[j]).qview() == (
                        mm[j].0,
                        mm[j].1,
                        mm[j].2,
                        Seq::<EndToEndCar>::empty(),
                    ),
                forall|j: int| k <= j < n ==> (#[trigger] self.traffic@[j]).qview() == mm[j],
                self.tombstone_vehicles@ == old(self).tombstone_vehicles@ + all_tombs(mm.subrange(0, k as int)),
            decreases n - k,
        {
            let ghost ts = self.traffic@;
            let mut rt = RoadTraffic::new(0);
            self.traffic.set_and_swap(k, &mut rt);
            let ghost rt0 = rt;
            let ghost g0 = self.tombstone_vehicles@;
            let ghost tmid = self.traffic@;
            while rt.tombstone_vehicles.len() > 0
                invariant
                    self.traffic@ == tmid,
                    tmid.len() == n,
                    k < n,
                    tpt == self.tso_per_tick,
                    self.cur_tso == old(self).cur_tso,
                    self.regulated_roadmap == old(self).regulated_roadmap,
                    rt.wf(tpt),
                    rt.fresh_queues(tpt),
                    rt.pending_vehicles@ == rt0.pending_vehicles@,
                    rt.running_vehicles@ == rt0.running_vehicles@,
                    rt.blocked_vehicles@ == rt0.blocked_vehicles@,
                    rt.road == rt0.road,
                    cars_ok(self.tombstone_vehicles@, tpt),
                    rt.all_ids().add(ids(self.tombstone_vehicles@)) == rt0.all_ids().add(ids(g0)),
                    self.tombstone_vehicles@ + rt.tombstone_vehicles@ == g0 + rt0.tombstone_vehicles@,
                decreases rt.tombstone_vehicles@.len(),
            {
                let ghost t0 = rt.tombstone_vehicles@;
                let ghost gv = self.tombstone_vehicles@;
                let car = rt.tombstone_vehicles.remove(0);
                assert(t0[0] == car);
                self.tombstone_vehicles.push(car);
                proof {
                    lemma_ids_take_first(t0);
                    lemma_ids_push(gv, car);
                    assert(rt.all_ids().add(ids(self.tombstone_vehicles@)) =~= rt0.all_ids().add(ids(g0)));
                    assert(self.tombstone_vehicles@ + rt.tombstone_vehicles@ =~= gv + t0);
                }
            }
            let ghost rt1 = rt;
            self.traffic.set_and_swap(k, &mut rt);
            proof {
                assert(self.traffic@ =~= ts.update(k as int, rt1));
                if cons0 {
                    assert(rt0 == ts[k as int]);
                    assert(rt0.consistent(roads));
                    assert(rt1.consistent(roads));
                    assert forall|j: int| 0 <= j < self.traffic@.len() implies (#[trigger] self.traffic@[j]).consistent(roads) by {
                        if j != k {
                            assert(self.traffic@[j] == ts[j]);
                        }
                    }
                }
                lemma_traffic_ids_update(ts, k as int, rt1);
                let t1 = traffic_ids(self.traffic@);
                assert forall|v: i32| #[trigger] self.vehicle_ids().count(v) == old(self).vehicle_ids().count(v) by {
                    assert(t1.add(rt0.all_ids()).count(v) == traffic_ids(ts).add(rt1.all_ids()).count(v));
                    assert(rt1.all_ids().add(ids(self.tombstone_vehicles@)).count(v) == rt0.all_ids().add(ids(g0)).count(v));
                }
                assert(self.vehicle_ids() =~= old(self).vehicle_ids());
                assert(rt0.qview() == mm[k as int]);
                assert(rt1.tombstone_vehicles@ =~= Seq::<EndToEndCar>::empty());
                assert(self.tombstone_vehicles@ =~= g0 + rt0.tombstone_vehicles@);
                let mk = mm.subrange(0, k + 1);
                assert(mk.drop_last() =~= mm.subrange(0, k as int));
                assert(self.tombstone_vehicles@ =~= old(self).tombstone_vehicles@ + all_tombs(mk));
                assert forall|j: int|
                    0 <= j < k + 1 implies (#[trigger] self.traffic@[j]).qview() == (
                        mm[j].0,
                        mm[j].1,
                        mm[j].2,
                        Seq::<EndToEndCar>::empty(),
                    ) by {
                    if j < k {
                        assert(self.traffic@[j] == ts[j]);
                    } else {
                        assert(self.traffic@[j].qview() =~= (mm[j].0, mm[j].1, mm[j].2, Seq::<EndToEndCar>::empty()));
                    }
                }
                assert forall|j: int| k + 1 <= j < n implies (#[trigger] self.traffic@[j]).qview() == mm[j] by {
                    assert(self.traffic@[j] == ts[j]);
                }
            }
            k = k + 1;
        }
        proof {
            assert(mm.subrange(0, n as int) =~= mm);
            assert(ran_all(old(self).traffic@, run, st, roads, old(self).traffic_light, old(self).cur_tso, tpt));
        }
        self.cur_tso = self.cur_tso + self.tso_per_tick;
        Ok(())
    }
}

} // verus!
