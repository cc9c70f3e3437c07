//! A single-queue driver: every vehicle in one list, with no per-road
//! queues and no hand-off between ticks.

use vstd::prelude::*;
use vstd::multiset::Multiset;
use crate::roadmap::{roads_wf, RegulatedRoadMap};
use crate::simulator::{
    cars_ok, drive, drive_result, fits_map, ids, in_map, lemma_ids_push, lemma_ids_take_first, refilled,
    resumed_car, SimError,
};
use crate::trafficlight::TrafficLight;
use crate::vehicle::{EndToEndCar, Intention};

verus! {

broadcast use vstd::multiset::group_multiset_axioms, vstd::seq_lib::group_to_multiset_ensures;

/// The driven vehicles `outs`, in order, split into those not `Pending`
/// and those `Pending`.
pub open spec fn split_pending(outs: Seq<EndToEndCar>) -> (Seq<EndToEndCar>, Seq<EndToEndCar>)
    decreases outs.len(),
{
    if outs.len() == 0 {
        (Seq::empty(), Seq::empty())
    } else {
        let p = split_pending(outs.drop_last());
        if outs.last().intention is Pending {
            (p.0, p.1.push(outs.last()))
        } else {
            (p.0.push(outs.last()), p.1)
        }
    }
}

/// Drives all vehicles from one list; those that became `Pending` wait in
/// `pending_vehicles` until the next tick.
pub struct Runner<L: TrafficLight> {
    pub regulated_roadmap: RegulatedRoadMap,
    pub vehicles: Vec<EndToEndCar>,
    pub pending_vehicles: Vec<EndToEndCar>,
    pub traffic_light: L,
    pub tso_per_tick: i64,
    pub cur_tso: i64,
}

impl<L: TrafficLight> Runner<L> {
    /// Every vehicle's route lies in the map.
    pub open spec fn routes_in_map(&self) -> bool {
        &&& forall|i: int|
            0 <= i < self.vehicles@.len() ==> in_map(
                #[trigger] self.vehicles@[i],
                self.regulated_roadmap.roads@,
            )
        &&& forall|i: int|
            0 <= i < self.pending_vehicles@.len() ==> in_map(
                #[trigger] self.pending_vehicles@[i],
                self.regulated_roadmap.roads@,
            )
    }

    /// The map is well formed and so is every vehicle.
    pub open spec fn wf(&self) -> bool {
        &&& roads_wf(self.regulated_roadmap.roads@)
        &&& cars_ok(self.vehicles@, self.tso_per_tick)
        &&& cars_ok(self.pending_vehicles@, self.tso_per_tick)
        &&& self.tso_per_tick >= 0
        &&& self.cur_tso >= 0
    }

    /// Drives one vehicle until it has spent its budget, retired, or become
    /// `Pending` (see `drive`), then files it: `Pending` ones apart, the
    /// others in the main list. A vehicle whose route lies in the map is
    /// always driven and filed; any other is kept, undriven, in the main
    /// list, and the call fails.
    pub fn handle_vehicle(&mut self, car: EndToEndCar) -> (r: Result<(), SimError>)
        requires
            old(self).wf(),
            car.wf(),
            car.speed * old(self).tso_per_tick <= i64::MAX,
        ensures
            final(self).regulated_roadmap == old(self).regulated_roadmap,
            final(self).tso_per_tick == old(self).tso_per_tick,
            final(self).cur_tso == old(self).cur_tso,
            r is Ok ==> final(self).wf() && ids(final(self).vehicles@).add(
                ids(final(self).pending_vehicles@),
            ) == ids(old(self).vehicles@).add(ids(old(self).pending_vehicles@)).insert(car.id),
            in_map(car, old(self).regulated_roadmap.roads@) ==> r is Ok,
            r is Ok ==> ({
                let roads = old(self).regulated_roadmap.roads@;
                let light = old(self).traffic_light;
                let t = old(self).cur_tso;
                ||| (final(self).pending_vehicles@ == old(self).pending_vehicles@.push(
                    final(self).pending_vehicles@.last(),
                ) && final(self).vehicles@ == old(self).vehicles@
                    && final(self).pending_vehicles@.last().intention is Pending && drive_result(
                    car,
                    final(self).pending_vehicles@.last(),
                    roads,
                    light,
                    t,
                ) && (in_map(car, roads) ==> in_map(final(self).pending_vehicles@.last(), roads)))
                ||| (final(self).vehicles@ == old(self).vehicles@.push(final(self).vehicles@.last())
                    && final(self).pending_vehicles@ == old(self).pending_vehicles@
                    && !(final(self).vehicles@.last().intention is Pending) && drive_result(
                    car,
                    final(self).vehicles@.last(),
                    roads,
                    light,
                    t,
                ) && (in_map(car, roads) ==> in_map(final(self).vehicles@.last(), roads)))
            }),
            final(self).traffic_light == old(self).traffic_light,
            r is Ok <==> in_map(car, old(self).regulated_roadmap.roads@),
            r is Err ==> final(self).vehicles@ == old(self).vehicles@.push(car)
                && final(self).pending_vehicles@ == old(self).pending_vehicles@
                && final(self).regulated_roadmap == old(self).regulated_roadmap,
            r matches Err(e) ==> e == SimError::GraphInconsistency,
    {
        if !fits_map(&car, &self.regulated_roadmap) {
            self.vehicles.push(car);
            return Err(SimError::GraphInconsistency);
        }
        let mut car = car;
        match drive(&mut car, &self.regulated_roadmap, &self.traffic_light, self.cur_tso) {
            Ok(()) => {},
            Err(e) => {
                return Err(e);
            },
        }
        let pending = match &car.intention {
            Intention::Pending { .. } => true,
            _ => false,
        };
        let ghost v0 = self.vehicles@;
        let ghost p0 = self.pending_vehicles@;
        if pending {
            self.pending_vehicles.push(car);
            proof {
                lemma_ids_push(p0, car);
            }
        } else {
            self.vehicles.push(car);
            proof {
                lemma_ids_push(v0, car);
            }
        }
        proof {
            assert(ids(self.vehicles@).add(ids(self.pending_vehicles@)) =~= ids(v0).add(ids(p0)).insert(
                car.id,
            ));
        }
        Ok(())
    }

    /// One tick: the vehicles held back as `Pending` rejoin the list and go
    /// on along their routes; each vehicle gets the tick's allowance and is
    /// handled in list order; the clock moves on. No vehicle is lost. When
    /// every route lies in the map the tick succeeds, and every route still
    /// lies in the map after it.
    pub fn tick(&mut self) -> (r: Result<(), SimError>)
        requires
            old(self).wf(),
            old(self).cur_tso + old(self).tso_per_tick <= i64::MAX,
        ensures
            old(self).routes_in_map() ==> r is Ok && final(self).routes_in_map(),
            r is Ok ==> exists|outs: Seq<EndToEndCar>|
                #[trigger] outs.len() == old(self).vehicles@.len() + old(self).pending_vehicles@.len()
                    && (forall|i: int|
                    0 <= i < outs.len() ==> drive_result(
                        refilled(
                            (old(self).vehicles@ + old(self).pending_vehicles@.map_values(
                                |c: EndToEndCar| resumed_car(c),
                            ))[i],
                            old(self).tso_per_tick,
                        ),
                        #[trigger] outs[i],
                        old(self).regulated_roadmap.roads@,
                        old(self).traffic_light,
                        old(self).cur_tso,
                    )) && final(self).vehicles@ == split_pending(outs).0
                    && final(self).pending_vehicles@ == split_pending(outs).1,
            r is Ok ==> final(self).wf() && ids(final(self).vehicles@).add(
                ids(final(self).pending_vehicles@),
            ) == ids(old(self).vehicles@).add(ids(old(self).pending_vehicles@))
                && final(self).cur_tso == old(self).cur_tso + old(self).tso_per_tick,
            r matches Err(e) ==> e == SimError::GraphInconsistency,
    {
        let ghost all0 = old(self).routes_in_map();
        let ghost all = old(self).vehicles@ + old(self).pending_vehicles@.map_values(
            |c: EndToEndCar| resumed_car(c),
        );
        let ghost mut px: int = 0;
        let tpt = self.tso_per_tick;
        let mut work: Vec<EndToEndCar> = Vec::new();
        core::mem::swap(&mut self.vehicles, &mut work);
        proof {
            assert forall|i: int| 0 <= i < work@.len() implies #[trigger] work@[i] == all[i] by {
                assert(all[i] == old(self).vehicles@[i]);
            }
            assert(self.pending_vehicles@ =~= old(self).pending_vehicles@.subrange(0, old(self).pending_vehicles@.len() as int));
        }
        let ghost total = ids(old(self).vehicles@).add(ids(old(self).pending_vehicles@));
        proof {
            assert(ids(Seq::<EndToEndCar>::empty()) =~= Multiset::empty());
            assert(ids(work@).add(ids(self.pending_vehicles@)).add(ids(self.vehicles@)) =~= total);
        }
        while self.pending_vehicles.len() > 0
            invariant
                self.wf(),
                tpt == self.tso_per_tick,
                tpt == old(self).tso_per_tick,
                self.cur_tso == old(self).cur_tso,
                cars_ok(work@, tpt),
                self.vehicles@.len() == 0,
                ids(work@).add(ids(self.pending_vehicles@)) == total,
                self.regulated_roadmap == old(self).regulated_roadmap,
                all0 == old(self).routes_in_map(),
                all0 ==> self.routes_in_map() && forall|i: int|
                    0 <= i < work@.len() ==> in_map(#[trigger] work@[i], self.regulated_roadmap.roads@),
                self.traffic_light == old(self).traffic_light,
                0 <= px <= old(self).pending_vehicles@.len(),
                self.pending_vehicles@ == old(self).pending_vehicles@.subrange(px, old(self).pending_vehicles@.len() as int),
                work@.len() == old(self).vehicles@.len() + px,
                forall|i: int|
                    0 <= i < work@.len() ==> #[trigger] work@[i] == all[i],
                all == old(self).vehicles@ + old(self).pending_vehicles@.map_values(
                    |c: EndToEndCar| resumed_car(c),
                ),
            decreases self.pending_vehicles@.len(),
        {
            let ghost p0 = self.pending_vehicles@;
            let ghost w0 = work@;
            let mut car = self.pending_vehicles.remove(0);
            assert(p0[0] == car);
            proof {
                assert forall|i: int| 0 <= i < self.pending_vehicles@.len() implies #[trigger] self.pending_vehicles@[i] == p0[i + 1] by {}
            }
            let mut it = Intention::Die;
            core::mem::swap(&mut car.intention, &mut it);
            match it {
                Intention::Pending { next, .. } => {
                    car.intention = Intention::Goto(next);
                },
                other => {
                    car.intention = other;
                },
            }
            work.push(car);
            proof {
                assert(car == resumed_car(p0[0]));
                assert(p0[0] == old(self).pending_vehicles@[px]);
                assert(all[old(self).vehicles@.len() + px] == resumed_car(old(self).pending_vehicles@[px]));
                assert forall|i: int| 0 <= i < work@.len() implies #[trigger] work@[i] == all[i] by {
                    if i < work@.len() - 1 {
                        assert(work@[i] == w0[i]);
                    }
                }
                assert(self.pending_vehicles@ =~= old(self).pending_vehicles@.subrange(px + 1, old(self).pending_vehicles@.len() as int));
                px = px + 1;
                lemma_ids_take_first(p0);
                lemma_ids_push(w0, car);
                assert(ids(work@).add(ids(self.pending_vehicles@)) =~= total);
            }
        }
        let ghost mut outs: Seq<EndToEndCar> = Seq::empty();
        let ghost mut x: int = 0;
        proof {
            assert(work@ =~= all.subrange(0, all.len() as int));
            assert(self.vehicles@ =~= Seq::<EndToEndCar>::empty());
            assert(self.pending_vehicles@ =~= Seq::<EndToEndCar>::empty());
            assert(ids(Seq::<EndToEndCar>::empty()) =~= Multiset::empty());
            assert(ids(work@).add(ids(self.vehicles@)).add(ids(self.pending_vehicles@)) =~= total);
        }
        while work.len() > 0
            invariant
                self.wf(),
                tpt == self.tso_per_tick,
                tpt == old(self).tso_per_tick,
                self.cur_tso == old(self).cur_tso,
                cars_ok(work@, tpt),
                ids(work@).add(ids(self.vehicles@)).add(ids(self.pending_vehicles@)) == total,
                self.regulated_roadmap == old(self).regulated_roadmap,
                all0 == old(self).routes_in_map(),
                all0 ==> self.routes_in_map() && forall|i: int|
                    0 <= i < work@.len() ==> in_map(#[trigger] work@[i], self.regulated_roadmap.roads@),
                self.traffic_light == old(self).traffic_light,
                all == old(self).vehicles@ + old(self).pending_vehicles@.map_values(
                    |c: EndToEndCar| resumed_car(c),
                ),
                0 <= x <= all.len(),
                work@ == all.subrange(x, all.len() as int),
                outs.len() == x,
                forall|i: int|
                    0 <= i < x ==> drive_result(
                        refilled(all[i], old(self).tso_per_tick),
                        #[trigger] outs[i],
                        old(self).regulated_roadmap.roads@,
                        old(self).traffic_light,
                        old(self).cur_tso,
                    ),
                self.vehicles@ == split_pending(outs).0,
                self.pending_vehicles@ == split_pending(outs).1,
            decreases work@.len(),
        {
            let ghost w0 = work@;
            let ghost before = ids(self.vehicles@).add(ids(self.pending_vehicles@));
            let mut car = work.remove(0);
            assert(w0[0] == car);
            proof {
                assert forall|i: int| 0 <= i < work@.len() implies #[trigger] work@[i] == w0[i + 1] by {}
            }
            car.new_tick(tpt);
            proof {
                assert(w0[0] == all[x]);
                assert(car == refilled(all[x], old(self).tso_per_tick));
            }
            let ghost cg = car;
            let ghost v1 = self.vehicles@;
            let ghost p1 = self.pending_vehicles@;
            let ghost id = car.id;
            self.handle_vehicle(car)?;
            proof {
                let c2 = if self.pending_vehicles@.len() > p1.len() {
                    self.pending_vehicles@.last()
                } else {
                    self.vehicles@.last()
                };
                let o2 = outs.push(c2);
                assert(o2.drop_last() =~= outs);
                assert(self.vehicles@ =~= split_pending(o2).0);
                assert(self.pending_vehicles@ =~= split_pending(o2).1);
                assert(work@ =~= all.subrange(x + 1, all.len() as int));
                assert forall|i: int| 0 <= i < x + 1 implies drive_result(
                    refilled(all[i], old(self).tso_per_tick),
                    #[trigger] o2[i],
                    old(self).regulated_roadmap.roads@,
                    old(self).traffic_light,
                    old(self).cur_tso,
                ) by {
                    if i < x {
                        assert(o2[i] == outs[i]);
                    }
                }
                outs = o2;
                x = x + 1;
                lemma_ids_take_first(w0);
                assert(id == w0[0].id);
                assert(ids(self.vehicles@).add(ids(self.pending_vehicles@)) == before.insert(id));
                assert(ids(w0) == ids(work@).insert(id));
                assert(ids(w0).add(before) == total);
                let vp = ids(self.vehicles@).add(ids(self.pending_vehicles@));
                assert forall|v: i32| #[trigger] ids(work@).add(ids(self.vehicles@)).add(ids(self.pending_vehicles@)).count(v) == total.count(v) by {
                    assert(vp.count(v) == before.insert(id).count(v));
                    assert(ids(w0).count(v) == ids(work@).insert(id).count(v));
                    assert(ids(w0).add(before).count(v) == total.count(v));
                }
                assert(ids(work@).add(ids(self.vehicles@)).add(ids(self.pending_vehicles@)) =~= total);
                if all0 {
                    assert forall|i: int| 0 <= i < self.vehicles@.len() implies in_map(
                        #[trigger] self.vehicles@[i],
                        self.regulated_roadmap.roads@,
                    ) by {
                        if i < v1.len() {
                            assert(self.vehicles@[i] == v1[i]);
                        }
                    }
                    assert forall|i: int| 0 <= i < self.pending_vehicles@.len() implies in_map(
                        #[trigger] self.pending_vehicles@[i],
                        self.regulated_roadmap.roads@,
                    ) by {
                        if i < p1.len() {
                            assert(self.pending_vehicles@[i] == p1[i]);
                        }
                    }
                }
            }
        }
        proof {
            assert(ids(Seq::<EndToEndCar>::empty()) =~= Multiset::empty());
            assert(ids(self.vehicles@).add(ids(self.pending_vehicles@)) =~= total);
        }
        self.cur_tso = self.cur_tso + tpt;
        Ok(())
    }
}

} // verus!
