use transport_simulator::roadmap::{regularize_bidirectional, PlainRoadMap};
use transport_simulator::runner::Runner;
use transport_simulator::simulator::{drive, plan_route, RoadTraffic, SimError, Simulator};
use transport_simulator::trafficlight::{FixedDelayTrafficLight, RoundRobinTrafficLight, TrafficLight};
use transport_simulator::vehicle::{
    BlockedIntention, EndToEndCar, GotoIntention, Intention, Location, Vehicle,
};

fn fixed_wait(delay: i64) -> FixedDelayTrafficLight {
    FixedDelayTrafficLight { delay }
}

/// Three roads in a row, 1 - 2 - 3, each of weight 100.
fn line_map() -> transport_simulator::roadmap::RegulatedRoadMap {
    let mut m = PlainRoadMap::new();
    m.roads.push(((0, 0), (0, 1)));
    m.weights.push(100);
    m.roads.push(((0, 1), (0, 2)));
    m.weights.push(100);
    regularize_bidirectional(&m)
}

fn goto(road: i32, offset: i64, via: Vec<i32>, to: i32) -> GotoIntention {
    GotoIntention {
        from: Location { road, offset },
        via,
        to: Location { road: to, offset: 0 },
    }
}

fn running_time(car: &EndToEndCar) -> f64 {
    car.get_running_distance() as f64 / car.speed as f64
}

fn blocked_time(car: &EndToEndCar) -> f64 {
    car.get_blocked_distance() as f64 / car.speed as f64
}

fn all_ids<L: TrafficLight>(sim: &Simulator<L>) -> Vec<i32> {
    let mut ids = Vec::new();
    for rt in sim.traffic.iter() {
        for q in [&rt.pending_vehicles, &rt.running_vehicles, &rt.blocked_vehicles, &rt.tombstone_vehicles] {
            ids.extend(q.iter().map(|c| c.get_id()));
        }
    }
    ids.extend(sim.tombstone_vehicles.iter().map(|c| c.get_id()));
    ids.sort();
    ids
}

#[test]
fn vehicle_on_its_destination_road_dies_in_first_tick() {
    let mut sim = Simulator::new(line_map(), RoundRobinTrafficLight { interval: 5 }, 10);
    let car = EndToEndCar::new(7, 50, goto(1, 0, vec![], 1));
    assert_eq!(sim.add_vehicle(car), Ok(()));
    assert_eq!(sim.tick(), Ok(()));
    assert_eq!(sim.cur_tso, 10);
    assert!(sim.traffic[0].tombstone_vehicles.is_empty());
    let retired = &sim.tombstone_vehicles;
    assert_eq!(retired.len(), 1);
    let car = &retired[0];
    assert!(matches!(car.intention(), Intention::Die));
    assert_eq!(running_time(car), 2.0);
    assert_eq!(blocked_time(car), 0.0);
    assert_eq!(car.budget, 500);
    assert_eq!(car.get_left_equivalent_distance(), 400);
}

#[test]
fn long_wait_keeps_vehicle_blocked() {
    let mut car = EndToEndCar::new(1, 50, goto(2, 0, vec![], 2));
    car.new_tick(10);
    let next = goto(2, 0, vec![], 2);
    car.intention = Intention::Blocked(BlockedIntention { next, previous_road: 1 });
    car.face_light(600, 0);
    assert!(matches!(car.intention(), Intention::Blocked(_)));
    assert_eq!(car.get_left_equivalent_distance(), 0);
    assert_eq!(car.consumed, 500);
    assert_eq!(car.get_blocked_distance(), 600);
}

#[test]
fn long_wait_in_a_tick_keeps_vehicle_blocked() {
    let map = line_map();
    let mut car = EndToEndCar::new(1, 50, goto(1, 0, vec![], 2));
    car.new_tick(10);
    assert_eq!(drive(&mut car, &map, &fixed_wait(600), 0), Ok(()));
    match car.intention() {
        Intention::Blocked(b) => {
            assert_eq!(b.previous_road, 1);
            assert_eq!(b.next.from.road, 2);
        }
        _ => panic!("expected the vehicle to wait at the light"),
    }
    assert_eq!(car.get_left_equivalent_distance(), 0);
    assert_eq!(car.get_running_distance(), 100);
    assert_eq!(car.get_blocked_distance(), 600);
}

#[test]
fn short_wait_makes_vehicle_pending() {
    let map = line_map();
    let mut car = EndToEndCar::new(1, 50, goto(1, 0, vec![], 2));
    car.new_tick(10);
    assert_eq!(drive(&mut car, &map, &fixed_wait(150), 3), Ok(()));
    match car.intention() {
        Intention::Pending { next, arrival, remaining } => {
            assert_eq!(next.from.road, 2);
            assert_eq!(*arrival, 5);
            assert_eq!(*remaining, 250);
        }
        _ => panic!("expected the vehicle to be pending"),
    }
    assert_eq!(car.get_left_equivalent_distance(), 250);
    assert_eq!(car.consumed, 250);
}

#[test]
fn fast_vehicle_crosses_several_roads_in_one_tick() {
    let map = line_map();
    let mut car = EndToEndCar::new(1, 50, goto(1, 30, vec![3, 2], 3));
    car.new_tick(10);
    assert_eq!(drive(&mut car, &map, &fixed_wait(0), 0), Ok(()));
    assert!(matches!(car.intention(), Intention::Die));
    assert_eq!(car.get_running_distance(), 270);
    assert_eq!(car.consumed, 270);
}

#[test]
fn slow_vehicle_stops_mid_road() {
    let map = line_map();
    let mut car = EndToEndCar::new(1, 5, goto(1, 20, vec![], 3));
    car.new_tick(10);
    assert_eq!(drive(&mut car, &map, &fixed_wait(0), 0), Ok(()));
    match car.intention() {
        Intention::Goto(g) => {
            assert_eq!(g.from.road, 1);
            assert_eq!(g.from.offset, 70);
        }
        _ => panic!("expected the vehicle to be under way"),
    }
    assert_eq!(car.get_left_equivalent_distance(), 0);
}

#[test]
fn consumed_never_exceeds_the_tick_budget() {
    let mut sim = Simulator::new(line_map(), fixed_wait(30), 10);
    for (id, speed) in [(1, 3), (2, 20), (3, 50), (4, 90)] {
        let car = EndToEndCar::new(id, speed, goto(1, 0, vec![3, 2], 3));
        assert_eq!(sim.add_vehicle(car), Ok(()));
    }
    for _ in 0..6 {
        assert_eq!(sim.tick(), Ok(()));
        for rt in sim.traffic.iter() {
            for q in [&rt.pending_vehicles, &rt.running_vehicles, &rt.blocked_vehicles, &rt.tombstone_vehicles] {
                for c in q.iter() {
                    assert!(c.consumed <= c.speed * 10);
                    assert!(c.consumed + c.get_left_equivalent_distance() == c.budget);
                }
            }
        }
    }
}

#[test]
fn each_vehicle_stays_in_exactly_one_queue() {
    let mut sim = Simulator::new(line_map(), fixed_wait(120), 10);
    for (id, speed) in [(1, 10), (2, 25), (3, 40)] {
        let car = EndToEndCar::new(id, speed, goto(1, 0, vec![3, 2], 3));
        assert_eq!(sim.add_vehicle(car), Ok(()));
    }
    let car = EndToEndCar::new(4, 15, goto(3, 0, vec![1, 2], 1));
    assert_eq!(sim.add_vehicle(car), Ok(()));
    for _ in 0..8 {
        assert_eq!(sim.tick(), Ok(()));
        assert_eq!(all_ids(&sim), vec![1, 2, 3, 4]);
    }
    assert_eq!(sim.cur_tso, 80);
}

#[test]
fn handed_off_vehicle_reaches_next_road_queue() {
    let mut sim = Simulator::new(line_map(), fixed_wait(0), 10);
    let car = EndToEndCar::new(9, 15, goto(1, 0, vec![], 2));
    assert_eq!(sim.add_vehicle(car), Ok(()));
    assert_eq!(sim.tick(), Ok(()));
    assert_eq!(sim.traffic[1].pending_vehicles.len(), 1);
    assert_eq!(sim.traffic[1].pending_vehicles[0].get_running_distance(), 150);
    assert!(sim.traffic[0].running_vehicles.is_empty());
    assert_eq!(sim.tick(), Ok(()));
    assert_eq!(sim.tombstone_vehicles.len(), 1);
    assert_eq!(sim.tombstone_vehicles[0].get_id(), 9);
}

#[test]
fn retired_vehicle_cannot_be_added() {
    let mut sim = Simulator::new(line_map(), RoundRobinTrafficLight { interval: 1 }, 10);
    let mut car = EndToEndCar::new(1, 5, goto(1, 0, vec![], 1));
    car.intention = Intention::Die;
    assert_eq!(sim.add_vehicle(car), Err(SimError::InvalidIntentionState));
}

#[test]
fn vehicle_on_unknown_road_cannot_be_added() {
    let mut sim = Simulator::new(line_map(), RoundRobinTrafficLight { interval: 1 }, 10);
    let car = EndToEndCar::new(1, 5, goto(9, 0, vec![], 1));
    assert_eq!(sim.add_vehicle(car), Err(SimError::GraphInconsistency));
}

#[test]
fn route_through_missing_road_is_inconsistent() {
    let map = line_map();
    let mut car = EndToEndCar::new(1, 50, goto(1, 0, vec![42], 3));
    car.new_tick(10);
    assert_eq!(drive(&mut car, &map, &fixed_wait(0), 0), Err(SimError::GraphInconsistency));
}

#[test]
fn offset_past_road_end_is_inconsistent() {
    let map = line_map();
    let mut car = EndToEndCar::new(1, 50, goto(1, 100, vec![], 3));
    car.new_tick(10);
    assert_eq!(drive(&mut car, &map, &fixed_wait(0), 0), Err(SimError::GraphInconsistency));
}

#[test]
fn blocked_vehicle_among_arrivals_is_invalid() {
    let mut rt = RoadTraffic::new(2);
    let mut car = EndToEndCar::new(1, 5, goto(2, 0, vec![], 3));
    car.intention = Intention::Blocked(BlockedIntention { next: goto(2, 0, vec![], 3), previous_road: 1 });
    rt.pending_vehicles.push(car);
    assert_eq!(rt.handle_pending(), Err(SimError::InvalidIntentionState));
}

#[test]
fn vehicle_of_another_road_in_queue_is_inconsistent() {
    let map = line_map();
    let mut rt = RoadTraffic::new(2);
    rt.running_vehicles.push(EndToEndCar::new(1, 5, goto(3, 0, vec![], 3)));
    assert!(matches!(
        rt.handle_running(&map, &fixed_wait(0), 0, 10),
        Err(SimError::GraphInconsistency)
    ));
    let mut rt = RoadTraffic::new(2);
    rt.pending_vehicles.push(EndToEndCar::new(1, 5, goto(3, 0, vec![], 3)));
    assert_eq!(rt.handle_pending(), Err(SimError::GraphInconsistency));
}

#[test]
fn blocked_queue_moves_to_running_in_order() {
    let map = line_map();
    let mut rt = RoadTraffic::new(2);
    for id in [4, 5] {
        let mut car = EndToEndCar::new(id, 5, goto(2, 0, vec![], 3));
        car.intention = Intention::Blocked(BlockedIntention { next: goto(2, 0, vec![], 3), previous_road: 1 });
        rt.blocked_vehicles.push(car);
    }
    assert_eq!(rt.handle_blocking(&map, &fixed_wait(0), 0), Ok(()));
    assert!(rt.blocked_vehicles.is_empty());
    let ids: Vec<i32> = rt.running_vehicles.iter().map(|c| c.get_id()).collect();
    assert_eq!(ids, vec![4, 5]);
    assert!(rt.running_vehicles.iter().all(|c| matches!(c.intention(), Intention::Goto(_))));
}

#[test]
fn light_with_a_wait_keeps_vehicles_blocked() {
    let map = line_map();
    let mut rt = RoadTraffic::new(2);
    for id in [4, 5] {
        let mut car = EndToEndCar::new(id, 5, goto(2, 0, vec![], 3));
        car.intention = Intention::Blocked(BlockedIntention { next: goto(2, 0, vec![], 3), previous_road: 1 });
        rt.blocked_vehicles.push(car);
    }
    assert_eq!(rt.handle_blocking(&map, &fixed_wait(5), 0), Ok(()));
    assert!(rt.running_vehicles.is_empty());
    let ids: Vec<i32> = rt.blocked_vehicles.iter().map(|c| c.get_id()).collect();
    assert_eq!(ids, vec![4, 5]);
}

#[test]
fn running_pass_spends_the_budget_left() {
    let map = line_map();
    let mut rt = RoadTraffic::new(1);
    let mut car = EndToEndCar::new(1, 10, goto(1, 0, vec![], 3));
    car.new_tick(10);
    car.go_distance(90);
    rt.running_vehicles.push(car);
    assert!(rt.handle_running(&map, &fixed_wait(0), 0, 10).is_ok());
    match rt.running_vehicles[0].intention() {
        Intention::Goto(g) => assert_eq!(g.from.offset, 10),
        _ => panic!("expected the vehicle to be under way"),
    }
}

#[test]
fn misplaced_vehicle_fails_the_tick_and_changes_nothing() {
    let mut sim = Simulator::new(line_map(), fixed_wait(0), 10);
    assert_eq!(sim.add_vehicle(EndToEndCar::new(1, 5, goto(1, 0, vec![], 3))), Ok(()));
    sim.traffic[1].running_vehicles.push(EndToEndCar::new(2, 5, goto(3, 0, vec![], 3)));
    assert_eq!(sim.tick(), Err(SimError::GraphInconsistency));
    assert_eq!(sim.cur_tso, 0);
    assert_eq!(sim.traffic[0].pending_vehicles.len(), 1);
    assert_eq!(sim.traffic[1].running_vehicles.len(), 1);
}

#[test]
fn budget_accounting_is_exact() {
    let mut car = EndToEndCar::new(3, 4, goto(1, 0, vec![], 1));
    car.new_tick(25);
    assert_eq!(car.get_left_equivalent_distance(), 100);
    car.go_distance(30);
    assert_eq!(car.get_left_equivalent_distance(), 70);
    assert_eq!(car.get_running_distance(), 30);
    assert!(car.blocked_by(20));
    assert_eq!(car.get_left_equivalent_distance(), 50);
    assert_eq!(car.get_blocked_distance(), 20);
    assert!(!car.blocked_by(80));
    assert_eq!(car.get_left_equivalent_distance(), 0);
    assert_eq!(car.get_blocked_distance(), 100);
    assert_eq!(car.consumed, 100);
}

#[test]
fn route_follows_first_hops_to_destination() {
    let map = line_map();
    let g = plan_route(&map, Location { road: 1, offset: 10 }, Location { road: 3, offset: 5 }).unwrap();
    assert_eq!(g.via, vec![2]);
    assert_eq!(g.from, Location { road: 1, offset: 10 });
    assert_eq!(g.to, Location { road: 3, offset: 5 });
    let g = plan_route(&map, Location { road: 3, offset: 0 }, Location { road: 2, offset: 0 }).unwrap();
    assert!(g.via.is_empty());
}

#[test]
fn route_within_one_road_takes_no_other() {
    let map = line_map();
    let g = plan_route(&map, Location { road: 2, offset: 0 }, Location { road: 2, offset: 50 }).unwrap();
    assert!(g.via.is_empty());
}

#[test]
fn route_to_disconnected_road_is_unreachable() {
    let mut m = PlainRoadMap::new();
    m.roads.push(((0, 0), (0, 1)));
    m.weights.push(5);
    m.roads.push(((7, 7), (8, 8)));
    m.weights.push(5);
    let map = regularize_bidirectional(&m);
    let r = plan_route(&map, Location { road: 1, offset: 0 }, Location { road: 4, offset: 0 });
    assert!(matches!(r, Err(SimError::UnreachableDestination)));
    let r = plan_route(&map, Location { road: 1, offset: 0 }, Location { road: 5, offset: 0 });
    assert!(matches!(r, Err(SimError::GraphInconsistency)));
}

#[test]
fn planned_route_is_driven_to_the_end() {
    let map = transport_simulator::roadmap::regularize_bidirectional(
        &transport_simulator::roadmap::manhattan(3, 3),
    );
    let g = plan_route(&map, Location { road: 1, offset: 0 }, Location { road: 9, offset: 0 }).unwrap();
    assert_eq!(g.via.len(), 3);
    let mut sim = Simulator::new(map, RoundRobinTrafficLight { interval: 4 }, 10);
    assert_eq!(sim.add_vehicle(EndToEndCar::new(1, 12, g)), Ok(()));
    let mut ticks = 0;
    while sim.tombstone_vehicles.is_empty() && ticks < 20 {
        assert_eq!(sim.tick(), Ok(()));
        ticks += 1;
    }
    assert_eq!(sim.tombstone_vehicles.len(), 1);
    assert_eq!(sim.tombstone_vehicles[0].get_running_distance(), 500);
}

#[test]
fn runner_keeps_pending_vehicles_apart() {
    let mut runner = Runner {
        regulated_roadmap: line_map(),
        vehicles: Vec::new(),
        pending_vehicles: Vec::new(),
        traffic_light: fixed_wait(150),
        tso_per_tick: 10,
        cur_tso: 0,
    };
    let mut car = EndToEndCar::new(5, 50, goto(1, 0, vec![], 2));
    car.new_tick(10);
    assert_eq!(runner.handle_vehicle(car), Ok(()));
    assert!(runner.vehicles.is_empty());
    assert_eq!(runner.pending_vehicles.len(), 1);
    assert_eq!(runner.tick(), Ok(()));
    assert_eq!(runner.cur_tso, 10);
    let all: Vec<i32> = runner
        .vehicles
        .iter()
        .chain(runner.pending_vehicles.iter())
        .map(|c| c.get_id())
        .collect();
    assert_eq!(all, vec![5]);
    assert_eq!(runner.vehicles.len(), 1);
    assert!(matches!(runner.vehicles[0].intention(), Intention::Die));
}

fn spend_through_trait<V: Vehicle>(v: &mut V) -> (i64, bool) {
    v.new_tick(4);
    v.go_distance(15);
    let admitted = v.blocked_by(7);
    (v.get_left_equivalent_distance(), admitted)
}

#[test]
fn vehicle_trait_spends_the_budget() {
    let mut car = EndToEndCar::new(2, 10, goto(1, 0, vec![], 1));
    assert_eq!(spend_through_trait(&mut car), (18, true));
    assert_eq!(Vehicle::get_id(&car), 2);
    assert!(matches!(Vehicle::intention(&car), Intention::Goto(_)));
    assert_eq!(car.consumed, 22);
}

#[test]
fn planned_route_takes_the_shorter_branch() {
    let mut m = PlainRoadMap::new();
    for (a, b, w) in [((0, 0), (0, 1), 10), ((0, 1), (0, 2), 5), ((0, 0), (5, 5), 10), ((5, 5), (6, 6), 40), ((6, 6), (0, 2), 40)] {
        m.roads.push((a, b));
        m.weights.push(w);
    }
    let map = regularize_bidirectional(&m);
    let to = map.lookup_road((0, 2)).unwrap();
    let g = plan_route(&map, Location { road: 1, offset: 0 }, Location { road: to, offset: 0 }).unwrap();
    assert_eq!(g.via, vec![map.lookup_road((0, 1)).unwrap()]);
}

#[test]
fn fixed_delay_light_asks_its_delay() {
    let map = line_map();
    assert_eq!(fixed_wait(7).wait_time(&map.roads[0], &map.roads[1], 3), 7);
    assert_eq!(fixed_wait(-4).wait_time(&map.roads[0], &map.roads[1], 3), 0);
    assert_eq!(RoundRobinTrafficLight { interval: 3 }.wait_time(&map.roads[0], &map.roads[1], 9), 0);
}

#[test]
fn hand_offs_join_in_ascending_source_road_order() {
    let mut sim = Simulator::new(line_map(), fixed_wait(0), 10);
    assert_eq!(sim.add_vehicle(EndToEndCar::new(8, 12, goto(3, 0, vec![], 2))), Ok(()));
    assert_eq!(sim.add_vehicle(EndToEndCar::new(7, 12, goto(1, 0, vec![], 2))), Ok(()));
    assert_eq!(sim.tick(), Ok(()));
    let ids: Vec<i32> = sim.traffic[1].pending_vehicles.iter().map(|c| c.get_id()).collect();
    assert_eq!(ids, vec![7, 8]);
    for c in sim.traffic[1].pending_vehicles.iter() {
        match c.intention() {
            Intention::Goto(g) => assert_eq!((g.from.road, g.from.offset), (2, 20)),
            _ => panic!("expected the vehicle to be under way on road 2"),
        }
    }
}

#[test]
fn failed_drive_keeps_the_vehicle_in_the_runner() {
    let mut runner = Runner {
        regulated_roadmap: line_map(),
        vehicles: Vec::new(),
        pending_vehicles: Vec::new(),
        traffic_light: fixed_wait(0),
        tso_per_tick: 10,
        cur_tso: 0,
    };
    let car = EndToEndCar::new(3, 5, goto(1, 0, vec![42], 3));
    assert_eq!(runner.handle_vehicle(car), Err(SimError::GraphInconsistency));
    assert_eq!(runner.vehicles.len(), 1);
    assert_eq!(runner.vehicles[0].get_id(), 3);
}
