use transport_simulator::roadmap::{
    manhattan, regularize_bidirectional, relax, PlainRoadMap, RegulatedRoadMap, ShortestPath,
};

fn entry(map: &RegulatedRoadMap, from: i32, to: i32) -> Option<&ShortestPath> {
    map.shortest_path[(from - 1) as usize][(to - 1) as usize].as_ref()
}

fn sorted(v: &[i32]) -> Vec<i32> {
    let mut r = v.to_vec();
    r.sort();
    r
}

#[test]
fn new_plain_road_map_is_empty() {
    let m = PlainRoadMap::new();
    assert!(m.roads.is_empty());
    assert!(m.weights.is_empty());
}

#[test]
fn manhattan_lists_every_neighbour() {
    let m = manhattan(3, 3);
    assert_eq!(m.roads.len(), 18);
    assert_eq!(m.weights.len(), 18);
    assert!(m.weights.iter().all(|w| *w == 100));
    assert_eq!(m.roads[0], ((0, 0), (0, 1)));
    assert_eq!(m.roads[1], ((0, 0), (1, 0)));
    assert_eq!(m.roads[2], ((0, 1), (0, 2)));
    assert_eq!(m.roads[4], ((0, 2), (0, 1)));
    assert!(m.roads.contains(&((2, 2), (1, 2))));
    assert!(!m.roads.contains(&((1, 1), (1, 0))));
}

#[test]
fn manhattan_of_empty_grid_has_no_edges() {
    assert!(manhattan(0, 5).roads.is_empty());
    assert!(manhattan(1, 1).roads.is_empty());
    assert!(manhattan(-2, 3).roads.is_empty());
}

#[test]
fn grid_regularizes_to_nine_roads() {
    let reg = regularize_bidirectional(&manhattan(3, 3));
    assert_eq!(reg.roads.len(), 9);
    let lookup = reg.lookup.as_ref().unwrap();
    assert_eq!(lookup.len(), 9);
    assert_eq!(lookup[0], (0, 0));
    assert_eq!(lookup[1], (0, 1));
    assert_eq!(lookup[2], (1, 0));
    for (k, r) in reg.roads.iter().enumerate() {
        assert_eq!(r.id, k as i32 + 1);
        assert_eq!(r.weight, 100);
    }
    // the centre has four neighbours, a corner two
    let centre = lookup.iter().position(|c| *c == (1, 1)).unwrap();
    assert_eq!(reg.roads[centre].outbounds.len(), 4);
    assert_eq!(reg.roads[0].outbounds.len(), 2);
}

#[test]
fn grid_corner_to_corner_is_four_roads_long() {
    let reg = regularize_bidirectional(&manhattan(3, 3));
    let lookup = reg.lookup.as_ref().unwrap();
    let id = |c: (i32, i32)| lookup.iter().position(|x| *x == c).unwrap() as i32 + 1;
    let p = entry(&reg, id((0, 0)), id((2, 2))).unwrap();
    assert_eq!(p.dist, 400);
    assert_eq!(sorted(&p.next), sorted(&[id((0, 1)), id((1, 0))]));
    let q = entry(&reg, id((0, 0)), id((0, 2))).unwrap();
    assert_eq!(q.dist, 200);
    assert_eq!(q.next, vec![id((0, 1))]);
}

#[test]
fn regularized_graph_is_symmetric() {
    let reg = regularize_bidirectional(&manhattan(3, 4));
    for r in reg.roads.iter() {
        for q in r.outbounds.iter() {
            let other = &reg.roads[(*q - 1) as usize];
            assert!(other.inbounds.contains(&r.id));
            assert!(other.outbounds.contains(&r.id));
            assert!(r.inbounds.contains(q));
        }
    }
}

#[test]
fn shortest_paths_satisfy_the_triangle_inequality() {
    let reg = regularize_bidirectional(&manhattan(3, 3));
    let n = reg.roads.len() as i32;
    for i in 1..=n {
        for j in 1..=n {
            let mut attained = false;
            for k in 1..=n {
                if let (Some(a), Some(b)) = (entry(&reg, i, k), entry(&reg, k, j)) {
                    let d = entry(&reg, i, j).expect("a route through k gives an entry");
                    assert!(d.dist <= a.dist + b.dist);
                    attained |= d.dist == a.dist + b.dist;
                }
            }
            if let Some(d) = entry(&reg, i, j) {
                let direct = reg.roads[(i - 1) as usize].outbounds.contains(&j)
                    && d.dist == reg.roads[(i - 1) as usize].weight;
                assert!(attained || direct);
            }
        }
    }
}

#[test]
fn self_distance_is_a_round_trip() {
    let reg = regularize_bidirectional(&manhattan(2, 1));
    assert_eq!(reg.roads.len(), 2);
    assert_eq!(entry(&reg, 1, 2).unwrap().dist, 100);
    assert_eq!(entry(&reg, 1, 1).unwrap().dist, 200);
    assert_eq!(entry(&reg, 1, 1).unwrap().next, vec![2]);
}

#[test]
fn road_weight_comes_from_first_edge() {
    let mut m = PlainRoadMap::new();
    m.roads.push(((0, 0), (5, 5)));
    m.weights.push(7);
    m.roads.push(((5, 5), (9, 9)));
    m.weights.push(3);
    let reg = regularize_bidirectional(&m);
    assert_eq!(reg.roads.len(), 3);
    assert_eq!(reg.roads[0].weight, 7);
    assert_eq!(reg.roads[1].weight, 7);
    assert_eq!(reg.roads[2].weight, 3);
    assert_eq!(entry(&reg, 1, 3).unwrap().dist, 14);
    assert_eq!(entry(&reg, 3, 1).unwrap().dist, 10);
    assert!(entry(&reg, 1, 2).is_some());
}

#[test]
fn disconnected_roads_have_no_entry() {
    let mut m = PlainRoadMap::new();
    m.roads.push(((0, 0), (0, 1)));
    m.weights.push(5);
    m.roads.push(((7, 7), (8, 8)));
    m.weights.push(5);
    let reg = regularize_bidirectional(&m);
    assert_eq!(reg.roads.len(), 4);
    assert!(entry(&reg, 1, 3).is_none());
    assert!(entry(&reg, 4, 2).is_none());
    assert!(entry(&reg, 3, 4).is_some());
}

#[test]
fn tie_keeps_both_first_hops() {
    let cur = Some(ShortestPath { next: vec![2], dist: 10 });
    let first = ShortestPath { next: vec![3, 2], dist: 4 };
    let r = relax(cur, &first, 6).unwrap();
    assert_eq!(r.dist, 10);
    assert_eq!(r.next, vec![2, 3]);
}

#[test]
fn shorter_route_replaces_entry() {
    let cur = Some(ShortestPath { next: vec![2], dist: 10 });
    let first = ShortestPath { next: vec![3], dist: 4 };
    let r = relax(cur, &first, 5).unwrap();
    assert_eq!(r.dist, 9);
    assert_eq!(r.next, vec![3]);
}

#[test]
fn longer_route_keeps_entry() {
    let cur = Some(ShortestPath { next: vec![2], dist: 10 });
    let first = ShortestPath { next: vec![3], dist: 4 };
    let r = relax(cur, &first, 7).unwrap();
    assert_eq!(r.dist, 10);
    assert_eq!(r.next, vec![2]);
}

#[test]
fn first_route_creates_entry() {
    let first = ShortestPath { next: vec![4], dist: 4 };
    let r = relax(None, &first, 7).unwrap();
    assert_eq!(r.dist, 11);
    assert_eq!(r.next, vec![4]);
}

#[test]
fn overflowing_route_is_ignored() {
    let first = ShortestPath { next: vec![4], dist: i64::MAX - 1 };
    assert!(relax(None, &first, 7).is_none());
}

#[test]
fn coordinates_map_to_their_roads() {
    let reg = regularize_bidirectional(&manhattan(3, 3));
    assert_eq!(reg.lookup_road((0, 0)), Some(1));
    assert_eq!(reg.lookup_road((0, 1)), Some(2));
    assert_eq!(reg.lookup_road((2, 2)), Some(9));
    assert_eq!(reg.lookup_road((3, 3)), None);
}

#[test]
fn diamond_keeps_both_tied_first_hops() {
    let mut m = PlainRoadMap::new();
    for (a, b) in [((0, 0), (0, 1)), ((0, 0), (1, 0)), ((0, 1), (1, 1)), ((1, 0), (1, 1)), ((1, 1), (2, 2))] {
        m.roads.push((a, b));
        m.weights.push(10);
    }
    let reg = regularize_bidirectional(&m);
    assert_eq!(reg.roads.len(), 5);
    let p = entry(&reg, 1, 5).unwrap();
    assert_eq!(p.dist, 30);
    assert_eq!(sorted(&p.next), vec![2, 3]);
    let q = entry(&reg, 1, 2).unwrap();
    assert_eq!(q.dist, 10);
    assert_eq!(q.next, vec![2]);
}

#[test]
fn longer_route_leaves_no_first_hop() {
    let mut m = PlainRoadMap::new();
    for (a, b, w) in [((0, 0), (0, 1), 10), ((0, 0), (1, 0), 10), ((0, 1), (1, 1), 5), ((1, 0), (1, 1), 10)] {
        m.roads.push((a, b));
        m.weights.push(w);
    }
    let reg = regularize_bidirectional(&m);
    // road 1 weighs 10, road 2 (0,1) 10, road 3 (1,0) 10, road 4 (1,1) 5
    let p = entry(&reg, 1, 4).unwrap();
    assert_eq!(p.dist, 20);
    assert_eq!(sorted(&p.next), vec![2, 3]);
    let q = entry(&reg, 4, 1).unwrap();
    assert_eq!(q.dist, 15);
    assert_eq!(sorted(&q.next), vec![2, 3]);
}
