//! Road graph: the raw edge list, its regularisation into numbered roads,
//! and the all-pairs shortest-path table.

use vstd::prelude::*;

verus! {

/// Length of a road, and the distance-equivalent unit of the budgets.
pub type Distance = i64;

/// A grid coordinate naming a road before regularisation.
pub type Coord = (i32, i32);

/// Weight given to every edge of a generated grid.
pub const GRID_WEIGHT: Distance = 100;

/// A raw list of directed edges between coordinates, each with a weight.
pub struct PlainRoadMap {
    pub roads: Vec<(Coord, Coord)>,
    pub weights: Vec<Distance>,
}

impl PlainRoadMap {
    /// Both lists have one entry per edge.
    pub open spec fn wf(&self) -> bool {
        self.roads@.len() == self.weights@.len()
    }

    pub fn new() -> (r: PlainRoadMap)
        ensures
            r.roads@ == Seq::<(Coord, Coord)>::empty(),
            r.weights@ == Seq::<Distance>::empty(),
    {
        PlainRoadMap { roads: Vec::new(), weights: Vec::new() }
    }
}

/// The edges that leave cell `(i, j)` of an `m` by `n` grid, in the order
/// left, right, up, down. Edges toward higher indices go to every
/// neighbour in the grid; edges toward lower indices leave only from
/// column (row) 2 on. Regularisation adds the reverse of every edge, so the
/// grid it yields links every pair of neighbours both ways all the same.
pub open spec fn cell_edges(m: int, n: int, i: int, j: int) -> Seq<(Coord, Coord)> {
    let c = (i as i32, j as i32);
    (if j - 1 > 0 { seq![(c, (i as i32, (j - 1) as i32))] } else { Seq::empty() })
        + (if j + 1 < n { seq![(c, (i as i32, (j + 1) as i32))] } else { Seq::empty() })
        + (if i - 1 > 0 { seq![(c, ((i - 1) as i32, j as i32))] } else { Seq::empty() })
        + (if i + 1 < m { seq![(c, ((i + 1) as i32, j as i32))] } else { Seq::empty() })
}

/// The edges of the cells `(i, 0)` up to `(i, j - 1)`.
pub open spec fn row_edges(m: int, n: int, i: int, j: int) -> Seq<(Coord, Coord)>
    decreases j,
{
    if j <= 0 {
        Seq::empty()
    } else {
        row_edges(m, n, i, j - 1) + cell_edges(m, n, i, j - 1)
    }
}

/// The edges of the rows `0` up to `i - 1`.
pub open spec fn grid_edges(m: int, n: int, i: int) -> Seq<(Coord, Coord)>
    decreases i,
{
    if i <= 0 {
        Seq::empty()
    } else {
        grid_edges(m, n, i - 1) + row_edges(m, n, i - 1, n)
    }
}

/// The edges of an `m` by `n` grid (see `cell_edges`), every one of weight
/// `GRID_WEIGHT`, listed cell by cell, row by row.
pub fn manhattan(m: i32, n: i32) -> (res: PlainRoadMap)
    ensures
        res.wf(),
        res.roads@ == grid_edges(m as int, n as int, m as int),
        forall|k: int| 0 <= k < res.weights@.len() ==> res.weights@[k] == GRID_WEIGHT,
{
    let mut res = PlainRoadMap::new();
    let mut i: i32 = 0;
    while i < m
        invariant
            0 <= i,
            m < 0 ==> i == 0,
            0 <= m ==> i <= m,
            res.wf(),
            res.roads@ == grid_edges(m as int, n as int, i as int),
            forall|k: int| 0 <= k < res.weights@.len() ==> res.weights@[k] == GRID_WEIGHT,
        decreases m - i,
    {
        let mut j: i32 = 0;
        while j < n
            invariant
                0 <= i < m,
                0 <= j,
                n < 0 ==> j == 0,
                0 <= n ==> j <= n,
                res.wf(),
                res.roads@ == grid_edges(m as int, n as int, i as int) + row_edges(
                    m as int,
                    n as int,
                    i as int,
                    j as int,
                ),
                forall|k: int| 0 <= k < res.weights@.len() ==> res.weights@[k] == GRID_WEIGHT,
            decreases n - j,
        {
            let ghost before = res.roads@;
            let c = (i, j);
            if j - 1 > 0 {
                res.roads.push((c, (i, j - 1)));
                res.weights.push(GRID_WEIGHT);
            }
            if j + 1 < n {
                res.roads.push((c, (i, j + 1)));
                res.weights.push(GRID_WEIGHT);
            }
            if i - 1 > 0 {
                res.roads.push((c, (i - 1, j)));
                res.weights.push(GRID_WEIGHT);
            }
            if i + 1 < m {
                res.roads.push((c, (i + 1, j)));
                res.weights.push(GRID_WEIGHT);
            }
            assert(res.roads@ == before + cell_edges(m as int, n as int, i as int, j as int));
            assert(row_edges(m as int, n as int, i as int, j + 1) == row_edges(
                m as int,
                n as int,
                i as int,
                j as int,
            ) + cell_edges(m as int, n as int, i as int, j as int));
            j = j + 1;
        }
        proof {
            if n < 0 {
                assert(row_edges(m as int, n as int, i as int, n as int) =~= Seq::empty());
            }
        }
        assert(grid_edges(m as int, n as int, i + 1) == grid_edges(m as int, n as int, i as int)
            + row_edges(m as int, n as int, i as int, n as int));
        i = i + 1;
    }
    res
}


/// A road after regularisation: road `id` continues onto each road of
/// `outbounds`, and each road of `inbounds` continues onto it.
pub struct RegulatedRoad {
    pub id: i32,
    pub weight: Distance,
    pub outbounds: Vec<i32>,
    pub inbounds: Vec<i32>,
}

/// The best known way from one road to another: its total length, and the
/// roads that begin a route of that length.
pub struct ShortestPath {
    pub next: Vec<i32>,
    pub dist: Distance,
}

/// The regularised graph. Road `k + 1` is stored at `roads[k]`; `lookup`,
/// when present, holds at position `k` the coordinate that road `k + 1` was
/// made from; `shortest_path[a][b]` is the entry for the pair of roads
/// `(a + 1, b + 1)`.
pub struct RegulatedRoadMap {
    pub roads: Vec<RegulatedRoad>,
    pub lookup: Option<Vec<Coord>>,
    pub shortest_path: Vec<Vec<Option<ShortestPath>>>,
}

/// Largest number of roads a map may hold, so that every id is an `i32`.
pub const MAX_ROADS: usize = 2147483647;

/// A sequence of road ids without repeats, each in `1..=n`.
pub open spec fn ids_in(s: Seq<i32>, n: int) -> bool {
    &&& forall|x: int| 0 <= x < s.len() ==> 1 <= #[trigger] s[x] <= n
    &&& forall|x: int, y: int| 0 <= x < y < s.len() ==> s[x] != s[y]
}

/// The road table is numbered `1..=n` in order, with positive weights and
/// adjacency lists over existing roads.
pub open spec fn roads_wf(roads: Seq<RegulatedRoad>) -> bool {
    &&& roads.len() <= MAX_ROADS
    &&& forall|a: int|
        0 <= a < roads.len() ==> {
            &&& (#[trigger] roads[a]).id == a + 1
            &&& roads[a].weight >= 1
            &&& ids_in(roads[a].outbounds@, roads.len() as int)
            &&& ids_in(roads[a].inbounds@, roads.len() as int)
        }
}

/// Road `a + 1` continues onto road `b + 1`.
pub open spec fn arc(roads: Seq<RegulatedRoad>, a: int, b: int) -> bool {
    roads[a].outbounds@.contains((b + 1) as i32)
}

/// Every arc has its reverse, and the inbound list of a road names exactly
/// the roads that continue onto it.
pub open spec fn symmetric(roads: Seq<RegulatedRoad>) -> bool {
    &&& forall|a: int, b: int|
        0 <= a < roads.len() && 0 <= b < roads.len() && #[trigger] arc(roads, a, b) ==> arc(
            roads,
            b,
            a,
        )
    &&& forall|a: int, b: int|
        0 <= a < roads.len() && 0 <= b < roads.len() ==> (arc(roads, a, b)
            <==> #[trigger] roads[b].inbounds@.contains((a + 1) as i32))
}

/// The shortest-path table as a grid of entries.
pub type Table = Seq<Seq<Option<ShortestPath>>>;

/// The grid of entries that a table holds.
pub open spec fn table_view(t: Vec<Vec<Option<ShortestPath>>>) -> Table {
    t@.map_values(|r: Vec<Option<ShortestPath>>| r@)
}

/// There is an entry for roads `(a + 1, b + 1)`.
pub open spec fn has_entry(t: Table, a: int, b: int) -> bool {
    t[a][b] is Some
}

/// The length of the entry for roads `(a + 1, b + 1)`.
pub open spec fn dist(t: Table, a: int, b: int) -> int {
    match t[a][b] {
        Some(p) => p.dist as int,
        None => 0,
    }
}

/// The first hops of the entry for roads `(a + 1, b + 1)`.
pub open spec fn hops(t: Table, a: int, b: int) -> Seq<i32> {
    match t[a][b] {
        Some(p) => p.next@,
        None => Seq::empty(),
    }
}

/// An entry for a pair leaving road `a + 1` has a positive length and a
/// non-empty list of distinct first hops, each an outbound road of `a + 1`.
pub open spec fn entry_wf(roads: Seq<RegulatedRoad>, e: Option<ShortestPath>, a: int) -> bool {
    e matches Some(p) ==> {
        &&& p.dist >= 1
        &&& p.next@.len() > 0
        &&& ids_in(p.next@, roads.len() as int)
        &&& forall|x: int|
            0 <= x < p.next@.len() ==> roads[a].outbounds@.contains(#[trigger] p.next@[x])
    }
}

/// The table is `n` by `n` and each of its entries is well formed.
pub open spec fn table_wf(roads: Seq<RegulatedRoad>, t: Table) -> bool {
    &&& t.len() == roads.len()
    &&& forall|a: int| 0 <= a < t.len() ==> (#[trigger] t[a]).len() == roads.len()
    &&& forall|a: int, b: int|
        0 <= a < t.len() && 0 <= b < t.len() ==> entry_wf(roads, #[trigger] t[a][b], a)
}

/// Every arc has an entry no longer than the weight of its origin.
pub open spec fn seeded(roads: Seq<RegulatedRoad>, t: Table) -> bool {
    forall|a: int, b: int|
        0 <= a < t.len() && 0 <= b < t.len() && #[trigger] arc(roads, a, b) ==> has_entry(t, a, b) && dist(
            t,
            a,
            b,
        ) <= roads[a].weight
}

/// Going through road `c + 1` is never shorter than the entry for
/// `(a + 1, b + 1)`, for every `c < k` (a route whose length overflows a
/// `Distance` is not considered).
pub open spec fn closed_below(t: Table, k: int) -> bool {
    forall|a: int, b: int, c: int|
        0 <= a < t.len() && 0 <= b < t.len() && 0 <= c < k && #[trigger] has_entry(t, a, c) && #[trigger] has_entry(
            t,
            c,
            b,
        ) && dist(t, a, c) + dist(t, c, b) <= i64::MAX ==> has_entry(t, a, b) && dist(t, a, b) <= dist(
            t,
            a,
            c,
        ) + dist(t, c, b)
}

/// The entry for `(a + 1, b + 1)` is no shorter than a direct arc or than a
/// route through some road.
pub open spec fn witnessed(roads: Seq<RegulatedRoad>, t: Table, a: int, b: int) -> bool {
    ||| (arc(roads, a, b) && roads[a].weight <= dist(t, a, b))
    ||| exists|c: int|
        0 <= c < t.len() && #[trigger] has_entry(t, a, c) && has_entry(t, c, b) && dist(t, a, c) + dist(t, c, b)
            <= dist(t, a, b)
}

/// Every entry has a witness.
pub open spec fn all_witnessed(roads: Seq<RegulatedRoad>, t: Table) -> bool {
    forall|a: int, b: int|
        0 <= a < t.len() && 0 <= b < t.len() && #[trigger] has_entry(t, a, b) ==> witnessed(roads, t, a, b)
}

/// The entry for `(a + 1, b + 1)` equals a direct arc or a route through some road.
pub open spec fn attained(roads: Seq<RegulatedRoad>, t: Table, a: int, b: int) -> bool {
    ||| (arc(roads, a, b) && roads[a].weight == dist(t, a, b))
    ||| exists|c: int|
        0 <= c < t.len() && #[trigger] has_entry(t, a, c) && has_entry(t, c, b) && dist(t, a, c) + dist(t, c, b)
            == dist(t, a, b)
}

/// The lengths of the shortest-path table are complete and optimal: every
/// arc has an entry no longer than it; no route through any road is shorter
/// than an entry, and one through a road whose entries exist gives an entry;
/// and every entry is attained by an arc or by a route through some road.
/// The first hops are not spoken of here: `fold_history` fixes them.
pub open spec fn optimal(roads: Seq<RegulatedRoad>, t: Table) -> bool {
    &&& table_wf(roads, t)
    &&& seeded(roads, t)
    &&& closed_below(t, t.len() as int)
    &&& forall|a: int, b: int|
        0 <= a < t.len() && 0 <= b < t.len() && #[trigger] has_entry(t, a, b) ==> attained(roads, t, a, b)
}

/// A copy of a list of road ids.
fn copy_ids(v: &Vec<i32>) -> (r: Vec<i32>)
    ensures
        r@ == v@,
{
    let mut r: Vec<i32> = Vec::new();
    let mut x: usize = 0;
    while x < v.len()
        invariant
            x <= v@.len(),
            r@ == v@.subrange(0, x as int),
        decreases v@.len() - x,
    {
        r.push(v[x]);
        x = x + 1;
        assert(r@ == v@.subrange(0, x as int));
    }
    assert(v@.subrange(0, v@.len() as int) == v@);
    r
}

/// Whether a list of road ids holds `id`.
fn contains_id(v: &Vec<i32>, id: i32) -> (r: bool)
    ensures
        r == v@.contains(id),
{
    let mut x: usize = 0;
    while x < v.len()
        invariant
            x <= v@.len(),
            forall|y: int| 0 <= y < x ==> v@[y] != id,
        decreases v@.len() - x,
    {
        if v[x] == id {
            return true;
        }
        x = x + 1;
    }
    false
}

/// Adds to `v`, in order, each id of `w` that it does not hold yet.
fn union_ids(v: &mut Vec<i32>, w: &Vec<i32>)
    requires
        forall|x: int, y: int| 0 <= x < y < old(v)@.len() ==> old(v)@[x] != old(v)@[y],
    ensures
        forall|id: i32| final(v)@.contains(id) <==> (old(v)@.contains(id) || w@.contains(id)),
        forall|x: int, y: int| 0 <= x < y < final(v)@.len() ==> final(v)@[x] != final(v)@[y],
        final(v)@.len() >= old(v)@.len(),
        final(v)@.subrange(0, old(v)@.len() as int) == old(v)@,
{
    let mut x: usize = 0;
    let ghost v0 = v@;
    while x < w.len()
        invariant
            x <= w@.len(),
            v0.len() <= v@.len(),
            v@.subrange(0, v0.len() as int) == v0,
            forall|p: int| 0 <= p < x ==> v@.contains(#[trigger] w@[p]),
            forall|id: i32| v@.contains(id) ==> (v0.contains(id) || w@.contains(id)),
            forall|a: int, b: int| 0 <= a < b < v@.len() ==> v@[a] != v@[b],
        decreases w@.len() - x,
    {
        let id = w[x];
        let ghost before = v@;
        if !contains_id(v, id) {
            v.push(id);
            assert(v@[before.len() as int] == id);
            assert(v@.subrange(0, v0.len() as int) == before.subrange(0, v0.len() as int));
            assert forall|p: int| 0 <= p < x implies v@.contains(#[trigger] w@[p]) by {
                {
                    let q = choose|q: int| 0 <= q < before.len() && before[q] == w@[p];
                    assert(v@[q] == w@[p]);
                }
            }
            assert forall|i: i32| v@.contains(i) implies (v0.contains(i) || w@.contains(i)) by {
                let q = choose|q: int| 0 <= q < v@.len() && v@[q] == i;
                if q < before.len() {
                    assert(before[q] == i);
                } else {
                    assert(w@[x as int] == i);
                }
            }
        }
        assert(v@.contains(w@[x as int]));
        x = x + 1;
    }
    assert forall|id: i32| (v0.contains(id) || w@.contains(id)) implies v@.contains(id) by {
        if v0.contains(id) {
            let q = choose|q: int| 0 <= q < v0.len() && v0[q] == id;
            assert(v@.subrange(0, v0.len() as int)[q] == id);
            assert(v@[q] == id);
        } else {
            let q = choose|q: int| 0 <= q < w@.len() && w@[q] == id;
            assert(v@.contains(w@[q]));
        }
    }
}

/// No id repeats in the list.
pub open spec fn distinct(s: Seq<i32>) -> bool {
    forall|x: int, y: int| 0 <= x < y < s.len() ==> s[x] != s[y]
}

/// Folds the route through an intermediate road into the entry for a pair:
/// `first` is the entry from the origin to the intermediate road and
/// `second` the length from there to the destination. A shorter route
/// replaces the entry, taking the first hops of `first`; a route of equal
/// length adds those first hops to the entry's own; a longer one, or one
/// whose length overflows, leaves the entry as it was.
pub fn relax(cur: Option<ShortestPath>, first: &ShortestPath, second: Distance) -> (r: Option<
    ShortestPath,
>)
    requires
        first.dist >= 0,
        second >= 0,
        distinct(first.next@),
        cur matches Some(p) ==> distinct(p.next@),
    ensures
        first.dist + second > i64::MAX ==> r == cur,
        first.dist + second <= i64::MAX ==> match cur {
            None => r matches Some(q) && q.dist == first.dist + second && q.next@ == first.next@,
            Some(p) => {
                &&& p.dist > first.dist + second ==> (r matches Some(q) && q.dist == first.dist
                    + second && q.next@ == first.next@)
                &&& p.dist < first.dist + second ==> r == cur
                &&& p.dist == first.dist + second ==> (r matches Some(q) && q.dist == p.dist
                    && q.next@.len() >= p.next@.len()
                    && q.next@.subrange(0, p.next@.len() as int) == p.next@
                    && forall|id: i32|
                    q.next@.contains(id) <==> (p.next@.contains(id) || first.next@.contains(id)))
            },
        },
        r matches Some(q) ==> distinct(q.next@),
{
    if first.dist > i64::MAX - second {
        return cur;
    }
    let candidate = first.dist + second;
    match cur {
        None => Some(ShortestPath { next: copy_ids(&first.next), dist: candidate }),
        Some(p) => {
            if candidate < p.dist {
                Some(ShortestPath { next: copy_ids(&first.next), dist: candidate })
            } else if candidate == p.dist {
                let mut next = p.next;
                union_ids(&mut next, &first.next);
                Some(ShortestPath { next, dist: p.dist })
            } else {
                Some(p)
            }
        },
    }
}

/// How the entry for `(a + 1, b + 1)` of `t1` relates to that of `t0` after
/// the routes through road `k + 1` were folded in: a longer route (or one
/// that overflows) leaves the entry as it was; a shorter one, or the first
/// one, gives the entry its length and the first hops of `(a + 1, k + 1)`;
/// one of equal length adds those first hops to the entry's own.
pub open spec fn relaxed_entry(
    t0: Table,
    t1: Table,
    k: int,
    a: int,
    b: int,
) -> bool {
    &&& has_entry(t0, a, b) ==> has_entry(t1, a, b) && dist(t1, a, b) <= dist(t0, a, b)
    &&& has_entry(t1, a, b) ==> (has_entry(t0, a, b) && dist(t1, a, b) == dist(t0, a, b)) || (has_entry(t0, a, k)
        && has_entry(t0, k, b) && dist(t1, a, b) == dist(t0, a, k) + dist(t0, k, b))
    &&& has_entry(t0, a, k) && has_entry(t0, k, b) && dist(t0, a, k) + dist(t0, k, b) <= i64::MAX ==> has_entry(
        t1,
        a,
        b,
    ) && dist(t1, a, b) <= dist(t0, a, k) + dist(t0, k, b)
    &&& forall|x: int|
        0 <= x < hops(t1, a, b).len() ==> hops(t0, a, b).contains(#[trigger] hops(t1, a, b)[x])
            || hops(t0, a, k).contains(hops(t1, a, b)[x])
    &&& has_entry(t0, a, b) && has_entry(t1, a, b) && dist(t1, a, b) == dist(t0, a, b) ==> forall|id: i32|
        #[trigger] hops(t0, a, b).contains(id) ==> hops(t1, a, b).contains(id)
    &&& has_entry(t0, a, b) && has_entry(t0, a, k) && has_entry(t0, k, b) && dist(t0, a, k) + dist(t0, k, b) == dist(
        t0,
        a,
        b,
    ) ==> forall|id: i32|
        #[trigger] hops(t1, a, b).contains(id) <==> (hops(t0, a, b).contains(id) || hops(
            t0,
            a,
            k,
        ).contains(id))

    &&& !(has_entry(t0, a, k) && has_entry(t0, k, b) && dist(t0, a, k) + dist(t0, k, b) <= i64::MAX
        && (!has_entry(t0, a, b) || dist(t0, a, k) + dist(t0, k, b) <= dist(t0, a, b))) ==> t1[a][b]
        == t0[a][b]
    &&& has_entry(t0, a, k) && has_entry(t0, k, b) && dist(t0, a, k) + dist(t0, k, b) <= i64::MAX && (
    !has_entry(t0, a, b) || dist(t0, a, k) + dist(t0, k, b) < dist(t0, a, b)) ==> hops(t1, a, b) == hops(
        t0,
        a,
        k,
    )
}

/// An entry that the routes through road `k + 1` could not improve is
/// related to itself.
proof fn lemma_entry_kept(roads: Seq<RegulatedRoad>, t0: Table, t1: Table, k: int, a: int, b: int)
    requires
        table_wf(roads, t0),
        0 <= a < t0.len(),
        0 <= b < t0.len(),
        0 <= k < t0.len(),
        t1.len() == t0.len(),
        t1[a].len() == t0[a].len(),
        t1[a][b] == t0[a][b],
        !(has_entry(t0, a, k) && has_entry(t0, k, b)) || a == k || b == k,
    ensures
        relaxed_entry(t0, t1, k, a, b),
{
    assert(entry_wf(roads, t0[k][k], k));
    assert(entry_wf(roads, t0[a][k], a));
    assert(entry_wf(roads, t0[k][b], k));
    assert forall|x: int| 0 <= x < hops(t1, a, b).len() implies hops(t0, a, b).contains(
        #[trigger] hops(t1, a, b)[x],
    ) by {
        assert(hops(t0, a, b)[x] == hops(t1, a, b)[x]);
    }
}

/// `relaxed_entry` reads one entry of the new table only.
proof fn lemma_same_entry(t0: Table, t1: Table, t2: Table, k: int, a: int, b: int)
    requires
        relaxed_entry(t0, t1, k, a, b),
        t1[a][b] == t2[a][b],
    ensures
        relaxed_entry(t0, t2, k, a, b),
{
    assert(hops(t1, a, b) == hops(t2, a, b));
}

/// Folds the routes through road `k + 1` into every entry of the table.
fn relax_through(t: &mut Vec<Vec<Option<ShortestPath>>>, Ghost(roads): Ghost<Seq<RegulatedRoad>>, k: usize)
    requires
        table_wf(roads, table_view(*old(t))),
        k < old(t)@.len(),
        forall|a: int| 0 <= a < old(t)@.len() ==> (#[trigger] old(t)@[a])@.len() == old(t)@.len(),
    ensures
        table_wf(roads, table_view(*final(t))),
        forall|a: int, b: int|
            0 <= a < final(t)@.len() && 0 <= b < final(t)@.len() ==> #[trigger] relaxed_entry(
                table_view(*old(t)),
                table_view(*final(t)),
                k as int,
                a,
                b,
            ),
        forall|x: int| 0 <= x < final(t)@.len() ==> #[trigger] table_view(*final(t))[k as int][x] == table_view(*old(t))[k as int][x],
        forall|x: int| 0 <= x < final(t)@.len() ==> #[trigger] table_view(*final(t))[x][k as int] == table_view(*old(t))[x][k as int],
{
    let ghost t0 = table_view(*t);
    let n = t.len();
    let mut i: usize = 0;
    while i < n
        invariant
            n == t@.len(),
            t0.len() == n,
            k < n,
            i <= n,
            table_wf(roads, t0),
            table_wf(roads, table_view(*t)),
            forall|a: int| 0 <= a < n ==> (#[trigger] t@[a])@.len() == n,
            forall|a: int, b: int|
                0 <= a < i && 0 <= b < n ==> #[trigger] relaxed_entry(t0, table_view(*t), k as int, a, b),
            forall|a: int| i <= a < n ==> #[trigger] table_view(*t)[a] == t0[a],
            forall|x: int| 0 <= x < n ==> #[trigger] table_view(*t)[k as int][x] == t0[k as int][x],
            forall|x: int| 0 <= x < n ==> #[trigger] table_view(*t)[x][k as int] == t0[x][k as int],
        decreases n - i,
    {
        let first: Option<ShortestPath> = if i == k {
            None
        } else {
            match &t[i][k] {
                Some(p) => Some(ShortestPath { next: copy_ids(&p.next), dist: p.dist }),
                None => None,
            }
        };
        match first {
            None => {
                assert forall|b: int| 0 <= b < n implies #[trigger] relaxed_entry(t0, table_view(*t), k as int, i as int, b) by {
                    assert(table_view(*t)[i as int] == t0[i as int]);
                    lemma_entry_kept(roads, t0, table_view(*t), k as int, i as int, b);
                }
            },
            Some(first) => {
                assert(table_view(*t)[i as int] == t@[i as int]@);
                assert(has_entry(t0, i as int, k as int));
                let ghost tcur = table_view(*t);
                let ghost tvec = t@;
                assert(tcur[k as int] =~= t0[k as int]);
                let mut row: Vec<Option<ShortestPath>> = Vec::new();
                t.set_and_swap(i, &mut row);
                assert(row@ == t0[i as int]);
                assert(tcur.update(i as int, row@) =~= tcur);
                assert forall|a: int| 0 <= a < n && a != i implies (#[trigger] t@[a])@ == tcur[a] by {
                    assert(t@[a] == tvec[a]);
                }
                let mut j: usize = 0;
                while j < n
                    invariant
                        n == t@.len(),
                        t0.len() == n,
                        k < n,
                        i < n,
                        i != k,
                        j <= n,
                        row@.len() == n,
                        has_entry(t0, i as int, k as int),
                        first.dist == dist(t0, i as int, k as int),
                        first.next@ == hops(t0, i as int, k as int),
                        table_wf(roads, t0),
                        tcur.len() == n,
                        tcur[k as int] == t0[k as int],
                        forall|a: int| 0 <= a < n && a != i ==> (#[trigger] t@[a])@ == tcur[a],
                        forall|b: int| j <= b < n ==> #[trigger] row@[b] == t0[i as int][b],
                        forall|b: int|
                            0 <= b < j ==> #[trigger] relaxed_entry(
                                t0,
                                tcur.update(i as int, row@),
                                k as int,
                                i as int,
                                b,
                            ),
                        table_wf(roads, tcur.update(i as int, row@)),
                        row@[k as int] == t0[i as int][k as int],
                    decreases n - j,
                {
                    let ghost rbefore = row@;
                    let ghost mut folded = false;
                    if j != k {
                        let second: Option<Distance> = match &t[k][j] {
                            Some(p) => Some(p.dist),
                            None => None,
                        };
                        match second {
                            Some(second) => {
                                assert(t@[k as int]@ == t0[k as int]);
                                assert(has_entry(t0, k as int, j as int));
                                let mut cur: Option<ShortestPath> = None;
                                row.set_and_swap(j, &mut cur);
                                proof {
                                    assert(cur == t0[i as int][j as int]);
                                    assert(entry_wf(roads, t0[i as int][j as int], i as int));
                                    assert(entry_wf(roads, t0[i as int][k as int], i as int));
                                    assert(entry_wf(roads, t0[k as int][j as int], k as int));
                                }
                                let mut nv = relax(cur, &first, second);
                                row.set_and_swap(j, &mut nv);
                                proof {
                                    let e = row@[j as int];
                                    if e is Some {
                                        let q = e->Some_0;
                                        assert forall|x: int|
                                            0 <= x < q.next@.len() implies roads[i as int].outbounds@.contains(
                                                #[trigger] q.next@[x],
                                            ) && 1 <= q.next@[x] <= n by {
                                            let h = q.next@[x];
                                            if hops(t0, i as int, j as int).contains(h) {
                                                let y = choose|y: int| 0 <= y < hops(t0, i as int, j as int).len() && hops(t0, i as int, j as int)[y] == h;
                                                assert(roads[i as int].outbounds@.contains(hops(t0, i as int, j as int)[y]));
                                            } else {
                                                assert(q.next@.contains(h));
                                                assert(first.next@.contains(h));
                                                let y = choose|y: int| 0 <= y < first.next@.len() && first.next@[y] == h;
                                                assert(roads[i as int].outbounds@.contains(first.next@[y]));
                                            }
                                        }
                                        assert(q.dist >= 1);
                                        assert(q.next@.len() > 0);
                                        assert(distinct(q.next@));
                                        assert(entry_wf(roads, e, i as int));
                                        assert forall|x: int| 0 <= x < q.next@.len() implies hops(t0, i as int, j as int).contains(
                                            #[trigger] q.next@[x],
                                        ) || hops(t0, i as int, k as int).contains(q.next@[x]) by {
                                            assert(q.next@.contains(q.next@[x]));
                                        }
                                    }
                                    let ghost t1 = tcur.update(i as int, row@);
                                    assert(t1[i as int][j as int] == e);
                                    assert(relaxed_entry(t0, t1, k as int, i as int, j as int));
                                    folded = true;
                                }
                            },
                            None => {
                                assert(t@[k as int]@ == t0[k as int]);
                            },
                        }
                    }
                    let ghost t1 = tcur.update(i as int, row@);
                    let ghost tb = tcur.update(i as int, rbefore);
                    proof {
                        if !folded {
                            lemma_entry_kept(roads, t0, t1, k as int, i as int, j as int);
                        }
                    }
                    assert(relaxed_entry(t0, t1, k as int, i as int, j as int));
                    assert(entry_wf(roads, t1[i as int][j as int], i as int));
                    assert(row@ =~= rbefore.update(j as int, row@[j as int]));
                    assert(t1 =~= tb.update(i as int, tb[i as int].update(j as int, row@[j as int])));
                    assert forall|b: int| 0 <= b < j + 1 implies #[trigger] relaxed_entry(t0, t1, k as int, i as int, b) by {
                        if b < j {
                            assert(relaxed_entry(t0, tb, k as int, i as int, b));
                            assert(t1[i as int][b] == tb[i as int][b]);
                            lemma_same_entry(t0, tb, t1, k as int, i as int, b);
                        }
                    }
                    assert forall|a: int, b: int|
                        0 <= a < n && 0 <= b < n implies entry_wf(roads, #[trigger] t1[a][b], a) by {
                        if a != i || b != j {
                            assert(t1[a][b] == tb[a][b]);
                        }
                    }
                    j = j + 1;
                }
                let ghost tbefore = t@;
                let ghost rowv = row@;
                t.set_and_swap(i, &mut row);
                assert forall|a: int| 0 <= a < n implies #[trigger] table_view(*t)[a] == tcur.update(i as int, rowv)[a] by {
                    assert(table_view(*t)[a] == t@[a]@);
                    if a != i {
                        assert(t@[a] == tbefore[a]);
                    }
                }
                assert(table_view(*t) =~= tcur.update(i as int, rowv));
                assert forall|a: int, b: int|
                    0 <= a < i + 1 && 0 <= b < n implies #[trigger] relaxed_entry(t0, table_view(*t), k as int, a, b) by {
                    if a < i {
                        assert(table_view(*t)[a] == tcur[a]);
                        assert(relaxed_entry(t0, tcur, k as int, a, b));
                        lemma_same_entry(t0, tcur, table_view(*t), k as int, a, b);
                    } else {
                        assert(relaxed_entry(t0, tcur.update(i as int, rowv), k as int, i as int, b));
                        lemma_same_entry(t0, tcur.update(i as int, rowv), table_view(*t), k as int, a, b);
                    }
                }
            },
        }
        i = i + 1;
    }
}

/// Folding in the routes through road `k + 1` extends the closure to the
/// roads below `k + 2`, and keeps every entry seeded and witnessed.
proof fn lemma_fold_step(roads: Seq<RegulatedRoad>, t0: Table, t1: Table, k: int)
    requires
        table_wf(roads, t0),
        table_wf(roads, t1),
        0 <= k < t0.len(),
        closed_below(t0, k),
        all_witnessed(roads, t0),
        seeded(roads, t0),
        forall|a: int, b: int|
            0 <= a < t1.len() && 0 <= b < t1.len() ==> #[trigger] relaxed_entry(t0, t1, k, a, b),
        forall|x: int| 0 <= x < t1.len() ==> #[trigger] t1[k][x] == t0[k][x],
        forall|x: int| 0 <= x < t1.len() ==> #[trigger] t1[x][k] == t0[x][k],
    ensures
        closed_below(t1, k + 1),
        all_witnessed(roads, t1),
        seeded(roads, t1),
{
    let n = t0.len();
    assert forall|a: int, b: int, c: int|
        0 <= a < n && 0 <= b < n && 0 <= c < k + 1 && #[trigger] has_entry(t1, a, c) && #[trigger] has_entry(
            t1,
            c,
            b,
        ) && dist(t1, a, c) + dist(t1, c, b) <= i64::MAX implies has_entry(t1, a, b) && dist(t1, a, b)
        <= dist(t1, a, c) + dist(t1, c, b) by {
        assert(relaxed_entry(t0, t1, k, a, b));
        assert(relaxed_entry(t0, t1, k, a, c));
        assert(relaxed_entry(t0, t1, k, c, b));
        assert(entry_wf(roads, t0[a][k], a));
        assert(entry_wf(roads, t0[k][b], k));
        assert(entry_wf(roads, t0[k][c], k));
        assert(entry_wf(roads, t0[c][k], c));
        assert(entry_wf(roads, t0[a][c], a));
        assert(entry_wf(roads, t0[c][b], c));
        if c == k {
            assert(t1[a][k] == t0[a][k]);
            assert(t1[k][b] == t0[k][b]);
        } else {
            let ac_old = has_entry(t0, a, c) && dist(t1, a, c) == dist(t0, a, c);
            let cb_old = has_entry(t0, c, b) && dist(t1, c, b) == dist(t0, c, b);
            if ac_old && cb_old {
                assert(has_entry(t0, a, c) && has_entry(t0, c, b));
            } else if !ac_old && cb_old {
                assert(has_entry(t0, k, c) && has_entry(t0, c, b));
                assert(has_entry(t0, k, b) && dist(t0, k, b) <= dist(t0, k, c) + dist(t0, c, b));
            } else if ac_old && !cb_old {
                assert(has_entry(t0, a, c) && has_entry(t0, c, k));
                assert(has_entry(t0, a, k) && dist(t0, a, k) <= dist(t0, a, c) + dist(t0, c, k));
            } else {
                assert(has_entry(t0, a, k) && has_entry(t0, k, b));
            }
        }
    }
    assert forall|a: int, b: int|
        0 <= a < n && 0 <= b < n && #[trigger] has_entry(t1, a, b) implies witnessed(roads, t1, a, b) by {
        assert(relaxed_entry(t0, t1, k, a, b));
        if has_entry(t0, a, b) && dist(t1, a, b) == dist(t0, a, b) {
            assert(witnessed(roads, t0, a, b));
            if !(arc(roads, a, b) && roads[a].weight <= dist(t0, a, b)) {
                let c = choose|c: int|
                    0 <= c < n && #[trigger] has_entry(t0, a, c) && has_entry(t0, c, b) && dist(t0, a, c) + dist(
                        t0,
                        c,
                        b,
                    ) <= dist(t0, a, b);
                assert(relaxed_entry(t0, t1, k, a, c));
                assert(relaxed_entry(t0, t1, k, c, b));
                assert(has_entry(t1, a, c) && has_entry(t1, c, b));
            }
        } else {
            assert(t1[a][k] == t0[a][k]);
            assert(t1[k][b] == t0[k][b]);
            assert(has_entry(t1, a, k) && has_entry(t1, k, b));
        }
    }
    assert forall|a: int, b: int|
        0 <= a < n && 0 <= b < n && #[trigger] arc(roads, a, b) implies has_entry(t1, a, b) && dist(
            t1,
            a,
            b,
        ) <= roads[a].weight by {
        assert(relaxed_entry(t0, t1, k, a, b));
    }
}

/// The table holds exactly one entry per arc, of the weight of the arc's
/// origin, whose only first hop is the arc's end.
pub open spec fn seed_table(roads: Seq<RegulatedRoad>, t: Table) -> bool {
    &&& t.len() == roads.len()
    &&& forall|a: int| 0 <= a < t.len() ==> (#[trigger] t[a]).len() == roads.len()
    &&& forall|a: int, b: int|
        0 <= a < t.len() && 0 <= b < t.len() ==> (#[trigger] has_entry(t, a, b) <==> arc(roads, a, b))
    &&& forall|a: int, b: int|
        0 <= a < t.len() && 0 <= b < t.len() && #[trigger] has_entry(t, a, b) ==> dist(t, a, b)
            == roads[a].weight && hops(t, a, b) == seq![(b + 1) as i32]
}

/// `h[k + 1]` is `h[k]` with the routes through road `k + 1` folded in,
/// from the seed table `h[0]` to the finished table `h[n]`.
pub open spec fn fold_history(roads: Seq<RegulatedRoad>, h: Seq<Table>) -> bool {
    &&& h.len() == roads.len() + 1
    &&& seed_table(roads, h[0])
    &&& forall|k: int| 0 <= k < h.len() ==> table_wf(roads, #[trigger] h[k])
    &&& forall|k: int, a: int, b: int|
        0 <= k < roads.len() && 0 <= a < roads.len() && 0 <= b < roads.len() ==> #[trigger] relaxed_entry(
            h[k],
            h[k + 1],
            k,
            a,
            b,
        )
}

/// Along the fold, an entry that exists stays, and never grows longer.
pub proof fn lemma_history_monotone(roads: Seq<RegulatedRoad>, h: Seq<Table>, k: int, m: int, a: int, b: int)
    requires
        fold_history(roads, h),
        0 <= k <= m < h.len(),
        0 <= a < roads.len(),
        0 <= b < roads.len(),
        has_entry(h[k], a, b),
    ensures
        has_entry(h[m], a, b),
        dist(h[m], a, b) <= dist(h[k], a, b),
    decreases m - k,
{
    if m > k {
        lemma_history_monotone(roads, h, k, m - 1, a, b);
        let j = m - 1;
        assert(relaxed_entry(h[j], h[j + 1], j, a, b));
    }
}

proof fn lemma_hops_kept(roads: Seq<RegulatedRoad>, h: Seq<Table>, k: int, m: int, a: int, b: int, id: i32)
    requires
        fold_history(roads, h),
        0 <= k < m < h.len(),
        0 <= a < roads.len(),
        0 <= b < roads.len(),
        has_entry(h[k], a, b),
        dist(h[h.len() - 1], a, b) == dist(h[k], a, b),
        hops(h[k + 1], a, b).contains(id),
    ensures
        hops(h[m], a, b).contains(id),
    decreases m - k,
{
    if m > k + 1 {
        lemma_hops_kept(roads, h, k, m - 1, a, b, id);
        lemma_history_monotone(roads, h, k, m - 1, a, b);
        lemma_history_monotone(roads, h, m - 1, m, a, b);
        lemma_history_monotone(roads, h, m, h.len() - 1, a, b);
        let j = m - 1;
        assert(relaxed_entry(h[j], h[j + 1], j, a, b));
        assert(hops(h[m - 1], a, b).contains(id));
    }
}

/// Ties are kept: when the route through road `k + 1` matches the entry
/// for `(a + 1, b + 1)` as the fold reaches it, and the entry keeps that
/// length to the end, the finished entry holds every first hop that the
/// entry for `(a + 1, k + 1)` had then. Two routes of equal length through
/// different roads thus both leave their first hops in the finished entry.
pub proof fn lemma_tie_preserved(roads: Seq<RegulatedRoad>, h: Seq<Table>, a: int, b: int, k: int)
    requires
        fold_history(roads, h),
        0 <= a < roads.len(),
        0 <= b < roads.len(),
        0 <= k < roads.len(),
        has_entry(h[k], a, b),
        has_entry(h[k], a, k),
        has_entry(h[k], k, b),
        dist(h[k], a, k) + dist(h[k], k, b) == dist(h[k], a, b),
        dist(h[roads.len() as int], a, b) == dist(h[k], a, b),
    ensures
        forall|id: i32|
            #[trigger] hops(h[k], a, k).contains(id) ==> hops(h[roads.len() as int], a, b).contains(id),
{
    let n = roads.len() as int;
    assert(relaxed_entry(h[k], h[k + 1], k, a, b));
    assert forall|id: i32| #[trigger] hops(h[k], a, k).contains(id) implies hops(h[n], a, b).contains(id) by {
        assert(hops(h[k + 1], a, b).contains(id));
        lemma_hops_kept(roads, h, k, n, a, b, id);
    }
}

/// The seed row of road `a + 1`: an entry of its weight for each road it
/// continues onto, whose only first hop is that road.
fn seed_row(roads: &Vec<RegulatedRoad>, a: usize) -> (row: Vec<Option<ShortestPath>>)
    requires
        roads_wf(roads@),
        a < roads@.len(),
    ensures
        row@.len() == roads@.len(),
        forall|b: int|
            0 <= b < roads@.len() ==> (#[trigger] row@[b] is Some <==> arc(roads@, a as int, b)),
        forall|b: int|
            0 <= b < roads@.len() && #[trigger] row@[b] is Some ==> (row@[b]->Some_0).dist
                == roads@[a as int].weight && (row@[b]->Some_0).next@ == seq![(b + 1) as i32],
{
    let n = roads.len();
    let mut row: Vec<Option<ShortestPath>> = Vec::new();
    let mut b: usize = 0;
    while b < n
        invariant
            b <= n,
            n == roads@.len(),
            row@.len() == b,
            forall|c: int| 0 <= c < b ==> #[trigger] row@[c] is None,
        decreases n - b,
    {
        row.push(None);
        b = b + 1;
    }
    let road = &roads[a];
    let ghost outs = road.outbounds@;
    assert(ids_in(outs, n as int));
    let mut x: usize = 0;
    while x < road.outbounds.len()
        invariant
            road == roads@[a as int],
            outs == road.outbounds@,
            ids_in(outs, n as int),
            x <= outs.len(),
            n == roads@.len(),
            n <= MAX_ROADS,
            row@.len() == n,
            forall|b: int|
                0 <= b < n ==> (#[trigger] row@[b] is Some <==> outs.subrange(0, x as int).contains(
                    (b + 1) as i32,
                )),
            forall|b: int|
                0 <= b < n && #[trigger] row@[b] is Some ==> (row@[b]->Some_0).dist == road.weight
                    && (row@[b]->Some_0).next@ == seq![(b + 1) as i32],
        decreases outs.len() - x,
    {
        let q = road.outbounds[x];
        let mut next: Vec<i32> = Vec::new();
        next.push(q);
        assert(1 <= outs[x as int] <= n);
        let idx = (q - 1) as usize;
        let ghost rb = row@;
        row.set(idx, Some(ShortestPath { next, dist: road.weight }));
        let ghost s0 = outs.subrange(0, x as int);
        let ghost s1 = outs.subrange(0, x + 1);
        assert forall|b: int| 0 <= b < n implies (#[trigger] row@[b] is Some <==> s1.contains((b + 1) as i32)) by {
            if s0.contains((b + 1) as i32) {
                let y = choose|y: int| 0 <= y < s0.len() && s0[y] == (b + 1) as i32;
                assert(s1[y] == (b + 1) as i32);
            }
            if s1.contains((b + 1) as i32) {
                let y = choose|y: int| 0 <= y < s1.len() && s1[y] == (b + 1) as i32;
                if y < x {
                    assert(s0[y] == (b + 1) as i32);
                }
            }
            assert(s1[x as int] == q);
            if b == idx as int {
                assert((b + 1) as i32 == q);
                assert(s1.contains(q));
                assert(row@[b] is Some);
            }
            if b != idx as int {
                assert(row@[b] == rb[b]);
                assert(rb[b] is Some <==> s0.contains((b + 1) as i32));
            }
        }
        x = x + 1;
    }
    assert(outs.subrange(0, outs.len() as int) == outs);
    row
}

impl RegulatedRoadMap {
    /// The id of the road made from coordinate `c`, if the map still holds
    /// its coordinates and one of them is `c`.
    pub fn lookup_road(&self, c: Coord) -> (r: Option<i32>)
        requires
            self.lookup matches Some(cs) ==> cs@.len() <= MAX_ROADS && distinct_coords(cs@),
        ensures
            self.lookup is None ==> r is None,
            self.lookup matches Some(cs) ==> (r is None <==> !cs@.contains(c)) && (r matches Some(id)
                ==> 1 <= id <= cs@.len() && cs@[id - 1] == c),
    {
        match &self.lookup {
            None => None,
            Some(cs) => match find_coord(cs, c) {
                Some(k) => {
                    if k < MAX_ROADS {
                        Some((k + 1) as i32)
                    } else {
                        None
                    }
                },
                None => None,
            },
        }
    }

    /// Fills the shortest-path table by folding in, road after road, the
    /// routes through it, starting from one entry per arc whose length is the
    /// weight of the arc's origin.
    pub fn shortest_path(&mut self)
        requires
            roads_wf(old(self).roads@),
        ensures
            final(self).roads == old(self).roads,
            final(self).lookup == old(self).lookup,
            optimal(final(self).roads@, table_view(final(self).shortest_path)),
            exists|h: Seq<Table>|
                #[trigger] fold_history(final(self).roads@, h) && h.last() == table_view(
                    final(self).shortest_path,
                ),
    {
        let n = self.roads.len();
        let mut t: Vec<Vec<Option<ShortestPath>>> = Vec::new();
        let mut a: usize = 0;
        while a < n
            invariant
                a <= n,
                n == self.roads@.len(),
                roads_wf(self.roads@),
                t@.len() == a,
                forall|x: int| 0 <= x < a ==> (#[trigger] t@[x])@.len() == n,
                forall|x: int, b: int|
                    0 <= x < a && 0 <= b < n ==> ((#[trigger] t@[x]@[b]) is Some <==> arc(
                        self.roads@,
                        x,
                        b,
                    )),
                forall|x: int, b: int|
                    0 <= x < a && 0 <= b < n && (#[trigger] t@[x]@[b]) is Some ==> (t@[x]@[b]->Some_0).dist
                        == self.roads@[x].weight && (t@[x]@[b]->Some_0).next@ == seq![(b + 1) as i32],
            decreases n - a,
        {
            let row = seed_row(&self.roads, a);
            t.push(row);
            a = a + 1;
        }
        let ghost roads = self.roads@;
        proof {
            let tv = table_view(t);
            assert forall|x: int| 0 <= x < n implies #[trigger] tv[x] == t@[x]@ by {}
            assert forall|x: int, b: int| 0 <= x < n && 0 <= b < n implies entry_wf(roads, #[trigger] tv[x][b], x) by {
                if tv[x][b] is Some {
                    assert(arc(roads, x, b));
                    assert(roads[x].outbounds@.contains((b + 1) as i32));
                }
            }
            assert forall|x: int, b: int| 0 <= x < n && 0 <= b < n && #[trigger] has_entry(tv, x, b) implies witnessed(roads, tv, x, b) by {}
            assert(seed_table(roads, tv));
        }
        let ghost mut hist: Seq<Table> = seq![table_view(t)];
        let mut k: usize = 0;
        while k < n
            invariant
                k <= n,
                n == roads.len(),
                roads == self.roads@,
                roads_wf(roads),
                t@.len() == n,
                forall|x: int| 0 <= x < n ==> (#[trigger] t@[x])@.len() == n,
                table_wf(roads, table_view(t)),
                closed_below(table_view(t), k as int),
                all_witnessed(roads, table_view(t)),
                seeded(roads, table_view(t)),
                hist.len() == k + 1,
                hist.last() == table_view(t),
                seed_table(roads, hist[0]),
                forall|j: int| 0 <= j < hist.len() ==> table_wf(roads, #[trigger] hist[j]),
                forall|j: int, a: int, b: int|
                    0 <= j < k && 0 <= a < n && 0 <= b < n ==> #[trigger] relaxed_entry(
                        hist[j],
                        hist[j + 1],
                        j,
                        a,
                        b,
                    ),
            decreases n - k,
        {
            let ghost t0 = table_view(t);
            relax_through(&mut t, Ghost(roads), k);
            proof {
                let h0 = hist;
                hist = hist.push(table_view(t));
                assert forall|j: int, a: int, b: int|
                    0 <= j < k + 1 && 0 <= a < n && 0 <= b < n implies #[trigger] relaxed_entry(
                        hist[j],
                        hist[j + 1],
                        j,
                        a,
                        b,
                    ) by {
                    if j < k {
                        assert(hist[j] == h0[j] && hist[j + 1] == h0[j + 1]);
                        assert(relaxed_entry(h0[j], h0[j + 1], j, a, b));
                    } else {
                        assert(hist[j] == t0 && hist[j + 1] == table_view(t));
                    }
                }
                assert forall|j: int| 0 <= j < hist.len() implies table_wf(roads, #[trigger] hist[j]) by {
                    if j < k + 1 {
                        assert(hist[j] == h0[j]);
                    }
                }
                lemma_fold_step(roads, t0, table_view(t), k as int);
                assert forall|x: int| 0 <= x < n implies (#[trigger] t@[x])@.len() == n by {
                    assert(table_view(t)[x] == t@[x]@);
                }
            }
            k = k + 1;
        }
        proof {
            let tv = table_view(t);
            assert forall|a: int, b: int| 0 <= a < n && 0 <= b < n && #[trigger] has_entry(tv, a, b) implies attained(roads, tv, a, b) by {
                assert(witnessed(roads, tv, a, b));
                if !(arc(roads, a, b) && roads[a].weight <= dist(tv, a, b)) {
                    let c = choose|c: int|
                        0 <= c < n && #[trigger] has_entry(tv, a, c) && has_entry(tv, c, b) && dist(tv, a, c) + dist(
                            tv,
                            c,
                            b,
                        ) <= dist(tv, a, b);
                    assert(entry_wf(roads, tv[a][b], a));
                }
            }
            assert(fold_history(roads, hist));
        }
        self.shortest_path = t;
    }
}

/// Largest number of edges that a plain map may hold to be regularised:
/// each edge names at most two new roads.
pub const MAX_EDGES: usize = 1073741823;

/// The coordinates of the first `k` edges in order of first appearance,
/// each with the weight of the edge where it first appears.
pub open spec fn road_coords(edges: Seq<(Coord, Coord)>, ws: Seq<Distance>, k: int) -> (Seq<Coord>, Seq<
    Distance,
>)
    decreases k,
{
    if k <= 0 {
        (Seq::empty(), Seq::empty())
    } else {
        let prev = road_coords(edges, ws, k - 1);
        let e = edges[k - 1];
        let mid = if prev.0.contains(e.0) {
            prev
        } else {
            (prev.0.push(e.0), prev.1.push(ws[k - 1]))
        };
        if mid.0.contains(e.1) {
            mid
        } else {
            (mid.0.push(e.1), mid.1.push(ws[k - 1]))
        }
    }
}

/// The edge joins `c1` and `c2`, in one direction or the other.
pub open spec fn joins(e: (Coord, Coord), c1: Coord, c2: Coord) -> bool {
    (e.0 == c1 && e.1 == c2) || (e.1 == c1 && e.0 == c2)
}

/// One of the first `k` edges joins `c1` and `c2`.
pub open spec fn joined_before(edges: Seq<(Coord, Coord)>, k: int, c1: Coord, c2: Coord) -> bool {
    exists|e: int| 0 <= e < k && #[trigger] joins(edges[e], c1, c2)
}

/// Both ends of each of the first `x` edges are listed.
pub open spec fn endpoints_upto(cs: Seq<Coord>, edges: Seq<(Coord, Coord)>, x: int) -> bool {
    forall|e: int| 0 <= e < x ==> cs.contains(#[trigger] edges[e].0) && cs.contains(edges[e].1)
}

/// Both ends of every edge are listed.
pub open spec fn endpoints_in(cs: Seq<Coord>, edges: Seq<(Coord, Coord)>) -> bool {
    endpoints_upto(cs, edges, edges.len() as int)
}

/// No coordinate repeats.
pub open spec fn distinct_coords(s: Seq<Coord>) -> bool {
    forall|x: int, y: int| 0 <= x < y < s.len() ==> s[x] != s[y]
}

/// The position of `c` in `cs`, if it is there.
fn find_coord(cs: &Vec<Coord>, c: Coord) -> (r: Option<usize>)
    ensures
        r matches Some(i) ==> i < cs@.len() && cs@[i as int] == c,
        r is None ==> !cs@.contains(c),
{
    let mut x: usize = 0;
    while x < cs.len()
        invariant
            x <= cs@.len(),
            forall|y: int| 0 <= y < x ==> cs@[y] != c,
        decreases cs@.len() - x,
    {
        if cs[x].0 == c.0 && cs[x].1 == c.1 {
            return Some(x);
        }
        x = x + 1;
    }
    None
}

/// Adds `id` to a list of distinct ids unless it is there already.
fn insert_id(v: &mut Vec<i32>, id: i32)
    requires
        distinct(old(v)@),
    ensures
        distinct(final(v)@),
        forall|x: i32| final(v)@.contains(x) <==> (old(v)@.contains(x) || x == id),
{
    if !contains_id(v, id) {
        let ghost before = v@;
        v.push(id);
        assert forall|x: i32| v@.contains(x) implies (before.contains(x) || x == id) by {
            let y = choose|y: int| 0 <= y < v@.len() && v@[y] == x;
            if y < before.len() {
                assert(before[y] == x);
            }
        }
        assert forall|x: i32| before.contains(x) implies v@.contains(x) by {
            let y = choose|y: int| 0 <= y < before.len() && before[y] == x;
            assert(v@[y] == x);
        }
        assert(v@[before.len() as int] == id);
    }
}

/// Adds to road `a + 1` both an arc to and an arc from road `b + 1`.
fn link_one(roads: &mut Vec<RegulatedRoad>, a: usize, b: usize)
    requires
        a < old(roads)@.len(),
        distinct(old(roads)@[a as int].outbounds@),
        distinct(old(roads)@[a as int].inbounds@),
        b < old(roads)@.len() <= MAX_ROADS,
    ensures
        final(roads)@.len() == old(roads)@.len(),
        forall|t: int| 0 <= t < old(roads)@.len() && t != a ==> #[trigger] final(roads)@[t] == old(roads)@[t],
        final(roads)@[a as int].id == old(roads)@[a as int].id,
        final(roads)@[a as int].weight == old(roads)@[a as int].weight,
        distinct(final(roads)@[a as int].outbounds@),
        distinct(final(roads)@[a as int].inbounds@),
        forall|x: i32| final(roads)@[a as int].outbounds@.contains(x) <==> (old(roads)@[a as int].outbounds@.contains(x) || x == b + 1),
        forall|x: i32| final(roads)@[a as int].inbounds@.contains(x) <==> (old(roads)@[a as int].inbounds@.contains(x) || x == b + 1),
{
    let mut r = RegulatedRoad { id: 0, weight: 0, outbounds: Vec::new(), inbounds: Vec::new() };
    roads.set_and_swap(a, &mut r);
    let id = (b + 1) as i32;
    insert_id(&mut r.outbounds, id);
    insert_id(&mut r.inbounds, id);
    roads.set_and_swap(a, &mut r);
}

/// The first `x + 1` edges join two coordinates when the first `x` do or
/// edge `x` does.
proof fn lemma_joined_step(edges: Seq<(Coord, Coord)>, x: int, c1: Coord, c2: Coord)
    requires
        0 <= x < edges.len(),
    ensures
        joined_before(edges, x + 1, c1, c2) == (joined_before(edges, x, c1, c2) || joins(
            edges[x],
            c1,
            c2,
        )),
{
    if joined_before(edges, x + 1, c1, c2) {
        let e = choose|e: int| 0 <= e < x + 1 && #[trigger] joins(edges[e], c1, c2);
        if e < x {
            assert(joined_before(edges, x, c1, c2));
        }
    }
    if joined_before(edges, x, c1, c2) {
        let e = choose|e: int| 0 <= e < x && #[trigger] joins(edges[e], c1, c2);
        assert(0 <= e < x + 1 && joins(edges[e], c1, c2));
    }
    if joins(edges[x], c1, c2) {
        assert(0 <= x < x + 1 && joins(edges[x], c1, c2));
    }
}

/// Pushes `c` onto the coordinate list, with weight `w`, unless it is there.
fn add_coord(coords: &mut Vec<Coord>, weights: &mut Vec<Distance>, c: Coord, w: Distance)
    requires
        distinct_coords(old(coords)@),
    ensures
        distinct_coords(final(coords)@),
        old(coords)@.contains(c) ==> final(coords)@ == old(coords)@ && final(weights)@ == old(weights)@,
        !old(coords)@.contains(c) ==> final(coords)@ == old(coords)@.push(c) && final(weights)@ == old(weights)@.push(w),
{
    match find_coord(coords, c) {
        Some(_) => {},
        None => {
            coords.push(c);
            weights.push(w);
        },
    }
}

/// Numbers the coordinates of the edge list `1, 2, ...` in order of first
/// appearance, each road taking the weight of the edge where it first
/// appears, and links both directions of every edge; then fills the
/// shortest-path table.
pub fn regularize_bidirectional(m: &PlainRoadMap) -> (res: RegulatedRoadMap)
    requires
        m.wf(),
        m.roads@.len() <= MAX_EDGES,
        forall|e: int| 0 <= e < m.weights@.len() ==> m.weights@[e] >= 1,
    ensures
        ({
            let edges = m.roads@;
            let seen = road_coords(edges, m.weights@, edges.len() as int);
            &&& res.lookup matches Some(cs) && cs@ == seen.0 && distinct_coords(cs@) && cs@.len() <= MAX_ROADS
            &&& res.roads@.len() == seen.0.len()
            &&& roads_wf(res.roads@)
            &&& forall|t: int| 0 <= t < res.roads@.len() ==> (#[trigger] res.roads@[t]).weight == seen.1[t]
            &&& forall|t: int, q: int|
                0 <= t < res.roads@.len() && 0 <= q < res.roads@.len() ==> (#[trigger] arc(res.roads@, t, q)
                    <==> joined_before(edges, edges.len() as int, seen.0[t], seen.0[q]))
        }),
        symmetric(res.roads@),
        optimal(res.roads@, table_view(res.shortest_path)),
        exists|h: Seq<Table>|
            #[trigger] fold_history(res.roads@, h) && h.last() == table_view(res.shortest_path),
{
    let ghost edges = m.roads@;
    let ghost ws = m.weights@;
    let ne = m.roads.len();
    let mut coords: Vec<Coord> = Vec::new();
    let mut weights: Vec<Distance> = Vec::new();
    let mut x: usize = 0;
    while x < ne
        invariant
            ne == edges.len(),
            edges.len() == ws.len(),
            edges == m.roads@,
            ws == m.weights@,
            ne <= MAX_EDGES,
            forall|e: int| 0 <= e < ws.len() ==> ws[e] >= 1,
            x <= ne,
            coords@ == road_coords(edges, ws, x as int).0,
            weights@ == road_coords(edges, ws, x as int).1,
            coords@.len() == weights@.len(),
            coords@.len() <= 2 * x,
            distinct_coords(coords@),
            forall|t: int| 0 <= t < weights@.len() ==> weights@[t] >= 1,
            endpoints_upto(coords@, edges, x as int),
        decreases ne - x,
    {
        let e = m.roads[x];
        let w = m.weights[x];
        let ghost c0 = coords@;
        add_coord(&mut coords, &mut weights, e.0, w);
        let ghost c1 = coords@;
        add_coord(&mut coords, &mut weights, e.1, w);
        assert forall|c: Coord| c0.contains(c) implies coords@.contains(c) by {
            let p = choose|p: int| 0 <= p < c0.len() && c0[p] == c;
            assert(c1[p] == c);
            assert(coords@[p] == c);
        }
        assert forall|c: Coord| c1.contains(c) implies coords@.contains(c) by {
            let p = choose|p: int| 0 <= p < c1.len() && c1[p] == c;
            assert(coords@[p] == c);
        }
        assert(e == edges[x as int]);
        assert(c1.contains(e.0)) by {
            if !c0.contains(e.0) {
                assert(c1[c0.len() as int] == e.0);
            }
        }
        assert(coords@.contains(e.1)) by {
            if !c1.contains(e.1) {
                assert(coords@[c1.len() as int] == e.1);
            }
        }
        assert forall|y: int| 0 <= y < x + 1 implies coords@.contains(#[trigger] edges[y].0) && coords@.contains(edges[y].1) by {
            if y < x {
                assert(c0.contains(edges[y].0) && c0.contains(edges[y].1));
            }
        }
        x = x + 1;
    }
    let n = coords.len();
    let ghost cs = coords@;
    assert(endpoints_in(cs, edges));
    let mut roads: Vec<RegulatedRoad> = Vec::new();
    let mut t: usize = 0;
    while t < n
        invariant
            t <= n,
            n == cs.len(),
            cs == coords@,
            ne == edges.len(),
            edges == m.roads@,
            distinct_coords(cs),
            endpoints_in(cs, edges),
            n == weights@.len(),
            n <= MAX_ROADS,
            forall|u: int| 0 <= u < weights@.len() ==> weights@[u] >= 1,
            roads@.len() == t,
            forall|u: int|
                0 <= u < t ==> (#[trigger] roads@[u]).id == u + 1 && roads@[u].weight == weights@[u]
                    && roads@[u].outbounds@.len() == 0 && roads@[u].inbounds@.len() == 0,
        decreases n - t,
    {
        roads.push(
            RegulatedRoad {
                id: (t + 1) as i32,
                weight: weights[t],
                outbounds: Vec::new(),
                inbounds: Vec::new(),
            },
        );
        t = t + 1;
    }
    let mut x: usize = 0;
    while x < ne
        invariant
            ne == edges.len(),
            edges == m.roads@,
            x <= ne,
            n == cs.len(),
            cs == coords@,
            n <= MAX_ROADS,
            distinct_coords(cs),
            endpoints_in(cs, edges),
            roads@.len() == n,
            forall|u: int| 0 <= u < weights@.len() ==> weights@[u] >= 1,
            n == weights@.len(),
            forall|u: int|
                0 <= u < n ==> {
                    &&& (#[trigger] roads@[u]).id == u + 1
                    &&& roads@[u].weight == weights@[u]
                    &&& distinct(roads@[u].outbounds@)
                    &&& distinct(roads@[u].inbounds@)
                    &&& forall|v: i32| #[trigger] roads@[u].outbounds@.contains(v) ==> 1 <= v <= n
                    &&& forall|v: i32| #[trigger] roads@[u].inbounds@.contains(v) ==> 1 <= v <= n
                },
            forall|u: int, q: int|
                0 <= u < n && 0 <= q < n ==> (#[trigger] roads@[u].outbounds@.contains((q + 1) as i32)
                    <==> joined_before(edges, x as int, cs[u], cs[q])),
            forall|u: int, q: int|
                0 <= u < n && 0 <= q < n ==> (#[trigger] roads@[u].inbounds@.contains((q + 1) as i32)
                    <==> joined_before(edges, x as int, cs[u], cs[q])),
        decreases ne - x,
    {
        let e = m.roads[x];
        let ia = match find_coord(&coords, e.0) {
            Some(i) => i,
            None => {
                assert(cs.contains(edges[x as int].0));
                assert(cs.contains(e.0));
                0
            },
        };
        let ib = match find_coord(&coords, e.1) {
            Some(i) => i,
            None => {
                assert(cs.contains(edges[x as int].1));
                assert(cs.contains(e.1));
                0
            },
        };
        let ghost r0 = roads@;
        link_one(&mut roads, ia, ib);
        link_one(&mut roads, ib, ia);
        proof {
            assert forall|u: int, q: int|
                0 <= u < n && 0 <= q < n implies (#[trigger] roads@[u].outbounds@.contains((q + 1) as i32)
                    <==> joined_before(edges, x + 1, cs[u], cs[q])) by {
                lemma_joined_step(edges, x as int, cs[u], cs[q]);
                assert(joins(edges[x as int], cs[u], cs[q]) <==> ((u == ia && q == ib) || (u == ib && q == ia)));
                assert(r0[u].outbounds@.contains((q + 1) as i32) <==> joined_before(edges, x as int, cs[u], cs[q]));
            }
            assert forall|u: int, q: int|
                0 <= u < n && 0 <= q < n implies (#[trigger] roads@[u].inbounds@.contains((q + 1) as i32)
                    <==> joined_before(edges, x + 1, cs[u], cs[q])) by {
                lemma_joined_step(edges, x as int, cs[u], cs[q]);
                assert(joins(edges[x as int], cs[u], cs[q]) <==> ((u == ia && q == ib) || (u == ib && q == ia)));
                assert(r0[u].inbounds@.contains((q + 1) as i32) <==> joined_before(edges, x as int, cs[u], cs[q]));
            }
            assert forall|u: int| 0 <= u < n implies {
                    &&& (#[trigger] roads@[u]).id == u + 1
                    &&& roads@[u].weight == weights@[u]
                    &&& distinct(roads@[u].outbounds@)
                    &&& distinct(roads@[u].inbounds@)
                    &&& forall|v: i32| #[trigger] roads@[u].outbounds@.contains(v) ==> 1 <= v <= n
                    &&& forall|v: i32| #[trigger] roads@[u].inbounds@.contains(v) ==> 1 <= v <= n
                } by {
                assert(r0[u].id == u + 1);
            }
        }
        x = x + 1;
    }
    proof {
        let rs = roads@;
        assert forall|u: int| 0 <= u < n implies ids_in((#[trigger] rs[u]).outbounds@, n as int) && ids_in(rs[u].inbounds@, n as int) by {
            assert forall|y: int| 0 <= y < rs[u].outbounds@.len() implies 1 <= #[trigger] rs[u].outbounds@[y] <= n by {
                assert(rs[u].outbounds@.contains(rs[u].outbounds@[y]));
            }
            assert forall|y: int| 0 <= y < rs[u].inbounds@.len() implies 1 <= #[trigger] rs[u].inbounds@[y] <= n by {
                assert(rs[u].inbounds@.contains(rs[u].inbounds@[y]));
            }
        }
        assert(roads_wf(rs));
        assert forall|a: int, b: int|
            0 <= a < n && 0 <= b < n && #[trigger] arc(rs, a, b) implies arc(rs, b, a) by {
            let e = choose|e: int| 0 <= e < ne && #[trigger] joins(edges[e], cs[a], cs[b]);
            assert(joins(edges[e], cs[b], cs[a]));
        }
        assert forall|a: int, b: int|
            0 <= a < n && 0 <= b < n implies (arc(rs, a, b) <==> #[trigger] rs[b].inbounds@.contains((a + 1) as i32)) by {
            if arc(rs, a, b) {
                let e = choose|e: int| 0 <= e < ne && #[trigger] joins(edges[e], cs[a], cs[b]);
                assert(joins(edges[e], cs[b], cs[a]));
            }
            if rs[b].inbounds@.contains((a + 1) as i32) {
                let e = choose|e: int| 0 <= e < ne && #[trigger] joins(edges[e], cs[b], cs[a]);
                assert(joins(edges[e], cs[a], cs[b]));
            }
        }
    }
    let mut res = RegulatedRoadMap { roads, lookup: Some(coords), shortest_path: Vec::new() };
    res.shortest_path();
    res
}

} // verus!
