//! Distance fields ("Dijkstra maps"): for every cell within a step limit,
//! the number of steps to the nearest goal over floor cells.

use vstd::prelude::*;
use crate::tile::{Location, Terrain, Tile};
use crate::grid::{
    adjacent_spec, cell_index, cell_loc, is_neighbor, lemma_adjacent, lemma_index, lemma_index_all,
    lemma_cell_index, lemma_key_in_range, lemma_push_contains, loc_in_grid, offset_code, terrain_of,
};
use crate::world_map::WorldMap;
use crate::matrix::{matrix_entries, matrix_filled, matrix_get, matrix_set, matrix_shape, DistanceMatrix};

verus! {

/// The cells reached from `goals` in at most `k` steps, each step going to
/// a floor cell among the eight neighbours of a reached cell.
pub open spec fn reach(w: int, h: int, cells: Seq<Tile>, goals: Set<Location>, k: nat) -> Set<Location>
    decreases k,
{
    if k == 0 {
        goals
    } else {
        let prev = reach(w, h, cells, goals, (k - 1) as nat);
        prev.union(
            Set::new(
                |m: Location|
                    loc_in_grid(w, h, m) && terrain_of(cells, w, m) == Terrain::Floor && exists|l: Location|
                        #[trigger] prev.contains(l) && is_neighbor(w, h, l, m, true),
            ),
        )
    }
}

/// `m` is first reached after exactly `d` steps.
pub open spec fn at_distance(
    w: int,
    h: int,
    cells: Seq<Tile>,
    goals: Set<Location>,
    m: Location,
    d: nat,
) -> bool {
    &&& reach(w, h, cells, goals, d).contains(m)
    &&& (d == 0 || !reach(w, h, cells, goals, (d - 1) as nat).contains(m))
}

proof fn lemma_reach_mono(w: int, h: int, cells: Seq<Tile>, goals: Set<Location>, j: nat, k: nat)
    requires
        j <= k,
    ensures
        reach(w, h, cells, goals, j).subset_of(reach(w, h, cells, goals, k)),
    decreases k - j,
{
    if j < k {
        lemma_reach_mono(w, h, cells, goals, j, (k - 1) as nat);
    }
}

proof fn lemma_distance_unique(
    w: int,
    h: int,
    cells: Seq<Tile>,
    goals: Set<Location>,
    m: Location,
    d1: nat,
    d2: nat,
)
    requires
        at_distance(w, h, cells, goals, m, d1),
        at_distance(w, h, cells, goals, m, d2),
    ensures
        d1 == d2,
{
    if d1 < d2 {
        lemma_reach_mono(w, h, cells, goals, d1, (d2 - 1) as nat);
    } else if d2 < d1 {
        lemma_reach_mono(w, h, cells, goals, d2, (d1 - 1) as nat);
    }
}

/// A cell first reached at `d > 0` is a floor on the grid.
proof fn lemma_reached_floor(
    w: int,
    h: int,
    cells: Seq<Tile>,
    goals: Set<Location>,
    m: Location,
    d: nat,
)
    requires
        d > 0,
        at_distance(w, h, cells, goals, m, d),
    ensures
        loc_in_grid(w, h, m),
        terrain_of(cells, w, m) == Terrain::Floor,
{
}

/// A floor neighbour of a cell at distance `d` is at distance at most `d + 1`.
proof fn lemma_step(
    w: int,
    h: int,
    cells: Seq<Tile>,
    goals: Set<Location>,
    u: Location,
    du: nat,
    v: Location,
    dv: nat,
)
    requires
        at_distance(w, h, cells, goals, u, du),
        at_distance(w, h, cells, goals, v, dv),
        is_neighbor(w, h, u, v, true),
        terrain_of(cells, w, v) == Terrain::Floor,
    ensures
        dv <= du + 1,
{
    assert(reach(w, h, cells, goals, du).contains(u));
    assert(reach(w, h, cells, goals, du + 1).contains(v));
    if dv > du + 1 {
        lemma_reach_mono(w, h, cells, goals, du + 1, (dv - 1) as nat);
    }
}

/// Distances change by at most one along any edge: two neighbouring cells
/// that both have a distance have distances that differ by at most one.
pub proof fn lemma_distance_adjacent(
    w: int,
    h: int,
    cells: Seq<Tile>,
    goals: Set<Location>,
    u: Location,
    du: nat,
    v: Location,
    dv: nat,
)
    requires
        at_distance(w, h, cells, goals, u, du),
        at_distance(w, h, cells, goals, v, dv),
        loc_in_grid(w, h, u),
        is_neighbor(w, h, u, v, true),
    ensures
        du <= dv + 1,
        dv <= du + 1,
{
    if dv > 0 {
        lemma_reached_floor(w, h, cells, goals, v, dv);
        lemma_step(w, h, cells, goals, u, du, v, dv);
    }
    if du > 0 {
        lemma_reached_floor(w, h, cells, goals, u, du);
        assert(is_neighbor(w, h, v, u, true));
        lemma_step(w, h, cells, goals, v, dv, u, du);
    }
}

/// `p` walks from a goal over floor cells, each step to one of the eight
/// neighbours of the cell before.
pub open spec fn is_floor_walk(w: int, h: int, cells: Seq<Tile>, goals: Set<Location>, p: Seq<Location>) -> bool {
    &&& p.len() >= 1
    &&& goals.contains(p[0])
    &&& forall|i: int| 1 <= i < p.len() ==> #[trigger] is_neighbor(w, h, p[i - 1], p[i], true) && terrain_of(cells, w, p[i]) == Terrain::Floor
}

/// Every reached cell is the end of a floor walk from a goal.
pub proof fn lemma_reach_has_walk(w: int, h: int, cells: Seq<Tile>, goals: Set<Location>, k: nat, m: Location)
    requires
        reach(w, h, cells, goals, k).contains(m),
    ensures
        exists|p: Seq<Location>| is_floor_walk(w, h, cells, goals, p) && p[p.len() - 1] == m,
    decreases k,
{
    if k == 0 {
        let p = seq![m];
        assert(is_floor_walk(w, h, cells, goals, p) && p[p.len() - 1] == m);
    } else {
        let prev = reach(w, h, cells, goals, (k - 1) as nat);
        if prev.contains(m) {
            lemma_reach_has_walk(w, h, cells, goals, (k - 1) as nat, m);
        } else {
            let l = choose|l: Location| #[trigger] prev.contains(l) && is_neighbor(w, h, l, m, true);
            lemma_reach_has_walk(w, h, cells, goals, (k - 1) as nat, l);
            let p = choose|p: Seq<Location>| is_floor_walk(w, h, cells, goals, p) && p[p.len() - 1] == l;
            let q = p.push(m);
            assert forall|i: int| 1 <= i < q.len() implies #[trigger] is_neighbor(w, h, q[i - 1], q[i], true) && terrain_of(cells, w, q[i]) == Terrain::Floor by {
                if i < p.len() {
                    assert(q[i - 1] == p[i - 1] && q[i] == p[i]);
                    assert(is_neighbor(w, h, p[i - 1], p[i], true));
                }
            }
            assert(is_floor_walk(w, h, cells, goals, q) && q[q.len() - 1] == m);
        }
    }
}

/// A cell that no floor walk from a goal reaches has no distance.
pub proof fn lemma_no_walk_no_distance(w: int, h: int, cells: Seq<Tile>, goals: Set<Location>, m: Location, d: nat)
    requires
        forall|p: Seq<Location>| is_floor_walk(w, h, cells, goals, p) ==> p[p.len() - 1] != m,
    ensures
        !at_distance(w, h, cells, goals, m, d),
{
    if at_distance(w, h, cells, goals, m, d) {
        lemma_reach_has_walk(w, h, cells, goals, d, m);
    }
}

proof fn lemma_reach_in_grid(w: int, h: int, cells: Seq<Tile>, goals: Set<Location>, k: nat)
    requires
        forall|g: Location| #[trigger] goals.contains(g) ==> loc_in_grid(w, h, g),
    ensures
        forall|m: Location| #[trigger] reach(w, h, cells, goals, k).contains(m) ==> loc_in_grid(w, h, m),
    decreases k,
{
    if k > 0 {
        lemma_reach_in_grid(w, h, cells, goals, (k - 1) as nat);
        assert forall|m: Location| #[trigger] reach(w, h, cells, goals, k).contains(m) implies loc_in_grid(w, h, m) by {
            if !reach(w, h, cells, goals, (k - 1) as nat).contains(m) {
            }
        }
    }
}

/// Distance to the nearest of a set of goals, for every cell within a step
/// limit. Cells further away, or not reachable over floors, have no entry.
pub struct Dijkstra<'a> {
    weights: Vec<Option<u32>>,
    world: &'a WorldMap,
}

impl<'a> Dijkstra<'a> {
    /// The grid the distances were computed on.
    pub closed spec fn world(&self) -> WorldMap {
        *self.world
    }

    /// The recorded distance of `m`, if any.
    pub closed spec fn distance(&self, m: Location) -> Option<u32> {
        if self.world.in_bounds(m) {
            self.weights@[cell_index(self.world.spec_width(), m)]
        } else {
            None
        }
    }

    #[verifier::type_invariant]
    spec fn well_formed(&self) -> bool {
        &&& self.world.wf()
        &&& self.weights@.len() == self.world.cells().len()
    }

    /// The distances from `goals`, layer by layer: the goals are at 0, and
    /// the floor cells next to a cell at `d` that have no distance yet are at
    /// `d + 1`. Only distances below `limit` are recorded.
    pub fn new(world: &'a WorldMap, goals: Vec<Location>, limit: u32) -> (r: Self)
        requires
            world.wf(),
            goals@.len() > 0,
            forall|k: int| 0 <= k < goals@.len() ==> world.in_bounds(#[trigger] goals@[k]),
        ensures
            r.world() == *world,
            forall|m: Location| #[trigger] r.distance(m) is Some ==> {
                &&& world.in_bounds(m)
                &&& r.distance(m)->0 < limit
                &&& at_distance(world.spec_width(), world.spec_height(), world.cells(), goals@.to_set(), m, r.distance(m)->0 as nat)
            },
            forall|m: Location, d: nat| world.in_bounds(m) && d < limit && #[trigger] at_distance(
                world.spec_width(),
                world.spec_height(),
                world.cells(),
                goals@.to_set(),
                m,
                d,
            ) ==> r.distance(m) == Some(d as u32),
    {
        let ghost w = world.spec_width();
        let ghost h = world.spec_height();
        let ghost cells = world.cells();
        let ghost gs = goals@.to_set();
        proof {
            assert forall|g: Location| #[trigger] gs.contains(g) implies loc_in_grid(w, h, g) by {
                let k = choose|k: int| 0 <= k < goals@.len() && goals@[k] == g;
            }
        }
        let n = world.cell_count();
        proof {
            lemma_index_all(w, h);
        }
        let mut weights: Vec<Option<u32>> = Vec::new();
        while weights.len() < n
            invariant
                weights@.len() <= n,
                n == world.cells().len(),
                forall|i: int| 0 <= i < weights@.len() ==> (#[trigger] weights@[i]) is None,
            decreases n - weights@.len(),
        {
            weights.push(None);
        }
        if limit == 0 {
            let r = Dijkstra { weights: weights, world: world };
            assert forall|m: Location| #[trigger] r.distance(m) is Some implies false by {
                lemma_index(w, h, m);
            }
            return r;
        }
        let mut edge: Vec<Location> = Vec::new();
        let mut k: usize = 0;
        while k < goals.len()
            invariant
                world.wf(),
                w == world.spec_width(),
                h == world.spec_height(),
                cells == world.cells(),
                gs == goals@.to_set(),
                forall|kk: int| 0 <= kk < goals@.len() ==> world.in_bounds(#[trigger] goals@[kk]),
                weights@.len() == n,
                n == cells.len(),
                forall|m: Location| loc_in_grid(w, h, m) ==> 0 <= #[trigger] cell_index(w, m) < n && cell_loc(w, cell_index(w, m)) == m,
                k <= goals@.len(),
                forall|m: Location| #[trigger] edge@.contains(m) <==> (loc_in_grid(w, h, m) && weights@[cell_index(w, m)] == Some(0u32)),
                forall|m: Location| loc_in_grid(w, h, m) && (#[trigger] weights@[cell_index(w, m)]) is Some ==> weights@[cell_index(w, m)] == Some(0u32) && gs.contains(m),
                forall|j: int| 0 <= j < k ==> (#[trigger] weights@[cell_index(w, goals@[j])]) is Some,
            decreases goals@.len() - k,
        {
            let g = goals[k];
            let i = world.index(g);
            proof {
                lemma_index(w, h, g);
                assert(gs.contains(g));
            }
            if weights[i].is_none() {
                weights.set(i, Some(0));
                proof {
                    assert forall|m: Location| loc_in_grid(w, h, m) && cell_index(w, m) == i implies m == g by {
                        lemma_index(w, h, m);
                    }
                }
                let ghost old_edge = edge@;
                edge.push(g);
                proof {
                    lemma_push_contains(old_edge, g);
                }
            }
            k = k + 1;
        }
        let mut dist: u32 = 0;
        proof {
            assert forall|m: Location| loc_in_grid(w, h, m) && reach(w, h, cells, gs, 0).contains(m) implies (#[trigger] weights@[cell_index(w, m)]) is Some by {
                let j = choose|j: int| 0 <= j < goals@.len() && goals@[j] == m;
                assert(weights@[cell_index(w, goals@[j])] is Some);
            }
        }
        while dist + 1 < limit
            invariant
                world.wf(),
                w == world.spec_width(),
                h == world.spec_height(),
                cells == world.cells(),
                forall|g: Location| #[trigger] gs.contains(g) ==> loc_in_grid(w, h, g),
                weights@.len() == n,
                n == cells.len(),
                forall|m: Location| loc_in_grid(w, h, m) ==> 0 <= #[trigger] cell_index(w, m) < n && cell_loc(w, cell_index(w, m)) == m,
                dist < limit,
                forall|m: Location| loc_in_grid(w, h, m) && (#[trigger] weights@[cell_index(w, m)]) is Some ==> {
                    &&& weights@[cell_index(w, m)]->0 <= dist
                    &&& at_distance(w, h, cells, gs, m, weights@[cell_index(w, m)]->0 as nat)
                },
                forall|m: Location| loc_in_grid(w, h, m) && reach(w, h, cells, gs, dist as nat).contains(m) ==> (#[trigger] weights@[cell_index(w, m)]) is Some,
                forall|m: Location| #[trigger] edge@.contains(m) <==> (loc_in_grid(w, h, m) && weights@[cell_index(w, m)] == Some(dist)),
            decreases limit - dist,
        {
            let mut new_edge: Vec<Location> = Vec::new();
            let mut i: usize = 0;
            while i < edge.len()
                invariant
                    world.wf(),
                    w == world.spec_width(),
                    h == world.spec_height(),
                    cells == world.cells(),
                    forall|g: Location| #[trigger] gs.contains(g) ==> loc_in_grid(w, h, g),
                    weights@.len() == n,
                    n == cells.len(),
                    forall|m: Location| loc_in_grid(w, h, m) ==> 0 <= #[trigger] cell_index(w, m) < n && cell_loc(w, cell_index(w, m)) == m,
                forall|m: Location| loc_in_grid(w, h, m) ==> 0 <= #[trigger] cell_index(w, m) < n && cell_loc(w, cell_index(w, m)) == m,
                    dist + 1 < limit,
                    i <= edge@.len(),
                    forall|m: Location| loc_in_grid(w, h, m) && (#[trigger] weights@[cell_index(w, m)]) is Some ==> {
                        ||| (weights@[cell_index(w, m)]->0 <= dist && at_distance(w, h, cells, gs, m, weights@[cell_index(w, m)]->0 as nat))
                        ||| (weights@[cell_index(w, m)] == Some((dist + 1) as u32) && at_distance(w, h, cells, gs, m, (dist + 1) as nat))
                    },
                    forall|m: Location| loc_in_grid(w, h, m) && reach(w, h, cells, gs, dist as nat).contains(m) ==> (#[trigger] weights@[cell_index(w, m)]) is Some,
                    forall|m: Location| #[trigger] edge@.contains(m) <==> (loc_in_grid(w, h, m) && weights@[cell_index(w, m)] == Some(dist)),
                    forall|m: Location| #[trigger] new_edge@.contains(m) <==> (loc_in_grid(w, h, m) && weights@[cell_index(w, m)] == Some((dist + 1) as u32)),
                    forall|j: int, m: Location| 0 <= j < i && #[trigger] is_neighbor(w, h, edge@[j], m, true) && terrain_of(cells, w, m) == Terrain::Floor
                        ==> (#[trigger] weights@[cell_index(w, m)]) is Some,
                decreases edge@.len() - i,
            {
                let l = edge[i];
                assert(edge@.contains(l));
                let adj = world.get_adjacent(l, true);
                proof {
                    lemma_adjacent(w, h, l, true);
                    assert(reach(w, h, cells, gs, dist as nat).contains(l));
                }
                let mut j: usize = 0;
                while j < adj.len()
                    invariant
                        world.wf(),
                        w == world.spec_width(),
                        h == world.spec_height(),
                        cells == world.cells(),
                        forall|g: Location| #[trigger] gs.contains(g) ==> loc_in_grid(w, h, g),
                        weights@.len() == n,
                        n == cells.len(),
                        forall|m: Location| loc_in_grid(w, h, m) ==> 0 <= #[trigger] cell_index(w, m) < n && cell_loc(w, cell_index(w, m)) == m,
                    forall|m: Location| loc_in_grid(w, h, m) ==> 0 <= #[trigger] cell_index(w, m) < n && cell_loc(w, cell_index(w, m)) == m,
                forall|m: Location| loc_in_grid(w, h, m) ==> 0 <= #[trigger] cell_index(w, m) < n && cell_loc(w, cell_index(w, m)) == m,
                        dist + 1 < limit,
                        i < edge@.len(),
                        l == edge@[i as int],
                        reach(w, h, cells, gs, dist as nat).contains(l),
                        adj@ == adjacent_spec(w, h, l, true),
                        forall|m: Location| #[trigger] adj@.contains(m) <==> is_neighbor(w, h, l, m, true),
                        j <= adj@.len(),
                        forall|m: Location| loc_in_grid(w, h, m) && (#[trigger] weights@[cell_index(w, m)]) is Some ==> {
                            ||| (weights@[cell_index(w, m)]->0 <= dist && at_distance(w, h, cells, gs, m, weights@[cell_index(w, m)]->0 as nat))
                            ||| (weights@[cell_index(w, m)] == Some((dist + 1) as u32) && at_distance(w, h, cells, gs, m, (dist + 1) as nat))
                        },
                        forall|m: Location| loc_in_grid(w, h, m) && reach(w, h, cells, gs, dist as nat).contains(m) ==> (#[trigger] weights@[cell_index(w, m)]) is Some,
                        forall|m: Location| #[trigger] edge@.contains(m) <==> (loc_in_grid(w, h, m) && weights@[cell_index(w, m)] == Some(dist)),
                        forall|m: Location| #[trigger] new_edge@.contains(m) <==> (loc_in_grid(w, h, m) && weights@[cell_index(w, m)] == Some((dist + 1) as u32)),
                        forall|jj: int, m: Location| 0 <= jj < i && #[trigger] is_neighbor(w, h, edge@[jj], m, true) && terrain_of(cells, w, m) == Terrain::Floor
                            ==> (#[trigger] weights@[cell_index(w, m)]) is Some,
                        forall|q: int| 0 <= q < j && terrain_of(cells, w, #[trigger] adj@[q]) == Terrain::Floor ==> weights@[cell_index(w, adj@[q])] is Some,
                    decreases adj@.len() - j,
                {
                    let m = adj[j];
                    let ghost wbefore = weights@;
                    assert(adj@.contains(m));
                    proof {
                        lemma_index(w, h, m);
                    }
                    if world.get_tile(m).terrain == Terrain::Floor {
                        let im = world.index(m);
                        if weights[im].is_none() {
                            proof {
                                assert(!reach(w, h, cells, gs, dist as nat).contains(m));
                                assert(reach(w, h, cells, gs, (dist + 1) as nat).contains(m));
                            }
                            weights.set(im, Some(dist + 1));
                            proof {
                                assert forall|x: Location| loc_in_grid(w, h, x) && cell_index(w, x) == im implies x == m by {
                                    lemma_index(w, h, x);
                                }
                            }
                            let ghost old_new_edge = new_edge@;
                            new_edge.push(m);
                            proof {
                                lemma_push_contains(old_new_edge, m);
                            }
                        }
                    }
                    proof {
                        assert forall|q: int| 0 <= q < j + 1 && terrain_of(cells, w, #[trigger] adj@[q]) == Terrain::Floor implies weights@[cell_index(w, adj@[q])] is Some by {
                            assert(adj@.contains(adj@[q]));
                            if q < j {
                                assert(wbefore[cell_index(w, adj@[q])] is Some);
                            }
                        }
                    }
                    j = j + 1;
                }
                proof {
                    assert forall|jj: int, m: Location| 0 <= jj < i + 1 && #[trigger] is_neighbor(w, h, edge@[jj], m, true) && terrain_of(cells, w, m) == Terrain::Floor
                        implies (#[trigger] weights@[cell_index(w, m)]) is Some by {
                        if jj == i {
                            assert(adj@.contains(m));
                            let q = choose|q: int| 0 <= q < adj@.len() && adj@[q] == m;
                        }
                    }
                }
                i = i + 1;
            }
            proof {
                assert forall|m: Location| loc_in_grid(w, h, m) && reach(w, h, cells, gs, (dist + 1) as nat).contains(m) implies (#[trigger] weights@[cell_index(w, m)]) is Some by {
                    if !reach(w, h, cells, gs, dist as nat).contains(m) {
                        let l = choose|l: Location| #[trigger] reach(w, h, cells, gs, dist as nat).contains(l) && is_neighbor(w, h, l, m, true);
                        lemma_reach_in_grid(w, h, cells, gs, dist as nat);
                        let dl = weights@[cell_index(w, l)]->0;
                        if dl < dist {
                            assert(reach(w, h, cells, gs, dl as nat).contains(l));
                            assert(reach(w, h, cells, gs, (dl + 1) as nat).contains(m));
                            lemma_reach_mono(w, h, cells, gs, (dl + 1) as nat, dist as nat);
                        } else {
                            if weights@[cell_index(w, l)] == Some((dist + 1) as u32) {
                            }
                            assert(edge@.contains(l));
                            let jj = choose|jj: int| 0 <= jj < edge@.len() && edge@[jj] == l;
                            assert(is_neighbor(w, h, edge@[jj], m, true));
                        }
                    }
                }
            }
            edge = new_edge;
            dist = dist + 1;
        }
        let r = Dijkstra { weights: weights, world: world };
        assert forall|m: Location, d: nat| world.in_bounds(m) && d < limit && #[trigger] at_distance(w, h, cells, gs, m, d)
            implies r.distance(m) == Some(d as u32) by {
            lemma_reach_mono(w, h, cells, gs, d, dist as nat);
            let d2 = weights@[cell_index(w, m)]->0;
            lemma_distance_unique(w, h, cells, gs, m, d, d2 as nat);
        }
        r
    }

    /// The recorded distance of `loc`, if any.
    pub fn distance_at(&self, loc: &Location) -> (r: Option<u32>)
        ensures
            r == self.distance(*loc),
    {
        proof {
            use_type_invariant(self);
        }
        if loc.x >= 0 && loc.x < self.world.width() && loc.y >= 0 && loc.y < self.world.height() {
            let i = self.world.index(*loc);
            self.weights[i]
        } else {
            None
        }
    }

    /// `a` sorts before `b` among the neighbours of `node`: smaller distance
    /// first, and between equal distances, the neighbour order of `get_adjacent`.
    pub open spec fn key_before(&self, node: Location, a: Location, b: Location) -> bool {
        ||| self.distance(a)->0 < self.distance(b)->0
        ||| (self.distance(a)->0 == self.distance(b)->0 && offset_code(node, a) < offset_code(node, b))
    }

    /// The neighbours of `node` (diagonals included) that have a distance,
    /// from downhill to uphill; neighbours at equal distance keep the order
    /// of `get_adjacent`.
    pub fn sorted_neighbors(&self, node: &Location) -> (r: Vec<Location>)
        ensures
            forall|m: Location| #[trigger] r@.contains(m) <==> (is_neighbor(
                self.world().spec_width(),
                self.world().spec_height(),
                *node,
                m,
                true,
            ) && self.distance(m) is Some),
            forall|i: int, j: int| 0 <= i < j < r@.len() ==> self.key_before(*node, #[trigger] r@[i], #[trigger] r@[j]),
            forall|i: int, j: int| 0 <= i < j < r@.len() ==> self.distance(#[trigger] r@[i])->0 <= self.distance(#[trigger] r@[j])->0,
    {
        proof {
            use_type_invariant(self);
        }
        let ghost w = self.world.spec_width();
        let ghost h = self.world.spec_height();
        let adj = self.world.get_adjacent(*node, true);
        proof {
            lemma_adjacent(w, h, *node, true);
        }
        let mut ret: Vec<Location> = Vec::new();
        let mut ws: Vec<u32> = Vec::new();
        let mut k: usize = 0;
        while k < adj.len()
            invariant
                self.world.wf(),
                self.weights@.len() == self.world.cells().len(),
                w == self.world.spec_width(),
                h == self.world.spec_height(),
                adj@ == adjacent_spec(w, h, *node, true),
                forall|m: Location| #[trigger] adj@.contains(m) <==> is_neighbor(w, h, *node, m, true),
                forall|i: int, j: int| 0 <= i < j < adj@.len() ==> offset_code(*node, #[trigger] adj@[i]) < offset_code(*node, #[trigger] adj@[j]),
                k <= adj@.len(),
                ret@.len() == ws@.len(),
                forall|q: int| 0 <= q < ret@.len() ==> self.distance(#[trigger] ret@[q]) == Some(ws@[q]),
                forall|m: Location| #[trigger] ret@.contains(m) <==> (adj@.take(k as int).contains(m) && self.distance(m) is Some),
                forall|i: int, j: int| 0 <= i < j < ret@.len() ==> self.key_before(*node, #[trigger] ret@[i], #[trigger] ret@[j]),
            decreases adj@.len() - k,
        {
            let m = adj[k];
            assert(adj@.contains(m));
            proof {
                lemma_index(w, h, m);
                assert(adj@.take(k + 1) =~= adj@.take(k as int).push(m));
                lemma_push_contains(adj@.take(k as int), m);
                assert forall|q: int| 0 <= q < ret@.len() implies offset_code(*node, #[trigger] ret@[q]) < offset_code(*node, m) by {
                    assert(ret@.contains(ret@[q]));
                    let p = choose|p: int| 0 <= p < adj@.take(k as int).len() && adj@.take(k as int)[p] == ret@[q];
                    assert(adj@[p] == ret@[q]);
                }
            }
            let im = self.world.index(m);
            match self.weights[im] {
                Some(wm) => {
                    let mut p: usize = 0;
                    while p < ret.len() && ws[p] <= wm
                        invariant
                            p <= ret@.len(),
                            ret@.len() == ws@.len(),
                            forall|q: int| 0 <= q < p ==> ws@[q] <= wm,
                        decreases ret@.len() - p,
                    {
                        p = p + 1;
                    }
                    let ghost old_ret = ret@;
                    let ghost old_ws = ws@;
                    ret.insert(p, m);
                    ws.insert(p, wm);
                    proof {
                        old_ret.insert_ensures(p as int, m);
                        old_ws.insert_ensures(p as int, wm);
                        assert forall|q: int| 0 <= q < ret@.len() implies self.distance(#[trigger] ret@[q]) == Some(ws@[q]) by {
                            if q > p {
                                assert(ret@[q] == old_ret[q - 1]);
                                assert(ws@[q] == old_ws[q - 1]);
                            }
                        }
                        assert forall|x: Location| #[trigger] ret@.contains(x) <==> (old_ret.contains(x) || x == m) by {
                            if ret@.contains(x) {
                                let q = choose|q: int| 0 <= q < ret@.len() && ret@[q] == x;
                                if q < p {
                                    assert(old_ret[q] == x);
                                } else if q > p {
                                    assert(old_ret[q - 1] == x);
                                }
                            }
                            if old_ret.contains(x) {
                                let q = choose|q: int| 0 <= q < old_ret.len() && old_ret[q] == x;
                                if q < p {
                                    assert(ret@[q] == x);
                                } else {
                                    assert(ret@[q + 1] == x);
                                }
                            }
                            if x == m {
                                assert(ret@[p as int] == x);
                            }
                        }
                        assert forall|i: int, j: int| 0 <= i < j < ret@.len() implies self.key_before(*node, #[trigger] ret@[i], #[trigger] ret@[j]) by {
                            if j < p {
                                assert(ret@[i] == old_ret[i] && ret@[j] == old_ret[j]);
                            } else if j == p {
                                assert(ret@[i] == old_ret[i]);
                                assert(old_ws[i] <= wm);
                                assert(offset_code(*node, old_ret[i]) < offset_code(*node, m));
                            } else if i < p {
                                assert(ret@[i] == old_ret[i] && ret@[j] == old_ret[j - 1]);
                            } else if i == p {
                                assert(ret@[j] == old_ret[j - 1]);
                                assert(old_ws[p as int] > wm);
                                if j - 1 > p {
                                    assert(self.key_before(*node, old_ret[p as int], old_ret[j - 1]));
                                }
                            } else {
                                assert(ret@[i] == old_ret[i - 1] && ret@[j] == old_ret[j - 1]);
                            }
                        }
                    }
                },
                None => {},
            }
            k = k + 1;
        }
        assert(adj@.take(k as int) =~= adj@);
        ret
    }
}

/// The value of a cell that no goal reaches in `create_dijkstra_map`.
pub const UNREACHED: i32 = i32::MAX - 2;

/// The smallest value at the given locations; `i32::MAX` when there are none.
pub open spec fn min_over(d: Seq<int>, w: int, s: Seq<Location>) -> int
    decreases s.len(),
{
    if s.len() == 0 {
        i32::MAX as int
    } else {
        let rest = min_over(d, w, s.drop_last());
        let x = d[cell_index(w, s.last())];
        if x < rest {
            x
        } else {
            rest
        }
    }
}

/// The distance equations on a grid: goals are at 0; other cells that are not
/// floors are at `UNREACHED`; every other floor is one more than its
/// smallest neighbour (diagonals included), capped at `UNREACHED`.
pub open spec fn relaxed(w: int, h: int, cells: Seq<Tile>, goals: Set<Location>, d: Seq<int>) -> bool {
    &&& d.len() == w * h
    &&& forall|v: Location| loc_in_grid(w, h, v) ==> #[trigger] d[cell_index(w, v)] == if goals.contains(v) {
        0
    } else if terrain_of(cells, w, v) != Terrain::Floor {
        UNREACHED as int
    } else {
        let m = min_over(d, w, adjacent_spec(w, h, v, true)) + 1;
        if m < UNREACHED { m } else { UNREACHED as int }
    }
}

/// The entries of a matrix, as integers.
pub open spec fn matrix_seq(m: DistanceMatrix) -> Seq<int> {
    Seq::new(matrix_entries(m).len(), |i: int| matrix_entries(m)[i] as int)
}

/// The matrix holds `d` in row-major order.
pub open spec fn linked(m: DistanceMatrix, d: Seq<int>, w: int, n: int) -> bool {
    &&& d.len() == n
    &&& matrix_entries(m).len() == n
    &&& forall|i: int| 0 <= i < n ==> matrix_entries(m)[i] as int == #[trigger] d[i]
}

/// The sum of all values.
pub open spec fn total(d: Seq<int>) -> int
    decreases d.len(),
{
    if d.len() == 0 {
        0
    } else {
        total(d.drop_last()) + d.last()
    }
}

proof fn lemma_total_update(d: Seq<int>, i: int, v: int)
    requires
        0 <= i < d.len(),
    ensures
        total(d.update(i, v)) == total(d) - d[i] + v,
    decreases d.len(),
{
    if i < d.len() - 1 {
        assert(d.update(i, v).drop_last() =~= d.drop_last().update(i, v));
        lemma_total_update(d.drop_last(), i, v);
    } else {
        assert(d.update(i, v).drop_last() =~= d.drop_last());
    }
}

proof fn lemma_total_nonneg(d: Seq<int>)
    requires
        forall|i: int| 0 <= i < d.len() ==> d[i] >= 0,
    ensures
        total(d) >= 0,
    decreases d.len(),
{
    if d.len() > 0 {
        lemma_total_nonneg(d.drop_last());
    }
}

proof fn lemma_min_over_bounds(d: Seq<int>, w: int, s: Seq<Location>, lo: int)
    requires
        lo <= i32::MAX,
        forall|k: int| 0 <= k < s.len() ==> d[cell_index(w, #[trigger] s[k])] >= lo,
    ensures
        min_over(d, w, s) >= lo,
    decreases s.len(),
{
    if s.len() > 0 {
        assert forall|k: int| 0 <= k < s.drop_last().len() implies d[cell_index(w, #[trigger] s.drop_last()[k])] >= lo by {
            assert(s.drop_last()[k] == s[k]);
        }
        lemma_min_over_bounds(d, w, s.drop_last(), lo);
    }
}

proof fn lemma_min_over_lower(d: Seq<int>, e: Seq<int>, w: int, s: Seq<Location>)
    requires
        forall|k: int| 0 <= k < s.len() ==> e[cell_index(w, #[trigger] s[k])] <= d[cell_index(w, s[k])],
    ensures
        min_over(e, w, s) <= min_over(d, w, s),
    decreases s.len(),
{
    if s.len() > 0 {
        assert forall|k: int| 0 <= k < s.drop_last().len() implies e[cell_index(w, #[trigger] s.drop_last()[k])] <= d[cell_index(w, s.drop_last()[k])] by {
            assert(s.drop_last()[k] == s[k]);
        }
        lemma_min_over_lower(d, e, w, s.drop_last());
    }
}

proof fn lemma_min_over_same(d: Seq<int>, e: Seq<int>, w: int, s: Seq<Location>)
    requires
        forall|k: int| 0 <= k < s.len() ==> e[cell_index(w, #[trigger] s[k])] == d[cell_index(w, s[k])],
    ensures
        min_over(e, w, s) == min_over(d, w, s),
    decreases s.len(),
{
    if s.len() > 0 {
        assert forall|k: int| 0 <= k < s.drop_last().len() implies e[cell_index(w, #[trigger] s.drop_last()[k])] == d[cell_index(w, s.drop_last()[k])] by {
            assert(s.drop_last()[k] == s[k]);
        }
        lemma_min_over_same(d, e, w, s.drop_last());
    }
}

impl WorldMap {
    /// Distances to the nearest goal by repeated relaxation: goals start at 0
    /// and every other cell at `UNREACHED`; floors are lowered to one more
    /// than their smallest neighbour, row by row, until a whole sweep changes
    /// nothing. The result is indexed by (row, column), that is (y, x).
    pub fn create_dijkstra_map(&self, goals: &Vec<Location>) -> (r: DistanceMatrix)
        requires
            self.wf(),
            forall|k: int| 0 <= k < goals@.len() ==> self.in_bounds(#[trigger] goals@[k]),
        ensures
            matrix_shape(r) == (self.spec_height(), self.spec_width()),
            relaxed(
                self.spec_width(),
                self.spec_height(),
                self.cells(),
                goals@.to_set(),
                matrix_seq(r),
            ),
    {
        let ghost w = self.spec_width();
        let ghost h = self.spec_height();
        let ghost cells = self.cells();
        let ghost gs = goals@.to_set();
        let n = self.cell_count();
        let width = self.width() as usize;
        let height = self.height() as usize;
        proof {
            lemma_index_all(w, h);
            assert(h * w == w * h) by (nonlinear_arith);
        }
        let mut dmap = matrix_filled(height, width, UNREACHED);
        let ghost mut cur: Seq<int> = Seq::new(n as nat, |i: int| UNREACHED as int);
        proof {
            assert(linked(dmap, cur, w, n as int));
        }
        let mut k: usize = 0;
        while k < goals.len()
            invariant
                self.wf(),
                w == self.spec_width(),
                h == self.spec_height(),
                cells == self.cells(),
                gs == goals@.to_set(),
                n == w * h,
                width == w,
                height == h,
                forall|kk: int| 0 <= kk < goals@.len() ==> self.in_bounds(#[trigger] goals@[kk]),
                forall|m: Location| loc_in_grid(w, h, m) ==> 0 <= #[trigger] cell_index(w, m) < n && cell_loc(w, cell_index(w, m)) == m,
                matrix_shape(dmap) == (h, w),
                cur.len() == n,
                linked(dmap, cur, w, n as int),
                k <= goals@.len(),
                forall|v: Location| loc_in_grid(w, h, v) ==> #[trigger] cur[cell_index(w, v)] == if gs.contains(v) && exists|j: int| 0 <= j < k && goals@[j] == v { 0 } else { UNREACHED as int },
                forall|j: int| 0 <= j < k ==> #[trigger] cur[cell_index(w, goals@[j])] == 0,
                forall|i: int| 0 <= i < n ==> #[trigger] cur[i] == 0 || cur[i] == UNREACHED,
            decreases goals@.len() - k,
        {
            let g = goals[k];
            proof {
                lemma_index(w, h, g);
                assert(gs.contains(g));
            }
            matrix_set(&mut dmap, g.y as usize, g.x as usize, 0);
            let ghost gi = cell_index(w, g);
            proof {
                let old_cur = cur;
                cur = cur.update(gi, 0);
                assert(linked(dmap, cur, w, n as int));
                assert forall|v: Location| loc_in_grid(w, h, v) implies #[trigger] cur[cell_index(w, v)] == if gs.contains(v) && exists|j: int| 0 <= j < k + 1 && goals@[j] == v { 0 } else { UNREACHED as int } by {
                    if v == g {
                        assert(goals@[k as int] == v);
                    } else {
                        assert(cell_index(w, v) != gi);
                        if exists|j: int| 0 <= j < k + 1 && goals@[j] == v {
                            let j = choose|j: int| 0 <= j < k + 1 && goals@[j] == v;
                            assert(j < k);
                        }
                    }
                }
            }
            k = k + 1;
        }
        proof {
            assert forall|v: Location| loc_in_grid(w, h, v) implies #[trigger] cur[cell_index(w, v)] == if gs.contains(v) { 0 } else { UNREACHED as int } by {
                if gs.contains(v) {
                    let j = choose|j: int| 0 <= j < goals@.len() && goals@[j] == v;
                }
            }
            assert forall|v: Location| loc_in_grid(w, h, v) && !gs.contains(v) && terrain_of(cells, w, v) == Terrain::Floor implies
                #[trigger] cur[cell_index(w, v)] >= (if min_over(cur, w, adjacent_spec(w, h, v, true)) + 1 < UNREACHED { min_over(cur, w, adjacent_spec(w, h, v, true)) + 1 } else { UNREACHED as int }) by {
            }
        }
        let mut changed = true;
        while changed
            invariant
                self.wf(),
                w == self.spec_width(),
                h == self.spec_height(),
                cells == self.cells(),
                n == w * h,
                width == w,
                height == h,
                forall|m: Location| loc_in_grid(w, h, m) ==> 0 <= #[trigger] cell_index(w, m) < n && cell_loc(w, cell_index(w, m)) == m,
                matrix_shape(dmap) == (h, w),
                cur.len() == n,
                linked(dmap, cur, w, n as int),
                forall|i: int| 0 <= i < n ==> 0 <= #[trigger] cur[i] <= UNREACHED,
                forall|v: Location| loc_in_grid(w, h, v) && gs.contains(v) ==> #[trigger] cur[cell_index(w, v)] == 0,
                forall|v: Location| loc_in_grid(w, h, v) && !gs.contains(v) && terrain_of(cells, w, v) != Terrain::Floor ==> #[trigger] cur[cell_index(w, v)] == UNREACHED,
                forall|v: Location| loc_in_grid(w, h, v) && !gs.contains(v) && terrain_of(cells, w, v) == Terrain::Floor ==>
                    #[trigger] cur[cell_index(w, v)] >= (if min_over(cur, w, adjacent_spec(w, h, v, true)) + 1 < UNREACHED { min_over(cur, w, adjacent_spec(w, h, v, true)) + 1 } else { UNREACHED as int }),
                !changed ==> forall|v: Location| loc_in_grid(w, h, v) && !gs.contains(v) && terrain_of(cells, w, v) == Terrain::Floor ==>
                    #[trigger] cur[cell_index(w, v)] < min_over(cur, w, adjacent_spec(w, h, v, true)) + 2,
            decreases total(cur) + if changed { 1int } else { 0 },
        {
            proof {
                lemma_total_nonneg(cur);
            }
            let ghost pass_start = cur;
            changed = false;
            let mut i: usize = 0;
            while i < n
                invariant
                    self.wf(),
                    w == self.spec_width(),
                    h == self.spec_height(),
                        cells == self.cells(),
                    n == w * h,
                    width == w,
                    height == h,
                    forall|m: Location| loc_in_grid(w, h, m) ==> 0 <= #[trigger] cell_index(w, m) < n && cell_loc(w, cell_index(w, m)) == m,
                    matrix_shape(dmap) == (h, w),
                    cur.len() == n,
                    i <= n,
                    linked(dmap, cur, w, n as int),
                    forall|i: int| 0 <= i < n ==> 0 <= #[trigger] cur[i] <= UNREACHED,
                    forall|v: Location| loc_in_grid(w, h, v) && gs.contains(v) ==> #[trigger] cur[cell_index(w, v)] == 0,
                    forall|v: Location| loc_in_grid(w, h, v) && !gs.contains(v) && terrain_of(cells, w, v) != Terrain::Floor ==> #[trigger] cur[cell_index(w, v)] == UNREACHED,
                    forall|v: Location| loc_in_grid(w, h, v) && !gs.contains(v) && terrain_of(cells, w, v) == Terrain::Floor ==>
                        #[trigger] cur[cell_index(w, v)] >= (if min_over(cur, w, adjacent_spec(w, h, v, true)) + 1 < UNREACHED { min_over(cur, w, adjacent_spec(w, h, v, true)) + 1 } else { UNREACHED as int }),
                    changed ==> total(cur) < total(pass_start),
                    !changed ==> cur == pass_start,
                    !changed ==> forall|v: Location| loc_in_grid(w, h, v) && cell_index(w, v) < i && !gs.contains(v) && terrain_of(cells, w, v) == Terrain::Floor ==>
                        #[trigger] cur[cell_index(w, v)] < min_over(cur, w, adjacent_spec(w, h, v, true)) + 2,
                decreases n - i,
            {
                proof {
                    lemma_cell_index(w, h, cells, i as int);
                    lemma_key_in_range(w, h, i as int);
                }
                let loc = Location::new((i % width) as i32, (i / width) as i32);
                assert(loc == cells[i as int].loc);
                let tile = self.get_tile(loc);
                if tile.terrain == Terrain::Floor {
                    let adj = self.get_adjacent(loc, true);
                    proof {
                        lemma_adjacent(w, h, loc, true);
                    }
                    let mut smallest: i64 = i32::MAX as i64;
                    let mut a: usize = 0;
                    while a < adj.len()
                        invariant
                            w == self.spec_width(),
                            h == self.spec_height(),
                            n == w * h,
                            width == w,
                            forall|m: Location| loc_in_grid(w, h, m) ==> 0 <= #[trigger] cell_index(w, m) < n && cell_loc(w, cell_index(w, m)) == m,
                            matrix_shape(dmap) == (h, w),
                            cur.len() == n,
                            linked(dmap, cur, w, n as int),
                            adj@ == adjacent_spec(w, h, loc, true),
                            forall|m: Location| #[trigger] adj@.contains(m) <==> is_neighbor(w, h, loc, m, true),
                            a <= adj@.len(),
                            smallest == min_over(cur, w, adj@.take(a as int)),
                            smallest <= i32::MAX,
                        decreases adj@.len() - a,
                    {
                        let m = adj[a];
                        assert(adj@.contains(m));
                        proof {
                            lemma_index(w, h, m);
                            assert(adj@.take(a + 1).drop_last() =~= adj@.take(a as int));
                        }
                        let v = matrix_get(&dmap, m.y as usize, m.x as usize) as i64;
                        proof {
                            let mi = cell_index(w, m);
                            assert(mi / w == m.y && mi % w == m.x);
                        }
                        if v < smallest {
                            smallest = v;
                        }
                        a = a + 1;
                    }
                    proof {
                        assert(adj@.take(a as int) =~= adj@);
                        assert forall|kk: int| 0 <= kk < adj@.len() implies cur[cell_index(w, #[trigger] adj@[kk])] >= 0 by {
                            assert(adj@.contains(adj@[kk]));
                            lemma_index(w, h, adj@[kk]);
                        }
                        lemma_min_over_bounds(cur, w, adj@, 0);
                    }
                    let here = matrix_get(&dmap, loc.y as usize, loc.x as usize) as i64;
                    if here >= smallest + 2 {
                        let ghost old_cur = cur;
                        assert(here == old_cur[i as int]);
                        matrix_set(&mut dmap, loc.y as usize, loc.x as usize, (smallest + 1) as i32);
                        proof {
                            cur = cur.update(i as int, (smallest + 1) as int);
                            lemma_total_update(old_cur, i as int, (smallest + 1) as int);
                            assert(linked(dmap, cur, w, n as int));
                            assert forall|v: Location| loc_in_grid(w, h, v) && !gs.contains(v) && terrain_of(cells, w, v) == Terrain::Floor implies
                                #[trigger] cur[cell_index(w, v)] >= (if min_over(cur, w, adjacent_spec(w, h, v, true)) + 1 < UNREACHED { min_over(cur, w, adjacent_spec(w, h, v, true)) + 1 } else { UNREACHED as int }) by {
                                lemma_adjacent(w, h, v, true);
                                let s = adjacent_spec(w, h, v, true);
                                if v == loc {
                                    assert forall|kk: int| 0 <= kk < s.len() implies cur[cell_index(w, #[trigger] s[kk])] == old_cur[cell_index(w, s[kk])] by {
                                        assert(s.contains(s[kk]));
                                        lemma_index(w, h, s[kk]);
                                    }
                                    lemma_min_over_same(old_cur, cur, w, s);
                                } else {
                                    assert forall|kk: int| 0 <= kk < s.len() implies cur[cell_index(w, #[trigger] s[kk])] <= old_cur[cell_index(w, s[kk])] by {
                                        assert(s.contains(s[kk]));
                                        lemma_index(w, h, s[kk]);
                                    }
                                    lemma_min_over_lower(old_cur, cur, w, s);
                                    assert(cell_index(w, v) != i);
                                }
                            }
                        }
                        changed = true;
                    }
                }
                i = i + 1;
            }
            proof {
                lemma_total_nonneg(cur);
            }
        }
        proof {
            assert(matrix_seq(dmap) =~= cur);
        }
        dmap
    }
}

} // verus!
