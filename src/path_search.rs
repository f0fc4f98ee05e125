//! Best-first (A*) search for a path between two cells through open cells.

use vstd::prelude::*;
use vstd::set_lib::{lemma_int_range, lemma_len_subset, set_int_range};
use crate::tile::{manhattan_spec, Location, Terrain, Tile};
use crate::grid::{
    cell_index, cell_loc, is_neighbor, lemma_adjacent, lemma_cell_index, lemma_index,
    lemma_index_all, lemma_key_in_range, loc_in_grid, terrain_of,
};
use crate::world_map::WorldMap;

verus! {

/// A path may enter `m`: it is the goal or a `Nothing` cell.
pub open spec fn passable(w: int, cells: Seq<Tile>, goal: Location, m: Location) -> bool {
    m == goal || terrain_of(cells, w, m) == Terrain::Nothing
}

/// `p` leads from `start` to `goal` in cardinal steps, entering only
/// passable cells.
pub open spec fn is_path(w: int, h: int, cells: Seq<Tile>, start: Location, goal: Location, p: Seq<Location>) -> bool {
    &&& p.len() >= 1
    &&& p[0] == start
    &&& p[p.len() - 1] == goal
    &&& forall|i: int| 1 <= i < p.len() ==> #[trigger] is_neighbor(w, h, p[i - 1], p[i], false) && passable(w, cells, goal, p[i])
}

proof fn lemma_path_prefix_distance(w: int, h: int, cells: Seq<Tile>, start: Location, goal: Location, p: Seq<Location>, i: int)
    requires
        is_path(w, h, cells, start, goal, p),
        0 <= i < p.len(),
    ensures
        manhattan_spec(start, p[i]) <= i,
    decreases i,
{
    if i > 0 {
        lemma_path_prefix_distance(w, h, cells, start, goal, p, i - 1);
        assert(is_neighbor(w, h, p[i - 1], p[i], false));
    }
}

/// No path is shorter than the Manhattan distance: a path from `start` to
/// `goal` has at least `|dx| + |dy| + 1` cells.
pub proof fn lemma_path_length_at_least_manhattan(
    w: int,
    h: int,
    cells: Seq<Tile>,
    start: Location,
    goal: Location,
    p: Seq<Location>,
)
    requires
        is_path(w, h, cells, start, goal, p),
    ensures
        p.len() >= manhattan_spec(start, goal) + 1,
{
    lemma_path_prefix_distance(w, h, cells, start, goal, p, p.len() - 1);
}

proof fn lemma_closed_region(
    w: int,
    h: int,
    cells: Seq<Tile>,
    start: Location,
    goal: Location,
    closed: Seq<bool>,
    p: Seq<Location>,
    i: int,
)
    requires
        is_path(w, h, cells, start, goal, p),
        loc_in_grid(w, h, start),
        closed[cell_index(w, start)],
        forall|c: Location, m: Location| loc_in_grid(w, h, c) && closed[cell_index(w, c)] && #[trigger] is_neighbor(w, h, c, m, false) && passable(w, cells, goal, m)
            ==> closed[cell_index(w, m)],
        0 <= i < p.len(),
    ensures
        loc_in_grid(w, h, p[i]),
        closed[cell_index(w, p[i])],
    decreases i,
{
    if i > 0 {
        lemma_closed_region(w, h, cells, start, goal, closed, p, i - 1);
        assert(is_neighbor(w, h, p[i - 1], p[i], false));
    }
}

/// Row-major index of an in-grid location.
fn cell_index_exec(world: &WorldMap, loc: Location) -> (r: usize)
    requires
        world.wf(),
        world.in_bounds(loc),
    ensures
        r == cell_index(world.spec_width(), loc),
{
    world.index(loc)
}

/// `|dx| + |dy|` between two grid locations, as `u64`.
fn heuristic(a: Location, b: Location) -> (r: u64)
    requires
        a.x >= 0 && a.y >= 0 && b.x >= 0 && b.y >= 0,
    ensures
        r == manhattan_spec(a, b),
{
    let dx: u64 = if a.x > b.x { (a.x - b.x) as u64 } else { (b.x - a.x) as u64 };
    let dy: u64 = if a.y > b.y { (a.y - b.y) as u64 } else { (b.y - a.y) as u64 };
    dx + dy
}


/// The bookkeeping of one search: best known step counts, parent links,
/// closed cells and the open list of (estimate, cell) in insertion order.
struct SearchState {
    g: Vec<Option<usize>>,
    parent: Vec<Option<usize>>,
    closed: Vec<bool>,
    open: Vec<(u64, usize)>,
    closed_count: usize,
    closed_set: Ghost<Set<int>>,
}

/// Some open entry is for cell `i`.
spec fn in_open(open: Seq<(u64, usize)>, i: int) -> bool {
    exists|k: int| 0 <= k < open.len() && (#[trigger] open[k]).1 == i
}

impl SearchState {
    /// The invariant of the search, apart from the open entries of cell
    /// `skip` (a cell just taken off the open list) and from which cells
    /// the closed cells lead to.
    spec fn inv_core(&self, w: int, h: int, cells: Seq<Tile>, start: Location, goal: Location, skip: int) -> bool {
        let n = w * h;
        let g = self.g@;
        let parent = self.parent@;
        let closed = self.closed@;
        let open = self.open@;
        &&& g.len() == n
        &&& parent.len() == n
        &&& closed.len() == n
        &&& forall|i: int| #[trigger] self.closed_set@.contains(i) <==> (0 <= i < n && closed[i])
        &&& self.closed_set@.finite()
        &&& self.closed_count == self.closed_set@.len()
        &&& self.closed_count <= n
        &&& forall|i: int| 0 <= i < n && #[trigger] closed[i] ==> g[i] is Some
        &&& forall|i: int| 0 <= i < n && (#[trigger] parent[i]) is Some ==> {
            let p = parent[i]->0 as int;
            &&& 0 <= p < n
            &&& closed[p]
            &&& g[i] is Some
            &&& g[p] is Some
            &&& g[i]->0 == g[p]->0 + 1
            &&& is_neighbor(w, h, cell_loc(w, p), cell_loc(w, i), false)
            &&& passable(w, cells, goal, cell_loc(w, i))
        }
        &&& forall|i: int| 0 <= i < n && (#[trigger] g[i]) is Some && parent[i] is None ==> i == cell_index(w, start)
        &&& 0 <= cell_index(w, start) < n
        &&& 0 <= cell_index(w, goal) < n
        &&& g[cell_index(w, start)] == Some(0usize)
        &&& forall|i: int| 0 <= i < n && (#[trigger] g[i]) is Some ==> g[i]->0 <= self.closed_count
        &&& forall|k: int| 0 <= k < open.len() ==> (#[trigger] open[k]).1 < n && g[open[k].1 as int] is Some
        &&& forall|i: int| 0 <= i < n && i != skip && (#[trigger] g[i]) is Some && !closed[i] ==> in_open(open, i)
        &&& !closed[cell_index(w, goal)]
    }

    /// Every passable cardinal neighbour of a closed cell (other than the
    /// cell at `c_skip`) is closed or open, leaving out the cell at `m_skip`.
    spec fn covered(&self, w: int, h: int, cells: Seq<Tile>, goal: Location, c_skip: int, m_skip: int) -> bool {
        forall|c: Location, m: Location| loc_in_grid(w, h, c) && self.closed@[cell_index(w, c)] && cell_index(w, c) != c_skip
            && #[trigger] is_neighbor(w, h, c, m, false) && passable(w, cells, goal, m) && cell_index(w, m) != m_skip
            ==> self.closed@[cell_index(w, m)] || in_open(self.open@, cell_index(w, m))
    }

    spec fn inv_except(&self, w: int, h: int, cells: Seq<Tile>, start: Location, goal: Location, skip: int) -> bool {
        &&& self.inv_core(w, h, cells, start, goal, skip)
        &&& self.covered(w, h, cells, goal, -1, skip)
    }

    /// Closes the cell at `ci` and opens, or reopens with a shorter count,
    /// each of its passable cardinal neighbours that is not closed.
    #[verifier::rlimit(100)]
    fn expand(&mut self, world: &WorldMap, ci: usize, goal: Location, Ghost(start): Ghost<Location>)
        requires
            world.wf(),
            loc_in_grid(world.spec_width(), world.spec_height(), start),
            loc_in_grid(world.spec_width(), world.spec_height(), goal),
            world.spec_width() * world.spec_height() < 0x4000_0000_0000_0000,
            old(self).inv_except(world.spec_width(), world.spec_height(), world.cells(), start, goal, ci as int),
            0 <= ci < world.cells().len(),
            !old(self).closed@[ci as int],
            old(self).g@[ci as int] is Some,
            ci != cell_index(world.spec_width(), goal),
        ensures
            final(self).inv_except(world.spec_width(), world.spec_height(), world.cells(), start, goal, -1),
            final(self).closed_count == old(self).closed_count + 1,
    {
        let ghost w = world.spec_width();
        let ghost h = world.spec_height();
        let ghost cells = world.cells();
        let ghost n = w * h;
        proof {
            lemma_index_all(w, h);
            lemma_key_in_range(w, h, ci as int);
            lemma_cell_index(w, h, cells, ci as int);
            lemma_int_range(0, n);
        }
        let width = world.width() as usize;
        let c = Location::new((ci % width) as i32, (ci / width) as i32);
        assert(c == cell_loc(w, ci as int));
        let gc: usize = match self.g[ci] {
            Some(v) => v,
            None => 0,
        };
        self.closed.set(ci, true);
        proof {
            lemma_len_subset(self.closed_set@.insert(ci as int), set_int_range(0, n));
            self.closed_set = Ghost(self.closed_set@.insert(ci as int));
            assert forall|i: int| #[trigger] self.closed_set@.contains(i) <==> (0 <= i < n && self.closed@[i]) by {
            }
        }
        self.closed_count = self.closed_count + 1;
        let adj = world.get_adjacent(c, false);
        proof {
            lemma_adjacent(w, h, c, false);
        }
        let mut j: usize = 0;
        while j < adj.len()
            invariant
                world.wf(),
                w == world.spec_width(),
                h == world.spec_height(),
                cells == world.cells(),
                n == w * h,
                n < 0x4000_0000_0000_0000,
                loc_in_grid(w, h, goal),
                forall|m: Location| loc_in_grid(w, h, m) ==> 0 <= #[trigger] cell_index(w, m) < n && cell_loc(w, cell_index(w, m)) == m,
                0 <= ci < n,
                c == cell_loc(w, ci as int),
                loc_in_grid(w, h, c),
                cell_index(w, c) == ci,
                self.closed@[ci as int],
                self.g@[ci as int] == Some(gc),
                gc < self.closed_count,
                self.closed_count == old(self).closed_count + 1,
                self.inv_core(w, h, cells, start, goal, -1),
                self.covered(w, h, cells, goal, ci as int, -1),
                forall|m: Location| #[trigger] adj@.contains(m) <==> is_neighbor(w, h, c, m, false),
                j <= adj@.len(),
                forall|q: int| 0 <= q < j && passable(w, cells, goal, #[trigger] adj@[q]) ==> self.closed@[cell_index(w, adj@[q])] || in_open(self.open@, cell_index(w, adj@[q])),
            decreases adj@.len() - j,
        {
            let m = adj[j];
            assert(adj@.contains(m));
            let ghost old_open = self.open@;
            self.visit(world, ci, gc, m, goal, Ghost(start));
            proof {
                assert forall|q: int| 0 <= q < j + 1 && passable(w, cells, goal, #[trigger] adj@[q]) implies self.closed@[cell_index(w, adj@[q])] || in_open(self.open@, cell_index(w, adj@[q])) by {
                    if q < j && !self.closed@[cell_index(w, adj@[q])] {
                        assert(in_open(old_open, cell_index(w, adj@[q])));
                    }
                }
            }
            j = j + 1;
        }
        proof {
            assert forall|cc: Location, mm: Location| loc_in_grid(w, h, cc) && self.closed@[cell_index(w, cc)] && cell_index(w, cc) != -1
                && #[trigger] is_neighbor(w, h, cc, mm, false) && passable(w, cells, goal, mm) && cell_index(w, mm) != -1
                implies self.closed@[cell_index(w, mm)] || in_open(self.open@, cell_index(w, mm)) by {
                if cell_index(w, cc) == ci {
                    assert(cc == c);
                    assert(adj@.contains(mm));
                    let q = choose|q: int| 0 <= q < adj@.len() && adj@[q] == mm;
                }
            }
        }
    }

    /// Records the cell at `mi`, a neighbour of the closed cell at `ci`, as
    /// reached in `ng` steps through it, and opens it with estimate `f`.
    #[verifier::rlimit(100)]
    fn relax(
        &mut self,
        Ghost(w): Ghost<int>,
        Ghost(h): Ghost<int>,
        Ghost(cells): Ghost<Seq<Tile>>,
        Ghost(start): Ghost<Location>,
        goal: Location,
        ci: usize,
        mi: usize,
        ng: usize,
        f: u64,
    )
        requires
            old(self).inv_core(w, h, cells, start, goal, -1),
            old(self).covered(w, h, cells, goal, ci as int, -1),
            0 <= ci < w * h,
            0 <= mi < w * h,
            old(self).closed@[ci as int],
            !old(self).closed@[mi as int],
            old(self).g@[ci as int] is Some,
            ng == old(self).g@[ci as int]->0 + 1,
            ng <= old(self).closed_count,
            old(self).g@[mi as int] is None || ng < old(self).g@[mi as int]->0,
            is_neighbor(w, h, cell_loc(w, ci as int), cell_loc(w, mi as int), false),
            passable(w, cells, goal, cell_loc(w, mi as int)),
        ensures
            final(self).inv_core(w, h, cells, start, goal, -1),
            final(self).covered(w, h, cells, goal, ci as int, -1),
            final(self).closed == old(self).closed,
            final(self).closed_count == old(self).closed_count,
            final(self).g@[ci as int] == old(self).g@[ci as int],
            in_open(final(self).open@, mi as int),
            forall|i: int| in_open(old(self).open@, i) ==> #[trigger] in_open(final(self).open@, i),
    {
        let ghost before = *self;
        let ghost n = w * h;
        proof {
            assert forall|i: int| 0 <= i < n && (#[trigger] self.parent@[i]) is Some implies self.parent@[i]->0 != mi by {
            }
        }
        self.g.set(mi, Some(ng));
        self.parent.set(mi, Some(ci));
        let ghost old_open = self.open@;
        self.open.push((f, mi));
        proof {
            assert forall|i: int| in_open(old_open, i) implies #[trigger] in_open(self.open@, i) by {
                lemma_push_keeps(old_open, (f, mi), i);
            }
            lemma_push_keeps(old_open, (f, mi), mi as int);
            assert forall|i: int| 0 <= i < n && (#[trigger] self.g@[i]) is Some && !self.closed@[i] implies in_open(self.open@, i) by {
                if i != mi {
                    assert(before.g@[i] is Some);
                    assert(in_open(old_open, i));
                }
            }
            assert forall|k: int| 0 <= k < self.open@.len() implies (#[trigger] self.open@[k]).1 < n && self.g@[self.open@[k].1 as int] is Some by {
                if k < old_open.len() {
                    assert(self.open@[k] == old_open[k]);
                }
            }
            assert forall|i: int| 0 <= i < n && (#[trigger] self.parent@[i]) is Some implies ({
                let p = self.parent@[i]->0 as int;
                &&& 0 <= p < n
                &&& self.closed@[p]
                &&& self.g@[i] is Some
                &&& self.g@[p] is Some
                &&& self.g@[i]->0 == self.g@[p]->0 + 1
                &&& is_neighbor(w, h, cell_loc(w, p), cell_loc(w, i), false)
                &&& passable(w, cells, goal, cell_loc(w, i))
            }) by {
                if i != mi {
                    assert(before.parent@[i] is Some);
                }
            }
            assert forall|i: int| 0 <= i < n && (#[trigger] self.g@[i]) is Some && self.parent@[i] is None implies i == cell_index(w, start) by {
                if i != mi {
                    assert(before.g@[i] is Some);
                }
            }
            assert forall|i: int| 0 <= i < n && (#[trigger] self.g@[i]) is Some implies self.g@[i]->0 <= self.closed_count by {
                if i != mi {
                    assert(before.g@[i] is Some);
                }
            }
            assert(before.g@[cell_index(w, start)] == Some(0usize));
            assert(mi != cell_index(w, start));
            assert(self.g@[cell_index(w, start)] == Some(0usize));
            assert forall|cc: Location, mm: Location| loc_in_grid(w, h, cc) && self.closed@[cell_index(w, cc)] && cell_index(w, cc) != ci
                && #[trigger] is_neighbor(w, h, cc, mm, false) && passable(w, cells, goal, mm) && cell_index(w, mm) != -1
                implies self.closed@[cell_index(w, mm)] || in_open(self.open@, cell_index(w, mm)) by {
                if !self.closed@[cell_index(w, mm)] {
                    assert(in_open(old_open, cell_index(w, mm)));
                }
            }
        }
    }

    /// Looks at `m`, a cardinal neighbour of the closed cell at `ci`: when it
    /// is passable, not closed, and reached in fewer steps than known, it is
    /// recorded and opened.
    #[verifier::rlimit(100)]
    fn visit(&mut self, world: &WorldMap, ci: usize, gc: usize, m: Location, goal: Location, Ghost(start): Ghost<Location>)
        requires
            world.wf(),
            loc_in_grid(world.spec_width(), world.spec_height(), goal),
            world.spec_width() * world.spec_height() < 0x4000_0000_0000_0000,
            old(self).inv_core(world.spec_width(), world.spec_height(), world.cells(), start, goal, -1),
            old(self).covered(world.spec_width(), world.spec_height(), world.cells(), goal, ci as int, -1),
            0 <= ci < world.cells().len(),
            old(self).closed@[ci as int],
            old(self).g@[ci as int] == Some(gc),
            gc < old(self).closed_count,
            is_neighbor(world.spec_width(), world.spec_height(), cell_loc(world.spec_width(), ci as int), m, false),
        ensures
            final(self).inv_core(world.spec_width(), world.spec_height(), world.cells(), start, goal, -1),
            final(self).covered(world.spec_width(), world.spec_height(), world.cells(), goal, ci as int, -1),
            final(self).closed == old(self).closed,
            final(self).closed_count == old(self).closed_count,
            final(self).g@[ci as int] == old(self).g@[ci as int],
            passable(world.spec_width(), world.cells(), goal, m) ==> final(self).closed@[cell_index(world.spec_width(), m)] || in_open(
                final(self).open@,
                cell_index(world.spec_width(), m),
            ),
            forall|i: int| in_open(old(self).open@, i) ==> #[trigger] in_open(final(self).open@, i),
    {
        let ghost w = world.spec_width();
        let ghost h = world.spec_height();
        let ghost cells = world.cells();
        proof {
            lemma_index(w, h, m);
            lemma_index(w, h, goal);
        }
        let mi = world.index(m);
        if !self.closed[mi] && (mi == cell_index_exec(world, goal) || world.get_tile(m).terrain == Terrain::Nothing) {
            let ng = gc + 1;
            let better = match self.g[mi] {
                Some(old) => ng < old,
                None => true,
            };
            if better {
                let f = ng as u64 + heuristic(m, goal);
                self.relax(Ghost(w), Ghost(h), Ghost(cells), Ghost(start), goal, ci, mi, ng, f);
            } else {
                assert(self.g@[mi as int] is Some);
            }
        }
    }

    /// Takes the next cell off the open list.
    #[verifier::rlimit(100)]
    fn take_next(
        &mut self,
        Ghost(w): Ghost<int>,
        Ghost(h): Ghost<int>,
        Ghost(cells): Ghost<Seq<Tile>>,
        Ghost(start): Ghost<Location>,
        goal: Location,
    ) -> (ci: usize)
        requires
            old(self).inv_except(w, h, cells, start, goal, -1),
            old(self).open@.len() > 0,
        ensures
            final(self).inv_except(w, h, cells, start, goal, ci as int),
            0 <= ci < w * h,
            final(self).g@[ci as int] is Some,
            final(self).closed_count == old(self).closed_count,
            final(self).open@.len() == old(self).open@.len() - 1,
    {
        let ghost before = *self;
        let ghost n = w * h;
        let ci = self.pop_min();
        proof {
            let b = choose|b: int| 0 <= b < before.open@.len() && before.open@[b].1 == ci && self.open@ == before.open@.remove(b);
            assert forall|k: int| 0 <= k < self.open@.len() implies (#[trigger] self.open@[k]).1 < n && self.g@[self.open@[k].1 as int] is Some by {
                if k < b {
                    assert(self.open@[k] == before.open@[k]);
                } else {
                    assert(self.open@[k] == before.open@[k + 1]);
                }
            }
            assert forall|i: int| 0 <= i < n && i != ci && (#[trigger] self.g@[i]) is Some && !self.closed@[i] implies in_open(self.open@, i) by {
                assert(in_open(before.open@, i));
                lemma_remove_keeps_others(before.open@, b, i);
            }
            assert forall|c: Location, m: Location| loc_in_grid(w, h, c) && self.closed@[cell_index(w, c)] && cell_index(w, c) != -1
                && #[trigger] is_neighbor(w, h, c, m, false) && passable(w, cells, goal, m) && cell_index(w, m) != ci
                implies self.closed@[cell_index(w, m)] || in_open(self.open@, cell_index(w, m)) by {
                if !self.closed@[cell_index(w, m)] {
                    lemma_remove_keeps_others(before.open@, b, cell_index(w, m));
                }
            }
            assert(before.open@[b].1 < n);
        }
        ci
    }

    /// Takes the first entry of smallest estimate off the open list.
    fn pop_min(&mut self) -> (r: usize)
        requires
            old(self).open@.len() > 0,
        ensures
            final(self).g == old(self).g,
            final(self).parent == old(self).parent,
            final(self).closed == old(self).closed,
            final(self).closed_count == old(self).closed_count,
            final(self).closed_set == old(self).closed_set,
            exists|b: int| 0 <= b < old(self).open@.len() && old(self).open@[b].1 == r && final(self).open@ == old(self).open@.remove(b),
    {
        let mut best: usize = 0;
        let mut k: usize = 1;
        while k < self.open.len()
            invariant
                0 <= best < self.open@.len(),
                1 <= k <= self.open@.len(),
            decreases self.open@.len() - k,
        {
            if self.open[k].0 < self.open[best].0 {
                best = k;
            }
            k = k + 1;
        }
        let (_, ci) = self.open.remove(best);
        ci
    }
}

proof fn lemma_remove_keeps_others(open: Seq<(u64, usize)>, b: int, i: int)
    requires
        0 <= b < open.len(),
        in_open(open, i),
        open[b].1 != i,
    ensures
        in_open(open.remove(b), i),
{
    let k = choose|k: int| 0 <= k < open.len() && (#[trigger] open[k]).1 == i;
    if k < b {
        assert(open.remove(b)[k] == open[k]);
    } else {
        assert(open.remove(b)[k - 1] == open[k]);
    }
}

proof fn lemma_push_keeps(open: Seq<(u64, usize)>, e: (u64, usize), i: int)
    requires
        in_open(open, i) || e.1 == i,
    ensures
        in_open(open.push(e), i),
{
    if e.1 == i {
        assert(open.push(e)[open.len() as int] == e);
    } else {
        let k = choose|k: int| 0 <= k < open.len() && (#[trigger] open[k]).1 == i;
        assert(open.push(e)[k] == open[k]);
    }
}

impl WorldMap {
    /// A* from `start` to `goal` with unit steps between cardinal neighbours,
    /// entering only `Nothing` cells and the goal, guided by the Manhattan
    /// distance to the goal. Among open cells of equal estimate the one found
    /// first is taken. Returns the cells from `start` to `goal`, both
    /// included, or `None` when no such path exists.
    #[verifier::rlimit(100)]
    pub fn find_path(&self, start: Location, goal: Location) -> (r: Option<Vec<Location>>)
        requires
            self.wf(),
            self.in_bounds(start),
            self.in_bounds(goal),
        ensures
            r matches Some(p) ==> is_path(self.spec_width(), self.spec_height(), self.cells(), start, goal, p@),
            r is None ==> forall|p: Seq<Location>| !is_path(self.spec_width(), self.spec_height(), self.cells(), start, goal, p),
    {
        let ghost w = self.spec_width();
        let ghost h = self.spec_height();
        let ghost cells = self.cells();
        let n = self.cell_count();
        let width = self.width() as usize;
        proof {
            lemma_index_all(w, h);
            lemma_index(w, h, start);
            lemma_index(w, h, goal);
            assert(w * h < 0x4000_0000_0000_0000) by (nonlinear_arith)
                requires 0 < w <= i32::MAX, 0 < h <= i32::MAX;
        }
        let si = self.index(start);
        let gi = self.index(goal);
        let mut g: Vec<Option<usize>> = Vec::new();
        let mut parent: Vec<Option<usize>> = Vec::new();
        let mut closed: Vec<bool> = Vec::new();
        while g.len() < n
            invariant
                g@.len() <= n,
                parent@.len() == g@.len(),
                closed@.len() == g@.len(),
                forall|i: int| 0 <= i < g@.len() ==> #[trigger] g@[i] is None,
                forall|i: int| 0 <= i < g@.len() ==> #[trigger] parent@[i] is None,
                forall|i: int| 0 <= i < g@.len() ==> !#[trigger] closed@[i],
            decreases n - g@.len(),
        {
            g.push(None);
            parent.push(None);
            closed.push(false);
        }
        g.set(si, Some(0));
        let mut open: Vec<(u64, usize)> = Vec::new();
        open.push((heuristic(start, goal), si));
        let mut state = SearchState {
            g: g,
            parent: parent,
            closed: closed,
            open: open,
            closed_count: 0,
            closed_set: Ghost(Set::empty()),
        };
        proof {
            assert(state.closed_set@.len() == 0);
            assert(in_open(state.open@, si as int)) by {
                assert(state.open@[0].1 == si);
            }
            assert(state.inv_except(w, h, cells, start, goal, -1));
        }
        while state.open.len() > 0
            invariant
                self.wf(),
                w == self.spec_width(),
                h == self.spec_height(),
                cells == self.cells(),
                n == w * h,
                n < 0x4000_0000_0000_0000,
                si == cell_index(w, start),
                gi == cell_index(w, goal),
                loc_in_grid(w, h, start),
                loc_in_grid(w, h, goal),
                forall|m: Location| loc_in_grid(w, h, m) ==> 0 <= #[trigger] cell_index(w, m) < n && cell_loc(w, cell_index(w, m)) == m,
                state.inv_except(w, h, cells, start, goal, -1),
            decreases n - state.closed_count, state.open@.len(),
        {
            let ci = state.take_next(Ghost(w), Ghost(h), Ghost(cells), Ghost(start), goal);
            if !state.closed[ci] {
                assert(state.g@[ci as int] is Some);
                if ci == gi {
                    return Some(self.trace_back(&state.parent, &state.g, start, goal, gi));
                }
                state.expand(self, ci, goal, Ghost(start));
            }
        }
        proof {
            assert(in_open(state.open@, si as int) ==> false);
            assert forall|c: Location, m: Location| loc_in_grid(w, h, c) && state.closed@[cell_index(w, c)] && #[trigger] is_neighbor(w, h, c, m, false) && passable(w, cells, goal, m)
                implies state.closed@[cell_index(w, m)] by {
                assert(cell_index(w, m) != -1);
                if !state.closed@[cell_index(w, m)] {
                    assert(!in_open(state.open@, cell_index(w, m)));
                }
            }
            assert forall|p: Seq<Location>| !is_path(w, h, cells, start, goal, p) by {
                if is_path(w, h, cells, start, goal, p) {
                    lemma_closed_region(w, h, cells, start, goal, state.closed@, p, p.len() - 1);
                }
            }
        }
        None
    }

    /// The path from `start` to the cell at index `gi`, read back along the
    /// parent links.
    fn trace_back(
        &self,
        parent: &Vec<Option<usize>>,
        g: &Vec<Option<usize>>,
        start: Location,
        goal: Location,
        gi: usize,
    ) -> (r: Vec<Location>)
        requires
            self.wf(),
            loc_in_grid(self.spec_width(), self.spec_height(), start),
            loc_in_grid(self.spec_width(), self.spec_height(), goal),
            gi == cell_index(self.spec_width(), goal),
            g@.len() == self.cells().len(),
            parent@.len() == self.cells().len(),
            g@[gi as int] is Some,
            forall|i: int| 0 <= i < g@.len() && (#[trigger] parent@[i]) is Some ==> {
                let p = parent@[i]->0 as int;
                &&& 0 <= p < g@.len()
                &&& g@[i] is Some
                &&& g@[p] is Some
                &&& g@[i]->0 == g@[p]->0 + 1
                &&& is_neighbor(self.spec_width(), self.spec_height(), cell_loc(self.spec_width(), p), cell_loc(self.spec_width(), i), false)
                &&& passable(self.spec_width(), self.cells(), goal, cell_loc(self.spec_width(), i))
            },
            forall|i: int| 0 <= i < g@.len() && (#[trigger] g@[i]) is Some && parent@[i] is None ==> i == cell_index(self.spec_width(), start),
        ensures
            is_path(self.spec_width(), self.spec_height(), self.cells(), start, goal, r@),
    {
        let ghost w = self.spec_width();
        let ghost h = self.spec_height();
        let ghost cells = self.cells();
        proof {
            lemma_index_all(w, h);
        }
        let mut rev: Vec<Location> = Vec::new();
        rev.push(goal);
        let mut cur = gi;
        while parent[cur].is_some()
            invariant
                self.wf(),
                w == self.spec_width(),
                h == self.spec_height(),
                cells == self.cells(),
                g@.len() == cells.len(),
                parent@.len() == cells.len(),
                forall|m: Location| loc_in_grid(w, h, m) ==> 0 <= #[trigger] cell_index(w, m) < cells.len() && cell_loc(w, cell_index(w, m)) == m,
                forall|i: int| 0 <= i < g@.len() && (#[trigger] parent@[i]) is Some ==> {
                    let p = parent@[i]->0 as int;
                    &&& 0 <= p < g@.len()
                    &&& g@[i] is Some
                    &&& g@[p] is Some
                    &&& g@[i]->0 == g@[p]->0 + 1
                    &&& is_neighbor(w, h, cell_loc(w, p), cell_loc(w, i), false)
                    &&& passable(w, cells, goal, cell_loc(w, i))
                },
                0 <= cur < g@.len(),
                g@[cur as int] is Some,
                rev@.len() >= 1,
                rev@[0] == goal,
                rev@[rev@.len() - 1] == cell_loc(w, cur as int),
                forall|k: int| 0 <= k < rev@.len() - 1 ==> #[trigger] is_neighbor(w, h, rev@[k + 1], rev@[k], false) && passable(w, cells, goal, rev@[k]),
                gi == cell_index(w, goal),
                loc_in_grid(w, h, goal),
            decreases g@[cur as int]->0,
        {
            let p = match parent[cur] { Some(v) => v, None => 0 };
            proof {
                lemma_key_in_range(w, h, p as int);
            }
            let pl = Location::new((p % (self.width() as usize)) as i32, (p / (self.width() as usize)) as i32);
            assert(pl == cell_loc(w, p as int));
            let ghost old_rev = rev@;
            rev.push(pl);
            proof {
                assert forall|k: int| 0 <= k < rev@.len() - 1 implies #[trigger] is_neighbor(w, h, rev@[k + 1], rev@[k], false) && passable(w, cells, goal, rev@[k]) by {
                    if k < old_rev.len() - 1 {
                        assert(rev@[k + 1] == old_rev[k + 1] && rev@[k] == old_rev[k]);
                    } else {
                        assert(rev@[k] == cell_loc(w, cur as int));
                        assert(parent@[cur as int] is Some);
                    }
                }
            }
            cur = p;
        }
        assert(cur == cell_index(w, start));
        let mut path: Vec<Location> = Vec::new();
        let mut k: usize = rev.len();
        while k > 0
            invariant
                k <= rev@.len(),
                rev@.len() >= 1,
                path@.len() == rev@.len() - k,
                forall|i: int| 0 <= i < path@.len() ==> #[trigger] path@[i] == rev@[rev@.len() - 1 - i],
            decreases k,
        {
            k = k - 1;
            path.push(rev[k]);
        }
        proof {
            let len = rev@.len();
            assert(path@[0] == rev@[len - 1]);
            assert(rev@[len - 1] == start);
            assert(path@[len - 1] == rev@[0]);
            assert forall|i: int| 1 <= i < path@.len() implies #[trigger] is_neighbor(w, h, path@[i - 1], path@[i], false) && passable(w, cells, goal, path@[i]) by {
                let kk = len - 1 - i;
                assert(path@[i - 1] == rev@[kk + 1]);
                assert(path@[i] == rev@[kk]);
            }
            assert(is_path(w, h, cells, start, goal, path@));
        }
        path
    }
}

} // verus!
