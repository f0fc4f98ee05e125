//! Mathematical model of the dense tile grid: indexing, adjacency and the
//! whole-grid passes, stated over plain sequences of tiles.

use vstd::prelude::*;
use vstd::arithmetic::div_mod::lemma_fundamental_div_mod_converse;
use crate::tile::{abs_int, Location, Terrain, Tile};

verus! {

/// `(x, y)` lies on a `w` by `h` grid.
pub open spec fn in_grid(w: int, h: int, x: int, y: int) -> bool {
    0 <= x < w && 0 <= y < h
}

/// `loc` lies on a `w` by `h` grid.
pub open spec fn loc_in_grid(w: int, h: int, loc: Location) -> bool {
    in_grid(w, h, loc.x as int, loc.y as int)
}

/// Row-major index of a location.
pub open spec fn cell_index(w: int, loc: Location) -> int {
    loc.y * w + loc.x
}

/// The location stored at row-major index `i`.
pub open spec fn cell_loc(w: int, i: int) -> Location {
    Location { x: (i % w) as i32, y: (i / w) as i32 }
}

/// Grid contents of a `w` by `h` grid: one tile per cell, in row-major order,
/// each carrying its own location.
pub open spec fn grid_wf(w: int, h: int, cells: Seq<Tile>) -> bool {
    &&& 0 < w <= i32::MAX
    &&& 0 < h <= i32::MAX
    &&& w * h <= usize::MAX
    &&& cells.len() == w * h
    &&& forall|i: int| 0 <= i < cells.len() ==> (#[trigger] cells[i]).loc == cell_loc(w, i)
}

/// The terrain stored for `loc`.
pub open spec fn terrain_of(cells: Seq<Tile>, w: int, loc: Location) -> Terrain {
    cells[cell_index(w, loc)].terrain
}

/// `m` is on the grid, differs from `loc`, and is one step away from it:
/// in any of the eight directions when `diag`, else in one of the four
/// cardinal ones.
pub open spec fn is_neighbor(w: int, h: int, loc: Location, m: Location, diag: bool) -> bool {
    &&& loc_in_grid(w, h, m)
    &&& m != loc
    &&& abs_int(m.x - loc.x) <= 1
    &&& abs_int(m.y - loc.y) <= 1
    &&& (diag || m.x == loc.x || m.y == loc.y)
}

/// Horizontal step of the `k`-th offset, `k` in `0..9`.
pub open spec fn offset_dx(k: int) -> int {
    k / 3 - 1
}

/// Vertical step of the `k`-th offset, `k` in `0..9`.
pub open spec fn offset_dy(k: int) -> int {
    k % 3 - 1
}

/// The `k`-th offset is listed for `loc`.
pub open spec fn keeps(w: int, h: int, loc: Location, diag: bool, k: int) -> bool {
    &&& k != 4
    &&& (diag || offset_dx(k) == 0 || offset_dy(k) == 0)
    &&& in_grid(w, h, loc.x + offset_dx(k), loc.y + offset_dy(k))
}

/// `loc` moved by the `k`-th offset.
pub open spec fn neighbor_at(loc: Location, k: int) -> Location {
    Location { x: (loc.x + offset_dx(k)) as i32, y: (loc.y + offset_dy(k)) as i32 }
}

/// The listed neighbours among the first `k` offsets.
pub open spec fn adjacent_upto(w: int, h: int, loc: Location, diag: bool, k: int) -> Seq<Location>
    decreases k,
{
    if k <= 0 {
        Seq::empty()
    } else {
        let prev = adjacent_upto(w, h, loc, diag, k - 1);
        if keeps(w, h, loc, diag, k - 1) {
            prev.push(neighbor_at(loc, k - 1))
        } else {
            prev
        }
    }
}

/// The neighbours of `loc` on the grid, by horizontal step -1, 0, 1 and
/// within each by vertical step -1, 0, 1; diagonal ones only when `diag`.
pub open spec fn adjacent_spec(w: int, h: int, loc: Location, diag: bool) -> Seq<Location> {
    adjacent_upto(w, h, loc, diag, 9)
}

/// Position of `m` in the offset order around `loc`.
pub open spec fn offset_code(loc: Location, m: Location) -> int {
    (m.x - loc.x + 1) * 3 + (m.y - loc.y + 1)
}

proof fn lemma_adjacent_upto(w: int, h: int, loc: Location, diag: bool, k: int)
    requires
        w <= i32::MAX,
        h <= i32::MAX,
        0 <= k <= 9,
    ensures
        forall|m: Location| #[trigger] adjacent_upto(w, h, loc, diag, k).contains(m) <==> (
        is_neighbor(w, h, loc, m, diag) && offset_code(loc, m) < k),
        forall|i: int, j: int| 0 <= i < j < adjacent_upto(w, h, loc, diag, k).len() ==>
            offset_code(loc, #[trigger] adjacent_upto(w, h, loc, diag, k)[i]) < offset_code(
            loc,
            #[trigger] adjacent_upto(w, h, loc, diag, k)[j],
        ),
        forall|i: int| 0 <= i < adjacent_upto(w, h, loc, diag, k).len() ==> offset_code(
            loc,
            #[trigger] adjacent_upto(w, h, loc, diag, k)[i],
        ) < k,
        adjacent_upto(w, h, loc, diag, k).len() <= k,
    decreases k,
{
    if k > 0 {
        lemma_adjacent_upto(w, h, loc, diag, k - 1);
        let prev = adjacent_upto(w, h, loc, diag, k - 1);
        let cur = adjacent_upto(w, h, loc, diag, k);
        let p = neighbor_at(loc, k - 1);
        lemma_fundamental_div_mod_converse(k - 1, 3, (k - 1) / 3, (k - 1) % 3);
        if keeps(w, h, loc, diag, k - 1) {
            assert(offset_code(loc, p) == k - 1);
            assert(is_neighbor(w, h, loc, p, diag));
        }
        assert forall|m: Location| #[trigger] cur.contains(m) <==> (is_neighbor(w, h, loc, m, diag)
            && offset_code(loc, m) < k) by {
            if is_neighbor(w, h, loc, m, diag) && offset_code(loc, m) == k - 1 {
                lemma_fundamental_div_mod_converse(k - 1, 3, m.x - loc.x + 1, m.y - loc.y + 1);
                assert(m == p);
                assert(keeps(w, h, loc, diag, k - 1));
                assert(cur[cur.len() - 1] == m);
            }
            if cur.contains(m) {
                let i = choose|i: int| 0 <= i < cur.len() && cur[i] == m;
                if i < prev.len() {
                    assert(prev[i] == m);
                }
            }
            if prev.contains(m) {
                let i = choose|i: int| 0 <= i < prev.len() && prev[i] == m;
                assert(cur[i] == m);
            }
        }
    }
}

/// What `get_adjacent` lists: exactly the neighbours, each once.
pub proof fn lemma_adjacent(w: int, h: int, loc: Location, diag: bool)
    requires
        w <= i32::MAX,
        h <= i32::MAX,
    ensures
        forall|m: Location| #[trigger] adjacent_spec(w, h, loc, diag).contains(m) <==> is_neighbor(w, h, loc, m, diag),
        adjacent_spec(w, h, loc, diag).no_duplicates(),
        adjacent_spec(w, h, loc, diag).len() <= 9,
        forall|i: int, j: int| 0 <= i < j < adjacent_spec(w, h, loc, diag).len() ==>
            offset_code(loc, #[trigger] adjacent_spec(w, h, loc, diag)[i]) < offset_code(
            loc,
            #[trigger] adjacent_spec(w, h, loc, diag)[j],
        ),
{
    lemma_adjacent_upto(w, h, loc, diag, 9);
    let s = adjacent_spec(w, h, loc, diag);
    assert forall|m: Location| #[trigger] s.contains(m) <==> is_neighbor(w, h, loc, m, diag) by {
        if is_neighbor(w, h, loc, m, diag) {
            assert(offset_code(loc, m) < 9);
        }
    }
    assert forall|i: int, j: int| 0 <= i < s.len() && 0 <= j < s.len() && i != j implies s[i] != s[j] by {
        if i < j {
            assert(offset_code(loc, s[i]) < offset_code(loc, s[j]));
        } else {
            assert(offset_code(loc, s[j]) < offset_code(loc, s[i]));
        }
    }
}

/// Location and index agree on an in-grid cell.
pub proof fn lemma_index(w: int, h: int, loc: Location)
    requires
        0 < w,
        0 < h,
        loc_in_grid(w, h, loc),
    ensures
        0 <= cell_index(w, loc) < w * h,
        cell_loc(w, cell_index(w, loc)) == loc,
        cell_index(w, loc) / w == loc.y,
        cell_index(w, loc) % w == loc.x,
{
    let i = cell_index(w, loc);
    assert(loc.y * w + loc.x < w * h) by (nonlinear_arith)
        requires 0 <= loc.x < w, 0 <= loc.y < h;
    assert(0 <= loc.y * w) by (nonlinear_arith)
        requires 0 <= loc.y, 0 < w;
    lemma_fundamental_div_mod_converse(i, w, loc.y as int, loc.x as int);
}

/// What a sequence holds after a push.
pub proof fn lemma_push_contains<A>(s: Seq<A>, a: A)
    ensures
        forall|x: A| #[trigger] s.push(a).contains(x) <==> (s.contains(x) || x == a),
{
    assert forall|x: A| #[trigger] s.push(a).contains(x) <==> (s.contains(x) || x == a) by {
        if s.contains(x) {
            let k = choose|k: int| 0 <= k < s.len() && s[k] == x;
            assert(s.push(a)[k] == x);
        }
        if x == a {
            assert(s.push(a)[s.len() as int] == x);
        }
        if s.push(a).contains(x) {
            let k = choose|k: int| 0 <= k < s.push(a).len() && s.push(a)[k] == x;
            if k < s.len() {
                assert(s[k] == x);
            }
        }
    }
}

/// Row and column of an index in range are in range.
pub proof fn lemma_key_in_range(w: int, h: int, i: int)
    requires
        0 < w,
        0 < h,
        0 <= i < w * h,
    ensures
        0 <= i / w < h,
        0 <= i % w < w,
{
    vstd::arithmetic::div_mod::lemma_fundamental_div_mod(i, w);
    vstd::arithmetic::div_mod::lemma_mod_pos_bound(i, w);
    vstd::arithmetic::div_mod::lemma_div_pos_is_pos(i, w);
    let q = i / w;
    let r = i % w;
    if q >= h {
        assert(false) by (nonlinear_arith)
            requires q >= h, w > 0, i == w * q + r, r >= 0, i < w * h;
    }
}

/// Every in-grid location has an index in range, from which it can be read back.
pub proof fn lemma_index_all(w: int, h: int)
    requires
        0 < w,
        0 < h,
    ensures
        forall|m: Location| loc_in_grid(w, h, m) ==> 0 <= #[trigger] cell_index(w, m) < w * h && cell_loc(w, cell_index(w, m)) == m
            && cell_index(w, m) / w == m.y && cell_index(w, m) % w == m.x,
{
    assert forall|m: Location| loc_in_grid(w, h, m) implies 0 <= #[trigger] cell_index(w, m) < w * h && cell_loc(w, cell_index(w, m)) == m
        && cell_index(w, m) / w == m.y && cell_index(w, m) % w == m.x by {
        lemma_index(w, h, m);
    }
}

/// In a well-formed grid each cell's index is that of its location.
pub proof fn lemma_cell_index(w: int, h: int, cells: Seq<Tile>, i: int)
    requires
        grid_wf(w, h, cells),
        0 <= i < cells.len(),
    ensures
        loc_in_grid(w, h, cells[i].loc),
        cell_index(w, cells[i].loc) == i,
{
    let q = i / w;
    let r = i % w;
    vstd::arithmetic::div_mod::lemma_fundamental_div_mod(i, w);
    vstd::arithmetic::div_mod::lemma_mod_pos_bound(i, w);
    vstd::arithmetic::div_mod::lemma_div_pos_is_pos(i, w);
    assert(q < h) by {
        if q >= h {
            assert(q * w >= h * w) by (nonlinear_arith)
                requires q >= h, w > 0;
        }
    }
    assert(cells[i].loc == cell_loc(w, i));
    assert(cells[i].loc.x == r && cells[i].loc.y == q);
    assert(q * w == w * q) by (nonlinear_arith);
}

/// Each tile of `s` written over the cell of its location, in order.
pub open spec fn paint(cells: Seq<Tile>, w: int, s: Seq<Tile>) -> Seq<Tile>
    decreases s.len(),
{
    if s.len() == 0 {
        cells
    } else {
        paint(cells, w, s.drop_last()).update(cell_index(w, s.last().loc), s.last())
    }
}

/// The tiles with their terrain cleared to `Nothing`.
pub open spec fn erased(s: Seq<Tile>) -> Seq<Tile> {
    Seq::new(s.len(), |k: int| Tile { loc: s[k].loc, terrain: Terrain::Nothing })
}

/// Every tile of `s` lies on the grid.
pub open spec fn all_in_grid(w: int, h: int, s: Seq<Tile>) -> bool {
    forall|k: int| 0 <= k < s.len() ==> loc_in_grid(w, h, #[trigger] s[k].loc)
}

/// Some tile of `s` has its location at index `i`.
pub open spec fn covers(w: int, s: Seq<Tile>, i: int) -> bool {
    exists|k: int| 0 <= k < s.len() && cell_index(w, #[trigger] s[k].loc) == i
}

/// Every tile of `s` stands at least one cell away from each edge, over a
/// cell that is `Nothing`.
pub open spec fn fits(w: int, h: int, cells: Seq<Tile>, s: Seq<Tile>) -> bool {
    forall|k: int| 0 <= k < s.len() ==> {
        &&& 0 < (#[trigger] s[k]).loc.x < w - 1
        &&& 0 < s[k].loc.y < h - 1
        &&& terrain_of(cells, w, s[k].loc) == Terrain::Nothing
    }
}

/// Some neighbour of `loc` has the given terrain.
pub open spec fn any_neighbor(
    w: int,
    h: int,
    cells: Seq<Tile>,
    loc: Location,
    diag: bool,
    terrain: Terrain,
) -> bool {
    exists|m: Location| #[trigger] is_neighbor(w, h, loc, m, diag) && terrain_of(cells, w, m) == terrain
}

/// How many of the locations in `s` have the given terrain.
pub open spec fn count_terrain(cells: Seq<Tile>, w: int, s: Seq<Location>, terrain: Terrain) -> int
    decreases s.len(),
{
    if s.len() == 0 {
        0
    } else {
        count_terrain(cells, w, s.drop_last(), terrain) + if terrain_of(cells, w, s.last()) == terrain {
            1int
        } else {
            0
        }
    }
}

/// The grid after the wall-surrounding pass: every `Nothing` cell next to a
/// floor (diagonals included) becomes a wall.
pub open spec fn surround_spec(w: int, h: int, cells: Seq<Tile>) -> Seq<Tile> {
    Seq::new(
        cells.len(),
        |i: int|
            if cells[i].terrain == Terrain::Nothing && any_neighbor(w, h, cells, cells[i].loc, true, Terrain::Floor) {
                Tile { loc: cells[i].loc, terrain: Terrain::Wall }
            } else {
                cells[i]
            },
    )
}

/// A wall with at least three floors among its cardinal neighbours.
pub open spec fn is_sliver(w: int, h: int, cells: Seq<Tile>, loc: Location) -> bool {
    &&& terrain_of(cells, w, loc) == Terrain::Wall
    &&& count_terrain(cells, w, adjacent_spec(w, h, loc, false), Terrain::Floor) >= 3
}

/// The grid after the clean-up pass: every sliver wall becomes floor.
pub open spec fn clear_slivers_spec(w: int, h: int, cells: Seq<Tile>) -> Seq<Tile> {
    Seq::new(
        cells.len(),
        |i: int|
            if is_sliver(w, h, cells, cells[i].loc) {
                Tile { loc: cells[i].loc, terrain: Terrain::Floor }
            } else {
                cells[i]
            },
    )
}

/// No floor cell has a `Nothing` neighbour, diagonals included.
pub open spec fn floors_enclosed(w: int, h: int, cells: Seq<Tile>) -> bool {
    forall|l: Location, m: Location|
        loc_in_grid(w, h, l) && terrain_of(cells, w, l) == Terrain::Floor && #[trigger] is_neighbor(w, h, l, m, true)
            ==> #[trigger] terrain_of(cells, w, m) != Terrain::Nothing
}

/// Painting a sequence of tiles that share one terrain sets exactly the
/// covered cells to it.
pub proof fn lemma_paint_uniform(w: int, h: int, cells: Seq<Tile>, s: Seq<Tile>, t: Terrain)
    requires
        grid_wf(w, h, cells),
        all_in_grid(w, h, s),
        forall|k: int| 0 <= k < s.len() ==> (#[trigger] s[k]).terrain == t,
    ensures
        grid_wf(w, h, paint(cells, w, s)),
        forall|i: int| 0 <= i < cells.len() ==> (#[trigger] paint(cells, w, s)[i]) == if covers(w, s, i) {
            Tile { loc: cells[i].loc, terrain: t }
        } else {
            cells[i]
        },
    decreases s.len(),
{
    if s.len() > 0 {
        let rest = s.drop_last();
        assert forall|k: int| 0 <= k < rest.len() implies loc_in_grid(w, h, #[trigger] rest[k].loc) by {
            assert(rest[k] == s[k]);
        }
        lemma_paint_uniform(w, h, cells, rest, t);
        let last = s.last();
        assert(loc_in_grid(w, h, s[s.len() - 1].loc));
        lemma_index(w, h, last.loc);
        let j = cell_index(w, last.loc);
        let p = paint(cells, w, s);
        assert forall|i: int| 0 <= i < cells.len() implies (#[trigger] p[i]) == if covers(w, s, i) {
            Tile { loc: cells[i].loc, terrain: t }
        } else {
            cells[i]
        } by {
            if i == j {
                assert(cell_index(w, s[s.len() - 1].loc) == i);
                assert(cells[i].loc == cell_loc(w, i));
            } else {
                if covers(w, s, i) {
                    let k = choose|k: int| 0 <= k < s.len() && cell_index(w, #[trigger] s[k].loc) == i;
                    assert(k != s.len() - 1);
                    assert(rest[k] == s[k]);
                }
                if covers(w, rest, i) {
                    let k = choose|k: int| 0 <= k < rest.len() && cell_index(w, #[trigger] rest[k].loc) == i;
                    assert(rest[k] == s[k]);
                }
            }
        }
        assert forall|i: int| 0 <= i < p.len() implies (#[trigger] p[i]).loc == cell_loc(w, i) by {
        }
    }
}

/// The wall-surrounding pass leaves no floor next to a `Nothing` cell.
pub proof fn lemma_surround_encloses(w: int, h: int, cells: Seq<Tile>)
    requires
        grid_wf(w, h, cells),
    ensures
        grid_wf(w, h, surround_spec(w, h, cells)),
        floors_enclosed(w, h, surround_spec(w, h, cells)),
{
    let next = surround_spec(w, h, cells);
    assert forall|i: int| 0 <= i < next.len() implies (#[trigger] next[i]).loc == cell_loc(w, i) by {
    }
    assert forall|l: Location, m: Location|
        loc_in_grid(w, h, l) && terrain_of(next, w, l) == Terrain::Floor && #[trigger] is_neighbor(w, h, l, m, true)
            implies #[trigger] terrain_of(next, w, m) != Terrain::Nothing by {
        lemma_index(w, h, l);
        lemma_index(w, h, m);
        let il = cell_index(w, l);
        let im = cell_index(w, m);
        assert(cells[il].loc == l);
        assert(cells[im].loc == m);
        if terrain_of(next, w, m) == Terrain::Nothing {
            assert(cells[im].terrain == Terrain::Nothing);
            assert(is_neighbor(w, h, m, l, true));
            assert(terrain_of(cells, w, l) == Terrain::Floor);
            assert(any_neighbor(w, h, cells, m, true, Terrain::Floor));
        }
    }
}

/// 1 when the `k`-th cardinal neighbour of `loc` is on the grid and a floor.
spec fn cardinal_floor(w: int, h: int, cells: Seq<Tile>, loc: Location, k: int) -> int {
    if keeps(w, h, loc, false, k) && terrain_of(cells, w, neighbor_at(loc, k)) == Terrain::Floor {
        1
    } else {
        0
    }
}

spec fn floor_sum(w: int, h: int, cells: Seq<Tile>, loc: Location, k: int) -> int
    decreases k,
{
    if k <= 0 {
        0
    } else {
        floor_sum(w, h, cells, loc, k - 1) + cardinal_floor(w, h, cells, loc, k - 1)
    }
}

proof fn lemma_count_upto(w: int, h: int, cells: Seq<Tile>, loc: Location, k: int)
    requires
        0 <= k <= 9,
    ensures
        count_terrain(cells, w, adjacent_upto(w, h, loc, false, k), Terrain::Floor) == floor_sum(
            w,
            h,
            cells,
            loc,
            k,
        ),
    decreases k,
{
    if k > 0 {
        lemma_count_upto(w, h, cells, loc, k - 1);
        let prev = adjacent_upto(w, h, loc, false, k - 1);
        if keeps(w, h, loc, false, k - 1) {
            assert(prev.push(neighbor_at(loc, k - 1)).drop_last() =~= prev);
        }
    }
}

proof fn lemma_sliver_neighbor(w: int, h: int, cells: Seq<Tile>, l: Location, m: Location)
    requires
        grid_wf(w, h, cells),
        floors_enclosed(w, h, cells),
        loc_in_grid(w, h, l),
        is_sliver(w, h, cells, l),
        is_neighbor(w, h, l, m, true),
    ensures
        terrain_of(cells, w, m) != Terrain::Nothing,
{
    lemma_count_upto(w, h, cells, l, 9);
    reveal_with_fuel(floor_sum, 10);
    let c1 = neighbor_at(l, 1);
    let c3 = neighbor_at(l, 3);
    let c5 = neighbor_at(l, 5);
    let c7 = neighbor_at(l, 7);
    let f1 = cardinal_floor(w, h, cells, l, 1);
    let f3 = cardinal_floor(w, h, cells, l, 3);
    let f5 = cardinal_floor(w, h, cells, l, 5);
    let f7 = cardinal_floor(w, h, cells, l, 7);
    assert(f1 + f3 + f5 + f7 >= 3);
    if f1 == 1 && is_neighbor(w, h, c1, m, true) {
        assert(terrain_of(cells, w, m) != Terrain::Nothing);
    } else if f7 == 1 && is_neighbor(w, h, c7, m, true) {
        assert(terrain_of(cells, w, m) != Terrain::Nothing);
    } else if f3 == 1 && is_neighbor(w, h, c3, m, true) {
        assert(terrain_of(cells, w, m) != Terrain::Nothing);
    } else if f5 == 1 && is_neighbor(w, h, c5, m, true) {
        assert(terrain_of(cells, w, m) != Terrain::Nothing);
    } else {
        assert(m == c1 || m == c3 || m == c5 || m == c7);
    }
}

/// The clean-up pass keeps every floor enclosed.
pub proof fn lemma_clear_keeps_enclosed(w: int, h: int, cells: Seq<Tile>)
    requires
        grid_wf(w, h, cells),
        floors_enclosed(w, h, cells),
    ensures
        grid_wf(w, h, clear_slivers_spec(w, h, cells)),
        floors_enclosed(w, h, clear_slivers_spec(w, h, cells)),
{
    let next = clear_slivers_spec(w, h, cells);
    assert forall|i: int| 0 <= i < next.len() implies (#[trigger] next[i]).loc == cell_loc(w, i) by {
    }
    assert forall|l: Location, m: Location|
        loc_in_grid(w, h, l) && terrain_of(next, w, l) == Terrain::Floor && #[trigger] is_neighbor(w, h, l, m, true)
            implies #[trigger] terrain_of(next, w, m) != Terrain::Nothing by {
        lemma_index(w, h, l);
        lemma_index(w, h, m);
        let il = cell_index(w, l);
        let im = cell_index(w, m);
        assert(cells[il].loc == l);
        assert(cells[im].loc == m);
        if terrain_of(cells, w, l) == Terrain::Floor {
            assert(terrain_of(cells, w, m) != Terrain::Nothing);
        } else {
            assert(is_sliver(w, h, cells, l));
            lemma_sliver_neighbor(w, h, cells, l, m);
        }
    }
}

/// Every floor of `a` is still a floor in `b`.
pub open spec fn floors_kept(a: Seq<Tile>, b: Seq<Tile>) -> bool {
    &&& a.len() == b.len()
    &&& forall|i: int| 0 <= i < a.len() && (#[trigger] a[i]).terrain == Terrain::Floor ==> b[i].terrain == Terrain::Floor
}

/// A fitting sequence of tiles lies on the grid.
pub proof fn lemma_fits_in_grid(w: int, h: int, cells: Seq<Tile>, s: Seq<Tile>)
    requires
        fits(w, h, cells, s),
    ensures
        all_in_grid(w, h, s),
        all_in_grid(w, h, erased(s)),
{
    assert forall|k: int| 0 <= k < erased(s).len() implies loc_in_grid(w, h, #[trigger] erased(s)[k].loc) by {
        assert(erased(s)[k].loc == s[k].loc);
        assert(0 < s[k].loc.x < w - 1);
    }
    assert forall|k: int| 0 <= k < s.len() implies loc_in_grid(w, h, #[trigger] s[k].loc) by {
        assert(0 < s[k].loc.x < w - 1);
    }
}

/// Undoing an abandoned growth attempt restores the grid: the wall that was
/// opened, the hallway drawn from it and the cell opened at its far end.
pub proof fn lemma_rollback(w: int, h: int, s0: Seq<Tile>, hall: Seq<Tile>, rw: Location, end: Location)
    requires
        grid_wf(w, h, s0),
        loc_in_grid(w, h, rw),
        terrain_of(s0, w, rw) == Terrain::Wall,
        fits(w, h, s0.update(cell_index(w, rw), Tile { loc: rw, terrain: Terrain::Nothing }), hall),
        forall|k: int| 0 <= k < hall.len() ==> (#[trigger] hall[k]).terrain == Terrain::Floor,
        loc_in_grid(w, h, end),
        covers(w, hall, cell_index(w, end)),
    ensures
        ({
            let s1 = s0.update(cell_index(w, rw), Tile { loc: rw, terrain: Terrain::Nothing });
            let s2 = paint(s1, w, hall);
            let s3 = s2.update(cell_index(w, end), Tile { loc: end, terrain: Terrain::Nothing });
            paint(s3, w, erased(hall)).update(cell_index(w, rw), Tile { loc: rw, terrain: Terrain::Wall }) == s0
        }),
{
    let irw = cell_index(w, rw);
    let iend = cell_index(w, end);
    lemma_index(w, h, rw);
    lemma_index(w, h, end);
    let s1 = s0.update(irw, Tile { loc: rw, terrain: Terrain::Nothing });
    assert(grid_wf(w, h, s1)) by {
        assert forall|i: int| 0 <= i < s1.len() implies (#[trigger] s1[i]).loc == cell_loc(w, i) by {
        }
    }
    lemma_fits_in_grid(w, h, s1, hall);
    lemma_paint_uniform(w, h, s1, hall, Terrain::Floor);
    let s2 = paint(s1, w, hall);
    let s3 = s2.update(iend, Tile { loc: end, terrain: Terrain::Nothing });
    assert(grid_wf(w, h, s3)) by {
        assert forall|i: int| 0 <= i < s3.len() implies (#[trigger] s3[i]).loc == cell_loc(w, i) by {
        }
    }
    let er = erased(hall);
    lemma_paint_uniform(w, h, s3, er, Terrain::Nothing);
    let s4 = paint(s3, w, er);
    let s5 = s4.update(irw, Tile { loc: rw, terrain: Terrain::Wall });
    assert forall|i: int| 0 <= i < s0.len() implies #[trigger] s5[i] == s0[i] by {
        assert(s0[i].loc == cell_loc(w, i));
        if i == irw {
        } else if covers(w, er, i) {
            let k = choose|k: int| 0 <= k < er.len() && cell_index(w, #[trigger] er[k].loc) == i;
            assert(er[k].loc == hall[k].loc);
            assert(terrain_of(s1, w, hall[k].loc) == Terrain::Nothing);
        } else {
            if covers(w, hall, i) {
                let k = choose|k: int| 0 <= k < hall.len() && cell_index(w, #[trigger] hall[k].loc) == i;
                assert(er[k].loc == hall[k].loc);
                assert(covers(w, er, i));
            }
            assert(i != iend);
        }
    }
    assert(s5 =~= s0);
}

/// `loc` stands at least one cell inside every edge.
pub open spec fn inside_margin(w: int, h: int, loc: Location) -> bool {
    0 < loc.x < w - 1 && 0 < loc.y < h - 1
}

/// Every floor stands at least one cell inside every edge.
pub open spec fn floors_inside(w: int, h: int, cells: Seq<Tile>) -> bool {
    forall|i: int| 0 <= i < cells.len() && (#[trigger] cells[i]).terrain == Terrain::Floor ==> inside_margin(w, h, cells[i].loc)
}

/// Every wall has a floor among its eight neighbours.
pub open spec fn walls_border_floors(w: int, h: int, cells: Seq<Tile>) -> bool {
    forall|i: int| 0 <= i < cells.len() && (#[trigger] cells[i]).terrain == Terrain::Wall ==> any_neighbor(
        w,
        h,
        cells,
        cells[i].loc,
        true,
        Terrain::Floor,
    )
}

/// `s` differs from `s0` only in cells that are now `Nothing`, or floors
/// inside the margin.
pub open spec fn grown_from(w: int, h: int, s0: Seq<Tile>, s: Seq<Tile>) -> bool {
    &&& s.len() == s0.len()
    &&& forall|i: int| 0 <= i < s.len() ==> #[trigger] s[i] == s0[i] || s[i].terrain == Terrain::Nothing || (
    s[i].terrain == Terrain::Floor && inside_margin(w, h, s[i].loc))
}

/// A grid grown from another, keeping its floors, keeps floors inside the
/// margin and walls next to floors.
pub proof fn lemma_grown_keeps(w: int, h: int, s0: Seq<Tile>, s: Seq<Tile>)
    requires
        grid_wf(w, h, s0),
        grid_wf(w, h, s),
        grown_from(w, h, s0, s),
        floors_kept(s0, s),
        floors_inside(w, h, s0),
        walls_border_floors(w, h, s0),
    ensures
        floors_inside(w, h, s),
        walls_border_floors(w, h, s),
{
    assert forall|i: int| 0 <= i < s.len() && (#[trigger] s[i]).terrain == Terrain::Wall implies any_neighbor(w, h, s, s[i].loc, true, Terrain::Floor) by {
        assert(s[i] == s0[i]);
        assert(s0[i].terrain == Terrain::Wall);
        let m = choose|m: Location| #[trigger] is_neighbor(w, h, s0[i].loc, m, true) && terrain_of(s0, w, m) == Terrain::Floor;
        lemma_index(w, h, m);
        assert(s0[cell_index(w, m)].terrain == Terrain::Floor);
        assert(terrain_of(s, w, m) == Terrain::Floor);
    }
}

/// The wall-surrounding pass keeps floors inside the margin and every wall
/// next to a floor.
pub proof fn lemma_surround_keeps(w: int, h: int, cells: Seq<Tile>)
    requires
        grid_wf(w, h, cells),
        floors_inside(w, h, cells),
        walls_border_floors(w, h, cells),
    ensures
        floors_inside(w, h, surround_spec(w, h, cells)),
        walls_border_floors(w, h, surround_spec(w, h, cells)),
        floors_kept(cells, surround_spec(w, h, cells)),
{
    let next = surround_spec(w, h, cells);
    assert forall|i: int| 0 <= i < next.len() && (#[trigger] next[i]).terrain == Terrain::Wall implies any_neighbor(w, h, next, next[i].loc, true, Terrain::Floor) by {
        let m = choose|m: Location| #[trigger] is_neighbor(w, h, cells[i].loc, m, true) && terrain_of(cells, w, m) == Terrain::Floor;
        lemma_index(w, h, m);
        assert(next[cell_index(w, m)].terrain == Terrain::Floor);
        assert(terrain_of(next, w, m) == Terrain::Floor);
    }
}

/// The clean-up pass keeps floors inside the margin and every wall next to
/// a floor: a wall on the edge has at most one cardinal floor.
pub proof fn lemma_clear_keeps(w: int, h: int, cells: Seq<Tile>)
    requires
        grid_wf(w, h, cells),
        floors_inside(w, h, cells),
        walls_border_floors(w, h, cells),
    ensures
        floors_inside(w, h, clear_slivers_spec(w, h, cells)),
        walls_border_floors(w, h, clear_slivers_spec(w, h, cells)),
{
    let next = clear_slivers_spec(w, h, cells);
    assert forall|i: int| 0 <= i < next.len() && (#[trigger] next[i]).terrain == Terrain::Floor implies inside_margin(w, h, next[i].loc) by {
        if cells[i].terrain != Terrain::Floor {
            let l = cells[i].loc;
            lemma_cell_index(w, h, cells, i);
            assert(is_sliver(w, h, cells, l));
            lemma_count_upto(w, h, cells, l, 9);
            reveal_with_fuel(floor_sum, 10);
            if !inside_margin(w, h, l) {
                lemma_edge_cardinals(w, h, cells, l);
            }
        }
    }
    assert forall|i: int| 0 <= i < next.len() && (#[trigger] next[i]).terrain == Terrain::Wall implies any_neighbor(w, h, next, next[i].loc, true, Terrain::Floor) by {
        let m = choose|m: Location| #[trigger] is_neighbor(w, h, cells[i].loc, m, true) && terrain_of(cells, w, m) == Terrain::Floor;
        lemma_index(w, h, m);
        assert(next[cell_index(w, m)].terrain == Terrain::Floor);
        assert(terrain_of(next, w, m) == Terrain::Floor);
    }
}

/// Cardinal floors of a cell on the edge: those along the edge are not
/// floors, and the one beyond it is off the grid.
proof fn lemma_edge_cardinals(w: int, h: int, cells: Seq<Tile>, l: Location)
    requires
        grid_wf(w, h, cells),
        floors_inside(w, h, cells),
        loc_in_grid(w, h, l),
        !inside_margin(w, h, l),
    ensures
        cardinal_floor(w, h, cells, l, 1) + cardinal_floor(w, h, cells, l, 3) + cardinal_floor(w, h, cells, l, 5)
            + cardinal_floor(w, h, cells, l, 7) <= 2,
{
    assert forall|k: int| (k == 1 || k == 3 || k == 5 || k == 7) && #[trigger] cardinal_floor(w, h, cells, l, k) == 1 implies inside_margin(w, h, neighbor_at(l, k)) by {
        let c = neighbor_at(l, k);
        lemma_index(w, h, c);
        let ci = cell_index(w, c);
        assert(cells[ci].terrain == Terrain::Floor);
        assert(cells[ci].loc == c);
    }
    assert(cardinal_floor(w, h, cells, l, 1) == 1 ==> inside_margin(w, h, neighbor_at(l, 1)));
    assert(cardinal_floor(w, h, cells, l, 3) == 1 ==> inside_margin(w, h, neighbor_at(l, 3)));
    assert(cardinal_floor(w, h, cells, l, 5) == 1 ==> inside_margin(w, h, neighbor_at(l, 5)));
    assert(cardinal_floor(w, h, cells, l, 7) == 1 ==> inside_margin(w, h, neighbor_at(l, 7)));
}

} // verus!
