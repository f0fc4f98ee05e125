//! The dungeon grid and the level generator that carves it.

use vstd::prelude::*;
use crate::tile::{dist_sq, Location, Terrain, Tile};
use crate::feature::{
    in_diamond, in_room, lists_exactly, all_terrain, can_place, coords, hallway_tile, horiz_offset, in_circle, vert_offset, lemma_hallway_bounds, lemma_locs_with_all,
    lemma_locs_with_member, locs_with, place_spec, Feature, HorizontalAlignment, VerticalAlignment,
};
use crate::random::{random_in, shuffle, IterRandomExt, RandomTable, weight_sum, weights_of};
use rand::rngs::StdRng;
use crate::grid::{
    adjacent_spec, adjacent_upto, all_in_grid, any_neighbor, cell_index, cell_loc,
    clear_slivers_spec, count_terrain, covers, erased, fits, floors_enclosed, floors_kept, grid_wf,
    is_neighbor, lemma_adjacent, floors_inside, walls_border_floors, grown_from, inside_margin,
    lemma_grown_keeps, lemma_surround_keeps, lemma_clear_keeps, lemma_cell_index, lemma_clear_keeps_enclosed, lemma_fits_in_grid,
    lemma_index, lemma_paint_uniform, lemma_rollback, lemma_surround_encloses, loc_in_grid, paint,
    surround_spec, terrain_of,
};

verus! {


/// The shapes the generator places, each sized at random when built.
#[derive(Clone, Copy, Debug, PartialEq, Eq, Structural)]
pub enum FeatureKind {
    /// A rectangle of 2 to 11 cells a side.
    Room,
    /// A Manhattan ball of radius 2 to 11.
    DiamondRoom,
    /// A Euclidean ball of radius 2 to 11.
    CircleRoom,
}

impl FeatureKind {
    /// A feature of this kind with its size drawn at random: a room of 2 to
    /// 11 cells a side, or a diamond or circle of radius 2 to 11.
    pub fn build(self, rng: &mut StdRng) -> (r: Feature)
        ensures
            self == FeatureKind::Room ==> exists|a: int, b: int| 2 <= a < 12 && 2 <= b < 12 && lists_exactly(r@, in_room(a, b)),
            self == FeatureKind::DiamondRoom ==> exists|k: int| 2 <= k < 12 && lists_exactly(r@, in_diamond(k)),
            self == FeatureKind::CircleRoom ==> exists|k: int| 2 <= k < 12 && lists_exactly(r@, in_circle(k)),
            all_terrain(r@, Terrain::Floor),
            r@.len() > 0,
            coords_within(r@, 11),
            has_diagonal_pair(r@),
    {
        match self {
            FeatureKind::Room => {
                let i = random_in(rng, 2, 12);
                let j = random_in(rng, 2, 12);
                let f = Feature::room(i, j);
                proof {
                    lemma_shape_facts(f@, in_room(i as int, j as int));
                }
                f
            },
            FeatureKind::DiamondRoom => {
                let r = random_in(rng, 2, 12);
                let f = Feature::diamond_room(r);
                proof {
                    lemma_shape_facts(f@, in_diamond(r as int));
                }
                f
            },
            FeatureKind::CircleRoom => {
                let r = random_in(rng, 2, 12);
                let f = Feature::circle_room(r);
                proof {
                    assert forall|t: Tile| #[trigger] in_circle(r as int)(t) implies -11 <= t.loc.x <= 11 && -11 <= t.loc.y <= 11 by {
                        lemma_circle_bounds(t, r as int);
                    }
                    let one = Location { x: 1, y: 1 };
                    assert(one.x - 0 == 1 && one.y - 0 == 1);
                    assert(dist_sq(one, Location { x: 0, y: 0 }) == 1 * 1 + 1 * 1);
                    assert((r + 1) * (r + 1) > 2) by (nonlinear_arith)
                        requires r >= 2;
                    lemma_shape_facts(f@, in_circle(r as int));
                }
                f
            },
        }
    }
}

/// Two tiles one step apart on both axes.
pub open spec fn has_diagonal_pair(s: Seq<Tile>) -> bool {
    exists|i: int, j: int| #![trigger s[i], s[j]] 0 <= i < s.len() && 0 <= j < s.len() && s[j].loc.x == s[i].loc.x + 1 && s[j].loc.y == s[i].loc.y + 1
}

/// What every shape the generator builds shares: floor only, within 11 of
/// the origin, holding the origin and the cell diagonally after it.
proof fn lemma_shape_facts(s: Seq<Tile>, pred: spec_fn(Tile) -> bool)
    requires
        lists_exactly(s, pred),
        forall|t: Tile| #[trigger] pred(t) ==> t.terrain == Terrain::Floor && -11 <= t.loc.x <= 11 && -11 <= t.loc.y <= 11,
        pred(Tile { loc: Location { x: 0, y: 0 }, terrain: Terrain::Floor }),
        pred(Tile { loc: Location { x: 1, y: 1 }, terrain: Terrain::Floor }),
    ensures
        all_terrain(s, Terrain::Floor),
        coords_within(s, 11),
        has_diagonal_pair(s),
{
    assert forall|k: int| 0 <= k < s.len() implies (#[trigger] s[k]).terrain == Terrain::Floor && -11 <= s[k].loc.x <= 11 && -11 <= s[k].loc.y <= 11 by {
        assert(s.contains(s[k]));
    }
    let a = Tile { loc: Location { x: 0, y: 0 }, terrain: Terrain::Floor };
    let b = Tile { loc: Location { x: 1, y: 1 }, terrain: Terrain::Floor };
    assert(s.contains(a) && s.contains(b));
    let i = choose|i: int| 0 <= i < s.len() && s[i] == a;
    let j = choose|j: int| 0 <= j < s.len() && s[j] == b;
    assert(s[j].loc.x == s[i].loc.x + 1 && s[j].loc.y == s[i].loc.y + 1);
}

/// Every tile lies within `k` of the origin along both axes.
pub open spec fn coords_within(s: Seq<Tile>, k: int) -> bool {
    forall|i: int| 0 <= i < s.len() ==> -k <= (#[trigger] s[i]).loc.x <= k && -k <= s[i].loc.y <= k
}

/// `f` centred at `anchor` keeps to `i32` coordinates and fits the grid.
pub open spec fn centred_fit(w: int, h: int, cells: Seq<Tile>, f: Seq<Tile>, anchor: Location) -> bool {
    &&& can_place(f, VerticalAlignment::Center, HorizontalAlignment::Center, anchor)
    &&& fits(w, h, cells, place_spec(f, VerticalAlignment::Center, HorizontalAlignment::Center, anchor))
}

/// An anchor drawn for the first feature: within 7 of the middle of the grid.
pub open spec fn near_middle(w: int, h: int, a: Location) -> bool {
    w / 2 - 7 <= a.x < w / 2 + 7 && h / 2 - 7 <= a.y < h / 2 + 7
}

/// The cells of a hallway of length `len` at the origin.
pub open spec fn hallway_seq(len: int, is_horiz: bool) -> Seq<Tile> {
    Seq::new(len as nat, |k: int| hallway_tile(k, is_horiz))
}

/// A hallway of length `len` placed from `rw` in direction `o`.
pub open spec fn hallway_at(rw: Location, len: int, o: (VerticalAlignment, HorizontalAlignment)) -> Seq<Tile> {
    place_spec(hallway_seq(len, o.0 == VerticalAlignment::Center), o.0, o.1, rw)
}

/// The hallway in direction `o` can be placed and fits the grid.
pub open spec fn hallway_fits(
    w: int,
    h: int,
    cells: Seq<Tile>,
    rw: Location,
    len: int,
    o: (VerticalAlignment, HorizontalAlignment),
) -> bool {
    &&& can_place(hallway_seq(len, o.0 == VerticalAlignment::Center), o.0, o.1, rw)
    &&& fits(w, h, cells, hallway_at(rw, len, o))
}

/// The first direction of `order` in which the hallway fits.
pub open spec fn first_fitting(
    w: int,
    h: int,
    cells: Seq<Tile>,
    rw: Location,
    len: int,
    order: Seq<(VerticalAlignment, HorizontalAlignment)>,
) -> Option<(VerticalAlignment, HorizontalAlignment)>
    decreases order.len(),
{
    if order.len() == 0 {
        None
    } else if hallway_fits(w, h, cells, rw, len, order[0]) {
        Some(order[0])
    } else {
        first_fitting(w, h, cells, rw, len, order.drop_first())
    }
}

/// The grid with the cell at `loc` set to `terrain`.
pub open spec fn opened(cells: Seq<Tile>, w: int, loc: Location, terrain: Terrain) -> Seq<Tile> {
    cells.update(cell_index(w, loc), Tile { loc: loc, terrain: terrain })
}

/// The grid after one growth attempt from wall `rw`: the wall is opened;
/// the hallway goes in the first direction of `order` where it fits and its
/// far end is opened; the feature is placed there against the hallway, and
/// when it fits it is drawn, the end becomes floor and walls are put round
/// the floors. Without a fitting direction or feature the grid is unchanged.
pub open spec fn grow_spec(
    w: int,
    h: int,
    s0: Seq<Tile>,
    rw: Location,
    len: int,
    order: Seq<(VerticalAlignment, HorizontalAlignment)>,
    feat: Seq<Tile>,
) -> Seq<Tile> {
    let s1 = opened(s0, w, rw, Terrain::Nothing);
    match first_fitting(w, h, s1, rw, len, order) {
        None => s0,
        Some(o) => {
            let end = hallway_end(rw, len, o.0, o.1);
            let s3 = opened(paint(s1, w, hallway_at(rw, len, o)), w, end, Terrain::Nothing);
            if can_place(feat, o.0, o.1, end) && fits(w, h, s3, place_spec(feat, o.0, o.1, end)) {
                surround_spec(w, h, opened(paint(s3, w, place_spec(feat, o.0, o.1, end)), w, end, Terrain::Floor))
            } else {
                s0
            }
        },
    }
}

/// Every tile of `s` stands on a floor cell.
pub open spec fn floors_at(w: int, cells: Seq<Tile>, s: Seq<Tile>) -> bool {
    forall|k: int| 0 <= k < s.len() ==> terrain_of(cells, w, #[trigger] s[k].loc) == Terrain::Floor
}

/// Floors that stay floors keep every tile of `s` on a floor.
proof fn lemma_floors_at_kept(w: int, h: int, a: Seq<Tile>, b: Seq<Tile>, s: Seq<Tile>)
    requires
        grid_wf(w, h, a),
        all_in_grid(w, h, s),
        floors_at(w, a, s),
        floors_kept(a, b),
    ensures
        floors_at(w, b, s),
{
    assert forall|k: int| 0 <= k < s.len() implies terrain_of(b, w, #[trigger] s[k].loc) == Terrain::Floor by {
        lemma_index(w, h, s[k].loc);
    }
}

proof fn lemma_opened_grown(w: int, h: int, s0: Seq<Tile>, cells: Seq<Tile>, loc: Location, t: Terrain)
    requires
        grown_from(w, h, s0, cells),
        0 <= cell_index(w, loc) < cells.len(),
        t == Terrain::Nothing || (t == Terrain::Floor && inside_margin(w, h, loc)),
    ensures
        grown_from(w, h, s0, opened(cells, w, loc, t)),
{
    let o = opened(cells, w, loc, t);
    assert forall|i: int| 0 <= i < o.len() implies #[trigger] o[i] == s0[i] || o[i].terrain == Terrain::Nothing || (
    o[i].terrain == Terrain::Floor && inside_margin(w, h, o[i].loc)) by {
        if i != cell_index(w, loc) {
            assert(o[i] == cells[i]);
        }
    }
}

proof fn lemma_paint_grown(w: int, h: int, s0: Seq<Tile>, cells: Seq<Tile>, s: Seq<Tile>)
    requires
        grid_wf(w, h, cells),
        grown_from(w, h, s0, cells),
        fits(w, h, cells, s),
        all_terrain(s, Terrain::Floor),
    ensures
        grown_from(w, h, s0, paint(cells, w, s)),
{
    lemma_fits_in_grid(w, h, cells, s);
    lemma_paint_uniform(w, h, cells, s, Terrain::Floor);
    let p = paint(cells, w, s);
    assert forall|i: int| 0 <= i < p.len() implies #[trigger] p[i] == s0[i] || p[i].terrain == Terrain::Nothing || (
    p[i].terrain == Terrain::Floor && inside_margin(w, h, p[i].loc)) by {
        if covers(w, s, i) {
            let k = choose|k: int| 0 <= k < s.len() && cell_index(w, #[trigger] s[k].loc) == i;
            lemma_index(w, h, s[k].loc);
            assert(cells[i].loc == cell_loc(w, i));
            assert(0 < s[k].loc.x < w - 1);
        } else {
            assert(p[i] == cells[i]);
        }
    }
}

/// The least grid side on which the first feature always fits at once.
pub open spec fn roomy(width: int, height: int) -> bool {
    width >= 38 && height >= 38
}

proof fn lemma_circle_bounds(t: Tile, r: int)
    requires
        0 <= r < 12,
        in_circle(r)(t),
    ensures
        -r <= t.loc.x <= r,
        -r <= t.loc.y <= r,
{
    let x = t.loc.x as int;
    let y = t.loc.y as int;
    assert(dist_sq(t.loc, Location { x: 0, y: 0 }) == x * x + y * y);
    assert(x * x >= 0 && y * y >= 0) by (nonlinear_arith);
    if x > r || x < -r {
        assert(x * x >= (r + 1) * (r + 1)) by (nonlinear_arith)
            requires 0 <= r, x > r || x < -r;
    }
    if y > r || y < -r {
        assert(y * y >= (r + 1) * (r + 1)) by (nonlinear_arith)
            requires 0 <= r, y > r || y < -r;
    }
}

/// Centred at an anchor within 7 of the middle of a roomy grid, a feature
/// within 11 of its origin lands at least one cell inside every edge.
proof fn lemma_centered_inside(s: Seq<Tile>, anchor: Location, w: int, h: int)
    requires
        s.len() > 0,
        coords_within(s, 11),
        roomy(w, h),
        w <= i32::MAX,
        h <= i32::MAX,
        w / 2 - 7 <= anchor.x < w / 2 + 7,
        h / 2 - 7 <= anchor.y < h / 2 + 7,
    ensures
        can_place(s, VerticalAlignment::Center, HorizontalAlignment::Center, anchor),
        forall|k: int| 0 <= k < s.len() ==> {
            &&& 0 < (#[trigger] place_spec(s, VerticalAlignment::Center, HorizontalAlignment::Center, anchor)[k]).loc.x < w - 1
            &&& 0 < place_spec(s, VerticalAlignment::Center, HorizontalAlignment::Center, anchor)[k].loc.y < h - 1
        },
{
    let cx = coords(s, true);
    let cy = coords(s, false);
    cx.min_ensures();
    cx.max_ensures();
    cy.min_ensures();
    cy.max_ensures();
    let i1 = choose|i: int| 0 <= i < cx.len() && cx[i] == cx.min();
    let i2 = choose|i: int| 0 <= i < cx.len() && cx[i] == cx.max();
    let i3 = choose|i: int| 0 <= i < cy.len() && cy[i] == cy.min();
    let i4 = choose|i: int| 0 <= i < cy.len() && cy[i] == cy.max();
    assert(-11 <= s[i1].loc.x && s[i2].loc.x <= 11 && -11 <= s[i3].loc.y && s[i4].loc.y <= 11);
    let dx = horiz_offset(s, HorizontalAlignment::Center, anchor);
    let dy = vert_offset(s, VerticalAlignment::Center, anchor);
    assert forall|k: int| 0 <= k < s.len() implies {
        &&& anchor.x - 11 <= #[trigger] s[k].loc.x + dx <= anchor.x + 11
        &&& anchor.y - 11 <= s[k].loc.y + dy <= anchor.y + 11
    } by {
        assert(cx[k] == s[k].loc.x && cy[k] == s[k].loc.y);
    }
}

/// Why a level could not be generated.
#[derive(Clone, Copy, Debug, PartialEq, Eq, Structural)]
pub enum GenerateError {
    /// No placement of the first feature fitted within the attempt budget.
    NoRoomForFirstFeature,
}

/// How many anchors are tried for the first feature before giving up.
pub const FIRST_FEATURE_ATTEMPTS: u32 = 1000;

/// How many growth attempts a level gets.
pub const GROWTH_ATTEMPTS: u32 = 300;

/// The four ways a hallway leaves a wall: sideways with its left or right
/// end at the wall, or up or down with its top or bottom end there.
pub open spec fn is_orientation(v: VerticalAlignment, h: HorizontalAlignment) -> bool {
    ||| (v == VerticalAlignment::Center && (h == HorizontalAlignment::Left || h == HorizontalAlignment::Right))
    ||| (h == HorizontalAlignment::Center && (v == VerticalAlignment::Top || v == VerticalAlignment::Bottom))
}

/// The far end of a hallway of length `len` drawn from `rw`.
pub open spec fn hallway_end(rw: Location, len: int, v: VerticalAlignment, h: HorizontalAlignment) -> Location {
    if v == VerticalAlignment::Center {
        Location {
            x: (if h == HorizontalAlignment::Left { rw.x + len - 1 } else { rw.x - len + 1 }) as i32,
            y: rw.y,
        }
    } else {
        Location {
            x: rw.x,
            y: (if v == VerticalAlignment::Top { rw.y + len - 1 } else { rw.y - len + 1 }) as i32,
        }
    }
}

proof fn lemma_hallway_end(
    hw: Feature,
    len: int,
    v: VerticalAlignment,
    h: HorizontalAlignment,
    rw: Location,
)
    requires
        0 < len <= i32::MAX,
        hw@.len() == len,
        forall|k: int| 0 <= k < len ==> #[trigger] hw@[k] == hallway_tile(k, v == VerticalAlignment::Center),
        is_orientation(v, h),
        can_place(hw@, v, h, rw),
    ensures
        ({
            let j = if h == HorizontalAlignment::Left || v == VerticalAlignment::Top { len - 1 } else { 0 };
            &&& 0 <= j < len
            &&& place_spec(hw@, v, h, rw)[j].loc == hallway_end(rw, len, v, h)
            &&& i32::MIN <= (if v == VerticalAlignment::Center {
                if h == HorizontalAlignment::Left { rw.x + len - 1 } else { rw.x - len + 1 }
            } else {
                if v == VerticalAlignment::Top { rw.y + len - 1 } else { rw.y - len + 1 }
            }) <= i32::MAX
        }),
        all_terrain(place_spec(hw@, v, h, rw), Terrain::Floor),
{
    let is_horiz = v == VerticalAlignment::Center;
    lemma_hallway_bounds(hw, len, is_horiz);
    let j = if h == HorizontalAlignment::Left || v == VerticalAlignment::Top { len - 1 } else { 0 };
    assert(hw@[j] == hallway_tile(j, is_horiz));
    assert(hw@[j].loc.x + horiz_offset(hw@, h, rw) <= i32::MAX);
    let p = place_spec(hw@, v, h, rw);
    assert forall|k: int| 0 <= k < p.len() implies (#[trigger] p[k]).terrain == Terrain::Floor by {
        assert(hw@[k] == hallway_tile(k, is_horiz));
    }
}


/// A `width` by `height` grid of tiles stored in row-major order.
#[derive(Clone, Debug, PartialEq, Eq, Hash)]
pub struct WorldMap {
    width: i32,
    height: i32,
    tiles: Vec<Tile>,
}

impl WorldMap {
    /// Number of columns.
    pub closed spec fn spec_width(&self) -> int {
        self.width as int
    }

    /// Number of rows.
    pub closed spec fn spec_height(&self) -> int {
        self.height as int
    }

    /// The tiles in row-major order.
    pub closed spec fn cells(&self) -> Seq<Tile> {
        self.tiles@
    }

    pub open spec fn wf(&self) -> bool {
        grid_wf(self.spec_width(), self.spec_height(), self.cells())
    }

    pub open spec fn in_bounds(&self, loc: Location) -> bool {
        loc_in_grid(self.spec_width(), self.spec_height(), loc)
    }

    pub open spec fn terrain_at(&self, loc: Location) -> Terrain {
        terrain_of(self.cells(), self.spec_width(), loc)
    }

    /// A grid whose every tile is `Nothing`.
    pub fn new(width: i32, height: i32) -> (r: Self)
        requires
            width > 0,
            height > 0,
            width * height <= usize::MAX,
        ensures
            r.wf(),
            r.spec_width() == width,
            r.spec_height() == height,
            forall|i: int| 0 <= i < r.cells().len() ==> (#[trigger] r.cells()[i]).terrain == Terrain::Nothing,
    {
        let ghost w = width as int;
        let mut tiles: Vec<Tile> = Vec::new();
        let mut j: i32 = 0;
        while j < height
            invariant
                0 < width,
                0 <= j <= height,
                width * height <= usize::MAX,
                w == width,
                tiles@.len() == j * w,
                forall|k: int| 0 <= k < tiles@.len() ==> (#[trigger] tiles@[k]) == (Tile { loc: cell_loc(w, k), terrain: Terrain::Nothing }),
            decreases height - j,
        {
            let mut i: i32 = 0;
            while i < width
                invariant
                    0 < width,
                    0 <= j < height,
                    0 <= i <= width,
                    w == width,
                    tiles@.len() == j * w + i,
                    forall|k: int| 0 <= k < tiles@.len() ==> (#[trigger] tiles@[k]) == (Tile { loc: cell_loc(w, k), terrain: Terrain::Nothing }),
                decreases width - i,
            {
                proof {
                    lemma_index(w, height as int, Location { x: i, y: j });
                }
                tiles.push(Tile::new(Location::new(i, j), Terrain::Nothing));
                i = i + 1;
            }
            assert(j * w + w == (j + 1) * w) by (nonlinear_arith);
            j = j + 1;
        }
        assert(j * w == w * height) by (nonlinear_arith)
            requires j == height;
        WorldMap { width: width, height: height, tiles: tiles }
    }

    /// Number of columns.
    pub fn width(&self) -> (r: i32)
        ensures
            r == self.spec_width(),
    {
        self.width
    }

    /// Number of rows.
    pub fn height(&self) -> (r: i32)
        ensures
            r == self.spec_height(),
    {
        self.height
    }

    /// Number of cells.
    pub(crate) fn cell_count(&self) -> (r: usize)
        ensures
            r == self.cells().len(),
    {
        self.tiles.len()
    }

    pub(crate) fn index(&self, loc: Location) -> (r: usize)
        requires
            self.wf(),
            self.in_bounds(loc),
        ensures
            r == cell_index(self.spec_width(), loc),
            r < self.cells().len(),
            self.cells()[r as int].loc == loc,
    {
        proof {
            lemma_index(self.width as int, self.height as int, loc);
            assert(0 <= loc.y * self.width) by (nonlinear_arith)
                requires 0 <= loc.y, 0 < self.width;
        }
        (loc.y as usize) * (self.width as usize) + (loc.x as usize)
    }

    /// The tiles in row-major order.
    pub fn tiles(&self) -> (r: std::slice::Iter<'_, Tile>)
        ensures
            vstd::std_specs::slice::into_iter_elts(r) == self.cells(),
    {
        self.tiles.iter()
    }

    /// The tile at `loc`.
    pub fn get_tile(&self, loc: Location) -> (r: &Tile)
        requires
            self.wf(),
            self.in_bounds(loc),
        ensures
            *r == self.cells()[cell_index(self.spec_width(), loc)],
            r.loc == loc,
    {
        let i = self.index(loc);
        &self.tiles[i]
    }

    /// Mutable access to the tile at `loc`. The grid stays well formed as
    /// long as the caller leaves the tile's location as it is.
    pub fn get_tile_mut(&mut self, loc: Location) -> (r: &mut Tile)
        requires
            old(self).wf(),
            old(self).in_bounds(loc),
        ensures
            *r == old(self).cells()[cell_index(old(self).spec_width(), loc)],
            final(self).spec_width() == old(self).spec_width(),
            final(self).spec_height() == old(self).spec_height(),
            final(self).cells() == old(self).cells().update(cell_index(old(self).spec_width(), loc), *final(r)),
    {
        let i = self.index(loc);
        &mut self.tiles[i]
    }

    /// Sets the terrain at `loc`.
    pub fn set_terrain(&mut self, loc: Location, terrain: Terrain)
        requires
            old(self).wf(),
            old(self).in_bounds(loc),
        ensures
            final(self).wf(),
            final(self).spec_width() == old(self).spec_width(),
            final(self).spec_height() == old(self).spec_height(),
            final(self).cells() == old(self).cells().update(
                cell_index(old(self).spec_width(), loc),
                Tile { loc: loc, terrain: terrain },
            ),
    {
        let i = self.index(loc);
        self.tiles.set(i, Tile::new(loc, terrain));
        assert forall|k: int| 0 <= k < self.tiles@.len() implies (#[trigger] self.tiles@[k]).loc == cell_loc(
            self.width as int,
            k,
        ) by {
            if k == i {
            }
        }
    }

    /// The neighbours of `loc` that lie on the grid, by horizontal step
    /// -1, 0, 1 and within each by vertical step -1, 0, 1; diagonal ones
    /// only when `with_diag`.
    pub fn get_adjacent(&self, loc: Location, with_diag: bool) -> (r: Vec<Location>)
        requires
            self.wf(),
        ensures
            r@ == adjacent_spec(self.spec_width(), self.spec_height(), loc, with_diag),
    {
        let ghost w = self.width as int;
        let ghost h = self.height as int;
        let mut adjacent: Vec<Location> = Vec::new();
        let mut i: i32 = -1;
        while i < 2
            invariant
                -1 <= i <= 2,
                w == self.width,
                h == self.height,
                adjacent@ == adjacent_upto(w, h, loc, with_diag, (i + 1) * 3),
            decreases 2 - i,
        {
            let mut j: i32 = -1;
            while j < 2
                invariant
                    -1 <= i < 2,
                    -1 <= j <= 2,
                    w == self.width,
                    h == self.height,
                    adjacent@ == adjacent_upto(w, h, loc, with_diag, (i + 1) * 3 + (j + 1)),
                decreases 2 - j,
            {
                let ghost k = (i + 1) * 3 + (j + 1);
                proof {
                    vstd::arithmetic::div_mod::lemma_fundamental_div_mod_converse(k, 3, i + 1, j + 1);
                }
                if (i != 0 || j != 0) && (with_diag || i == 0 || j == 0) {
                    let new_x: i64 = loc.x as i64 + i as i64;
                    let new_y: i64 = loc.y as i64 + j as i64;
                    if new_x >= 0 && new_x < self.width as i64 && new_y >= 0 && new_y < self.height as i64 {
                        adjacent.push(Location::new(new_x as i32, new_y as i32));
                    }
                }
                j = j + 1;
            }
            i = i + 1;
        }
        adjacent
    }

    /// Whether every tile of `feature` stands at least one cell inside each
    /// edge, over a cell that is currently `Nothing`.
    pub fn can_fit(&self, feature: &Feature) -> (r: bool)
        requires
            self.wf(),
        ensures
            r == fits(self.spec_width(), self.spec_height(), self.cells(), feature@),
    {
        let tiles = feature.as_slice();
        let mut k: usize = 0;
        while k < tiles.len()
            invariant
                self.wf(),
                tiles@ == feature@,
                k <= tiles@.len(),
                fits(self.spec_width(), self.spec_height(), self.cells(), tiles@.take(k as int)),
            decreases tiles@.len() - k,
        {
            let tile = tiles[k];
            if tile.loc.x <= 0 || tile.loc.y <= 0 || tile.loc.x >= self.width - 1 || tile.loc.y >= self.height - 1 {
                assert(!fits(self.spec_width(), self.spec_height(), self.cells(), feature@)) by {
                    assert(feature@[k as int] == tile);
                }
                return false;
            }
            if self.get_tile(tile.loc).terrain != Terrain::Nothing {
                assert(!fits(self.spec_width(), self.spec_height(), self.cells(), feature@)) by {
                    assert(feature@[k as int] == tile);
                }
                return false;
            }
            k = k + 1;
            assert forall|j: int| 0 <= j < k implies #[trigger] tiles@.take(k as int)[j] == tiles@.take(k - 1)[j] || j == k - 1 by {
            }
        }
        assert(tiles@.take(k as int) =~= feature@);
        true
    }

    /// Writes every tile of `feature` over the cell of its location, in order.
    fn draw_feature(&mut self, feature: &Feature)
        requires
            old(self).wf(),
            all_in_grid(old(self).spec_width(), old(self).spec_height(), feature@),
        ensures
            final(self).wf(),
            final(self).spec_width() == old(self).spec_width(),
            final(self).spec_height() == old(self).spec_height(),
            final(self).cells() == paint(old(self).cells(), old(self).spec_width(), feature@),
    {
        let ghost start = self.cells();
        let ghost w = self.spec_width();
        let tiles = feature.as_slice();
        let mut k: usize = 0;
        while k < tiles.len()
            invariant
                self.wf(),
                tiles@ == feature@,
                w == self.spec_width(),
                self.spec_height() == old(self).spec_height(),
                all_in_grid(w, self.spec_height(), feature@),
                k <= tiles@.len(),
                self.cells() == paint(start, w, tiles@.take(k as int)),
            decreases tiles@.len() - k,
        {
            let tile = tiles[k];
            assert(tiles@.take(k + 1).drop_last() =~= tiles@.take(k as int));
            assert(loc_in_grid(w, self.spec_height(), feature@[k as int].loc));
            self.set_terrain(tile.loc, tile.terrain);
            k = k + 1;
        }
        assert(tiles@.take(k as int) =~= feature@);
    }

    /// Resets the cell of every tile of `feature` to `Nothing`.
    fn undraw_feature(&mut self, feature: &Feature)
        requires
            old(self).wf(),
            all_in_grid(old(self).spec_width(), old(self).spec_height(), feature@),
        ensures
            final(self).wf(),
            final(self).spec_width() == old(self).spec_width(),
            final(self).spec_height() == old(self).spec_height(),
            final(self).cells() == paint(old(self).cells(), old(self).spec_width(), erased(feature@)),
    {
        let ghost start = self.cells();
        let ghost w = self.spec_width();
        let ghost er = erased(feature@);
        let tiles = feature.as_slice();
        let mut k: usize = 0;
        while k < tiles.len()
            invariant
                self.wf(),
                tiles@ == feature@,
                er == erased(feature@),
                w == self.spec_width(),
                self.spec_height() == old(self).spec_height(),
                all_in_grid(w, self.spec_height(), feature@),
                k <= tiles@.len(),
                self.cells() == paint(start, w, er.take(k as int)),
            decreases tiles@.len() - k,
        {
            let tile = tiles[k];
            assert(er.take(k + 1).drop_last() =~= er.take(k as int));
            assert(loc_in_grid(w, self.spec_height(), feature@[k as int].loc));
            self.set_terrain(tile.loc, Terrain::Nothing);
            k = k + 1;
        }
        assert(er.take(k as int) =~= er);
    }

    /// Whether some neighbour of `loc` has the given terrain.
    fn any_adjacent(&self, loc: Location, with_diag: bool, terrain: Terrain) -> (r: bool)
        requires
            self.wf(),
        ensures
            r == any_neighbor(self.spec_width(), self.spec_height(), self.cells(), loc, with_diag, terrain),
    {
        let adjacent = self.get_adjacent(loc, with_diag);
        proof {
            lemma_adjacent(self.spec_width(), self.spec_height(), loc, with_diag);
        }
        let mut k: usize = 0;
        while k < adjacent.len()
            invariant
                self.wf(),
                adjacent@ == adjacent_spec(self.spec_width(), self.spec_height(), loc, with_diag),
                forall|m: Location| #[trigger] adjacent@.contains(m) <==> is_neighbor(self.spec_width(), self.spec_height(), loc, m, with_diag),
                k <= adjacent@.len(),
                forall|j: int| 0 <= j < k ==> #[trigger] self.terrain_at(adjacent@[j]) != terrain,
            decreases adjacent@.len() - k,
        {
            let m = adjacent[k];
            assert(adjacent@.contains(m));
            if self.get_tile(m).terrain == terrain {
                assert(is_neighbor(self.spec_width(), self.spec_height(), loc, m, with_diag));
                return true;
            }
            k = k + 1;
        }
        assert forall|m: Location| #[trigger] is_neighbor(self.spec_width(), self.spec_height(), loc, m, with_diag)
            implies self.terrain_at(m) != terrain by {
            assert(adjacent@.contains(m));
            let j = choose|j: int| 0 <= j < adjacent@.len() && adjacent@[j] == m;
        }
        false
    }

    /// How many neighbours of `loc` have the given terrain.
    fn count_adjacent(&self, loc: Location, with_diag: bool, terrain: Terrain) -> (r: usize)
        requires
            self.wf(),
        ensures
            r == count_terrain(self.cells(), self.spec_width(), adjacent_spec(self.spec_width(), self.spec_height(), loc, with_diag), terrain),
    {
        let adjacent = self.get_adjacent(loc, with_diag);
        proof {
            lemma_adjacent(self.spec_width(), self.spec_height(), loc, with_diag);
        }
        let ghost w = self.spec_width();
        let mut count: usize = 0;
        let mut k: usize = 0;
        while k < adjacent.len()
            invariant
                self.wf(),
                w == self.spec_width(),
                adjacent@ == adjacent_spec(self.spec_width(), self.spec_height(), loc, with_diag),
                forall|m: Location| #[trigger] adjacent@.contains(m) <==> is_neighbor(self.spec_width(), self.spec_height(), loc, m, with_diag),
                adjacent@.len() <= 9,
                k <= adjacent@.len(),
                count <= k,
                count == count_terrain(self.cells(), w, adjacent@.take(k as int), terrain),
            decreases adjacent@.len() - k,
        {
            let m = adjacent[k];
            assert(adjacent@.contains(m));
            assert(adjacent@.take(k + 1).drop_last() =~= adjacent@.take(k as int));
            if self.get_tile(m).terrain == terrain {
                count = count + 1;
            }
            k = k + 1;
        }
        assert(adjacent@.take(k as int) =~= adjacent@);
        count
    }

    /// Turns every `Nothing` cell next to a floor (diagonals included) into
    /// a wall, after which no floor has a `Nothing` neighbour.
    pub fn surround_floors_with_walls(&mut self)
        requires
            old(self).wf(),
        ensures
            final(self).wf(),
            final(self).spec_width() == old(self).spec_width(),
            final(self).spec_height() == old(self).spec_height(),
            final(self).cells() == surround_spec(old(self).spec_width(), old(self).spec_height(), old(self).cells()),
            floors_enclosed(final(self).spec_width(), final(self).spec_height(), final(self).cells()),
            floors_kept(old(self).cells(), final(self).cells()),
    {
        let ghost w = self.spec_width();
        let ghost h = self.spec_height();
        let ghost target = surround_spec(w, h, self.cells());
        let n = self.tiles.len();
        let mut next: Vec<Tile> = Vec::new();
        let mut i: usize = 0;
        while i < n
            invariant
                self.wf(),
                w == self.spec_width(),
                h == self.spec_height(),
                n == self.cells().len(),
                target == surround_spec(w, h, self.cells()),
                i <= n,
                next@ == target.take(i as int),
            decreases n - i,
        {
            let t = self.tiles[i];
            if t.terrain == Terrain::Nothing && self.any_adjacent(t.loc, true, Terrain::Floor) {
                next.push(Tile::new(t.loc, Terrain::Wall));
            } else {
                next.push(t);
            }
            i = i + 1;
            assert(next@ =~= target.take(i as int));
        }
        assert(next@ =~= target);
        proof {
            lemma_surround_encloses(w, h, self.cells());
        }
        self.tiles = next;
    }

    /// Turns every wall with at least three cardinal floor neighbours into floor.
    fn clear_slivers(&mut self)
        requires
            old(self).wf(),
        ensures
            final(self).wf(),
            final(self).spec_width() == old(self).spec_width(),
            final(self).spec_height() == old(self).spec_height(),
            final(self).cells() == clear_slivers_spec(old(self).spec_width(), old(self).spec_height(), old(self).cells()),
            floors_kept(old(self).cells(), final(self).cells()),
    {
        let ghost w = self.spec_width();
        let ghost h = self.spec_height();
        let ghost target = clear_slivers_spec(w, h, self.cells());
        let n = self.tiles.len();
        let mut next: Vec<Tile> = Vec::new();
        let mut i: usize = 0;
        while i < n
            invariant
                self.wf(),
                w == self.spec_width(),
                h == self.spec_height(),
                n == self.cells().len(),
                target == clear_slivers_spec(w, h, self.cells()),
                i <= n,
                next@ == target.take(i as int),
            decreases n - i,
        {
            let t = self.tiles[i];
            proof {
                lemma_cell_index(w, h, self.cells(), i as int);
            }
            if t.terrain == Terrain::Wall && self.count_adjacent(t.loc, false, Terrain::Floor) >= 3 {
                next.push(Tile::new(t.loc, Terrain::Floor));
            } else {
                next.push(t);
            }
            i = i + 1;
            assert(next@ =~= target.take(i as int));
        }
        assert(next@ =~= target);
        assert forall|k: int| 0 <= k < next@.len() implies (#[trigger] next@[k]).loc == cell_loc(w, k) by {
            assert(self.cells()[k].loc == cell_loc(w, k));
        }
        self.tiles = next;
    }

    /// The locations of the tiles with the given terrain, in row-major order.
    fn locations_with(&self, terrain: Terrain) -> (r: Vec<Location>)
        requires
            self.wf(),
        ensures
            r@ == locs_with(self.cells(), terrain),
            forall|l: Location| #[trigger] r@.contains(l) ==> self.in_bounds(l) && self.terrain_at(l) == terrain,
    {
        let mut out: Vec<Location> = Vec::new();
        let mut k: usize = 0;
        while k < self.tiles.len()
            invariant
                k <= self.tiles@.len(),
                out@ == locs_with(self.tiles@.take(k as int), terrain),
            decreases self.tiles@.len() - k,
        {
            assert(self.tiles@.take(k + 1).drop_last() =~= self.tiles@.take(k as int));
            if self.tiles[k].terrain == terrain {
                out.push(self.tiles[k].loc);
            }
            k = k + 1;
        }
        assert(self.tiles@.take(k as int) =~= self.tiles@);
        assert forall|l: Location| #[trigger] out@.contains(l) implies self.in_bounds(l) && self.terrain_at(l) == terrain by {
            lemma_locs_with_member(self.cells(), terrain, l);
            let i = choose|i: int| 0 <= i < self.cells().len() && (#[trigger] self.cells()[i]).loc == l && self.cells()[i].terrain == terrain;
            lemma_cell_index(self.spec_width(), self.spec_height(), self.cells(), i);
        }
        out
    }

    /// One growth attempt from the given wall, hallway length, order of
    /// directions and feature: open the wall, run the hallway in the first
    /// direction in which it fits, open its far end and attach the feature
    /// there. When no direction fits, or the feature does not, the grid is
    /// left as it was.
    pub fn grow_with(
        &mut self,
        rand_wall: Location,
        hallway_len: i32,
        orientations: &Vec<(VerticalAlignment, HorizontalAlignment)>,
        feature: &Feature,
    )
        requires
            old(self).wf(),
            old(self).in_bounds(rand_wall),
            old(self).terrain_at(rand_wall) == Terrain::Wall,
            0 < hallway_len,
            forall|j: int| 0 <= j < orientations@.len() ==> is_orientation(#[trigger] orientations@[j].0, orientations@[j].1),
            all_terrain(feature@, Terrain::Floor),
            floors_enclosed(old(self).spec_width(), old(self).spec_height(), old(self).cells()),
            floors_inside(old(self).spec_width(), old(self).spec_height(), old(self).cells()),
            walls_border_floors(old(self).spec_width(), old(self).spec_height(), old(self).cells()),
        ensures
            floors_inside(final(self).spec_width(), final(self).spec_height(), final(self).cells()),
            walls_border_floors(final(self).spec_width(), final(self).spec_height(), final(self).cells()),
            final(self).wf(),
            final(self).spec_width() == old(self).spec_width(),
            final(self).spec_height() == old(self).spec_height(),
            final(self).cells() == grow_spec(
                old(self).spec_width(),
                old(self).spec_height(),
                old(self).cells(),
                rand_wall,
                hallway_len as int,
                orientations@,
                feature@,
            ),
            floors_enclosed(final(self).spec_width(), final(self).spec_height(), final(self).cells()),
            floors_kept(old(self).cells(), final(self).cells()),
    {
        let ghost w = self.spec_width();
        let ghost h = self.spec_height();
        let ghost s0 = self.cells();
        proof {
            lemma_index(w, h, rand_wall);
        }
        self.set_terrain(rand_wall, Terrain::Nothing);
        let ghost s1 = self.cells();
        proof {
            lemma_opened_grown(w, h, s0, s0, rand_wall, Terrain::Nothing);
        }
        let ghost order = orientations@;
        proof {
            assert(order.subrange(0, order.len() as int) =~= order);
        }
        let mut chosen: Option<(VerticalAlignment, HorizontalAlignment, Feature)> = None;
        let mut k: usize = 0;
        while k < orientations.len() && chosen.is_none()
            invariant
                self.wf(),
                self.cells() == s1,
                s1 == opened(s0, w, rand_wall, Terrain::Nothing),
                self.spec_width() == w,
                self.spec_height() == h,
                0 < hallway_len,
                order == orientations@,
                chosen is None ==> first_fitting(w, h, s1, rand_wall, hallway_len as int, order) == first_fitting(
                    w,
                    h,
                    s1,
                    rand_wall,
                    hallway_len as int,
                    order.subrange(k as int, order.len() as int),
                ),
                chosen matches Some((v, hz, hw)) ==> first_fitting(w, h, s1, rand_wall, hallway_len as int, order) == Some((v, hz))
                    && hw@ == hallway_at(rand_wall, hallway_len as int, (v, hz)),
                forall|j: int| 0 <= j < orientations@.len() ==> is_orientation(#[trigger] orientations@[j].0, orientations@[j].1),
                k <= orientations@.len(),
                chosen matches Some((v, hz, hw)) ==> is_orientation(v, hz),
                chosen matches Some((v, hz, hw)) ==> fits(w, h, s1, hw@),
                chosen matches Some((v, hz, hw)) ==> all_terrain(hw@, Terrain::Floor),
                chosen matches Some((v, hz, hw)) ==> exists|j: int| 0 <= j < hw@.len() && (#[trigger] hw@[j]).loc == hallway_end(rand_wall, hallway_len as int, v, hz),
                chosen matches Some((v, hz, hw)) ==> i32::MIN <= (if v == VerticalAlignment::Center {
                        if hz == HorizontalAlignment::Left { rand_wall.x + hallway_len - 1 } else { rand_wall.x - hallway_len + 1 }
                    } else {
                        if v == VerticalAlignment::Top { rand_wall.y + hallway_len - 1 } else { rand_wall.y - hallway_len + 1 }
                    }) <= i32::MAX,
            decreases orientations@.len() - k,
        {
            let (vert, horiz) = orientations[k];
            assert(is_orientation(orientations@[k as int].0, orientations@[k as int].1));
            let is_horiz = vert == VerticalAlignment::Center;
            let hw = Feature::hallway(hallway_len, is_horiz);
            proof {
                assert(hw@ =~= hallway_seq(hallway_len as int, is_horiz));
                assert(order.subrange(k as int, order.len() as int).drop_first() =~= order.subrange(k + 1, order.len() as int));
                assert(order.subrange(k as int, order.len() as int)[0] == (vert, horiz));
            }
            match hw.try_place(vert, horiz, rand_wall) {
                Some(placed) => {
                    let ghost j: int = if horiz == HorizontalAlignment::Left || vert == VerticalAlignment::Top {
                        hallway_len - 1
                    } else {
                        0
                    };
                    proof {
                        lemma_hallway_end(hw, hallway_len as int, vert, horiz, rand_wall);
                        assert(0 <= j < placed@.len());
                        assert(placed@[j].loc == hallway_end(rand_wall, hallway_len as int, vert, horiz));
                    }
                    if self.can_fit(&placed) {
                        assert(exists|i: int| 0 <= i < placed@.len() && (#[trigger] placed@[i]).loc == hallway_end(rand_wall, hallway_len as int, vert, horiz));
                        chosen = Some((vert, horiz, placed));
                    }
                },
                None => {},
            }
            k = k + 1;
        }
        proof {
            if chosen is None {
                assert(order.subrange(k as int, order.len() as int).len() == 0);
            }
        }
        match chosen {
            None => {
                self.set_terrain(rand_wall, Terrain::Wall);
                assert(self.cells() =~= s0);
            },
            Some((vert, horiz, hallway)) => {
                proof {
                    lemma_fits_in_grid(w, h, s1, hallway@);
                }
                self.draw_feature(&hallway);
                let ghost s2 = self.cells();
                proof {
                    lemma_paint_grown(w, h, s0, s1, hallway@);
                }
                let ex: i64 = if vert == VerticalAlignment::Center {
                    if horiz == HorizontalAlignment::Left {
                        rand_wall.x as i64 + hallway_len as i64 - 1
                    } else {
                        rand_wall.x as i64 - hallway_len as i64 + 1
                    }
                } else {
                    if vert == VerticalAlignment::Top {
                        rand_wall.y as i64 + hallway_len as i64 - 1
                    } else {
                        rand_wall.y as i64 - hallway_len as i64 + 1
                    }
                };
                let end = if vert == VerticalAlignment::Center {
                    Location::new(ex as i32, rand_wall.y)
                } else {
                    Location::new(rand_wall.x, ex as i32)
                };
                let ghost jend = choose|j: int| 0 <= j < hallway@.len() && (#[trigger] hallway@[j]).loc == hallway_end(rand_wall, hallway_len as int, vert, horiz);
                assert(hallway@[jend].loc == end);
                assert(covers(w, hallway@, cell_index(w, end)));
                assert(terrain_of(s1, w, end) == Terrain::Nothing);
                proof {
                    lemma_index(w, h, end);
                    lemma_paint_uniform(w, h, s1, hallway@, Terrain::Floor);
                }
                self.set_terrain(end, Terrain::Nothing);
                let ghost s3 = self.cells();
                proof {
                    lemma_opened_grown(w, h, s0, s2, end, Terrain::Nothing);
                }
                assert(floors_kept(s0, s3));
                let mut attached = false;
                match feature.try_place(vert, horiz, end) {
                    Some(placed) => {
                        if self.can_fit(&placed) {
                            proof {
                                lemma_fits_in_grid(w, h, s3, placed@);
                                lemma_paint_uniform(w, h, s3, placed@, Terrain::Floor);
                                assert forall|i: int| 0 <= i < placed@.len() implies (#[trigger] placed@[i]).terrain == Terrain::Floor by {
                                    assert(placed@[i].terrain == feature@[i].terrain);
                                }
                            }
                            self.draw_feature(&placed);
                            let ghost s4 = self.cells();
                            assert(floors_kept(s0, s4));
                            proof {
                                lemma_paint_grown(w, h, s0, s3, placed@);
                            }
                            self.set_terrain(end, Terrain::Floor);
                            let ghost s5 = self.cells();
                            assert(floors_kept(s0, s5));
                            proof {
                                assert(0 < hallway@[jend].loc.x < w - 1 && 0 < hallway@[jend].loc.y < h - 1);
                                lemma_opened_grown(w, h, s0, s4, end, Terrain::Floor);
                                lemma_grown_keeps(w, h, s0, s5);
                                lemma_surround_keeps(w, h, s5);
                            }
                            self.surround_floors_with_walls();
                            attached = true;
                        }
                    },
                    None => {},
                }
                if !attached {
                    self.undraw_feature(&hallway);
                    self.set_terrain(rand_wall, Terrain::Wall);
                    proof {
                        lemma_rollback(w, h, s0, hallway@, rand_wall, end);
                    }
                }
            },
        }
    }

    /// One growth attempt with a random wall, hallway length of 5 to 14,
    /// order of the four directions and feature.
    fn grow(&mut self, table: &RandomTable<FeatureKind>, rng: &mut StdRng)
        requires
            old(self).wf(),
            floors_enclosed(old(self).spec_width(), old(self).spec_height(), old(self).cells()),
            floors_inside(old(self).spec_width(), old(self).spec_height(), old(self).cells()),
            walls_border_floors(old(self).spec_width(), old(self).spec_height(), old(self).cells()),
        ensures
            floors_inside(final(self).spec_width(), final(self).spec_height(), final(self).cells()),
            walls_border_floors(final(self).spec_width(), final(self).spec_height(), final(self).cells()),
            final(self).wf(),
            final(self).spec_width() == old(self).spec_width(),
            final(self).spec_height() == old(self).spec_height(),
            floors_enclosed(final(self).spec_width(), final(self).spec_height(), final(self).cells()),
            floors_kept(old(self).cells(), final(self).cells()),
    {
        let walls = self.locations_with(Terrain::Wall);
        if walls.len() == 0 {
            return;
        }
        let rand_wall = walls.random(rng);
        assert(walls@.contains(rand_wall));
        let hallway_len = random_in(rng, 5, 15);
        let mut orientations = vec![
            (VerticalAlignment::Center, HorizontalAlignment::Left),
            (VerticalAlignment::Center, HorizontalAlignment::Right),
            (VerticalAlignment::Top, HorizontalAlignment::Center),
            (VerticalAlignment::Bottom, HorizontalAlignment::Center),
        ];
        let ghost before = orientations@;
        assert forall|j: int| 0 <= j < before.len() implies is_orientation(#[trigger] before[j].0, before[j].1) by {
        }
        shuffle(rng, &mut orientations);
        proof {
            before.to_multiset_ensures();
            orientations@.to_multiset_ensures();
            assert forall|j: int| 0 <= j < orientations@.len() implies is_orientation(
                #[trigger] orientations@[j].0,
                orientations@[j].1,
            ) by {
                let x = orientations@[j];
                assert(orientations@.contains(x));
                assert(orientations@.to_multiset().count(x) > 0);
                assert(before.to_multiset().count(x) > 0);
                let i = choose|i: int| 0 <= i < before.len() && before[i] == x;
                assert(is_orientation(before[i].0, before[i].1));
            }
        }
        let kind = *table.generate(rng);
        let feature = kind.build(rng);
        self.grow_with(rand_wall, hallway_len, &orientations, &feature);
    }

    /// The first feature placement: `f` centred at the first anchor, in
    /// order, where it fits; `None` when it fits at none of them.
    pub fn place_first(&self, f: &Feature, anchors: &Vec<Location>) -> (r: Option<Feature>)
        requires
            self.wf(),
        ensures
            r is None <==> forall|i: int| 0 <= i < anchors@.len() ==> !centred_fit(
                self.spec_width(),
                self.spec_height(),
                self.cells(),
                f@,
                #[trigger] anchors@[i],
            ),
            r matches Some(p) ==> exists|i: int| {
                &&& 0 <= i < anchors@.len()
                &&& centred_fit(self.spec_width(), self.spec_height(), self.cells(), f@, #[trigger] anchors@[i])
                &&& p@ == place_spec(f@, VerticalAlignment::Center, HorizontalAlignment::Center, anchors@[i])
                &&& forall|j: int| 0 <= j < i ==> !centred_fit(self.spec_width(), self.spec_height(), self.cells(), f@, #[trigger] anchors@[j])
            },
    {
        let mut k: usize = 0;
        while k < anchors.len()
            invariant
                self.wf(),
                k <= anchors@.len(),
                forall|j: int| 0 <= j < k ==> !centred_fit(self.spec_width(), self.spec_height(), self.cells(), f@, #[trigger] anchors@[j]),
            decreases anchors@.len() - k,
        {
            match f.try_place(VerticalAlignment::Center, HorizontalAlignment::Center, anchors[k]) {
                Some(p) => {
                    if self.can_fit(&p) {
                        assert(centred_fit(self.spec_width(), self.spec_height(), self.cells(), f@, anchors@[k as int]));
                        return Some(p);
                    }
                },
                None => {},
            }
            k = k + 1;
        }
        None
    }

    /// Generates a level: a first feature placed near the centre, grown
    /// outwards by hallways and attached features, then cleaned of wall
    /// slivers. Returns the grid and a start location on a floor of the first
    /// feature, or an error when the first feature found no place.
    pub fn generate(rng: &mut StdRng, width: i32, height: i32) -> (r: Result<(WorldMap, Location), GenerateError>)
        requires
            width > 0,
            height > 0,
            width * height <= usize::MAX,
        ensures
            r matches Ok((world, start)) ==> {
                &&& world.wf()
                &&& world.spec_width() == width
                &&& world.spec_height() == height
                &&& world.in_bounds(start)
                &&& world.terrain_at(start) == Terrain::Floor
                &&& floors_enclosed(world.spec_width(), world.spec_height(), world.cells())
                &&& floors_inside(world.spec_width(), world.spec_height(), world.cells())
                &&& walls_border_floors(world.spec_width(), world.spec_height(), world.cells())
                &&& width >= 4 && height >= 4
            },
            r matches Err(e) ==> e == GenerateError::NoRoomForFirstFeature,
            roomy(width as int, height as int) ==> r is Ok,
    {
        let mut world = WorldMap::new(width, height);
        let ghost w = width as int;
        let ghost h = height as int;
        let entries = vec![(FeatureKind::Room, 1u32), (FeatureKind::DiamondRoom, 1u32), (FeatureKind::CircleRoom, 1u32)];
        proof {
            reveal_with_fuel(weight_sum, 4);
            assert(weights_of(entries@) =~= seq![1int, 1, 1]);
        }
        let feature_table = RandomTable::new(entries);
        let kind = *feature_table.generate(rng);
        let seed_shape = kind.build(rng);
        let mut anchors: Vec<Location> = Vec::new();
        while anchors.len() < FIRST_FEATURE_ATTEMPTS as usize
            invariant
                width > 0,
                height > 0,
                anchors@.len() <= FIRST_FEATURE_ATTEMPTS,
                forall|i: int| 0 <= i < anchors@.len() ==> near_middle(width as int, height as int, #[trigger] anchors@[i]),
            decreases FIRST_FEATURE_ATTEMPTS - anchors@.len(),
        {
            let feature_x = random_in(rng, width / 2 - 7, width / 2 + 7);
            let feature_y = random_in(rng, height / 2 - 7, height / 2 + 7);
            let ghost old_anchors = anchors@;
            let anchor = Location::new(feature_x, feature_y);
            assert(near_middle(width as int, height as int, anchor));
            anchors.push(anchor);
            assert forall|i: int| 0 <= i < anchors@.len() implies near_middle(width as int, height as int, #[trigger] anchors@[i]) by {
                if i < old_anchors.len() {
                    assert(anchors@[i] == old_anchors[i]);
                } else {
                    assert(anchors@[i] == anchor);
                }
            }
        }
        let first_feature = match world.place_first(&seed_shape, &anchors) {
            Some(p) => p,
            None => {
                proof {
                    if roomy(w, h) {
                        lemma_centered_inside(seed_shape@, anchors@[0], w, h);
                        let p = place_spec(seed_shape@, VerticalAlignment::Center, HorizontalAlignment::Center, anchors@[0]);
                        assert forall|k: int| 0 <= k < p.len() implies terrain_of(world.cells(), w, (#[trigger] p[k]).loc) == Terrain::Nothing by {
                            lemma_index(w, h, p[k].loc);
                        }
                        assert(centred_fit(w, h, world.cells(), seed_shape@, anchors@[0]));
                    }
                }
                return Err(GenerateError::NoRoomForFirstFeature);
            },
        };
        proof {
            let i = choose|i: int| 0 <= i < anchors@.len() && centred_fit(w, h, world.cells(), seed_shape@, anchors@[i]) && first_feature@ == place_spec(seed_shape@, VerticalAlignment::Center, HorizontalAlignment::Center, anchors@[i]);
            assert forall|k: int| 0 <= k < first_feature@.len() implies (#[trigger] first_feature@[k]).terrain == Terrain::Floor by {
                assert(first_feature@[k].terrain == seed_shape@[k].terrain);
            }
            let (a, b) = choose|a: int, b: int| #![trigger seed_shape@[a], seed_shape@[b]] 0 <= a < seed_shape@.len() && 0 <= b < seed_shape@.len() && seed_shape@[b].loc.x == seed_shape@[a].loc.x + 1 && seed_shape@[b].loc.y == seed_shape@[a].loc.y + 1;
            assert(first_feature@[b].loc.x == first_feature@[a].loc.x + 1);
            assert(first_feature@[b].loc.y == first_feature@[a].loc.y + 1);
            assert(width >= 4 && height >= 4);
        }
        proof {
            lemma_fits_in_grid(w, h, world.cells(), first_feature@);
            lemma_paint_uniform(w, h, world.cells(), first_feature@, Terrain::Floor);
        }
        world.draw_feature(&first_feature);
        assert forall|k: int| 0 <= k < first_feature@.len() implies terrain_of(world.cells(), w, #[trigger] first_feature@[k].loc) == Terrain::Floor by {
            lemma_index(w, h, first_feature@[k].loc);
        }
        let ghost before = world.cells();
        proof {
            assert forall|i: int| 0 <= i < before.len() && (#[trigger] before[i]).terrain == Terrain::Floor implies inside_margin(w, h, before[i].loc) by {
                let k = choose|k: int| 0 <= k < first_feature@.len() && cell_index(w, #[trigger] first_feature@[k].loc) == i;
                lemma_index(w, h, first_feature@[k].loc);
            }
            lemma_surround_keeps(w, h, before);
        }
        world.surround_floors_with_walls();
        proof {
            lemma_floors_at_kept(w, h, before, world.cells(), first_feature@);
        }
        let mut n: u32 = 0;
        while n < GROWTH_ATTEMPTS
            invariant
                world.wf(),
                world.spec_width() == w,
                world.spec_height() == h,
                floors_enclosed(w, h, world.cells()),
                floors_inside(w, h, world.cells()),
                walls_border_floors(w, h, world.cells()),
                all_in_grid(w, h, first_feature@),
                all_terrain(first_feature@, Terrain::Floor),
                first_feature@.len() > 0,
                floors_at(w, world.cells(), first_feature@),
            decreases GROWTH_ATTEMPTS - n,
        {
            let ghost before = world.cells();
            world.grow(&feature_table, rng);
            proof {
                lemma_floors_at_kept(w, h, before, world.cells(), first_feature@);
            }
            n = n + 1;
        }
        proof {
            lemma_clear_keeps_enclosed(w, h, world.cells());
            lemma_clear_keeps(w, h, world.cells());
        }
        let ghost before = world.cells();
        world.clear_slivers();
        proof {
            lemma_floors_at_kept(w, h, before, world.cells(), first_feature@);
            assert forall|k: int| 0 <= k < first_feature@.len() implies #[trigger] world.terrain_at(first_feature@[k].loc) == Terrain::Floor by {
                assert(terrain_of(world.cells(), w, first_feature@[k].loc) == Terrain::Floor);
            }
        }
        let floors = first_feature.floors();
        proof {
            lemma_locs_with_all(first_feature@, Terrain::Floor);
        }
        let starting_loc = floors.random(rng);
        proof {
            lemma_locs_with_member(first_feature@, Terrain::Floor, starting_loc);
        }
        Ok((world, starting_loc))
    }
}

} // verus!
