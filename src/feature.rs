//! Relocatable shapes of tiles given in a relative coordinate frame.

use vstd::prelude::*;
use crate::tile::{Location, Terrain, Tile, dist_sq, is_floor_sqrt, abs_int};
use crate::grid::lemma_push_contains;

verus! {

/// Column-major order on locations: by x, then by y.
pub open spec fn loc_before(a: Location, b: Location) -> bool {
    a.x < b.x || (a.x == b.x && a.y < b.y)
}

/// The tiles are listed in strictly increasing column-major order.
pub open spec fn in_scan_order(s: Seq<Tile>) -> bool {
    forall|i: int, j: int| 0 <= i < j < s.len() ==> loc_before(#[trigger] s[i].loc, #[trigger] s[j].loc)
}

/// `s` holds exactly the tiles that satisfy `pred`, in column-major order.
pub open spec fn lists_exactly(s: Seq<Tile>, pred: spec_fn(Tile) -> bool) -> bool {
    &&& in_scan_order(s)
    &&& forall|t: Tile| #[trigger] s.contains(t) <==> pred(t)
}

/// The origin of a feature's relative frame.
pub open spec fn origin() -> Location {
    Location { x: 0, y: 0 }
}

/// A floor cell of the `width` by `height` rectangle with corner at the origin.
pub open spec fn in_room(width: int, height: int) -> spec_fn(Tile) -> bool {
    |t: Tile| t.terrain == Terrain::Floor && 0 <= t.loc.x < width && 0 <= t.loc.y < height
}

/// A floor cell within Manhattan distance `radius` of the origin.
pub open spec fn in_diamond(radius: int) -> spec_fn(Tile) -> bool {
    |t: Tile| t.terrain == Terrain::Floor && abs_int(t.loc.x as int) + abs_int(t.loc.y as int) <= radius
}

/// A floor cell whose rounded-down Euclidean distance from the origin is at
/// most `radius`, that is, whose squared distance is below `(radius + 1)^2`.
pub open spec fn in_circle(radius: int) -> spec_fn(Tile) -> bool {
    |t: Tile| t.terrain == Terrain::Floor && dist_sq(t.loc, origin()) < (radius + 1) * (radius + 1)
}

/// The tile moved by `(dx, dy)`.
pub open spec fn shifted(t: Tile, dx: int, dy: int) -> Tile {
    Tile { loc: Location { x: (t.loc.x + dx) as i32, y: (t.loc.y + dy) as i32 }, terrain: t.terrain }
}

/// Every tile moved by `(dx, dy)` still has `i32` coordinates.
pub open spec fn can_shift(s: Seq<Tile>, dx: int, dy: int) -> bool {
    forall|k: int| 0 <= k < s.len() ==> {
        &&& i32::MIN <= #[trigger] s[k].loc.x + dx <= i32::MAX
        &&& i32::MIN <= s[k].loc.y + dy <= i32::MAX
    }
}

/// Every tile moved by `(dx, dy)`, order kept.
pub open spec fn translate_spec(s: Seq<Tile>, dx: int, dy: int) -> Seq<Tile> {
    Seq::new(s.len(), |k: int| shifted(s[k], dx, dy))
}

/// The x coordinates (`use_x`) or the y coordinates of the tiles, in order.
pub open spec fn coords(s: Seq<Tile>, use_x: bool) -> Seq<int> {
    Seq::new(s.len(), |k: int| if use_x { s[k].loc.x as int } else { s[k].loc.y as int })
}

/// The point of `[lo, hi]` that centre alignment uses: `lo + (hi - lo + 1) / 2`.
pub open spec fn midpoint(lo: int, hi: int) -> int {
    lo + (hi - lo + 1) / 2
}

/// The horizontal shift that `place` applies.
pub open spec fn horiz_offset(s: Seq<Tile>, align: HorizontalAlignment, anchor: Location) -> int {
    let lo = coords(s, true).min();
    let hi = coords(s, true).max();
    match align {
        HorizontalAlignment::Left => anchor.x - lo,
        HorizontalAlignment::Center => anchor.x - midpoint(lo, hi),
        HorizontalAlignment::Right => anchor.x - hi,
    }
}

/// The vertical shift that `place` applies.
pub open spec fn vert_offset(s: Seq<Tile>, align: VerticalAlignment, anchor: Location) -> int {
    let lo = coords(s, false).min();
    let hi = coords(s, false).max();
    match align {
        VerticalAlignment::Top => anchor.y - lo,
        VerticalAlignment::Center => anchor.y - midpoint(lo, hi),
        VerticalAlignment::Bottom => anchor.y - hi,
    }
}

/// Both shifts of `place` are `i32` values and keep every tile on `i32` coordinates.
pub open spec fn can_place(
    s: Seq<Tile>,
    vert: VerticalAlignment,
    horiz: HorizontalAlignment,
    anchor: Location,
) -> bool {
    let dx = horiz_offset(s, horiz, anchor);
    let dy = vert_offset(s, vert, anchor);
    &&& i32::MIN <= dx <= i32::MAX
    &&& i32::MIN <= dy <= i32::MAX
    &&& can_shift(s, dx, dy)
}

/// The tiles after `place`.
pub open spec fn place_spec(
    s: Seq<Tile>,
    vert: VerticalAlignment,
    horiz: HorizontalAlignment,
    anchor: Location,
) -> Seq<Tile> {
    translate_spec(s, horiz_offset(s, horiz, anchor), vert_offset(s, vert, anchor))
}

/// Some tile, location and terrain alike, lies in both sequences.
pub open spec fn tiles_overlap(a: Seq<Tile>, b: Seq<Tile>) -> bool {
    exists|i: int, j: int| 0 <= i < a.len() && 0 <= j < b.len() && a[i] == b[j]
}

/// The locations of the tiles with the given terrain, in order.
pub open spec fn locs_with(s: Seq<Tile>, terrain: Terrain) -> Seq<Location>
    decreases s.len(),
{
    if s.len() == 0 {
        Seq::empty()
    } else {
        let rest = locs_with(s.drop_last(), terrain);
        if s.last().terrain == terrain {
            rest.push(s.last().loc)
        } else {
            rest
        }
    }
}

/// The `k`-th cell of a hallway.
pub open spec fn hallway_tile(k: int, is_horiz: bool) -> Tile {
    let loc = if is_horiz { Location { x: k as i32, y: 0 } } else { Location { x: 0, y: k as i32 } };
    Tile { loc: loc, terrain: Terrain::Floor }
}

/// Largest radius for which the shape constructors keep to `i32` arithmetic.
pub open spec fn radius_fits(radius: i32) -> bool {
    0 <= radius < 0x4000_0000
}

/// A non-empty arrangement of tiles in a relative coordinate frame.
#[derive(Debug, PartialEq, Eq)]
pub struct Feature {
    tiles: Vec<Tile>,
}

impl View for Feature {
    type V = Seq<Tile>;

    closed spec fn view(&self) -> Seq<Tile> {
        self.tiles@
    }
}

/// Every tile of `s` comes before `b` in column-major order.
spec fn all_before(s: Seq<Tile>, b: Location) -> bool {
    forall|k: int| 0 <= k < s.len() ==> loc_before(#[trigger] s[k].loc, b)
}

proof fn lemma_push_in_order(s: Seq<Tile>, a: Tile)
    requires
        in_scan_order(s),
        all_before(s, a.loc),
    ensures
        in_scan_order(s.push(a)),
{
    assert forall|i: int, j: int| 0 <= i < j < s.push(a).len() implies loc_before(
        #[trigger] s.push(a)[i].loc,
        #[trigger] s.push(a)[j].loc,
    ) by {
        if j < s.len() {
            assert(s.push(a)[i] == s[i] && s.push(a)[j] == s[j]);
        } else {
            assert(s.push(a)[i] == s[i]);
        }
    }
}

impl Feature {
    #[verifier::type_invariant]
    spec fn non_empty(&self) -> bool {
        self.tiles@.len() > 0
    }

    /// A feature made of the given tiles.
    pub fn new(tiles: Vec<Tile>) -> (r: Self)
        requires
            tiles@.len() > 0,
        ensures
            r@ == tiles@,
    {
        Feature { tiles: tiles }
    }

    /// The floor cells of a `width` by `height` rectangle with corner at the origin.
    pub fn room(width: i32, height: i32) -> (r: Self)
        requires
            width > 0,
            height > 0,
        ensures
            lists_exactly(r@, in_room(width as int, height as int)),
            r@.len() > 0,
    {
        let ghost pred = in_room(width as int, height as int);
        let mut tiles: Vec<Tile> = Vec::new();
        let mut x: i32 = 0;
        while x < width
            invariant
                0 <= x <= width,
                height > 0,
                pred == in_room(width as int, height as int),
                in_scan_order(tiles@),
                all_before(tiles@, Location { x: x, y: 0 }),
                forall|t: Tile| #[trigger] tiles@.contains(t) <==> (pred(t) && t.loc.x < x),
            decreases width - x,
        {
            let mut y: i32 = 0;
            while y < height
                invariant
                    0 <= x < width,
                    0 <= y <= height,
                    pred == in_room(width as int, height as int),
                    in_scan_order(tiles@),
                    all_before(tiles@, Location { x: x, y: y }),
                    forall|t: Tile| #[trigger] tiles@.contains(t) <==> (pred(t) && loc_before(t.loc, Location { x: x, y: y })),
                decreases height - y,
            {
                let t = Tile::new(Location::new(x, y), Terrain::Floor);
                proof {
                    lemma_push_in_order(tiles@, t);
                    lemma_push_contains(tiles@, t);
                }
                tiles.push(t);
                y = y + 1;
            }
            x = x + 1;
        }
        let ghost first = Tile { loc: Location { x: 0, y: 0 }, terrain: Terrain::Floor };
        assert(tiles@.contains(first));
        Feature { tiles: tiles }
    }

    /// The floor cells within Manhattan distance `radius` of the origin.
    pub fn diamond_room(radius: i32) -> (r: Self)
        requires
            radius_fits(radius),
        ensures
            lists_exactly(r@, in_diamond(radius as int)),
            r@.len() > 0,
    {
        let ghost pred = in_diamond(radius as int);
        let center = Location::new(0, 0);
        let mut tiles: Vec<Tile> = Vec::new();
        let mut i: i32 = -radius;
        while i < radius + 1
            invariant
                radius_fits(radius),
                -radius <= i <= radius + 1,
                center == origin(),
                pred == in_diamond(radius as int),
                in_scan_order(tiles@),
                all_before(tiles@, Location { x: i, y: -radius as i32 }),
                forall|t: Tile| #[trigger] tiles@.contains(t) <==> (pred(t) && t.loc.x < i),
            decreases radius + 1 - i,
        {
            let mut j: i32 = -radius;
            while j < radius + 1
                invariant
                    radius_fits(radius),
                    -radius <= i <= radius,
                    -radius <= j <= radius + 1,
                    center == origin(),
                    pred == in_diamond(radius as int),
                    in_scan_order(tiles@),
                    all_before(tiles@, Location { x: i, y: j }),
                    forall|t: Tile| #[trigger] tiles@.contains(t) <==> (pred(t) && loc_before(t.loc, Location { x: i, y: j })),
                decreases radius + 1 - j,
            {
                let loc = Location::new(i, j);
                let dist = loc.manhattan(&center);
                if dist <= radius {
                    let t = Tile::new(loc, Terrain::Floor);
                    proof {
                        lemma_push_in_order(tiles@, t);
                        lemma_push_contains(tiles@, t);
                    }
                    tiles.push(t);
                }
                j = j + 1;
            }
            i = i + 1;
        }
        let ghost first = Tile { loc: Location { x: 0, y: 0 }, terrain: Terrain::Floor };
        assert(tiles@.contains(first));
        Feature { tiles: tiles }
    }

    /// The floor cells whose rounded-down Euclidean distance from the origin
    /// is at most `radius`.
    pub fn circle_room(radius: i32) -> (r: Self)
        requires
            radius_fits(radius),
        ensures
            lists_exactly(r@, in_circle(radius as int)),
            r@.len() > 0,
    {
        let ghost pred = in_circle(radius as int);
        proof {
            lemma_circle_box(radius as int);
        }
        let center = Location::new(0, 0);
        let mut tiles: Vec<Tile> = Vec::new();
        let mut i: i32 = -radius;
        while i < radius + 1
            invariant
                radius_fits(radius),
                -radius <= i <= radius + 1,
                center == origin(),
                pred == in_circle(radius as int),
                forall|t: Tile| #[trigger] pred(t) ==> -radius <= t.loc.x <= radius && -radius <= t.loc.y <= radius,
                in_scan_order(tiles@),
                all_before(tiles@, Location { x: i, y: -radius as i32 }),
                forall|t: Tile| #[trigger] tiles@.contains(t) <==> (pred(t) && t.loc.x < i),
            decreases radius + 1 - i,
        {
            let mut j: i32 = -radius;
            while j < radius + 1
                invariant
                    radius_fits(radius),
                    -radius <= i <= radius,
                    -radius <= j <= radius + 1,
                    center == origin(),
                    pred == in_circle(radius as int),
                    forall|t: Tile| #[trigger] pred(t) ==> -radius <= t.loc.x <= radius && -radius <= t.loc.y <= radius,
                    in_scan_order(tiles@),
                    all_before(tiles@, Location { x: i, y: j }),
                    forall|t: Tile| #[trigger] tiles@.contains(t) <==> (pred(t) && loc_before(t.loc, Location { x: i, y: j })),
                decreases radius + 1 - j,
            {
                let loc = Location::new(i, j);
                proof {
                    lemma_square_bound(i as int, radius as int);
                    lemma_square_bound(j as int, radius as int);
                }
                let dist = loc.euclidean(&center);
                proof {
                    lemma_floor_sqrt_le(dist_sq(loc, center), dist as int, radius as int);
                }
                if dist <= radius {
                    let t = Tile::new(loc, Terrain::Floor);
                    proof {
                        lemma_push_in_order(tiles@, t);
                        lemma_push_contains(tiles@, t);
                    }
                    tiles.push(t);
                }
                j = j + 1;
            }
            i = i + 1;
        }
        let ghost first = Tile { loc: Location { x: 0, y: 0 }, terrain: Terrain::Floor };
        assert(dist_sq(first.loc, origin()) == 0);
        assert(0 < (radius + 1) * (radius + 1)) by (nonlinear_arith)
            requires radius >= 0;
        assert(tiles@.contains(first));
        Feature { tiles: tiles }
    }

    /// A one-cell-wide line of `length` floor cells starting at the origin,
    /// along the x axis when `is_horiz` and along the y axis otherwise.
    pub fn hallway(length: i32, is_horiz: bool) -> (r: Self)
        requires
            length > 0,
        ensures
            r@.len() == length,
            forall|k: int| 0 <= k < length ==> #[trigger] r@[k] == hallway_tile(k, is_horiz),
    {
        let mut tiles: Vec<Tile> = Vec::new();
        let mut i: i32 = 0;
        while i < length
            invariant
                0 <= i <= length,
                tiles@.len() == i,
                forall|k: int| 0 <= k < i ==> #[trigger] tiles@[k] == hallway_tile(k, is_horiz),
            decreases length - i,
        {
            if is_horiz {
                tiles.push(Tile::new(Location::new(i, 0), Terrain::Floor));
            } else {
                tiles.push(Tile::new(Location::new(0, i), Terrain::Floor));
            }
            i = i + 1;
        }
        Feature { tiles: tiles }
    }

    /// Every tile moved by `(x, y)`.
    pub fn translate(&self, x: i32, y: i32) -> (r: Self)
        requires
            can_shift(self@, x as int, y as int),
        ensures
            r@ == translate_spec(self@, x as int, y as int),
            r@.len() > 0,
    {
        proof {
            use_type_invariant(self);
        }
        let mut tiles: Vec<Tile> = Vec::new();
        let mut k: usize = 0;
        while k < self.tiles.len()
            invariant
                k <= self.tiles@.len(),
                can_shift(self.tiles@, x as int, y as int),
                tiles@ == translate_spec(self.tiles@.take(k as int), x as int, y as int),
            decreases self.tiles@.len() - k,
        {
            let t = self.tiles[k];
            tiles.push(Tile::new(Location::new(t.loc.x + x, t.loc.y + y), t.terrain));
            k = k + 1;
            assert(tiles@ =~= translate_spec(self.tiles@.take(k as int), x as int, y as int));
        }
        assert(self.tiles@.take(k as int) =~= self.tiles@);
        Feature { tiles: tiles }
    }

    /// The feature moved so that the chosen edges (or centre) of its bounding
    /// box meet `loc`. Centre alignment uses `min + (max - min + 1) / 2`.
    pub fn place(
        &self,
        vert_align: VerticalAlignment,
        horiz_align: HorizontalAlignment,
        loc: Location,
    ) -> (r: Self)
        requires
            can_place(self@, vert_align, horiz_align, loc),
        ensures
            r@ == place_spec(self@, vert_align, horiz_align, loc),
            r@.len() > 0,
    {
        proof {
            use_type_invariant(self);
        }
        let horiz: i64 = match horiz_align {
            HorizontalAlignment::Left => loc.x as i64 - self.min_x() as i64,
            HorizontalAlignment::Center => {
                let lo = self.min_x() as i64;
                let hi = self.max_x() as i64;
                proof {
                    lemma_min_le_max(self@, true);
                }
                loc.x as i64 - (lo + (hi - lo + 1) / 2)
            },
            HorizontalAlignment::Right => loc.x as i64 - self.max_x() as i64,
        };
        let vert: i64 = match vert_align {
            VerticalAlignment::Top => loc.y as i64 - self.min_y() as i64,
            VerticalAlignment::Center => {
                let lo = self.min_y() as i64;
                let hi = self.max_y() as i64;
                proof {
                    lemma_min_le_max(self@, false);
                }
                loc.y as i64 - (lo + (hi - lo + 1) / 2)
            },
            VerticalAlignment::Bottom => loc.y as i64 - self.max_y() as i64,
        };
        self.translate(horiz as i32, vert as i32)
    }


    /// `place`, when its shifts and the moved tiles keep to `i32`
    /// coordinates; `None` otherwise.
    pub fn try_place(
        &self,
        vert_align: VerticalAlignment,
        horiz_align: HorizontalAlignment,
        loc: Location,
    ) -> (r: Option<Feature>)
        ensures
            r is Some <==> can_place(self@, vert_align, horiz_align, loc),
            r is Some ==> r->0@ == place_spec(self@, vert_align, horiz_align, loc),
            r is Some ==> r->0@.len() > 0,
    {
        proof {
            use_type_invariant(self);
            lemma_min_le_max(self@, true);
            lemma_min_le_max(self@, false);
            coords(self@, true).min_ensures();
            coords(self@, true).max_ensures();
            coords(self@, false).min_ensures();
            coords(self@, false).max_ensures();
        }
        let lo_x = self.min_x() as i64;
        let hi_x = self.max_x() as i64;
        let lo_y = self.min_y() as i64;
        let hi_y = self.max_y() as i64;
        let dx: i64 = match horiz_align {
            HorizontalAlignment::Left => loc.x as i64 - lo_x,
            HorizontalAlignment::Center => loc.x as i64 - (lo_x + (hi_x - lo_x + 1) / 2),
            HorizontalAlignment::Right => loc.x as i64 - hi_x,
        };
        let dy: i64 = match vert_align {
            VerticalAlignment::Top => loc.y as i64 - lo_y,
            VerticalAlignment::Center => loc.y as i64 - (lo_y + (hi_y - lo_y + 1) / 2),
            VerticalAlignment::Bottom => loc.y as i64 - hi_y,
        };
        let ok = i32::MIN as i64 <= dx && dx <= i32::MAX as i64 && i32::MIN as i64 <= dy && dy
            <= i32::MAX as i64 && i32::MIN as i64 <= lo_x + dx && hi_x + dx <= i32::MAX as i64
            && i32::MIN as i64 <= lo_y + dy && hi_y + dy <= i32::MAX as i64;
        proof {
            let s = self@;
            assert(dx == horiz_offset(s, horiz_align, loc));
            assert(dy == vert_offset(s, vert_align, loc));
            if ok {
                assert forall|k: int| 0 <= k < s.len() implies {
                    &&& i32::MIN <= #[trigger] s[k].loc.x + dx <= i32::MAX
                    &&& i32::MIN <= s[k].loc.y + dy <= i32::MAX
                } by {
                    assert(coords(s, true)[k] == s[k].loc.x);
                    assert(coords(s, false)[k] == s[k].loc.y);
                }
                assert(can_shift(s, dx as int, dy as int));
                assert(can_place(s, vert_align, horiz_align, loc));
            } else if can_place(s, vert_align, horiz_align, loc) {
                let i = choose|i: int| 0 <= i < s.len() && coords(s, true)[i] == coords(s, true).min();
                let j = choose|i: int| 0 <= i < s.len() && coords(s, true)[i] == coords(s, true).max();
                let a = choose|i: int| 0 <= i < s.len() && coords(s, false)[i] == coords(s, false).min();
                let b = choose|i: int| 0 <= i < s.len() && coords(s, false)[i] == coords(s, false).max();
                assert(i32::MIN <= s[i].loc.x + dx);
                assert(s[j].loc.x + dx <= i32::MAX);
                assert(i32::MIN <= s[a].loc.x + dx && i32::MIN <= s[a].loc.y + dy);
                assert(s[b].loc.x + dx <= i32::MAX && s[b].loc.y + dy <= i32::MAX);
            }
        }
        if ok {
            Some(self.place(vert_align, horiz_align, loc))
        } else {
            None
        }
    }

    /// Whether some tile, location and terrain alike, belongs to both features.
    pub fn overlaps(&self, other: &Feature) -> (r: bool)
        ensures
            r == tiles_overlap(self@, other@),
    {
        let mut i: usize = 0;
        while i < self.tiles.len()
            invariant
                i <= self.tiles@.len(),
                forall|a: int, b: int| 0 <= a < i && 0 <= b < other@.len() ==> self@[a] != other@[b],
            decreases self.tiles@.len() - i,
        {
            let mut j: usize = 0;
            while j < other.tiles.len()
                invariant
                    i < self.tiles@.len(),
                    j <= other.tiles@.len(),
                    forall|a: int, b: int| 0 <= a < i && 0 <= b < other@.len() ==> self@[a] != other@[b],
                    forall|b: int| 0 <= b < j ==> self@[i as int] != other@[b],
                decreases other.tiles@.len() - j,
            {
                if self.tiles[i] == other.tiles[j] {
                    return true;
                }
                j = j + 1;
            }
            i = i + 1;
        }
        false
    }

    /// The tiles, in order, as a slice.
    pub fn as_slice(&self) -> (r: &[Tile])
        ensures
            r@ == self@,
    {
        self.tiles.as_slice()
    }

    /// The tiles, in order.
    pub fn iter(&self) -> (r: std::slice::Iter<'_, Tile>)
        ensures
            vstd::std_specs::slice::into_iter_elts(r) == self@,
    {
        self.tiles.iter()
    }

    /// The locations of the wall tiles, in order.
    pub fn walls(&self) -> (r: Vec<Location>)
        ensures
            r@ == locs_with(self@, Terrain::Wall),
    {
        self.locations_of(Terrain::Wall)
    }

    /// The locations of the floor tiles, in order.
    pub fn floors(&self) -> (r: Vec<Location>)
        ensures
            r@ == locs_with(self@, Terrain::Floor),
    {
        self.locations_of(Terrain::Floor)
    }

    fn locations_of(&self, terrain: Terrain) -> (r: Vec<Location>)
        ensures
            r@ == locs_with(self@, terrain),
    {
        let mut out: Vec<Location> = Vec::new();
        let mut k: usize = 0;
        while k < self.tiles.len()
            invariant
                k <= self.tiles@.len(),
                out@ == locs_with(self.tiles@.take(k as int), terrain),
            decreases self.tiles@.len() - k,
        {
            assert(self.tiles@.take(k + 1).drop_last() =~= self.tiles@.take(k as int));
            if self.tiles[k].terrain == terrain {
                out.push(self.tiles[k].loc);
            }
            k = k + 1;
        }
        assert(self.tiles@.take(k as int) =~= self.tiles@);
        out
    }

    /// The smallest x coordinate.
    pub fn min_x(&self) -> (r: i32)
        ensures
            r == coords(self@, true).min(),
    {
        self.extreme(true, false)
    }

    /// The largest x coordinate.
    pub fn max_x(&self) -> (r: i32)
        ensures
            r == coords(self@, true).max(),
    {
        self.extreme(true, true)
    }

    /// The smallest y coordinate.
    pub fn min_y(&self) -> (r: i32)
        ensures
            r == coords(self@, false).min(),
    {
        self.extreme(false, false)
    }

    /// The largest y coordinate.
    pub fn max_y(&self) -> (r: i32)
        ensures
            r == coords(self@, false).max(),
    {
        self.extreme(false, true)
    }

    fn extreme(&self, use_x: bool, want_max: bool) -> (r: i32)
        ensures
            r == if want_max { coords(self@, use_x).max() } else { coords(self@, use_x).min() },
    {
        proof {
            use_type_invariant(self);
        }
        let ghost cs = coords(self@, use_x);
        let mut best: i32 = if use_x { self.tiles[0].loc.x } else { self.tiles[0].loc.y };
        let mut k: usize = 1;
        let ghost mut at: int = 0;
        while k < self.tiles.len()
            invariant
                1 <= k <= self.tiles@.len(),
                cs == coords(self.tiles@, use_x),
                0 <= at < k,
                cs[at] == best,
                forall|i: int| 0 <= i < k ==> if want_max { cs[i] <= best } else { best <= cs[i] },
            decreases self.tiles@.len() - k,
        {
            let c = if use_x { self.tiles[k].loc.x } else { self.tiles[k].loc.y };
            if (want_max && c > best) || (!want_max && c < best) {
                best = c;
                proof {
                    at = k as int;
                }
            }
            k = k + 1;
        }
        proof {
            cs.max_ensures();
            cs.min_ensures();
        }
        best
    }

}

proof fn lemma_min_le_max(s: Seq<Tile>, use_x: bool)
    requires
        s.len() > 0,
    ensures
        coords(s, use_x).min() <= coords(s, use_x).max(),
{
    coords(s, use_x).max_ensures();
    coords(s, use_x).min_ensures();
    assert(coords(s, use_x).min() <= coords(s, use_x)[0]);
}

proof fn lemma_extremes_shift(q: Seq<int>, d: int)
    requires
        q.len() > 0,
    ensures
        Seq::new(q.len(), |k: int| q[k] + d).min() == q.min() + d,
        Seq::new(q.len(), |k: int| q[k] + d).max() == q.max() + d,
{
    let p = Seq::new(q.len(), |k: int| q[k] + d);
    q.min_ensures();
    q.max_ensures();
    p.min_ensures();
    p.max_ensures();
    let i = choose|i: int| 0 <= i < q.len() && q[i] == q.min();
    let j = choose|j: int| 0 <= j < p.len() && p[j] == p.min();
    assert(p[i] == q.min() + d);
    assert(q.min() <= q[j]);
    let i2 = choose|i: int| 0 <= i < q.len() && q[i] == q.max();
    let j2 = choose|j: int| 0 <= j < p.len() && p[j] == p.max();
    assert(p[i2] == q.max() + d);
    assert(q[j2] <= q.max());
}

proof fn lemma_coords_translate(s: Seq<Tile>, dx: int, dy: int)
    requires
        s.len() > 0,
        can_shift(s, dx, dy),
    ensures
        coords(translate_spec(s, dx, dy), true).min() == coords(s, true).min() + dx,
        coords(translate_spec(s, dx, dy), true).max() == coords(s, true).max() + dx,
        coords(translate_spec(s, dx, dy), false).min() == coords(s, false).min() + dy,
        coords(translate_spec(s, dx, dy), false).max() == coords(s, false).max() + dy,
{
    let t = translate_spec(s, dx, dy);
    let cx = coords(s, true);
    let cy = coords(s, false);
    assert(coords(t, true) =~= Seq::new(cx.len(), |k: int| cx[k] + dx));
    assert(coords(t, false) =~= Seq::new(cy.len(), |k: int| cy[k] + dy));
    lemma_extremes_shift(cx, dx);
    lemma_extremes_shift(cy, dy);
}

/// Overlap is symmetric: `a` overlaps `b` exactly when `b` overlaps `a`.
pub proof fn lemma_overlaps_symmetric(a: Feature, b: Feature)
    ensures
        tiles_overlap(a@, b@) == tiles_overlap(b@, a@),
{
    if tiles_overlap(a@, b@) {
        let (i, j) = choose|i: int, j: int| 0 <= i < a@.len() && 0 <= j < b@.len() && a@[i] == b@[j];
        assert(0 <= j < b@.len() && 0 <= i < a@.len() && b@[j] == a@[i]);
    }
    if tiles_overlap(b@, a@) {
        let (j, i) = choose|j: int, i: int| 0 <= j < b@.len() && 0 <= i < a@.len() && b@[j] == a@[i];
        assert(0 <= i < a@.len() && 0 <= j < b@.len() && a@[i] == b@[j]);
    }
}

/// Placing is idempotent: placing an already placed feature again with the
/// same alignments at the same anchor leaves every tile where it is.
pub proof fn lemma_place_twice(
    f: Feature,
    vert: VerticalAlignment,
    horiz: HorizontalAlignment,
    anchor: Location,
)
    requires
        f@.len() > 0,
        can_place(f@, vert, horiz, anchor),
    ensures
        can_place(place_spec(f@, vert, horiz, anchor), vert, horiz, anchor),
        place_spec(place_spec(f@, vert, horiz, anchor), vert, horiz, anchor) == place_spec(
            f@,
            vert,
            horiz,
            anchor,
        ),
{
    let s = f@;
    let dx = horiz_offset(s, horiz, anchor);
    let dy = vert_offset(s, vert, anchor);
    let p = place_spec(s, vert, horiz, anchor);
    lemma_coords_translate(s, dx, dy);
    assert(horiz_offset(p, horiz, anchor) == 0);
    assert(vert_offset(p, vert, anchor) == 0);
    assert(can_shift(p, 0, 0));
    assert(translate_spec(p, 0, 0) =~= p);
}

/// Every tile has the given terrain.
pub open spec fn all_terrain(s: Seq<Tile>, terrain: Terrain) -> bool {
    forall|k: int| 0 <= k < s.len() ==> (#[trigger] s[k]).terrain == terrain
}

/// When all tiles share a terrain, `locs_with` lists every one of them.
pub proof fn lemma_locs_with_all(s: Seq<Tile>, terrain: Terrain)
    requires
        all_terrain(s, terrain),
    ensures
        locs_with(s, terrain).len() == s.len(),
    decreases s.len(),
{
    if s.len() > 0 {
        lemma_locs_with_all(s.drop_last(), terrain);
    }
}

/// Each location that `locs_with` lists belongs to a tile of that terrain.
pub proof fn lemma_locs_with_member(s: Seq<Tile>, terrain: Terrain, l: Location)
    requires
        locs_with(s, terrain).contains(l),
    ensures
        exists|k: int| 0 <= k < s.len() && (#[trigger] s[k]).loc == l && s[k].terrain == terrain,
    decreases s.len(),
{
    let rest = locs_with(s.drop_last(), terrain);
    if s.len() > 0 {
        if rest.contains(l) {
            lemma_locs_with_member(s.drop_last(), terrain, l);
            let k = choose|k: int| 0 <= k < s.drop_last().len() && (#[trigger] s.drop_last()[k]).loc == l && s.drop_last()[k].terrain == terrain;
            assert(s[k] == s.drop_last()[k]);
        } else {
            let i = choose|i: int| 0 <= i < locs_with(s, terrain).len() && locs_with(s, terrain)[i] == l;
            if s.last().terrain == terrain {
                if i < rest.len() {
                    assert(rest[i] == l);
                }
                assert(s[s.len() - 1].loc == l);
            }
        }
    }
}

/// The placed copy of a one-cell-wide hallway of length `len`.
pub proof fn lemma_hallway_bounds(f: Feature, len: int, is_horiz: bool)
    requires
        0 < len <= i32::MAX,
        f@.len() == len,
        forall|k: int| 0 <= k < len ==> #[trigger] f@[k] == hallway_tile(k, is_horiz),
    ensures
        coords(f@, is_horiz).min() == 0,
        coords(f@, is_horiz).max() == len - 1,
        coords(f@, !is_horiz).min() == 0,
        coords(f@, !is_horiz).max() == 0,
{
    let along = coords(f@, is_horiz);
    let across = coords(f@, !is_horiz);
    along.min_ensures();
    along.max_ensures();
    across.min_ensures();
    across.max_ensures();
    assert(along[0] == 0);
    assert(along[len - 1] == len - 1);
    assert(across[0] == 0);
    let i = choose|i: int| 0 <= i < along.len() && along[i] == along.min();
    let j = choose|i: int| 0 <= i < along.len() && along[i] == along.max();
    let a = choose|i: int| 0 <= i < across.len() && across[i] == across.min();
    let b = choose|i: int| 0 <= i < across.len() && across[i] == across.max();
    assert(across[a] == 0 && across[b] == 0);
    assert(0 <= along[i] && along[j] <= len - 1);
}

proof fn lemma_square_bound(v: int, r: int)
    requires
        0 <= r < 0x4000_0000,
        -r <= v <= r,
    ensures
        v * v <= r * r,
        r * r < 0x1000_0000_0000_0000,
{
    assert(v * v <= r * r) by (nonlinear_arith)
        requires -r <= v <= r;
    assert(r * r < 0x1000_0000_0000_0000) by (nonlinear_arith)
        requires 0 <= r < 0x4000_0000;
}

proof fn lemma_circle_box(r: int)
    requires
        0 <= r,
    ensures
        forall|t: Tile| #[trigger] in_circle(r)(t) ==> -r <= t.loc.x <= r && -r <= t.loc.y <= r,
{
    assert forall|t: Tile| #[trigger] in_circle(r)(t) implies -r <= t.loc.x <= r && -r <= t.loc.y <= r by {
        let x = t.loc.x as int;
        let y = t.loc.y as int;
        assert(dist_sq(t.loc, origin()) == x * x + y * y);
        assert(x * x >= 0 && y * y >= 0) by (nonlinear_arith);
        if x > r || x < -r {
            assert(x * x >= (r + 1) * (r + 1)) by (nonlinear_arith)
                requires 0 <= r, x > r || x < -r;
        }
        if y > r || y < -r {
            assert(y * y >= (r + 1) * (r + 1)) by (nonlinear_arith)
                requires 0 <= r, y > r || y < -r;
        }
    }
}

proof fn lemma_floor_sqrt_le(n: int, d: int, r: int)
    requires
        is_floor_sqrt(n, d),
        r >= 0,
    ensures
        d <= r <==> n < (r + 1) * (r + 1),
{
    if d <= r {
        assert((d + 1) * (d + 1) <= (r + 1) * (r + 1)) by (nonlinear_arith)
            requires 0 <= d <= r;
    } else {
        assert((r + 1) * (r + 1) <= d * d) by (nonlinear_arith)
            requires 0 <= r, r + 1 <= d;
    }
}

/// Which edge (or the centre) of a feature's bounding box goes to the anchor horizontally.
#[derive(Clone, Copy, Debug, PartialEq, Eq, Structural)]
pub enum HorizontalAlignment {
    Left,
    Center,
    Right,
}

impl HorizontalAlignment {
    /// Left and right swapped; centre stays.
    pub fn flip(self) -> (r: Self)
        ensures
            r == match self {
                HorizontalAlignment::Left => HorizontalAlignment::Right,
                HorizontalAlignment::Right => HorizontalAlignment::Left,
                HorizontalAlignment::Center => HorizontalAlignment::Center,
            },
    {
        match self {
            HorizontalAlignment::Left => HorizontalAlignment::Right,
            HorizontalAlignment::Right => HorizontalAlignment::Left,
            HorizontalAlignment::Center => HorizontalAlignment::Center,
        }
    }
}

/// Which edge (or the centre) of a feature's bounding box goes to the anchor vertically.
#[derive(Clone, Copy, Debug, PartialEq, Eq, Structural)]
pub enum VerticalAlignment {
    Top,
    Center,
    Bottom,
}

impl VerticalAlignment {
    /// Top and bottom swapped; centre stays.
    pub fn flip(self) -> (r: Self)
        ensures
            r == match self {
                VerticalAlignment::Top => VerticalAlignment::Bottom,
                VerticalAlignment::Bottom => VerticalAlignment::Top,
                VerticalAlignment::Center => VerticalAlignment::Center,
            },
    {
        match self {
            VerticalAlignment::Top => VerticalAlignment::Bottom,
            VerticalAlignment::Bottom => VerticalAlignment::Top,
            VerticalAlignment::Center => VerticalAlignment::Center,
        }
    }
}

} // verus!
