//! Grid primitives: integer locations, terrain tags and tiles.

use vstd::prelude::*;

verus! {

/// An integer (x, y) coordinate on the grid.
#[derive(Clone, Copy, Debug, PartialEq, Eq, Hash, Structural)]
pub struct Location {
    pub x: i32,
    pub y: i32,
}

/// Absolute value over the mathematical integers.
pub open spec fn abs_int(v: int) -> int {
    if v < 0 { -v } else { v }
}

/// `|dx| + |dy|` between two locations.
pub open spec fn manhattan_spec(a: Location, b: Location) -> int {
    abs_int(a.x - b.x) + abs_int(a.y - b.y)
}

/// The squared straight-line distance between two locations.
pub open spec fn dist_sq(a: Location, b: Location) -> int {
    (a.x - b.x) * (a.x - b.x) + (a.y - b.y) * (a.y - b.y)
}

/// `r` is the square root of `n`, rounded down.
pub open spec fn is_floor_sqrt(n: int, r: int) -> bool {
    0 <= r && r * r <= n && n < (r + 1) * (r + 1)
}

/// Largest squared distance whose square root still fits in an `i32`.
pub open spec fn euclidean_fits(a: Location, b: Location) -> bool {
    dist_sq(a, b) < 0x4000_0000_0000_0000
}

impl Location {
    pub fn new(x: i32, y: i32) -> (r: Self)
        ensures
            r.x == x,
            r.y == y,
    {
        Location { x: x, y: y }
    }

    /// Manhattan distance `|dx| + |dy|`.
    pub fn manhattan(&self, other: &Location) -> (r: i32)
        requires
            manhattan_spec(*self, *other) <= i32::MAX,
        ensures
            r == manhattan_spec(*self, *other),
    {
        let total_x = if self.x > other.x { self.x - other.x } else { other.x - self.x };
        let total_y = if self.y > other.y { self.y - other.y } else { other.y - self.y };
        total_x + total_y
    }

    /// Straight-line distance, rounded down to an integer.
    pub fn euclidean(&self, other: &Location) -> (r: i32)
        requires
            euclidean_fits(*self, *other),
        ensures
            is_floor_sqrt(dist_sq(*self, *other), r as int),
    {
        let dx: i64 = other.x as i64 - self.x as i64;
        let dy: i64 = other.y as i64 - self.y as i64;
        let ax: u128 = if dx < 0 { (-dx) as u128 } else { dx as u128 };
        let ay: u128 = if dy < 0 { (-dy) as u128 } else { dy as u128 };
        assert(ax * ax == (other.x - self.x) * (other.x - self.x)) by (nonlinear_arith)
            requires ax == abs_int(other.x - self.x);
        assert(ay * ay == (other.y - self.y) * (other.y - self.y)) by (nonlinear_arith)
            requires ay == abs_int(other.y - self.y);
        assert(ax * ax == (self.x - other.x) * (self.x - other.x)) by (nonlinear_arith)
            requires ax * ax == (other.x - self.x) * (other.x - self.x);
        assert(ay * ay == (self.y - other.y) * (self.y - other.y)) by (nonlinear_arith)
            requires ay * ay == (other.y - self.y) * (other.y - self.y);
        let n: u128 = ax * ax + ay * ay;
        let r = floor_sqrt(n);
        r as i32
    }
}

/// Manhattan distance is symmetric, and zero from a location to itself.
pub proof fn lemma_manhattan_symmetric(a: Location, b: Location)
    ensures
        manhattan_spec(a, b) == manhattan_spec(b, a),
        manhattan_spec(a, a) == 0,
{
}

/// Integer square root by bisection.
fn floor_sqrt(n: u128) -> (r: u64)
    requires
        n < 0x4000_0000_0000_0000,
    ensures
        is_floor_sqrt(n as int, r as int),
        r < 0x8000_0000,
{
    let mut lo: u128 = 0;
    let mut hi: u128 = 0x8000_0000;
    assert(hi * hi == 0x4000_0000_0000_0000) by (nonlinear_arith)
        requires hi == 0x8000_0000;
    while lo + 1 < hi
        invariant
            lo < hi <= 0x8000_0000,
            lo * lo <= n,
            n < hi * hi,
        decreases hi - lo,
    {
        let mid: u128 = lo + (hi - lo) / 2;
        assert(mid * mid < 0x4000_0000_0000_0000) by (nonlinear_arith)
            requires mid < 0x8000_0000;
        if mid * mid <= n {
            lo = mid;
        } else {
            hi = mid;
        }
    }
    lo as u64
}

/// What occupies a grid cell.
#[derive(Clone, Copy, Debug, PartialEq, Eq, Hash, Structural)]
pub enum Terrain {
    /// Marker terrain; walkable.
    Debug,
    /// Not yet carved.
    Nothing,
    /// Walkable ground.
    Floor,
    /// Blocking boundary.
    Wall,
}

/// A location together with its terrain.
#[derive(Clone, Copy, Debug, PartialEq, Eq, Hash, Structural)]
pub struct Tile {
    pub loc: Location,
    pub terrain: Terrain,
}

impl Tile {
    pub fn new(loc: Location, terrain: Terrain) -> (r: Self)
        ensures
            r.loc == loc,
            r.terrain == terrain,
    {
        Tile { loc: loc, terrain: terrain }
    }
}

} // verus!
