//! Marking the cells around a location as seen.

use vstd::prelude::*;
use vstd::std_specs::hash::{group_hash_axioms, obeys_key_model};
use std::collections::HashSet;
use crate::tile::{dist_sq, Location};
use crate::feature::loc_before;

verus! {

broadcast use group_hash_axioms;

/// `m` lies within rounded-down Euclidean distance `radius` of `loc`.
pub open spec fn in_view(loc: Location, radius: int, m: Location) -> bool {
    dist_sq(m, loc) < (radius + 1) * (radius + 1)
}

/// The cells within rounded-down Euclidean distance `radius` of `loc`.
pub open spec fn view_area(loc: Location, radius: int) -> Set<Location> {
    Set::new(|m: Location| in_view(loc, radius, m))
}

/// The cells of the view area that come before `b` in column-major order.
spec fn area_before(loc: Location, radius: int, b: Location) -> Set<Location> {
    Set::new(|m: Location| in_view(loc, radius, m) && loc_before(m, b))
}

proof fn lemma_view_box(loc: Location, r: int, m: Location)
    requires
        0 <= r,
        in_view(loc, r, m),
    ensures
        -r <= m.x - loc.x <= r,
        -r <= m.y - loc.y <= r,
{
    let dx = m.x - loc.x;
    let dy = m.y - loc.y;
    assert(dist_sq(m, loc) == dx * dx + dy * dy);
    assert(dx * dx >= 0 && dy * dy >= 0) by (nonlinear_arith);
    if dx > r || dx < -r {
        assert(dx * dx >= (r + 1) * (r + 1)) by (nonlinear_arith)
            requires 0 <= r, dx > r || dx < -r;
    }
    if dy > r || dy < -r {
        assert(dy * dy >= (r + 1) * (r + 1)) by (nonlinear_arith)
            requires 0 <= r, dy > r || dy < -r;
    }
}

/// Marks every cell within rounded-down Euclidean distance `radius` of
/// `loc` as explored: it joins `explored` and leaves `unexplored`. What the
/// sets then hold is stated for keys that follow std's hashing model.
pub fn explore(
    loc: Location,
    radius: i32,
    explored: &mut HashSet<Location>,
    unexplored: &mut HashSet<Location>,
)
    requires
        0 <= radius < 0x4000_0000,
        i32::MIN + 0x4000_0000 <= loc.x <= i32::MAX - 0x4000_0000,
        i32::MIN + 0x4000_0000 <= loc.y <= i32::MAX - 0x4000_0000,
    ensures
        obeys_key_model::<Location>() ==> final(explored)@ == old(explored)@.union(view_area(loc, radius as int)),
        obeys_key_model::<Location>() ==> final(unexplored)@ == old(unexplored)@.difference(view_area(loc, radius as int)),
{
    let ghost r = radius as int;
    let ghost e0 = explored@;
    let ghost u0 = unexplored@;
    let center = Location::new(0, 0);
    let mut i: i32 = -radius;
    proof {
        let a = area_before(loc, r, Location { x: (loc.x + i) as i32, y: (loc.y - radius) as i32 });
        assert forall|m: Location| !a.contains(m) by {
            if in_view(loc, r, m) {
                lemma_view_box(loc, r, m);
            }
        }
        assert(e0.union(a) =~= e0);
        assert(u0.difference(a) =~= u0);
    }
    while i < radius + 1
        invariant
            0 <= radius < 0x4000_0000,
            r == radius,
            i32::MIN + 0x4000_0000 <= loc.x <= i32::MAX - 0x4000_0000,
            i32::MIN + 0x4000_0000 <= loc.y <= i32::MAX - 0x4000_0000,
            -radius <= i <= radius + 1,
            center == (Location { x: 0, y: 0 }),
            obeys_key_model::<Location>() ==> explored@ == e0.union(area_before(loc, r, Location { x: (loc.x + i) as i32, y: (loc.y - radius) as i32 })),
            obeys_key_model::<Location>() ==> unexplored@ == u0.difference(area_before(loc, r, Location { x: (loc.x + i) as i32, y: (loc.y - radius) as i32 })),
        decreases radius + 1 - i,
    {
        let mut j: i32 = -radius;
        while j < radius + 1
            invariant
                0 <= radius < 0x4000_0000,
                r == radius,
                i32::MIN + 0x4000_0000 <= loc.x <= i32::MAX - 0x4000_0000,
                i32::MIN + 0x4000_0000 <= loc.y <= i32::MAX - 0x4000_0000,
                -radius <= i <= radius,
                -radius <= j <= radius + 1,
                center == (Location { x: 0, y: 0 }),
                obeys_key_model::<Location>() ==> explored@ == e0.union(area_before(loc, r, Location { x: (loc.x + i) as i32, y: (loc.y + j) as i32 })),
                obeys_key_model::<Location>() ==> unexplored@ == u0.difference(area_before(loc, r, Location { x: (loc.x + i) as i32, y: (loc.y + j) as i32 })),
            decreases radius + 1 - j,
        {
            let circle_loc = Location::new(i, j);
            assert(i * i <= r * r && j * j <= r * r && r * r < 0x1000_0000_0000_0000) by (nonlinear_arith)
                requires -r <= i <= r, -r <= j <= r, 0 <= r < 0x4000_0000;
            let dist = circle_loc.euclidean(&center);
            let explored_loc = Location::new(loc.x + circle_loc.x, loc.y + circle_loc.y);
            let ghost here = Location { x: (loc.x + i) as i32, y: (loc.y + j) as i32 };
            let ghost next = Location { x: (loc.x + i) as i32, y: (loc.y + j + 1) as i32 };
            proof {
                assert(dist_sq(circle_loc, center) == dist_sq(explored_loc, loc));
                let d = dist as int;
                let n = dist_sq(explored_loc, loc);
                if d <= r {
                    assert((d + 1) * (d + 1) <= (r + 1) * (r + 1)) by (nonlinear_arith)
                        requires 0 <= d <= r;
                } else {
                    assert((r + 1) * (r + 1) <= d * d) by (nonlinear_arith)
                        requires 0 <= r, r + 1 <= d;
                }
            }
            if dist <= radius {
                explored.insert(explored_loc);
                unexplored.remove(&explored_loc);
                proof {
                    if obeys_key_model::<Location>() {
                        assert(area_before(loc, r, next) =~= area_before(loc, r, here).insert(here));
                        assert(explored@ =~= e0.union(area_before(loc, r, next)));
                        assert(unexplored@ =~= u0.difference(area_before(loc, r, next)));
                    }
                }
            } else {
                proof {
                    if obeys_key_model::<Location>() {
                        assert(area_before(loc, r, next) =~= area_before(loc, r, here));
                    }
                }
            }
            j = j + 1;
        }
        proof {
            if obeys_key_model::<Location>() {
                let a = area_before(loc, r, Location { x: (loc.x + i) as i32, y: (loc.y + radius + 1) as i32 });
                let b = area_before(loc, r, Location { x: (loc.x + i + 1) as i32, y: (loc.y - radius) as i32 });
                assert forall|m: Location| a.contains(m) <==> b.contains(m) by {
                    if in_view(loc, r, m) {
                        lemma_view_box(loc, r, m);
                    }
                }
                assert(a =~= b);
            }
        }
        i = i + 1;
    }
    proof {
        if obeys_key_model::<Location>() {
            let a = area_before(loc, r, Location { x: (loc.x + radius + 1) as i32, y: (loc.y - radius) as i32 });
            assert forall|m: Location| a.contains(m) <==> view_area(loc, r).contains(m) by {
                if in_view(loc, r, m) {
                    lemma_view_box(loc, r, m);
                }
            }
            assert(a =~= view_area(loc, r));
        }
    }
}

} // verus!
