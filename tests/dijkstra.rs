use std::collections::HashSet;
use world::{explore, Dijkstra, Location, Terrain, WorldMap, UNREACHED};

fn open_grid(w: i32, h: i32) -> WorldMap {
    let mut world = WorldMap::new(w, h);
    for y in 0..h {
        for x in 0..w {
            world.set_terrain(Location::new(x, y), Terrain::Floor);
        }
    }
    world
}

fn corridor() -> WorldMap {
    let mut world = WorldMap::new(5, 3);
    for x in 0..5 {
        world.set_terrain(Location::new(x, 1), Terrain::Floor);
    }
    world
}

#[test]
fn distances_count_layers_from_goals() {
    let world = corridor();
    let field = Dijkstra::new(&world, vec![Location::new(0, 1)], 10);
    for x in 0..5 {
        assert_eq!(field.distance_at(&Location::new(x, 1)), Some(x as u32));
    }
    assert_eq!(field.distance_at(&Location::new(2, 0)), None);
    assert_eq!(field.sorted_neighbors(&Location::new(2, 1)), vec![Location::new(1, 1), Location::new(3, 1)]);
}

#[test]
fn step_limit_drops_far_cells() {
    let world = corridor();
    let field = Dijkstra::new(&world, vec![Location::new(0, 1)], 2);
    assert_eq!(field.distance_at(&Location::new(1, 1)), Some(1));
    assert_eq!(field.distance_at(&Location::new(2, 1)), None);
    assert_eq!(field.sorted_neighbors(&Location::new(1, 1)), vec![Location::new(0, 1)]);
    let none = Dijkstra::new(&world, vec![Location::new(0, 1)], 0);
    assert_eq!(none.distance_at(&Location::new(0, 1)), None);
}

#[test]
fn neighbours_sorted_downhill_with_ties_in_adjacency_order() {
    let world = open_grid(3, 3);
    let field = Dijkstra::new(&world, vec![Location::new(1, 1)], 5);
    assert_eq!(
        field.sorted_neighbors(&Location::new(0, 0)),
        vec![Location::new(1, 1), Location::new(0, 1), Location::new(1, 0)]
    );
}

#[test]
fn neighbouring_distances_differ_by_at_most_one() {
    let mut world = open_grid(7, 6);
    world.set_terrain(Location::new(3, 1), Terrain::Wall);
    world.set_terrain(Location::new(3, 2), Terrain::Wall);
    world.set_terrain(Location::new(3, 3), Terrain::Wall);
    let field = Dijkstra::new(&world, vec![Location::new(0, 0), Location::new(6, 5)], 100);
    for y in 0..6 {
        for x in 0..7 {
            let here = Location::new(x, y);
            if let Some(d) = field.distance_at(&here) {
                let ns = field.sorted_neighbors(&here);
                for n in ns.iter() {
                    let e = field.distance_at(n).unwrap();
                    assert!((d as i64 - e as i64).abs() <= 1);
                }
                for pair in ns.windows(2) {
                    assert!(field.distance_at(&pair[0]).unwrap() <= field.distance_at(&pair[1]).unwrap());
                }
            }
        }
    }
    assert_eq!(field.distance_at(&Location::new(3, 2)), None);
    assert_eq!(field.distance_at(&Location::new(3, 0)), Some(3));
}

#[test]
fn relaxation_map_matches_layers() {
    let mut world = WorldMap::new(4, 3);
    for x in 0..4 {
        world.set_terrain(Location::new(x, 1), Terrain::Floor);
    }
    let dmap = world.create_dijkstra_map(&vec![Location::new(0, 1)]);
    assert_eq!(dmap.get(1, 0), 0);
    assert_eq!(dmap.get(1, 1), 1);
    assert_eq!(dmap.get(1, 3), 3);
    assert_eq!(dmap.get(0, 0), UNREACHED);
    assert_eq!(dmap.get(2, 3), i32::MAX - 2);
}

#[test]
fn relaxation_map_takes_diagonals() {
    let world = open_grid(4, 4);
    let dmap = world.create_dijkstra_map(&vec![Location::new(0, 0)]);
    assert_eq!(dmap.get(3, 3), 3);
    assert_eq!(dmap.get(1, 2), 2);
}

#[test]
fn explore_marks_the_circle() {
    let mut explored = HashSet::new();
    let mut unexplored: HashSet<Location> = [Location::new(5, 5), Location::new(20, 20), Location::new(6, 6)].into_iter().collect();
    explore(Location::new(5, 5), 1, &mut explored, &mut unexplored);
    assert_eq!(explored.len(), 9);
    assert!(explored.contains(&Location::new(4, 6)));
    assert_eq!(unexplored.len(), 1);
    assert!(unexplored.contains(&Location::new(20, 20)));
    explore(Location::new(0, 0), 2, &mut explored, &mut unexplored);
    assert!(explored.contains(&Location::new(2, 0)));
    assert!(explored.contains(&Location::new(2, 2)));
    assert!(!explored.contains(&Location::new(3, 0)));
}
