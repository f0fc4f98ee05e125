use world::{Location, Terrain, WorldMap};

fn assert_valid(world: &WorldMap, path: &[Location], start: Location, goal: Location) {
    assert_eq!(path[0], start);
    assert_eq!(*path.last().unwrap(), goal);
    for pair in path.windows(2) {
        assert_eq!(pair[0].manhattan(&pair[1]), 1);
        let t = world.get_tile(pair[1]).terrain;
        assert!(pair[1] == goal || t == Terrain::Nothing);
    }
}

#[test]
fn open_room_path_is_manhattan_optimal() {
    let world = WorldMap::new(6, 4);
    let start = Location::new(0, 0);
    let goal = Location::new(5, 3);
    let path = world.find_path(start, goal).unwrap();
    assert_eq!(path.len(), 5 + 3 + 1);
    assert_valid(&world, &path, start, goal);
}

#[test]
fn wall_without_gap_gives_no_path() {
    let mut world = WorldMap::new(7, 5);
    for y in 0..5 {
        world.set_terrain(Location::new(3, y), Terrain::Wall);
    }
    assert!(world.find_path(Location::new(0, 2), Location::new(6, 2)).is_none());
}

#[test]
fn path_goes_round_a_wall_through_its_gap() {
    let mut world = WorldMap::new(7, 5);
    for y in 0..4 {
        world.set_terrain(Location::new(3, y), Terrain::Wall);
    }
    let start = Location::new(0, 0);
    let goal = Location::new(6, 0);
    let path = world.find_path(start, goal).unwrap();
    assert_valid(&world, &path, start, goal);
    assert_eq!(path.len(), 6 + 8 + 1);
    assert!(path.contains(&Location::new(3, 4)));
}

#[test]
fn goal_may_be_floor_and_start_may_be_goal() {
    let mut world = WorldMap::new(4, 1);
    world.set_terrain(Location::new(0, 0), Terrain::Floor);
    world.set_terrain(Location::new(3, 0), Terrain::Floor);
    let path = world.find_path(Location::new(0, 0), Location::new(3, 0)).unwrap();
    assert_eq!(path.len(), 4);
    assert_eq!(world.find_path(Location::new(2, 0), Location::new(2, 0)), Some(vec![Location::new(2, 0)]));
    world.set_terrain(Location::new(1, 0), Terrain::Floor);
    assert!(world.find_path(Location::new(0, 0), Location::new(3, 0)).is_none());
}
