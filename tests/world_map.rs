use rand::rngs::StdRng;
use rand::SeedableRng;
use world::{Feature, FeatureKind, GenerateError, HorizontalAlignment, Location, Terrain, VerticalAlignment, WorldMap};

fn pairs(v: Vec<Location>) -> Vec<(i32, i32)> {
    v.into_iter().map(|l| (l.x, l.y)).collect()
}

fn floors_enclosed(world: &WorldMap) -> bool {
    world.tiles().filter(|t| t.terrain == Terrain::Floor).all(|t| {
        world.get_adjacent(t.loc, true).iter().all(|a| world.get_tile(*a).terrain != Terrain::Nothing)
    })
}

#[test]
fn new_grid_is_all_nothing() {
    let world = WorldMap::new(4, 3);
    assert_eq!(world.tiles().count(), 12);
    assert!(world.tiles().all(|t| t.terrain == Terrain::Nothing));
    assert_eq!(world.get_tile(Location::new(3, 2)).loc, Location::new(3, 2));
    assert_eq!((world.width(), world.height()), (4, 3));
}

#[test]
fn adjacent_cells_in_fixed_order() {
    let world = WorldMap::new(3, 3);
    assert_eq!(
        pairs(world.get_adjacent(Location::new(1, 1), true)),
        vec![(0, 0), (0, 1), (0, 2), (1, 0), (1, 2), (2, 0), (2, 1), (2, 2)]
    );
    assert_eq!(pairs(world.get_adjacent(Location::new(1, 1), false)), vec![(0, 1), (1, 0), (1, 2), (2, 1)]);
    assert_eq!(pairs(world.get_adjacent(Location::new(0, 0), true)), vec![(0, 1), (1, 0), (1, 1)]);
}

#[test]
fn terrain_can_be_set() {
    let mut world = WorldMap::new(3, 3);
    world.set_terrain(Location::new(2, 1), Terrain::Wall);
    assert_eq!(world.get_tile(Location::new(2, 1)).terrain, Terrain::Wall);
    world.get_tile_mut(Location::new(0, 2)).terrain = Terrain::Debug;
    assert_eq!(world.get_tile(Location::new(0, 2)).terrain, Terrain::Debug);
    assert_eq!(world.get_tile(Location::new(1, 1)).terrain, Terrain::Nothing);
}

#[test]
fn fit_needs_margin_and_empty_cells() {
    let mut world = WorldMap::new(5, 5);
    let inner = Feature::room(2, 2).translate(1, 1);
    assert!(world.can_fit(&inner));
    assert!(!world.can_fit(&Feature::room(2, 2)));
    assert!(!world.can_fit(&Feature::room(2, 2).translate(3, 3)));
    world.set_terrain(Location::new(2, 2), Terrain::Wall);
    assert!(!world.can_fit(&inner));
}

#[test]
fn surrounding_walls_enclose_floors() {
    let mut world = WorldMap::new(5, 5);
    world.set_terrain(Location::new(2, 2), Terrain::Floor);
    world.set_terrain(Location::new(3, 2), Terrain::Floor);
    world.surround_floors_with_walls();
    assert!(floors_enclosed(&world));
    assert_eq!(world.get_tile(Location::new(1, 1)).terrain, Terrain::Wall);
    assert_eq!(world.get_tile(Location::new(4, 3)).terrain, Terrain::Wall);
    assert_eq!(world.get_tile(Location::new(0, 0)).terrain, Terrain::Nothing);
    assert_eq!(world.get_tile(Location::new(2, 2)).terrain, Terrain::Floor);
    assert_eq!(world.tiles().filter(|t| t.terrain == Terrain::Wall).count(), 10);
}

#[test]
fn generated_level_is_enclosed_and_starts_on_floor() {
    let mut rng = StdRng::seed_from_u64(2024);
    let (world, start) = WorldMap::generate(&mut rng, 40, 30).unwrap();
    assert_eq!((world.width(), world.height()), (40, 30));
    assert_eq!(world.get_tile(start).terrain, Terrain::Floor);
    assert!(world.tiles().any(|t| t.terrain == Terrain::Floor));
    assert!(floors_enclosed(&world));
    assert!(world.tiles().all(|t| t.terrain == Terrain::Nothing
        || (t.loc.x > 0 && t.loc.y > 0 && t.loc.x < 39 && t.loc.y < 29)
        || t.terrain == Terrain::Wall));
}

#[test]
fn generation_is_repeatable_for_a_seed() {
    let a = WorldMap::generate(&mut StdRng::seed_from_u64(5), 60, 40).unwrap();
    let b = WorldMap::generate(&mut StdRng::seed_from_u64(5), 60, 40).unwrap();
    assert_eq!(a, b);
}

#[test]
fn generation_fails_without_room() {
    let mut rng = StdRng::seed_from_u64(1);
    assert_eq!(WorldMap::generate(&mut rng, 3, 3), Err(GenerateError::NoRoomForFirstFeature));
}

#[test]
fn built_features_are_floor_and_sized() {
    let mut rng = StdRng::seed_from_u64(3);
    for kind in [FeatureKind::Room, FeatureKind::DiamondRoom, FeatureKind::CircleRoom] {
        for _ in 0..20 {
            let f = kind.build(&mut rng);
            assert!(f.iter().all(|t| t.terrain == Terrain::Floor));
            let span = f.max_x() - f.min_x() + 1;
            match kind {
                FeatureKind::Room => assert!((2..12).contains(&span)),
                _ => assert!((5..24).contains(&span)),
            }
        }
    }
}

#[test]
fn roomy_grids_always_generate() {
    for seed in 0..8u64 {
        let mut rng = StdRng::seed_from_u64(seed);
        let (world, start) = WorldMap::generate(&mut rng, 38, 38).unwrap();
        assert_eq!(world.get_tile(start).terrain, Terrain::Floor);
        assert!(floors_enclosed(&world));
    }
}

#[test]
fn first_placement_takes_first_fitting_anchor() {
    let world = WorldMap::new(10, 10);
    let room = Feature::room(3, 3);
    let anchors = vec![Location::new(0, 0), Location::new(9, 5), Location::new(4, 4), Location::new(5, 5)];
    let placed = world.place_first(&room, &anchors).unwrap();
    assert_eq!(placed.min_x(), 3);
    assert_eq!(placed.min_y(), 3);
    assert!(world.place_first(&room, &vec![Location::new(0, 0), Location::new(1, 8)]).is_none());
    let small = WorldMap::new(3, 3);
    assert!(small.place_first(&Feature::room(2, 2), &vec![Location::new(1, 1)]).is_none());
}

#[test]
fn growth_attaches_hallway_and_feature() {
    let mut world = WorldMap::new(20, 9);
    for y in 3..6 {
        for x in 2..5 {
            world.set_terrain(Location::new(x, y), Terrain::Floor);
        }
    }
    world.surround_floors_with_walls();
    let wall = Location::new(5, 4);
    assert_eq!(world.get_tile(wall).terrain, Terrain::Wall);
    let order = vec![(VerticalAlignment::Center, HorizontalAlignment::Left)];
    world.grow_with(wall, 4, &order, &Feature::room(3, 3));
    for x in 5..9 {
        assert_eq!(world.get_tile(Location::new(x, 4)).terrain, Terrain::Floor);
    }
    assert_eq!(world.get_tile(Location::new(10, 3)).terrain, Terrain::Floor);
    assert_eq!(world.get_tile(Location::new(10, 5)).terrain, Terrain::Floor);
    assert_eq!(world.get_tile(Location::new(11, 4)).terrain, Terrain::Wall);
    assert!(floors_enclosed(&world));
}

#[test]
fn growth_without_room_changes_nothing() {
    let mut world = WorldMap::new(9, 9);
    world.set_terrain(Location::new(4, 4), Terrain::Floor);
    world.surround_floors_with_walls();
    let before = world.clone();
    let order = vec![
        (VerticalAlignment::Center, HorizontalAlignment::Left),
        (VerticalAlignment::Top, HorizontalAlignment::Center),
    ];
    world.grow_with(Location::new(5, 4), 10, &order, &Feature::room(2, 2));
    assert_eq!(world, before);
    world.grow_with(Location::new(5, 4), 2, &order, &Feature::room(5, 5));
    assert_eq!(world, before);
}
