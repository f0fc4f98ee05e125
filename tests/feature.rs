use world::{Feature, HorizontalAlignment, Location, Terrain, Tile, VerticalAlignment};

fn feature_of(cells: &[(i32, i32, Terrain)]) -> Feature {
    Feature::new(cells.iter().map(|&(x, y, t)| Tile::new(Location::new(x, y), t)).collect())
}

fn locs(f: &Feature) -> Vec<(i32, i32)> {
    f.as_slice().iter().map(|t| (t.loc.x, t.loc.y)).collect()
}

#[test]
fn test_place_feature() {
    let feature = feature_of(&[
        (1, 1, Terrain::Wall),
        (2, 1, Terrain::Wall),
        (1, 2, Terrain::Wall),
        (2, 2, Terrain::Wall),
        (1, 3, Terrain::Wall),
    ]);

    assert_eq!(
        feature.place(VerticalAlignment::Top, HorizontalAlignment::Left, Location::new(2, 3)),
        feature_of(&[
            (2, 3, Terrain::Wall),
            (3, 3, Terrain::Wall),
            (2, 4, Terrain::Wall),
            (3, 4, Terrain::Wall),
            (2, 5, Terrain::Wall),
        ])
    );

    assert_eq!(
        feature.place(VerticalAlignment::Bottom, HorizontalAlignment::Right, Location::new(5, 2)),
        feature_of(&[
            (4, 0, Terrain::Wall),
            (5, 0, Terrain::Wall),
            (4, 1, Terrain::Wall),
            (5, 1, Terrain::Wall),
            (4, 2, Terrain::Wall),
        ])
    );

    let square = feature_of(&[
        (0, 0, Terrain::Wall),
        (1, 0, Terrain::Wall),
        (2, 0, Terrain::Wall),
        (0, 1, Terrain::Wall),
        (1, 1, Terrain::Wall),
        (2, 1, Terrain::Wall),
        (0, 2, Terrain::Wall),
        (1, 2, Terrain::Wall),
        (2, 2, Terrain::Wall),
    ]);

    assert_eq!(
        square.place(VerticalAlignment::Center, HorizontalAlignment::Center, Location::new(4, 1)),
        feature_of(&[
            (3, 0, Terrain::Wall),
            (4, 0, Terrain::Wall),
            (5, 0, Terrain::Wall),
            (3, 1, Terrain::Wall),
            (4, 1, Terrain::Wall),
            (5, 1, Terrain::Wall),
            (3, 2, Terrain::Wall),
            (4, 2, Terrain::Wall),
            (5, 2, Terrain::Wall),
        ])
    );
}

#[test]
fn room_lists_floor_cells_by_column() {
    let room = Feature::room(2, 3);
    assert_eq!(locs(&room), vec![(0, 0), (0, 1), (0, 2), (1, 0), (1, 1), (1, 2)]);
    assert!(room.iter().all(|t| t.terrain == Terrain::Floor));
}

#[test]
fn diamond_room_is_manhattan_ball() {
    let d = Feature::diamond_room(2);
    assert_eq!(d.as_slice().len(), 13);
    assert_eq!(locs(&d)[0], (-2, 0));
    assert!(d.iter().all(|t| t.loc.x.abs() + t.loc.y.abs() <= 2));
    assert_eq!(Feature::diamond_room(0).as_slice().len(), 1);
}

#[test]
fn circle_room_uses_rounded_down_distance() {
    assert_eq!(Feature::circle_room(2).as_slice().len(), 25);
    let c = Feature::circle_room(3);
    assert_eq!(c.as_slice().len(), 45);
    let cells = locs(&c);
    assert!(cells.contains(&(3, 2)));
    assert!(!cells.contains(&(3, 3)));
}

#[test]
fn hallway_runs_along_one_axis() {
    assert_eq!(locs(&Feature::hallway(3, true)), vec![(0, 0), (1, 0), (2, 0)]);
    assert_eq!(locs(&Feature::hallway(2, false)), vec![(0, 0), (0, 1)]);
}

#[test]
fn translate_moves_every_tile() {
    let moved = Feature::room(2, 1).translate(5, -2);
    assert_eq!(locs(&moved), vec![(5, -2), (6, -2)]);
}

#[test]
fn overlap_needs_a_shared_tile() {
    let a = Feature::room(2, 2);
    let b = Feature::room(2, 2).translate(1, 1);
    let c = Feature::room(2, 2).translate(2, 0);
    assert!(a.overlaps(&b));
    assert!(b.overlaps(&a));
    assert!(!a.overlaps(&c));
    assert!(!c.overlaps(&a));
    let walls = feature_of(&[(0, 0, Terrain::Wall)]);
    assert!(!a.overlaps(&walls));
}

#[test]
fn placing_twice_changes_nothing() {
    let d = Feature::diamond_room(2);
    let once = d.place(VerticalAlignment::Center, HorizontalAlignment::Center, Location::new(10, 10));
    let twice = once.place(VerticalAlignment::Center, HorizontalAlignment::Center, Location::new(10, 10));
    assert_eq!(once, twice);
    assert_eq!(once.min_x(), 8);
    assert_eq!(once.max_y(), 12);
}

#[test]
fn walls_and_floors_keep_order() {
    let f = feature_of(&[(0, 0, Terrain::Wall), (1, 0, Terrain::Floor), (2, 5, Terrain::Wall)]);
    assert_eq!(f.walls(), vec![Location::new(0, 0), Location::new(2, 5)]);
    assert_eq!(f.floors(), vec![Location::new(1, 0)]);
    assert_eq!((f.min_x(), f.max_x(), f.min_y(), f.max_y()), (0, 2, 0, 5));
}

#[test]
fn alignments_flip() {
    assert_eq!(HorizontalAlignment::Left.flip(), HorizontalAlignment::Right);
    assert_eq!(HorizontalAlignment::Center.flip(), HorizontalAlignment::Center);
    assert_eq!(VerticalAlignment::Bottom.flip(), VerticalAlignment::Top);
    assert_eq!(VerticalAlignment::Center.flip(), VerticalAlignment::Center);
}

#[test]
fn try_place_refuses_overflow() {
    let room = Feature::room(2, 1);
    assert!(room.try_place(VerticalAlignment::Top, HorizontalAlignment::Right, Location::new(i32::MIN, 0)).is_none());
    let placed = room.try_place(VerticalAlignment::Top, HorizontalAlignment::Left, Location::new(3, 4)).unwrap();
    assert_eq!(locs(&placed), vec![(3, 4), (4, 4)]);
}
