use world::{Location, Terrain, Tile};

#[test]
fn manhattan_is_symmetric_and_zero_on_itself() {
    let a = Location::new(1, 2);
    let b = Location::new(4, -2);
    assert_eq!(a.manhattan(&b), 7);
    assert_eq!(b.manhattan(&a), 7);
    assert_eq!(a.manhattan(&a), 0);
}

#[test]
fn euclidean_rounds_down() {
    let o = Location::new(0, 0);
    assert_eq!(o.euclidean(&Location::new(3, 4)), 5);
    assert_eq!(o.euclidean(&Location::new(1, 1)), 1);
    assert_eq!(Location::new(2, 3).euclidean(&o), 3);
    assert_eq!(o.euclidean(&o), 0);
}

#[test]
fn tile_keeps_its_parts() {
    let t = Tile::new(Location::new(3, 4), Terrain::Debug);
    assert_eq!(t.loc, Location::new(3, 4));
    assert_eq!(t.terrain, Terrain::Debug);
}
