use rand::rngs::StdRng;
use rand::SeedableRng;
use world::{IterRandomExt, RandomTable};

#[test]
fn weighted_table_frequencies_follow_weights() {
    let table = RandomTable::new(vec![('a', 1), ('b', 1), ('c', 2)]);
    let mut rng = StdRng::seed_from_u64(42);
    let mut counts = [0u32; 3];
    let draws = 100_000;
    for _ in 0..draws {
        match *table.generate(&mut rng) {
            'a' => counts[0] += 1,
            'b' => counts[1] += 1,
            _ => counts[2] += 1,
        }
    }
    let share = |c: u32| c as f64 / draws as f64;
    assert!((share(counts[0]) - 0.25).abs() < 0.02);
    assert!((share(counts[1]) - 0.25).abs() < 0.02);
    assert!((share(counts[2]) - 0.5).abs() < 0.02);
}

#[test]
fn weighted_table_picks_by_range() {
    let table = RandomTable::new(vec![('a', 1), ('b', 1), ('c', 2)]);
    assert_eq!(*table.pick(0), 'a');
    assert_eq!(*table.pick(1), 'b');
    assert_eq!(*table.pick(2), 'c');
    assert_eq!(*table.pick(3), 'c');
}

#[test]
fn random_element_comes_from_the_list() {
    let mut rng = StdRng::seed_from_u64(7);
    let items = vec![7, 8, 9];
    for _ in 0..50 {
        assert!(items.contains(&items.random(&mut rng)));
    }
    assert_eq!(vec![5].random(&mut rng), 5);
    let mut seen = [false; 3];
    for _ in 0..200 {
        seen[(items.random(&mut rng) - 7) as usize] = true;
    }
    assert!(seen.iter().all(|&s| s));
}
