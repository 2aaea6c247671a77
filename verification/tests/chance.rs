use generative::maze::dice::Dice;
use generative::maze::partition::Partition;

#[test]
fn below_stays_under_the_bound() {
    let mut dice = Dice::seeded(7);
    for bound in 1..40usize {
        for _ in 0..25 {
            assert!(dice.below(bound) < bound);
        }
    }
}

#[test]
fn below_one_is_nought() {
    let mut dice = Dice::fresh();
    for _ in 0..10 {
        assert_eq!(dice.below(1), 0);
    }
}

#[test]
fn below_reaches_every_value() {
    let mut dice = Dice::seeded(11);
    let mut seen = [false; 6];
    for _ in 0..600 {
        seen[dice.below(6)] = true;
    }
    assert_eq!(seen, [true; 6]);
}

#[test]
fn equal_seeds_replay_the_same_draws() {
    let mut first = Dice::seeded(2024);
    let mut second = Dice::seeded(2024);
    for _ in 0..200 {
        assert_eq!(first.below(1000), second.below(1000));
        assert_eq!(first.coin(), second.coin());
    }
}

#[test]
fn different_seeds_give_different_draws() {
    let mut first = Dice::seeded(1);
    let mut second = Dice::seeded(2);
    let a: Vec<usize> = (0..50).map(|_| first.below(1_000_000)).collect();
    let b: Vec<usize> = (0..50).map(|_| second.below(1_000_000)).collect();
    assert_ne!(a, b);
}

#[test]
fn coin_shows_both_faces() {
    let mut dice = Dice::seeded(5);
    let mut heads = 0;
    for _ in 0..400 {
        if dice.coin() {
            heads += 1;
        }
    }
    assert!(heads > 100 && heads < 300);
}

#[test]
fn pick_takes_one_of_the_items() {
    let mut dice = Dice::seeded(3);
    let items = vec![10usize, 20, 30];
    let mut seen = [false; 3];
    for _ in 0..300 {
        let picked = dice.pick(&items).unwrap();
        seen[items.iter().position(|&i| i == picked).unwrap()] = true;
    }
    assert_eq!(seen, [true; 3]);
}

#[test]
fn pick_of_nothing_is_none() {
    let mut dice = Dice::seeded(3);
    assert_eq!(dice.pick(&Vec::new()), None);
}

#[test]
fn shuffle_keeps_the_items_and_moves_them() {
    let mut dice = Dice::seeded(99);
    let sorted: Vec<u32> = (0..60).collect();
    let mut items = sorted.clone();
    dice.shuffle(&mut items);
    assert_ne!(items, sorted);
    items.sort();
    assert_eq!(items, sorted);
}

#[test]
fn partition_starts_with_single_classes() {
    let parts = Partition::new(4);
    assert_eq!(parts.count(), 4);
    for a in 0..4 {
        for b in 0..4 {
            assert_eq!(parts.same(a, b), a == b);
        }
    }
}

#[test]
fn partition_unites_whole_classes() {
    let mut parts = Partition::new(5);
    parts.unite(0, 1);
    parts.unite(2, 3);
    assert!(parts.same(0, 1) && parts.same(1, 0));
    assert!(parts.same(2, 3));
    assert!(!parts.same(1, 2));
    assert!(!parts.same(0, 4));
    parts.unite(3, 0);
    assert!(parts.same(1, 2));
    assert!(!parts.same(4, 2));
    assert_eq!(parts.count(), 5);
}

#[test]
fn partition_unite_of_one_class_changes_nothing() {
    let mut parts = Partition::new(3);
    parts.unite(0, 1);
    parts.unite(1, 0);
    assert!(parts.same(0, 1));
    assert!(!parts.same(0, 2));
}
