use classify::sampler::{insert_distinct, pick_rand_breaks};
use rand::rngs::StdRng;
use rand::SeedableRng;

#[test]
fn sample_is_ascending_distinct_and_in_range() {
    let mut rng = StdRng::seed_from_u64(123456789);
    for _ in 0..200 {
        let mut breaks = vec![0usize; 4];
        pick_rand_breaks(&mut breaks, &12, &mut rng);
        assert_eq!(breaks.len(), 4);
        assert!(breaks.windows(2).all(|w| w[0] < w[1]));
        assert!(breaks.iter().all(|&b| 1 <= b && b < 12));
    }
}

#[test]
fn full_sample_takes_every_position() {
    let mut rng = StdRng::seed_from_u64(7);
    let mut breaks = vec![0usize; 9];
    pick_rand_breaks(&mut breaks, &10, &mut rng);
    assert_eq!(breaks, vec![1, 2, 3, 4, 5, 6, 7, 8, 9]);
}

#[test]
fn samples_vary_between_draws() {
    let mut rng = StdRng::seed_from_u64(123456789);
    let mut seen = std::collections::BTreeSet::new();
    for _ in 0..100 {
        let mut breaks = vec![0usize; 2];
        pick_rand_breaks(&mut breaks, &50, &mut rng);
        seen.insert(breaks);
    }
    assert!(seen.len() > 10);
}

#[test]
fn same_seed_gives_the_same_samples() {
    let mut first = StdRng::seed_from_u64(42);
    let mut second = StdRng::seed_from_u64(42);
    for _ in 0..20 {
        let mut a = vec![0usize; 3];
        let mut b = vec![0usize; 3];
        pick_rand_breaks(&mut a, &30, &mut first);
        pick_rand_breaks(&mut b, &30, &mut second);
        assert_eq!(a, b);
    }
}

#[test]
fn oversized_sample_leaves_breaks_untouched() {
    let mut rng = StdRng::seed_from_u64(1);
    let mut breaks = vec![7usize, 7, 7];
    pick_rand_breaks(&mut breaks, &3, &mut rng);
    assert_eq!(breaks, vec![7, 7, 7]);
    pick_rand_breaks(&mut breaks, &0, &mut rng);
    assert_eq!(breaks, vec![7, 7, 7]);
    let mut none: Vec<usize> = vec![];
    pick_rand_breaks(&mut none, &0, &mut rng);
    assert!(none.is_empty());
}

#[test]
fn empty_sample_draws_nothing() {
    let mut rng = StdRng::seed_from_u64(1);
    let mut untouched = rng.clone();
    let mut breaks: Vec<usize> = vec![];
    pick_rand_breaks(&mut breaks, &5, &mut rng);
    assert!(breaks.is_empty());
    pick_rand_breaks(&mut breaks, &1, &mut rng);
    assert!(breaks.is_empty());
    assert_eq!(rng, untouched);
    let mut one = vec![0usize];
    pick_rand_breaks(&mut one, &2, &mut untouched);
    assert_eq!(one, vec![1]);
}

#[test]
fn insert_distinct_keeps_the_list_ascending() {
    let mut chosen: Vec<usize> = vec![];
    assert!(insert_distinct(&mut chosen, 5));
    assert!(insert_distinct(&mut chosen, 2));
    assert!(insert_distinct(&mut chosen, 9));
    assert!(insert_distinct(&mut chosen, 7));
    assert_eq!(chosen, vec![2, 5, 7, 9]);
}

#[test]
fn insert_distinct_skips_a_repeat() {
    let mut chosen: Vec<usize> = vec![2, 5, 9];
    assert!(!insert_distinct(&mut chosen, 5));
    assert!(!insert_distinct(&mut chosen, 2));
    assert!(!insert_distinct(&mut chosen, 9));
    assert_eq!(chosen, vec![2, 5, 9]);
}
