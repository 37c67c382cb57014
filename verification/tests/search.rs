use classify::classification::{get_jenks_classification, Bin};
use classify::encoding::{decode_keys, encode_observations, order_key};
use classify::order::sorted_copy;
use classify::partition::partition_bounds;
use classify::search::{
    break_values, get_jenks_breaks, keep_best, trial_count, JenksError, MAX_TRIALS, MIN_TRIALS,
    SEED, START_SCORE,
};

fn keys_of(values: &[f64]) -> Vec<i64> {
    let patterns: Vec<u64> = values.iter().map(|x| x.to_bits()).collect();
    encode_observations(&patterns).unwrap()
}

fn values_of(keys: &Vec<i64>) -> Vec<f64> {
    decode_keys(keys).unwrap().into_iter().map(f64::from_bits).collect()
}

fn sum_sq_dev(values: &[f64]) -> f64 {
    let mean = values.iter().sum::<f64>() / values.len() as f64;
    values.iter().map(|x| (x - mean) * (x - mean)).sum()
}

fn variance_fit(breaks: &Vec<usize>, sorted: &[f64], global: f64) -> f64 {
    let mut within = 0.0;
    for i in 0..=breaks.len() {
        let (lower, upper) = partition_bounds(breaks, sorted.len(), i);
        within += sum_sq_dev(&sorted[lower..upper]);
    }
    1.0 - within / global
}

fn score_of(fit: f64) -> i64 {
    order_key(fit.to_bits()).unwrap_or(i64::MIN)
}

fn find_breaks(num_bins: usize, values: &[f64]) -> Result<Vec<f64>, JenksError> {
    let keys = keys_of(values);
    let sorted = values_of(&sorted_copy(&keys));
    let global = sum_sq_dev(&sorted);
    let breaks = get_jenks_breaks(&num_bins, &keys, |b: &Vec<usize>| {
        score_of(variance_fit(b, &sorted, global))
    })?;
    Ok(values_of(&breaks))
}

#[test]
fn six_values_in_three_bins() {
    let data = [1.0, 2.0, 4.0, 5.0, 7.0, 8.0];
    assert_eq!(find_breaks(3, &data), Ok(vec![4.0, 7.0]));
}

#[test]
fn six_values_unsorted_give_the_same_breaks() {
    let data = [7.0, 1.0, 8.0, 4.0, 2.0, 5.0];
    assert_eq!(find_breaks(3, &data), Ok(vec![4.0, 7.0]));
}

#[test]
fn six_values_classified_in_three_bins() {
    let data = [1.0, 2.0, 4.0, 5.0, 7.0, 8.0];
    let keys = keys_of(&data);
    let sorted = values_of(&sorted_copy(&keys));
    let global = sum_sq_dev(&sorted);
    let result = get_jenks_classification(&3, &keys, |b: &Vec<usize>| {
        score_of(variance_fit(b, &sorted, global))
    })
    .unwrap();
    let key = |x: f64| order_key(x.to_bits()).unwrap();
    let expected = vec![
        Bin { bin_start: key(1.0), bin_end: key(4.0), count: 2 },
        Bin { bin_start: key(4.0), bin_end: key(7.0), count: 2 },
        Bin { bin_start: key(7.0), bin_end: key(8.0), count: 2 },
    ];
    assert_eq!(result.bins, expected);
    assert_eq!(result.bins.iter().map(|b| b.count).sum::<usize>(), 6);
}

#[test]
fn break_count_is_bins_or_unique_values_less_one() {
    let data = [3.0, 1.0, 2.0, 2.0, 9.0, 1.0, 5.0, 9.0];
    for num_bins in 1..=8 {
        let breaks = find_breaks(num_bins, &data).unwrap();
        assert_eq!(breaks.len(), num_bins.min(5) - 1);
    }
}

#[test]
fn one_bin_gives_no_break() {
    assert_eq!(find_breaks(1, &[3.0, 1.0, 2.0]), Ok(vec![]));
}

#[test]
fn breaks_are_data_values_in_growing_order() {
    let data = [0.5, -3.0, 12.25, 7.0, 7.0, -3.0, 100.0, 42.0, 0.5, 8.5, -0.0, 19.0];
    for num_bins in 2..=6 {
        let breaks = find_breaks(num_bins, &data).unwrap();
        for pair in breaks.windows(2) {
            assert!(pair[0] < pair[1]);
        }
        for b in &breaks {
            assert!(data.contains(b));
            assert!(*b > -3.0);
        }
    }
}

#[test]
fn repeated_search_gives_identical_breaks() {
    let data: Vec<f64> = (0..200).map(|i| ((i * 37) % 101) as f64 * 0.25).collect();
    let first = find_breaks(5, &data).unwrap();
    let second = find_breaks(5, &data).unwrap();
    let first_bits: Vec<u64> = first.iter().map(|x| x.to_bits()).collect();
    let second_bits: Vec<u64> = second.iter().map(|x| x.to_bits()).collect();
    assert_eq!(first_bits, second_bits);
    assert_eq!(first.len(), 4);
}

#[test]
fn more_bins_than_unique_values_breaks_at_every_value_but_the_least() {
    let data = [2.0, 1.0, 1.0, 3.0, 2.0];
    assert_eq!(find_breaks(10, &data), Ok(vec![2.0, 3.0]));
    assert_eq!(find_breaks(3, &data), Ok(vec![2.0, 3.0]));
}

#[test]
fn identical_values_give_one_bin_and_no_call_of_the_scorer() {
    let data = [5.0, 5.0, 5.0, 5.0];
    let keys = keys_of(&data);
    let breaks = get_jenks_breaks(&3, &keys, |_: &Vec<usize>| -> i64 {
        panic!("nothing is scored where a single bin is formed")
    });
    assert_eq!(breaks, Ok(vec![]));
    let result = get_jenks_classification(&3, &keys, |_: &Vec<usize>| -> i64 {
        panic!("nothing is scored where a single bin is formed")
    })
    .unwrap();
    let five = order_key(5.0f64.to_bits()).unwrap();
    assert_eq!(result.bins, vec![Bin { bin_start: five, bin_end: five, count: 4 }]);
}

#[test]
fn empty_data_is_refused() {
    let keys: Vec<i64> = vec![];
    assert_eq!(get_jenks_breaks(&3, &keys, |_: &Vec<usize>| 1), Err(JenksError::EmptyData));
    assert_eq!(get_jenks_breaks(&0, &keys, |_: &Vec<usize>| 1), Err(JenksError::EmptyData));
    assert_eq!(
        get_jenks_classification(&3, &keys, |_: &Vec<usize>| 1).err(),
        Some(JenksError::EmptyData)
    );
}

#[test]
fn zero_bins_are_refused() {
    let keys: Vec<i64> = vec![1, 2, 3];
    assert_eq!(get_jenks_breaks(&0, &keys, |_: &Vec<usize>| 1), Err(JenksError::ZeroBins));
    assert_eq!(
        get_jenks_classification(&0, &keys, |_: &Vec<usize>| 1).err(),
        Some(JenksError::ZeroBins)
    );
}

#[test]
fn scores_at_or_below_the_start_keep_no_candidate() {
    let keys: Vec<i64> = vec![40, 10, 30, 20];
    let unscored = get_jenks_breaks(&3, &keys, |_: &Vec<usize>| START_SCORE);
    assert_eq!(unscored, Ok(vec![10, 10]));
    let negative = get_jenks_breaks(&3, &keys, |_: &Vec<usize>| -5);
    assert_eq!(negative, Ok(vec![10, 10]));
}

#[test]
fn scorer_sees_only_boundary_sets_of_the_asked_size() {
    let keys: Vec<i64> = vec![5, 1, 1, 9, 9, 9, 3, 7];
    let sorted = sorted_copy(&keys);
    let breaks = get_jenks_breaks(&3, &keys, |b: &Vec<usize>| {
        assert_eq!(b.len(), 2);
        assert!(1 <= b[0] && b[0] < b[1] && b[1] < 8);
        assert!(sorted[b[0] - 1] < sorted[b[0]]);
        assert!(sorted[b[1] - 1] < sorted[b[1]]);
        1
    })
    .unwrap();
    assert_eq!(breaks.len(), 2);
    assert!(breaks[0] < breaks[1]);
}

#[test]
fn greatest_score_wins() {
    let keys: Vec<i64> = vec![10, 20, 30, 40, 50];
    let breaks = get_jenks_breaks(&2, &keys, |b: &Vec<usize>| if b[0] == 3 { 9 } else { 4 });
    assert_eq!(breaks, Ok(vec![40]));
}

#[test]
fn keep_best_takes_a_strictly_greater_score_only() {
    let mut best = vec![0, 0];
    let mut best_score = START_SCORE;
    assert!(!keep_best(&mut best, &mut best_score, &vec![1, 2], 0));
    assert_eq!((best.clone(), best_score), (vec![0, 0], 0));
    assert!(keep_best(&mut best, &mut best_score, &vec![1, 2], 7));
    assert_eq!((best.clone(), best_score), (vec![1, 2], 7));
    assert!(!keep_best(&mut best, &mut best_score, &vec![2, 3], 7));
    assert_eq!((best.clone(), best_score), (vec![1, 2], 7));
    assert!(!keep_best(&mut best, &mut best_score, &vec![3, 4], -1));
    assert_eq!((best.clone(), best_score), (vec![1, 2], 7));
    assert!(keep_best(&mut best, &mut best_score, &vec![3, 4], 8));
    assert_eq!((best, best_score), (vec![3, 4], 8));
}

#[test]
fn break_values_reads_the_keys_at_the_positions() {
    assert_eq!(break_values(&vec![10, 20, 30, 40], &vec![1, 3]), vec![20, 40]);
    assert_eq!(break_values(&vec![10, 20, 30, 40], &vec![0, 0]), vec![10, 10]);
    assert_eq!(break_values(&vec![10, 20, 30, 40], &vec![]), Vec::<i64>::new());
}

#[test]
fn trial_count_is_the_budget_share_within_its_limits() {
    assert_eq!(trial_count(1), 10_000);
    assert_eq!(trial_count(6), 10_000);
    assert_eq!(trial_count(4_400), 10_000);
    assert_eq!(trial_count(4_401), 9_997);
    assert_eq!(trial_count(1_000_000), 44);
    assert_eq!(trial_count(4_400_000), 10);
    assert_eq!(trial_count(4_400_001), 10);
    assert_eq!(trial_count(50_000_000), 10);
    assert_eq!(trial_count(usize::MAX), 10);
    assert_eq!((MIN_TRIALS, MAX_TRIALS), (10, 10_000));
}

#[test]
fn seed_is_fixed() {
    assert_eq!(SEED, 123456789);
}
