use classify::order::sorted_copy;
use classify::partition::{check_boundaries, partition_bounds};
use classify::unique::{create_unique_val_mapping, unique_to_normal_breaks, UniqueVal};

#[test]
fn sorted_copy_orders_the_keys_and_keeps_repeats() {
    let data = vec![3, -1, 2, 3, 0, -1];
    assert_eq!(sorted_copy(&data), vec![-1, -1, 0, 2, 3, 3]);
    assert_eq!(data, vec![3, -1, 2, 3, 0, -1]);
    assert_eq!(sorted_copy(&vec![]), Vec::<i64>::new());
    assert_eq!(sorted_copy(&vec![i64::MAX, i64::MIN, 0]), vec![i64::MIN, 0, i64::MAX]);
}

#[test]
fn runs_of_equal_keys_are_indexed() {
    let mut runs = vec![UniqueVal { value: 99, start_index: 99, count: 99 }];
    create_unique_val_mapping(&mut runs, &vec![1, 1, 2, 3, 3, 3]);
    assert_eq!(
        runs,
        vec![
            UniqueVal { value: 1, start_index: 0, count: 2 },
            UniqueVal { value: 2, start_index: 2, count: 1 },
            UniqueVal { value: 3, start_index: 3, count: 3 },
        ]
    );
}

#[test]
fn runs_of_distinct_and_of_identical_keys() {
    let mut runs = vec![];
    create_unique_val_mapping(&mut runs, &vec![-5, 0, 5]);
    assert_eq!(runs.len(), 3);
    assert!(runs.iter().all(|r| r.count == 1));
    create_unique_val_mapping(&mut runs, &vec![4, 4, 4, 4]);
    assert_eq!(runs, vec![UniqueVal { value: 4, start_index: 0, count: 4 }]);
    create_unique_val_mapping(&mut runs, &vec![]);
    assert!(runs.is_empty());
}

#[test]
fn run_positions_translate_to_run_starts() {
    let mut runs = vec![];
    create_unique_val_mapping(&mut runs, &vec![1, 1, 2, 3, 3, 3, 8]);
    let mut normal = vec![0usize; 5];
    unique_to_normal_breaks(&vec![1, 3], &runs, &mut normal);
    assert_eq!(normal, vec![2, 6]);
    unique_to_normal_breaks(&vec![0, 1, 2, 3], &runs, &mut normal);
    assert_eq!(normal, vec![0, 2, 3, 6]);
    unique_to_normal_breaks(&vec![], &runs, &mut normal);
    assert!(normal.is_empty());
}

#[test]
fn boundary_sets_are_checked() {
    assert!(check_boundaries(&vec![], 0));
    assert!(check_boundaries(&vec![], 5));
    assert!(check_boundaries(&vec![1, 2, 4], 5));
    assert!(check_boundaries(&vec![4], 5));
    assert!(!check_boundaries(&vec![0, 2], 5));
    assert!(!check_boundaries(&vec![2, 5], 5));
    assert!(!check_boundaries(&vec![2, 2], 5));
    assert!(!check_boundaries(&vec![3, 2], 5));
    assert!(!check_boundaries(&vec![1], 1));
}

#[test]
fn partitions_span_from_boundary_to_boundary() {
    let boundaries = vec![2, 5];
    assert_eq!(partition_bounds(&boundaries, 9, 0), (0, 2));
    assert_eq!(partition_bounds(&boundaries, 9, 1), (2, 5));
    assert_eq!(partition_bounds(&boundaries, 9, 2), (5, 9));
    assert_eq!(partition_bounds(&vec![], 9, 0), (0, 9));
}
