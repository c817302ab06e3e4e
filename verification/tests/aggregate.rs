use uamutations::aggregate::{
    aggregate_columns, aggregate_to_groups, aggregate_to_groups_single_col, largest_group,
};
use uamutations::arith::divide;
use uamutations::distance::{distance, nearest_dists};
use uamutations::error::{Dimension, MutationError, Stage};
use uamutations::table::{shape_is_allocatable, Table};

fn table(rows: Vec<Vec<i64>>) -> Table {
    Table::from_rows(&rows).unwrap()
}

#[test]
fn division_rounds_toward_zero() {
    assert_eq!(divide(7, 2), 3);
    assert_eq!(divide(-7, 2), -3);
    assert_eq!(divide(7, -2), -3);
    assert_eq!(divide(-7, -2), 3);
    assert_eq!(divide(0, 5), 0);
}

#[test]
fn distance_of_one_pair() {
    assert_eq!(distance(4, 3, true), Ok(-1));
    assert_eq!(distance(4, 3, false), Ok(-250_000));
    assert_eq!(distance(0, 3, true), Ok(3));
    assert_eq!(distance(0, 3, false), Err(MutationError::ZeroSource));
    assert_eq!(distance(-1, i64::MAX, true), Err(MutationError::Overflow(Stage::Matcher)));
}

#[test]
fn distances_come_back_in_source_order() {
    let sources = vec![5, 1, 4, 2];
    let targets = vec![7, 9, 3, 2];
    assert_eq!(nearest_dists(&sources, &targets, true), Ok(vec![4, 1, 3, 1]));
}

#[test]
fn largest_group_of_none_is_zero() {
    assert_eq!(largest_group(&[]), 0);
    assert_eq!(largest_group(&[2, 7, 3]), 7);
}

#[test]
fn group_means_are_sums_over_counts() {
    let values = vec![10, 20, 5, 7];
    let groups = vec![1, 1, 3, 3];
    assert_eq!(aggregate_to_groups_single_col(&values, &groups), Ok(vec![15, 0, 6]));
}

#[test]
fn vacant_group_has_mean_zero() {
    let values = vec![4, 6];
    let groups = vec![4, 4];
    assert_eq!(aggregate_to_groups_single_col(&values, &groups), Ok(vec![0, 0, 0, 5]));
}

#[test]
fn group_mean_rounds_toward_zero() {
    assert_eq!(aggregate_to_groups_single_col(&[-1, -2], &[1, 1]), Ok(vec![-1]));
    assert_eq!(aggregate_to_groups_single_col(&[1, 2], &[1, 1]), Ok(vec![1]));
}

#[test]
fn group_zero_is_counted_nowhere() {
    assert_eq!(aggregate_to_groups_single_col(&[100, 3], &[0, 1]), Ok(vec![3]));
    assert_eq!(aggregate_to_groups_single_col(&[100], &[0]), Ok(Vec::new()));
}

#[test]
fn group_means_of_extreme_values_do_not_overflow() {
    let values = vec![i64::MAX, i64::MAX, i64::MIN, i64::MIN];
    let groups = vec![1, 1, 2, 2];
    assert_eq!(aggregate_to_groups_single_col(&values, &groups), Ok(vec![i64::MAX, i64::MIN]));
}

#[test]
fn group_means_need_one_group_per_value() {
    assert_eq!(
        aggregate_to_groups_single_col(&[1, 2, 3], &[1, 1]),
        Err(MutationError::ShapeMismatch(Stage::Aggregator, Dimension::Groups))
    );
}

#[test]
fn group_means_need_an_entity() {
    let fault = MutationError::EmptyInput(Stage::Aggregator);
    assert_eq!(aggregate_to_groups_single_col(&[], &[]), Err(fault));
    // The missing entities are reported before the unequal lengths.
    assert_eq!(aggregate_to_groups_single_col(&[1], &[]), Err(fault));
}

#[test]
fn aggregate_needs_an_entity() {
    let values = table(vec![Vec::new()]);
    let dists = Table::zeros(0, 1);
    assert_eq!((values.nrows(), values.ncols()), (1, 0));
    assert_eq!((dists.nrows(), dists.ncols()), (0, 1));
    assert!(matches!(
        aggregate_to_groups(&values, &dists, &[]),
        Err(MutationError::EmptyInput(Stage::Aggregator))
    ));
    assert!(matches!(
        aggregate_columns(&[], &vec![Vec::new()], &[]),
        Err(MutationError::EmptyInput(Stage::Aggregator))
    ));
    assert!(matches!(
        aggregate_columns(&[1], &vec![vec![0]], &[]),
        Err(MutationError::EmptyInput(Stage::Aggregator))
    ));
}

#[test]
fn row_count_is_the_largest_group_number() {
    let values = table(vec![vec![1, 2, 3]]);
    let dists = table(vec![vec![0], vec![0], vec![0]]);
    let result = aggregate_to_groups(&values, &dists, &[2, 5, 2]).unwrap();
    assert_eq!(result.nrows(), 5);
    assert_eq!(result.ncols(), 3);
}

#[test]
fn aggregate_has_observed_mutated_and_distance_columns() {
    let values = table(vec![vec![10, 20, 30], vec![0, 0, 0]]);
    let dists = table(vec![vec![2, 200], vec![4, 400], vec![-6, -600]]);
    let result = aggregate_to_groups(&values, &dists, &[1, 1, 3]).unwrap();
    assert_eq!(
        result.to_rows(),
        vec![vec![15, 18, 3, 300], vec![0, 0, 0, 0], vec![30, 24, -6, -600]]
    );
}

#[test]
fn aggregate_is_unchanged_by_reordering_entities() {
    let values = table(vec![vec![10, 20, 30, 40]]);
    let dists = table(vec![vec![1, 5], vec![2, 6], vec![3, 7], vec![4, 8]]);
    let groups = [2, 1, 2, 1];
    let shuffled_values = table(vec![vec![40, 10, 30, 20]]);
    let shuffled_dists = table(vec![vec![4, 8], vec![1, 5], vec![3, 7], vec![2, 6]]);
    let shuffled_groups = [1, 2, 2, 1];
    let one = aggregate_to_groups(&values, &dists, &groups).unwrap();
    let other = aggregate_to_groups(&shuffled_values, &shuffled_dists, &shuffled_groups).unwrap();
    assert_eq!(one.to_rows(), other.to_rows());
    assert_eq!(one.to_rows(), vec![vec![30, 33, 3, 7], vec![20, 22, 2, 6]]);
}

#[test]
fn aggregate_rejects_mismatched_shapes() {
    let values = table(vec![vec![1, 2]]);
    let dists = table(vec![vec![0], vec![0]]);
    let no_rows = table(Vec::new());
    let no_columns = table(vec![Vec::new(), Vec::new()]);
    assert!(matches!(
        aggregate_to_groups(&values, &dists, &[1]),
        Err(MutationError::ShapeMismatch(Stage::Aggregator, Dimension::Groups))
    ));
    assert!(matches!(
        aggregate_to_groups(&no_rows, &dists, &[1, 1]),
        Err(MutationError::EmptyInput(Stage::Aggregator))
    ));
    assert!(matches!(
        aggregate_to_groups(&values, &no_columns, &[1, 1]),
        Err(MutationError::ShapeMismatch(Stage::Aggregator, Dimension::DistanceColumns))
    ));
    assert!(matches!(
        aggregate_columns(&[1, 2], &vec![vec![0, 0], vec![0]], &[1, 1]),
        Err(MutationError::ShapeMismatch(Stage::Aggregator, Dimension::DistanceRows))
    ));
    // A missing distance column is reported before a missing group number.
    assert!(matches!(
        aggregate_to_groups(&values, &no_columns, &[1]),
        Err(MutationError::ShapeMismatch(Stage::Aggregator, Dimension::DistanceColumns))
    ));
}

#[test]
fn aggregate_rejects_a_huge_group_number() {
    let values = table(vec![vec![1]]);
    let dists = table(vec![vec![0]]);
    assert!(matches!(
        aggregate_to_groups(&values, &dists, &[usize::MAX]),
        Err(MutationError::TooLarge(Stage::Aggregator))
    ));
}

#[test]
fn aggregate_rejects_a_mutated_value_beyond_64_bits() {
    let values = table(vec![vec![i64::MAX]]);
    let dists = table(vec![vec![1]]);
    assert!(matches!(
        aggregate_to_groups(&values, &dists, &[1]),
        Err(MutationError::Overflow(Stage::Aggregator))
    ));
}

#[test]
fn allocatable_shapes() {
    assert!(shape_is_allocatable(0, usize::MAX));
    assert!(shape_is_allocatable(1000, 1000));
    assert!(!shape_is_allocatable(usize::MAX, 2));
    assert!(shape_is_allocatable(isize::MAX as usize / 8, 1));
    assert!(!shape_is_allocatable(isize::MAX as usize / 8 + 1, 1));
}

#[test]
fn table_keeps_what_is_written() {
    let mut t = Table::zeros(2, 3);
    assert_eq!(t.to_rows(), vec![vec![0, 0, 0], vec![0, 0, 0]]);
    assert!(t.set(1, 2, 9));
    assert!(!t.set(2, 0, 9));
    assert!(!t.set(0, 3, 9));
    assert!(t.set_column(0, &[5, 6]));
    assert!(!t.set_column(0, &[5]));
    assert!(!t.set_column(3, &[5, 6]));
    assert_eq!(t.to_rows(), vec![vec![5, 0, 0], vec![6, 0, 9]]);
    assert_eq!(t.row(1), Some(vec![6, 0, 9]));
    assert_eq!(t.row(2), None);
    assert_eq!(t.get_column(2), Some(vec![0, 9]));
    assert_eq!(t.get_column(3), None);
    assert_eq!((t.nrows(), t.ncols()), (2, 3));
}

#[test]
fn table_needs_equally_long_rows() {
    assert!(Table::from_rows(&vec![vec![1], vec![2, 3]]).is_none());
    let t = table(vec![vec![1, 2], vec![3, 4], vec![5, 6]]);
    assert_eq!(t.to_rows(), vec![vec![1, 2], vec![3, 4], vec![5, 6]]);
    assert_eq!(t.get_column(1), Some(vec![2, 4, 6]));
}
