use uamutations::arith::SCALE;
use uamutations::error::{Dimension, MutationError, Stage};
use uamutations::grid::Grid;
use uamutations::matching::match_nearest;
use uamutations::vector_fns::{calculate_dists, get_ordering_index};

fn grid(rows: Vec<Vec<i64>>) -> Grid {
    Grid::from_rows(&rows).unwrap()
}

fn as_fractions(parts: &[i64]) -> Vec<f64> {
    parts.iter().map(|&p| p as f64 / SCALE as f64).collect()
}

#[test]
fn test_get_ordering_index() {
    let vals = vec![1, -2, 3, -4, 5];
    let mut expected = vec![3, 1, 0, 2, 4];
    assert_eq!(get_ordering_index(&vals, false, false), expected);
    expected.reverse();
    assert_eq!(get_ordering_index(&vals, true, false), expected);
}

#[test]
fn test_get_ordering_index_abs() {
    let vals = vec![1, -2, 3, -4, 5];
    let mut expected = vec![0, 1, 2, 3, 4];
    assert_eq!(get_ordering_index(&vals, false, true), expected);
    expected.reverse();
    assert_eq!(get_ordering_index(&vals, true, true), expected);
}

#[test]
fn test_calculate_dists_absolute() {
    // 2 is closest to 2, but is matched to 3: 1 came first and took the 2.
    let values1 = grid(vec![vec![1, 2, 4, 5]]);
    let values2 = grid(vec![vec![7, 9, 3, 2]]);
    let result = calculate_dists(&values1, &values2, true).unwrap();
    assert_eq!(result, vec![1, 1, 3, 4]);
    assert_eq!(result.len(), 4);
}

#[test]
fn test_calculate_dists_relative() {
    let values1 = grid(vec![vec![1, 2, 4, 5]]);
    let values2 = grid(vec![vec![7, 9, 3, 2]]);
    let result = calculate_dists(&values1, &values2, false).unwrap();
    assert_eq!(result, vec![1_000_000, 500_000, 750_000, 800_000]);
    assert_eq!(as_fractions(&result), vec![1.0, 0.5, 0.75, 0.8]);
}

#[test]
fn ordering_of_nothing_is_empty() {
    let vals: Vec<i64> = Vec::new();
    assert_eq!(get_ordering_index(&vals, false, false), Vec::<usize>::new());
}

#[test]
fn ordering_keeps_equal_values_in_place() {
    let vals = vec![2, 1, 2, 1];
    assert_eq!(get_ordering_index(&vals, false, false), vec![1, 3, 0, 2]);
    // Descending is not the reverse of ascending here: ties stay in place.
    assert_eq!(get_ordering_index(&vals, true, false), vec![0, 2, 1, 3]);
}

#[test]
fn ordering_by_magnitude_handles_the_smallest_integer() {
    let vals = vec![i64::MAX, i64::MIN, 0];
    assert_eq!(get_ordering_index(&vals, false, true), vec![2, 0, 1]);
    assert_eq!(get_ordering_index(&vals, false, false), vec![1, 2, 0]);
}

#[test]
fn descending_reverses_ascending_for_distinct_values() {
    let vals = vec![10, -3, 7, 0, 22, -8];
    let mut up = get_ordering_index(&vals, false, false);
    let down = get_ordering_index(&vals, true, false);
    up.reverse();
    assert_eq!(up, down);
}

#[test]
fn matching_takes_each_target_once() {
    let sources = vec![1, 2, 4, 5];
    let targets = vec![7, 9, 3, 2];
    let matched = match_nearest(&sources, &targets).unwrap();
    assert_eq!(matched, vec![3, 2, 0, 1]);
    let mut seen = matched.clone();
    seen.sort();
    seen.dedup();
    assert_eq!(seen.len(), sources.len());
}

#[test]
fn matching_follows_value_order_not_position() {
    // The lowest source, at position 2, chooses first.
    let sources = vec![10, 9, 1];
    let targets = vec![2, 8, 20];
    assert_eq!(match_nearest(&sources, &targets).unwrap(), vec![2, 1, 0]);
}

#[test]
fn matching_breaks_ties_by_target_position() {
    let sources = vec![5, 5];
    let targets = vec![6, 4];
    assert_eq!(match_nearest(&sources, &targets).unwrap(), vec![0, 1]);
}

#[test]
fn matching_rejects_empty_and_unequal_rows() {
    let none: Vec<i64> = Vec::new();
    let empty = MutationError::EmptyInput(Stage::Matcher);
    let unequal = MutationError::ShapeMismatch(Stage::Matcher, Dimension::Entities);
    assert_eq!(match_nearest(&none, &none), Err(empty));
    assert_eq!(match_nearest(&[1], &none), Err(empty));
    assert_eq!(match_nearest(&[1, 2], &[1]), Err(unequal));
}

#[test]
fn single_entity_distance_is_the_difference() {
    let values1 = grid(vec![vec![40]]);
    let values2 = grid(vec![vec![-2]]);
    assert_eq!(calculate_dists(&values1, &values2, true), Ok(vec![-42]));
    assert_eq!(calculate_dists(&values1, &values2, false), Ok(vec![-1_050_000]));
}

#[test]
fn relative_distance_rounds_toward_zero() {
    let down = calculate_dists(&grid(vec![vec![3]]), &grid(vec![vec![1]]), false);
    assert_eq!(down, Ok(vec![-666_666]));
    let up = calculate_dists(&grid(vec![vec![3]]), &grid(vec![vec![5]]), false);
    assert_eq!(up, Ok(vec![666_666]));
    let negative_source = calculate_dists(&grid(vec![vec![-3]]), &grid(vec![vec![-1]]), false);
    assert_eq!(negative_source, Ok(vec![-666_666]));
}

#[test]
fn distances_only_read_the_primary_row() {
    let values1 = grid(vec![vec![1, 2, 4, 5], vec![100, 200, 300, 400]]);
    let values2 = grid(vec![vec![7, 9, 3, 2], vec![-1, -1, -1, -1]]);
    assert_eq!(calculate_dists(&values1, &values2, true), Ok(vec![1, 1, 3, 4]));
}

#[test]
fn distances_reject_empty_grids() {
    let empty = grid(Vec::new());
    let no_columns = grid(vec![Vec::new()]);
    let full = grid(vec![vec![1]]);
    let fault = MutationError::EmptyInput(Stage::Matcher);
    assert_eq!(calculate_dists(&empty, &full, true), Err(fault));
    assert_eq!(calculate_dists(&full, &no_columns, true), Err(fault));
}

#[test]
fn distances_reject_unequal_shapes() {
    let two = grid(vec![vec![1, 2]]);
    let three = grid(vec![vec![1, 2, 3]]);
    let tall = grid(vec![vec![1, 2], vec![3, 4]]);
    let wide = grid(vec![vec![1, 2, 3], vec![4, 5, 6]]);
    let entities = MutationError::ShapeMismatch(Stage::Matcher, Dimension::Entities);
    let variables = MutationError::ShapeMismatch(Stage::Matcher, Dimension::Variables);
    assert_eq!(calculate_dists(&two, &three, true), Err(entities));
    assert_eq!(calculate_dists(&two, &tall, true), Err(variables));
    // Where both differ, the variables are reported.
    assert_eq!(calculate_dists(&two, &wide, true), Err(variables));
}

#[test]
fn relative_distance_from_zero_is_an_error() {
    let values1 = grid(vec![vec![3, 0]]);
    let values2 = grid(vec![vec![1, 2]]);
    assert_eq!(calculate_dists(&values1, &values2, false), Err(MutationError::ZeroSource));
    assert_eq!(calculate_dists(&values1, &values2, true), Ok(vec![-1, 1]));
}

#[test]
fn distance_beyond_64_bits_is_an_error() {
    let values1 = grid(vec![vec![i64::MIN]]);
    let values2 = grid(vec![vec![i64::MAX]]);
    assert_eq!(calculate_dists(&values1, &values2, true), Err(MutationError::Overflow(Stage::Matcher)));
    let small = grid(vec![vec![1]]);
    assert_eq!(calculate_dists(&small, &values2, false), Err(MutationError::Overflow(Stage::Matcher)));
}

#[test]
fn first_faulty_entity_decides_the_error() {
    // One entity divides by zero, the other overflows: whichever stands
    // first in the source row is reported.
    let values1 = grid(vec![vec![0, 1]]);
    let values2 = grid(vec![vec![0, i64::MAX]]);
    assert_eq!(calculate_dists(&values1, &values2, false), Err(MutationError::ZeroSource));
    let values1 = grid(vec![vec![1, 0]]);
    let values2 = grid(vec![vec![i64::MAX, 0]]);
    assert_eq!(calculate_dists(&values1, &values2, false), Err(MutationError::Overflow(Stage::Matcher)));
}

#[test]
fn grid_needs_equally_long_rows() {
    assert!(Grid::from_rows(&vec![vec![1, 2], vec![3]]).is_none());
    let g = grid(vec![vec![1, 2, 3], vec![4, 5, 6]]);
    assert_eq!(g.dim(), (2, 3));
    assert!(!g.is_empty());
    assert_eq!(g.row(1), Some(vec![4, 5, 6]));
    assert_eq!(g.row(2), None);
    assert!(grid(vec![Vec::new(), Vec::new()]).is_empty());
}
