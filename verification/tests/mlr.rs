use uamutations::error::{Dimension, MutationError, Stage};
use uamutations::mlr::adj_for_beta;
use uamutations::table::Table;

fn table(rows: Vec<Vec<i64>>) -> Table {
    Table::from_rows(&rows).unwrap()
}

#[test]
fn adjustment_without_confounders_changes_nothing() {
    let mut values = table(vec![vec![10, -20, 30]]);
    assert_eq!(adj_for_beta(&mut values, &[], &[]), Ok(()));
    assert_eq!(values.to_rows(), vec![vec![10, -20, 30]]);
}

#[test]
fn adjustment_swaps_the_predicted_parts() {
    // Source slope 0.5, target slope 1.5: each entity gains its confounder
    // value once.
    let mut values = table(vec![vec![10, 20], vec![2, 4]]);
    assert_eq!(adj_for_beta(&mut values, &[500_000], &[1_500_000]), Ok(()));
    assert_eq!(values.to_rows(), vec![vec![12, 24], vec![2, 4]]);
}

#[test]
fn adjustment_sums_over_confounders() {
    let mut values = table(vec![vec![100, 200], vec![10, 20], vec![-3, 5]]);
    let slopes1 = [2_000_000, 0];
    let slopes2 = [1_000_000, 3_000_000];
    assert_eq!(adj_for_beta(&mut values, &slopes1, &slopes2), Ok(()));
    // 100 - 10 - 9 and 200 - 20 + 15.
    assert_eq!(values.to_rows(), vec![vec![81, 195], vec![10, 20], vec![-3, 5]]);
}

#[test]
fn adjustment_rounds_each_prediction_toward_zero() {
    let mut values = table(vec![vec![0, 0, 0], vec![3, -3, 4]]);
    assert_eq!(adj_for_beta(&mut values, &[0], &[333_333]), Ok(()));
    assert_eq!(values.to_rows(), vec![vec![0, 0, 1], vec![3, -3, 4]]);
}

#[test]
fn adjustment_with_equal_slopes_changes_nothing() {
    let mut values = table(vec![vec![7, 8], vec![100, 200]]);
    assert_eq!(adj_for_beta(&mut values, &[123_456], &[123_456]), Ok(()));
    assert_eq!(values.to_rows(), vec![vec![7, 8], vec![100, 200]]);
}

#[test]
fn adjustment_needs_a_primary_row() {
    let mut values = table(Vec::new());
    assert_eq!(adj_for_beta(&mut values, &[], &[]), Err(MutationError::EmptyInput(Stage::Adjuster)));
}

#[test]
fn adjustment_needs_one_slope_per_confounder() {
    let mut values = table(vec![vec![1, 2], vec![3, 4]]);
    assert_eq!(adj_for_beta(&mut values, &[], &[1]), Err(MutationError::ShapeMismatch(Stage::Adjuster, Dimension::Slopes)));
    assert_eq!(adj_for_beta(&mut values, &[1], &[1, 2]), Err(MutationError::ShapeMismatch(Stage::Adjuster, Dimension::Slopes)));
    let mut plain = table(vec![vec![1, 2]]);
    assert_eq!(adj_for_beta(&mut plain, &[1], &[1]), Err(MutationError::ShapeMismatch(Stage::Adjuster, Dimension::Slopes)));
    assert_eq!(plain.to_rows(), vec![vec![1, 2]]);
    assert_eq!(values.to_rows(), vec![vec![1, 2], vec![3, 4]]);
}

#[test]
fn adjustment_beyond_64_bits_is_an_error() {
    let mut values = table(vec![vec![5, i64::MAX], vec![1, 1]]);
    assert_eq!(adj_for_beta(&mut values, &[0], &[1_000_000]), Err(MutationError::Overflow(Stage::Adjuster)));
    assert_eq!(values.to_rows(), vec![vec![5, i64::MAX], vec![1, 1]]);
}

#[test]
fn adjustment_of_extreme_slopes_and_values() {
    let mut values = table(vec![vec![0], vec![1_000_000]]);
    assert_eq!(adj_for_beta(&mut values, &[i64::MIN], &[i64::MAX]), Err(MutationError::Overflow(Stage::Adjuster)));
    let mut values = table(vec![vec![0], vec![1]]);
    assert_eq!(adj_for_beta(&mut values, &[i64::MIN], &[i64::MAX]), Ok(()));
    assert_eq!(values.to_rows(), vec![vec![18_446_744_073_709], vec![1]]);
}

#[test]
fn adjustment_takes_any_number_of_confounders() {
    let confounders: usize = 70_000;
    let rows: Vec<Vec<i64>> = vec![vec![1]; confounders + 1];
    let slopes1: Vec<i64> = vec![0; confounders];
    let slopes2: Vec<i64> = vec![1_000_000; confounders];
    let mut values = table(rows);
    assert_eq!(adj_for_beta(&mut values, &slopes1, &slopes2), Ok(()));
    assert_eq!(values.row(0), Some(vec![1 + confounders as i64]));
    assert_eq!(values.row(1), Some(vec![1]));
}

#[test]
fn adjustment_must_fit_after_every_confounder() {
    // The first confounder lifts the value beyond 64 bits, though the second
    // would bring it back.
    let mut values = table(vec![vec![i64::MAX - 5], vec![10], vec![-10]]);
    let slopes = [1_000_000, 1_000_000];
    assert_eq!(
        adj_for_beta(&mut values, &[0, 0], &slopes),
        Err(MutationError::Overflow(Stage::Adjuster))
    );
    assert_eq!(values.row(0), Some(vec![i64::MAX - 5]));
    // In the other order every step fits.
    let mut values = table(vec![vec![i64::MAX - 5], vec![-10], vec![10]]);
    assert_eq!(adj_for_beta(&mut values, &[0, 0], &slopes), Ok(()));
    assert_eq!(values.row(0), Some(vec![i64::MAX - 5]));
}
