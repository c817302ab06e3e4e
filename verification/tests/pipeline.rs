use uamutations::error::{Dimension, MutationError, Stage};
use uamutations::table::Table;
use uamutations::uamutate;

fn table(rows: Vec<Vec<i64>>) -> Table {
    Table::from_rows(&rows).unwrap()
}

#[test]
fn test_uamutate() {
    let values1 = table(vec![vec![1, 2, 4, 5], vec![9, 9, 9, 9]]);
    let values2 = table(vec![vec![7, 9, 3, 2], vec![0, 0, 0, 0]]);
    let sums = uamutate(&values1, &values2, &[1, 1, 2, 2]).unwrap();
    assert!(sums.nrows() > 0);
    // Distances are 1, 1, 3, 4 and 1.0, 0.5, 0.75, 0.8.
    assert_eq!(
        sums.to_rows(),
        vec![vec![1, 2, 1, 750_000], vec![4, 8, 3, 775_000]]
    );
}

#[test]
fn mutation_of_a_single_entity() {
    let values1 = table(vec![vec![8]]);
    let values2 = table(vec![vec![10]]);
    let result = uamutate(&values1, &values2, &[1]).unwrap();
    assert_eq!(result.to_rows(), vec![vec![8, 10, 2, 250_000]]);
}

#[test]
fn mutation_rejects_bad_input() {
    let one = table(vec![vec![1, 2]]);
    let two = table(vec![vec![1, 2], vec![3, 4]]);
    let wide = table(vec![vec![1, 2, 3]]);
    let none = table(Vec::new());
    let zero = table(vec![vec![0, 2]]);
    assert!(matches!(
        uamutate(&none, &one, &[]),
        Err(MutationError::EmptyInput(Stage::Matcher))
    ));
    assert!(matches!(
        uamutate(&one, &none, &[1, 1]),
        Err(MutationError::EmptyInput(Stage::Matcher))
    ));
    assert!(matches!(
        uamutate(&one, &two, &[1, 1]),
        Err(MutationError::ShapeMismatch(Stage::Matcher, Dimension::Variables))
    ));
    assert!(matches!(
        uamutate(&one, &one, &[1]),
        Err(MutationError::ShapeMismatch(Stage::Aggregator, Dimension::Groups))
    ));
    assert!(matches!(
        uamutate(&one, &wide, &[1, 1]),
        Err(MutationError::ShapeMismatch(Stage::Matcher, Dimension::Entities))
    ));
    assert!(matches!(uamutate(&zero, &one, &[1, 1]), Err(MutationError::ZeroSource)));
    assert!(matches!(
        uamutate(&one, &one, &[1, usize::MAX]),
        Err(MutationError::TooLarge(Stage::Aggregator))
    ));
    let far = table(vec![vec![i64::MIN, 2]]);
    assert!(matches!(
        uamutate(&far, &table(vec![vec![i64::MAX, 2]]), &[1, 1]),
        Err(MutationError::Overflow(Stage::Matcher))
    ));
}

#[test]
fn mutation_of_values_in_range_succeeds() {
    let most: i64 = 4_611_686_018_427;
    let source = table(vec![vec![-most, most, 1]]);
    let target = table(vec![vec![most, -most, most]]);
    let result = uamutate(&source, &target, &[3, 1, 3]).unwrap();
    assert_eq!((result.nrows(), result.ncols()), (3, 4));
}

#[test]
fn mutation_is_unchanged_by_reordering_entities() {
    let target = table(vec![vec![7, 9, 3, 2]]);
    let one = uamutate(&table(vec![vec![1, 2, 4, 5]]), &target, &[1, 1, 2, 2]).unwrap();
    let other = uamutate(&table(vec![vec![5, 1, 4, 2]]), &target, &[2, 1, 2, 1]).unwrap();
    assert_eq!(one.to_rows(), other.to_rows());
}

#[test]
fn sources_of_equal_value_choose_in_their_order() {
    // Both sources are 5; the one that stands first takes the nearer target.
    let target = table(vec![vec![5, 6]]);
    let one = uamutate(&table(vec![vec![5, 5]]), &target, &[1, 2]).unwrap();
    let other = uamutate(&table(vec![vec![5, 5]]), &target, &[2, 1]).unwrap();
    assert_eq!(one.to_rows(), vec![vec![5, 5, 0, 0], vec![5, 6, 1, 200_000]]);
    assert_eq!(other.to_rows(), vec![vec![5, 6, 1, 200_000], vec![5, 5, 0, 0]]);
}

#[test]
fn mutated_mean_is_the_mean_of_the_matched_targets() {
    let source = table(vec![vec![10, 30, 20]]);
    let target = table(vec![vec![31, 19, 12]]);
    let result = uamutate(&source, &target, &[1, 1, 1]).unwrap();
    // 10 takes 12, 20 takes 19, 30 takes 31.
    assert_eq!(result.row(0).unwrap()[0], 20);
    assert_eq!(result.row(0).unwrap()[1], 20);
    assert_eq!(result.row(0).unwrap()[2], 0);
}
