use textflow::utils::{invert_2d_vec, spacing_needed, split_evenly};
use textflow::Spacing;

#[test]
fn test_split_evenly() {
    // common use case
    assert_eq!(split_evenly(23, 5), vec![5, 4, 5, 4, 5]);

    // edge cases
    assert_eq!(split_evenly(3, 7), vec![0, 1, 0, 1, 0, 1, 0]);

    assert_eq!(split_evenly(10, 0), vec![]);
}

#[test]
fn test_invert_2d_vec() {
    // "horizontal" vector
    let mut vec1 = vec![vec![1, 2, 3], vec![4, 5, 6]];
    invert_2d_vec(&mut vec1);
    assert_eq!(vec1, vec![vec![1, 4], vec![2, 5], vec![3, 6]]);

    // "vertical" vector
    let mut vec2 = vec![vec![1, 2], vec![3, 4], vec![5, 6]];
    invert_2d_vec(&mut vec2);
    assert_eq!(vec2, vec![vec![1, 3, 5], vec![2, 4, 6]]);

    // "square" vector
    let mut vec3 = vec![vec![1, 2], vec![3, 4]];
    invert_2d_vec(&mut vec3);
    assert_eq!(vec3, vec![vec![1, 3], vec![2, 4]]);

    // empty vector
    let mut vec4: Vec<Vec<i8>> = vec![vec![], vec![], vec![]];
    invert_2d_vec(&mut vec4);
    assert_eq!(vec4, Vec::<Vec<i8>>::new());
}

#[test]
fn test_spacing_needed() {
    assert_eq!(spacing_needed(Spacing::NONE, 5), 0);
    assert_eq!(spacing_needed(Spacing::NONE, 46), 0);

    assert_eq!(spacing_needed(Spacing::BETWEEN, 5), 4);
    assert_eq!(spacing_needed(Spacing::BETWEEN, 46), 45);
    assert_eq!(spacing_needed(Spacing::BETWEEN, 0), 0);

    assert_eq!(spacing_needed(Spacing::AROUND, 5), 6);
    assert_eq!(spacing_needed(Spacing::AROUND, 46), 47);
    assert_eq!(spacing_needed(Spacing::AROUND, 0), 1);
}

fn spread_of(parts: &[usize]) -> usize {
    let max = parts.iter().copied().max().unwrap();
    let min = parts.iter().copied().min().unwrap();
    max - min
}

#[test]
fn split_evenly_adds_up_and_is_even() {
    for total in 0..60usize {
        for parts in 1..20usize {
            let deltas = split_evenly(total, parts);
            assert_eq!(deltas.len(), parts);
            assert_eq!(deltas.iter().sum::<usize>(), total);
            assert!(spread_of(&deltas) <= 1);
        }
    }
}

#[test]
fn split_evenly_into_nothing_is_empty() {
    assert_eq!(split_evenly(0, 0), Vec::<usize>::new());
    assert_eq!(split_evenly(7, 0), Vec::<usize>::new());
    assert_eq!(split_evenly(usize::MAX, 0), Vec::<usize>::new());
}

#[test]
fn split_evenly_rounds_halves_up() {
    // marks at 2.5, 5, 7.5 and 10
    assert_eq!(split_evenly(10, 4), vec![3, 2, 3, 2]);
    // marks at 0.5 and 1
    assert_eq!(split_evenly(1, 2), vec![1, 0]);
    // marks at 1.5 and 3
    assert_eq!(split_evenly(3, 2), vec![2, 1]);
}

#[test]
fn split_evenly_with_fewer_units_than_parts() {
    assert_eq!(split_evenly(0, 3), vec![0, 0, 0]);
    assert_eq!(split_evenly(1, 3), vec![0, 1, 0]);
    assert_eq!(split_evenly(2, 5), vec![0, 1, 0, 1, 0]);
}

#[test]
fn split_evenly_into_one_part() {
    assert_eq!(split_evenly(0, 1), vec![0]);
    assert_eq!(split_evenly(17, 1), vec![17]);
}

#[test]
fn split_evenly_of_the_largest_number() {
    let deltas = split_evenly(usize::MAX, 3);
    assert_eq!(deltas.len(), 3);
    assert!(spread_of(&deltas) <= 1);
    let sum = deltas.iter().fold(0u128, |sum, part| sum + *part as u128);
    assert_eq!(sum, usize::MAX as u128);

    let ones = split_evenly(5, 5);
    assert_eq!(ones, vec![1, 1, 1, 1, 1]);
}

#[test]
fn invert_jagged_vector_fills_with_defaults() {
    let mut v = vec![vec![1, 9], vec![8], vec![2, 6], vec![3, 5]];
    invert_2d_vec(&mut v);
    assert_eq!(v, vec![vec![1, 8, 2, 3], vec![9, 0, 6, 5]]);
    invert_2d_vec(&mut v);
    assert_eq!(v, vec![vec![1, 9], vec![8, 0], vec![2, 6], vec![3, 5]]);
}

#[test]
fn invert_keeps_every_cell_of_the_longest_row() {
    let mut v = vec![vec![], vec![String::from("a"), String::from("b"), String::from("c")]];
    invert_2d_vec(&mut v);
    assert_eq!(
        v,
        vec![
            vec![String::new(), String::from("a")],
            vec![String::new(), String::from("b")],
            vec![String::new(), String::from("c")],
        ]
    );
}

#[test]
fn invert_without_rows_gives_no_rows() {
    let mut v: Vec<Vec<u8>> = Vec::new();
    invert_2d_vec(&mut v);
    assert_eq!(v, Vec::<Vec<u8>>::new());
}

#[test]
fn invert_single_row_and_single_column() {
    let mut row = vec![vec![1, 2, 3]];
    invert_2d_vec(&mut row);
    assert_eq!(row, vec![vec![1], vec![2], vec![3]]);
    invert_2d_vec(&mut row);
    assert_eq!(row, vec![vec![1, 2, 3]]);
}

#[test]
fn spacing_of_one_column() {
    assert_eq!(spacing_needed(Spacing::NONE, 1), 0);
    assert_eq!(spacing_needed(Spacing::BETWEEN, 1), 0);
    assert_eq!(spacing_needed(Spacing::AROUND, 1), 2);
    assert_eq!(spacing_needed(Spacing::BETWEEN, usize::MAX), usize::MAX - 1);
}
