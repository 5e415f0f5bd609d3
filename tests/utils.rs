use convolver::utils::transpose;

#[test]
fn transpose_swaps_rows_and_columns() {
    let rows = vec![vec![1, 2, 3], vec![4, 5, 6]];
    assert_eq!(transpose(rows), vec![vec![1, 4], vec![2, 5], vec![3, 6]]);
}

#[test]
fn transpose_drops_extra_elements_of_longer_rows() {
    let rows = vec![vec![1, 2], vec![3, 4, 5, 6]];
    assert_eq!(transpose(rows), vec![vec![1, 3], vec![2, 4]]);
}

#[test]
fn transpose_of_single_row() {
    let rows = vec![vec![String::from("a"), String::from("b")]];
    assert_eq!(
        transpose(rows),
        vec![vec![String::from("a")], vec![String::from("b")]]
    );
}

#[test]
fn transpose_of_empty_first_row() {
    let rows: Vec<Vec<i32>> = vec![vec![], vec![1]];
    assert_eq!(transpose(rows), Vec::<Vec<i32>>::new());
}
