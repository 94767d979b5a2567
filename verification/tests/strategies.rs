use sudoku_solver::solver::strategies::find_grouped_possibilities;

#[test]
fn solver_it_works_for_pairs() {
    let possibilities = vec![vec![1, 2], vec![1, 2], vec![2, 3], vec![1, 2, 4, 5]];
    let result = vec![1, 2];

    assert_eq!(result, find_grouped_possibilities(possibilities));
}

#[test]
fn solver_it_works_for_triples() {
    let possibilities = vec![
        vec![1, 2, 3],
        vec![1, 2, 3],
        vec![1, 2, 3],
        vec![1, 2, 4, 5],
    ];
    let result = vec![1, 2, 3];

    assert_eq!(result, find_grouped_possibilities(possibilities));
}

#[test]
fn solver_it_works_for_triples_with_missing_possibilities() {
    let possibilities = vec![vec![1, 2, 3], vec![1, 3], vec![1, 2, 3], vec![1, 2, 4, 5]];
    let result = vec![1, 2, 3];

    assert_eq!(result, find_grouped_possibilities(possibilities));

    let possibilities = vec![vec![1, 2, 3], vec![1, 3], vec![1, 2], vec![1, 2, 4, 5]];
    let result = vec![1, 2, 3];

    assert_eq!(result, find_grouped_possibilities(possibilities));

    let possibilities = vec![
        vec![1, 2, 3],
        vec![1, 3],
        vec![1, 2, 3],
        vec![1, 2, 3, 4, 5],
    ];
    let result = vec![1, 2, 3];

    assert_eq!(result, find_grouped_possibilities(possibilities));
    let possibilities = vec![
        vec![1, 2, 3],
        vec![1, 3],
        vec![1, 2, 3],
        vec![1, 2, 3],
        vec![1, 2, 3, 4, 5],
    ];
    let result = vec![1, 2, 3, 4, 5];

    assert_eq!(result, find_grouped_possibilities(possibilities));
    let possibilities = vec![vec![1, 5, 8], vec![1, 4, 5, 8], vec![], vec![]];
    let result: Vec<usize> = vec![];

    assert_eq!(result, find_grouped_possibilities(possibilities));
    let possibilities = vec![vec![1, 5, 8], vec![1, 4, 5, 8], vec![2], vec![3]];
    let result: Vec<usize> = vec![];

    assert_eq!(result, find_grouped_possibilities(possibilities));
}

#[test]
fn strategies_it_works_for_pairs() {
    let possibilities = vec![vec![1, 2], vec![1, 2], vec![2, 3], vec![1, 2, 4, 5]];
    let result = vec![1, 2];

    assert_eq!(result, find_grouped_possibilities(possibilities));
}

#[test]
fn strategies_it_works_for_triples() {
    let possibilities = vec![
        vec![1, 2, 3],
        vec![1, 2, 3],
        vec![1, 2, 3],
        vec![1, 2, 4, 5],
    ];
    let result = vec![1, 2, 3];

    assert_eq!(result, find_grouped_possibilities(possibilities));
}

#[test]
fn strategies_it_works_for_triples_with_missing_possibilities() {
    let possibilities = vec![vec![1, 2, 3], vec![1, 3], vec![1, 2, 3], vec![1, 2, 4, 5]];
    let result = vec![1, 2, 3];

    assert_eq!(result, find_grouped_possibilities(possibilities));

    let possibilities = vec![vec![1, 2, 3], vec![1, 3], vec![1, 2], vec![1, 2, 4, 5]];
    let result = vec![1, 2, 3];

    assert_eq!(result, find_grouped_possibilities(possibilities));

    let possibilities = vec![
        vec![1, 2, 3],
        vec![1, 3],
        vec![1, 2, 3],
        vec![1, 2, 3, 4, 5],
    ];
    let result = vec![1, 2, 3];

    assert_eq!(result, find_grouped_possibilities(possibilities));
    let possibilities = vec![
        vec![1, 2, 3],
        vec![1, 3],
        vec![1, 2, 3],
        vec![1, 2, 3],
        vec![1, 2, 3, 4, 5],
    ];
    let result = vec![1, 2, 3, 4, 5];

    assert_eq!(result, find_grouped_possibilities(possibilities));
    let possibilities = vec![vec![1, 5, 8], vec![1, 4, 5, 8], vec![], vec![]];
    let result: Vec<usize> = vec![];

    assert_eq!(result, find_grouped_possibilities(possibilities));
    let possibilities = vec![vec![1, 5, 8], vec![1, 4, 5, 8], vec![2], vec![3]];
    let result: Vec<usize> = vec![];

    assert_eq!(result, find_grouped_possibilities(possibilities));
}

#[test]
fn two_disjoint_pairs_combine() {
    let possibilities = vec![vec![1, 2], vec![3, 4], vec![1, 2], vec![3, 4]];
    let result = vec![1, 2, 3, 4];

    assert_eq!(result, find_grouped_possibilities(possibilities));
}

#[test]
fn overlapping_sets_do_not_qualify() {
    let possibilities = vec![vec![1, 2, 3, 4], vec![5, 6, 7, 8], vec![1, 2], vec![3, 4]];
    let result: Vec<usize> = vec![];

    assert_eq!(result, find_grouped_possibilities(possibilities));
}

#[test]
fn single_candidate_sets_never_form_tuples() {
    let possibilities = vec![vec![4], vec![4], vec![4], vec![4]];
    let result: Vec<usize> = vec![];

    assert_eq!(result, find_grouped_possibilities(possibilities));
}
