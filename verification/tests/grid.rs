use sudoku_solver::sudoku::{Field, FieldPosition, GridError, SudokuGrid};

fn empty_givens() -> Vec<Vec<Option<usize>>> {
    let mut rows: Vec<Vec<Option<usize>>> = Vec::new();
    for _ in 0..9 {
        rows.push(vec![None; 9]);
    }
    rows
}

#[test]
fn construction_rejects_wrong_row_count() {
    let mut givens = empty_givens();
    givens.pop();
    assert_eq!(
        SudokuGrid::from_givens(&givens).unwrap_err(),
        GridError::WrongRowCount
    );
}

#[test]
fn construction_rejects_wrong_field_count() {
    let mut givens = empty_givens();
    givens[3].push(None);
    assert_eq!(
        SudokuGrid::from_givens(&givens).unwrap_err(),
        GridError::WrongFieldCount
    );
}

#[test]
fn construction_rejects_out_of_range_digit() {
    let mut givens = empty_givens();
    givens[2][5] = Some(10);
    assert_eq!(
        SudokuGrid::from_givens(&givens).unwrap_err(),
        GridError::InvalidDigit
    );
    let mut givens = empty_givens();
    givens[0][0] = Some(0);
    assert_eq!(
        SudokuGrid::from_givens(&givens).unwrap_err(),
        GridError::InvalidDigit
    );
}

#[test]
fn construction_fills_fields_from_givens() {
    let mut givens = empty_givens();
    givens[4][7] = Some(3);
    let grid = SudokuGrid::from_givens(&givens).unwrap();

    let filled = grid
        .get_field(FieldPosition::new(4, 7))
        .expect("position is on the board");
    assert_eq!(filled.value(), Some(3));
    assert!(filled.possibilities().is_empty());
    assert!(filled.is_filled());

    let open = grid
        .get_field(FieldPosition::new(0, 0))
        .expect("position is on the board");
    assert_eq!(open.value(), None);
    assert_eq!(open.possibilities(), &vec![1, 2, 3, 4, 5, 6, 7, 8, 9]);
    assert!(!open.is_filled());
}

#[test]
fn field_lifecycle() {
    let mut field = Field::empty(FieldPosition::new(2, 3));
    assert_eq!(field.position().row(), 2);
    assert_eq!(field.position().column(), 3);
    assert_eq!(field.possibilities().len(), 9);

    field.remove_possibility(4);
    assert_eq!(field.possibilities(), &vec![1, 2, 3, 5, 6, 7, 8, 9]);
    field.remove_possibility(4);
    assert_eq!(field.possibilities(), &vec![1, 2, 3, 5, 6, 7, 8, 9]);

    field.set_value(7);
    assert_eq!(field.value(), Some(7));
    assert!(field.possibilities().is_empty());

    let given = Field::filled(9, FieldPosition::new(0, 0));
    assert_eq!(given.value(), Some(9));
    assert!(given.possibilities().is_empty());
}

#[test]
fn box_ids_follow_the_block_layout() {
    let f = Field::empty(FieldPosition::new(0, 0));
    assert_eq!(SudokuGrid::get_box_id_for_field(&f), Some(0));
    let f = Field::empty(FieldPosition::new(1, 4));
    assert_eq!(SudokuGrid::get_box_id_for_field(&f), Some(1));
    let f = Field::empty(FieldPosition::new(2, 8));
    assert_eq!(SudokuGrid::get_box_id_for_field(&f), Some(2));
    let f = Field::empty(FieldPosition::new(4, 1));
    assert_eq!(SudokuGrid::get_box_id_for_field(&f), Some(3));
    let f = Field::empty(FieldPosition::new(8, 8));
    assert_eq!(SudokuGrid::get_box_id_for_field(&f), Some(8));
}

#[test]
fn unit_queries_return_nine_fields() {
    let givens = empty_givens();
    let grid = SudokuGrid::from_givens(&givens).unwrap();

    assert_eq!(grid.fields().len(), 81);
    assert_eq!(grid.rows().len(), 9);
    assert_eq!(grid.get_fields_in_row(4).unwrap().len(), 9);
    assert!(grid.get_fields_in_row(9).is_none());
    assert_eq!(grid.get_fields_in_column(8).len(), 9);
    assert_eq!(grid.get_fields_in_box(0).len(), 9);

    let with_positions = grid.get_fields_in_box_with_positions(4);
    assert_eq!(with_positions.len(), 9);
    assert_eq!(with_positions[0].1, (3, 3));
    assert_eq!(with_positions[1].1, (3, 4));
    assert_eq!(with_positions[3].1, (4, 3));
    assert_eq!(with_positions[8].1, (5, 5));
}

#[test]
fn incomplete_grid_is_not_completed() {
    let givens = empty_givens();
    let grid = SudokuGrid::from_givens(&givens).unwrap();
    assert!(!grid.is_completed());

    let mut givens = empty_givens();
    givens[0] = (1..=9).map(Some).collect();
    let grid = SudokuGrid::from_givens(&givens).unwrap();
    assert!(!grid.is_completed());
}
