use sudluko::models::Sudoku;

#[test]
fn can_create_sudoku_object() {
    let mut sudoku = Sudoku::from_cells(vec![Some(1u8); 81]);
    sudoku.set_cell(0, 0, None);
    assert_eq!(sudoku, sudoku);
    assert_eq!(sudoku.get_cell(0, 0), None);
    assert_eq!(sudoku.get_cell(0, 1), Some(1));
}

#[test]
fn get_column() {
    let mut sudoku = Sudoku::empty();
    (0..9).for_each(|i| sudoku.set_cell(i, 3, Some((9 - i) as u8)));
    let expected: Vec<Option<u8>> = vec![
        Some(9),
        Some(8),
        Some(7),
        Some(6),
        Some(5),
        Some(4),
        Some(3),
        Some(2),
        Some(1),
    ];
    let result = sudluko::models::get_column(&sudoku, 3);
    assert_eq!(expected, result);
}

#[test]
fn get_row() {
    let mut sudoku = Sudoku::empty();
    for c in 0..9 {
        sudoku.set_cell(5, c, Some(1));
    }
    let expected: Vec<Option<u8>> = vec![Some(1); 9];
    let result = sudluko::models::get_row(&sudoku, 5);
    assert_eq!(expected, result);
}

#[test]
fn get_box() {
    let mut sudoku = Sudoku::empty();
    sudoku.set_cell(6, 3, Some(1));
    sudoku.set_cell(6, 4, Some(2));
    sudoku.set_cell(6, 5, Some(3));
    sudoku.set_cell(7, 3, Some(4));
    sudoku.set_cell(7, 4, Some(5));
    sudoku.set_cell(7, 5, Some(6));
    sudoku.set_cell(8, 3, Some(7));
    sudoku.set_cell(8, 4, Some(8));
    sudoku.set_cell(8, 5, Some(9));
    let expected: Vec<Option<u8>> = vec![
        Some(1),
        Some(2),
        Some(3),
        Some(4),
        Some(5),
        Some(6),
        Some(7),
        Some(8),
        Some(9),
    ];
    let result = sudluko::models::get_box(&sudoku, 7);
    assert_eq!(expected, result);
}

#[test]
fn clone_and_equality() {
    let mut sudoku = Sudoku::empty();
    sudoku.set_cell(2, 2, Some(4));
    let copy = sudoku.clone_grid();
    assert!(copy.cells_equal(&sudoku));
    assert_eq!(copy, sudoku);
    let mut other = copy.clone_grid();
    other.set_cell(2, 2, Some(5));
    assert!(!other.cells_equal(&sudoku));
}
