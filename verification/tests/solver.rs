use sudluko::models::Sudoku;
use sudluko::solver::solve;
use sudluko::utils::deserialize;

#[test]
fn check_valid_line() {
    let mut line: Vec<Option<u8>> = vec![None; 9];
    assert!(sudluko::solver::check_valid_line(&line));
    line[1] = Some(9);
    assert!(sudluko::solver::check_valid_line(&line));
    (0..9).for_each(|i| line[i] = Some((9 - i) as u8));
    assert!(sudluko::solver::check_valid_line(&line));
    line[1] = Some(9);
    assert!(!sudluko::solver::check_valid_line(&line));
}

#[test]
fn check_valid_box() {
    let mut sbox: Vec<Option<u8>> = vec![None; 9];
    assert!(sudluko::solver::check_valid_box(&sbox));
    sbox[1] = Some(9);
    assert!(sudluko::solver::check_valid_box(&sbox));
    sbox[6] = Some(9);
    assert!(!sudluko::solver::check_valid_box(&sbox));
}

#[test]
fn check_valid() {
    let mut sudoku = Sudoku::empty();
    assert!(sudluko::solver::check_valid(&sudoku));
    sudoku.set_cell(4, 7, Some(9));
    assert!(sudluko::solver::check_valid(&sudoku));
    sudoku.set_cell(3, 6, Some(9));
    assert!(!sudluko::solver::check_valid(&sudoku));
    sudoku.set_cell(3, 6, Some(8));
    assert!(sudluko::solver::check_valid(&sudoku));
    sudoku.set_cell(3, 2, Some(8));
    assert!(!sudluko::solver::check_valid(&sudoku));
    sudoku.set_cell(3, 2, Some(9));
    assert!(sudluko::solver::check_valid(&sudoku));
    sudoku.set_cell(8, 2, Some(9));
    assert!(!sudluko::solver::check_valid(&sudoku));
}

#[test]
fn from_empty() {
    let sudoku = Sudoku::empty();
    let result = solve(sudoku);
    let solved = result.unwrap();
    let mut total: usize = 0;
    for r in 0..9 {
        for c in 0..9 {
            total += solved.get_cell(r, c).unwrap() as usize;
        }
    }
    assert_eq!(405, total);
}

#[test]
fn returns_none_if_unsolvable() {
    let row: Vec<Option<u8>> = vec![
        Some(1),
        Some(2),
        Some(3),
        Some(4),
        Some(5),
        Some(6),
        Some(8),
        Some(9),
        None,
    ];
    let mut cells: Vec<Option<u8>> = Vec::new();
    for _ in 0..9 {
        cells.extend(row.iter().cloned());
    }
    let sudoku = Sudoku::from_cells(cells);
    let result = solve(sudoku);
    assert_eq!(None, result);
}

#[test]
fn solves_correctly() {
    let sudoku =
        ".....2...6.5.8...393...4.8.5.98......26...83......61.5.6.2...514...5.7.6...4....."
            .to_string();
    let solved =
        "178532964645789213932614587519873642726145839384926175863297451491358726257461398"
            .to_string();

    let sudoku = deserialize(sudoku).unwrap();
    let solved = deserialize(solved).unwrap();
    let result = solve(sudoku);
    assert_eq!(solved, result.unwrap());
}

#[test]
fn solution_preserves_clues_and_is_valid() {
    let text =
        ".....2...6.5.8...393...4.8.5.98......26...83......61.5.6.2...514...5.7.6...4....."
            .to_string();
    let puzzle = deserialize(text).unwrap();
    let solved = solve(puzzle.clone_grid()).unwrap();
    assert!(sudluko::solver::check_valid(&solved));
    for r in 0..9 {
        for c in 0..9 {
            assert!(solved.get_cell(r, c).is_some());
            if let Some(d) = puzzle.get_cell(r, c) {
                assert_eq!(solved.get_cell(r, c), Some(d));
            }
        }
    }
}

#[test]
fn duplicate_row_unsolvable() {
    let mut sudoku = Sudoku::empty();
    for c in 0..9 {
        sudoku.set_cell(0, c, Some(5));
    }
    assert_eq!(None, solve(sudoku));
}
