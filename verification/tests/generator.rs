use sudluko::generator::{generate, unique};
use sudluko::models::Sudoku;
use sudluko::solver::solve;
use sudluko::utils::deserialize;

#[test]
fn can_succeed() {
    let sudoku =
        ".....2...6.5.8...393...4.8.5.98......26...83......61.5.6.2...514...5.7.6...4....."
            .to_string();
    let sudoku = deserialize(sudoku).unwrap();
    let result = unique(&sudoku);
    assert!(result);
}

#[test]
fn fails_on_harder() {
    let sudoku =
        ".....2...6.5.8...3.....4.8.5.98......26...83......61.5.6.2...514...5.7.6...4....."
            .to_string();
    let sudoku = deserialize(sudoku).unwrap();
    let result = unique(&sudoku);
    assert!(!result);
}

#[test]
fn fails_on_empty() {
    let result = unique(&Sudoku::empty());
    assert!(!result);
}

#[test]
fn generator_can_succeed() {
    generate();
}

#[test]
fn generated_puzzle_solves() {
    let puzzle = generate();
    assert!(solve(puzzle).is_some());
}

#[test]
fn generated_puzzle_is_partial() {
    let puzzle = generate();
    let mut filled: usize = 0;
    let mut empty: usize = 0;
    for r in 0..9 {
        for c in 0..9 {
            if puzzle.get_cell(r, c).is_some() {
                filled += 1;
            } else {
                empty += 1;
            }
        }
    }
    assert!(filled > 0);
    assert!(empty > 0);
}

#[test]
fn unique_with_one_empty_cell() {
    let solved =
        "178532964645789213932614587519873642726145839384926175863297451491358726257461398"
            .to_string();
    let mut sudoku = deserialize(solved).unwrap();
    sudoku.set_cell(0, 0, None);
    assert!(unique(&sudoku));
}
