use sudluko::{generate_as_string, solve_as_string};

#[test]
fn solve_as_string_solves_known_puzzle() {
    let input =
        ".....2...6.5.8...393...4.8.5.98......26...83......61.5.6.2...514...5.7.6...4....."
            .to_string();
    let expected =
        "178532964645789213932614587519873642726145839384926175863297451491358726257461398"
            .to_string();
    assert_eq!(solve_as_string(input), expected);
}

#[test]
fn solve_as_string_reports_wrong_length() {
    assert_eq!(
        solve_as_string("99".to_string()),
        "Input string was 2 chars long. Expected 81.".to_string()
    );
}

#[test]
fn solve_as_string_reports_unsolvable() {
    let mut input: String = std::iter::repeat("5").take(9).collect();
    input.push_str(&std::iter::repeat(".").take(72).collect::<String>());
    assert_eq!(solve_as_string(input), "Unsolvable.".to_string());
}

#[test]
fn generate_as_string_is_a_solvable_grid() {
    let text = generate_as_string();
    assert_eq!(text.chars().count(), 81);
    let grid = sudluko::utils::deserialize(text).unwrap();
    assert!(sudluko::solver::solve(grid).is_some());
}
