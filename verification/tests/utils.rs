use sudluko::models::Sudoku;
use sudluko::utils::{deserialize, serialize};

#[test]
fn serialisation_works() {
    let expected: String = std::iter::repeat("12345689.").take(9).collect();
    let row: Vec<Option<u8>> = vec![
        Some(1),
        Some(2),
        Some(3),
        Some(4),
        Some(5),
        Some(6),
        Some(8),
        Some(9),
        None,
    ];
    let mut cells: Vec<Option<u8>> = Vec::new();
    for _ in 0..9 {
        cells.extend(row.iter().cloned());
    }
    let sudoku = Sudoku::from_cells(cells);
    let result = serialize(&sudoku);
    assert_eq!(expected, result);
}

#[test]
fn rejects_short_string() {
    let input = "99".to_string();
    let expected_error = Err("Input string was 2 chars long. Expected 81.".to_string());
    let result = deserialize(input);
    assert_eq!(expected_error, result);
}

#[test]
fn rejects_long_string() {
    let input: String = std::iter::repeat(".").take(82).collect();
    let expected_error = Err("Input string was 82 chars long. Expected 81.".to_string());
    let result = deserialize(input);
    assert_eq!(expected_error, result);
}

#[test]
fn handles_bad_chars() {
    let mut input: String = std::iter::repeat("1").take(78).collect();
    input.extend(&['a', '0', '1']);
    let expected_error = Err(
        "Unknown character a at position 78. Unknown character 0 at position 79.".to_string(),
    );
    let result = deserialize(input);
    assert_eq!(expected_error, result);
}

#[test]
fn deserialization_works() {
    let input: String = std::iter::repeat("12345689.").take(9).collect();
    let result = deserialize(input);
    let row: Vec<Option<u8>> = vec![
        Some(1),
        Some(2),
        Some(3),
        Some(4),
        Some(5),
        Some(6),
        Some(8),
        Some(9),
        None,
    ];
    let mut cells: Vec<Option<u8>> = Vec::new();
    for _ in 0..9 {
        cells.extend(row.iter().cloned());
    }
    let expected = Sudoku::from_cells(cells);
    assert_eq!(Ok(expected), result);
}

#[test]
fn round_trip_serialize_deserialize() {
    let text =
        ".....2...6.5.8...393...4.8.5.98......26...83......61.5.6.2...514...5.7.6...4....."
            .to_string();
    let grid = deserialize(text.clone()).unwrap();
    assert_eq!(serialize(&grid), text);
}
