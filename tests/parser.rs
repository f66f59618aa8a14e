use sudoku_wave::parser::{CellValue, GameState};
use sudoku_wave::state::{ParseError, ALL_CELL_POSSIBILITIES};

#[test]
fn parser_parse() {
    let problem = "91..8....
4..279...
.73....4.
3...4...1
5..3.1..2
8...6...4
.4....63.
...527..9
....3..87";

    let solution = GameState::parse(&problem).unwrap();
    assert_eq!(solution.get(0, 0), CellValue::Fixed(9));
    assert_eq!(solution.get(0, 1), CellValue::Fixed(4));
    assert_eq!(solution.get(1, 0), CellValue::Fixed(1));
    assert_eq!(solution.get(1, 2), CellValue::Fixed(7));
    assert_eq!(solution.get(0, 3), CellValue::Fixed(3));
    assert_eq!(
        solution.get(1, 1),
        CellValue::SuperState(ALL_CELL_POSSIBILITIES)
    );
    assert_eq!(
        solution.get(8, 2),
        CellValue::SuperState(ALL_CELL_POSSIBILITIES)
    );
}

#[test]
fn parser_as_string() {
    let problem = "91..8....
4..279...
.73....4.
3...4...1
5..3.1..2
8...6...4
.4....63.
...527..9
....3..87";

    let solution = GameState::parse(&problem).unwrap();
    assert_eq!(solution.to_string(), format!("{}\n", problem));
}

#[test]
fn parser_reports_errors() {
    assert_eq!(
        GameState::parse("123456789").err(),
        Some(ParseError::MalformedLineCount)
    );
    let bad = "12345678.\n".repeat(8) + "1234";
    assert_eq!(GameState::parse(&bad).err(), Some(ParseError::MalformedLineLength));
    let bad = "12345678.\n".repeat(8) + "1234#6789";
    assert_eq!(GameState::parse(&bad).err(), Some(ParseError::InvalidCharacter));
}
