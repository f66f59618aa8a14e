use rand::rngs::StdRng;
use rand::SeedableRng;
use std::collections::HashSet;
use sudoku_wave::state::{GameCell, GameState, ParseError, Point, ALL_CELL_POSSIBILITIES};

const PROBLEM: &str = "91..8....
4..279...
.73....4.
3...4...1
5..3.1..2
8...6...4
.4....63.
...527..9
....3..87";

#[test]
fn state_parse() {
    let problem = PROBLEM;
    let state = GameState::parse(&problem).unwrap();
    assert_eq!(state.get(&Point::new(0, 0)), GameCell::Fixed(9));
    assert_eq!(state.get(&Point::new(0, 1)), GameCell::Fixed(4));
    assert_eq!(state.get(&Point::new(1, 0)), GameCell::Fixed(1));
    assert_eq!(state.get(&Point::new(1, 2)), GameCell::Fixed(7));
    assert_eq!(state.get(&Point::new(0, 3)), GameCell::Fixed(3));
    assert_eq!(
        state.get(&Point::new(1, 1)),
        GameCell::SuperState(ALL_CELL_POSSIBILITIES)
    );
    assert_eq!(
        state.get(&Point::new(8, 2)),
        GameCell::SuperState(ALL_CELL_POSSIBILITIES)
    );
}

#[test]
fn state_as_string() {
    let problem = PROBLEM;
    let state = GameState::parse(&problem).unwrap();
    assert_eq!(state.to_string(), format!("{}\n", problem));
}

#[test]
fn neighbors() {
    let problem = PROBLEM;
    let state = GameState::parse(&problem).unwrap();
    let full = GameCell::SuperState(ALL_CELL_POSSIBILITIES);
    assert_eq!(
        GameState::in_row(1)
            .iter()
            .map(|p| state.get(p))
            .collect::<Vec<GameCell>>(),
        vec!(
            GameCell::Fixed(4),
            full,
            full,
            GameCell::Fixed(2),
            GameCell::Fixed(7),
            GameCell::Fixed(9),
            full,
            full,
            full
        )
    );
    assert_eq!(
        GameState::in_col(2)
            .iter()
            .map(|p| state.get(p))
            .collect::<Vec<GameCell>>(),
        vec!(full, full, GameCell::Fixed(3), full, full, full, full, full, full)
    );
    assert_eq!(
        GameState::in_house(&Point::new(0, 2))
            .iter()
            .map(|p| state.get(p))
            .collect::<Vec<GameCell>>(),
        vec!(
            GameCell::Fixed(9),
            GameCell::Fixed(1),
            full,
            GameCell::Fixed(4),
            full,
            full,
            full,
            GameCell::Fixed(7),
            GameCell::Fixed(3),
        )
    );
    assert_eq!(
        GameState::in_house(&Point::new(8, 4))
            .iter()
            .map(|p| state.get(p))
            .collect::<Vec<GameCell>>(),
        vec!(
            full,
            full,
            GameCell::Fixed(1),
            full,
            full,
            GameCell::Fixed(2),
            full,
            full,
            GameCell::Fixed(4),
        )
    );
    assert_eq!(
        GameState::in_house(&Point::new(0, 8))
            .iter()
            .map(|p| state.get(p))
            .collect::<Vec<GameCell>>(),
        vec!(full, GameCell::Fixed(4), full, full, full, full, full, full, full)
    );
}

#[test]
fn pop_count() {
    assert_eq!(
        GameCell::SuperState(ALL_CELL_POSSIBILITIES).pop_count(),
        Some(9)
    );
    assert_eq!(
        GameCell::SuperState(0b00000001_10101010).pop_count(),
        Some(5)
    );
    assert_eq!(GameCell::Fixed(4).pop_count(), None);
}

#[test]
fn constrain() {
    let mut cell = GameCell::SuperState(ALL_CELL_POSSIBILITIES);
    cell.constrain(&GameCell::SuperState(ALL_CELL_POSSIBILITIES));
    assert_eq!(cell, GameCell::SuperState(ALL_CELL_POSSIBILITIES));

    let mut cell = GameCell::SuperState(ALL_CELL_POSSIBILITIES);
    cell.constrain(&GameCell::Fixed(2));
    assert_eq!(cell, GameCell::SuperState(0b00000001_11111101));

    let mut cell = GameCell::SuperState(0b00000001_11111101);
    cell.constrain(&GameCell::Fixed(4));
    assert_eq!(cell, GameCell::SuperState(0b00000001_11110101));
}

#[test]
fn potential_values() {
    assert_eq!(
        GameCell::SuperState(ALL_CELL_POSSIBILITIES).potential_values(),
        Some(vec![1, 2, 3, 4, 5, 6, 7, 8, 9])
    );
    assert_eq!(
        GameCell::SuperState(0b00000001_11111101).potential_values(),
        Some(vec![1, 3, 4, 5, 6, 7, 8, 9])
    );
    assert_eq!(
        GameCell::SuperState(0b00000000_00000001).potential_values(),
        Some(vec![1])
    );
    assert_eq!(
        GameCell::SuperState(0b00000001_00000000).potential_values(),
        Some(vec![9])
    );
    assert_eq!(GameCell::Fixed(4).potential_values(), None);
}

#[test]
fn random_potential_values() {
    let mut rng = StdRng::seed_from_u64(17);
    let expected: HashSet<u16> = vec![1, 2, 3, 4, 5, 6, 7, 8, 9].iter().copied().collect();
    for _ in 0..100 {
        assert!(expected.contains(
            &GameCell::SuperState(ALL_CELL_POSSIBILITIES)
                .random_potential(&mut rng)
                .unwrap()
        ));
    }

    let expected: HashSet<u16> = vec![8, 9].iter().copied().collect();
    for _ in 0..100 {
        assert!(expected.contains(
            &GameCell::SuperState(0b00000001_10000000)
                .random_potential(&mut rng)
                .unwrap()
        ));
    }

    let expected: HashSet<u16> = vec![9].iter().copied().collect();
    for _ in 0..100 {
        assert!(expected.contains(
            &GameCell::SuperState(0b00000001_00000000)
                .random_potential(&mut rng)
                .unwrap()
        ));
    }

    assert_eq!(None, GameCell::Fixed(2).random_potential(&mut rng));
}

#[test]
fn all_cells() {
    let problem = PROBLEM;
    let state = GameState::parse(&problem).unwrap();
    let full = GameCell::SuperState(ALL_CELL_POSSIBILITIES);
    let solution: Vec<(Point, GameCell)> = state.cells().into_iter().take(5).collect();
    assert_eq!(
        solution,
        vec![
            (Point::new(0, 0), GameCell::Fixed(9)),
            (Point::new(1, 0), GameCell::Fixed(1)),
            (Point::new(2, 0), full),
            (Point::new(3, 0), full),
            (Point::new(4, 0), GameCell::Fixed(8)),
        ]
    );
    assert_eq!(state.cells().len(), 81);
    for (pos, cell) in state.cells() {
        assert_eq!(state.get(&pos), cell);
    }
}

#[test]
fn parse_rejects_wrong_line_count() {
    let short = "91..8....\n4..279...";
    assert_eq!(GameState::parse(short).err(), Some(ParseError::MalformedLineCount));
    let long = format!("{}\n.........", PROBLEM);
    assert_eq!(GameState::parse(&long).err(), Some(ParseError::MalformedLineCount));
    let blank_tail = format!("{}\n\n", PROBLEM);
    assert_eq!(GameState::parse(&blank_tail).err(), Some(ParseError::MalformedLineCount));
    assert_eq!(GameState::parse("").err(), Some(ParseError::MalformedLineCount));
}

#[test]
fn parse_rejects_wrong_line_length() {
    let text = PROBLEM.replacen("4..279...", "4..279....", 1);
    assert_eq!(GameState::parse(&text).err(), Some(ParseError::MalformedLineLength));
    let text = PROBLEM.replacen(".73....4.", ".73....4", 1);
    assert_eq!(GameState::parse(&text).err(), Some(ParseError::MalformedLineLength));
}

#[test]
fn parse_rejects_invalid_character() {
    let text = PROBLEM.replacen("91..8....", "91..8...x", 1);
    assert_eq!(GameState::parse(&text).err(), Some(ParseError::InvalidCharacter));
    let text = PROBLEM.replacen("91..8....", "90..8....", 1);
    assert_eq!(GameState::parse(&text).err(), Some(ParseError::InvalidCharacter));
}

#[test]
fn parse_takes_first_error_line_by_line() {
    let text = PROBLEM
        .replacen("91..8....", "91..8...x", 1)
        .replacen("4..279...", "4..279", 1);
    assert_eq!(GameState::parse(&text).err(), Some(ParseError::InvalidCharacter));
    let text = PROBLEM
        .replacen("91..8....", "91..8..", 1)
        .replacen("4..279...", "4..279..x", 1);
    assert_eq!(GameState::parse(&text).err(), Some(ParseError::MalformedLineLength));
}

#[test]
fn parse_maps_digits_and_dots() {
    let state = GameState::parse(PROBLEM).unwrap();
    let rows: Vec<&str> = PROBLEM.lines().collect();
    for (y, row) in rows.iter().enumerate() {
        for (x, ch) in row.chars().enumerate() {
            let expected = match ch.to_digit(10) {
                Some(d) => GameCell::Fixed(d as u16),
                None => GameCell::SuperState(ALL_CELL_POSSIBILITIES),
            };
            assert_eq!(state.get(&Point::new(x, y)), expected);
        }
    }
}

#[test]
fn render_keeps_a_final_newline() {
    let text = format!("{}\n", PROBLEM);
    let state = GameState::parse(&text).unwrap();
    assert_eq!(state.to_string(), text);
}

#[test]
fn constrain_is_idempotent() {
    let mut cell = GameCell::SuperState(ALL_CELL_POSSIBILITIES);
    assert!(cell.constrain(&GameCell::Fixed(7)));
    assert_eq!(cell, GameCell::SuperState(0b00000001_10111111));
    assert!(!cell.constrain(&GameCell::Fixed(7)));
    assert_eq!(cell, GameCell::SuperState(0b00000001_10111111));
    let mut fixed = GameCell::Fixed(3);
    assert!(!fixed.constrain(&GameCell::Fixed(3)));
    assert_eq!(fixed, GameCell::Fixed(3));
}

#[test]
fn pop_count_of_narrowed_masks() {
    assert_eq!(GameCell::SuperState(0).pop_count(), Some(0));
    assert_eq!(GameCell::SuperState(0b00000001_00000001).pop_count(), Some(2));
}

#[test]
fn potential_values_of_outer_bits() {
    assert_eq!(
        GameCell::SuperState(0b00000001_00000001).potential_values(),
        Some(vec![1, 9])
    );
    assert_eq!(GameCell::SuperState(0).potential_values(), Some(vec![]));
}

#[test]
fn random_potential_of_empty_mask_is_none() {
    let mut rng = StdRng::seed_from_u64(3);
    assert_eq!(GameCell::SuperState(0).random_potential(&mut rng), None);
    assert_eq!(
        GameCell::SuperState(0b00000000_00010000).random_potential(&mut rng),
        Some(5)
    );
}

#[test]
fn house_points_follow_the_block() {
    let a = GameState::in_house(&Point::new(0, 2));
    assert_eq!(a, GameState::in_house(&Point::new(2, 0)));
    assert_eq!(a, GameState::in_house(&Point::new(1, 1)));
    let b = GameState::in_house(&Point::new(3, 3));
    for p in a.iter() {
        assert!(!b.contains(p));
    }
    assert_eq!(b[0], Point::new(3, 3));
    assert_eq!(b[8], Point::new(5, 5));
}

#[test]
fn rows_and_columns() {
    assert_eq!(GameState::in_row(4)[7], Point::new(7, 4));
    assert_eq!(GameState::in_col(4)[7], Point::new(4, 7));
}

#[test]
fn get_mut_writes_one_cell() {
    let mut state = GameState::parse(PROBLEM).unwrap();
    *state.get_mut(&Point::new(2, 0)) = GameCell::Fixed(5);
    assert_eq!(state.get(&Point::new(2, 0)), GameCell::Fixed(5));
    assert!(state.to_string().starts_with("915.8....\n"));
}

#[test]
fn parse_accepts_crlf_lines() {
    let text = PROBLEM.replace('\n', "\r\n");
    let state = GameState::parse(&text).unwrap();
    assert_eq!(state.get(&Point::new(0, 0)), GameCell::Fixed(9));
    assert_eq!(state.to_string(), format!("{}\n", PROBLEM));
    let text = format!("{}\r\n", text);
    assert!(GameState::parse(&text).is_ok());
    let text = PROBLEM.replacen("91..8....", "91..8...\r\r", 1);
    assert_eq!(GameState::parse(&text).err(), Some(ParseError::InvalidCharacter));
    let text = PROBLEM.replacen("91..8....", "91..8...\r", 1);
    assert_eq!(GameState::parse(&text).err(), Some(ParseError::MalformedLineLength));
}
