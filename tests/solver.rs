use rand::rngs::StdRng;
use rand::SeedableRng;
use sudoku_wave::solver::{
    self, affected_cells, constrain, fewest_values, lowest_entropy, step, SolveError,
};
use sudoku_wave::state::{GameCell, GameState, ParseError, Point, ALL_CELL_POSSIBILITIES};

const PROBLEM: &str = "91..8....
4..279...
.73....4.
3...4...1
5..3.1..2
8...6...4
.4....63.
...527..9
....3..87";

const SOLUTION: &str = "915483726
486279153
273156948
397842561
564391872
821765394
742918635
638527419
159634287";

/// Whether every row, column and house of `text` holds each of 1 to 9 once.
fn is_valid_grid(text: &str) -> bool {
    let rows: Vec<Vec<u32>> = text
        .lines()
        .map(|l| l.chars().map(|c| c.to_digit(10).unwrap_or(0)).collect())
        .collect();
    if rows.len() != 9 || rows.iter().any(|r| r.len() != 9) {
        return false;
    }
    let full = |vals: Vec<u32>| {
        let mut v = vals;
        v.sort();
        v == vec![1, 2, 3, 4, 5, 6, 7, 8, 9]
    };
    for i in 0..9 {
        let row: Vec<u32> = rows[i].clone();
        let col: Vec<u32> = (0..9).map(|y| rows[y][i]).collect();
        let house: Vec<u32> = (0..9)
            .map(|k| rows[(i / 3) * 3 + k / 3][(i % 3) * 3 + k % 3])
            .collect();
        if !full(row) || !full(col) || !full(house) {
            return false;
        }
    }
    true
}

#[test]
fn solve_solve_simple_problem() {
    let problem = PROBLEM;
    let solution = SOLUTION;
    let mut rng = StdRng::seed_from_u64(1);
    match sudoku_wave::solve(&problem, &mut rng) {
        Ok(state) => {
            assert!(is_valid_grid(&state.to_string()));
            assert_eq!(state.to_string(), format!("{}\n", solution));
        }
        Err(e) => assert_eq!(e, SolveError::Contradiction),
    }
}

#[test]
fn solver_solve_simple_problem() {
    let problem = PROBLEM;
    let solution = SOLUTION;
    let mut rng = StdRng::seed_from_u64(2);
    match solver::solve(&problem, &mut rng) {
        Ok(state) => {
            assert!(is_valid_grid(&state.to_string()));
            assert_eq!(state.to_string(), format!("{}\n", solution));
        }
        Err(e) => assert_eq!(e, SolveError::Contradiction),
    }
}

#[test]
fn solve_completes_a_single_blank() {
    let problem = SOLUTION.replacen("915483726", "9154.3726", 1);
    let mut rng = StdRng::seed_from_u64(5);
    let state = solver::solve(&problem, &mut rng).unwrap();
    assert_eq!(state.to_string(), format!("{}\n", SOLUTION));
    assert!(is_valid_grid(&state.to_string()));
}

#[test]
fn solve_of_a_full_grid_keeps_it() {
    let mut rng = StdRng::seed_from_u64(9);
    let state = sudoku_wave::solve(SOLUTION, &mut rng).unwrap();
    assert_eq!(state.to_string(), format!("{}\n", SOLUTION));
}

#[test]
fn solve_reports_parse_errors() {
    let mut rng = StdRng::seed_from_u64(4);
    assert_eq!(
        solver::solve("91..8....", &mut rng).err(),
        Some(SolveError::Parse(ParseError::MalformedLineCount))
    );
}

#[test]
fn ripple_carries_the_value_on() {
    // After the clues propagate, every digit is gone from every blank.
    let mut rng = StdRng::seed_from_u64(11);
    assert_eq!(
        solver::solve(PROBLEM, &mut rng).err(),
        Some(SolveError::Contradiction)
    );
}

#[test]
fn constrain_ripples_through_changed_cells() {
    let text = "5........\n".repeat(1) + &".........\n".repeat(8);
    let mut state = GameState::parse(&text).unwrap();
    constrain(&mut state, &Point::new(0, 0));
    let without_five = GameCell::SuperState(ALL_CELL_POSSIBILITIES & !(1 << 4));
    assert_eq!(state.get(&Point::new(1, 0)), without_five);
    assert_eq!(state.get(&Point::new(0, 8)), without_five);
    assert_eq!(state.get(&Point::new(4, 4)), without_five);
    assert_eq!(state.get(&Point::new(0, 0)), GameCell::Fixed(5));
}

#[test]
fn constrain_stops_at_unchanged_cells() {
    // Every cell but the source and one blank is decided, so the loss
    // reaches only that blank when it shares a group with the source.
    let text = SOLUTION.replacen("915483726", "9154.3726", 1);
    let mut state = GameState::parse(&text).unwrap();
    constrain(&mut state, &Point::new(0, 8));
    assert_eq!(
        state.get(&Point::new(4, 0)),
        GameCell::SuperState(ALL_CELL_POSSIBILITIES)
    );
    constrain(&mut state, &Point::new(1, 0));
    assert_eq!(
        state.get(&Point::new(4, 0)),
        GameCell::SuperState(ALL_CELL_POSSIBILITIES & !1)
    );
}

#[test]
fn affected_cells_lists_column_row_and_house() {
    let cells = affected_cells(&Point::new(4, 7));
    assert_eq!(cells.len(), 27);
    assert_eq!(cells[0], Point::new(4, 0));
    assert_eq!(cells[9], Point::new(0, 7));
    assert_eq!(cells[18], Point::new(3, 6));
    assert_eq!(cells[26], Point::new(5, 8));
}

#[test]
fn lowest_entropy_reports_contradiction() {
    let mut state = GameState::parse(PROBLEM).unwrap();
    *state.get_mut(&Point::new(2, 0)) = GameCell::SuperState(0);
    let mut rng = StdRng::seed_from_u64(6);
    assert_eq!(lowest_entropy(&state, &mut rng), Err(SolveError::Contradiction));
}

#[test]
fn lowest_entropy_picks_the_fewest_values() {
    let mut state = GameState::parse(PROBLEM).unwrap();
    *state.get_mut(&Point::new(6, 5)) = GameCell::SuperState(0b00000000_00010010);
    let mut rng = StdRng::seed_from_u64(8);
    assert_eq!(lowest_entropy(&state, &mut rng), Ok(Some(Point::new(6, 5))));
    let full = GameState::parse(SOLUTION).unwrap();
    assert_eq!(lowest_entropy(&full, &mut rng), Ok(None));
}

#[test]
fn lowest_entropy_breaks_ties_among_the_minimum() {
    let mut state = GameState::parse(PROBLEM).unwrap();
    *state.get_mut(&Point::new(2, 0)) = GameCell::SuperState(0b00000000_00000011);
    *state.get_mut(&Point::new(8, 8)) = GameCell::SuperState(0b00000001_00000001);
    let mut rng = StdRng::seed_from_u64(10);
    for _ in 0..50 {
        let p = lowest_entropy(&state, &mut rng).unwrap().unwrap();
        assert!(p == Point::new(2, 0) || p == Point::new(8, 8));
    }
}

#[test]
fn fewest_values_lists_every_tie_in_order() {
    let mut state = GameState::parse(PROBLEM).unwrap();
    *state.get_mut(&Point::new(8, 8)) = GameCell::SuperState(0b00000001_00000001);
    *state.get_mut(&Point::new(2, 0)) = GameCell::SuperState(0b00000000_00000011);
    *state.get_mut(&Point::new(5, 4)) = GameCell::SuperState(0b00000000_00000111);
    assert_eq!(fewest_values(&state), vec![2, 80]);
    let full = GameState::parse(SOLUTION).unwrap();
    assert_eq!(fewest_values(&full), Vec::<usize>::new());
    let open = GameState::parse(PROBLEM).unwrap();
    assert_eq!(fewest_values(&open).len(), 51);
}

#[test]
fn step_fixes_and_spreads() {
    let text = ".........\n".repeat(9);
    let mut state = GameState::parse(&text).unwrap();
    step(&mut state, &Point::new(3, 3), 6);
    assert_eq!(state.get(&Point::new(3, 3)), GameCell::Fixed(6));
    let without_six = GameCell::SuperState(ALL_CELL_POSSIBILITIES & !(1 << 5));
    assert_eq!(state.get(&Point::new(3, 0)), without_six);
    assert_eq!(state.get(&Point::new(8, 8)), without_six);
}
