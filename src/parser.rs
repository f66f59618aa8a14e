//! A puzzle grid in terms of `CellValue`, read from text and shown as text.

use crate::state::{self, grid_of, idx, lines, parse_error, render, ParseError, Point};
use vstd::prelude::*;

verus! {

/// One square of a puzzle: the values still possible as a mask, where bit
/// `v - 1` stands for value `v`, or its decided value.
#[derive(Debug, Clone, Copy, PartialEq, Eq, Structural)]
pub enum CellValue {
    SuperState(u16),
    Fixed(u16),
}

/// The cell of the solving engine that a `CellValue` stands for.
pub open spec fn game_cell_of(c: CellValue) -> state::GameCell {
    match c {
        CellValue::SuperState(m) => state::GameCell::SuperState(m),
        CellValue::Fixed(v) => state::GameCell::Fixed(v),
    }
}

/// The `CellValue` that a cell of the solving engine stands for.
pub open spec fn value_of(c: state::GameCell) -> CellValue {
    match c {
        state::GameCell::SuperState(m) => CellValue::SuperState(m),
        state::GameCell::Fixed(v) => CellValue::Fixed(v),
    }
}

fn to_value(c: state::GameCell) -> (r: CellValue)
    ensures
        r == value_of(c),
{
    match c {
        state::GameCell::SuperState(m) => CellValue::SuperState(m),
        state::GameCell::Fixed(v) => CellValue::Fixed(v),
    }
}

/// A puzzle grid of 9x9 cells, row by row.
pub struct GameState {
    grid: state::GameState,
}

impl View for GameState {
    type V = Seq<CellValue>;

    closed spec fn view(&self) -> Seq<CellValue> {
        self.grid@.map_values(|c: state::GameCell| value_of(c))
    }
}

impl GameState {
    pub closed spec fn wf(&self) -> bool {
        self.grid.wf()
    }

    /// The cells of the solving engine behind this grid.
    pub closed spec fn engine_cells(&self) -> Seq<state::GameCell> {
        self.grid@
    }

    pub(crate) fn from_grid(grid: state::GameState) -> (r: GameState)
        requires
            grid.wf(),
        ensures
            r.wf(),
            r.engine_cells() == grid@,
            r@ == grid@.map_values(|c: state::GameCell| value_of(c)),
    {
        GameState { grid }
    }

    /// The cell in column `x` of row `y`.
    pub fn get(&self, x: usize, y: usize) -> (r: CellValue)
        requires
            self.wf(),
            x < 9,
            y < 9,
        ensures
            r == self@[9 * y + x],
            r == value_of(self.engine_cells()[9 * y + x]),
    {
        to_value(self.grid.get(&Point::new(x, y)))
    }

    /// Reads a puzzle: nine lines of nine characters, a digit from 1 to 9
    /// for a clue and `.` for a blank.
    pub fn parse(problem: &str) -> (r: Result<GameState, ParseError>)
        ensures
            match r {
                Ok(g) => parse_error(lines(problem@)) is None && g.wf() && g.engine_cells() == grid_of(
                    lines(problem@),
                ) && g@ == grid_of(lines(problem@)).map_values(|c: state::GameCell| value_of(c)),
                Err(e) => parse_error(lines(problem@)) == Some(e),
            },
    {
        match state::GameState::parse(problem) {
            Ok(grid) => Ok(GameState::from_grid(grid)),
            Err(e) => Err(e),
        }
    }

    /// The grid as text: a line for each row, a digit for each decided cell
    /// and `.` for each other, each line ended by a newline.
    pub fn to_string(&self) -> (r: String)
        requires
            self.wf(),
        ensures
            r@ == render(self.engine_cells()),
    {
        self.grid.to_string()
    }
}

} // verus!
