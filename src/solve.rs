//! Solving a puzzle given as text, with the grid given back as `CellValue`s.

use crate::parser::GameState;
use crate::solver::{self, dead, propagated, solves, SolveError};
use crate::state::{grid_of, lines, parse_error};
use rand::rngs::StdRng;
use vstd::prelude::*;

verus! {

/// Solves a puzzle given as text, drawing every guess from `rng`, and gives
/// the grid as `CellValue`s.
pub fn solve(problem: &str, rng: &mut StdRng) -> (r: Result<GameState, SolveError>)
    ensures
        match r {
            Ok(g) => parse_error(lines(problem@)) is None && g.wf() && solves(
                g.engine_cells(),
                grid_of(lines(problem@)),
            ),
            Err(SolveError::Parse(e)) => parse_error(lines(problem@)) == Some(e),
            Err(SolveError::Contradiction) => parse_error(lines(problem@)) is None,
        },
        parse_error(lines(problem@)) is None && (forall|k: int|
            0 <= k < 81 ==> (#[trigger] grid_of(lines(problem@))[k]) is Fixed) ==> r is Ok,
        parse_error(lines(problem@)) is None && (exists|k: int|
            0 <= k < 81 && dead(#[trigger] propagated(grid_of(lines(problem@)))[k])) ==> r == Err::<
            GameState,
            SolveError,
        >(SolveError::Contradiction),
{
    match solver::solve(problem, rng) {
        Ok(grid) => Ok(GameState::from_grid(grid)),
        Err(e) => Err(e),
    }
}

} // verus!
