//! A 9x9 Sudoku solver and puzzle generator.
//!
//! The grid is a flat sequence of 81 cells, each an optional digit 1-9.
//! A grid is valid when no digit repeats within any row, column or 3x3 box,
//! restricted to the cells that are filled. The solver decides whether a
//! partially filled grid has a valid completion; the generator builds a full
//! solution and removes cells while a sampling heuristic still reports the
//! puzzle as uniquely solvable.

pub mod generator;
pub mod models;
pub mod solver;
pub mod utils;

use vstd::prelude::*;

use crate::generator::generate;
use crate::models::{all_empty, grid_full, grid_wf, is_completion, solvable, Sudoku};
use crate::solver::solve;
use crate::utils::{
    bad_msgs, joined, length_error_msg, parse_cell, parsed_grid, serialize, ser_seq,
};
use vstd::string::StringExecFns;

verus! {

/// The text shown for one grid: its 81-character encoding.
fn display(s: &Sudoku) -> (r: String)
    requires
        grid_wf(s@),
    ensures
        r@ == ser_seq(s@),
{
    serialize(s)
}

/// Generate a puzzle and return its text encoding. The encoded grid is
/// always solvable, with at least one filled and at least one empty cell.
pub fn generate_as_string() -> (r: String)
    ensures
        exists|g: Seq<Option<u8>>|
            #[trigger] solvable(g) && grid_wf(g) && !all_empty(g) && !grid_full(g) && r@
                == ser_seq(g),
{
    let s = generate();
    let r = display(&s);
    proof {
        assert(solvable(s@) && grid_wf(s@) && !all_empty(s@) && !grid_full(s@) && r@ == ser_seq(
            s@,
        ));
    }
    r
}

/// Decode the text, solve the grid, and return the text of a completion;
/// failures are reported in the returned text: the decoder's message for a
/// text that is not a grid, and a fixed message for a puzzle with no
/// solution.
pub fn solve_as_string(sudoku_string: String) -> (r: String)
    ensures
        sudoku_string@.len() != 81 ==> r@ == length_error_msg(sudoku_string@.len()),
        sudoku_string@.len() == 81 && (exists|i: int|
            0 <= i < 81 && parse_cell(#[trigger] sudoku_string@[i]) is None) ==> r@ == joined(
            bad_msgs(sudoku_string@, 81),
        ),
        sudoku_string@.len() == 81 && (forall|i: int|
            0 <= i < 81 ==> parse_cell(#[trigger] sudoku_string@[i]) is Some) && !solvable(
            parsed_grid(sudoku_string@),
        ) ==> r@ == "Unsolvable."@,
        sudoku_string@.len() == 81 && (forall|i: int|
            0 <= i < 81 ==> parse_cell(#[trigger] sudoku_string@[i]) is Some) && solvable(
            parsed_grid(sudoku_string@),
        ) ==> exists|s: Seq<Option<u8>>|
            #[trigger] is_completion(s, parsed_grid(sudoku_string@)) && r@ == ser_seq(s),
{
    let sudoku = crate::utils::deserialize(sudoku_string);
    match sudoku {
        Err(e) => e,
        Ok(grid) => {
            let ghost gv = grid@;
            match solve(grid) {
                Some(s) => {
                    let r = display(&s);
                    proof {
                        assert(is_completion(s@, gv) && r@ == ser_seq(s@));
                    }
                    r
                },
                None => String::from_str("Unsolvable."),
            }
        },
    }
}

} // verus!
