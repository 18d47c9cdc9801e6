//! Backtracking preceded by queue-driven naked-single propagation.

use crate::board::cell::constrained_cell::ConstrainedCell;
use crate::board::cell::IsCell;
use crate::board::Board;
use crate::solvers::backtracking::{lemma_extends_givens, lemma_parsed_board_ready};
use crate::solvers::{propagation, search, Solver};
use vstd::prelude::*;

verus! {

pub struct CellEliminatedBacktrackingSolver;

impl CellEliminatedBacktrackingSolver {
    /// Naked-single propagation to its fixed point: derives the forbidden
    /// masks of the fixed cells and promotes every cell whose masks leave
    /// a single digit. Only works on fully fixed boards: a filled cell is
    /// taken as fixed.
    pub fn calculate_fixed_board_constrains_until_stable(board: &mut Board<ConstrainedCell>)
        requires
            old(board).wf(),
            forall|i: int|
                0 <= i < 81 ==> ((#[trigger] old(board).0@[i]).fixed_spec()
                    == crate::board::cell::is_filled(old(board).0@[i].value_spec())),
        ensures
            final(board).wf(),
            propagation::propagation_frame(old(board).0@, final(board).0@),
            propagation::promotions_sound(old(board).0@, final(board).0@),
            propagation::queue_propagated(old(board).0@, final(board).0@),
            // Every promoted cell is a naked single: all other digits
            // are placed in its row, column or box.
            forall|i: int|
                0 <= i < 81 && (#[trigger] final(board).0@[i]).fixed_spec() && !old(board).0@[
                    i].fixed_spec() ==> propagation::naked_single_promotion(final(board).0@, i),
            forall|a: Seq<int>|
                #[trigger] search::is_sol(a, old(board).0@) ==> search::is_sol(
                    a,
                    final(board).0@,
                ),
    {
        propagation::run_queue_propagation(board, false);
    }
}

impl Solver for CellEliminatedBacktrackingSolver {
    fn name(&self) -> &'static str {
        "celleliminated"
    }

    fn solve(&self, puzzle: &'static str) -> (r: Result<(bool, String), &'static str>) {
        let mut board = match Board::<ConstrainedCell>::parse_puzzle_string(puzzle) {
            Err(error) => {
                return Err(error);
            },
            Ok(b) => b,
        };
        proof {
            lemma_parsed_board_ready(puzzle@, board);
        }
        let ghost b0 = board;
        CellEliminatedBacktrackingSolver::calculate_fixed_board_constrains_until_stable(&mut board);
        let ghost b1 = board;
        let outcome = search::run_search(&mut board);
        proof {
            if outcome.0 {
                lemma_extends_givens(puzzle@, b1, outcome.1@);
            } else {
                assert forall|a: Seq<int>| !search::is_sol(a, b0.0@) by {
                    if search::is_sol(a, b0.0@) {
                        assert(search::is_sol(a, b1.0@));
                    }
                }
                assert forall|sol: Seq<char>| !crate::solvers::is_solution_of(sol, puzzle@) by {
                    crate::solvers::backtracking::lemma_no_assignment_no_string(
                        puzzle@,
                        b0,
                        sol,
                    );
                }
            }
        }
        Ok(outcome)
    }
}

} // verus!
