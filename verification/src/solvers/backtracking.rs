//! Plain backtracking over unconstrained cells: no propagation, every
//! digit is a candidate everywhere.

use crate::board::cell::simple_cell::SimpleCell;
use crate::board::{self, Board};
use crate::solvers::{search, Solver};
use vstd::prelude::*;

verus! {

pub struct BacktrackingSolver;

/// The board a fresh parse hands to the search: well-formed, the givens
/// fixed and filled, everything else empty.
pub proof fn lemma_parsed_board_ready<T: board::cell::IsCell>(p: Seq<char>, b: Board<T>)
    requires
        board::puzzle_ok(p),
        b.wf(),
        forall|i: int| 0 <= i < 81 ==> (#[trigger] b.0@[i]).value_spec() == board::value_of_char(
            p[i],
        ),
        forall|i: int| 0 <= i < 81 ==> (#[trigger] b.0@[i]).fixed_spec() == (p[i] != '.'),
    ensures
        forall|i: int|
            0 <= i < 81 && (#[trigger] b.0@[i]).fixed_spec() ==> board::cell::is_filled(
                b.0@[i].value_spec(),
            ),
        forall|i: int|
            0 <= i < 81 && !(#[trigger] b.0@[i]).fixed_spec() ==> b.0@[i].value_spec()
                == board::cell::CellValue::Empty,
{
    assert forall|i: int|
        0 <= i < 81 && (#[trigger] b.0@[i]).fixed_spec() implies board::cell::is_filled(
        b.0@[i].value_spec(),
    ) by {
        assert(p[i] == '.' || board::is_digit_char(p[i]));
    }
    assert forall|i: int|
        0 <= i < 81 && !(#[trigger] b.0@[i]).fixed_spec() implies b.0@[i].value_spec()
        == board::cell::CellValue::Empty by {
        assert(p[i] == '.' || board::is_digit_char(p[i]));
    }
}

/// A solution extending a board whose given cells still carry the
/// puzzle's digits reproduces those digits.
pub proof fn lemma_extends_givens<T: board::cell::IsCell>(p: Seq<char>, b: Board<T>, sol: Seq<char>)
    requires
        board::puzzle_ok(p),
        forall|i: int|
            0 <= i < 81 && #[trigger] p[i] != '.' ==> b.0@[i].fixed_spec() && b.0@[i].value_spec()
                == board::value_of_char(p[i]),
        search::extends_fixed(sol, b.0@),
    ensures
        forall|i: int| 0 <= i < 81 && #[trigger] p[i] != '.' ==> sol[i] == p[i],
{
    assert forall|i: int| 0 <= i < 81 && #[trigger] p[i] != '.' implies sol[i] == p[i] by {
        assert(b.0@[i].fixed_spec());
        assert(sol[i] == board::char_of_value(b.0@[i].value_spec()));
        assert(p[i] == '.' || board::is_digit_char(p[i]));
    }
}

/// When the search space of a freshly parsed board holds no solution at
/// all, no solution string for the puzzle exists either.
pub proof fn lemma_no_assignment_no_string<T: board::cell::IsCell>(
    p: Seq<char>,
    b: Board<T>,
    sol: Seq<char>,
)
    requires
        board::puzzle_ok(p),
        b.0@.len() == 81,
        forall|i: int| 0 <= i < 81 ==> (#[trigger] b.0@[i]).value_spec() == board::value_of_char(
            p[i],
        ),
        forall|i: int| 0 <= i < 81 ==> (#[trigger] b.0@[i]).fixed_spec() == (p[i] != '.'),
        forall|i: int, d: int| 0 <= i < 81 && 1 <= d <= 9 ==> (#[trigger] b.0@[i].allows(d)),
        forall|a: Seq<int>| !search::is_sol(a, b.0@),
    ensures
        !crate::solvers::is_solution_of(sol, p),
{
    if crate::solvers::is_solution_of(sol, p) {
        let a = Seq::new(81, |i: int| board::cell::digit_of(board::value_of_char(sol[i])));
        assert(search::asg_wf(a)) by {
            assert forall|i: int| 0 <= i < 81 implies 1 <= #[trigger] a[i] <= 9 by {
                assert(board::is_digit_char(sol[i]));
            }
        }
        assert(search::asg_no_dup(a)) by {
            assert forall|i: int, j: int|
                0 <= i < 81 && 0 <= j < 81 && i != j && board::same_unit(i, j) implies a[i]
                != a[j] by {
                assert(sol[i] != sol[j]);
                assert(board::is_digit_char(sol[i]) && board::is_digit_char(sol[j]));
            }
        }
        assert(search::asg_matches_fixed(a, b.0@)) by {
            assert forall|i: int|
                0 <= i < 81 && (#[trigger] b.0@[i]).fixed_spec() implies a[i]
                == board::cell::digit_of(b.0@[i].value_spec()) by {
                assert(p[i] != '.');
                assert(sol[i] == p[i]);
            }
        }
        assert(search::asg_allowed(a, b.0@)) by {
            assert forall|i: int|
                0 <= i < 81 && !(#[trigger] b.0@[i]).fixed_spec() implies b.0@[i].allows(a[i]) by {
                assert(board::is_digit_char(sol[i]));
                assert(1 <= a[i] <= 9);
            }
        }
        assert(search::is_sol(a, b.0@));
        assert(false);
    }
}

impl Solver for BacktrackingSolver {
    fn name(&self) -> &'static str {
        "backtracking"
    }

    fn solve(&self, puzzle: &'static str) -> (r: Result<(bool, String), &'static str>) {
        let mut board = match Board::<SimpleCell>::parse_puzzle_string(puzzle) {
            Err(error) => {
                return Err(error);
            },
            Ok(b) => b,
        };
        proof {
            lemma_parsed_board_ready(puzzle@, board);
        }
        let ghost b0 = board;
        let outcome = search::run_search(&mut board);
        proof {
            if outcome.0 {
                lemma_extends_givens(puzzle@, b0, outcome.1@);
            } else {
                assert forall|sol: Seq<char>| !crate::solvers::is_solution_of(sol, puzzle@) by {
                    lemma_no_assignment_no_string(puzzle@, b0, sol);
                }
            }
        }
        Ok(outcome)
    }
}

} // verus!
