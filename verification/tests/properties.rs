use sudoku_solver::board::cell::constrained_cell::ConstrainedCell;
use sudoku_solver::board::cell::simple_cell::SimpleCell;
use sudoku_solver::board::Board;
use sudoku_solver::solvers::backtracking::BacktrackingSolver;
use sudoku_solver::solvers::cell_eliminated_backtracking::CellEliminatedBacktrackingSolver;
use sudoku_solver::solvers::constrained_backtracking::ConstrainedBackTrackingSolver;
use sudoku_solver::solvers::group_eliminated_backtracking::GroupEliminatedBacktrackingSolver;
use sudoku_solver::solvers::{get_solver, Solver};

const PUZZLE: &str = "8..45.6...3.68.......3.28.11.....2...6.....5...9.....89.78.6.......29.7...6.34..9";
const SOLUTION: &str =
    "891457632234681597675392841183975264762148953459263718947816325318529476526734189";
const IMPOSSIBLE: &str =
    "4..45.6...3.68.......3.28.11.....2...6.....5...9.....89.78.6.......29.7...6.34..9";

#[test]
fn parse_then_serialize_round_trips() {
    let board = Board::<SimpleCell>::parse_puzzle_string(PUZZLE).unwrap();
    assert_eq!(board.to_str(), PUZZLE);
    let board = Board::<ConstrainedCell>::parse_puzzle_string(SOLUTION).unwrap();
    assert_eq!(board.to_str(), SOLUTION);
}

#[test]
fn solvers_are_deterministic() {
    assert_eq!(
        BacktrackingSolver.solve(PUZZLE).unwrap(),
        BacktrackingSolver.solve(PUZZLE).unwrap()
    );
    assert_eq!(
        CellEliminatedBacktrackingSolver.solve(PUZZLE).unwrap(),
        CellEliminatedBacktrackingSolver.solve(PUZZLE).unwrap()
    );
    assert_eq!(
        GroupEliminatedBacktrackingSolver.solve(PUZZLE).unwrap(),
        GroupEliminatedBacktrackingSolver.solve(PUZZLE).unwrap()
    );
    assert_eq!(
        ConstrainedBackTrackingSolver.solve(PUZZLE).unwrap(),
        ConstrainedBackTrackingSolver.solve(PUZZLE).unwrap()
    );
    assert_eq!(
        BacktrackingSolver.solve(IMPOSSIBLE).unwrap(),
        BacktrackingSolver.solve(IMPOSSIBLE).unwrap()
    );
}

#[test]
fn all_registered_solvers_agree() {
    let names = [
        "backtracking",
        "celleliminated",
        "groupeliminated",
        "constrainedbacktracking",
    ];
    for name in names {
        let solver = get_solver(name).unwrap();
        let (solved, result) = solver.solve(PUZZLE).unwrap();
        assert!(solved, "{name} did not solve the solvable puzzle");
        assert_eq!(result, SOLUTION, "{name} disagreed on the solution");
        let (solved, _) = solver.solve(IMPOSSIBLE).unwrap();
        assert!(!solved, "{name} solved the impossible puzzle");
    }
}

fn boards_equal(a: &Board<ConstrainedCell>, b: &Board<ConstrainedCell>) -> bool {
    if a.0.len() != b.0.len() {
        return false;
    }
    for i in 0..a.0.len() {
        let ca = &a.0[i];
        let cb = &b.0[i];
        if ca.value != cb.value || ca.fixed != cb.fixed {
            return false;
        }
        for d in 0..10 {
            if ca.value_constraint_map[d] != cb.value_constraint_map[d] {
                return false;
            }
        }
    }
    true
}

#[test]
fn naked_single_propagation_is_idempotent() {
    let mut board = Board::<ConstrainedCell>::parse_puzzle_string(PUZZLE).unwrap();
    CellEliminatedBacktrackingSolver::calculate_fixed_board_constrains_until_stable(&mut board);
    let mut again = Board::<ConstrainedCell>(board.0.clone());
    CellEliminatedBacktrackingSolver::calculate_fixed_board_constrains_until_stable(&mut again);
    assert!(boards_equal(&board, &again));
}

#[test]
fn hidden_single_propagation_only_refines_on_a_rerun() {
    // The hidden-single pass reads a snapshot of which cells were fixed
    // when it started, so a re-run may promote further cells; it must
    // still keep every fixed cell and only shrink candidate maps.
    let mut board = Board::<ConstrainedCell>::parse_puzzle_string(PUZZLE).unwrap();
    GroupEliminatedBacktrackingSolver::calculate_fixed_board_constrains_until_stable(&mut board);
    let mut again = Board::<ConstrainedCell>(board.0.clone());
    GroupEliminatedBacktrackingSolver::calculate_fixed_board_constrains_until_stable(&mut again);
    for i in 0..81 {
        let before = &board.0[i];
        let after = &again.0[i];
        if before.fixed {
            assert!(after.fixed);
            assert_eq!(after.value, before.value);
        }
        for d in 1..10 {
            if after.value_constraint_map[d] == sudoku_solver::board::cell::constrained_cell::ValueConstraint::Allowed {
                assert_eq!(
                    before.value_constraint_map[d],
                    sudoku_solver::board::cell::constrained_cell::ValueConstraint::Allowed
                );
            }
        }
    }
}

#[test]
fn rescan_propagation_is_idempotent() {
    let mut board = Board::<ConstrainedCell>::parse_puzzle_string(PUZZLE).unwrap();
    ConstrainedBackTrackingSolver::calculate_fixed_board_constrains_until_stable(&mut board);
    let mut again = Board::<ConstrainedCell>(board.0.clone());
    ConstrainedBackTrackingSolver::calculate_fixed_board_constrains_until_stable(&mut again);
    assert!(boards_equal(&board, &again));
}

#[test]
fn rescan_and_queue_propagation_reach_the_same_fixed_point() {
    // The full-rescan pass and queue-driven naked-single propagation
    // must agree on which cells they promote and to which digits.
    let mut rescan = Board::<ConstrainedCell>::parse_puzzle_string(PUZZLE).unwrap();
    ConstrainedBackTrackingSolver::calculate_fixed_board_constrains_until_stable(&mut rescan);
    let mut queued = Board::<ConstrainedCell>::parse_puzzle_string(PUZZLE).unwrap();
    CellEliminatedBacktrackingSolver::calculate_fixed_board_constrains_until_stable(&mut queued);
    for i in 0..81 {
        assert_eq!(rescan.0[i].value, queued.0[i].value);
        assert_eq!(rescan.0[i].fixed, queued.0[i].fixed);
    }
}

#[test]
fn rescan_propagation_reaches_a_fixed_point() {
    let mut board = Board::<ConstrainedCell>::parse_puzzle_string(PUZZLE).unwrap();
    ConstrainedBackTrackingSolver::calculate_fixed_board_constrains_until_stable(&mut board);
    // Once stable, one more pass reports no change.
    assert!(!ConstrainedBackTrackingSolver::calculate_fixed_board_constrains(
        &mut board
    ));
}

#[test]
fn propagation_promotes_without_conflicts() {
    let mut board = Board::<ConstrainedCell>::parse_puzzle_string(PUZZLE).unwrap();
    GroupEliminatedBacktrackingSolver::calculate_fixed_board_constrains_until_stable(&mut board);
    assert!(board.is_correct());
    let mut board = Board::<ConstrainedCell>::parse_puzzle_string(PUZZLE).unwrap();
    CellEliminatedBacktrackingSolver::calculate_fixed_board_constrains_until_stable(&mut board);
    assert!(board.is_correct());
    let mut board = Board::<ConstrainedCell>::parse_puzzle_string(PUZZLE).unwrap();
    ConstrainedBackTrackingSolver::calculate_fixed_board_constrains_until_stable(&mut board);
    assert!(board.is_correct());
}

#[test]
fn wrong_length_is_rejected_with_its_own_error() {
    let len80: String = PUZZLE.chars().take(80).collect();
    let mut len82: String = PUZZLE.to_string();
    len82.push('1');
    for bad in [len80.as_str(), len82.as_str()] {
        match Board::<SimpleCell>::check_puzzle_string_valid(bad) {
            Err(msg) => assert_eq!(msg, "Input string has the wrong length."),
            Ok(()) => panic!("accepted a puzzle of length {}", bad.len()),
        }
    }
}

#[test]
fn zero_digit_gets_an_error_distinct_from_invalid_char() {
    let with_zero: String = PUZZLE.replacen('.', "0", 1);
    let with_letter: String = PUZZLE.replacen('.', "a", 1);
    let zero_err = Board::<SimpleCell>::check_puzzle_string_valid(&with_zero).unwrap_err();
    let char_err = Board::<SimpleCell>::check_puzzle_string_valid(&with_letter).unwrap_err();
    assert_eq!(zero_err, "Found 0 in input string.");
    assert_eq!(char_err, "Invalid char in input string.");
    assert_ne!(zero_err, char_err);
}

#[test]
fn malformed_input_is_rejected_by_every_solver() {
    for name in [
        "backtracking",
        "celleliminated",
        "groupeliminated",
        "constrainedbacktracking",
    ] {
        let solver = get_solver(name).unwrap();
        assert!(solver.solve("123").is_err());
    }
}

#[test]
fn registry_is_case_insensitive_and_rejects_unknown_names() {
    assert_eq!(get_solver("BackTracking").unwrap().name(), "backtracking");
    assert_eq!(get_solver("CELLELIMINATED").unwrap().name(), "celleliminated");
    assert_eq!(get_solver("GroupEliminated").unwrap().name(), "groupeliminated");
    assert_eq!(
        get_solver("ConstrainedBacktracking").unwrap().name(),
        "constrainedbacktracking"
    );
    match get_solver("simulatedannealing") {
        Ok(_) => panic!("unknown solver name was accepted"),
        Err(err) => assert_eq!(err, "Unknown solver type: simulatedannealing"),
    }
}

#[test]
fn unsolvable_outcome_carries_an_empty_string() {
    let (solved, result) = BacktrackingSolver.solve(IMPOSSIBLE).unwrap();
    assert!(!solved);
    assert_eq!(result, "");
}
