//! A verified 9x9 Sudoku constraint-satisfaction engine.
//!
//! Puzzles arrive as 81-character strings (digits `'1'`-`'9'` for given
//! cells, `'.'` for blanks). Four backtracking solver variants share one
//! grid abstraction and one search loop; the constrained variants run a
//! candidate-elimination pass before searching. Every solver either
//! produces a completed grid that provably satisfies the Sudoku rules and
//! extends the given digits, or reports the puzzle unsolvable — and that
//! report is itself verified: it comes with a proof that no solution
//! exists.

pub mod board;
pub mod solvers;
