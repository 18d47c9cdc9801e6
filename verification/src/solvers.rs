//! The solver variants and their registry.
//!
//! Four fixed assemblies of the engine solve a puzzle string: plain
//! backtracking, backtracking after naked-single propagation, after
//! naked- plus hidden-single propagation, and after full-grid rescan
//! propagation. A closed enum dispatches from a case-insensitive name.

use crate::board;
use crate::solvers::backtracking::BacktrackingSolver;
use crate::solvers::cell_eliminated_backtracking::CellEliminatedBacktrackingSolver;
use crate::solvers::constrained_backtracking::ConstrainedBackTrackingSolver;
use crate::solvers::group_eliminated_backtracking::GroupEliminatedBacktrackingSolver;
use vstd::prelude::*;
use vstd::string::StrSliceExecFns;
use vstd::string::StringExecFns;

pub mod backtracking;
pub mod cell_eliminated_backtracking;
pub mod constrained_backtracking;
pub mod group_eliminated_backtracking;
pub mod propagation;
pub mod search;

verus! {

/// The solution is a completed rule-satisfying grid that keeps every
/// given digit of the puzzle in place.
pub open spec fn is_solution_of(sol: Seq<char>, p: Seq<char>) -> bool {
    &&& search::solution_chars_ok(sol)
    &&& forall|i: int| 0 <= i < 81 && #[trigger] p[i] != '.' ==> sol[i] == p[i]
}

/// The common contract of every solver variant: malformed input yields
/// the parser's error, a `true` outcome carries a genuine solution, and
/// a `false` outcome carries the empty string and certifies that the
/// puzzle has no solution.
pub open spec fn solve_ensures(p: Seq<char>, r: Result<(bool, String), &'static str>) -> bool {
    &&& (r is Ok <==> board::puzzle_ok(p))
    &&& (p.len() != 81 ==> (r matches Err(e) && e@ == "Input string has the wrong length."@))
    &&& (p.len() == 81 && board::has_bad_char(p) ==> (r matches Err(e) && e@
        == "Invalid char in input string."@))
    &&& (p.len() == 81 && !board::has_bad_char(p) && board::has_zero_char(p) ==> (r matches Err(e)
        && e@ == "Found 0 in input string."@))
    &&& (r matches Ok(out) ==> {
        &&& (out.0 ==> is_solution_of(out.1@, p))
        &&& (!out.0 ==> out.1@ == Seq::<char>::empty() && forall|sol: Seq<char>|
            !is_solution_of(sol, p))
    })
}

/// A strategy that takes a puzzle string to an outcome: solved with a
/// solution string, exhausted, or rejected as malformed.
pub trait Solver {
    fn name(&self) -> &'static str;

    fn solve(&self, board: &'static str) -> (r: Result<(bool, String), &'static str>)
        ensures
            solve_ensures(board@, r),
    ;
}

/// Case-insensitive match against an ASCII lowercase name.
pub open spec fn char_matches_ci(a: char, b: char) -> bool {
    a == b || (97 <= b as int <= 122 && a as int == b as int - 32)
}

/// `a` spells `b` up to ASCII case.
pub open spec fn str_eq_ci(a: Seq<char>, b: Seq<char>) -> bool {
    a.len() == b.len() && forall|i: int| 0 <= i < a.len() ==> char_matches_ci(#[trigger] a[i], b[i])
}

/// Compares a string against an ASCII lowercase name, ignoring ASCII
/// case in the first operand.
fn eq_ignore_ascii_case(s: &str, name: &str) -> (r: bool)
    ensures
        r == str_eq_ci(s@, name@),
{
    let ls = s.unicode_len();
    let ln = name.unicode_len();
    if ls != ln {
        return false;
    }
    let mut i: usize = 0;
    while i < ls
        invariant
            s@.len() == ls,
            name@.len() == ls,
            0 <= i <= ls,
            forall|j: int| 0 <= j < i ==> char_matches_ci(#[trigger] s@[j], name@[j]),
        decreases ls - i,
    {
        let a = s.get_char(i) as u32;
        let b = name.get_char(i) as u32;
        let matches_here = a == b || (97 <= b && b <= 122 && a == b - 32);
        if !matches_here {
            return false;
        }
        i = i + 1;
    }
    true
}

/// The closed set of solver strategies the registry can hand out.
pub enum SolverKind {
    Backtracking(BacktrackingSolver),
    CellEliminated(CellEliminatedBacktrackingSolver),
    GroupEliminated(GroupEliminatedBacktrackingSolver),
    ConstrainedBacktracking(ConstrainedBackTrackingSolver),
}

impl SolverKind {
    /// Runs the selected strategy on the puzzle.
    pub fn solve(&self, board: &'static str) -> (r: Result<(bool, String), &'static str>)
        ensures
            solve_ensures(board@, r),
    {
        match self {
            SolverKind::Backtracking(s) => s.solve(board),
            SolverKind::CellEliminated(s) => s.solve(board),
            SolverKind::GroupEliminated(s) => s.solve(board),
            SolverKind::ConstrainedBacktracking(s) => s.solve(board),
        }
    }

    /// The registry name of the selected strategy.
    pub fn name(&self) -> &'static str {
        match self {
            SolverKind::Backtracking(s) => s.name(),
            SolverKind::CellEliminated(s) => s.name(),
            SolverKind::GroupEliminated(s) => s.name(),
            SolverKind::ConstrainedBacktracking(s) => s.name(),
        }
    }
}

/// Looks a solver up by its case-insensitive registry name; an unknown
/// name is rejected with a descriptive message.
pub fn get_solver(s: &str) -> (r: Result<SolverKind, String>)
    ensures
        str_eq_ci(s@, "backtracking"@) ==> (r matches Ok(k) && k is Backtracking),
        !str_eq_ci(s@, "backtracking"@) && str_eq_ci(s@, "celleliminated"@) ==> (r matches Ok(k)
            && k is CellEliminated),
        !str_eq_ci(s@, "backtracking"@) && !str_eq_ci(s@, "celleliminated"@) && str_eq_ci(
            s@,
            "groupeliminated"@,
        ) ==> (r matches Ok(k) && k is GroupEliminated),
        !str_eq_ci(s@, "backtracking"@) && !str_eq_ci(s@, "celleliminated"@) && !str_eq_ci(
            s@,
            "groupeliminated"@,
        ) && str_eq_ci(s@, "constrainedbacktracking"@) ==> (r matches Ok(k)
            && k is ConstrainedBacktracking),
        !str_eq_ci(s@, "backtracking"@) && !str_eq_ci(s@, "celleliminated"@) && !str_eq_ci(
            s@,
            "groupeliminated"@,
        ) && !str_eq_ci(s@, "constrainedbacktracking"@) ==> (r matches Err(e) && e@
            == "Unknown solver type: "@ + s@),
{
    if eq_ignore_ascii_case(s, "backtracking") {
        Ok(SolverKind::Backtracking(BacktrackingSolver))
    } else if eq_ignore_ascii_case(s, "celleliminated") {
        Ok(SolverKind::CellEliminated(CellEliminatedBacktrackingSolver))
    } else if eq_ignore_ascii_case(s, "groupeliminated") {
        Ok(SolverKind::GroupEliminated(GroupEliminatedBacktrackingSolver))
    } else if eq_ignore_ascii_case(s, "constrainedbacktracking") {
        Ok(SolverKind::ConstrainedBacktracking(ConstrainedBackTrackingSolver))
    } else {
        let msg = "Unknown solver type: ".to_owned();
        Err(msg.concat(s))
    }
}


/// Cross-solver agreement: any two solver runs on one puzzle agree on
/// the success flag, and, whenever the puzzle has at most one solution,
/// on the solution string as well, whatever variants produced them.
pub proof fn lemma_solvers_agree(
    p: Seq<char>,
    r1: Result<(bool, String), &'static str>,
    r2: Result<(bool, String), &'static str>,
    s1: (bool, String),
    s2: (bool, String),
)
    requires
        solve_ensures(p, r1),
        solve_ensures(p, r2),
        r1 == Result::<(bool, String), &'static str>::Ok(s1),
        r2 == Result::<(bool, String), &'static str>::Ok(s2),
    ensures
        s1.0 == s2.0,
        s1.0 && s2.0 && (forall|a: Seq<char>, b: Seq<char>|
            is_solution_of(a, p) && is_solution_of(b, p) ==> a == b) ==> s1.1@ == s2.1@,
{
    if s1.0 != s2.0 {
        if s1.0 {
            assert(is_solution_of(s1.1@, p));
        } else {
            assert(is_solution_of(s2.1@, p));
        }
        assert(false);
    }
    if s1.0 && s2.0 {
        assert(is_solution_of(s1.1@, p));
        assert(is_solution_of(s2.1@, p));
    }
}

} // verus!
