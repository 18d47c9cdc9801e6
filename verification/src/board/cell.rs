//! Cell state machines shared by the solver variants.
//!
//! A cell holds a digit slot together with a `fixed` flag; `increment` is
//! the single state-transition operation the search uses to advance a
//! cell to its next viable digit, or to reset it to empty when its
//! candidates are exhausted.

use vstd::prelude::*;

pub mod constrained_cell;
pub mod simple_cell;

verus! {

/// The content of a digit slot: empty, or filled with a digit.
#[derive(Clone, Copy, PartialEq, Eq, Structural, Debug)]
pub enum CellValue {
    Empty,
    Filled(i8),
}

/// A grid coordinate; `row` and `column` both range over `0..9`.
#[derive(Clone, Copy, PartialEq, Eq, Structural, Debug)]
pub struct CellPosition {
    pub row: i8,
    pub column: i8,
}

/// What an `increment` call reports back to the search loop.
pub struct IncrementResult {
    pub is_board_valid: bool,
    pub needs_revalidation: bool,
}

/// The flat cell index a position denotes.
pub open spec fn flat_index(p: CellPosition) -> int {
    p.row * 9 + p.column
}

/// The digit a cell value holds, with `Empty` reading as 0.
pub open spec fn digit_of(v: CellValue) -> int {
    match v {
        CellValue::Empty => 0,
        CellValue::Filled(d) => d as int,
    }
}

/// True when the value holds a digit.
pub open spec fn is_filled(v: CellValue) -> bool {
    match v {
        CellValue::Empty => false,
        CellValue::Filled(_) => true,
    }
}

/// A well-formed cell value is empty or holds a digit in `1..=9`.
pub open spec fn value_wf(v: CellValue) -> bool {
    match v {
        CellValue::Empty => true,
        CellValue::Filled(d) => 1 <= d <= 9,
    }
}

/// The capability interface shared by the plain and the candidate-bearing
/// cell: read the value, the fixed flag and the position, construct a
/// fresh cell, and advance to the next viable digit.
pub trait IsCell: Sized + Clone {
    /// The current value.
    spec fn value_spec(&self) -> CellValue;

    /// Whether the cell is pinned (a given, or promoted by propagation).
    spec fn fixed_spec(&self) -> bool;

    /// The cell's coordinate on the grid.
    spec fn position_spec(&self) -> CellPosition;

    /// Whether digit `d` is still a candidate for this cell.
    spec fn allows(&self, d: int) -> bool;

    fn value(&self) -> (v: &CellValue)
        ensures
            *v == self.value_spec(),
    ;

    fn is_fixed(&self) -> (f: bool)
        ensures
            f == self.fixed_spec(),
    ;

    fn position(&self) -> (p: CellPosition)
        ensures
            p == self.position_spec(),
    ;

    fn init(value: CellValue, fixed: bool, position: CellPosition) -> (c: Self)
        ensures
            c.value_spec() == value,
            c.fixed_spec() == fixed,
            c.position_spec() == position,
            forall|d: int| 1 <= d <= 9 ==> c.allows(d),
    ;

    /// Advance to the next viable digit after the current value, or reset
    /// to empty when no candidate is left. A fixed cell never receives
    /// this call.
    fn increment(&mut self) -> (r: IncrementResult)
        requires
            !old(self).fixed_spec(),
            value_wf(old(self).value_spec()),
        ensures
            final(self).fixed_spec() == old(self).fixed_spec(),
            final(self).position_spec() == old(self).position_spec(),
            forall|d: int| final(self).allows(d) == old(self).allows(d),
            r.needs_revalidation == is_filled(final(self).value_spec()),
            !r.needs_revalidation ==> final(self).value_spec() == CellValue::Empty
                && !r.is_board_valid,
            old(self).value_spec() == CellValue::Empty && final(self).value_spec()
                == CellValue::Empty ==> *final(self) == *old(self),
            match final(self).value_spec() {
                CellValue::Filled(w) => digit_of(old(self).value_spec()) < w <= 9
                    && old(self).allows(w as int)
                    && forall|d: int|
                        digit_of(old(self).value_spec()) < d < w ==> !old(self).allows(d),
                CellValue::Empty => forall|d: int|
                    digit_of(old(self).value_spec()) < d <= 9 ==> !old(self).allows(d),
            },
    ;
}

} // verus!
