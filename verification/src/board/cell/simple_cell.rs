//! The plain cell used by the unconstrained backtracking solver: every
//! digit in `1..=9` is always a candidate.

use crate::board::cell::{CellPosition, CellValue, IncrementResult, IsCell};
use vstd::prelude::*;

verus! {

#[derive(Clone, Copy, Debug)]
pub struct SimpleCell {
    pub value: CellValue,
    pub fixed: bool,
    pub position: CellPosition,
}

impl IsCell for SimpleCell {
    open spec fn value_spec(&self) -> CellValue {
        self.value
    }

    open spec fn fixed_spec(&self) -> bool {
        self.fixed
    }

    open spec fn position_spec(&self) -> CellPosition {
        self.position
    }

    open spec fn allows(&self, d: int) -> bool {
        1 <= d <= 9
    }

    fn value(&self) -> (v: &CellValue) {
        &self.value
    }

    fn is_fixed(&self) -> (f: bool) {
        self.fixed
    }

    fn position(&self) -> (p: CellPosition) {
        self.position
    }

    fn init(value: CellValue, fixed: bool, position: CellPosition) -> (c: Self) {
        SimpleCell { value, fixed, position }
    }

    fn increment(&mut self) -> (r: IncrementResult)
        ensures
            r.is_board_valid == (old(self).value_spec() == CellValue::Empty),
    {
        match self.value {
            CellValue::Empty => {
                self.value = CellValue::Filled(1);
                IncrementResult { is_board_valid: true, needs_revalidation: true }
            },
            CellValue::Filled(val) => {
                if val >= 9 {
                    self.value = CellValue::Empty;
                    IncrementResult { is_board_valid: false, needs_revalidation: false }
                } else {
                    self.value = CellValue::Filled(val + 1);
                    IncrementResult { is_board_valid: false, needs_revalidation: true }
                }
            },
        }
    }
}

} // verus!
