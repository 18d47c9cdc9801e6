//! The candidate-bearing cell used by the constrained solver variants.
//!
//! Beside the digit slot it carries a per-digit candidate map; `increment`
//! skips digits that propagation has ruled out.

use crate::board::cell::{self, CellPosition, CellValue, IncrementResult, IsCell};
use crate::board::{unit_cell, Board};
use vstd::prelude::*;

verus! {

/// Whether a digit is still available for a cell.
#[derive(Clone, Copy, PartialEq, Eq, Structural, Debug)]
pub enum ValueConstraint {
    Allowed,
    FixedNotAllowed,
}

/// A cell with a candidate map over the digits `1..=9`.
///
/// Slot 0 of `value_constraint_map` is ignored so that digit `d` indexes
/// slot `d` directly.
#[derive(Clone, Copy, Debug)]
pub struct ConstrainedCell {
    pub value: CellValue,
    pub fixed: bool,
    pub position: CellPosition,
    pub value_constraint_map: [ValueConstraint; 10],
}

impl ConstrainedCell {
    /// The next candidate digit at or after `from`, clamped to `1..=9`;
    /// `None` when every digit from there on is ruled out.
    pub fn get_next_not_constrained(&self, from: i8) -> (r: Option<i8>)
        ensures
            match r {
                Some(w) => {
                    &&& 1 <= w <= 9
                    &&& from <= w
                    &&& self.allows(w as int)
                    &&& forall|d: int| from <= d < w && 1 <= d ==> !self.allows(d)
                },
                None => forall|d: int| from <= d <= 9 ==> !self.allows(d),
            },
    {
        let start: i8 = if from < 1 {
            1
        } else if from > 9 {
            return None;
        } else {
            from
        };
        let mut val: i8 = start;
        while val <= 9
            invariant
                start <= val <= 10,
                1 <= start <= 9,
                from <= start,
                from < 1 ==> start == 1,
                forall|d: int| from <= d < val && 1 <= d ==> !self.allows(d),
            decreases 10 - val,
        {
            if self.value_constraint_map[val as usize] == ValueConstraint::Allowed {
                return Some(val);
            }
            val = val + 1;
        }
        None
    }
}

impl IsCell for ConstrainedCell {
    open spec fn value_spec(&self) -> CellValue {
        self.value
    }

    open spec fn fixed_spec(&self) -> bool {
        self.fixed
    }

    open spec fn position_spec(&self) -> CellPosition {
        self.position
    }

    open spec fn allows(&self, d: int) -> bool {
        1 <= d <= 9 && self.value_constraint_map[d] == ValueConstraint::Allowed
    }

    fn value(&self) -> (v: &CellValue) {
        &self.value
    }

    fn is_fixed(&self) -> (f: bool) {
        self.fixed
    }

    fn position(&self) -> (p: CellPosition) {
        self.position
    }

    fn init(value: CellValue, fixed: bool, position: CellPosition) -> (c: Self) {
        ConstrainedCell {
            value,
            fixed,
            position,
            value_constraint_map: [
                ValueConstraint::Allowed,
                ValueConstraint::Allowed,
                ValueConstraint::Allowed,
                ValueConstraint::Allowed,
                ValueConstraint::Allowed,
                ValueConstraint::Allowed,
                ValueConstraint::Allowed,
                ValueConstraint::Allowed,
                ValueConstraint::Allowed,
                ValueConstraint::Allowed,
            ],
        }
    }

    fn increment(&mut self) -> (r: IncrementResult)
        ensures
            r.is_board_valid == cell::is_filled(final(self).value_spec()),
    {
        match self.value {
            CellValue::Empty => match self.get_next_not_constrained(1) {
                None => {
                    self.value = CellValue::Empty;
                    IncrementResult { is_board_valid: false, needs_revalidation: false }
                },
                Some(new_val) => {
                    self.value = CellValue::Filled(new_val);
                    IncrementResult { is_board_valid: true, needs_revalidation: true }
                },
            },
            CellValue::Filled(val) => {
                if val >= 9 {
                    self.value = CellValue::Empty;
                    IncrementResult { is_board_valid: false, needs_revalidation: false }
                } else {
                    match self.get_next_not_constrained(val + 1) {
                        None => {
                            self.value = CellValue::Empty;
                            IncrementResult { is_board_valid: false, needs_revalidation: false }
                        },
                        Some(new_val) => {
                            self.value = CellValue::Filled(new_val);
                            IncrementResult { is_board_valid: true, needs_revalidation: true }
                        },
                    }
                }
            },
        }
    }
}


/// Whether bit `d` of a forbidden mask is set.
pub open spec fn bit(m: u16, d: int) -> bool {
    0 <= d <= 15 && ((m >> (d as u16)) & 1u16) == 1u16
}

/// Some filled cell of unit `u` holds digit `d`.
pub open spec fn unit_filled_digit(s: Seq<ConstrainedCell>, u: int, d: int) -> bool {
    exists|k: int|
        0 <= k < 9 && cell::is_filled((#[trigger] s[unit_cell(u, k)]).value_spec())
            && cell::digit_of(s[unit_cell(u, k)].value_spec()) == d
}

/// The mask `m` records exactly the digits already placed in unit `u`.
pub open spec fn unit_mask_ok(s: Seq<ConstrainedCell>, m: u16, u: int) -> bool {
    forall|d: int| 1 <= d <= 9 ==> (#[trigger] bit(m, d) <==> unit_filled_digit(s, u, d))
}

/// All 27 masks are exact: rows, columns, and boxes.
pub open spec fn masks_ok(s: Seq<ConstrainedCell>, rm: Seq<u16>, cm: Seq<u16>, sm: Seq<u16>) -> bool {
    &&& rm.len() == 9
    &&& cm.len() == 9
    &&& sm.len() == 9
    &&& forall|u: int| 0 <= u < 9 ==> #[trigger] unit_mask_ok(s, rm[u], u)
    &&& forall|u: int| 0 <= u < 9 ==> #[trigger] unit_mask_ok(s, cm[u], 9 + u)
    &&& forall|u: int| 0 <= u < 9 ==> #[trigger] unit_mask_ok(s, sm[u], 18 + u)
}

/// No bit is set in a zero mask.
pub proof fn lemma_bit_zero(d: int)
    ensures
        !bit(0u16, d),
{
    if 0 <= d <= 15 {
        let du = d as u16;
        assert(((0u16 >> du) & 1u16) != 1u16) by (bit_vector);
    }
}

/// Oring in `1 << v` sets bit `v` and leaves every other bit alone.
pub proof fn lemma_bit_or_shl(m: u16, v: u16, d: int)
    requires
        1 <= v <= 9,
        0 <= d <= 15,
    ensures
        bit(m | (1u16 << v), d) == (bit(m, d) || d == v as int),
{
    let du = d as u16;
    assert((((m | (1u16 << v)) >> du) & 1u16 == 1u16) == ((m >> du) & 1u16 == 1u16 || du == v))
        by (bit_vector)
        requires
            du <= 15 && 1 <= v <= 9,
    ;
}

/// A bit of an or of masks is a bit of one of them.
pub proof fn lemma_bit_or3(m1: u16, m2: u16, m3: u16, d: int)
    requires
        0 <= d <= 15,
    ensures
        bit(m1 | m2 | m3, d) == (bit(m1, d) || bit(m2, d) || bit(m3, d)),
{
    let du = d as u16;
    assert((((m1 | m2 | m3) >> du) & 1u16 == 1u16) == ((m1 >> du) & 1u16 == 1u16 || (m2 >> du)
        & 1u16 == 1u16 || (m3 >> du) & 1u16 == 1u16)) by (bit_vector)
        requires
            du <= 15,
    ;
}

/// Every queued position indexes a real cell of the grid.
pub open spec fn queued_in_range(q: Seq<CellPosition>) -> bool {
    forall|qi: int|
        0 <= qi < q.len() ==> 0 <= (#[trigger] q[qi]).row < 9 && 0 <= q[qi].column < 9
}

impl ConstrainedCell {
    /// Computes the exact per-unit forbidden masks of a fully fixed
    /// board, records which cells are filled, and queues every open cell
    /// for constraint checking.
    pub fn calculate_forbidden_matrices(
        board: &Board<ConstrainedCell>,
        row_forbidden: &mut [u16; 9],
        col_forbidden: &mut [u16; 9],
        square_forbidden: &mut [u16; 9],
        check_queue: &mut Vec<CellPosition>,
        in_queue: &mut Vec<bool>,
        fixed: &mut Vec<bool>,
    )
        requires
            board.wf(),
            forall|i: int|
                0 <= i < 81 ==> ((#[trigger] board.0@[i]).fixed_spec() == cell::is_filled(
                    board.0@[i].value_spec(),
                )),
            forall|u: int| 0 <= u < 9 ==> old(row_forbidden)@[u] == 0,
            forall|u: int| 0 <= u < 9 ==> old(col_forbidden)@[u] == 0,
            forall|u: int| 0 <= u < 9 ==> old(square_forbidden)@[u] == 0,
            old(check_queue)@.len() == 0,
            old(in_queue)@.len() == 81,
            forall|i: int| 0 <= i < 81 ==> !old(in_queue)@[i],
            old(fixed)@.len() == 81,
        ensures
            masks_ok(
                board.0@,
                final(row_forbidden)@,
                final(col_forbidden)@,
                final(square_forbidden)@,
            ),
            final(in_queue)@.len() == 81,
            final(fixed)@.len() == 81,
            forall|i: int|
                0 <= i < 81 ==> final(fixed)@[i] == cell::is_filled(
                    (#[trigger] board.0@[i]).value_spec(),
                ),
            queued_in_range(final(check_queue)@),
            // The queue holds exactly the open cells, in row-major order,
            // and `in_queue` marks exactly those.
            forall|i: int|
                0 <= i < 81 ==> final(in_queue)@[i] == !cell::is_filled(
                    (#[trigger] board.0@[i]).value_spec(),
                ),
            forall|qi: int|
                0 <= qi < final(check_queue)@.len() ==> 0 <= cell::flat_index(
                    #[trigger] final(check_queue)@[qi],
                ) < 81 && !cell::is_filled(
                    board.0@[cell::flat_index(final(check_queue)@[qi])].value_spec(),
                ) && final(check_queue)@[qi] == crate::board::position_at(
                    cell::flat_index(final(check_queue)@[qi]),
                ),
            forall|q1: int, q2: int|
                0 <= q1 < q2 < final(check_queue)@.len() ==> cell::flat_index(
                    final(check_queue)@[q1],
                ) < cell::flat_index(final(check_queue)@[q2]),
            forall|i: int|
                0 <= i < 81 && !cell::is_filled((#[trigger] board.0@[i]).value_spec())
                    ==> exists|qi: int|
                    0 <= qi < final(check_queue)@.len() && cell::flat_index(
                        #[trigger] final(check_queue)@[qi],
                    ) == i,
    {
        let mut u: usize = 0;
        while u < 9
            invariant
                board.wf(),
                0 <= u <= 9,
                row_forbidden@.len() == 9,
                forall|u2: int| u <= u2 < 9 ==> row_forbidden@[u2] == 0,
                forall|u2: int|
                    0 <= u2 < u ==> #[trigger] unit_mask_ok(board.0@, row_forbidden@[u2], u2),
            decreases 9 - u,
        {
            let m = Self::unit_mask(board, u as i8, 0);
            row_forbidden[u] = m;
            u = u + 1;
        }
        let mut u: usize = 0;
        while u < 9
            invariant
                board.wf(),
                0 <= u <= 9,
                col_forbidden@.len() == 9,
                forall|u2: int| u <= u2 < 9 ==> col_forbidden@[u2] == 0,
                forall|u2: int|
                    0 <= u2 < u ==> #[trigger] unit_mask_ok(board.0@, col_forbidden@[u2], 9 + u2),
            decreases 9 - u,
        {
            let m = Self::unit_mask(board, u as i8, 1);
            col_forbidden[u] = m;
            u = u + 1;
        }
        let mut u: usize = 0;
        while u < 9
            invariant
                board.wf(),
                0 <= u <= 9,
                square_forbidden@.len() == 9,
                forall|u2: int| u <= u2 < 9 ==> square_forbidden@[u2] == 0,
                forall|u2: int|
                    0 <= u2 < u ==> #[trigger] unit_mask_ok(
                        board.0@,
                        square_forbidden@[u2],
                        18 + u2,
                    ),
            decreases 9 - u,
        {
            let m = Self::unit_mask(board, u as i8, 2);
            square_forbidden[u] = m;
            u = u + 1;
        }
        let mut i: usize = 0;
        while i < 81
            invariant
                board.wf(),
                0 <= i <= 81,
                in_queue@.len() == 81,
                fixed@.len() == 81,
                forall|j: int|
                    0 <= j < i ==> fixed@[j] == cell::is_filled(
                        (#[trigger] board.0@[j]).value_spec(),
                    ),
                queued_in_range(check_queue@),
                forall|j: int|
                    0 <= j < i ==> in_queue@[j] == !cell::is_filled(
                        (#[trigger] board.0@[j]).value_spec(),
                    ),
                forall|j: int| i <= j < 81 ==> !in_queue@[j],
                forall|qi: int|
                    0 <= qi < check_queue@.len() ==> 0 <= cell::flat_index(
                        #[trigger] check_queue@[qi],
                    ) < i && !cell::is_filled(
                        board.0@[cell::flat_index(check_queue@[qi])].value_spec(),
                    ) && check_queue@[qi] == crate::board::position_at(
                        cell::flat_index(check_queue@[qi]),
                    ),
                forall|q1: int, q2: int|
                    0 <= q1 < q2 < check_queue@.len() ==> cell::flat_index(check_queue@[q1])
                        < cell::flat_index(check_queue@[q2]),
                forall|j: int|
                    0 <= j < i && !cell::is_filled((#[trigger] board.0@[j]).value_spec())
                        ==> exists|qi: int|
                        0 <= qi < check_queue@.len() && cell::flat_index(
                            #[trigger] check_queue@[qi],
                        ) == j,
            decreases 81 - i,
        {
            let c = &board.0[i];
            if matches!(*c.value(), CellValue::Filled(_)) {
                fixed[i] = true;
            } else {
                fixed[i] = false;
                let p = c.position();
                proof {
                    assert(p == crate::board::position_at(i as int));
                    assert(cell::flat_index(p) == i as int) by {
                        assert(p.row == i as int / 9 && p.column == i as int % 9);
                    }
                }
                let ghost q0 = check_queue@;
                check_queue.push(p);
                in_queue[i] = true;
                proof {
                    let q = check_queue@;
                    assert(q[q.len() - 1] == p);
                    assert forall|j: int|
                        0 <= j < i + 1 && !cell::is_filled(
                            (#[trigger] board.0@[j]).value_spec(),
                        ) implies exists|qi: int|
                        0 <= qi < q.len() && cell::flat_index(#[trigger] q[qi]) == j by {
                        if j == i as int {
                            assert(cell::flat_index(q[q.len() - 1]) == j);
                        } else {
                            let qi0 = choose|qi: int|
                                0 <= qi < q0.len() && cell::flat_index(#[trigger] q0[qi]) == j;
                            assert(cell::flat_index(q[qi0]) == j);
                        }
                    }
                }
            }
            i = i + 1;
        }
    }

    /// The forbidden mask of one unit, read straight off the grid:
    /// `kind` 0 reads row `u`, 1 reads column `u`, 2 reads box `u`.
    fn unit_mask(board: &Board<ConstrainedCell>, u: i8, kind: u8) -> (m: u16)
        requires
            board.wf(),
            0 <= u < 9,
            kind < 3,
        ensures
            unit_mask_ok(board.0@, m, kind as int * 9 + u as int),
    {
        let ghost uu = kind as int * 9 + u as int;
        let mut m: u16 = 0;
        let mut k: usize = 0;
        proof {
            assert forall|d: int| 1 <= d <= 9 implies !bit(0u16, d) by {
                lemma_bit_zero(d);
            }
        }
        while k < 9
            invariant
                board.wf(),
                0 <= u < 9,
                kind < 3,
                uu == kind as int * 9 + u as int,
                0 <= k <= 9,
                forall|k2: int| 0 <= k2 < 9 ==> 0 <= #[trigger] unit_cell(uu, k2) < 81,
                forall|d: int|
                    1 <= d <= 9 ==> (#[trigger] bit(m, d) <==> exists|k2: int|
                        0 <= k2 < k && cell::is_filled(
                            (#[trigger] board.0@[unit_cell(uu, k2)]).value_spec(),
                        ) && cell::digit_of(board.0@[unit_cell(uu, k2)].value_spec()) == d),
            decreases 9 - k,
        {
            let idx: usize = if kind == 0 {
                (u as usize) * 9 + k
            } else if kind == 1 {
                k * 9 + (u as usize)
            } else {
                ((u as usize) / 3 * 3 + k / 3) * 9 + ((u as usize) % 3 * 3 + k % 3)
            };
            proof {
                assert(idx == unit_cell(uu, k as int));
            }
            let c = &board.0[idx];
            match *c.value() {
                CellValue::Empty => {},
                CellValue::Filled(val) => {
                    let ghost m_old = m;
                    m = m | (1u16 << (val as u16));
                    proof {
                        assert forall|d: int| 1 <= d <= 9 implies (#[trigger] bit(m, d)
                            <==> exists|k2: int|
                            0 <= k2 < k + 1 && cell::is_filled(
                                (#[trigger] board.0@[unit_cell(uu, k2)]).value_spec(),
                            ) && cell::digit_of(board.0@[unit_cell(uu, k2)].value_spec())
                                == d) by {
                            lemma_bit_or_shl(m_old, val as u16, d);
                        }
                    }
                },
            }
            k = k + 1;
        }
        proof {
            assert forall|d: int| 1 <= d <= 9 implies (#[trigger] bit(m, d) <==> unit_filled_digit(
                board.0@,
                uu,
                d,
            )) by {
            }
        }
        m
    }
}

} // verus!
