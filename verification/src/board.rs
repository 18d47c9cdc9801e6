//! The 9x9 grid: unit views, duplicate detection, cursor scans, and the
//! puzzle-string codec.

use crate::board::cell::{CellPosition, CellValue, IsCell};
use crate::board::cell::simple_cell::SimpleCell;
use vstd::prelude::*;

pub mod cell;

verus! {

/// A 9x9 grid stored row-major as 81 cells: the cell at row `r`, column
/// `c` sits at index `9 * r + c`.
#[derive(Clone, Debug)]
pub struct Board<T: IsCell>(pub Vec<T>);

/// The flat index of row `r`, column `c`.
pub open spec fn cell_index(r: int, c: int) -> int {
    9 * r + c
}

/// The position every well-formed board keeps at flat index `i`.
pub open spec fn position_at(i: int) -> CellPosition {
    CellPosition { row: (i / 9) as i8, column: (i % 9) as i8 }
}

/// Two filled values that collide on the same digit.
pub open spec fn dup_values(a: CellValue, b: CellValue) -> bool {
    cell::is_filled(a) && cell::is_filled(b) && cell::digit_of(a) == cell::digit_of(b)
}

/// The flat index of the `k`-th cell of unit `u`, where units `0..9` are
/// the rows, `9..18` the columns, and `18..27` the 3x3 boxes.
pub open spec fn unit_cell(u: int, k: int) -> int {
    if u < 9 {
        9 * u + k
    } else if u < 18 {
        9 * k + (u - 9)
    } else {
        9 * (3 * ((u - 18) / 3) + k / 3) + 3 * ((u - 18) % 3) + k % 3
    }
}

/// No two filled cells of unit `u` hold the same digit.
pub open spec fn unit_ok<T: IsCell>(s: Seq<T>, u: int) -> bool {
    forall|k1: int, k2: int|
        0 <= k1 < k2 < 9 ==> !dup_values(
            s[unit_cell(u, k1)].value_spec(),
            s[unit_cell(u, k2)].value_spec(),
        )
}

/// Every row, column and box is free of duplicates.
pub open spec fn grid_ok<T: IsCell>(s: Seq<T>) -> bool {
    forall|u: int| 0 <= u < 27 ==> unit_ok(s, u)
}

/// Flat indices that share a row, a column, or a box.
pub open spec fn same_unit(i: int, j: int) -> bool {
    ||| i / 9 == j / 9
    ||| i % 9 == j % 9
    ||| (i / 27 == j / 27 && (i % 9) / 3 == (j % 9) / 3)
}

/// The cell at `i` is neither fixed nor filled.
pub open spec fn nf_empty<T: IsCell>(s: Seq<T>, i: int) -> bool {
    !s[i].fixed_spec() && !cell::is_filled(s[i].value_spec())
}

/// The cell at `i` is filled but not fixed.
pub open spec fn nf_filled<T: IsCell>(s: Seq<T>, i: int) -> bool {
    !s[i].fixed_spec() && cell::is_filled(s[i].value_spec())
}

/// The first index at or after `i` holding a non-fixed empty cell, or 81.
pub open spec fn first_empty_from<T: IsCell>(s: Seq<T>, i: int) -> int
    decreases 81 - i,
{
    if i >= 81 {
        81
    } else if nf_empty(s, i) {
        i
    } else {
        first_empty_from(s, i + 1)
    }
}

/// The last index at or before `i` holding a non-fixed filled cell, or -1.
pub open spec fn last_filled_from<T: IsCell>(s: Seq<T>, i: int) -> int
    decreases i + 1,
{
    if i < 0 {
        -1
    } else if nf_filled(s, i) {
        i
    } else {
        last_filled_from(s, i - 1)
    }
}

/// What `first_empty_from(s, i)` finds: the nearest non-fixed empty cell,
/// with nothing of the kind before it.
pub proof fn lemma_first_empty_props<T: IsCell>(s: Seq<T>, i: int)
    requires
        0 <= i <= 81,
    ensures
        i <= first_empty_from(s, i) <= 81,
        first_empty_from(s, i) < 81 ==> nf_empty(s, first_empty_from(s, i)),
        forall|j: int| i <= j < first_empty_from(s, i) ==> !nf_empty(s, j),
    decreases 81 - i,
{
    if i < 81 && !nf_empty(s, i) {
        lemma_first_empty_props(s, i + 1);
    }
}

/// What `last_filled_from(s, i)` finds: the nearest non-fixed filled cell
/// going down, with nothing of the kind after it.
pub proof fn lemma_last_filled_props<T: IsCell>(s: Seq<T>, i: int)
    requires
        -1 <= i <= 80,
    ensures
        -1 <= last_filled_from(s, i) <= i,
        last_filled_from(s, i) >= 0 ==> nf_filled(s, last_filled_from(s, i)),
        forall|j: int| last_filled_from(s, i) < j <= i ==> !nf_filled(s, j),
    decreases i + 1,
{
    if i >= 0 && !nf_filled(s, i) {
        lemma_last_filled_props(s, i - 1);
    }
}

/// A group of 9 borrowed cells that mirrors unit `u` of the grid is
/// duplicate-free exactly when that unit is.
pub proof fn lemma_group_matches_unit<T: IsCell>(s: Seq<T>, g: Seq<&T>, u: int)
    requires
        g.len() == 9,
        forall|k: int| 0 <= k < 9 ==> 0 <= #[trigger] unit_cell(u, k) < s.len(),
        forall|k: int| 0 <= k < 9 ==> *(#[trigger] g[k]) == s[unit_cell(u, k)],
    ensures
        (forall|k1: int, k2: int|
            0 <= k1 < k2 < 9 ==> !dup_values((*g[k1]).value_spec(), (*g[k2]).value_spec()))
            == unit_ok(s, u),
{
    if forall|k1: int, k2: int|
        0 <= k1 < k2 < 9 ==> !dup_values((*g[k1]).value_spec(), (*g[k2]).value_spec()) {
        assert forall|k1: int, k2: int| 0 <= k1 < k2 < 9 implies !dup_values(
            s[unit_cell(u, k1)].value_spec(),
            s[unit_cell(u, k2)].value_spec(),
        ) by {
            assert(*g[k1] == s[unit_cell(u, k1)]);
            assert(*g[k2] == s[unit_cell(u, k2)]);
            assert(!dup_values((*g[k1]).value_spec(), (*g[k2]).value_spec()));
        }
    } else {
        let (k1, k2) = choose|k1: int, k2: int|
            0 <= k1 < k2 < 9 && dup_values((*g[k1]).value_spec(), (*g[k2]).value_spec());
        assert(*g[k1] == s[unit_cell(u, k1)]);
        assert(*g[k2] == s[unit_cell(u, k2)]);
        assert(!unit_ok(s, u));
    }
}

/// Unit-wise validity covers every pair of distinct positions that share
/// a row, a column, or a box.
#[verifier::rlimit(60)]
pub proof fn lemma_grid_ok_pairwise<T: IsCell>(s: Seq<T>, i: int, j: int)
    requires
        grid_ok(s),
        0 <= i < 81,
        0 <= j < 81,
        i != j,
        same_unit(i, j),
    ensures
        !dup_values(s[i].value_spec(), s[j].value_spec()),
{
    let r1 = i / 9;
    let c1 = i % 9;
    let r2 = j / 9;
    let c2 = j % 9;
    assert(i == 9 * r1 + c1);
    assert(j == 9 * r2 + c2);
    if r1 == r2 {
        assert(unit_cell(r1, c1) == i);
        assert(unit_cell(r1, c2) == j);
        assert(unit_ok(s, r1));
    } else if c1 == c2 {
        assert(unit_cell(9 + c1, r1) == i);
        assert(unit_cell(9 + c1, r2) == j);
        assert(unit_ok(s, 9 + c1));
    } else {
        let b = 3 * (r1 / 3) + c1 / 3;
        let k1 = 3 * (r1 % 3) + c1 % 3;
        let k2 = 3 * (r2 % 3) + c2 % 3;
        assert(r1 == 3 * (r1 / 3) + r1 % 3);
        assert(r2 == 3 * (r2 / 3) + r2 % 3);
        assert(i == 27 * (r1 / 3) + 9 * (r1 % 3) + c1);
        assert(j == 27 * (r2 / 3) + 9 * (r2 % 3) + c2);
        assert(i / 27 == r1 / 3) by {
            assert(0 <= 9 * (r1 % 3) + c1 < 27);
        }
        assert(j / 27 == r2 / 3) by {
            assert(0 <= 9 * (r2 % 3) + c2 < 27);
        }
        assert(b / 3 == r1 / 3 && b % 3 == c1 / 3) by {
            assert(0 <= c1 / 3 < 3);
        }
        assert(unit_cell(18 + b, k1) == i) by {
            assert(k1 / 3 == r1 % 3 && k1 % 3 == c1 % 3);
        }
        assert(unit_cell(18 + b, k2) == j) by {
            assert(k2 / 3 == r2 % 3 && k2 % 3 == c2 % 3);
        }
        assert(k1 != k2);
        assert(unit_ok(s, 18 + b));
    }
}

impl<T: IsCell> Board<T> {
    /// Well-formedness: 81 cells, each knowing its own coordinate and
    /// holding either a blank or a digit in `1..=9`.
    pub open spec fn wf(&self) -> bool {
        &&& self.0@.len() == 81
        &&& forall|i: int|
            0 <= i < 81 ==> (#[trigger] self.0@[i]).position_spec() == position_at(i)
        &&& forall|i: int| 0 <= i < 81 ==> cell::value_wf((#[trigger] self.0@[i]).value_spec())
    }

    /// The row of 9 cells with index `y`.
    pub fn get_row(&self, y: i8) -> (r: [&T; 9])
        requires
            self.wf(),
            0 <= y < 9,
        ensures
            forall|k: int| 0 <= k < 9 ==> *(#[trigger] r@[k]) == self.0@[9 * y + k],
    {
        let b: usize = (y as usize) * 9;
        [
            &self.0[b],
            &self.0[b + 1],
            &self.0[b + 2],
            &self.0[b + 3],
            &self.0[b + 4],
            &self.0[b + 5],
            &self.0[b + 6],
            &self.0[b + 7],
            &self.0[b + 8],
        ]
    }

    /// The column of 9 cells with index `x`.
    pub fn get_col(&self, x: i8) -> (r: [&T; 9])
        requires
            self.wf(),
            0 <= x < 9,
        ensures
            forall|k: int| 0 <= k < 9 ==> *(#[trigger] r@[k]) == self.0@[9 * k + x],
    {
        let b: usize = x as usize;
        [
            &self.0[b],
            &self.0[b + 9],
            &self.0[b + 18],
            &self.0[b + 27],
            &self.0[b + 36],
            &self.0[b + 45],
            &self.0[b + 54],
            &self.0[b + 63],
            &self.0[b + 72],
        ]
    }

    /// The 9 cells of the 3x3 box containing column `x`, row `y`.
    #[verifier::rlimit(60)]
    pub fn get_square(&self, x: i8, y: i8) -> (r: [&T; 9])
        requires
            self.wf(),
            0 <= x < 9,
            0 <= y < 9,
        ensures
            forall|k: int|
                0 <= k < 9 ==> *(#[trigger] r@[k]) == self.0@[9 * (3 * (y / 3) + k / 3) + 3 * (x
                    / 3) + k % 3],
    {
        let x_in_square = x % 3;
        let y_in_square = y % 3;
        let square_corner_x = x - x_in_square;
        let square_corner_y = y - y_in_square;
        proof {
            assert(square_corner_x == 3 * (x as int / 3));
            assert(square_corner_y == 3 * (y as int / 3));
        }
        let b: usize = (square_corner_y as usize) * 9 + (square_corner_x as usize);
        proof {
            assert(b == 27 * (y as int / 3) + 3 * (x as int / 3));
        }
        [
            &self.0[b],
            &self.0[b + 1],
            &self.0[b + 2],
            &self.0[b + 9],
            &self.0[b + 10],
            &self.0[b + 11],
            &self.0[b + 18],
            &self.0[b + 19],
            &self.0[b + 20],
        ]
    }

    /// A mutable borrow of the cell at `position`.
    pub fn get_mut_cell(&mut self, position: &CellPosition) -> (r: &mut T)
        requires
            old(self).wf(),
            0 <= position.row < 9,
            0 <= position.column < 9,
        ensures
            *r == old(self).0@[cell_index(position.row as int, position.column as int)],
            final(self).0@ == old(self).0@.update(
                cell_index(position.row as int, position.column as int),
                *final(r),
            ),
    {
        let idx: usize = (position.row as usize) * 9 + (position.column as usize);
        &mut self.0[idx]
    }

    /// True iff no digit appears twice among the filled cells handed in.
    pub fn is_group_correct(group: [&T; 9]) -> (r: bool)
        requires
            forall|k: int| 0 <= k < 9 ==> cell::value_wf((*#[trigger] group@[k]).value_spec()),
        ensures
            r == forall|k1: int, k2: int|
                0 <= k1 < k2 < 9 ==> !dup_values(
                    (*group@[k1]).value_spec(),
                    (*group@[k2]).value_spec(),
                ),
    {
        let mut seen: [bool; 10] = [
            false, false, false, false, false, false, false, false, false, false,
        ];
        let mut k: usize = 0;
        while k < 9
            invariant
                0 <= k <= 9,
                forall|k2: int| 0 <= k2 < 9 ==> cell::value_wf((*#[trigger] group@[k2]).value_spec()),
                forall|d: int|
                    1 <= d <= 9 ==> seen@[d] == exists|k2: int|
                        0 <= k2 < k && cell::is_filled((*#[trigger] group@[k2]).value_spec())
                            && cell::digit_of((*group@[k2]).value_spec()) == d,
                forall|k1: int, k2: int|
                    0 <= k1 < k2 < k ==> !dup_values(
                        (*group@[k1]).value_spec(),
                        (*group@[k2]).value_spec(),
                    ),
            decreases 9 - k,
        {
            let v = *group[k].value();
            match v {
                CellValue::Empty => {},
                CellValue::Filled(val) => {
                    if seen[val as usize] {
                        proof {
                            let k1 = choose|k1: int|
                                0 <= k1 < k && cell::is_filled((*group@[k1]).value_spec())
                                    && cell::digit_of((*group@[k1]).value_spec()) == val as int;
                            assert(dup_values((*group@[k1]).value_spec(), (*group@[k as int]).value_spec()));
                        }
                        return false;
                    }
                    seen[val as usize] = true;
                },
            }
            k = k + 1;
        }
        true
    }

    /// True iff only the row, column and box containing `cell_position`
    /// are free of duplicates.
    pub fn is_cell_valid(&self, cell_position: CellPosition) -> (r: bool)
        requires
            self.wf(),
            0 <= cell_position.row < 9,
            0 <= cell_position.column < 9,
        ensures
            r == (unit_ok(self.0@, cell_position.row as int) && unit_ok(
                self.0@,
                9 + cell_position.column as int,
            ) && unit_ok(
                self.0@,
                18 + 3 * (cell_position.row as int / 3) + cell_position.column as int / 3,
            )),
    {
        let row_group = self.get_row(cell_position.row);
        let row_pass = Self::is_group_correct(row_group);
        proof {
            assert(forall|k: int|
                0 <= k < 9 ==> #[trigger] unit_cell(cell_position.row as int, k) == 9
                    * cell_position.row + k);
            lemma_group_matches_unit(self.0@, row_group@, cell_position.row as int);
        }
        if !row_pass {
            return false;
        }
        let col_group = self.get_col(cell_position.column);
        let col_pass = Self::is_group_correct(col_group);
        proof {
            assert(forall|k: int|
                0 <= k < 9 ==> #[trigger] unit_cell(9 + cell_position.column as int, k) == 9 * k
                    + cell_position.column);
            lemma_group_matches_unit(self.0@, col_group@, 9 + cell_position.column as int);
        }
        if !col_pass {
            return false;
        }
        let sq_group = self.get_square(cell_position.column, cell_position.row);
        let sq_pass = Self::is_group_correct(sq_group);
        proof {
            let y = cell_position.row as int;
            let x = cell_position.column as int;
            let b = 3 * (y / 3) + x / 3;
            assert(forall|k: int|
                0 <= k < 9 ==> #[trigger] unit_cell(18 + b, k) == 9 * (3 * (y / 3) + k / 3) + 3 * (
                x / 3) + k % 3) by {
                assert(b / 3 == y / 3 && b % 3 == x / 3) by {
                    assert(0 <= x / 3 < 3 && 0 <= y / 3 < 3);
                }
            }
            lemma_group_matches_unit(self.0@, sq_group@, 18 + b);
        }
        if !sq_pass {
            return false;
        }
        true
    }

    /// True iff all 9 rows, 9 columns and 9 boxes are free of duplicates:
    /// the global validity check.
    pub fn is_correct(&self) -> (r: bool)
        requires
            self.wf(),
        ensures
            r == grid_ok(self.0@),
    {
        let mut u: usize = 0;
        while u < 9
            invariant
                self.wf(),
                0 <= u <= 9,
                forall|u2: int| 0 <= u2 < u ==> unit_ok(self.0@, u2),
            decreases 9 - u,
        {
            let g = self.get_row(u as i8);
            let pass = Self::is_group_correct(g);
            proof {
                assert(forall|k: int|
                    0 <= k < 9 ==> #[trigger] unit_cell(u as int, k) == 9 * u + k);
                lemma_group_matches_unit(self.0@, g@, u as int);
            }
            if !pass {
                return false;
            }
            u = u + 1;
        }
        let mut x: usize = 0;
        while x < 9
            invariant
                self.wf(),
                0 <= x <= 9,
                forall|u2: int| 0 <= u2 < 9 ==> unit_ok(self.0@, u2),
                forall|u2: int| 9 <= u2 < 9 + x ==> unit_ok(self.0@, u2),
            decreases 9 - x,
        {
            let g = self.get_col(x as i8);
            let pass = Self::is_group_correct(g);
            proof {
                assert(forall|k: int|
                    0 <= k < 9 ==> #[trigger] unit_cell(9 + x as int, k) == 9 * k + x);
                lemma_group_matches_unit(self.0@, g@, 9 + x as int);
            }
            if !pass {
                return false;
            }
            x = x + 1;
        }
        let mut i: usize = 0;
        while i < 9
            invariant
                self.wf(),
                0 <= i <= 9,
                forall|u2: int| 0 <= u2 < 18 ==> unit_ok(self.0@, u2),
                forall|u2: int| 18 <= u2 < 18 + i ==> unit_ok(self.0@, u2),
            decreases 9 - i,
        {
            let g = self.get_square(((i % 3) * 3) as i8, ((i / 3) * 3) as i8);
            let pass = Self::is_group_correct(g);
            proof {
                let b = i as int;
                let y = 3 * (b / 3);
                let x2 = 3 * (b % 3);
                assert(y / 3 == b / 3 && x2 / 3 == b % 3);
                assert(forall|k: int|
                    0 <= k < 9 ==> #[trigger] unit_cell(18 + b, k) == 9 * (3 * (y / 3) + k / 3) + 3
                        * (x2 / 3) + k % 3);
                lemma_group_matches_unit(self.0@, g@, 18 + b);
            }
            if !pass {
                return false;
            }
            i = i + 1;
        }
        true
    }

    /// The first non-fixed empty cell in row-major order, if any.
    pub fn get_first_non_fixed_zero(&self) -> (r: Option<&T>)
        requires
            self.wf(),
        ensures
            match r {
                Some(c) => first_empty_from(self.0@, 0) < 81 && *c == self.0@[first_empty_from(
                    self.0@,
                    0,
                )],
                None => first_empty_from(self.0@, 0) == 81,
            },
    {
        let mut i: usize = 0;
        while i < 81
            invariant
                self.wf(),
                0 <= i <= 81,
                forall|j: int| 0 <= j < i ==> !nf_empty(self.0@, j),
            decreases 81 - i,
        {
            let c = &self.0[i];
            if !c.is_fixed() && matches!(*c.value(), CellValue::Empty) {
                proof {
                    assert(nf_empty(self.0@, i as int));
                    lemma_first_empty_props(self.0@, 0);
                    assert(first_empty_from(self.0@, 0) == i as int);
                }
                return Some(c);
            }
            i = i + 1;
        }
        proof {
            lemma_first_empty_props(self.0@, 0);
        }
        None
    }

    /// The last non-fixed filled cell in row-major order, if any.
    pub fn get_last_non_fixed_non_zero(&self) -> (r: Option<&T>)
        requires
            self.wf(),
        ensures
            match r {
                Some(c) => 0 <= last_filled_from(self.0@, 80) && *c == self.0@[last_filled_from(
                    self.0@,
                    80,
                )],
                None => last_filled_from(self.0@, 80) == -1,
            },
    {
        let mut i: usize = 81;
        while i > 0
            invariant
                self.wf(),
                0 <= i <= 81,
                forall|j: int| i <= j < 81 ==> !nf_filled(self.0@, j),
            decreases i,
        {
            i = i - 1;
            let c = &self.0[i];
            if !c.is_fixed() && !matches!(*c.value(), CellValue::Empty) {
                proof {
                    assert(nf_filled(self.0@, i as int));
                    lemma_last_filled_props(self.0@, 80);
                    assert(last_filled_from(self.0@, 80) == i as int);
                }
                return Some(c);
            }
        }
        proof {
            lemma_last_filled_props(self.0@, 80);
        }
        None
    }
}


/// The digit characters a puzzle cell may show.
pub open spec fn is_digit_char(c: char) -> bool {
    ||| c == '1'
    ||| c == '2'
    ||| c == '3'
    ||| c == '4'
    ||| c == '5'
    ||| c == '6'
    ||| c == '7'
    ||| c == '8'
    ||| c == '9'
}

/// The characters the validity scan counts as numeric.
pub open spec fn is_numeric_char(c: char) -> bool {
    c == '0' || is_digit_char(c)
}

/// The cell value a puzzle character denotes.
pub open spec fn value_of_char(c: char) -> CellValue {
    if c == '1' {
        CellValue::Filled(1)
    } else if c == '2' {
        CellValue::Filled(2)
    } else if c == '3' {
        CellValue::Filled(3)
    } else if c == '4' {
        CellValue::Filled(4)
    } else if c == '5' {
        CellValue::Filled(5)
    } else if c == '6' {
        CellValue::Filled(6)
    } else if c == '7' {
        CellValue::Filled(7)
    } else if c == '8' {
        CellValue::Filled(8)
    } else if c == '9' {
        CellValue::Filled(9)
    } else {
        CellValue::Empty
    }
}

/// The puzzle character a cell value serializes to.
pub open spec fn char_of_value(v: CellValue) -> char {
    match v {
        CellValue::Empty => '.',
        CellValue::Filled(d) => if d == 1 {
            '1'
        } else if d == 2 {
            '2'
        } else if d == 3 {
            '3'
        } else if d == 4 {
            '4'
        } else if d == 5 {
            '5'
        } else if d == 6 {
            '6'
        } else if d == 7 {
            '7'
        } else if d == 8 {
            '8'
        } else {
            '9'
        },
    }
}

/// A syntactically valid puzzle: 81 characters, each a blank or a digit
/// in `1..=9`.
pub open spec fn puzzle_ok(p: Seq<char>) -> bool {
    p.len() == 81 && forall|i: int| 0 <= i < 81 ==> (p[i] == '.' || is_digit_char(#[trigger] p[i]))
}

/// Some character is neither numeric nor a blank.
pub open spec fn has_bad_char(p: Seq<char>) -> bool {
    exists|i: int| 0 <= i < p.len() && !is_numeric_char(#[trigger] p[i]) && p[i] != '.'
}

/// Some character is the disallowed digit zero.
pub open spec fn has_zero_char(p: Seq<char>) -> bool {
    exists|i: int| 0 <= i < p.len() && #[trigger] p[i] == '0'
}

impl<T: IsCell> Board<T> {
    /// Accepts exactly the syntactically valid puzzle strings, naming
    /// what is wrong otherwise: bad length, a foreign character, or the
    /// digit zero.
    pub fn check_puzzle_string_valid(puzzle: &str) -> (r: Result<(), &'static str>)
        ensures
            r is Ok <==> puzzle_ok(puzzle@),
            puzzle@.len() != 81 ==> (r matches Err(e) && e@
                == "Input string has the wrong length."@),
            puzzle@.len() == 81 && has_bad_char(puzzle@) ==> (r matches Err(e) && e@
                == "Invalid char in input string."@),
            puzzle@.len() == 81 && !has_bad_char(puzzle@) && has_zero_char(puzzle@) ==> (r matches
                Err(e) && e@ == "Found 0 in input string."@),
    {
        let n = puzzle.unicode_len();
        if n != 81 {
            return Err("Input string has the wrong length.");
        }
        let mut i: usize = 0;
        while i < 81
            invariant
                puzzle@.len() == 81,
                0 <= i <= 81,
                forall|j: int| 0 <= j < i ==> (is_numeric_char(#[trigger] puzzle@[j]) || puzzle@[j]
                    == '.'),
            decreases 81 - i,
        {
            let c = puzzle.get_char(i);
            let numeric = c == '0' || c == '1' || c == '2' || c == '3' || c == '4' || c == '5' || c
                == '6' || c == '7' || c == '8' || c == '9';
            if !numeric && c != '.' {
                return Err("Invalid char in input string.");
            }
            i = i + 1;
        }
        let mut i: usize = 0;
        while i < 81
            invariant
                puzzle@.len() == 81,
                0 <= i <= 81,
                forall|j: int| 0 <= j < 81 ==> (is_numeric_char(#[trigger] puzzle@[j]) || puzzle@[j]
                    == '.'),
                forall|j: int| 0 <= j < i ==> #[trigger] puzzle@[j] != '0',
            decreases 81 - i,
        {
            let c = puzzle.get_char(i);
            if c == '0' {
                return Err("Found 0 in input string.");
            }
            i = i + 1;
        }
        Ok(())
    }

    /// Parses an 81-character puzzle string into a board whose given
    /// digits are fixed and whose blanks are open cells with every digit
    /// still a candidate.
    pub fn parse_puzzle_string(puzzle: &str) -> (r: Result<Board<T>, &'static str>)
        ensures
            r is Ok <==> puzzle_ok(puzzle@),
            puzzle@.len() != 81 ==> (r matches Err(e) && e@
                == "Input string has the wrong length."@),
            puzzle@.len() == 81 && has_bad_char(puzzle@) ==> (r matches Err(e) && e@
                == "Invalid char in input string."@),
            puzzle@.len() == 81 && !has_bad_char(puzzle@) && has_zero_char(puzzle@) ==> (r matches
                Err(e) && e@ == "Found 0 in input string."@),
            r matches Ok(b) ==> {
                &&& b.wf()
                &&& forall|i: int|
                    0 <= i < 81 ==> (#[trigger] b.0@[i]).value_spec() == value_of_char(puzzle@[i])
                &&& forall|i: int|
                    0 <= i < 81 ==> (#[trigger] b.0@[i]).fixed_spec() == (puzzle@[i] != '.')
                &&& forall|i: int, d: int| 0 <= i < 81 && 1 <= d <= 9 ==> (#[trigger] b.0@[i].allows(d))
            },
    {
        match Self::check_puzzle_string_valid(puzzle) {
            Err(error) => {
                return Err(error);
            },
            Ok(_) => {},
        }
        let mut cells: Vec<T> = Vec::new();
        let mut i: usize = 0;
        while i < 81
            invariant
                puzzle_ok(puzzle@),
                cells@.len() == i,
                0 <= i <= 81,
                forall|j: int|
                    0 <= j < i ==> (#[trigger] cells@[j]).value_spec() == value_of_char(puzzle@[j]),
                forall|j: int|
                    0 <= j < i ==> (#[trigger] cells@[j]).fixed_spec() == (puzzle@[j] != '.'),
                forall|j: int|
                    0 <= j < i ==> (#[trigger] cells@[j]).position_spec() == position_at(j),
                forall|j: int, d: int| 0 <= j < i && 1 <= d <= 9 ==> (#[trigger] cells@[j].allows(d)),
            decreases 81 - i,
        {
            let c = puzzle.get_char(i);
            let v = if c == '.' {
                CellValue::Empty
            } else if c == '1' {
                CellValue::Filled(1)
            } else if c == '2' {
                CellValue::Filled(2)
            } else if c == '3' {
                CellValue::Filled(3)
            } else if c == '4' {
                CellValue::Filled(4)
            } else if c == '5' {
                CellValue::Filled(5)
            } else if c == '6' {
                CellValue::Filled(6)
            } else if c == '7' {
                CellValue::Filled(7)
            } else if c == '8' {
                CellValue::Filled(8)
            } else {
                proof {
                    assert(puzzle@[i as int] == '.' || is_digit_char(puzzle@[i as int]));
                }
                CellValue::Filled(9)
            };
            proof {
                assert(v == value_of_char(puzzle@[i as int]));
            }
            let fixed = c != '.';
            let pos = CellPosition { row: (i / 9) as i8, column: (i % 9) as i8 };
            let cell_new = T::init(v, fixed, pos);
            cells.push(cell_new);
            i = i + 1;
        }
        let board = Board::<T>(cells);
        Ok(board)
    }

    /// Serializes the grid back to its 81-character form, one character
    /// per cell in row-major order.
    pub fn to_str(&self) -> (r: String)
        requires
            self.wf(),
        ensures
            r@.len() == 81,
            forall|i: int|
                0 <= i < 81 ==> r@[i] == char_of_value((#[trigger] self.0@[i]).value_spec()),
    {
        let mut out = String::new();
        let mut i: usize = 0;
        while i < 81
            invariant
                self.wf(),
                0 <= i <= 81,
                out@.len() == i,
                forall|j: int|
                    0 <= j < i ==> out@[j] == char_of_value((#[trigger] self.0@[j]).value_spec()),
            decreases 81 - i,
        {
            let cv = *self.0[i].value();
            let lit: &'static str = match cv {
                CellValue::Empty => ".",
                CellValue::Filled(d) => {
                    if d == 1 {
                        "1"
                    } else if d == 2 {
                        "2"
                    } else if d == 3 {
                        "3"
                    } else if d == 4 {
                        "4"
                    } else if d == 5 {
                        "5"
                    } else if d == 6 {
                        "6"
                    } else if d == 7 {
                        "7"
                    } else if d == 8 {
                        "8"
                    } else {
                        "9"
                    }
                },
            };
            proof {
                reveal_strlit(".");
                reveal_strlit("1");
                reveal_strlit("2");
                reveal_strlit("3");
                reveal_strlit("4");
                reveal_strlit("5");
                reveal_strlit("6");
                reveal_strlit("7");
                reveal_strlit("8");
                reveal_strlit("9");
                assert(lit@.len() == 1);
                assert(lit@[0] == char_of_value(self.0@[i as int].value_spec()));
            }
            out.append(lit);
            i = i + 1;
        }
        out
    }
}

/// Parses into a board of plain cells, `None` when the string is
/// rejected.
pub fn parse_puzzle_string(puzzle: &str) -> (r: Option<Board<SimpleCell>>)
    ensures
        r is Some <==> puzzle_ok(puzzle@),
        r matches Some(b) ==> {
            &&& b.wf()
            &&& forall|i: int|
                0 <= i < 81 ==> (#[trigger] b.0@[i]).value_spec() == value_of_char(puzzle@[i])
            &&& forall|i: int|
                0 <= i < 81 ==> (#[trigger] b.0@[i]).fixed_spec() == (puzzle@[i] != '.')
        },
{
    match Board::<SimpleCell>::parse_puzzle_string(puzzle) {
        Ok(b) => Some(b),
        Err(_) => None,
    }
}

/// Round trip: serializing a freshly parsed puzzle reproduces the
/// very string that was parsed, character for character.
pub proof fn lemma_parse_to_str_round_trip<T: IsCell>(p: Seq<char>, b: Board<T>, t: Seq<char>)
    requires
        puzzle_ok(p),
        forall|i: int| 0 <= i < 81 ==> (#[trigger] b.0@[i]).value_spec() == value_of_char(p[i]),
        t.len() == 81,
        forall|i: int| 0 <= i < 81 ==> t[i] == char_of_value((#[trigger] b.0@[i]).value_spec()),
    ensures
        t == p,
{
    assert forall|i: int| 0 <= i < 81 implies t[i] == p[i] by {
        assert(p[i] == '.' || is_digit_char(p[i]));
        assert(b.0@[i].value_spec() == value_of_char(p[i]));
        assert(t[i] == char_of_value(b.0@[i].value_spec()));
    }
    assert(t =~= p);
}

} // verus!
