//! Backtracking preceded by full-grid rescan propagation: instead of a
//! work queue, every pass recomputes each open cell's forbidden set from
//! the whole grid and promotes the cells whose candidate map has shrunk
//! to a single digit, until a pass changes nothing.

use crate::board::cell::constrained_cell::{ConstrainedCell, ValueConstraint};
use crate::board::cell::{CellValue, IsCell};
use crate::board::Board;
use crate::solvers::backtracking::{lemma_extends_givens, lemma_no_assignment_no_string, lemma_parsed_board_ready};
use crate::solvers::propagation::{
    count_unfixed, digit_placed_in_units, lemma_frame_step, lemma_frame_trans, propagation_frame,
};
use crate::solvers::search::cand_above;
use crate::solvers::{search, Solver};
use vstd::prelude::*;

verus! {

pub struct ConstrainedBackTrackingSolver;

/// The total number of candidates still allowed across the first `n`
/// cells: the measure every changing rescan pass shrinks.
pub open spec fn allowed_count(s: Seq<ConstrainedCell>, n: int) -> nat
    decreases n,
{
    if n <= 0 {
        0
    } else {
        allowed_count(s, n - 1) + cand_above(s[n - 1], 0)
    }
}

proof fn lemma_allowed_count_update(s: Seq<ConstrainedCell>, s2: Seq<ConstrainedCell>, k: int, n: int)
    requires
        s.len() == 81,
        s2.len() == 81,
        0 <= k < 81,
        forall|j: int| 0 <= j < 81 && j != k ==> s2[j] == s[j],
        0 <= n <= 81,
    ensures
        allowed_count(s2, n) as int == allowed_count(s, n) as int + if k < n {
            cand_above(s2[k], 0) as int - cand_above(s[k], 0) as int
        } else {
            0
        },
    decreases n,
{
    if n > 0 {
        lemma_allowed_count_update(s, s2, k, n - 1);
    }
}

proof fn lemma_cand_above_narrow(c: ConstrainedCell, c2: ConstrainedCell, a: int)
    requires
        forall|d: int| #[trigger] c2.allows(d) ==> c.allows(d),
    ensures
        cand_above(c2, a) <= cand_above(c, a),
    decreases 9 - a,
{
    if a < 9 {
        lemma_cand_above_narrow(c, c2, a + 1);
    }
}

proof fn lemma_cand_above_narrow_strict(c: ConstrainedCell, c2: ConstrainedCell, a: int, dw: int)
    requires
        forall|d: int| #[trigger] c2.allows(d) ==> c.allows(d),
        a < dw <= 9,
        c.allows(dw),
        !c2.allows(dw),
    ensures
        cand_above(c2, a) < cand_above(c, a),
    decreases 9 - a,
{
    if a + 1 == dw {
        lemma_cand_above_narrow(c, c2, a + 1);
    } else {
        lemma_cand_above_narrow_strict(c, c2, a + 1, dw);
    }
}

/// Digit `d` survives the rescan for a cell with candidate map `c`
/// under the forbidden set `f`: the map still allows it and it is not
/// placed around the cell.
pub open spec fn survives(c: ConstrainedCell, f: Seq<bool>, d: int) -> bool {
    1 <= d <= 9 && c.allows(d) && !f[d]
}

/// Digit `d` is the only survivor: the cell is a naked single.
pub open spec fn lone_survivor(c: ConstrainedCell, f: Seq<bool>, d: int) -> bool {
    survives(c, f, d) && forall|d2: int| 1 <= d2 <= 9 && d2 != d ==> !survives(c, f, d2)
}

/// Digit `d` is the one candidate a rescan pass leaves the open cell
/// `i` of grid `s`.
pub open spec fn sole_candidate(s: Seq<ConstrainedCell>, i: int, d: int) -> bool {
    &&& 1 <= d <= 9
    &&& s[i].allows(d) && !digit_placed_in_units(s, i, d)
    &&& forall|d2: int|
        1 <= d2 <= 9 && d2 != d ==> !(s[i].allows(d2) && !digit_placed_in_units(s, i, d2))
}

/// A rescan pass promotes open cell `i` of grid `s`: exactly one of
/// its candidates survives.
pub open spec fn rescan_promotes(s: Seq<ConstrainedCell>, i: int) -> bool {
    exists|d: int| sole_candidate(s, i, d)
}

/// Some open cell among the first `n` still allows a digit already
/// placed in its units: the pass would shed it.
pub open spec fn sheds_below(s: Seq<ConstrainedCell>, n: int) -> bool {
    exists|i: int, d: int|
        #![trigger digit_placed_in_units(s, i, d)]
        0 <= i < n && !s[i].fixed_spec() && 1 <= d <= 9 && s[i].allows(d)
            && digit_placed_in_units(s, i, d)
}

/// Some open cell among the first `n` is a naked single the pass would
/// promote.
pub open spec fn promotes_below(s: Seq<ConstrainedCell>, n: int) -> bool {
    exists|i: int|
        #![trigger rescan_promotes(s, i)]
        0 <= i < n && !s[i].fixed_spec() && rescan_promotes(s, i)
}

/// A grid the rescan pass can no longer change: no open cell allows a
/// placed digit, and no open cell is down to a single candidate.
pub open spec fn rescan_stable(s: Seq<ConstrainedCell>) -> bool {
    !sheds_below(s, 81) && !promotes_below(s, 81)
}

/// The grid queue-driven naked-single propagation leaves behind is
/// stable under the full-rescan pass: starting from a freshly parsed
/// grid, whose open cells still allow every digit, the two propagation
/// strategies recognise the same fixed points.
pub proof fn lemma_queue_fixed_point_rescan_stable(
    s0: Seq<ConstrainedCell>,
    s: Seq<ConstrainedCell>,
)
    requires
        s0.len() == 81,
        s.len() == 81,
        forall|i: int, d: int|
            0 <= i < 81 && 1 <= d <= 9 ==> (#[trigger] s0[i].allows(d)),
        crate::solvers::propagation::queue_propagated(s0, s),
    ensures
        rescan_stable(s),
{
    assert(!sheds_below(s, 81)) by {
        if sheds_below(s, 81) {
            let (i, d) = choose|i: int, d: int|
                0 <= i < 81 && !s[i].fixed_spec() && 1 <= d <= 9 && s[i].allows(d)
                    && #[trigger] digit_placed_in_units(s, i, d);
            assert(!digit_placed_in_units(s, i, d));
        }
    }
    assert(!promotes_below(s, 81)) by {
        if promotes_below(s, 81) {
            let i = choose|i: int|
                0 <= i < 81 && !s[i].fixed_spec() && #[trigger] rescan_promotes(s, i);
            let d = choose|d: int| sole_candidate(s, i, d);
            assert(s[i].allows(d) && !digit_placed_in_units(s, i, d));
            assert forall|d2: int| 1 <= d2 <= 9 && d2 != d implies digit_placed_in_units(
                s,
                i,
                d2,
            ) by {
                if !digit_placed_in_units(s, i, d2) {
                    assert(!(s[i].allows(d2) && !digit_placed_in_units(s, i, d2)));
                    assert(!s[i].allows(d2));
                    assert(s0[i].allows(d2));
                }
            }
            assert(digit_placed_in_units(s, i, d));
        }
    }
}

/// Cell `j`, distinct from `i`, holds digit `d`.
pub open spec fn sib_holds(s: Seq<ConstrainedCell>, i: int, j: int, d: int) -> bool {
    j != i && crate::board::cell::is_filled(s[j].value_spec()) && crate::board::cell::digit_of(
        s[j].value_spec(),
    ) == d
}

/// One of the three cells at slot `k` of cell `i`'s row, column and
/// box, other than `i` itself, holds digit `d`.
pub open spec fn slot_places(s: Seq<ConstrainedCell>, i: int, k: int, d: int) -> bool {
    ||| sib_holds(s, i, crate::board::unit_cell(i / 9, k), d)
    ||| sib_holds(s, i, crate::board::unit_cell(9 + i % 9, k), d)
    ||| sib_holds(s, i, crate::board::unit_cell(18 + 3 * (i / 27) + (i % 9) / 3, k), d)
}

/// Scanning all nine slots of a cell's units sees exactly the digits
/// placed around the cell.
#[verifier::rlimit(100)]
proof fn lemma_slots_cover_units(s: Seq<ConstrainedCell>, i: int, d: int)
    requires
        s.len() == 81,
        0 <= i < 81,
        1 <= d <= 9,
    ensures
        (exists|k: int| 0 <= k < 9 && #[trigger] slot_places(s, i, k, d)) <==> digit_placed_in_units(
            s,
            i,
            d,
        ),
{
    crate::solvers::propagation::lemma_cell_units(i);
    if exists|k: int| 0 <= k < 9 && #[trigger] slot_places(s, i, k, d) {
        let k = choose|k: int| 0 <= k < 9 && #[trigger] slot_places(s, i, k, d);
        if sib_holds(s, i, crate::board::unit_cell(i / 9, k), d) {
            crate::solvers::propagation::lemma_unit_member_same_unit(i / 9, i, k);
        } else if sib_holds(s, i, crate::board::unit_cell(9 + i % 9, k), d) {
            crate::solvers::propagation::lemma_unit_member_same_unit(9 + i % 9, i, k);
        } else {
            crate::solvers::propagation::lemma_unit_member_same_unit(
                18 + 3 * (i / 27) + (i % 9) / 3,
                i,
                k,
            );
        }
    }
    if digit_placed_in_units(s, i, d) {
        let j = choose|j: int|
            0 <= j < 81 && j != i && crate::board::same_unit(i, j) && crate::board::cell::is_filled(
                (#[trigger] s[j]).value_spec(),
            ) && crate::board::cell::digit_of(s[j].value_spec()) == d;
        crate::solvers::propagation::lemma_cell_units(j);
        if i / 9 == j / 9 {
            assert(crate::board::unit_cell(i / 9, j % 9) == j);
            assert(slot_places(s, i, j % 9, d));
        } else if i % 9 == j % 9 {
            assert(crate::board::unit_cell(9 + i % 9, j / 9) == j);
            assert(slot_places(s, i, j / 9, d));
        } else {
            let b = 3 * (i / 27) + (i % 9) / 3;
            assert(b == 3 * (j / 27) + (j % 9) / 3);
            assert(crate::board::unit_cell(18 + b, 3 * ((j / 9) % 3) + j % 3) == j);
            assert(0 <= 3 * ((j / 9) % 3) + j % 3 < 9);
            assert(slot_places(s, i, 3 * ((j / 9) % 3) + j % 3, d));
        }
    }
}

/// Translates what a rescan update did to the dequeued cell, stated
/// against its forbidden set, into the same facts stated against the
/// digits placed around the cell at the start of the pass.
#[verifier::rlimit(100)]
proof fn lemma_rescan_cell_summary(
    s0: Seq<ConstrainedCell>,
    s_pre: Seq<ConstrainedCell>,
    s_new: Seq<ConstrainedCell>,
    f: Seq<bool>,
    ii: int,
    flipped: bool,
    promoted: bool,
)
    requires
        s0.len() == 81,
        s_pre.len() == 81,
        s_new.len() == 81,
        0 <= ii < 81,
        s_pre[ii] == s0[ii],
        !s0[ii].fixed_spec(),
        forall|d: int| 1 <= d <= 9 ==> ((#[trigger] f[d]) <==> digit_placed_in_units(s0, ii, d)),
        forall|d: int|
            1 <= d <= 9 ==> ((#[trigger] s_new[ii].allows(d)) == (s_pre[ii].allows(d) && !f[d])),
        flipped == exists|d: int| 1 <= d <= 9 && (#[trigger] s_pre[ii].allows(d)) && f[d],
        promoted == exists|d: int| #[trigger] lone_survivor(s_pre[ii], f, d),
        s_new[ii].fixed_spec() == promoted,
        forall|d: int|
            #[trigger] lone_survivor(s_pre[ii], f, d) ==> s_new[ii].value_spec()
                == CellValue::Filled(d as i8),
        !promoted ==> s_new[ii].value_spec() == s_pre[ii].value_spec(),
    ensures
        forall|d: int|
            #![trigger s_new[ii].allows(d)]
            1 <= d <= 9 ==> (s_new[ii].allows(d) <==> s0[ii].allows(d) && !digit_placed_in_units(
                s0,
                ii,
                d,
            )),
        s_new[ii].fixed_spec() == rescan_promotes(s0, ii),
        forall|d: int|
            #[trigger] sole_candidate(s0, ii, d) ==> s_new[ii].value_spec() == CellValue::Filled(
                d as i8,
            ),
        !rescan_promotes(s0, ii) ==> s_new[ii].value_spec() == s0[ii].value_spec(),
        flipped == exists|d: int|
            1 <= d <= 9 && s0[ii].allows(d) && #[trigger] digit_placed_in_units(s0, ii, d),
        promoted == rescan_promotes(s0, ii),
{
    assert forall|d: int|
        1 <= d <= 9 implies (survives(s_pre[ii], f, d) == (s0[ii].allows(d)
        && !digit_placed_in_units(s0, ii, d))) by {}
    assert forall|d: int| 1 <= d <= 9 implies ((#[trigger] lone_survivor(s_pre[ii], f, d))
        == sole_candidate(s0, ii, d)) by {
        if lone_survivor(s_pre[ii], f, d) {
            assert forall|d2: int|
                1 <= d2 <= 9 && d2 != d implies !(s0[ii].allows(d2) && !digit_placed_in_units(
                s0,
                ii,
                d2,
            )) by {
                assert(!survives(s_pre[ii], f, d2));
            }
            assert(sole_candidate(s0, ii, d));
        }
        if sole_candidate(s0, ii, d) {
            assert forall|d2: int| 1 <= d2 <= 9 && d2 != d implies !survives(
                s_pre[ii],
                f,
                d2,
            ) by {
                assert(!(s0[ii].allows(d2) && !digit_placed_in_units(s0, ii, d2)));
            }
            assert(lone_survivor(s_pre[ii], f, d));
        }
    }
    assert(promoted == rescan_promotes(s0, ii)) by {
        if promoted {
            let d = choose|d: int| #[trigger] lone_survivor(s_pre[ii], f, d);
            assert(1 <= d <= 9);
            assert(sole_candidate(s0, ii, d));
        }
        if rescan_promotes(s0, ii) {
            let d = choose|d: int| sole_candidate(s0, ii, d);
            assert(lone_survivor(s_pre[ii], f, d));
        }
    }
    assert(flipped == exists|d: int|
        1 <= d <= 9 && s0[ii].allows(d) && #[trigger] digit_placed_in_units(s0, ii, d)) by {
        if flipped {
            let d = choose|d: int| 1 <= d <= 9 && (#[trigger] s_pre[ii].allows(d)) && f[d];
            assert(s0[ii].allows(d) && digit_placed_in_units(s0, ii, d));
        }
        if exists|d: int|
            1 <= d <= 9 && s0[ii].allows(d) && #[trigger] digit_placed_in_units(s0, ii, d) {
            let d = choose|d: int|
                1 <= d <= 9 && s0[ii].allows(d) && #[trigger] digit_placed_in_units(s0, ii, d);
            assert(s_pre[ii].allows(d) && f[d]);
        }
    }
}

/// Extends the change report over one more cell of the sweep: the
/// prefix properties grow exactly by what the step did at that cell.
proof fn lemma_changed_prefix_step(s0: Seq<ConstrainedCell>, ii: int, flipped: bool, promoted: bool)
    requires
        s0.len() == 81,
        0 <= ii < 81,
        !s0[ii].fixed_spec() ==> flipped == (exists|d: int|
            1 <= d <= 9 && s0[ii].allows(d) && #[trigger] digit_placed_in_units(s0, ii, d)),
        !s0[ii].fixed_spec() ==> promoted == rescan_promotes(s0, ii),
        s0[ii].fixed_spec() ==> !flipped && !promoted,
    ensures
        sheds_below(s0, ii + 1) == (sheds_below(s0, ii) || flipped),
        promotes_below(s0, ii + 1) == (promotes_below(s0, ii) || promoted),
{
    if sheds_below(s0, ii + 1) {
        let (i2, d) = choose|i2: int, d: int|
            0 <= i2 < ii + 1 && !s0[i2].fixed_spec() && 1 <= d <= 9 && s0[i2].allows(d)
                && #[trigger] digit_placed_in_units(s0, i2, d);
        if i2 < ii {
            assert(sheds_below(s0, ii));
        } else {
            assert(flipped);
        }
    }
    if sheds_below(s0, ii) {
        let (i2, d) = choose|i2: int, d: int|
            0 <= i2 < ii && !s0[i2].fixed_spec() && 1 <= d <= 9 && s0[i2].allows(d)
                && #[trigger] digit_placed_in_units(s0, i2, d);
        assert(digit_placed_in_units(s0, i2, d));
        assert(sheds_below(s0, ii + 1));
    }
    if flipped {
        let d = choose|d: int|
            1 <= d <= 9 && s0[ii].allows(d) && #[trigger] digit_placed_in_units(s0, ii, d);
        assert(sheds_below(s0, ii + 1));
    }
    if promotes_below(s0, ii + 1) {
        let i2 = choose|i2: int|
            0 <= i2 < ii + 1 && !s0[i2].fixed_spec() && #[trigger] rescan_promotes(s0, i2);
        if i2 < ii {
            assert(promotes_below(s0, ii));
        } else {
            assert(promoted);
        }
    }
    if promotes_below(s0, ii) {
        let i2 = choose|i2: int|
            0 <= i2 < ii && !s0[i2].fixed_spec() && #[trigger] rescan_promotes(s0, i2);
        assert(rescan_promotes(s0, i2));
        assert(promotes_below(s0, ii + 1));
    }
    if promoted {
        assert(rescan_promotes(s0, ii));
        assert(promotes_below(s0, ii + 1));
    }
}

/// One rescan update of an open cell keeps every solution a solution:
/// it only sheds candidates already placed in the cell's units, and it
/// promotes only when a single candidate is left, which any solution
/// must then use.
proof fn lemma_sols_preserved_rescan_step(s: Seq<ConstrainedCell>, s2: Seq<ConstrainedCell>, idx: int)
    requires
        s.len() == 81,
        s2.len() == 81,
        0 <= idx < 81,
        forall|j: int| 0 <= j < 81 && j != idx ==> s2[j] == s[j],
        forall|i2: int|
            0 <= i2 < 81 ==> ((#[trigger] s[i2]).fixed_spec() == crate::board::cell::is_filled(
                s[i2].value_spec(),
            )),
        !crate::board::cell::is_filled(s[idx].value_spec()),
        forall|d: int|
            1 <= d <= 9 && s[idx].allows(d) && !(#[trigger] s2[idx].allows(d))
                ==> digit_placed_in_units(s, idx, d),
        crate::board::cell::is_filled(s2[idx].value_spec()) ==> s2[idx].fixed_spec() && 1
            <= crate::board::cell::digit_of(s2[idx].value_spec()) <= 9 && forall|d2: int|
            1 <= d2 <= 9 && d2 != crate::board::cell::digit_of(s2[idx].value_spec())
                ==> !(#[trigger] s2[idx].allows(d2)),
        !crate::board::cell::is_filled(s2[idx].value_spec()) ==> s2[idx].fixed_spec()
            == s[idx].fixed_spec(),
    ensures
        forall|a: Seq<int>|
            #[trigger] search::is_sol(a, s) ==> search::is_sol(a, s2),
{
    assert forall|a: Seq<int>| #[trigger] search::is_sol(a, s) implies search::is_sol(a, s2) by {
        assert(!s[idx].fixed_spec());
        assert(s[idx].allows(a[idx]));
        assert(1 <= a[idx] <= 9);
        if !s2[idx].allows(a[idx]) {
            assert(digit_placed_in_units(s, idx, a[idx]));
            let j = choose|j: int|
                0 <= j < 81 && j != idx && crate::board::same_unit(idx, j)
                    && crate::board::cell::is_filled((s[j]).value_spec())
                    && crate::board::cell::digit_of(s[j].value_spec()) == a[idx];
            assert(s[j].fixed_spec());
            assert(a[j] == a[idx]);
            assert(false);
        }
        assert forall|i: int|
            0 <= i < 81 && (#[trigger] s2[i]).fixed_spec() implies a[i]
            == crate::board::cell::digit_of(s2[i].value_spec()) by {
            if i != idx {
                assert(s2[i] == s[i]);
            } else {
                assert(crate::board::cell::is_filled(s2[idx].value_spec()));
                let dd = crate::board::cell::digit_of(s2[idx].value_spec());
                if a[idx] != dd {
                    assert(!s2[idx].allows(a[idx]));
                }
            }
        }
        assert forall|i: int|
            0 <= i < 81 && !(#[trigger] s2[i]).fixed_spec() implies s2[i].allows(a[i]) by {
            if i != idx {
                assert(s2[i] == s[i]);
            }
        }
    }
}

impl ConstrainedBackTrackingSolver {
    /// Repeats full-grid rescan passes until one changes nothing: the
    /// grid it leaves is stable under the pass, and a grid that is
    /// already stable comes back bitwise unchanged.
    pub fn calculate_fixed_board_constrains_until_stable(board: &mut Board<ConstrainedCell>)
        requires
            old(board).wf(),
            forall|i: int|
                0 <= i < 81 ==> ((#[trigger] old(board).0@[i]).fixed_spec()
                    == crate::board::cell::is_filled(old(board).0@[i].value_spec())),
        ensures
            final(board).wf(),
            propagation_frame(old(board).0@, final(board).0@),
            rescan_stable(final(board).0@),
            rescan_stable(old(board).0@) ==> final(board).0@ == old(board).0@,
            forall|a: Seq<int>|
                #[trigger] search::is_sol(a, old(board).0@) ==> search::is_sol(
                    a,
                    final(board).0@,
                ),
    {
        let ghost s0 = board.0@;
        proof {
            assert(propagation_frame(s0, s0));
        }
        loop
            invariant
                s0.len() == 81,
                board.wf(),
                propagation_frame(s0, board.0@),
                rescan_stable(s0) ==> board.0@ == s0,
                forall|a: Seq<int>|
                    #[trigger] search::is_sol(a, s0) ==> search::is_sol(a, board.0@),
            ensures
                board.wf(),
                propagation_frame(s0, board.0@),
                rescan_stable(board.0@),
                rescan_stable(s0) ==> board.0@ == s0,
                forall|a: Seq<int>|
                    #[trigger] search::is_sol(a, s0) ==> search::is_sol(a, board.0@),
            decreases allowed_count(board.0@, 81) + count_unfixed(board.0@, 81),
        {
            let ghost s_pre = board.0@;
            let pass_changed = ConstrainedBackTrackingSolver::calculate_fixed_board_constrains(
                board,
            );
            proof {
                lemma_frame_trans(s0, s_pre, board.0@);
                assert forall|a: Seq<int>|
                    #[trigger] search::is_sol(a, s0) implies search::is_sol(a, board.0@) by {
                    assert(search::is_sol(a, s_pre));
                }
            }
            if !pass_changed {
                proof {
                    assert(board.0@ == s_pre);
                    assert(rescan_stable(board.0@));
                }
                break;
            }
            proof {
                if rescan_stable(s0) {
                    assert(s_pre == s0);
                    assert(!sheds_below(s0, 81) && !promotes_below(s0, 81));
                    assert(false);
                }
            }
        }
    }

    /// Notes that the filled cell at `j`, sharing unit `u` with the open
    /// cell `i`, places its digit within `i`'s units.
    #[verifier::rlimit(100)]
    proof fn lemma_sibling_places(s: Seq<ConstrainedCell>, i: int, u: int, k: int, j: int, d: int)
        requires
            s.len() == 81,
            0 <= i < 81,
            0 <= k < 9,
            ({
                ||| (u < 9 && u == i / 9)
                ||| (9 <= u < 18 && u - 9 == i % 9)
                ||| (18 <= u < 27 && u - 18 == 3 * (i / 27) + (i % 9) / 3)
            }),
            j == crate::board::unit_cell(u, k),
            j != i,
            0 <= j < 81,
            crate::board::cell::is_filled(s[j].value_spec()),
            crate::board::cell::digit_of(s[j].value_spec()) == d,
        ensures
            digit_placed_in_units(s, i, d),
    {
        crate::solvers::propagation::lemma_unit_member_same_unit(u, i, k);
        assert(crate::board::same_unit(i, j));
    }

    /// Marks in `forbidden` exactly the digits of the three cells that
    /// share slot `k` of cell `i`'s row, column and box, on top of what
    /// was marked before.
    #[verifier::rlimit(100)]
    fn scan_sibling(
        board: &Board<ConstrainedCell>,
        i: usize,
        k: usize,
        forbidden: &mut [bool; 10],
    )
        requires
            board.wf(),
            i < 81,
            k < 9,
        ensures
            forall|d: int|
                0 <= d < 10 ==> ((#[trigger] final(forbidden)@[d]) <==> old(forbidden)@[d] || (1
                    <= d <= 9 && slot_places(board.0@, i as int, k as int, d))),
            forall|d: int|
                1 <= d <= 9 && (#[trigger] final(forbidden)@[d]) ==> old(forbidden)@[d]
                    || digit_placed_in_units(board.0@, i as int, d),
    {
        let r: usize = i / 9;
        let c: usize = i % 9;
        proof {
            crate::solvers::propagation::lemma_cell_units(i as int);
        }
        let j_row: usize = r * 9 + k;
        proof {
            assert(j_row == crate::board::unit_cell(r as int, k as int));
        }
        if j_row != i {
            if let CellValue::Filled(val) = *board.0[j_row].value() {
                forbidden[val as usize] = true;
                proof {
                    Self::lemma_sibling_places(
                        board.0@,
                        i as int,
                        r as int,
                        k as int,
                        j_row as int,
                        val as int,
                    );
                }
            }
        }
        let j_col: usize = k * 9 + c;
        proof {
            assert(j_col == crate::board::unit_cell(9 + c as int, k as int));
        }
        if j_col != i {
            if let CellValue::Filled(val) = *board.0[j_col].value() {
                forbidden[val as usize] = true;
                proof {
                    Self::lemma_sibling_places(
                        board.0@,
                        i as int,
                        9 + c as int,
                        k as int,
                        j_col as int,
                        val as int,
                    );
                }
            }
        }
        let j_box: usize = ((r / 3) * 3 + k / 3) * 9 + (c / 3) * 3 + k % 3;
        proof {
            let ii = i as int;
            let b = 3 * (ii / 27) + (ii % 9) / 3;
            assert(b == 3 * (r as int / 3) + c as int / 3);
            assert(b / 3 == r as int / 3 && b % 3 == c as int / 3) by {
                assert(0 <= c as int / 3 < 3);
            }
            assert(j_box == crate::board::unit_cell(18 + b, k as int));
        }
        if j_box != i {
            if let CellValue::Filled(val) = *board.0[j_box].value() {
                forbidden[val as usize] = true;
                proof {
                    let ii = i as int;
                    let b = 3 * (ii / 27) + (ii % 9) / 3;
                    Self::lemma_sibling_places(
                        board.0@,
                        ii,
                        18 + b,
                        k as int,
                        j_box as int,
                        val as int,
                    );
                }
            }
        }
        proof {
            let s = board.0@;
            let ii = i as int;
            let kk = k as int;
            assert forall|d: int|
                0 <= d < 10 implies ((#[trigger] forbidden@[d]) <==> old(forbidden)@[d] || (1 <= d
                <= 9 && slot_places(s, ii, kk, d))) by {
                let b = 3 * (ii / 27) + (ii % 9) / 3;
                assert(crate::board::unit_cell(ii / 9, kk) == j_row as int);
                assert(crate::board::unit_cell(9 + ii % 9, kk) == j_col as int);
                assert(crate::board::unit_cell(18 + b, kk) == j_box as int);
                if forbidden@[d] && !old(forbidden)@[d] {
                    assert(1 <= d <= 9) by {
                        assert(crate::board::cell::value_wf(s[j_row as int].value_spec()));
                        assert(crate::board::cell::value_wf(s[j_col as int].value_spec()));
                        assert(crate::board::cell::value_wf(s[j_box as int].value_spec()));
                    }
                }
            }
        }
    }


    /// The forbidden set of every open cell, read from the grid as it
    /// stands: exactly the digits filled elsewhere in the cell's row,
    /// column and box. Fixed cells get an empty set.
    fn compute_forbidden_sets(board: &Board<ConstrainedCell>) -> (fm: Vec<[bool; 10]>)
        requires
            board.wf(),
        ensures
            fm@.len() == 81,
            forall|i2: int, d: int|
                0 <= i2 < 81 && 1 <= d <= 9 && (#[trigger] fm@[i2][d]) ==> digit_placed_in_units(
                    board.0@,
                    i2,
                    d,
                ),
            forall|i2: int, d: int|
                #![trigger fm@[i2][d]]
                0 <= i2 < 81 && 1 <= d <= 9 && !board.0@[i2].fixed_spec() ==> (fm@[i2][d]
                    <==> digit_placed_in_units(board.0@, i2, d)),
    {
        let mut forbidden_map: Vec<[bool; 10]> = Vec::with_capacity(81);
        let mut i: usize = 0;
        while i < 81
            invariant
                board.wf(),
                0 <= i <= 81,
                forbidden_map@.len() == i,
                forall|i2: int, d: int|
                    0 <= i2 < i && 1 <= d <= 9 && (#[trigger] forbidden_map@[i2][d])
                        ==> digit_placed_in_units(board.0@, i2, d),
                forall|i2: int, d: int|
                    #![trigger forbidden_map@[i2][d]]
                    0 <= i2 < i && 1 <= d <= 9 && !board.0@[i2].fixed_spec() ==> (
                    forbidden_map@[i2][d] <==> digit_placed_in_units(board.0@, i2, d)),
            decreases 81 - i,
        {
            let mut forbidden: [bool; 10] = [
                false, false, false, false, false, false, false, false, false, false,
            ];
            if !board.0[i].fixed {
                let mut k: usize = 0;
                while k < 9
                    invariant
                        board.wf(),
                        i < 81,
                        0 <= k <= 9,
                        forall|d: int|
                            0 <= d < 10 ==> ((#[trigger] forbidden@[d]) <==> (1 <= d <= 9
                                && exists|k2: int|
                                0 <= k2 < k && #[trigger] slot_places(
                                    board.0@,
                                    i as int,
                                    k2,
                                    d,
                                ))),
                    decreases 9 - k,
                {
                    let ghost f0 = forbidden@;
                    Self::scan_sibling(board, i, k, &mut forbidden);
                    proof {
                        assert forall|d: int|
                            0 <= d < 10 implies ((#[trigger] forbidden@[d]) <==> (1 <= d <= 9
                            && exists|k2: int|
                            0 <= k2 < k + 1 && #[trigger] slot_places(
                                board.0@,
                                i as int,
                                k2,
                                d,
                            ))) by {
                            if forbidden@[d] {
                                if f0[d] {
                                    let k2 = choose|k2: int|
                                        0 <= k2 < k && #[trigger] slot_places(
                                            board.0@,
                                            i as int,
                                            k2,
                                            d,
                                        );
                                    assert(slot_places(board.0@, i as int, k2, d));
                                } else {
                                    assert(slot_places(board.0@, i as int, k as int, d));
                                }
                            } else {
                                if exists|k2: int|
                                    0 <= k2 < k + 1 && #[trigger] slot_places(
                                        board.0@,
                                        i as int,
                                        k2,
                                        d,
                                    ) {
                                    let k2 = choose|k2: int|
                                        0 <= k2 < k + 1 && #[trigger] slot_places(
                                            board.0@,
                                            i as int,
                                            k2,
                                            d,
                                        );
                                    if k2 < k {
                                        assert(f0[d]);
                                    }
                                    assert(false);
                                }
                            }
                        }
                    }
                    k = k + 1;
                }
                proof {
                    assert forall|d: int| 1 <= d <= 9 implies ((#[trigger] forbidden@[d])
                        <==> digit_placed_in_units(board.0@, i as int, d)) by {
                        lemma_slots_cover_units(board.0@, i as int, d);
                    }
                }
            }
            forbidden_map.push(forbidden);
            i = i + 1;
        }
        forbidden_map
    }


    /// One rescan update of the open cell `i`: narrows its candidate
    /// map by the forbidden set and promotes the cell when exactly one
    /// candidate survives. Reports whether a map entry flipped and
    /// whether the cell was promoted.
    #[verifier::rlimit(100)]
    fn rescan_cell(board: &mut Board<ConstrainedCell>, i: usize, forbidden: &[bool; 10]) -> (r: (
        bool,
        bool,
    ))
        requires
            old(board).wf(),
            i < 81,
            !old(board).0@[i as int].fixed_spec(),
            !crate::board::cell::is_filled(old(board).0@[i as int].value_spec()),
        ensures
            final(board).wf(),
            forall|j: int| 0 <= j < 81 && j != i ==> final(board).0@[j] == old(board).0@[j],
            final(board).0@[i as int].position_spec() == old(board).0@[i as int].position_spec(),
            forall|d: int|
                1 <= d <= 9 ==> ((#[trigger] final(board).0@[i as int].allows(d)) == (old(board).0@[i as int].allows(d) && !forbidden@[d])),
            forall|d: int| #[trigger] final(board).0@[i as int].allows(d) ==> old(board).0@[
                i as int].allows(d),
            r.0 == exists|d: int|
                1 <= d <= 9 && (#[trigger] old(board).0@[i as int].allows(d)) && forbidden@[d],
            r.1 == exists|d: int| #[trigger] lone_survivor(old(board).0@[i as int], forbidden@, d),
            final(board).0@[i as int].fixed_spec() == r.1,
            r.1 == crate::board::cell::is_filled(final(board).0@[i as int].value_spec()),
            forall|d: int|
                #[trigger] lone_survivor(old(board).0@[i as int], forbidden@, d) ==> final(board).0@[i as int].value_spec() == CellValue::Filled(d as i8),
            !r.1 ==> final(board).0@[i as int].value_spec() == old(board).0@[i as int].value_spec(),
            !r.0 && !r.1 ==> final(board).0@ == old(board).0@,
            cand_above(final(board).0@[i as int], 0) <= cand_above(old(board).0@[i as int], 0),
            r.0 ==> cand_above(final(board).0@[i as int], 0) < cand_above(
                old(board).0@[i as int],
                0,
            ),
    {
        let ghost s_pre = board.0@;
        let cell0 = board.0[i];
        let mut m = cell0.value_constraint_map;
        let mut flipped: usize = 0;
        let mut d: usize = 1;
        while d <= 9
            invariant
                1 <= d <= 10,
                forall|dd: int|
                    1 <= dd < d ==> #[trigger] m[dd] == (if forbidden@[dd]
                        && cell0.value_constraint_map[dd] == ValueConstraint::Allowed {
                        ValueConstraint::FixedNotAllowed
                    } else {
                        cell0.value_constraint_map[dd]
                    }),
                forall|dd: int| (0 <= dd < 10 && !(1 <= dd < d)) ==> #[trigger] m[dd]
                    == cell0.value_constraint_map[dd],
                flipped == 0 ==> m == cell0.value_constraint_map,
                flipped == 0 ==> forall|dd: int|
                    1 <= dd < d ==> !(cell0.value_constraint_map[dd] == ValueConstraint::Allowed
                        && #[trigger] forbidden@[dd]),
                flipped != 0 ==> 1 <= flipped <= 9 && cell0.value_constraint_map[flipped as int]
                    == ValueConstraint::Allowed && forbidden@[flipped as int] && m[flipped as int]
                    == ValueConstraint::FixedNotAllowed,
            decreases 10 - d,
        {
            if forbidden[d] && m[d] == ValueConstraint::Allowed {
                m[d] = ValueConstraint::FixedNotAllowed;
                flipped = d;
            }
            d = d + 1;
        }
        let mut n_allowed: usize = 0;
        let mut single: usize = 0;
        let ghost mut second: usize = 0;
        let mut d2: usize = 1;
        while d2 <= 9
            invariant
                1 <= d2 <= 10,
                n_allowed < d2,
                n_allowed >= 1 ==> 1 <= single <= 9 && single < d2 && m[single as int]
                    == ValueConstraint::Allowed,
                n_allowed >= 2 ==> 1 <= second <= 9 && second != single && m[second as int]
                    == ValueConstraint::Allowed,
                n_allowed == 0 ==> forall|dd: int|
                    1 <= dd < d2 ==> #[trigger] m[dd] == ValueConstraint::FixedNotAllowed,
                n_allowed == 1 ==> forall|dd: int|
                    1 <= dd < d2 && dd != single ==> #[trigger] m[dd]
                        == ValueConstraint::FixedNotAllowed,
            decreases 10 - d2,
        {
            if m[d2] == ValueConstraint::Allowed {
                proof {
                    if n_allowed >= 1 {
                        second = single;
                    }
                }
                n_allowed = n_allowed + 1;
                single = d2;
            }
            d2 = d2 + 1;
        }
        let promoted = n_allowed == 1;
        let cnew = if promoted {
            ConstrainedCell {
                value: CellValue::Filled(single as i8),
                fixed: true,
                position: cell0.position,
                value_constraint_map: m,
            }
        } else {
            ConstrainedCell {
                value: cell0.value,
                fixed: cell0.fixed,
                position: cell0.position,
                value_constraint_map: m,
            }
        };
        board.0[i] = cnew;
        let flipped_b = flipped != 0;
        proof {
            let s_new = board.0@;
            let ii = i as int;
            let c0 = s_pre[ii];
            // The narrowed map keeps a digit exactly when the old map
            // allowed it and the forbidden set does not name it.
            assert forall|dd: int|
                1 <= dd <= 9 implies ((#[trigger] s_new[ii].allows(dd)) == (c0.allows(dd)
                && !forbidden@[dd])) by {}
            // The reported flip flag is exact.
            assert(flipped_b == exists|dd: int|
                1 <= dd <= 9 && (#[trigger] c0.allows(dd)) && forbidden@[dd]) by {
                if flipped != 0 {
                    assert(c0.allows(flipped as int) && forbidden@[flipped as int]);
                }
                if flipped == 0 && exists|dd: int|
                    1 <= dd <= 9 && (#[trigger] c0.allows(dd)) && forbidden@[dd] {
                    let dd = choose|dd: int|
                        1 <= dd <= 9 && (#[trigger] c0.allows(dd)) && forbidden@[dd];
                    assert(false);
                }
            }
            // The reported promotion flag is exact: exactly one digit
            // survives.
            assert forall|dd: int|
                1 <= dd <= 9 implies (survives(c0, forbidden@, dd) == (m[dd]
                == ValueConstraint::Allowed)) by {}
            assert(promoted == exists|dd: int| #[trigger] lone_survivor(c0, forbidden@, dd)) by {
                if promoted {
                    assert(m[single as int] == ValueConstraint::Allowed);
                    assert(c0.value_constraint_map[single as int] == ValueConstraint::Allowed
                        && !forbidden@[single as int]);
                    assert(survives(c0, forbidden@, single as int));
                    assert forall|dd: int|
                        1 <= dd <= 9 && dd != single as int implies !survives(
                        c0,
                        forbidden@,
                        dd,
                    ) by {
                        assert(m[dd] == ValueConstraint::FixedNotAllowed);
                    }
                    assert(lone_survivor(c0, forbidden@, single as int));
                }
                if !promoted && exists|dd: int| #[trigger] lone_survivor(c0, forbidden@, dd) {
                    let dd = choose|dd: int| #[trigger] lone_survivor(c0, forbidden@, dd);
                    assert(m[dd] == ValueConstraint::Allowed);
                    if n_allowed == 0 {
                        assert(false);
                    } else {
                        assert(n_allowed >= 2);
                        assert(m[single as int] == ValueConstraint::Allowed);
                        assert(m[second as int] == ValueConstraint::Allowed);
                        if single as int != dd {
                            assert(survives(c0, forbidden@, single as int));
                            assert(false);
                        } else {
                            assert(survives(c0, forbidden@, second as int));
                            assert(false);
                        }
                    }
                }
            }
            assert forall|dd: int|
                #[trigger] lone_survivor(c0, forbidden@, dd) implies s_new[ii].value_spec()
                == CellValue::Filled(dd as i8) by {
                assert(promoted);
                assert(m[dd] == ValueConstraint::Allowed);
                if dd != single as int {
                    assert(false);
                }
            }
            if !flipped_b && !promoted {
                assert(cnew == cell0);
                assert(s_new =~= s_pre);
            }
            if flipped != 0 {
                lemma_cand_above_narrow_strict(c0, s_new[ii], 0, flipped as int);
            } else {
                lemma_cand_above_narrow(c0, s_new[ii], 0);
            }
            assert(board.wf());
        }
        (flipped_b, promoted)
    }

    /// One rescan pass: recomputes every open cell's forbidden set from
    /// the grid at entry, narrows the candidate maps accordingly, and
    /// promotes every open cell left with exactly one candidate. The
    /// result and the new grid are pinned exactly: the pass reports a
    /// change precisely when it shed a candidate or promoted a cell,
    /// and a pass that reports no change has not touched the grid.
    #[verifier::rlimit(100)]
    pub fn calculate_fixed_board_constrains(board: &mut Board<ConstrainedCell>) -> (changed: bool)
        requires
            old(board).wf(),
            forall|i: int|
                0 <= i < 81 ==> ((#[trigger] old(board).0@[i]).fixed_spec()
                    == crate::board::cell::is_filled(old(board).0@[i].value_spec())),
        ensures
            final(board).wf(),
            propagation_frame(old(board).0@, final(board).0@),
            allowed_count(final(board).0@, 81) <= allowed_count(old(board).0@, 81),
            count_unfixed(final(board).0@, 81) <= count_unfixed(old(board).0@, 81),
            changed ==> allowed_count(final(board).0@, 81) + count_unfixed(final(board).0@, 81)
                < allowed_count(old(board).0@, 81) + count_unfixed(old(board).0@, 81),
            forall|a: Seq<int>|
                #[trigger] search::is_sol(a, old(board).0@) ==> search::is_sol(
                    a,
                    final(board).0@,
                ),
            // Cells fixed at entry are untouched.
            forall|i: int|
                0 <= i < 81 && (#[trigger] old(board).0@[i]).fixed_spec() ==> final(board).0@[i]
                    == old(board).0@[i],
            // Every open cell's map is narrowed exactly by the digits
            // placed in its units at entry.
            forall|i: int, d: int|
                #![trigger final(board).0@[i].allows(d)]
                0 <= i < 81 && !old(board).0@[i].fixed_spec() && 1 <= d <= 9 ==> (final(board).0@[i].allows(d) <==> old(board).0@[i].allows(d) && !digit_placed_in_units(
                    old(board).0@,
                    i,
                    d,
                )),
            // An open cell is promoted exactly when one candidate
            // survives the narrowing, and then to that candidate.
            forall|i: int|
                0 <= i < 81 && !(#[trigger] old(board).0@[i]).fixed_spec() ==> (final(board).0@[i].fixed_spec() <==> rescan_promotes(old(board).0@, i)),
            forall|i: int, d: int|
                #![trigger sole_candidate(old(board).0@, i, d)]
                0 <= i < 81 && !old(board).0@[i].fixed_spec() && sole_candidate(
                    old(board).0@,
                    i,
                    d,
                ) ==> final(board).0@[i].value_spec() == CellValue::Filled(d as i8),
            forall|i: int|
                0 <= i < 81 && !(#[trigger] old(board).0@[i]).fixed_spec() && !rescan_promotes(
                    old(board).0@,
                    i,
                ) ==> final(board).0@[i].value_spec() == old(board).0@[i].value_spec(),
            // The report is exact, and a pass that reports no change
            // has changed nothing.
            changed == (sheds_below(old(board).0@, 81) || promotes_below(old(board).0@, 81)),
            !changed ==> final(board).0@ == old(board).0@,
    {
        let ghost s0 = board.0@;
        let forbidden_map: Vec<[bool; 10]> = Self::compute_forbidden_sets(board);
        // Second sweep: narrow each open cell's candidate map and promote
        // the cells whose candidates collapsed to one digit.
        let mut changed = false;
        let mut i: usize = 0;
        while i < 81
            invariant
                s0.len() == 81,
                forall|i2: int|
                    0 <= i2 < 81 ==> ((#[trigger] s0[i2]).fixed_spec()
                        == crate::board::cell::is_filled(s0[i2].value_spec())),
                board.wf(),
                propagation_frame(s0, board.0@),
                forbidden_map@.len() == 81,
                forall|i2: int, d: int|
                    #![trigger forbidden_map@[i2][d]]
                    0 <= i2 < 81 && 1 <= d <= 9 && !s0[i2].fixed_spec() ==> (forbidden_map@[i2][d]
                        <==> digit_placed_in_units(s0, i2, d)),
                forall|a: Seq<int>|
                    #[trigger] search::is_sol(a, s0) ==> search::is_sol(a, board.0@),
                0 <= i <= 81,
                forall|i2: int| i <= i2 < 81 ==> board.0@[i2] == s0[i2],
                forall|i2: int|
                    0 <= i2 < i && (#[trigger] s0[i2]).fixed_spec() ==> board.0@[i2] == s0[i2],
                forall|i2: int, d: int|
                    #![trigger board.0@[i2].allows(d)]
                    0 <= i2 < i && !s0[i2].fixed_spec() && 1 <= d <= 9 ==> (board.0@[i2].allows(d)
                        <==> s0[i2].allows(d) && !digit_placed_in_units(s0, i2, d)),
                forall|i2: int|
                    0 <= i2 < i && !(#[trigger] s0[i2]).fixed_spec() ==> (board.0@[i2].fixed_spec()
                        <==> rescan_promotes(s0, i2)),
                forall|i2: int, d: int|
                    #![trigger sole_candidate(s0, i2, d)]
                    0 <= i2 < i && !s0[i2].fixed_spec() && sole_candidate(s0, i2, d)
                        ==> board.0@[i2].value_spec() == CellValue::Filled(d as i8),
                forall|i2: int|
                    0 <= i2 < i && !(#[trigger] s0[i2]).fixed_spec() && !rescan_promotes(s0, i2)
                        ==> board.0@[i2].value_spec() == s0[i2].value_spec(),
                changed == (sheds_below(s0, i as int) || promotes_below(s0, i as int)),
                !changed ==> board.0@ == s0,
                allowed_count(board.0@, 81) <= allowed_count(s0, 81),
                count_unfixed(board.0@, 81) <= count_unfixed(s0, 81),
                changed ==> allowed_count(board.0@, 81) + count_unfixed(board.0@, 81)
                    < allowed_count(s0, 81) + count_unfixed(s0, 81),
            decreases 81 - i,
        {
            let ghost s_pre = board.0@;
            let ghost changed_pre = changed;
            let fixed_now = board.0[i].fixed;
            if !fixed_now {
                let forbidden = forbidden_map[i];
                let r = Self::rescan_cell(board, i, &forbidden);
                changed = changed || r.0 || r.1;
                proof {
                    let s_new = board.0@;
                    let ii = i as int;
                    assert(s_pre[ii] == s0[ii]);
                    lemma_rescan_cell_summary(
                        s0,
                        s_pre,
                        s_new,
                        forbidden@,
                        ii,
                        r.0,
                        r.1,
                    );
                    lemma_changed_prefix_step(s0, ii, r.0, r.1);
                    lemma_frame_step(s0, s_pre, s_new, ii);
                    lemma_allowed_count_update(s_pre, s_new, ii, 81);
                    crate::solvers::propagation::lemma_count_unfixed_update(
                        s_pre,
                        s_new,
                        ii,
                        81,
                    );
                    // Shed candidates come from digits already placed in
                    // the cell's units, so solutions survive the update.
                    assert forall|dd: int|
                        1 <= dd <= 9 && s_pre[ii].allows(dd) && !(#[trigger] s_new[ii].allows(
                            dd,
                        )) implies digit_placed_in_units(s_pre, ii, dd) by {
                        assert(forbidden@[dd]);
                        assert(digit_placed_in_units(s0, ii, dd));
                        let j = choose|j: int|
                            0 <= j < 81 && j != ii && crate::board::same_unit(ii, j)
                                && crate::board::cell::is_filled((#[trigger] s0[j]).value_spec())
                                && crate::board::cell::digit_of(s0[j].value_spec()) == dd;
                        assert(s0[j].fixed_spec());
                        assert(s_pre[j].fixed_spec() && s_pre[j].value_spec()
                            == s0[j].value_spec());
                    }
                    assert(crate::board::cell::is_filled(s_new[ii].value_spec())
                        ==> s_new[ii].fixed_spec() && 1 <= crate::board::cell::digit_of(
                        s_new[ii].value_spec(),
                    ) <= 9 && forall|dd: int|
                        1 <= dd <= 9 && dd != crate::board::cell::digit_of(s_new[ii].value_spec())
                            ==> !(#[trigger] s_new[ii].allows(dd)));
                    lemma_sols_preserved_rescan_step(s_pre, s_new, ii);
                    assert forall|a: Seq<int>|
                        #[trigger] search::is_sol(a, s0) implies search::is_sol(a, s_new) by {
                        assert(search::is_sol(a, s_pre));
                    }
                    if !changed {
                        assert(!r.0 && !r.1 && !changed_pre);
                        assert(s_new == s_pre);
                    }
                }
            } else {
                proof {
                    lemma_changed_prefix_step(s0, i as int, false, false);
                }
            }
            i = i + 1;
        }
        changed
    }

}

impl Solver for ConstrainedBackTrackingSolver {
    fn name(&self) -> &'static str {
        "constrainedbacktracking"
    }

    fn solve(&self, puzzle: &'static str) -> (r: Result<(bool, String), &'static str>) {
        let mut board = match Board::<ConstrainedCell>::parse_puzzle_string(puzzle) {
            Err(error) => {
                return Err(error);
            },
            Ok(b) => b,
        };
        proof {
            lemma_parsed_board_ready(puzzle@, board);
        }
        let ghost b0 = board;
        ConstrainedBackTrackingSolver::calculate_fixed_board_constrains_until_stable(&mut board);
        let ghost b1 = board;
        let outcome = search::run_search(&mut board);
        proof {
            if outcome.0 {
                lemma_extends_givens(puzzle@, b1, outcome.1@);
            } else {
                assert forall|a: Seq<int>| !search::is_sol(a, b0.0@) by {
                    if search::is_sol(a, b0.0@) {
                        assert(search::is_sol(a, b1.0@));
                    }
                }
                assert forall|sol: Seq<char>| !crate::solvers::is_solution_of(sol, puzzle@) by {
                    lemma_no_assignment_no_string(puzzle@, b0, sol);
                }
            }
        }
        Ok(outcome)
    }
}

} // verus!
