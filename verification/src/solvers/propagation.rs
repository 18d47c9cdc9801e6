//! The queue-driven constraint propagation shared by the constrained
//! solver variants.
//!
//! Per-unit forbidden masks are derived from the fixed cells; open cells
//! are dequeued, their candidate maps narrowed against the masks, and a
//! cell whose masks leave a single digit (or, with hidden singles, whose
//! units force a digit into it) is promoted to fixed, which re-queues its
//! peers. Promotions provably never duplicate a digit already placed in
//! the promoted cell's row, column or box, and every pass provably
//! keeps the grid's solution set intact: whatever completions existed
//! before propagation still exist afterwards.

use crate::board::cell::constrained_cell::{
    bit, lemma_bit_or3, lemma_bit_or_shl, masks_ok, unit_filled_digit, unit_mask_ok,
    ConstrainedCell,
};
use crate::board::cell::{self, IsCell};
use crate::board::{same_unit, unit_cell, Board};
use vstd::prelude::*;

verus! {

/// How many of the first `n` cells are not fixed.
pub open spec fn count_unfixed(s: Seq<ConstrainedCell>, n: int) -> nat
    decreases n,
{
    if n <= 0 {
        0
    } else {
        count_unfixed(s, n - 1) + if !s[n - 1].fixed_spec() {
            1nat
        } else {
            0nat
        }
    }
}

pub proof fn lemma_count_unfixed_update(s: Seq<ConstrainedCell>, s2: Seq<ConstrainedCell>, k: int, n: int)
    requires
        s.len() == 81,
        s2.len() == 81,
        0 <= k < 81,
        forall|j: int| 0 <= j < 81 && j != k ==> s2[j] == s[j],
        0 <= n <= 81,
    ensures
        count_unfixed(s2, n) as int == count_unfixed(s, n) as int + if k < n {
            (if !s2[k].fixed_spec() {
                1int
            } else {
                0int
            }) - (if !s[k].fixed_spec() {
                1int
            } else {
                0int
            })
        } else {
            0
        },
    decreases n,
{
    if n > 0 {
        lemma_count_unfixed_update(s, s2, k, n - 1);
    }
}

/// Where cell `i` sits inside its three units.
#[verifier::rlimit(60)]
pub proof fn lemma_cell_units(i: int)
    requires
        0 <= i < 81,
    ensures
        0 <= i / 9 < 9,
        0 <= i % 9 < 9,
        0 <= 3 * (i / 27) + (i % 9) / 3 < 9,
        unit_cell(i / 9, i % 9) == i,
        unit_cell(9 + i % 9, i / 9) == i,
        unit_cell(18 + 3 * (i / 27) + (i % 9) / 3, 3 * ((i / 9) % 3) + i % 3) == i,
        0 <= 3 * ((i / 9) % 3) + i % 3 < 9,
{
    let r = i / 9;
    let c = i % 9;
    assert(i == 9 * r + c);
    let b = 3 * (r / 3) + c / 3;
    let k = 3 * (r % 3) + c % 3;
    assert(r == 3 * (r / 3) + r % 3);
    assert(i == 27 * (r / 3) + 9 * (r % 3) + c);
    assert(i / 27 == r / 3) by {
        assert(0 <= 9 * (r % 3) + c < 27);
    }
    assert(c % 3 == i % 3) by {
        assert(i == 3 * (3 * r + c / 3) + c % 3);
        assert(0 <= c % 3 < 3);
    }
    assert(b / 3 == r / 3 && b % 3 == c / 3) by {
        assert(0 <= c / 3 < 3);
    }
    assert(unit_cell(18 + b, k) == i) by {
        assert(k / 3 == r % 3 && k % 3 == c % 3);
    }
}

/// Every cell of a row other than `i`'s misses `i`, and likewise for
/// columns and boxes.
#[verifier::rlimit(100)]
#[verifier::spinoff_prover]
proof fn lemma_unit_excludes(u: int, i: int)
    requires
        0 <= u < 27,
        0 <= i < 81,
        u < 9 ==> u != i / 9,
        9 <= u < 18 ==> u - 9 != i % 9,
        18 <= u ==> u - 18 != 3 * (i / 27) + (i % 9) / 3,
    ensures
        forall|k: int| 0 <= k < 9 ==> #[trigger] unit_cell(u, k) != i,
{
    lemma_cell_units(i);
    assert forall|k: int| 0 <= k < 9 implies #[trigger] unit_cell(u, k) != i by {
        let j = unit_cell(u, k);
        if u < 9 {
            assert(j == 9 * u + k);
            assert(j / 9 == u);
        } else if u < 18 {
            assert(j == 9 * k + (u - 9));
            assert(j % 9 == u - 9);
        } else {
            let b = u - 18;
            assert(0 <= b / 3 < 3 && 0 <= b % 3 < 3);
            let rr = 3 * (b / 3) + k / 3;
            let cc = 3 * (b % 3) + k % 3;
            assert(j == 9 * rr + cc);
            assert(0 <= rr < 9 && 0 <= cc < 9);
            assert(j / 9 == rr && j % 9 == cc);
            assert(rr / 3 == b / 3 && cc / 3 == b % 3);
            assert(j == 27 * (rr / 3) + 9 * (rr % 3) + cc);
            assert(j / 27 == rr / 3) by {
                assert(0 <= 9 * (rr % 3) + cc < 27);
            }
            assert(3 * (j / 27) + (j % 9) / 3 == b);
        }
    }
}

/// A unit whose cells avoid `i` keeps its exact mask across an update of
/// cell `i`.
proof fn lemma_unit_mask_untouched(
    s: Seq<ConstrainedCell>,
    s2: Seq<ConstrainedCell>,
    m: u16,
    u: int,
    i: int,
)
    requires
        s.len() == 81,
        s2.len() == 81,
        0 <= i < 81,
        forall|j: int| 0 <= j < 81 && j != i ==> s2[j] == s[j],
        0 <= u < 27,
        forall|k: int| 0 <= k < 9 ==> 0 <= #[trigger] unit_cell(u, k) < 81,
        forall|k: int| 0 <= k < 9 ==> #[trigger] unit_cell(u, k) != i,
        unit_mask_ok(s, m, u),
    ensures
        unit_mask_ok(s2, m, u),
{
    assert forall|d: int| 1 <= d <= 9 implies (#[trigger] bit(m, d) <==> unit_filled_digit(
        s2,
        u,
        d,
    )) by {
        assert forall|k: int| 0 <= k < 9 implies s2[unit_cell(u, k)] == s[#[trigger] unit_cell(
            u,
            k,
        )] by {
            assert(unit_cell(u, k) != i);
        }
        if bit(m, d) {
            let k = choose|k: int|
                0 <= k < 9 && cell::is_filled(s[unit_cell(u, k)].value_spec()) && cell::digit_of(
                    s[unit_cell(u, k)].value_spec(),
                ) == d;
            assert(cell::is_filled((s2[unit_cell(u, k)]).value_spec()) && cell::digit_of(
                s2[unit_cell(u, k)].value_spec(),
            ) == d);
        }
        if unit_filled_digit(s2, u, d) {
            let k = choose|k: int|
                0 <= k < 9 && cell::is_filled(s2[unit_cell(u, k)].value_spec()) && cell::digit_of(
                    s2[unit_cell(u, k)].value_spec(),
                ) == d;
            assert(cell::is_filled((s[unit_cell(u, k)]).value_spec()) && cell::digit_of(
                s[unit_cell(u, k)].value_spec(),
            ) == d);
            assert(unit_filled_digit(s, u, d));
        }
    }
}

/// Filling cell `i` of unit `u` with digit `d` turns the unit's exact
/// mask into the mask with bit `d` set.
proof fn lemma_unit_mask_promote(
    s: Seq<ConstrainedCell>,
    s2: Seq<ConstrainedCell>,
    m: u16,
    u: int,
    i: int,
    d: int,
    k0: int,
)
    requires
        s.len() == 81,
        s2.len() == 81,
        0 <= i < 81,
        forall|j: int| 0 <= j < 81 && j != i ==> s2[j] == s[j],
        !cell::is_filled(s[i].value_spec()),
        cell::is_filled(s2[i].value_spec()),
        cell::digit_of(s2[i].value_spec()) == d,
        1 <= d <= 9,
        0 <= u < 27,
        forall|k: int| 0 <= k < 9 ==> 0 <= #[trigger] unit_cell(u, k) < 81,
        0 <= k0 < 9,
        unit_cell(u, k0) == i,
        unit_mask_ok(s, m, u),
    ensures
        unit_mask_ok(s2, m | (1u16 << (d as u16)), u),
{
    let m2 = m | (1u16 << (d as u16));
    assert forall|d2: int| 1 <= d2 <= 9 implies (#[trigger] bit(m2, d2) <==> unit_filled_digit(
        s2,
        u,
        d2,
    )) by {
        crate::board::cell::constrained_cell::lemma_bit_or_shl(m, d as u16, d2);
        if bit(m, d2) {
            let k = choose|k: int|
                0 <= k < 9 && cell::is_filled(s[unit_cell(u, k)].value_spec()) && cell::digit_of(
                    s[unit_cell(u, k)].value_spec(),
                ) == d2;
            assert(unit_cell(u, k) != i);
            assert(s2[unit_cell(u, k)] == s[unit_cell(u, k)]);
            assert(unit_filled_digit(s2, u, d2));
        }
        if d2 == d {
            assert(cell::is_filled(s2[unit_cell(u, k0)].value_spec()) && cell::digit_of(
                s2[unit_cell(u, k0)].value_spec(),
            ) == d2);
            assert(unit_filled_digit(s2, u, d2));
        }
        if unit_filled_digit(s2, u, d2) {
            let k = choose|k: int|
                0 <= k < 9 && cell::is_filled(s2[unit_cell(u, k)].value_spec()) && cell::digit_of(
                    s2[unit_cell(u, k)].value_spec(),
                ) == d2;
            if unit_cell(u, k) == i {
                assert(d2 == d);
            } else {
                assert(s2[unit_cell(u, k)] == s[unit_cell(u, k)]);
                assert(unit_filled_digit(s, u, d2));
            }
        }
    }
}

/// A digit absent from all three masks of cell `i` is absent from every
/// filled cell sharing a unit with `i`.
#[verifier::rlimit(80)]
proof fn lemma_promote_no_dup(
    s: Seq<ConstrainedCell>,
    rm: Seq<u16>,
    cm: Seq<u16>,
    sm: Seq<u16>,
    i: int,
    d: int,
)
    requires
        s.len() == 81,
        masks_ok(s, rm, cm, sm),
        0 <= i < 81,
        1 <= d <= 9,
        !bit(rm[i / 9], d),
        !bit(cm[i % 9], d),
        !bit(sm[3 * (i / 27) + (i % 9) / 3], d),
    ensures
        forall|j: int|
            0 <= j < 81 && j != i && same_unit(i, j) && cell::is_filled(
                (#[trigger] s[j]).value_spec(),
            ) ==> cell::digit_of(s[j].value_spec()) != d,
{
    lemma_cell_units(i);
    assert forall|j: int|
        0 <= j < 81 && j != i && same_unit(i, j) && cell::is_filled(
            (#[trigger] s[j]).value_spec(),
        ) implies cell::digit_of(s[j].value_spec()) != d by {
        lemma_cell_units(j);
        if cell::digit_of(s[j].value_spec()) == d {
            if i / 9 == j / 9 {
                assert(cell::is_filled(s[unit_cell(i / 9, j % 9)].value_spec()) && cell::digit_of(
                    s[unit_cell(i / 9, j % 9)].value_spec(),
                ) == d);
                assert(unit_filled_digit(s, i / 9, d));
                assert(unit_mask_ok(s, rm[i / 9], i / 9));
                assert(bit(rm[i / 9], d));
            } else if i % 9 == j % 9 {
                assert(cell::is_filled(s[unit_cell(9 + i % 9, j / 9)].value_spec())
                    && cell::digit_of(s[unit_cell(9 + i % 9, j / 9)].value_spec()) == d);
                assert(unit_filled_digit(s, 9 + i % 9, d));
                assert(unit_mask_ok(s, cm[i % 9], 9 + i % 9));
                assert(bit(cm[i % 9], d));
            } else {
                let b = 3 * (i / 27) + (i % 9) / 3;
                assert(b == 3 * (j / 27) + (j % 9) / 3);
                assert(cell::is_filled(
                    s[unit_cell(18 + b, 3 * ((j / 9) % 3) + j % 3)].value_spec(),
                ) && cell::digit_of(s[unit_cell(18 + b, 3 * ((j / 9) % 3) + j % 3)].value_spec())
                    == d);
                assert(unit_filled_digit(s, 18 + b, d));
                assert(unit_mask_ok(s, sm[b], 18 + b));
                assert(bit(sm[b], d));
            }
        }
    }
}

/// After promoting cell `i` to digit `d` and oring `d` into its three
/// masks, all 27 masks are exact again.
#[verifier::rlimit(80)]
proof fn lemma_masks_after_promote(
    s: Seq<ConstrainedCell>,
    s2: Seq<ConstrainedCell>,
    rm: Seq<u16>,
    cm: Seq<u16>,
    sm: Seq<u16>,
    rm2: Seq<u16>,
    cm2: Seq<u16>,
    sm2: Seq<u16>,
    i: int,
    d: int,
)
    requires
        s.len() == 81,
        s2.len() == 81,
        0 <= i < 81,
        forall|j: int| 0 <= j < 81 && j != i ==> s2[j] == s[j],
        !cell::is_filled(s[i].value_spec()),
        cell::is_filled(s2[i].value_spec()),
        cell::digit_of(s2[i].value_spec()) == d,
        1 <= d <= 9,
        masks_ok(s, rm, cm, sm),
        rm2.len() == 9,
        cm2.len() == 9,
        sm2.len() == 9,
        rm2[i / 9] == rm[i / 9] | (1u16 << (d as u16)),
        forall|u: int| 0 <= u < 9 && u != i / 9 ==> rm2[u] == rm[u],
        cm2[i % 9] == cm[i % 9] | (1u16 << (d as u16)),
        forall|u: int| 0 <= u < 9 && u != i % 9 ==> cm2[u] == cm[u],
        sm2[3 * (i / 27) + (i % 9) / 3] == sm[3 * (i / 27) + (i % 9) / 3] | (1u16 << (d as u16)),
        forall|u: int| 0 <= u < 9 && u != 3 * (i / 27) + (i % 9) / 3 ==> sm2[u] == sm[u],
    ensures
        masks_ok(s2, rm2, cm2, sm2),
{
    lemma_cell_units(i);
    assert forall|u: int, k: int| 0 <= u < 27 && 0 <= k < 9 implies 0 <= #[trigger] unit_cell(
        u,
        k,
    ) < 81 by {
        if u >= 18 {
            let b = u - 18;
            assert(0 <= 3 * (b / 3) + k / 3 < 9);
            assert(0 <= 3 * (b % 3) + k % 3 < 9);
        }
    }
    assert forall|u: int| 0 <= u < 9 implies #[trigger] unit_mask_ok(s2, rm2[u], u) by {
        if u == i / 9 {
            lemma_unit_mask_promote(s, s2, rm[u], u, i, d, i % 9);
        } else {
            lemma_unit_excludes(u, i);
            lemma_unit_mask_untouched(s, s2, rm[u], u, i);
        }
    }
    assert forall|u: int| 0 <= u < 9 implies #[trigger] unit_mask_ok(s2, cm2[u], 9 + u) by {
        if u == i % 9 {
            lemma_unit_mask_promote(s, s2, cm[u], 9 + u, i, d, i / 9);
        } else {
            lemma_unit_excludes(9 + u, i);
            lemma_unit_mask_untouched(s, s2, cm[u], 9 + u, i);
        }
    }
    assert forall|u: int| 0 <= u < 9 implies #[trigger] unit_mask_ok(s2, sm2[u], 18 + u) by {
        if u == 3 * (i / 27) + (i % 9) / 3 {
            lemma_unit_mask_promote(s, s2, sm[u], 18 + u, i, d, 3 * ((i / 9) % 3) + i % 3);
        } else {
            lemma_unit_excludes(18 + u, i);
            lemma_unit_mask_untouched(s, s2, sm[u], 18 + u, i);
        }
    }
}

/// Rewriting cell `i` without changing its value keeps all masks exact.
proof fn lemma_masks_congruent(
    s: Seq<ConstrainedCell>,
    s2: Seq<ConstrainedCell>,
    rm: Seq<u16>,
    cm: Seq<u16>,
    sm: Seq<u16>,
    i: int,
)
    requires
        s.len() == 81,
        s2.len() == 81,
        0 <= i < 81,
        forall|j: int| 0 <= j < 81 && j != i ==> s2[j] == s[j],
        s2[i].value_spec() == s[i].value_spec(),
        masks_ok(s, rm, cm, sm),
    ensures
        masks_ok(s2, rm, cm, sm),
{
    assert forall|u: int, k: int| 0 <= u < 27 && 0 <= k < 9 implies 0 <= #[trigger] unit_cell(
        u,
        k,
    ) < 81 by {
        if u >= 18 {
            let b = u - 18;
            assert(0 <= 3 * (b / 3) + k / 3 < 9);
            assert(0 <= 3 * (b % 3) + k % 3 < 9);
        }
    }
    assert forall|u: int, m: u16| 0 <= u < 27 && unit_mask_ok(s, m, u) implies #[trigger]
        unit_mask_ok(s2, m, u) by {
        assert forall|d: int| 1 <= d <= 9 implies (#[trigger] bit(m, d) <==> unit_filled_digit(
            s2,
            u,
            d,
        )) by {
            if bit(m, d) {
                let k = choose|k: int|
                    0 <= k < 9 && cell::is_filled(s[unit_cell(u, k)].value_spec())
                        && cell::digit_of(s[unit_cell(u, k)].value_spec()) == d;
                assert(cell::is_filled(s2[unit_cell(u, k)].value_spec()) && cell::digit_of(
                    s2[unit_cell(u, k)].value_spec(),
                ) == d);
            }
            if unit_filled_digit(s2, u, d) {
                let k = choose|k: int|
                    0 <= k < 9 && cell::is_filled(s2[unit_cell(u, k)].value_spec())
                        && cell::digit_of(s2[unit_cell(u, k)].value_spec()) == d;
                assert(cell::is_filled(s[unit_cell(u, k)].value_spec()) && cell::digit_of(
                    s[unit_cell(u, k)].value_spec(),
                ) == d);
                assert(unit_filled_digit(s, u, d));
            }
        }
    }
}


/// A vector of 81 cleared flags, one per grid cell.
fn cell_flags() -> (v: Vec<bool>)
    ensures
        v@.len() == 81,
        forall|i: int| 0 <= i < 81 ==> !v@[i],
{
    let mut v: Vec<bool> = Vec::with_capacity(81);
    let mut i: usize = 0;
    while i < 81
        invariant
            v@.len() == i,
            0 <= i <= 81,
            forall|j: int| 0 <= j < i ==> !v@[j],
        decreases 81 - i,
    {
        v.push(false);
        i = i + 1;
    }
    v
}

/// What the propagation queue loop preserves about the grid relative to
/// its starting state `s0`.
pub open spec fn propagation_frame(s0: Seq<ConstrainedCell>, s: Seq<ConstrainedCell>) -> bool {
    &&& s.len() == 81
    &&& forall|i: int|
        0 <= i < 81 ==> ((#[trigger] s[i]).fixed_spec() == cell::is_filled(s[i].value_spec()))
    &&& forall|i: int|
        0 <= i < 81 && (#[trigger] s0[i]).fixed_spec() ==> s[i].fixed_spec() && s[i].value_spec()
            == s0[i].value_spec()
    &&& forall|i: int|
        0 <= i < 81 ==> (#[trigger] s[i]).position_spec() == s0[i].position_spec()
    &&& forall|i: int, d: int| 0 <= i < 81 && #[trigger] s[i].allows(d) ==> s0[i].allows(d)
}

/// Cells promoted since `s0` clash with no filled cell of their units.
pub open spec fn promotions_sound(s0: Seq<ConstrainedCell>, s: Seq<ConstrainedCell>) -> bool {
    forall|i: int, j: int|
        0 <= i < 81 && 0 <= j < 81 && (#[trigger] s[i]).fixed_spec() && !s0[i].fixed_spec() && j
            != i && same_unit(i, j) && cell::is_filled((#[trigger] s[j]).value_spec())
            ==> cell::digit_of(s[j].value_spec()) != cell::digit_of(s[i].value_spec())
}

/// Slot `k` of one of `i`'s own units shares a unit with `i`.
#[verifier::rlimit(100)]
pub proof fn lemma_unit_member_same_unit(u: int, i: int, k: int)
    requires
        0 <= i < 81,
        0 <= k < 9,
        ({
            ||| (u < 9 && u == i / 9)
            ||| (9 <= u < 18 && u - 9 == i % 9)
            ||| (18 <= u < 27 && u - 18 == 3 * (i / 27) + (i % 9) / 3)
        }),
    ensures
        0 <= unit_cell(u, k) < 81,
        unit_cell(u, k) == i || same_unit(i, unit_cell(u, k)),
        same_unit(i, unit_cell(u, k)),
{
    lemma_cell_units(i);
    let j = unit_cell(u, k);
    if u < 9 {
        assert(j == 9 * u + k);
        assert(j / 9 == u);
    } else if u < 18 {
        assert(j == 9 * k + (u - 9));
        assert(j / 9 == k && j % 9 == u - 9);
    } else {
        let b = u - 18;
        assert(0 <= b / 3 < 3 && 0 <= b % 3 < 3);
        let rr = 3 * (b / 3) + k / 3;
        let cc = 3 * (b % 3) + k % 3;
        assert(j == 9 * rr + cc);
        assert(0 <= rr < 9 && 0 <= cc < 9);
        assert(j / 9 == rr && j % 9 == cc);
        assert(rr / 3 == b / 3 && cc / 3 == b % 3);
        assert(j == 27 * (rr / 3) + 9 * (rr % 3) + cc);
        assert(j / 27 == rr / 3) by {
            assert(0 <= 9 * (rr % 3) + cc < 27);
        }
        assert(3 * (j / 27) + (j % 9) / 3 == b);
        assert(3 * (i / 27) + (i % 9) / 3 == b);
        assert(i / 27 == j / 27 && (i % 9) / 3 == (j % 9) / 3) by {
            assert(0 <= (i % 9) / 3 < 3 && 0 <= (j % 9) / 3 < 3);
        }
    }
}

/// A digit already placed somewhere in cell `idx`'s units.
pub open spec fn digit_placed_in_units(s: Seq<ConstrainedCell>, idx: int, d: int) -> bool {
    exists|j: int|
        0 <= j < 81 && j != idx && same_unit(idx, j) && cell::is_filled(
            (#[trigger] s[j]).value_spec(),
        ) && cell::digit_of(s[j].value_spec()) == d
}

/// The or of cell `i`'s row, column and box masks.
pub open spec fn cell_masks(rm: Seq<u16>, cm: Seq<u16>, sm: Seq<u16>, i: int) -> u16 {
    rm[i / 9] | cm[i % 9] | sm[3 * (i / 27) + (i % 9) / 3]
}

/// Cell `i` has been narrowed against the masks and is no naked single:
/// every masked digit is shed from its candidate map, and the masks
/// leave it either no digit or at least two.
pub open spec fn cell_settled(
    s: Seq<ConstrainedCell>,
    rm: Seq<u16>,
    cm: Seq<u16>,
    sm: Seq<u16>,
    i: int,
) -> bool {
    &&& forall|d: int|
        1 <= d <= 9 && #[trigger] bit(cell_masks(rm, cm, sm, i), d) ==> !s[i].allows(d)
    &&& forall|d: int|
        1 <= d <= 9 && (forall|d2: int|
            1 <= d2 <= 9 && d2 != d ==> bit(cell_masks(rm, cm, sm, i), d2)) ==> #[trigger] bit(
            cell_masks(rm, cm, sm, i),
            d,
        )
}

/// What queue propagation guarantees of the grid it leaves behind:
/// every open cell's candidate map is narrowed exactly by the digits
/// placed in its row, column and box, and no open cell is left a naked
/// single (a digit all of whose alternatives are placed around it would
/// have been promoted).
pub open spec fn queue_propagated(s0: Seq<ConstrainedCell>, s: Seq<ConstrainedCell>) -> bool {
    &&& forall|i: int, d: int|
        #![trigger s[i].allows(d)]
        0 <= i < 81 && !s[i].fixed_spec() && 1 <= d <= 9 ==> (s[i].allows(d) <==> s0[i].allows(d)
            && !digit_placed_in_units(s, i, d))
    &&& forall|i: int, d: int|
        #![trigger digit_placed_in_units(s, i, d)]
        0 <= i < 81 && !s[i].fixed_spec() && 1 <= d <= 9 && (forall|d2: int|
            1 <= d2 <= 9 && d2 != d ==> digit_placed_in_units(s, i, d2))
            ==> digit_placed_in_units(s, i, d)
}

/// Unit `u` is one of cell `i`'s three units: its row, its column, or
/// its box.
pub open spec fn unit_of_cell(u: int, i: int) -> bool {
    ||| (0 <= u < 9 && u == i / 9)
    ||| (9 <= u < 18 && u - 9 == i % 9)
    ||| (18 <= u < 27 && u - 18 == 3 * (i / 27) + (i % 9) / 3)
}

/// The promotion of cell `i` was a naked single: every digit but its
/// own is placed in its row, column or box.
pub open spec fn naked_single_promotion(s: Seq<ConstrainedCell>, i: int) -> bool {
    forall|d2: int|
        1 <= d2 <= 9 && d2 != cell::digit_of(s[i].value_spec()) ==> #[trigger] digit_placed_in_units(
            s,
            i,
            d2,
        )
}

/// The promotion of cell `i` was a hidden single: in one of its units
/// every other cell is filled or sees `i`'s digit placed around
/// itself, so no sibling could take that digit.
pub open spec fn hidden_single_promotion(s: Seq<ConstrainedCell>, i: int) -> bool {
    exists|u: int|
        #![trigger unit_of_cell(u, i)]
        unit_of_cell(u, i) && forall|k: int|
            0 <= k < 9 && #[trigger] unit_cell(u, k) != i ==> cell::is_filled(
                s[unit_cell(u, k)].value_spec(),
            ) || digit_placed_in_units(s, unit_cell(u, k), cell::digit_of(s[i].value_spec()))
}

/// The mask form of `naked_single_promotion`, kept while the masks are
/// live.
pub open spec fn naked_masks(
    s: Seq<ConstrainedCell>,
    rm: Seq<u16>,
    cm: Seq<u16>,
    sm: Seq<u16>,
    i: int,
) -> bool {
    forall|d2: int|
        1 <= d2 <= 9 && d2 != cell::digit_of(s[i].value_spec()) ==> #[trigger] bit(
            cell_masks(rm, cm, sm, i),
            d2,
        )
}

/// The mask form of `hidden_single_promotion`.
pub open spec fn hidden_masks(
    s: Seq<ConstrainedCell>,
    rm: Seq<u16>,
    cm: Seq<u16>,
    sm: Seq<u16>,
    i: int,
) -> bool {
    exists|u: int|
        #![trigger unit_of_cell(u, i)]
        unit_of_cell(u, i) && forall|k: int|
            0 <= k < 9 && #[trigger] unit_cell(u, k) != i ==> cell::is_filled(
                s[unit_cell(u, k)].value_spec(),
            ) || bit(cell_masks(rm, cm, sm, unit_cell(u, k)), cell::digit_of(s[i].value_spec()))
}

/// Every cell promoted since `s0` is justified as a naked single, or,
/// when hidden singles are on, as a hidden single, against the masks.
pub open spec fn promos_justified(
    s0: Seq<ConstrainedCell>,
    s: Seq<ConstrainedCell>,
    rm: Seq<u16>,
    cm: Seq<u16>,
    sm: Seq<u16>,
    hidden: bool,
) -> bool {
    forall|i: int|
        0 <= i < 81 && (#[trigger] s[i]).fixed_spec() && !s0[i].fixed_spec() ==> naked_masks(
            s,
            rm,
            cm,
            sm,
            i,
        ) || (hidden && hidden_masks(s, rm, cm, sm, i))
}

/// A digit recorded in the masks of a cell holding a different digit
/// is placed in one of the cell's units.
#[verifier::rlimit(100)]
proof fn lemma_mask_digit_placed(
    s: Seq<ConstrainedCell>,
    rm: Seq<u16>,
    cm: Seq<u16>,
    sm: Seq<u16>,
    i: int,
    d: int,
)
    requires
        s.len() == 81,
        masks_ok(s, rm, cm, sm),
        0 <= i < 81,
        1 <= d <= 9,
        bit(cell_masks(rm, cm, sm, i), d),
        cell::digit_of(s[i].value_spec()) != d,
    ensures
        digit_placed_in_units(s, i, d),
{
    lemma_cell_units(i);
    let b = 3 * (i / 27) + (i % 9) / 3;
    lemma_bit_or3(rm[i / 9], cm[i % 9], sm[b], d);
    let u: int = if bit(rm[i / 9], d) {
        i / 9
    } else if bit(cm[i % 9], d) {
        9 + i % 9
    } else {
        18 + b
    };
    assert(unit_filled_digit(s, u, d)) by {
        if u < 9 {
            assert(unit_mask_ok(s, rm[u], u));
        } else if u < 18 {
            assert(unit_mask_ok(s, cm[i % 9], 9 + i % 9));
        } else {
            assert(unit_mask_ok(s, sm[b], 18 + b));
        }
    }
    let k = choose|k: int|
        0 <= k < 9 && cell::is_filled(s[unit_cell(u, k)].value_spec()) && cell::digit_of(
            s[unit_cell(u, k)].value_spec(),
        ) == d;
    lemma_unit_member_same_unit(u, i, k);
    let j = unit_cell(u, k);
    assert(j != i);
    assert(digit_placed_in_units(s, i, d));
}

/// Candidates missing from open cells' maps relative to the starting
/// grid are all recorded in the masks.
pub open spec fn shed_by_masks(
    s0: Seq<ConstrainedCell>,
    s: Seq<ConstrainedCell>,
    rm: Seq<u16>,
    cm: Seq<u16>,
    sm: Seq<u16>,
) -> bool {
    forall|i: int, d: int|
        #![trigger s[i].allows(d)]
        0 <= i < 81 && 1 <= d <= 9 && !s[i].fixed_spec() && s0[i].allows(d) && !s[i].allows(d)
            ==> bit(cell_masks(rm, cm, sm, i), d)
}

/// Every open cell not marked as queued is settled against the masks.
pub open spec fn unmarked_settled(
    s: Seq<ConstrainedCell>,
    marks: Seq<bool>,
    rm: Seq<u16>,
    cm: Seq<u16>,
    sm: Seq<u16>,
) -> bool {
    forall|i: int|
        0 <= i < 81 && !(#[trigger] s[i]).fixed_spec() && !marks[i] ==> cell_settled(
            s,
            rm,
            cm,
            sm,
            i,
        )
}

/// For an open cell the or of its three unit masks records exactly the
/// digits placed in its row, column and box.
#[verifier::rlimit(100)]
pub proof fn lemma_masks_vs_placed(
    s: Seq<ConstrainedCell>,
    rm: Seq<u16>,
    cm: Seq<u16>,
    sm: Seq<u16>,
    i: int,
    d: int,
)
    requires
        s.len() == 81,
        masks_ok(s, rm, cm, sm),
        0 <= i < 81,
        1 <= d <= 9,
        !cell::is_filled(s[i].value_spec()),
    ensures
        bit(cell_masks(rm, cm, sm, i), d) <==> digit_placed_in_units(s, i, d),
{
    lemma_cell_units(i);
    let b = 3 * (i / 27) + (i % 9) / 3;
    lemma_bit_or3(rm[i / 9], cm[i % 9], sm[b], d);
    if bit(cell_masks(rm, cm, sm, i), d) {
        let u: int = if bit(rm[i / 9], d) {
            i / 9
        } else if bit(cm[i % 9], d) {
            9 + i % 9
        } else {
            18 + b
        };
        assert(unit_filled_digit(s, u, d)) by {
            if u < 9 {
                assert(unit_mask_ok(s, rm[u], u));
            } else if u < 18 {
                assert(unit_mask_ok(s, cm[i % 9], 9 + i % 9));
            } else {
                assert(unit_mask_ok(s, sm[b], 18 + b));
            }
        }
        let k = choose|k: int|
            0 <= k < 9 && cell::is_filled(s[unit_cell(u, k)].value_spec()) && cell::digit_of(
                s[unit_cell(u, k)].value_spec(),
            ) == d;
        lemma_unit_member_same_unit(u, i, k);
        let j = unit_cell(u, k);
        assert(j != i);
        assert(digit_placed_in_units(s, i, d));
    }
    if digit_placed_in_units(s, i, d) {
        let j = choose|j: int|
            0 <= j < 81 && j != i && same_unit(i, j) && cell::is_filled(
                (#[trigger] s[j]).value_spec(),
            ) && cell::digit_of(s[j].value_spec()) == d;
        lemma_cell_units(j);
        if i / 9 == j / 9 {
            assert(cell::is_filled(s[unit_cell(i / 9, j % 9)].value_spec()) && cell::digit_of(
                s[unit_cell(i / 9, j % 9)].value_spec(),
            ) == d);
            assert(unit_filled_digit(s, i / 9, d));
            assert(unit_mask_ok(s, rm[i / 9], i / 9));
        } else if i % 9 == j % 9 {
            assert(cell::is_filled(s[unit_cell(9 + i % 9, j / 9)].value_spec()) && cell::digit_of(
                s[unit_cell(9 + i % 9, j / 9)].value_spec(),
            ) == d);
            assert(unit_filled_digit(s, 9 + i % 9, d));
            assert(unit_mask_ok(s, cm[i % 9], 9 + i % 9));
        } else {
            assert(b == 3 * (j / 27) + (j % 9) / 3);
            assert(cell::is_filled(
                s[unit_cell(18 + b, 3 * ((j / 9) % 3) + j % 3)].value_spec(),
            ) && cell::digit_of(s[unit_cell(18 + b, 3 * ((j / 9) % 3) + j % 3)].value_spec()) == d);
            assert(unit_filled_digit(s, 18 + b, d));
            assert(unit_mask_ok(s, sm[b], 18 + b));
        }
    }
}

/// Oring a promoted digit into the three masks of cell `idx` never
/// clears a bit of any cell's combined mask, and leaves the combined
/// mask of a cell sharing no unit with `idx` untouched.
proof fn lemma_cell_masks_promote_update(
    rm: Seq<u16>,
    cm: Seq<u16>,
    sm: Seq<u16>,
    rm2: Seq<u16>,
    cm2: Seq<u16>,
    sm2: Seq<u16>,
    idx: int,
    dp: int,
)
    requires
        rm.len() == 9,
        cm.len() == 9,
        sm.len() == 9,
        rm2.len() == 9,
        cm2.len() == 9,
        sm2.len() == 9,
        0 <= idx < 81,
        1 <= dp <= 9,
        rm2[idx / 9] == rm[idx / 9] | (1u16 << (dp as u16)),
        forall|u: int| 0 <= u < 9 && u != idx / 9 ==> rm2[u] == rm[u],
        cm2[idx % 9] == cm[idx % 9] | (1u16 << (dp as u16)),
        forall|u: int| 0 <= u < 9 && u != idx % 9 ==> cm2[u] == cm[u],
        sm2[3 * (idx / 27) + (idx % 9) / 3] == sm[3 * (idx / 27) + (idx % 9) / 3] | (1u16 << (
        dp as u16)),
        forall|u: int| 0 <= u < 9 && u != 3 * (idx / 27) + (idx % 9) / 3 ==> sm2[u] == sm[u],
    ensures
        forall|i: int, d: int|
            0 <= i < 81 && 1 <= d <= 9 && bit(cell_masks(rm, cm, sm, i), d) ==> #[trigger] bit(
                cell_masks(rm2, cm2, sm2, i),
                d,
            ),
        forall|i: int|
            0 <= i < 81 && !same_unit(i, idx) ==> #[trigger] cell_masks(rm2, cm2, sm2, i)
                == cell_masks(rm, cm, sm, i),
{
    assert forall|i: int, d: int|
        0 <= i < 81 && 1 <= d <= 9 && bit(cell_masks(rm, cm, sm, i), d) implies #[trigger] bit(
        cell_masks(rm2, cm2, sm2, i),
        d,
    ) by {
        let b = 3 * (i / 27) + (i % 9) / 3;
        assert(0 <= i / 9 < 9 && 0 <= i % 9 < 9 && 0 <= b < 9) by {
            lemma_cell_units(i);
        }
        lemma_bit_or3(rm[i / 9], cm[i % 9], sm[b], d);
        lemma_bit_or3(rm2[i / 9], cm2[i % 9], sm2[b], d);
        if bit(rm[i / 9], d) {
            if i / 9 == idx / 9 {
                crate::board::cell::constrained_cell::lemma_bit_or_shl(rm[i / 9], dp as u16, d);
            }
        } else if bit(cm[i % 9], d) {
            if i % 9 == idx % 9 {
                crate::board::cell::constrained_cell::lemma_bit_or_shl(cm[i % 9], dp as u16, d);
            }
        } else {
            if b == 3 * (idx / 27) + (idx % 9) / 3 {
                crate::board::cell::constrained_cell::lemma_bit_or_shl(sm[b], dp as u16, d);
            }
        }
    }
    assert forall|i: int|
        0 <= i < 81 && !same_unit(i, idx) implies #[trigger] cell_masks(rm2, cm2, sm2, i)
        == cell_masks(rm, cm, sm, i) by {
        let b = 3 * (i / 27) + (i % 9) / 3;
        let bx = 3 * (idx / 27) + (idx % 9) / 3;
        assert(i / 9 != idx / 9 && i % 9 != idx % 9);
        assert(b != bx) by {
            assert(0 <= (i % 9) / 3 < 3 && 0 <= (idx % 9) / 3 < 3);
        }
    }
}

/// Narrowing the dequeued open cell `i` against its own combined mask
/// keeps the candidate-shedding record and the settledness of the other
/// unmarked open cells intact.
#[verifier::rlimit(100)]
proof fn lemma_narrow_preserves_tracking(
    s0: Seq<ConstrainedCell>,
    s_it: Seq<ConstrainedCell>,
    s1: Seq<ConstrainedCell>,
    marks: Seq<bool>,
    rm: Seq<u16>,
    cm: Seq<u16>,
    sm: Seq<u16>,
    i: int,
    forbidden: u16,
)
    requires
        s_it.len() == 81,
        s1.len() == 81,
        marks.len() == 81,
        0 <= i < 81,
        forall|j: int| 0 <= j < 81 && j != i ==> s1[j] == s_it[j],
        forbidden == cell_masks(rm, cm, sm, i),
        shed_by_masks(s0, s_it, rm, cm, sm),
        forall|i2: int|
            0 <= i2 < 81 && !(#[trigger] s_it[i2]).fixed_spec() && !marks[i2] && i2 != i
                ==> cell_settled(s_it, rm, cm, sm, i2),
        forall|d: int| !(#[trigger] s1[i].allows(d)) && s_it[i].allows(d) ==> bit(forbidden, d),
        s1[i].fixed_spec() == s_it[i].fixed_spec(),
    ensures
        shed_by_masks(s0, s1, rm, cm, sm),
        forall|i2: int|
            0 <= i2 < 81 && !(#[trigger] s1[i2]).fixed_spec() && !marks[i2] && i2 != i
                ==> cell_settled(s1, rm, cm, sm, i2),
{
    assert forall|i2: int, d: int|
        #![trigger s1[i2].allows(d)]
        0 <= i2 < 81 && 1 <= d <= 9 && !s1[i2].fixed_spec() && s0[i2].allows(d) && !s1[i2].allows(
            d,
        ) implies bit(cell_masks(rm, cm, sm, i2), d) by {
        if i2 != i {
            assert(s1[i2] == s_it[i2]);
        } else {
            if s_it[i].allows(d) {
                assert(bit(forbidden, d));
            }
        }
    }
    assert forall|i2: int|
        0 <= i2 < 81 && !(#[trigger] s1[i2]).fixed_spec() && !marks[i2] && i2 != i implies
        cell_settled(s1, rm, cm, sm, i2) by {
        assert(s1[i2] == s_it[i2]);
        assert(cell_settled(s_it, rm, cm, sm, i2));
    }
}

/// Promoting the dequeued cell and oring its digit into its three masks
/// keeps the candidate-shedding record, and keeps every unmarked open
/// cell outside the promoted cell's units settled.
#[verifier::rlimit(100)]
proof fn lemma_promote_preserves_tracking(
    s0: Seq<ConstrainedCell>,
    s1b: Seq<ConstrainedCell>,
    s2: Seq<ConstrainedCell>,
    marks: Seq<bool>,
    rm0: Seq<u16>,
    cm0: Seq<u16>,
    sm0: Seq<u16>,
    rm2: Seq<u16>,
    cm2: Seq<u16>,
    sm2: Seq<u16>,
    i: int,
    d: int,
)
    requires
        s1b.len() == 81,
        s2.len() == 81,
        marks.len() == 81,
        rm0.len() == 9,
        cm0.len() == 9,
        sm0.len() == 9,
        rm2.len() == 9,
        cm2.len() == 9,
        sm2.len() == 9,
        0 <= i < 81,
        1 <= d <= 9,
        forall|j: int| 0 <= j < 81 && j != i ==> s2[j] == s1b[j],
        s2[i].fixed_spec(),
        rm2[i / 9] == rm0[i / 9] | (1u16 << (d as u16)),
        forall|u: int| 0 <= u < 9 && u != i / 9 ==> rm2[u] == rm0[u],
        cm2[i % 9] == cm0[i % 9] | (1u16 << (d as u16)),
        forall|u: int| 0 <= u < 9 && u != i % 9 ==> cm2[u] == cm0[u],
        sm2[3 * (i / 27) + (i % 9) / 3] == sm0[3 * (i / 27) + (i % 9) / 3] | (1u16 << (d as u16)),
        forall|u: int| 0 <= u < 9 && u != 3 * (i / 27) + (i % 9) / 3 ==> sm2[u] == sm0[u],
        shed_by_masks(s0, s1b, rm0, cm0, sm0),
        forall|i2: int|
            0 <= i2 < 81 && !(#[trigger] s1b[i2]).fixed_spec() && !marks[i2] && i2 != i
                ==> cell_settled(s1b, rm0, cm0, sm0, i2),
    ensures
        shed_by_masks(s0, s2, rm2, cm2, sm2),
        forall|i2: int|
            0 <= i2 < 81 && !(#[trigger] s2[i2]).fixed_spec() && !marks[i2] && !same_unit(i2, i)
                ==> cell_settled(s2, rm2, cm2, sm2, i2),
{
    lemma_cell_masks_promote_update(rm0, cm0, sm0, rm2, cm2, sm2, i, d);
    assert forall|i2: int, d2: int|
        #![trigger s2[i2].allows(d2)]
        0 <= i2 < 81 && 1 <= d2 <= 9 && !s2[i2].fixed_spec() && s0[i2].allows(d2)
            && !s2[i2].allows(d2) implies bit(cell_masks(rm2, cm2, sm2, i2), d2) by {
        assert(i2 != i);
        assert(s2[i2] == s1b[i2]);
        assert(bit(cell_masks(rm0, cm0, sm0, i2), d2));
    }
    assert forall|i2: int|
        0 <= i2 < 81 && !(#[trigger] s2[i2]).fixed_spec() && !marks[i2] && !same_unit(i2, i)
        implies cell_settled(s2, rm2, cm2, sm2, i2) by {
        assert(i2 != i);
        assert(s2[i2] == s1b[i2]);
        assert(cell_settled(s1b, rm0, cm0, sm0, i2));
        assert(cell_masks(rm2, cm2, sm2, i2) == cell_masks(rm0, cm0, sm0, i2));
    }
}

/// A dequeued open cell that offered no promotion is settled: its map
/// excludes every masked digit, and its masks leave either none or at
/// least two digits.
proof fn lemma_unpromoted_settled(
    s1: Seq<ConstrainedCell>,
    rm: Seq<u16>,
    cm: Seq<u16>,
    sm: Seq<u16>,
    i: int,
    forbidden: u16,
    n_allowed: u16,
    single: u16,
    second: u16,
)
    requires
        s1.len() == 81,
        0 <= i < 81,
        forbidden == cell_masks(rm, cm, sm, i),
        forall|dd: int| 1 <= dd <= 9 && #[trigger] bit(forbidden, dd) ==> !s1[i].allows(dd),
        n_allowed == 0 || n_allowed >= 2,
        n_allowed == 0 ==> forall|dd: int| 1 <= dd <= 9 ==> #[trigger] bit(forbidden, dd),
        n_allowed >= 2 ==> 1 <= single <= 9 && 1 <= second <= 9 && second != single && !bit(
            forbidden,
            single as int,
        ) && !bit(forbidden, second as int),
    ensures
        cell_settled(s1, rm, cm, sm, i),
{
    assert forall|dd: int|
        1 <= dd <= 9 && (forall|dd2: int| 1 <= dd2 <= 9 && dd2 != dd ==> bit(forbidden, dd2))
        implies #[trigger] bit(forbidden, dd) by {
        if n_allowed >= 2 {
            if single as int != dd {
                assert(bit(forbidden, single as int));
                assert(false);
            } else {
                assert(bit(forbidden, second as int));
                assert(false);
            }
        }
    }
}

/// At an empty queue every open cell is settled, which together with
/// the shedding record and the exact masks yields the propagation
/// contract.
#[verifier::rlimit(100)]
proof fn lemma_queue_propagated_at_exit(
    s0: Seq<ConstrainedCell>,
    s: Seq<ConstrainedCell>,
    rm: Seq<u16>,
    cm: Seq<u16>,
    sm: Seq<u16>,
)
    requires
        s0.len() == 81,
        s.len() == 81,
        masks_ok(s, rm, cm, sm),
        forall|i: int|
            0 <= i < 81 ==> ((#[trigger] s[i]).fixed_spec() == cell::is_filled(s[i].value_spec())),
        forall|i: int, d: int| 0 <= i < 81 && #[trigger] s[i].allows(d) ==> s0[i].allows(d),
        shed_by_masks(s0, s, rm, cm, sm),
        forall|i: int|
            0 <= i < 81 && !(#[trigger] s[i]).fixed_spec() ==> cell_settled(s, rm, cm, sm, i),
    ensures
        queue_propagated(s0, s),
{
    assert forall|i: int, d: int|
        #![trigger s[i].allows(d)]
        0 <= i < 81 && !s[i].fixed_spec() && 1 <= d <= 9 implies (s[i].allows(d) <==> s0[i].allows(
        d,
    ) && !digit_placed_in_units(s, i, d)) by {
        assert(!cell::is_filled(s[i].value_spec()));
        lemma_masks_vs_placed(s, rm, cm, sm, i, d);
        assert(cell_settled(s, rm, cm, sm, i));
        if s[i].allows(d) {
            assert(s0[i].allows(d));
            assert(!bit(cell_masks(rm, cm, sm, i), d));
        } else {
            if s0[i].allows(d) {
                assert(bit(cell_masks(rm, cm, sm, i), d));
            }
        }
    }
    assert forall|i: int, d: int|
        #![trigger digit_placed_in_units(s, i, d)]
        0 <= i < 81 && !s[i].fixed_spec() && 1 <= d <= 9 && (forall|d2: int|
            1 <= d2 <= 9 && d2 != d ==> digit_placed_in_units(s, i, d2)) implies
        digit_placed_in_units(s, i, d) by {
        assert(!cell::is_filled(s[i].value_spec()));
        assert(cell_settled(s, rm, cm, sm, i));
        assert forall|d2: int| 1 <= d2 <= 9 && d2 != d implies bit(
            cell_masks(rm, cm, sm, i),
            d2,
        ) by {
            lemma_masks_vs_placed(s, rm, cm, sm, i, d2);
        }
        assert(bit(cell_masks(rm, cm, sm, i), d));
        lemma_masks_vs_placed(s, rm, cm, sm, i, d);
    }
}

/// An update that leaves every cell's value and fixed flag alone keeps
/// every promotion justified.
#[verifier::rlimit(100)]
proof fn lemma_justified_narrow_step(
    s0: Seq<ConstrainedCell>,
    s: Seq<ConstrainedCell>,
    s2: Seq<ConstrainedCell>,
    rm: Seq<u16>,
    cm: Seq<u16>,
    sm: Seq<u16>,
    hidden: bool,
)
    requires
        s0.len() == 81,
        s.len() == 81,
        s2.len() == 81,
        forall|j: int| 0 <= j < 81 ==> (#[trigger] s2[j]).value_spec() == s[j].value_spec(),
        forall|j: int| 0 <= j < 81 ==> (#[trigger] s2[j]).fixed_spec() == s[j].fixed_spec(),
        promos_justified(s0, s, rm, cm, sm, hidden),
    ensures
        promos_justified(s0, s2, rm, cm, sm, hidden),
{
    assert forall|i: int|
        0 <= i < 81 && (#[trigger] s2[i]).fixed_spec() && !s0[i].fixed_spec() implies naked_masks(
        s2,
        rm,
        cm,
        sm,
        i,
    ) || (hidden && hidden_masks(s2, rm, cm, sm, i)) by {
        assert(s[i].fixed_spec());
        if naked_masks(s, rm, cm, sm, i) {
            assert(naked_masks(s2, rm, cm, sm, i));
        } else {
            let u = choose|u: int|
                #![trigger unit_of_cell(u, i)]
                unit_of_cell(u, i) && forall|k: int|
                    0 <= k < 9 && #[trigger] unit_cell(u, k) != i ==> cell::is_filled(
                        s[unit_cell(u, k)].value_spec(),
                    ) || bit(cell_masks(rm, cm, sm, unit_cell(u, k)), cell::digit_of(
                        s[i].value_spec(),
                    ));
            assert forall|k: int|
                0 <= k < 9 && #[trigger] unit_cell(u, k) != i implies cell::is_filled(
                s2[unit_cell(u, k)].value_spec(),
            ) || bit(cell_masks(rm, cm, sm, unit_cell(u, k)), cell::digit_of(
                s2[i].value_spec(),
            )) by {
                lemma_unit_member_same_unit(u, i, k);
            }
            assert(hidden_masks(s2, rm, cm, sm, i));
        }
    }
}

/// Promoting one more cell and growing its three masks keeps every
/// promotion justified, the fresh one included.
#[verifier::rlimit(100)]
proof fn lemma_justified_promote_step(
    s0: Seq<ConstrainedCell>,
    s1b: Seq<ConstrainedCell>,
    s2: Seq<ConstrainedCell>,
    rm0: Seq<u16>,
    cm0: Seq<u16>,
    sm0: Seq<u16>,
    rm2: Seq<u16>,
    cm2: Seq<u16>,
    sm2: Seq<u16>,
    idx: int,
    dp: int,
    hidden: bool,
)
    requires
        s0.len() == 81,
        s1b.len() == 81,
        s2.len() == 81,
        rm0.len() == 9,
        cm0.len() == 9,
        sm0.len() == 9,
        rm2.len() == 9,
        cm2.len() == 9,
        sm2.len() == 9,
        0 <= idx < 81,
        1 <= dp <= 9,
        forall|j: int| 0 <= j < 81 && j != idx ==> s2[j] == s1b[j],
        cell::is_filled(s2[idx].value_spec()),
        rm2[idx / 9] == rm0[idx / 9] | (1u16 << (dp as u16)),
        forall|u: int| 0 <= u < 9 && u != idx / 9 ==> rm2[u] == rm0[u],
        cm2[idx % 9] == cm0[idx % 9] | (1u16 << (dp as u16)),
        forall|u: int| 0 <= u < 9 && u != idx % 9 ==> cm2[u] == cm0[u],
        sm2[3 * (idx / 27) + (idx % 9) / 3] == sm0[3 * (idx / 27) + (idx % 9) / 3] | (1u16 << (
        dp as u16)),
        forall|u: int| 0 <= u < 9 && u != 3 * (idx / 27) + (idx % 9) / 3 ==> sm2[u] == sm0[u],
        forall|j: int| 0 <= j < 81 ==> cell::value_wf((#[trigger] s2[j]).value_spec()),
        forall|j: int|
            0 <= j < 81 && (#[trigger] s2[j]).fixed_spec() ==> cell::is_filled(
                s2[j].value_spec(),
            ),
        promos_justified(s0, s1b, rm0, cm0, sm0, hidden),
        naked_masks(s2, rm2, cm2, sm2, idx) || (hidden && hidden_masks(s2, rm2, cm2, sm2, idx)),
    ensures
        promos_justified(s0, s2, rm2, cm2, sm2, hidden),
{
    lemma_cell_masks_promote_update(rm0, cm0, sm0, rm2, cm2, sm2, idx, dp);
    assert forall|i: int|
        0 <= i < 81 && (#[trigger] s2[i]).fixed_spec() && !s0[i].fixed_spec() implies naked_masks(
        s2,
        rm2,
        cm2,
        sm2,
        i,
    ) || (hidden && hidden_masks(s2, rm2, cm2, sm2, i)) by {
        if i != idx {
            assert(s2[i] == s1b[i]);
            assert(s1b[i].fixed_spec());
            if naked_masks(s1b, rm0, cm0, sm0, i) {
                assert forall|d2: int|
                    1 <= d2 <= 9 && d2 != cell::digit_of(s2[i].value_spec()) implies #[trigger] bit(
                    cell_masks(rm2, cm2, sm2, i),
                    d2,
                ) by {
                    assert(bit(cell_masks(rm0, cm0, sm0, i), d2));
                }
                assert(naked_masks(s2, rm2, cm2, sm2, i));
            } else {
                let u = choose|u: int|
                    #![trigger unit_of_cell(u, i)]
                    unit_of_cell(u, i) && forall|k: int|
                        0 <= k < 9 && #[trigger] unit_cell(u, k) != i ==> cell::is_filled(
                            s1b[unit_cell(u, k)].value_spec(),
                        ) || bit(cell_masks(rm0, cm0, sm0, unit_cell(u, k)), cell::digit_of(
                            s1b[i].value_spec(),
                        ));
                let dg = cell::digit_of(s2[i].value_spec());
                assert forall|k: int|
                    0 <= k < 9 && #[trigger] unit_cell(u, k) != i implies cell::is_filled(
                    s2[unit_cell(u, k)].value_spec(),
                ) || bit(cell_masks(rm2, cm2, sm2, unit_cell(u, k)), dg) by {
                    lemma_unit_member_same_unit(u, i, k);
                    let j = unit_cell(u, k);
                    if j == idx {
                        assert(cell::is_filled(s2[j].value_spec()));
                    } else {
                        assert(s2[j] == s1b[j]);
                        if !cell::is_filled(s1b[j].value_spec()) {
                            assert(bit(cell_masks(rm0, cm0, sm0, j), dg));
                            assert(1 <= dg <= 9) by {
                                assert(cell::is_filled(s2[i].value_spec()));
                                assert(cell::value_wf(s2[i].value_spec()));
                            }
                        }
                    }
                }
                assert(hidden_masks(s2, rm2, cm2, sm2, i));
            }
        }
    }
}

/// With exact masks, mask-form justifications become statements about
/// the digits placed around each promoted cell.
#[verifier::rlimit(100)]
proof fn lemma_promotions_characterized(
    s0: Seq<ConstrainedCell>,
    s: Seq<ConstrainedCell>,
    rm: Seq<u16>,
    cm: Seq<u16>,
    sm: Seq<u16>,
    hidden: bool,
)
    requires
        s0.len() == 81,
        s.len() == 81,
        masks_ok(s, rm, cm, sm),
        forall|i: int| 0 <= i < 81 ==> cell::value_wf((#[trigger] s[i]).value_spec()),
        forall|i: int|
            0 <= i < 81 && (#[trigger] s[i]).fixed_spec() ==> cell::is_filled(s[i].value_spec()),
        promos_justified(s0, s, rm, cm, sm, hidden),
    ensures
        forall|i: int|
            0 <= i < 81 && (#[trigger] s[i]).fixed_spec() && !s0[i].fixed_spec()
                ==> naked_single_promotion(s, i) || (hidden && hidden_single_promotion(s, i)),
{
    assert forall|i: int|
        0 <= i < 81 && (#[trigger] s[i]).fixed_spec() && !s0[i].fixed_spec() implies
        naked_single_promotion(s, i) || (hidden && hidden_single_promotion(s, i)) by {
        if naked_masks(s, rm, cm, sm, i) {
            assert forall|d2: int|
                1 <= d2 <= 9 && d2 != cell::digit_of(s[i].value_spec()) implies #[trigger]
                digit_placed_in_units(s, i, d2) by {
                lemma_mask_digit_placed(s, rm, cm, sm, i, d2);
            }
            assert(naked_single_promotion(s, i));
        } else {
            let u = choose|u: int|
                #![trigger unit_of_cell(u, i)]
                unit_of_cell(u, i) && forall|k: int|
                    0 <= k < 9 && #[trigger] unit_cell(u, k) != i ==> cell::is_filled(
                        s[unit_cell(u, k)].value_spec(),
                    ) || bit(cell_masks(rm, cm, sm, unit_cell(u, k)), cell::digit_of(
                        s[i].value_spec(),
                    ));
            let dg = cell::digit_of(s[i].value_spec());
            assert forall|k: int|
                0 <= k < 9 && #[trigger] unit_cell(u, k) != i implies cell::is_filled(
                s[unit_cell(u, k)].value_spec(),
            ) || digit_placed_in_units(s, unit_cell(u, k), dg) by {
                lemma_unit_member_same_unit(u, i, k);
                let j = unit_cell(u, k);
                if !cell::is_filled(s[j].value_spec()) {
                    assert(bit(cell_masks(rm, cm, sm, j), dg));
                    assert(1 <= dg <= 9);
                    assert(cell::digit_of(s[j].value_spec()) == 0);
                    lemma_mask_digit_placed(s, rm, cm, sm, j, dg);
                }
            }
            assert(hidden_single_promotion(s, i));
        }
    }
}

/// The queue and the in-queue marks agree: every queued position is
/// marked, no cell is queued twice, and every marked cell is queued.
pub open spec fn queue_coherent(q: Seq<crate::board::cell::CellPosition>, marks: Seq<bool>) -> bool {
    &&& forall|qi: int|
        0 <= qi < q.len() ==> 0 <= cell::flat_index(#[trigger] q[qi]) < 81 && marks[cell::flat_index(
            q[qi],
        )]
    &&& forall|q1: int, q2: int|
        0 <= q1 < q2 < q.len() ==> cell::flat_index(q[q1]) != cell::flat_index(q[q2])
    &&& forall|i: int|
        0 <= i < 81 && #[trigger] marks[i] ==> exists|qi: int|
            0 <= qi < q.len() && cell::flat_index(#[trigger] q[qi]) == i
}

/// Popping the queue's last position and clearing its mark keeps the
/// queue and the marks in agreement.
proof fn lemma_queue_coherent_pop(
    q: Seq<crate::board::cell::CellPosition>,
    marks: Seq<bool>,
    marks2: Seq<bool>,
)
    requires
        queue_coherent(q, marks),
        q.len() > 0,
        marks.len() == 81,
        marks2 == marks.update(cell::flat_index(q.last()), false),
    ensures
        queue_coherent(q.drop_last(), marks2),
{
    let t = cell::flat_index(q.last());
    let q2 = q.drop_last();
    assert forall|qi: int|
        0 <= qi < q2.len() implies 0 <= cell::flat_index(#[trigger] q2[qi]) < 81
        && marks2[cell::flat_index(q2[qi])] by {
        assert(q2[qi] == q[qi]);
        assert(cell::flat_index(q[qi]) != t);
    }
    assert forall|i: int|
        0 <= i < 81 && #[trigger] marks2[i] implies exists|qi: int|
        0 <= qi < q2.len() && cell::flat_index(#[trigger] q2[qi]) == i by {
        assert(i != t);
        assert(marks[i]);
        let qi = choose|qi: int| 0 <= qi < q.len() && cell::flat_index(#[trigger] q[qi]) == i;
        assert(qi != q.len() - 1);
        assert(cell::flat_index(q2[qi]) == i);
    }
}

/// Pushing an unmarked cell's position and marking it keeps the queue
/// and the marks in agreement.
proof fn lemma_queue_coherent_push(
    q: Seq<crate::board::cell::CellPosition>,
    marks: Seq<bool>,
    marks2: Seq<bool>,
    p: crate::board::cell::CellPosition,
)
    requires
        queue_coherent(q, marks),
        marks.len() == 81,
        0 <= cell::flat_index(p) < 81,
        !marks[cell::flat_index(p)],
        marks2 == marks.update(cell::flat_index(p), true),
    ensures
        queue_coherent(q.push(p), marks2),
{
    let t = cell::flat_index(p);
    let q2 = q.push(p);
    assert forall|q1: int, q2i: int|
        0 <= q1 < q2i < q2.len() implies cell::flat_index(q2[q1]) != cell::flat_index(
        q2[q2i],
    ) by {
        if q2i == q.len() {
            assert(q2[q1] == q[q1]);
            assert(marks[cell::flat_index(q[q1])]);
        } else {
            assert(q2[q1] == q[q1] && q2[q2i] == q[q2i]);
        }
    }
    assert forall|i: int|
        0 <= i < 81 && #[trigger] marks2[i] implies exists|qi: int|
        0 <= qi < q2.len() && cell::flat_index(#[trigger] q2[qi]) == i by {
        if i == t {
            assert(cell::flat_index(q2[q.len() as int]) == i);
        } else {
            assert(marks[i]);
            let qi = choose|qi: int| 0 <= qi < q.len() && cell::flat_index(#[trigger] q[qi]) == i;
            assert(cell::flat_index(q2[qi]) == i);
        }
    }
}

/// A digit recorded in one of cell `i`'s unit masks cannot be the
/// digit a solution gives to the still-open cell `i`.
proof fn lemma_masked_digit_not_in_sol(
    s: Seq<ConstrainedCell>,
    rm: Seq<u16>,
    cm: Seq<u16>,
    sm: Seq<u16>,
    i: int,
    d: int,
    a: Seq<int>,
)
    requires
        s.len() == 81,
        masks_ok(s, rm, cm, sm),
        forall|i2: int|
            0 <= i2 < 81 ==> ((#[trigger] s[i2]).fixed_spec() == cell::is_filled(
                s[i2].value_spec(),
            )),
        crate::solvers::search::is_sol(a, s),
        0 <= i < 81,
        1 <= d <= 9,
        !cell::is_filled(s[i].value_spec()),
        bit(rm[i / 9], d) || bit(cm[i % 9], d) || bit(sm[3 * (i / 27) + (i % 9) / 3], d),
    ensures
        a[i] != d,
{
    lemma_cell_units(i);
    let u: int = if bit(rm[i / 9], d) {
        i / 9
    } else if bit(cm[i % 9], d) {
        9 + i % 9
    } else {
        18 + 3 * (i / 27) + (i % 9) / 3
    };
    assert(unit_filled_digit(s, u, d)) by {
        if u < 9 {
            assert(unit_mask_ok(s, rm[u], u));
        } else if u < 18 {
            let c = i % 9;
            assert(unit_mask_ok(s, cm[c], 9 + c));
        } else {
            let b = 3 * (i / 27) + (i % 9) / 3;
            assert(unit_mask_ok(s, sm[b], 18 + b));
        }
    }
    let k = choose|k: int|
        0 <= k < 9 && cell::is_filled(s[unit_cell(u, k)].value_spec()) && cell::digit_of(
            s[unit_cell(u, k)].value_spec(),
        ) == d;
    lemma_unit_member_same_unit(u, i, k);
    let j = unit_cell(u, k);
    assert(s[j].fixed_spec());
    assert(a[j] == d);
    assert(j != i);
}

/// Narrowing an open cell's candidate map against its unit masks keeps
/// every solution a solution.
proof fn lemma_sols_preserved_narrow(
    s: Seq<ConstrainedCell>,
    s2: Seq<ConstrainedCell>,
    idx: int,
    rm: Seq<u16>,
    cm: Seq<u16>,
    sm: Seq<u16>,
)
    requires
        s.len() == 81,
        s2.len() == 81,
        0 <= idx < 81,
        forall|j: int| 0 <= j < 81 && j != idx ==> s2[j] == s[j],
        masks_ok(s, rm, cm, sm),
        forall|i2: int|
            0 <= i2 < 81 ==> ((#[trigger] s[i2]).fixed_spec() == cell::is_filled(
                s[i2].value_spec(),
            )),
        !cell::is_filled(s[idx].value_spec()),
        s2[idx].value_spec() == s[idx].value_spec(),
        s2[idx].fixed_spec() == s[idx].fixed_spec(),
        forall|d: int|
            !(#[trigger] s2[idx].allows(d)) && s[idx].allows(d) ==> 1 <= d <= 9 && (bit(
                rm[idx / 9],
                d,
            ) || bit(cm[idx % 9], d) || bit(sm[3 * (idx / 27) + (idx % 9) / 3], d)),
    ensures
        forall|a: Seq<int>|
            #[trigger] crate::solvers::search::is_sol(a, s)
                ==> crate::solvers::search::is_sol(a, s2),
{
    assert forall|a: Seq<int>| #[trigger] crate::solvers::search::is_sol(a, s)
        implies crate::solvers::search::is_sol(a, s2) by {
        assert forall|i: int|
            0 <= i < 81 && (#[trigger] s2[i]).fixed_spec() implies a[i] == cell::digit_of(
            s2[i].value_spec()) by {
            if i != idx {
                assert(s2[i] == s[i]);
            }
        }
        assert forall|i: int|
            0 <= i < 81 && !(#[trigger] s2[i]).fixed_spec() implies s2[i].allows(a[i]) by {
            if i != idx {
                assert(s2[i] == s[i]);
            } else {
                assert(s[idx].allows(a[idx]));
                if !s2[idx].allows(a[idx]) {
                    lemma_masked_digit_not_in_sol(s, rm, cm, sm, idx, a[idx], a);
                }
            }
        }
    }
}

/// Promoting an open cell to the only digit its unit masks leave keeps
/// every solution a solution: any solution must put that digit there.
proof fn lemma_sols_preserved_promote(
    s: Seq<ConstrainedCell>,
    s2: Seq<ConstrainedCell>,
    idx: int,
    rm: Seq<u16>,
    cm: Seq<u16>,
    sm: Seq<u16>,
    d: int,
)
    requires
        s.len() == 81,
        s2.len() == 81,
        0 <= idx < 81,
        forall|j: int| 0 <= j < 81 && j != idx ==> s2[j] == s[j],
        masks_ok(s, rm, cm, sm),
        forall|i2: int|
            0 <= i2 < 81 ==> ((#[trigger] s[i2]).fixed_spec() == cell::is_filled(
                s[i2].value_spec(),
            )),
        !cell::is_filled(s[idx].value_spec()),
        cell::digit_of(s2[idx].value_spec()) == d,
        s2[idx].fixed_spec(),
        1 <= d <= 9,
        forall|d2: int|
            1 <= d2 <= 9 && d2 != d ==> (#[trigger] bit(rm[idx / 9], d2) || bit(cm[idx % 9], d2)
                || bit(sm[3 * (idx / 27) + (idx % 9) / 3], d2)),
    ensures
        forall|a: Seq<int>|
            #[trigger] crate::solvers::search::is_sol(a, s)
                ==> crate::solvers::search::is_sol(a, s2),
{
    assert forall|a: Seq<int>| #[trigger] crate::solvers::search::is_sol(a, s)
        implies crate::solvers::search::is_sol(a, s2) by {
        assert(1 <= a[idx] <= 9);
        if a[idx] != d {
            lemma_masked_digit_not_in_sol(s, rm, cm, sm, idx, a[idx], a);
            assert(false);
        }
        assert forall|i: int|
            0 <= i < 81 && (#[trigger] s2[i]).fixed_spec() implies a[i] == cell::digit_of(
            s2[i].value_spec()) by {
            if i != idx {
                assert(s2[i] == s[i]);
            }
        }
        assert forall|i: int|
            0 <= i < 81 && !(#[trigger] s2[i]).fixed_spec() implies s2[i].allows(a[i]) by {
            assert(i != idx);
            assert(s2[i] == s[i]);
        }
    }
}

/// Every digit lands somewhere in every unit of a duplicate-free total
/// assignment: nine distinct digits across nine cells cover `1..=9`.
proof fn lemma_unit_pigeonhole(a: Seq<int>, u: int, d: int)
    requires
        crate::solvers::search::asg_wf(a),
        crate::solvers::search::asg_no_dup(a),
        0 <= u < 27,
        1 <= d <= 9,
    ensures
        exists|k: int| 0 <= k < 9 && a[#[trigger] unit_cell(u, k)] == d,
{
    broadcast use vstd::set::group_set_axioms;

    if !(exists|k: int| 0 <= k < 9 && a[#[trigger] unit_cell(u, k)] == d) {
        let vals = Seq::new(9, |k: int| a[unit_cell(u, k)]);
        assert forall|k: int| 0 <= k < 9 implies 0 <= #[trigger] unit_cell(u, k) < 81 by {
            if k < 8 {
                crate::solvers::search::lemma_unit_pair_same_unit(u, k, k + 1);
            } else {
                crate::solvers::search::lemma_unit_pair_same_unit(u, 0, k);
            }
        }
        assert(vals.no_duplicates()) by {
            assert forall|k1: int, k2: int|
                0 <= k1 < vals.len() && 0 <= k2 < vals.len() && k1 != k2 implies vals[k1]
                != vals[k2] by {
                if k1 < k2 {
                    crate::solvers::search::lemma_unit_pair_same_unit(u, k1, k2);
                } else {
                    crate::solvers::search::lemma_unit_pair_same_unit(u, k2, k1);
                }
            }
        }
        vals.unique_seq_to_set();
        let target = vstd::set_lib::set_int_range(1, 10).remove(d);
        vstd::set_lib::lemma_int_range(1, 10);
        assert(vstd::set_lib::set_int_range(1, 10).contains(d));
        assert(target.len() == 8);
        assert forall|x: int| vals.to_set().contains(x) implies target.contains(x) by {
            let k = choose|k: int| 0 <= k < vals.len() && vals[k] == x;
            assert(x == a[unit_cell(u, k)]);
            assert(1 <= x <= 9);
            assert(x != d);
        }
        assert(vals.to_set().subset_of(target));
        vstd::set_lib::lemma_len_subset(vals.to_set(), target);
        assert(vals.to_set().len() == 9);
        assert(false);
    }
}

/// No `bit` survives an or with a complement unless the complemented
/// word masked it.
proof fn lemma_bit_or_not(acc: u16, x: u16, d: int)
    requires
        0 <= d <= 15,
    ensures
        !bit(acc | !x, d) ==> (!bit(acc, d) && bit(x, d)),
{
    let du = d as u16;
    assert((((acc | !x) >> du) & 1u16 != 1u16) ==> ((acc >> du) & 1u16 != 1u16 && (x >> du) & 1u16
        == 1u16)) by (bit_vector)
        requires
            du <= 15,
    ;
}

/// Cell `j` is already filled, or digit `d` is recorded in one of its
/// unit masks, so no solution can give `d` to any open sibling through
/// `j`.
pub open spec fn cell_cannot_take(
    s: Seq<ConstrainedCell>,
    rm: Seq<u16>,
    cm: Seq<u16>,
    sm: Seq<u16>,
    j: int,
    d: int,
) -> bool {
    ||| cell::is_filled(s[j].value_spec())
    ||| bit(rm[j / 9], d)
    ||| bit(cm[j % 9], d)
    ||| bit(sm[3 * (j / 27) + (j % 9) / 3], d)
}

/// Promoting a hidden single keeps every solution a solution: no other
/// cell of the triggering unit can take the digit, so any solution must
/// put it in the promoted cell.
#[verifier::rlimit(100)]
proof fn lemma_sols_preserved_promote_hidden(
    s: Seq<ConstrainedCell>,
    s2: Seq<ConstrainedCell>,
    idx: int,
    rm: Seq<u16>,
    cm: Seq<u16>,
    sm: Seq<u16>,
    d: int,
    u: int,
)
    requires
        s.len() == 81,
        s2.len() == 81,
        0 <= idx < 81,
        forall|j: int| 0 <= j < 81 && j != idx ==> s2[j] == s[j],
        masks_ok(s, rm, cm, sm),
        forall|i2: int|
            0 <= i2 < 81 ==> ((#[trigger] s[i2]).fixed_spec() == cell::is_filled(
                s[i2].value_spec(),
            )),
        !cell::is_filled(s[idx].value_spec()),
        cell::digit_of(s2[idx].value_spec()) == d,
        s2[idx].fixed_spec(),
        1 <= d <= 9,
        !bit(rm[idx / 9], d),
        !bit(cm[idx % 9], d),
        !bit(sm[3 * (idx / 27) + (idx % 9) / 3], d),
        ({
            ||| (u < 9 && u == idx / 9)
            ||| (9 <= u < 18 && u - 9 == idx % 9)
            ||| (18 <= u < 27 && u - 18 == 3 * (idx / 27) + (idx % 9) / 3)
        }),
        forall|k: int|
            0 <= k < 9 && #[trigger] unit_cell(u, k) != idx ==> cell_cannot_take(
                s,
                rm,
                cm,
                sm,
                unit_cell(u, k),
                d,
            ),
    ensures
        forall|a: Seq<int>|
            #[trigger] crate::solvers::search::is_sol(a, s)
                ==> crate::solvers::search::is_sol(a, s2),
{
    lemma_cell_units(idx);
    assert forall|a: Seq<int>| #[trigger] crate::solvers::search::is_sol(a, s)
        implies crate::solvers::search::is_sol(a, s2) by {
        lemma_unit_pigeonhole(a, u, d);
        let ks = choose|k: int| 0 <= k < 9 && a[#[trigger] unit_cell(u, k)] == d;
        let j = unit_cell(u, ks);
        lemma_unit_member_same_unit(u, idx, ks);
        if j != idx {
            assert(cell_cannot_take(s, rm, cm, sm, j, d));
            if cell::is_filled(s[j].value_spec()) {
                assert(s[j].fixed_spec());
                assert(a[j] == cell::digit_of(s[j].value_spec()));
                assert(cell::digit_of(s[j].value_spec()) == d);
                assert(unit_filled_digit(s, u, d)) by {
                    assert(cell::is_filled(s[unit_cell(u, ks)].value_spec()) && cell::digit_of(
                        s[unit_cell(u, ks)].value_spec(),
                    ) == d);
                }
                if u < 9 {
                    assert(unit_mask_ok(s, rm[u], u));
                    assert(bit(rm[idx / 9], d));
                } else if u < 18 {
                    assert(unit_mask_ok(s, cm[u - 9], u));
                    assert(bit(cm[idx % 9], d));
                } else {
                    let b = 3 * (idx / 27) + (idx % 9) / 3;
                    assert(u == 18 + b);
                    assert(unit_mask_ok(s, sm[b], 18 + b));
                    assert(bit(sm[b], d));
                }
                assert(false);
            } else {
                lemma_masked_digit_not_in_sol(s, rm, cm, sm, j, d, a);
                assert(false);
            }
        }
        assert(a[idx] == d);
        assert forall|i: int|
            0 <= i < 81 && (#[trigger] s2[i]).fixed_spec() implies a[i] == cell::digit_of(
            s2[i].value_spec()) by {
            if i != idx {
                assert(s2[i] == s[i]);
            }
        }
        assert forall|i: int|
            0 <= i < 81 && !(#[trigger] s2[i]).fixed_spec() implies s2[i].allows(a[i]) by {
            assert(i != idx);
            assert(s2[i] == s[i]);
        }
    }
}

/// One touched cell keeps the propagation frame intact: the touched
/// cell was not fixed, stays consistent, and only sheds candidates.
pub proof fn lemma_frame_step(
    s0: Seq<ConstrainedCell>,
    s1: Seq<ConstrainedCell>,
    s2: Seq<ConstrainedCell>,
    i: int,
)
    requires
        s0.len() == 81,
        propagation_frame(s0, s1),
        s2.len() == 81,
        0 <= i < 81,
        forall|j: int| 0 <= j < 81 && j != i ==> s2[j] == s1[j],
        s2[i].position_spec() == s1[i].position_spec(),
        s2[i].fixed_spec() == cell::is_filled(s2[i].value_spec()),
        !s1[i].fixed_spec(),
        forall|d: int| #[trigger] s2[i].allows(d) ==> s1[i].allows(d),
    ensures
        propagation_frame(s0, s2),
{
    assert forall|i2: int|
        0 <= i2 < 81 && (#[trigger] s0[i2]).fixed_spec() implies s2[i2].fixed_spec()
        && s2[i2].value_spec() == s0[i2].value_spec() by {
        assert(s1[i2].fixed_spec());
        assert(i2 != i);
    }
    assert forall|i2: int, d: int|
        0 <= i2 < 81 && #[trigger] s2[i2].allows(d) implies s0[i2].allows(d) by {
        if i2 != i {
            assert(s2[i2] == s1[i2]);
        }
        assert(s1[i2].allows(d));
    }
    assert forall|i2: int| 0 <= i2 < 81 implies ((#[trigger] s2[i2]).fixed_spec()
        == cell::is_filled(s2[i2].value_spec())) by {
        if i2 != i {
            assert(s2[i2] == s1[i2]);
        }
    }
}

/// The propagation frame is transitive across passes.
pub proof fn lemma_frame_trans(
    s0: Seq<ConstrainedCell>,
    s1: Seq<ConstrainedCell>,
    s2: Seq<ConstrainedCell>,
)
    requires
        s0.len() == 81,
        propagation_frame(s0, s1),
        propagation_frame(s1, s2),
    ensures
        propagation_frame(s0, s2),
{
    assert forall|i: int|
        0 <= i < 81 && (#[trigger] s0[i]).fixed_spec() implies s2[i].fixed_spec()
        && s2[i].value_spec() == s0[i].value_spec() by {
        assert(s1[i].fixed_spec() && s1[i].value_spec() == s0[i].value_spec());
    }
    assert forall|i: int, d: int|
        0 <= i < 81 && #[trigger] s2[i].allows(d) implies s0[i].allows(d) by {
        assert(s1[i].allows(d));
    }
}

/// The row accumulator's clear bits certify that every already-scanned
/// sibling in the cell's row is snapshot-fixed or masked for the digit.
pub open spec fn row_cover_ok(
    aer: u16,
    fm: Seq<bool>,
    rm: Seq<u16>,
    cm: Seq<u16>,
    sm: Seq<u16>,
    idx_r: int,
    idx_c: int,
    upto: int,
) -> bool {
    forall|dd: int, ii2: int|
        1 <= dd <= 9 && 0 <= ii2 < upto && ii2 != idx_c && !(#[trigger] bit(aer, dd)) ==> (
        #[trigger] fm[idx_r * 9 + ii2]) || bit(
            rm[idx_r] | cm[ii2] | sm[(idx_r / 3) * 3 + ii2 / 3],
            dd,
        )
}

/// The column counterpart of `row_cover_ok`.
pub open spec fn col_cover_ok(
    aec: u16,
    fm: Seq<bool>,
    rm: Seq<u16>,
    cm: Seq<u16>,
    sm: Seq<u16>,
    idx_r: int,
    idx_c: int,
    upto: int,
) -> bool {
    forall|dd: int, ii2: int|
        1 <= dd <= 9 && 0 <= ii2 < upto && ii2 != idx_r && !(#[trigger] bit(aec, dd)) ==> (
        #[trigger] fm[ii2 * 9 + idx_c]) || bit(
            rm[ii2] | cm[idx_c] | sm[(ii2 / 3) * 3 + idx_c / 3],
            dd,
        )
}

/// The box counterpart of `row_cover_ok`.
pub open spec fn sq_cover_ok(
    aes: u16,
    fm: Seq<bool>,
    rm: Seq<u16>,
    cm: Seq<u16>,
    sm: Seq<u16>,
    idx_r: int,
    idx_c: int,
    sq: int,
    upto: int,
) -> bool {
    forall|dd: int, ii2: int|
        1 <= dd <= 9 && 0 <= ii2 < upto && !((idx_r / 3) * 3 + ii2 / 3 == idx_r && (idx_c / 3) * 3
            + ii2 % 3 == idx_c) && !(#[trigger] bit(aes, dd)) ==> (#[trigger] fm[((idx_r / 3) * 3
            + ii2 / 3) * 9 + (idx_c / 3) * 3 + ii2 % 3]) || bit(
            rm[(idx_r / 3) * 3 + ii2 / 3] | cm[(idx_c / 3) * 3 + ii2 % 3] | sm[sq],
            dd,
        )
}

/// The unit whose clear accumulator bit triggers a hidden single: the
/// cell's row, else its column, else its box.
pub open spec fn chosen_unit(aer: u16, aec: u16, idx: int, d: int) -> int {
    if !bit(aer, d) {
        idx / 9
    } else if !bit(aec, d) {
        9 + idx % 9
    } else {
        18 + 3 * (idx / 27) + (idx % 9) / 3
    }
}

/// A clear row-accumulator bit means no row sibling can take the digit.
#[verifier::rlimit(100)]
#[verifier::spinoff_prover]
proof fn lemma_row_covered(
    s_it: Seq<ConstrainedCell>,
    s1b: Seq<ConstrainedCell>,
    fm: Seq<bool>,
    rm0: Seq<u16>,
    cm0: Seq<u16>,
    sm0: Seq<u16>,
    aer: u16,
    idx: int,
    d: int,
)
    requires
        s_it.len() == 81,
        s1b.len() == 81,
        fm.len() == 81,
        0 <= idx < 81,
        1 <= d <= 9,
        forall|j: int| 0 <= j < 81 && j != idx ==> s1b[j] == s_it[j],
        forall|j: int| 0 <= j < 81 && #[trigger] fm[j] ==> cell::is_filled(s_it[j].value_spec()),
        row_cover_ok(aer, fm, rm0, cm0, sm0, idx / 9, idx % 9, 9),
        !bit(aer, d),
    ensures
        forall|k: int|
            0 <= k < 9 && #[trigger] unit_cell(idx / 9, k) != idx ==> cell_cannot_take(
                s1b,
                rm0,
                cm0,
                sm0,
                unit_cell(idx / 9, k),
                d,
            ),
{
    lemma_cell_units(idx);
    let idx_r = idx / 9;
    let idx_c = idx % 9;
    assert forall|k: int|
        0 <= k < 9 && #[trigger] unit_cell(idx_r, k) != idx implies cell_cannot_take(
        s1b,
        rm0,
        cm0,
        sm0,
        unit_cell(idx_r, k),
        d,
    ) by {
        let j = unit_cell(idx_r, k);
        assert(j == idx_r * 9 + k);
        assert(k != idx_c);
        assert(fm[idx_r * 9 + k] || bit(rm0[idx_r] | cm0[k] | sm0[(idx_r / 3) * 3 + k / 3], d));
        if fm[j] {
            assert(cell::is_filled(s_it[j].value_spec()));
            assert(s1b[j] == s_it[j]);
        } else {
            crate::board::cell::constrained_cell::lemma_bit_or3(rm0[idx_r], cm0[k], sm0[(idx_r / 3) * 3 + k / 3], d);
            lemma_cell_units(j);
            assert(j / 9 == idx_r && j % 9 == k);
            assert(3 * (j / 27) + (j % 9) / 3 == (idx_r / 3) * 3 + k / 3);
        }
    }
}

/// A clear column-accumulator bit means no column sibling can take the
/// digit.
#[verifier::rlimit(100)]
#[verifier::spinoff_prover]
proof fn lemma_col_covered(
    s_it: Seq<ConstrainedCell>,
    s1b: Seq<ConstrainedCell>,
    fm: Seq<bool>,
    rm0: Seq<u16>,
    cm0: Seq<u16>,
    sm0: Seq<u16>,
    aec: u16,
    idx: int,
    d: int,
)
    requires
        s_it.len() == 81,
        s1b.len() == 81,
        fm.len() == 81,
        0 <= idx < 81,
        1 <= d <= 9,
        forall|j: int| 0 <= j < 81 && j != idx ==> s1b[j] == s_it[j],
        forall|j: int| 0 <= j < 81 && #[trigger] fm[j] ==> cell::is_filled(s_it[j].value_spec()),
        col_cover_ok(aec, fm, rm0, cm0, sm0, idx / 9, idx % 9, 9),
        !bit(aec, d),
    ensures
        forall|k: int|
            0 <= k < 9 && #[trigger] unit_cell(9 + idx % 9, k) != idx ==> cell_cannot_take(
                s1b,
                rm0,
                cm0,
                sm0,
                unit_cell(9 + idx % 9, k),
                d,
            ),
{
    lemma_cell_units(idx);
    let idx_r = idx / 9;
    let idx_c = idx % 9;
    assert forall|k: int|
        0 <= k < 9 && #[trigger] unit_cell(9 + idx_c, k) != idx implies cell_cannot_take(
        s1b,
        rm0,
        cm0,
        sm0,
        unit_cell(9 + idx_c, k),
        d,
    ) by {
        let j = unit_cell(9 + idx_c, k);
        assert(j == 9 * k + idx_c);
        assert(k != idx_r);
        assert(fm[k * 9 + idx_c] || bit(rm0[k] | cm0[idx_c] | sm0[(k / 3) * 3 + idx_c / 3], d));
        if fm[j] {
            assert(cell::is_filled(s_it[j].value_spec()));
            assert(s1b[j] == s_it[j]);
        } else {
            crate::board::cell::constrained_cell::lemma_bit_or3(rm0[k], cm0[idx_c], sm0[(k / 3) * 3 + idx_c / 3], d);
            lemma_cell_units(j);
            assert(j / 9 == k && j % 9 == idx_c);
            assert(3 * (j / 27) + (j % 9) / 3 == (k / 3) * 3 + idx_c / 3);
        }
    }
}

/// A clear box-accumulator bit means no box sibling can take the digit.
#[verifier::rlimit(100)]
#[verifier::spinoff_prover]
proof fn lemma_sq_covered(
    s_it: Seq<ConstrainedCell>,
    s1b: Seq<ConstrainedCell>,
    fm: Seq<bool>,
    rm0: Seq<u16>,
    cm0: Seq<u16>,
    sm0: Seq<u16>,
    aes: u16,
    idx: int,
    d: int,
)
    requires
        s_it.len() == 81,
        s1b.len() == 81,
        fm.len() == 81,
        0 <= idx < 81,
        1 <= d <= 9,
        forall|j: int| 0 <= j < 81 && j != idx ==> s1b[j] == s_it[j],
        forall|j: int| 0 <= j < 81 && #[trigger] fm[j] ==> cell::is_filled(s_it[j].value_spec()),
        sq_cover_ok(
            aes,
            fm,
            rm0,
            cm0,
            sm0,
            idx / 9,
            idx % 9,
            3 * (idx / 27) + (idx % 9) / 3,
            9,
        ),
        !bit(aes, d),
    ensures
        forall|k: int|
            0 <= k < 9 && #[trigger] unit_cell(18 + 3 * (idx / 27) + (idx % 9) / 3, k) != idx
                ==> cell_cannot_take(
                s1b,
                rm0,
                cm0,
                sm0,
                unit_cell(18 + 3 * (idx / 27) + (idx % 9) / 3, k),
                d,
            ),
{
    lemma_cell_units(idx);
    let idx_r = idx / 9;
    let idx_c = idx % 9;
    let b = 3 * (idx / 27) + (idx % 9) / 3;
    assert(b / 3 == idx_r / 3 && b % 3 == idx_c / 3) by {
        assert(0 <= idx_c / 3 < 3);
    }
    assert forall|k: int|
        0 <= k < 9 && #[trigger] unit_cell(18 + b, k) != idx implies cell_cannot_take(
        s1b,
        rm0,
        cm0,
        sm0,
        unit_cell(18 + b, k),
        d,
    ) by {
        let j = unit_cell(18 + b, k);
        let scr = (idx_r / 3) * 3 + k / 3;
        let scc = (idx_c / 3) * 3 + k % 3;
        assert(j == 9 * scr + scc);
        assert(!(scr == idx_r && scc == idx_c));
        assert(fm[scr * 9 + scc] || bit(rm0[scr] | cm0[scc] | sm0[b], d));
        if fm[j] {
            assert(cell::is_filled(s_it[j].value_spec()));
            assert(s1b[j] == s_it[j]);
        } else {
            crate::board::cell::constrained_cell::lemma_bit_or3(rm0[scr], cm0[scc], sm0[b], d);
            lemma_cell_units(j);
            assert(j / 9 == scr && j % 9 == scc);
            assert(3 * (j / 27) + (j % 9) / 3 == b) by {
                assert(scr / 3 == b / 3 && scc / 3 == b % 3) by {
                    assert(0 <= k / 3 < 3 && 0 <= k % 3 < 3);
                }
            }
        }
    }
    assert forall|k: int|
        0 <= k < 9 && #[trigger] unit_cell(18 + 3 * (idx / 27) + (idx % 9) / 3, k)
            != idx implies cell_cannot_take(
        s1b,
        rm0,
        cm0,
        sm0,
        unit_cell(18 + 3 * (idx / 27) + (idx % 9) / 3, k),
        d,
    ) by {
        assert(18 + 3 * (idx / 27) + (idx % 9) / 3 == 18 + b);
        assert(unit_cell(18 + b, k) != idx);
        assert(cell_cannot_take(s1b, rm0, cm0, sm0, unit_cell(18 + b, k), d));
    }
}

/// A clear accumulator bit for one of the cell's units means no sibling
/// of that unit can take the digit.
proof fn lemma_hidden_unit_covered(
    s_it: Seq<ConstrainedCell>,
    s1b: Seq<ConstrainedCell>,
    fm: Seq<bool>,
    rm0: Seq<u16>,
    cm0: Seq<u16>,
    sm0: Seq<u16>,
    aer: u16,
    aec: u16,
    aes: u16,
    idx: int,
    d: int,
)
    requires
        s_it.len() == 81,
        s1b.len() == 81,
        fm.len() == 81,
        0 <= idx < 81,
        1 <= d <= 9,
        forall|j: int| 0 <= j < 81 && j != idx ==> s1b[j] == s_it[j],
        forall|j: int|
            0 <= j < 81 && #[trigger] fm[j] ==> cell::is_filled(s_it[j].value_spec()),
        row_cover_ok(aer, fm, rm0, cm0, sm0, idx / 9, idx % 9, 9),
        col_cover_ok(aec, fm, rm0, cm0, sm0, idx / 9, idx % 9, 9),
        sq_cover_ok(
            aes,
            fm,
            rm0,
            cm0,
            sm0,
            idx / 9,
            idx % 9,
            3 * (idx / 27) + (idx % 9) / 3,
            9,
        ),
        !bit(aer, d) || !bit(aec, d) || !bit(aes, d),
    ensures
        ({
            let u = chosen_unit(aer, aec, idx, d);
            &&& ({
                ||| (u < 9 && u == idx / 9)
                ||| (9 <= u < 18 && u - 9 == idx % 9)
                ||| (18 <= u < 27 && u - 18 == 3 * (idx / 27) + (idx % 9) / 3)
            })
            &&& forall|k: int|
                0 <= k < 9 && #[trigger] unit_cell(u, k) != idx ==> cell_cannot_take(
                    s1b,
                    rm0,
                    cm0,
                    sm0,
                    unit_cell(u, k),
                    d,
                )
        }),
{
    lemma_cell_units(idx);
    if !bit(aer, d) {
        lemma_row_covered(s_it, s1b, fm, rm0, cm0, sm0, aer, idx, d);
    } else if !bit(aec, d) {
        lemma_col_covered(s_it, s1b, fm, rm0, cm0, sm0, aec, idx, d);
    } else {
        lemma_sq_covered(s_it, s1b, fm, rm0, cm0, sm0, aes, idx, d);
    }
}

/// The open cells not yet marked for re-checking all sit, within each
/// of the promoted cell `idx`'s units, at a slot the peer sweep has not
/// reached.
pub open spec fn peer_slots_pending(
    s: Seq<ConstrainedCell>,
    marks: Seq<bool>,
    idx: int,
    ii: int,
) -> bool {
    forall|i2: int|
        0 <= i2 < 81 && !(#[trigger] s[i2]).fixed_spec() && !marks[i2] ==> ((i2 / 9 == idx / 9
            ==> i2 % 9 >= ii) && (i2 % 9 == idx % 9 ==> i2 / 9 >= ii) && (i2 / 27 == idx / 27 && (
        i2 % 9) / 3 == (idx % 9) / 3 ==> 3 * ((i2 / 9) % 3) + i2 % 3 >= ii))
}

/// A cell of the promoted cell's box at sweep slot `ii` is the cell the
/// sweep visits at that slot.
#[verifier::rlimit(100)]
proof fn lemma_box_slot(i2: int, idx: int, ii: int)
    requires
        0 <= i2 < 81,
        0 <= idx < 81,
        0 <= ii < 9,
        i2 / 27 == idx / 27,
        (i2 % 9) / 3 == (idx % 9) / 3,
        3 * ((i2 / 9) % 3) + i2 % 3 == ii,
    ensures
        i2 == ((idx / 9) / 3 * 3 + ii / 3) * 9 + (idx % 9) / 3 * 3 + ii % 3,
{
    assert((i2 / 9) / 3 == i2 / 27);
    assert((idx / 9) / 3 == idx / 27);
    assert((i2 / 9) % 3 == ii / 3 && i2 % 3 == ii % 3) by {
        assert(0 <= (i2 / 9) % 3 < 3 && 0 <= i2 % 3 < 3);
    }
    assert(i2 / 9 == 3 * ((i2 / 9) / 3) + (i2 / 9) % 3);
    assert(i2 % 9 == 3 * ((i2 % 9) / 3) + (i2 % 9) % 3);
    assert((i2 % 9) % 3 == i2 % 3) by {
        assert(i2 == 9 * (i2 / 9) + i2 % 9);
        assert((9 * (i2 / 9) + i2 % 9) % 3 == (i2 % 9) % 3) by {
            assert(9 * (i2 / 9) % 3 == 0) by (nonlinear_arith);
        }
    }
    assert(i2 == 9 * (i2 / 9) + i2 % 9);
}

/// One sweep step: once the three peers at slot `ii` are fixed or
/// marked, every open unmarked cell sits past slot `ii` in each of the
/// promoted cell's units it shares.
#[verifier::rlimit(100)]
proof fn lemma_peer_slots_advance(s: Seq<ConstrainedCell>, marks: Seq<bool>, idx: int, ii: int)
    requires
        s.len() == 81,
        marks.len() == 81,
        0 <= idx < 81,
        0 <= ii < 9,
        s[idx].fixed_spec(),
        peer_slots_pending(s, marks, idx, ii),
        ii != idx % 9 ==> s[(idx / 9) * 9 + ii].fixed_spec() || marks[(idx / 9) * 9 + ii],
        ii != idx / 9 ==> s[ii * 9 + idx % 9].fixed_spec() || marks[ii * 9 + idx % 9],
        ({
            let t_box = ((idx / 9) / 3 * 3 + ii / 3) * 9 + (idx % 9) / 3 * 3 + ii % 3;
            t_box != idx ==> s[t_box].fixed_spec() || marks[t_box]
        }),
    ensures
        peer_slots_pending(s, marks, idx, ii + 1),
{
    let t_box = ((idx / 9) / 3 * 3 + ii / 3) * 9 + (idx % 9) / 3 * 3 + ii % 3;
    assert(0 <= t_box < 81) by {
        assert(0 <= (idx / 9) / 3 * 3 + ii / 3 < 9 && 0 <= (idx % 9) / 3 * 3 + ii % 3 < 9);
    }
    assert forall|i2: int|
        0 <= i2 < 81 && !(#[trigger] s[i2]).fixed_spec() && !marks[i2] implies ((i2 / 9 == idx / 9
        ==> i2 % 9 >= ii + 1) && (i2 % 9 == idx % 9 ==> i2 / 9 >= ii + 1) && (i2 / 27 == idx / 27
        && (i2 % 9) / 3 == (idx % 9) / 3 ==> 3 * ((i2 / 9) % 3) + i2 % 3 >= ii + 1)) by {
        if i2 / 9 == idx / 9 && i2 % 9 == ii {
            assert(i2 == (idx / 9) * 9 + ii);
            if ii == idx % 9 {
                assert(i2 == idx);
            }
            assert(false);
        }
        if i2 % 9 == idx % 9 && i2 / 9 == ii {
            assert(i2 == ii * 9 + idx % 9);
            if ii == idx / 9 {
                assert(i2 == idx);
            }
            assert(false);
        }
        if i2 / 27 == idx / 27 && (i2 % 9) / 3 == (idx % 9) / 3 && 3 * ((i2 / 9) % 3) + i2 % 3
            == ii {
            lemma_box_slot(i2, idx, ii);
            assert(i2 == t_box);
            assert(false);
        }
    }
}

/// Once the sweep has passed every slot, no open unmarked cell shares a
/// unit with the promoted cell.
proof fn lemma_peer_slots_done(s: Seq<ConstrainedCell>, marks: Seq<bool>, idx: int)
    requires
        s.len() == 81,
        marks.len() == 81,
        0 <= idx < 81,
        peer_slots_pending(s, marks, idx, 9),
    ensures
        forall|i2: int|
            0 <= i2 < 81 && !(#[trigger] s[i2]).fixed_spec() && !marks[i2] ==> !same_unit(i2, idx),
{
    assert forall|i2: int|
        0 <= i2 < 81 && !(#[trigger] s[i2]).fixed_spec() && !marks[i2] implies !same_unit(
        i2,
        idx,
    ) by {
        if same_unit(i2, idx) {
            if i2 / 9 == idx / 9 {
                assert(i2 % 9 >= 9);
            } else if i2 % 9 == idx % 9 {
                assert(i2 / 9 >= 9);
            } else {
                assert(3 * ((i2 / 9) % 3) + i2 % 3 >= 9);
                assert((i2 / 9) % 3 <= 2 && i2 % 3 <= 2);
            }
            assert(false);
        }
    }
}

/// Queues the cell at `(r, c)` for re-checking unless it is fixed or
/// already queued, and marks it as queued.
#[verifier::spinoff_prover]
fn enqueue_if_open(
    board: &Board<ConstrainedCell>,
    check_queue: &mut Vec<crate::board::cell::CellPosition>,
    in_queue: &mut Vec<bool>,
    r: i8,
    c: i8,
)
    requires
        board.0@.len() == 81,
        0 <= r < 9,
        0 <= c < 9,
        old(in_queue)@.len() == 81,
        crate::board::cell::constrained_cell::queued_in_range(old(check_queue)@),
        queue_coherent(old(check_queue)@, old(in_queue)@),
    ensures
        final(in_queue)@.len() == 81,
        crate::board::cell::constrained_cell::queued_in_range(final(check_queue)@),
        queue_coherent(final(check_queue)@, final(in_queue)@),
        forall|i: int|
            0 <= i < 81 && i != r * 9 + c ==> final(in_queue)@[i] == old(in_queue)@[i],
        old(in_queue)@[r * 9 + c] ==> final(in_queue)@[r * 9 + c],
        board.0@[r * 9 + c].fixed_spec() || final(in_queue)@[r * 9 + c],
{
    let t: usize = (r as usize) * 9 + (c as usize);
    if !board.0[t].fixed && !in_queue[t] {
        let ghost qa = check_queue@;
        let ghost ma = in_queue@;
        let p_new = crate::board::cell::CellPosition { row: r, column: c };
        check_queue.push(p_new);
        in_queue[t] = true;
        proof {
            assert(cell::flat_index(p_new) == t as int);
            assert(in_queue@ =~= ma.update(cell::flat_index(p_new), true));
            lemma_queue_coherent_push(qa, ma, in_queue@, p_new);
        }
    }
}

/// Queues every open, not-yet-queued cell sharing a unit with the just
/// promoted cell at `pos`, marking each as queued: afterwards every
/// open unmarked cell lies outside the promoted cell's units.
#[verifier::rlimit(100)]
#[verifier::spinoff_prover]
fn requeue_peers(
    board: &Board<ConstrainedCell>,
    check_queue: &mut Vec<crate::board::cell::CellPosition>,
    in_queue: &mut Vec<bool>,
    pos: crate::board::cell::CellPosition,
)
    requires
        board.0@.len() == 81,
        0 <= pos.row < 9,
        0 <= pos.column < 9,
        board.0@[cell::flat_index(pos)].fixed_spec(),
        old(in_queue)@.len() == 81,
        crate::board::cell::constrained_cell::queued_in_range(old(check_queue)@),
        queue_coherent(old(check_queue)@, old(in_queue)@),
    ensures
        final(in_queue)@.len() == 81,
        crate::board::cell::constrained_cell::queued_in_range(final(check_queue)@),
        queue_coherent(final(check_queue)@, final(in_queue)@),
        forall|i: int| 0 <= i < 81 && #[trigger] old(in_queue)@[i] ==> final(in_queue)@[i],
        forall|i: int|
            0 <= i < 81 && !(#[trigger] board.0@[i]).fixed_spec() && !final(in_queue)@[i]
                ==> !same_unit(i, cell::flat_index(pos)),
{
    let idx_r: usize = pos.row as usize;
    let idx_c: usize = pos.column as usize;
    let idx: usize = idx_r * 9 + idx_c;
    let ghost marks0 = in_queue@;
    let mut ii: usize = 0;
    while ii < 9
        invariant
            board.0@.len() == 81,
            crate::board::cell::constrained_cell::queued_in_range(check_queue@),
            queue_coherent(check_queue@, in_queue@),
            in_queue@.len() == 81,
            marks0.len() == 81,
            idx_r < 9,
            idx_c < 9,
            idx == idx_r * 9 + idx_c,
            idx as int == cell::flat_index(pos),
            idx as int / 9 == idx_r as int,
            idx as int % 9 == idx_c as int,
            pos.row == idx_r as i8,
            pos.column == idx_c as i8,
            board.0@[idx as int].fixed_spec(),
            0 <= ii <= 9,
            forall|i: int| 0 <= i < 81 && #[trigger] marks0[i] ==> in_queue@[i],
            peer_slots_pending(board.0@, in_queue@, idx as int, ii as int),
        decreases 9 - ii,
    {
        let ghost marks_a = in_queue@;
        enqueue_if_open(board, check_queue, in_queue, pos.row, ii as i8);
        let ghost marks_b = in_queue@;
        enqueue_if_open(board, check_queue, in_queue, ii as i8, pos.column);
        let ghost marks_c = in_queue@;
        let square_cell_row: usize = (idx_r / 3) * 3 + ii / 3;
        let square_cell_column: usize = (idx_c / 3) * 3 + ii % 3;
        enqueue_if_open(
            board,
            check_queue,
            in_queue,
            square_cell_row as i8,
            square_cell_column as i8,
        );
        proof {
            let s = board.0@;
            let marks = in_queue@;
            let ix = idx as int;
            // Marks only grow across the three enqueues.
            assert(forall|i: int| 0 <= i < 81 && #[trigger] marks_a[i] ==> marks[i]);
            assert(peer_slots_pending(s, marks, ix, ii as int)) by {
                assert(peer_slots_pending(s, marks_a, ix, ii as int));
            }
            assert(ii != idx_c ==> s[(ix / 9) * 9 + ii].fixed_spec() || marks[(ix / 9) * 9 + ii])
                by {
                assert(s[idx_r as int * 9 + ii].fixed_spec() || marks_b[idx_r as int * 9 + ii]);
            }
            assert(ii != idx_r ==> s[ii * 9 + ix % 9].fixed_spec() || marks[ii * 9 + ix % 9]) by {
                assert(s[ii as int * 9 + idx_c as int].fixed_spec() || marks_c[ii as int * 9
                    + idx_c as int]);
            }
            assert(({
                let t_box = ((ix / 9) / 3 * 3 + ii / 3) * 9 + (ix % 9) / 3 * 3 + ii % 3;
                t_box != ix ==> s[t_box].fixed_spec() || marks[t_box]
            })) by {
                assert(((ix / 9) / 3 * 3 + ii / 3) * 9 + (ix % 9) / 3 * 3 + ii % 3
                    == square_cell_row as int * 9 + square_cell_column as int) by {
                    assert((ix / 9) / 3 == idx_r as int / 3 && (ix % 9) / 3 == idx_c as int / 3);
                }
                assert(s[square_cell_row as int * 9 + square_cell_column as int].fixed_spec()
                    || marks[square_cell_row as int * 9 + square_cell_column as int]);
            }
            lemma_peer_slots_advance(s, marks, ix, ii as int);
        }
        ii = ii + 1;
    }
    proof {
        lemma_peer_slots_done(board.0@, in_queue@, idx as int);
    }
}


/// Queue-driven propagation to a fixed point: naked singles always, and
/// hidden singles as well when `hidden` is set. Fixed cells are left
/// untouched, candidate maps only ever shrink, every promotion provably
/// avoids the digits already placed in its row, column and box, and the
/// grid's solution set is preserved exactly. On return the grid is
/// `queue_propagated`: every open cell's candidate map excludes exactly
/// the digits placed in its units, and no open cell is left a naked
/// single.
#[verifier::rlimit(100)]
#[verifier::spinoff_prover]
pub fn run_queue_propagation(board: &mut Board<ConstrainedCell>, hidden: bool)
    requires
        old(board).wf(),
        forall|i: int|
            0 <= i < 81 ==> ((#[trigger] old(board).0@[i]).fixed_spec() == cell::is_filled(
                old(board).0@[i].value_spec(),
            )),
    ensures
        final(board).wf(),
        propagation_frame(old(board).0@, final(board).0@),
        promotions_sound(old(board).0@, final(board).0@),
        queue_propagated(old(board).0@, final(board).0@),
        // Every promotion is a naked single, or, with hidden singles
        // on, a hidden single, read off the final grid.
        forall|i: int|
            0 <= i < 81 && (#[trigger] final(board).0@[i]).fixed_spec() && !old(board).0@[
                i].fixed_spec() ==> naked_single_promotion(final(board).0@, i) || (hidden
                && hidden_single_promotion(final(board).0@, i)),
        forall|a: Seq<int>|
            #[trigger] crate::solvers::search::is_sol(a, old(board).0@)
                ==> crate::solvers::search::is_sol(a, final(board).0@),
{
    let ghost s0 = board.0@;
    let mut row_forbidden: [u16; 9] = [0u16, 0u16, 0u16, 0u16, 0u16, 0u16, 0u16, 0u16, 0u16];
    let mut col_forbidden: [u16; 9] = [0u16, 0u16, 0u16, 0u16, 0u16, 0u16, 0u16, 0u16, 0u16];
    let mut square_forbidden: [u16; 9] = [0u16, 0u16, 0u16, 0u16, 0u16, 0u16, 0u16, 0u16, 0u16];
    let mut check_queue: Vec<crate::board::cell::CellPosition> = Vec::with_capacity(81);
    let mut in_queue: Vec<bool> = cell_flags();
    let mut fixed_map: Vec<bool> = cell_flags();
    ConstrainedCell::calculate_forbidden_matrices(
        board,
        &mut row_forbidden,
        &mut col_forbidden,
        &mut square_forbidden,
        &mut check_queue,
        &mut in_queue,
        &mut fixed_map,
    );
    proof {
        assert forall|qi: int|
            0 <= qi < check_queue@.len() implies 0 <= cell::flat_index(
            #[trigger] check_queue@[qi],
        ) < 81 && in_queue@[cell::flat_index(check_queue@[qi])] by {
            let j = cell::flat_index(check_queue@[qi]);
            assert(!cell::is_filled(board.0@[j].value_spec()));
        }
        assert forall|q1: int, q2: int|
            0 <= q1 < q2 < check_queue@.len() implies cell::flat_index(check_queue@[q1])
            != cell::flat_index(check_queue@[q2]) by {
            assert(cell::flat_index(check_queue@[q1]) < cell::flat_index(check_queue@[q2]));
        }
        assert forall|i: int| 0 <= i < 81 && #[trigger] in_queue@[i] implies exists|qi: int|
            0 <= qi < check_queue@.len() && cell::flat_index(#[trigger] check_queue@[qi])
                == i by {
            assert(!cell::is_filled(board.0@[i].value_spec()));
        }
        assert(queue_coherent(check_queue@, in_queue@));
    }
    while check_queue.len() > 0
        invariant
            s0.len() == 81,
            board.wf(),
            propagation_frame(s0, board.0@),
            promotions_sound(s0, board.0@),
            masks_ok(board.0@, row_forbidden@, col_forbidden@, square_forbidden@),
            forall|a: Seq<int>|
                #[trigger] crate::solvers::search::is_sol(a, s0)
                    ==> crate::solvers::search::is_sol(a, board.0@),
            crate::board::cell::constrained_cell::queued_in_range(check_queue@),
            in_queue@.len() == 81,
            fixed_map@.len() == 81,
            forall|j: int|
                0 <= j < 81 && #[trigger] fixed_map@[j] ==> cell::is_filled(
                    board.0@[j].value_spec(),
                ),
            queue_coherent(check_queue@, in_queue@),
            unmarked_settled(board.0@, in_queue@, row_forbidden@, col_forbidden@, square_forbidden@),
            shed_by_masks(s0, board.0@, row_forbidden@, col_forbidden@, square_forbidden@),
            promos_justified(
                s0,
                board.0@,
                row_forbidden@,
                col_forbidden@,
                square_forbidden@,
                hidden,
            ),
        decreases count_unfixed(board.0@, 81), check_queue.len(),
    {
        let ghost s_it = board.0@;
        let ghost q_full = check_queue@;
        let ghost marks_full = in_queue@;
        let pos_to_check = match check_queue.pop() {
            Some(p) => p,
            None => {
                proof {
                    assert(false);
                }
                crate::board::cell::CellPosition { row: 0, column: 0 }
            },
        };
        let idx_r: usize = pos_to_check.row as usize;
        let idx_c: usize = pos_to_check.column as usize;
        let idx: usize = idx_r * 9 + idx_c;
        in_queue[idx] = false;
        proof {
            assert(pos_to_check == q_full.last());
            assert(idx as int == cell::flat_index(q_full.last()));
            assert(check_queue@ =~= q_full.drop_last());
            assert(in_queue@ =~= marks_full.update(cell::flat_index(q_full.last()), false));
            lemma_queue_coherent_pop(q_full, marks_full, in_queue@);
        }
        let sq: usize = (idx_r / 3) * 3 + idx_c / 3;
        let forbidden: u16 = row_forbidden[idx_r] | col_forbidden[idx_c] | square_forbidden[sq];
        let cell0 = board.0[idx];
        if !cell0.fixed {
            // Narrow the cell's candidate map against its units' masks.
            let mut m = cell0.value_constraint_map;
            let mut di: usize = 1;
            while di <= 9
                invariant
                    1 <= di <= 10,
                    forall|dd: int|
                        0 <= dd < 10 && #[trigger] m[dd] == crate::board::cell::constrained_cell::ValueConstraint::Allowed
                            ==> cell0.value_constraint_map[dd]
                            == crate::board::cell::constrained_cell::ValueConstraint::Allowed,
                    forall|dd: int|
                        0 <= dd < 10 && #[trigger] m[dd] == crate::board::cell::constrained_cell::ValueConstraint::FixedNotAllowed
                            ==> cell0.value_constraint_map[dd]
                            == crate::board::cell::constrained_cell::ValueConstraint::FixedNotAllowed
                            || bit(forbidden, dd),
                    forall|dd: int|
                        1 <= dd < di && bit(forbidden, dd) ==> #[trigger] m[dd]
                            == crate::board::cell::constrained_cell::ValueConstraint::FixedNotAllowed,
                decreases 10 - di,
            {
                if ((forbidden >> (di as u16)) & 1u16) == 1u16 && m[di]
                    == crate::board::cell::constrained_cell::ValueConstraint::Allowed {
                    m[di] = crate::board::cell::constrained_cell::ValueConstraint::FixedNotAllowed;
                }
                di = di + 1;
            }
            let cnew = ConstrainedCell {
                value: cell0.value,
                fixed: cell0.fixed,
                position: cell0.position,
                value_constraint_map: m,
            };
            board.0[idx] = cnew;
            let ghost s1 = board.0@;
            proof {
                assert(forall|j: int| 0 <= j < 81 && j != idx ==> s1[j] == s_it[j]);
                assert(s1[idx as int].value_spec() == s_it[idx as int].value_spec());
                lemma_masks_congruent(
                    s_it,
                    s1,
                    row_forbidden@,
                    col_forbidden@,
                    square_forbidden@,
                    idx as int,
                );
                lemma_count_unfixed_update(s_it, s1, idx as int, 81);
                assert(s1[idx as int].fixed_spec() == cell::is_filled(s1[idx as int].value_spec()));
                lemma_frame_step(s0, s_it, s1, idx as int);
                assert(board.wf());
                assert forall|j: int|
                    0 <= j < 81 && #[trigger] fixed_map@[j] implies cell::is_filled(
                    s1[j].value_spec()) by {
                    if j != idx {
                        assert(s1[j] == s_it[j]);
                    }
                }
                {
                    let i = idx as int;
                    lemma_cell_units(i);
                    assert(i / 9 == idx_r && i % 9 == idx_c && sq == 3 * (i / 27) + (i % 9) / 3);
                    assert forall|d: int|
                        !(#[trigger] s1[i].allows(d)) && s_it[i].allows(d) implies 1 <= d <= 9 && (
                    bit(row_forbidden@[i / 9], d) || bit(col_forbidden@[i % 9], d) || bit(
                        square_forbidden@[3 * (i / 27) + (i % 9) / 3],
                        d,
                    )) by {
                        assert(bit(forbidden, d));
                        crate::board::cell::constrained_cell::lemma_bit_or3(
                            row_forbidden@[i / 9],
                            col_forbidden@[i % 9],
                            square_forbidden@[3 * (i / 27) + (i % 9) / 3],
                            d,
                        );
                    }
                    lemma_sols_preserved_narrow(
                        s_it,
                        s1,
                        i,
                        row_forbidden@,
                        col_forbidden@,
                        square_forbidden@,
                    );
                    assert forall|a: Seq<int>|
                        #[trigger] crate::solvers::search::is_sol(a, s0)
                            implies crate::solvers::search::is_sol(a, s1) by {
                        assert(crate::solvers::search::is_sol(a, s_it));
                    }
                    // Off-queue open cells other than the dequeued one keep
                    // their settledness, and candidates are still shed only
                    // against the masks.
                    assert(forbidden == cell_masks(
                        row_forbidden@,
                        col_forbidden@,
                        square_forbidden@,
                        i,
                    ));
                    assert forall|i2: int|
                        0 <= i2 < 81 && !(#[trigger] s_it[i2]).fixed_spec() && !in_queue@[i2]
                            && i2 != i implies cell_settled(
                        s_it,
                        row_forbidden@,
                        col_forbidden@,
                        square_forbidden@,
                        i2,
                    ) by {
                        assert(!marks_full[i2]);
                    }
                    lemma_narrow_preserves_tracking(
                        s0,
                        s_it,
                        s1,
                        in_queue@,
                        row_forbidden@,
                        col_forbidden@,
                        square_forbidden@,
                        i,
                        forbidden,
                    );
                    lemma_justified_narrow_step(
                        s0,
                        s_it,
                        s1,
                        row_forbidden@,
                        col_forbidden@,
                        square_forbidden@,
                        hidden,
                    );
                }
            }
            // Find the digit, if any, this pass promotes the cell to.
            let mut n_allowed: u16 = 0;
            let mut single: u16 = 0;
            let ghost mut second: u16 = 0;
            let mut d2: u16 = 1;
            while d2 <= 9
                invariant
                    1 <= d2 <= 10,
                    n_allowed < d2,
                    n_allowed >= 1 ==> 1 <= single <= 9 && single < d2 && !bit(
                        forbidden,
                        single as int,
                    ),
                    n_allowed >= 2 ==> 1 <= second <= 9 && second != single && !bit(
                        forbidden,
                        second as int,
                    ),
                    n_allowed == 0 ==> forall|dd: int| 1 <= dd < d2 ==> #[trigger] bit(
                        forbidden,
                        dd,
                    ),
                    n_allowed == 1 ==> forall|dd: int|
                        1 <= dd < d2 && dd != single ==> #[trigger] bit(forbidden, dd),
                decreases 10 - d2,
            {
                if ((forbidden >> d2) & 1u16) == 0u16 {
                    proof {
                        if n_allowed >= 1 {
                            second = single;
                        }
                    }
                    n_allowed = n_allowed + 1;
                    single = d2;
                } else {
                    proof {
                        assert(((forbidden >> d2) & 1u16) == 0u16 || ((forbidden >> d2) & 1u16)
                            == 1u16) by (bit_vector);
                    }
                }
                d2 = d2 + 1;
            }
            let mut promote_digit: u16 = 0;
            if n_allowed == 1 {
                promote_digit = single;
            }
            let mut allowed_elsewhere_row: u16 = 0;
            let mut allowed_elsewhere_column: u16 = 0;
            let mut allowed_elsewhere_square: u16 = 0;
            if promote_digit == 0 && hidden {
                // Hidden single: a digit no sibling cell in one of this
                // cell's units can take is forced here, provided this
                // cell can still take it.
                let mut ii: usize = 0;
                while ii < 9
                    invariant
                        fixed_map@.len() == 81,
                        idx_r < 9,
                        idx_c < 9,
                        sq < 9,
                        idx == idx_r * 9 + idx_c,
                        sq == (idx_r / 3) * 3 + idx_c / 3,
                        0 <= ii <= 9,
                        row_cover_ok(
                            allowed_elsewhere_row,
                            fixed_map@,
                            row_forbidden@,
                            col_forbidden@,
                            square_forbidden@,
                            idx_r as int,
                            idx_c as int,
                            ii as int,
                        ),
                        col_cover_ok(
                            allowed_elsewhere_column,
                            fixed_map@,
                            row_forbidden@,
                            col_forbidden@,
                            square_forbidden@,
                            idx_r as int,
                            idx_c as int,
                            ii as int,
                        ),
                        sq_cover_ok(
                            allowed_elsewhere_square,
                            fixed_map@,
                            row_forbidden@,
                            col_forbidden@,
                            square_forbidden@,
                            idx_r as int,
                            idx_c as int,
                            sq as int,
                            ii as int,
                        ),
                    decreases 9 - ii,
                {
                    if ii != idx_c && !fixed_map[idx_r * 9 + ii] {
                        let neighbour_sq: usize = (idx_r / 3) * 3 + ii / 3;
                        let ghost aer0 = allowed_elsewhere_row;
                        let xr: u16 = row_forbidden[idx_r] | col_forbidden[ii]
                            | square_forbidden[neighbour_sq];
                        allowed_elsewhere_row = allowed_elsewhere_row | !xr;
                        proof {
                            assert forall|dd: int|
                                1 <= dd <= 9 && !(#[trigger] bit(
                                    allowed_elsewhere_row,
                                    dd,
                                )) implies !bit(aer0, dd) && bit(xr, dd) by {
                                lemma_bit_or_not(aer0, xr, dd);
                            }
                        }
                    }
                    if ii != idx_r && !fixed_map[ii * 9 + idx_c] {
                        let neighbour_sq: usize = (ii / 3) * 3 + idx_c / 3;
                        let ghost aec0 = allowed_elsewhere_column;
                        let xc: u16 = row_forbidden[ii] | col_forbidden[idx_c]
                            | square_forbidden[neighbour_sq];
                        allowed_elsewhere_column = allowed_elsewhere_column | !xc;
                        proof {
                            assert forall|dd: int|
                                1 <= dd <= 9 && !(#[trigger] bit(
                                    allowed_elsewhere_column,
                                    dd,
                                )) implies !bit(aec0, dd) && bit(xc, dd) by {
                                lemma_bit_or_not(aec0, xc, dd);
                            }
                        }
                    }
                    let square_cell_row: usize = (idx_r / 3) * 3 + ii / 3;
                    let square_cell_column: usize = (idx_c / 3) * 3 + ii % 3;
                    if !(square_cell_row == idx_r && square_cell_column == idx_c) && !fixed_map[
                        square_cell_row * 9 + square_cell_column] {
                        let ghost aes0 = allowed_elsewhere_square;
                        let xs: u16 = row_forbidden[square_cell_row]
                            | col_forbidden[square_cell_column] | square_forbidden[sq];
                        allowed_elsewhere_square = allowed_elsewhere_square | !xs;
                        proof {
                            assert forall|dd: int|
                                1 <= dd <= 9 && !(#[trigger] bit(
                                    allowed_elsewhere_square,
                                    dd,
                                )) implies !bit(aes0, dd) && bit(xs, dd) by {
                                lemma_bit_or_not(aes0, xs, dd);
                            }
                        }
                    }
                    ii = ii + 1;
                }
                let mut v: u16 = 1;
                while v <= 9 && promote_digit == 0
                    invariant
                        1 <= v <= 10,
                        promote_digit != 0 ==> 1 <= promote_digit <= 9 && !bit(
                            forbidden,
                            promote_digit as int,
                        ) && (!bit(allowed_elsewhere_row, promote_digit as int) || !bit(
                            allowed_elsewhere_column,
                            promote_digit as int,
                        ) || !bit(allowed_elsewhere_square, promote_digit as int)),
                    decreases 10 - v, (if promote_digit == 0 { 1int } else { 0int }),
                {
                    if ((allowed_elsewhere_row >> v) & 1u16 == 0u16 || (allowed_elsewhere_column
                        >> v) & 1u16 == 0u16 || (allowed_elsewhere_square >> v) & 1u16 == 0u16)
                        && (forbidden >> v) & 1u16 == 0u16 {
                        promote_digit = v;
                    }
                    v = v + 1;
                }
            }
            if promote_digit >= 1 {
                let ghost s1b = board.0@;
                let ghost rm0 = row_forbidden@;
                let ghost cm0 = col_forbidden@;
                let ghost sm0 = square_forbidden@;
                let d_i8: i8 = promote_digit as i8;
                let cell1 = board.0[idx];
                let cnew2 = ConstrainedCell {
                    value: crate::board::cell::CellValue::Filled(d_i8),
                    fixed: true,
                    position: cell1.position,
                    value_constraint_map: cell1.value_constraint_map,
                };
                board.0[idx] = cnew2;
                row_forbidden[idx_r] = row_forbidden[idx_r] | (1u16 << promote_digit);
                col_forbidden[idx_c] = col_forbidden[idx_c] | (1u16 << promote_digit);
                square_forbidden[sq] = square_forbidden[sq] | (1u16 << promote_digit);
                proof {
                    let s2 = board.0@;
                    let i = idx as int;
                    let d = promote_digit as int;
                    lemma_cell_units(i);
                    assert(i / 9 == idx_r && i % 9 == idx_c);
                    assert(sq == 3 * (i / 27) + (i % 9) / 3);
                    assert(forall|j: int| 0 <= j < 81 && j != i ==> s2[j] == s1b[j]);
                    assert(!cell::is_filled(s1b[i].value_spec()));
                    crate::board::cell::constrained_cell::lemma_bit_or3(
                        rm0[i / 9],
                        cm0[i % 9],
                        sm0[3 * (i / 27) + (i % 9) / 3],
                        d,
                    );
                    assert(!bit(rm0[i / 9], d) && !bit(cm0[i % 9], d) && !bit(
                        sm0[3 * (i / 27) + (i % 9) / 3],
                        d,
                    ));
                    lemma_promote_no_dup(s1b, rm0, cm0, sm0, i, d);
                    lemma_masks_after_promote(
                        s1b,
                        s2,
                        rm0,
                        cm0,
                        sm0,
                        row_forbidden@,
                        col_forbidden@,
                        square_forbidden@,
                        i,
                        d,
                    );
                    lemma_count_unfixed_update(s1b, s2, i, 81);
                    // Soundness of every promotion so far, the fresh one
                    // included.
                    assert forall|i2: int, j: int|
                        0 <= i2 < 81 && 0 <= j < 81 && (#[trigger] s2[i2]).fixed_spec()
                            && !s0[i2].fixed_spec() && j != i2 && same_unit(i2, j)
                            && cell::is_filled(
                            (#[trigger] s2[j]).value_spec(),
                        ) implies cell::digit_of(s2[j].value_spec()) != cell::digit_of(
                        s2[i2].value_spec(),
                    ) by {
                        if i2 == i {
                            assert(s2[j] == s1b[j]);
                        } else {
                            assert(s2[i2] == s1b[i2]);
                            if j == i {
                                assert(same_unit(i2, i) == same_unit(i, i2));
                                assert(cell::is_filled(s1b[i2].value_spec()));
                                assert(cell::digit_of(s1b[i2].value_spec()) != d);
                            } else {
                                assert(s2[j] == s1b[j]);
                            }
                        }
                    }
                    assert(forall|dd: int| #[trigger] s2[i].allows(dd) ==> s1b[i].allows(dd));
                    lemma_frame_step(s0, s1b, s2, i);
                    assert(board.wf());
                    crate::board::cell::constrained_cell::lemma_bit_or3(
                        rm0[i / 9],
                        cm0[i % 9],
                        sm0[3 * (i / 27) + (i % 9) / 3],
                        d,
                    );
                    if n_allowed == 1 {
                        // Naked single: every other digit is masked, so a
                        // solution must use the one that remains.
                        assert(promote_digit == single);
                        assert forall|d2: int| 1 <= d2 <= 9 && d2 != d implies (#[trigger] bit(
                            rm0[i / 9],
                            d2,
                        ) || bit(cm0[i % 9], d2) || bit(sm0[3 * (i / 27) + (i % 9) / 3], d2)) by {
                            assert(bit(forbidden, d2));
                            crate::board::cell::constrained_cell::lemma_bit_or3(
                                rm0[i / 9],
                                cm0[i % 9],
                                sm0[3 * (i / 27) + (i % 9) / 3],
                                d2,
                            );
                        }
                        lemma_sols_preserved_promote(s1b, s2, i, rm0, cm0, sm0, d);
                    } else {
                        // Hidden single: every sibling of some unit is
                        // filled or masked for this digit, so a solution
                        // must place it here.
                        lemma_hidden_unit_covered(
                            s_it,
                            s1b,
                            fixed_map@,
                            rm0,
                            cm0,
                            sm0,
                            allowed_elsewhere_row,
                            allowed_elsewhere_column,
                            allowed_elsewhere_square,
                            i,
                            d,
                        );
                        let u = chosen_unit(allowed_elsewhere_row, allowed_elsewhere_column, i, d);
                        lemma_sols_preserved_promote_hidden(s1b, s2, i, rm0, cm0, sm0, d, u);
                    }
                    assert forall|a: Seq<int>|
                        #[trigger] crate::solvers::search::is_sol(a, s0)
                            implies crate::solvers::search::is_sol(a, s2) by {
                        assert(crate::solvers::search::is_sol(a, s1b));
                    }
                    assert forall|j: int|
                        0 <= j < 81 && #[trigger] fixed_map@[j] implies cell::is_filled(
                        s2[j].value_spec()) by {
                        if j != i {
                            assert(s2[j] == s1b[j]);
                            assert(s1b[j] == s_it[j]);
                        }
                    }
                    // The masks only grow, so candidates stay shed against
                    // them, and cells outside the promoted cell's units
                    // keep their settledness under unchanged masks.
                    lemma_promote_preserves_tracking(
                        s0,
                        s1b,
                        s2,
                        in_queue@,
                        rm0,
                        cm0,
                        sm0,
                        row_forbidden@,
                        col_forbidden@,
                        square_forbidden@,
                        i,
                        d,
                    );
                    // The fresh promotion carries its own justification:
                    // a naked single when every other digit was masked,
                    // and otherwise the hidden single's covering unit.
                    lemma_cell_masks_promote_update(
                        rm0,
                        cm0,
                        sm0,
                        row_forbidden@,
                        col_forbidden@,
                        square_forbidden@,
                        i,
                        d,
                    );
                    assert(forbidden == cell_masks(rm0, cm0, sm0, i));
                    assert(cell::digit_of(s2[i].value_spec()) == d);
                    if n_allowed == 1 {
                        assert forall|d2: int|
                            1 <= d2 <= 9 && d2 != cell::digit_of(s2[i].value_spec()) implies
                            #[trigger] bit(
                            cell_masks(row_forbidden@, col_forbidden@, square_forbidden@, i),
                            d2,
                        ) by {
                            assert(bit(forbidden, d2));
                            assert(bit(cell_masks(rm0, cm0, sm0, i), d2));
                        }
                        assert(naked_masks(
                            s2,
                            row_forbidden@,
                            col_forbidden@,
                            square_forbidden@,
                            i,
                        ));
                    } else {
                        let u = chosen_unit(allowed_elsewhere_row, allowed_elsewhere_column, i, d);
                        assert(unit_of_cell(u, i));
                        assert forall|k: int|
                            0 <= k < 9 && #[trigger] unit_cell(u, k) != i implies cell::is_filled(
                            s2[unit_cell(u, k)].value_spec(),
                        ) || bit(
                            cell_masks(
                                row_forbidden@,
                                col_forbidden@,
                                square_forbidden@,
                                unit_cell(u, k),
                            ),
                            cell::digit_of(s2[i].value_spec()),
                        ) by {
                            lemma_unit_member_same_unit(u, i, k);
                            let j = unit_cell(u, k);
                            assert(cell_cannot_take(s1b, rm0, cm0, sm0, j, d));
                            if !cell::is_filled(s1b[j].value_spec()) {
                                lemma_bit_or3(rm0[j / 9], cm0[j % 9], sm0[3 * (j / 27) + (j % 9)
                                    / 3], d);
                                assert(bit(cell_masks(rm0, cm0, sm0, j), d));
                            }
                        }
                        assert(hidden_masks(
                            s2,
                            row_forbidden@,
                            col_forbidden@,
                            square_forbidden@,
                            i,
                        ));
                    }
                    lemma_justified_promote_step(
                        s0,
                        s1b,
                        s2,
                        rm0,
                        cm0,
                        sm0,
                        row_forbidden@,
                        col_forbidden@,
                        square_forbidden@,
                        i,
                        d,
                        hidden,
                    );
                }
                // Re-queue the non-fixed peers this promotion may affect.
                let ghost marks_pre = in_queue@;
                requeue_peers(board, &mut check_queue, &mut in_queue, pos_to_check);
                proof {
                    assert(cell::flat_index(pos_to_check) == idx as int);
                    // The sweep only adds marks, so an open cell left
                    // unmarked was settled before it and shares no unit
                    // with the promoted cell; its settledness carries over.
                    assert forall|i2: int|
                        0 <= i2 < 81 && !(#[trigger] board.0@[i2]).fixed_spec() && !in_queue@[i2]
                            implies cell_settled(
                        board.0@,
                        row_forbidden@,
                        col_forbidden@,
                        square_forbidden@,
                        i2,
                    ) by {
                        assert(!same_unit(i2, idx as int));
                        assert(!marks_pre[i2]);
                    }
                    assert(unmarked_settled(
                        board.0@,
                        in_queue@,
                        row_forbidden@,
                        col_forbidden@,
                        square_forbidden@,
                    ));
                }
            } else {
                proof {
                    // No promotion: the dequeued cell is now settled. Its
                    // map excludes every masked digit, and the masks leave
                    // it no single digit, else it would have been promoted.
                    let s1 = board.0@;
                    let i = idx as int;
                    assert forall|dd: int|
                        1 <= dd <= 9 && #[trigger] bit(forbidden, dd) implies !s1[i].allows(
                        dd,
                    ) by {}
                    assert(n_allowed != 1);
                    lemma_unpromoted_settled(
                        s1,
                        row_forbidden@,
                        col_forbidden@,
                        square_forbidden@,
                        i,
                        forbidden,
                        n_allowed,
                        single,
                        second,
                    );
                    assert(unmarked_settled(
                        s1,
                        in_queue@,
                        row_forbidden@,
                        col_forbidden@,
                        square_forbidden@,
                    ));
                }
            }
        }
    }
    proof {
        // The queue is empty, so every mark is clear and every open cell
        // is settled; read the final contract off the exact masks.
        assert forall|i: int| 0 <= i < 81 implies !in_queue@[i] by {
            if in_queue@[i] {
                let qi = choose|qi: int|
                    0 <= qi < check_queue@.len() && cell::flat_index(#[trigger] check_queue@[qi])
                        == i;
            }
        }
        let s = board.0@;
        assert forall|i: int|
            0 <= i < 81 && !(#[trigger] s[i]).fixed_spec() implies cell_settled(
            s,
            row_forbidden@,
            col_forbidden@,
            square_forbidden@,
            i,
        ) by {
            assert(!in_queue@[i]);
        }
        lemma_queue_propagated_at_exit(
            s0,
            s,
            row_forbidden@,
            col_forbidden@,
            square_forbidden@,
        );
        lemma_promotions_characterized(
            s0,
            s,
            row_forbidden@,
            col_forbidden@,
            square_forbidden@,
            hidden,
        );
    }
}

} // verus!
