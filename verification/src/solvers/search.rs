//! The backtracking search shared by every solver variant.
//!
//! The search walks the non-fixed cells in row-major order: while the
//! grid looks valid it advances the first empty cell, otherwise it
//! retreats to the most recently filled cell and advances that one;
//! a cell that exhausts its candidates resets itself to empty, which is
//! the implicit undo. Termination is proved through a positional
//! potential over the non-fixed cells.

use crate::board::cell::{self, CellPosition, CellValue, IsCell};
use crate::board::{self, Board, first_empty_from, last_filled_from, nf_empty, nf_filled};
use vstd::prelude::*;

verus! {

/// Powers of ten, the radix of the termination potential.
pub open spec fn pow10(e: nat) -> nat
    decreases e,
{
    if e == 0 {
        1
    } else {
        10 * pow10((e - 1) as nat)
    }
}

/// The weight of grid slot `p`: later slots weigh geometrically less, so
/// progress at a slot always dominates any churn behind it.
pub open spec fn vweight(p: int) -> nat {
    pow10((82 - p) as nat)
}

/// How many digits strictly above `a` the cell still allows.
pub open spec fn cand_above<T: IsCell>(c: T, a: int) -> nat
    decreases 9 - a,
{
    if a >= 9 {
        0
    } else {
        cand_above(c, a + 1) + if c.allows(a + 1) {
            1nat
        } else {
            0nat
        }
    }
}

/// The remaining search effort a single cell can still cause at slot `p`.
pub open spec fn cell_work<T: IsCell>(c: T, p: int) -> nat {
    if !c.fixed_spec() && cell::is_filled(c.value_spec()) {
        cand_above(c, cell::digit_of(c.value_spec())) * (1 + vweight(p + 1)) + 1
    } else {
        0
    }
}

/// The summed effort of the first `n` slots.
pub open spec fn work_upto<T: IsCell>(s: Seq<T>, n: int) -> nat
    decreases n,
{
    if n <= 0 {
        0
    } else {
        work_upto(s, n - 1) + cell_work(s[n - 1], n - 1)
    }
}

/// The search potential: total cell effort, plus the weight of the slot
/// the search would fill next while the grid looks valid.
pub open spec fn search_measure<T: IsCell>(s: Seq<T>, valid: bool) -> nat {
    work_upto(s, 81) + if valid {
        vweight(first_empty_from(s, 0))
    } else {
        0
    }
}

proof fn lemma_pow10_pos(e: nat)
    ensures
        pow10(e) >= 1,
    decreases e,
{
    if e > 0 {
        lemma_pow10_pos((e - 1) as nat);
    }
}

proof fn lemma_pow10_mono(a: nat, b: nat)
    requires
        a <= b,
    ensures
        pow10(a) <= pow10(b),
    decreases b,
{
    if a < b {
        lemma_pow10_mono(a, (b - 1) as nat);
        lemma_pow10_pos((b - 1) as nat);
    }
}

proof fn lemma_vweight_step(p: int)
    requires
        p <= 81,
    ensures
        vweight(p) == 10 * vweight(p + 1),
{
    assert((82 - p) as nat == ((81 - p) as nat + 1) as nat);
}

proof fn lemma_vweight_min(p: int)
    requires
        p <= 81,
    ensures
        vweight(p) >= 10,
{
    lemma_vweight_step(p);
    lemma_pow10_pos((81 - p) as nat);
}

proof fn lemma_vweight_mono(p: int, q: int)
    requires
        p <= q <= 82,
    ensures
        vweight(q) <= vweight(p),
{
    lemma_pow10_mono((82 - q) as nat, (82 - p) as nat);
}

proof fn lemma_cand_above_le<T: IsCell>(c: T, a: int)
    requires
        0 <= a <= 9,
    ensures
        cand_above(c, a) <= 9 - a,
    decreases 9 - a,
{
    if a < 9 {
        lemma_cand_above_le(c, a + 1);
    }
}

proof fn lemma_cand_above_mono<T: IsCell>(c: T, a: int, b: int)
    requires
        a <= b,
    ensures
        cand_above(c, b) <= cand_above(c, a),
    decreases b - a,
{
    if a < b {
        lemma_cand_above_mono(c, a + 1, b);
    }
}

proof fn lemma_cand_above_dec<T: IsCell>(c: T, a: int, w: int)
    requires
        a < w <= 9,
        c.allows(w),
    ensures
        cand_above(c, w) < cand_above(c, a),
{
    lemma_cand_above_mono(c, a, w - 1);
    assert(cand_above(c, w - 1) == cand_above(c, w) + 1);
}

pub proof fn lemma_cand_above_congr<T: IsCell>(c1: T, c2: T, a: int)
    requires
        forall|d: int| c1.allows(d) == c2.allows(d),
    ensures
        cand_above(c1, a) == cand_above(c2, a),
    decreases 9 - a,
{
    if a < 9 {
        lemma_cand_above_congr(c1, c2, a + 1);
    }
}

proof fn lemma_work_upto_update<T: IsCell>(s: Seq<T>, s2: Seq<T>, k: int, n: int)
    requires
        s.len() == 81,
        s2.len() == 81,
        0 <= k < 81,
        forall|j: int| 0 <= j < 81 && j != k ==> s2[j] == s[j],
        0 <= n <= 81,
    ensures
        work_upto(s2, n) as int == work_upto(s, n) as int + if k < n {
            cell_work(s2[k], k) as int - cell_work(s[k], k) as int
        } else {
            0
        },
    decreases n,
{
    if n > 0 {
        lemma_work_upto_update(s, s2, k, n - 1);
    }
}

/// A lower bound for the first empty slot from a prefix free of
/// non-fixed empty cells.
proof fn lemma_first_empty_lb<T: IsCell>(s: Seq<T>, m: int)
    requires
        0 <= m <= 81,
        forall|j: int| 0 <= j < m ==> !nf_empty(s, j),
    ensures
        first_empty_from(s, 0) >= m,
{
    board::lemma_first_empty_props(s, 0);
    if first_empty_from(s, 0) < m {
        assert(nf_empty(s, first_empty_from(s, 0)));
        assert(false);
    }
}

/// Advancing the first empty cell to a digit shrinks the potential, for
/// either resulting validity flag.
proof fn lemma_measure_fill<T: IsCell>(s: Seq<T>, s2: Seq<T>, k: int, b2: bool)
    requires
        s.len() == 81,
        s2.len() == 81,
        0 <= k < 81,
        forall|j: int| 0 <= j < 81 && j != k ==> s2[j] == s[j],
        k == first_empty_from(s, 0),
        nf_empty(s, k),
        !s2[k].fixed_spec(),
        forall|d: int| s2[k].allows(d) == s[k].allows(d),
        cell::is_filled(s2[k].value_spec()),
        1 <= cell::digit_of(s2[k].value_spec()) <= 9,
    ensures
        search_measure(s2, b2) < search_measure(s, true),
{
    let w = cell::digit_of(s2[k].value_spec());
    let vk1 = vweight(k + 1) as int;
    board::lemma_first_empty_props(s, 0);
    lemma_work_upto_update(s, s2, k, 81);
    lemma_cand_above_congr(s2[k], s[k], w);
    lemma_cand_above_le(s[k], w);
    assert(cand_above(s2[k], w) <= 9 - w <= 8);
    assert(cell_work(s[k], k) == 0);
    assert(cell_work(s2[k], k) as int <= 8 * (1 + vk1) + 1) by (nonlinear_arith)
        requires
            cell_work(s2[k], k) == cand_above(s2[k], w) * (1 + vweight(k + 1)) + 1,
            cand_above(s2[k], w) <= 8,
            vk1 == vweight(k + 1) as int,
    ;
    assert forall|j: int| 0 <= j < k + 1 implies !nf_empty(s2, j) by {
        if j < k {
            assert(!nf_empty(s, j));
            assert(s2[j] == s[j]);
        }
    }
    lemma_first_empty_lb(s2, k + 1);
    board::lemma_first_empty_props(s2, 0);
    lemma_vweight_mono(k + 1, first_empty_from(s2, 0));
    lemma_vweight_step(k);
    lemma_vweight_min(k + 1);
    assert(search_measure(s2, b2) as int <= work_upto(s, 81) + 8 * (1 + vk1) + 1 + vk1);
    assert(search_measure(s, true) as int == work_upto(s, 81) + 10 * vk1);
}

/// Advancing or exhausting the last filled cell shrinks the potential.
proof fn lemma_measure_backtrack<T: IsCell>(s: Seq<T>, s2: Seq<T>, k: int, valid_old: bool, b2: bool)
    requires
        s.len() == 81,
        s2.len() == 81,
        0 <= k < 81,
        forall|j: int| 0 <= j < 81 && j != k ==> s2[j] == s[j],
        nf_filled(s, k),
        forall|j: int| 0 <= j < k ==> !nf_empty(s, j),
        !s2[k].fixed_spec(),
        forall|d: int| s2[k].allows(d) == s[k].allows(d),
        cell::is_filled(s2[k].value_spec()) ==> cell::digit_of(s[k].value_spec())
            < cell::digit_of(s2[k].value_spec()) <= 9 && s[k].allows(
            cell::digit_of(s2[k].value_spec()),
        ),
        !cell::is_filled(s2[k].value_spec()) ==> !b2,
    ensures
        search_measure(s2, b2) < search_measure(s, valid_old),
{
    let v = cell::digit_of(s[k].value_spec());
    let vk1 = vweight(k + 1) as int;
    lemma_work_upto_update(s, s2, k, 81);
    lemma_vweight_min(k + 1);
    if cell::is_filled(s2[k].value_spec()) {
        let w = cell::digit_of(s2[k].value_spec());
        lemma_cand_above_congr(s2[k], s[k], w);
        lemma_cand_above_dec(s[k], v, w);
        assert(cand_above(s2[k], w) + 1 <= cand_above(s[k], v));
        assert(cell_work(s2[k], k) as int <= cell_work(s[k], k) as int - (1 + vk1))
            by (nonlinear_arith)
            requires
                cell_work(s2[k], k) == cand_above(s2[k], w) * (1 + vweight(k + 1)) + 1,
                cell_work(s[k], k) == cand_above(s[k], v) * (1 + vweight(k + 1)) + 1,
                cand_above(s2[k], w) + 1 <= cand_above(s[k], v),
                vk1 == vweight(k + 1) as int,
                vk1 >= 0,
        ;
        assert forall|j: int| 0 <= j < k + 1 implies !nf_empty(s2, j) by {
            if j < k {
                assert(!nf_empty(s, j));
                assert(s2[j] == s[j]);
            }
        }
        lemma_first_empty_lb(s2, k + 1);
        board::lemma_first_empty_props(s2, 0);
        lemma_vweight_mono(k + 1, first_empty_from(s2, 0));
        assert(search_measure(s2, b2) as int <= work_upto(s, 81) as int - (1 + vk1) + vk1);
    } else {
        assert(cell_work(s2[k], k) == 0);
        assert(cell_work(s[k], k) >= 1);
        assert(search_measure(s2, b2) as int <= work_upto(s, 81) as int - 1);
    }
    assert(search_measure(s, valid_old) as int >= work_upto(s, 81) as int);
}


/// A total assignment of digits to the 81 cells.
pub open spec fn asg_wf(a: Seq<int>) -> bool {
    a.len() == 81 && forall|i: int| 0 <= i < 81 ==> 1 <= #[trigger] a[i] <= 9
}

/// No two cells of a unit get the same digit.
pub open spec fn asg_no_dup(a: Seq<int>) -> bool {
    forall|i: int, j: int|
        0 <= i < 81 && 0 <= j < 81 && i != j && board::same_unit(i, j) ==> a[i] != a[j]
}

/// The assignment keeps every fixed cell's digit.
pub open spec fn asg_matches_fixed<T: IsCell>(a: Seq<int>, s: Seq<T>) -> bool {
    forall|i: int|
        0 <= i < 81 && (#[trigger] s[i]).fixed_spec() ==> a[i] == cell::digit_of(
            s[i].value_spec(),
        )
}

/// The assignment stays inside every open cell's candidate set.
pub open spec fn asg_allowed<T: IsCell>(a: Seq<int>, s: Seq<T>) -> bool {
    forall|i: int|
        0 <= i < 81 && !(#[trigger] s[i]).fixed_spec() ==> s[i].allows(a[i])
}

/// A solution of the grid `s`: a well-formed, duplicate-free assignment
/// that keeps the fixed digits and respects the candidate sets.
pub open spec fn is_sol<T: IsCell>(a: Seq<int>, s: Seq<T>) -> bool {
    asg_wf(a) && asg_no_dup(a) && asg_matches_fixed(a, s) && asg_allowed(a, s)
}

/// The assignment agrees with every non-fixed cell before index `j`.
pub open spec fn agrees_below<T: IsCell>(a: Seq<int>, s: Seq<T>, j: int) -> bool {
    forall|j2: int|
        0 <= j2 < j && !(#[trigger] s[j2]).fixed_spec() ==> a[j2] == cell::digit_of(
            s[j2].value_spec(),
        )
}

/// The assignment is lexicographically at or past the search state: at
/// the first non-fixed cell where they part, the assignment's digit is
/// not smaller.
pub open spec fn ge_state<T: IsCell>(a: Seq<int>, s: Seq<T>) -> bool {
    forall|j: int|
        0 <= j < 81 && !(#[trigger] s[j]).fixed_spec() && agrees_below(a, s, j) ==> a[j]
            >= cell::digit_of(s[j].value_spec())
}

/// The assignment reproduces every digit the search has pencilled in.
pub open spec fn extends_search_filled<T: IsCell>(a: Seq<int>, s: Seq<T>) -> bool {
    forall|j: int|
        0 <= j < 81 && nf_filled(s, j) ==> a[j] == cell::digit_of((#[trigger] s[j]).value_spec())
}

/// Two distinct slots of one unit are distinct same-unit grid indices.
#[verifier::rlimit(80)]
pub proof fn lemma_unit_pair_same_unit(u: int, k1: int, k2: int)
    requires
        0 <= u < 27,
        0 <= k1 < 9,
        0 <= k2 < 9,
        k1 != k2,
    ensures
        0 <= board::unit_cell(u, k1) < 81,
        0 <= board::unit_cell(u, k2) < 81,
        board::unit_cell(u, k1) != board::unit_cell(u, k2),
        board::same_unit(board::unit_cell(u, k1), board::unit_cell(u, k2)),
{
    let i = board::unit_cell(u, k1);
    let j = board::unit_cell(u, k2);
    if u < 9 {
        assert(i == 9 * u + k1 && j == 9 * u + k2);
        assert(i / 9 == u && j / 9 == u);
    } else if u < 18 {
        assert(i == 9 * k1 + (u - 9) && j == 9 * k2 + (u - 9));
        assert(i / 9 == k1 && j / 9 == k2);
        assert(i % 9 == u - 9 && j % 9 == u - 9);
    } else {
        let b = u - 18;
        assert(0 <= b / 3 < 3 && 0 <= b % 3 < 3);
        let r1 = 3 * (b / 3) + k1 / 3;
        let c1 = 3 * (b % 3) + k1 % 3;
        let r2 = 3 * (b / 3) + k2 / 3;
        let c2 = 3 * (b % 3) + k2 % 3;
        assert(i == 9 * r1 + c1 && j == 9 * r2 + c2);
        assert(0 <= r1 < 9 && 0 <= c1 < 9 && 0 <= r2 < 9 && 0 <= c2 < 9);
        assert(i / 9 == r1 && i % 9 == c1 && j / 9 == r2 && j % 9 == c2);
        assert(i == 27 * (r1 / 3) + 9 * (r1 % 3) + c1);
        assert(i / 27 == r1 / 3) by {
            assert(0 <= 9 * (r1 % 3) + c1 < 27);
        }
        assert(j == 27 * (r2 / 3) + 9 * (r2 % 3) + c2);
        assert(j / 27 == r2 / 3) by {
            assert(0 <= 9 * (r2 % 3) + c2 < 27);
        }
        assert(r1 / 3 == b / 3 && r2 / 3 == b / 3);
        assert(c1 / 3 == b % 3 && c2 / 3 == b % 3);
        assert(i != j);
    }
}

/// A grid that fails the global validity check has two clashing filled
/// cells in some unit, so no solution can reproduce all its filled
/// digits.
proof fn lemma_invalid_grid_blocks_extension<T: IsCell>(s: Seq<T>, s_anchor: Seq<T>, a: Seq<int>)
    requires
        s.len() == 81,
        s_anchor.len() == 81,
        !board::grid_ok(s),
        forall|i: int|
            0 <= i < 81 ==> (#[trigger] s[i]).fixed_spec() == s_anchor[i].fixed_spec(),
        forall|i: int|
            0 <= i < 81 && (#[trigger] s[i]).fixed_spec() ==> s[i].value_spec()
                == s_anchor[i].value_spec(),
        is_sol(a, s_anchor),
    ensures
        !extends_search_filled(a, s),
{
    if extends_search_filled(a, s) {
        let u = choose|u: int| 0 <= u < 27 && !board::unit_ok(s, u);
        let (k1, k2) = choose|k1: int, k2: int|
            0 <= k1 < k2 < 9 && board::dup_values(
                s[board::unit_cell(u, k1)].value_spec(),
                s[board::unit_cell(u, k2)].value_spec(),
            );
        lemma_unit_pair_same_unit(u, k1, k2);
        let i = board::unit_cell(u, k1);
        let j = board::unit_cell(u, k2);
        assert(a[i] == cell::digit_of(s[i].value_spec()));
        assert(a[j] == cell::digit_of(s[j].value_spec()));
        assert(false);
    }
}

/// One advance of the cursor cell keeps every solution at or past the
/// search state: the cell moved to the least digit that could still
/// begin a solution.
#[verifier::rlimit(100)]
proof fn lemma_ge_preserved<T: IsCell>(s0: Seq<T>, s_it: Seq<T>, s2: Seq<T>, k: int)
    requires
        s0.len() == 81,
        s_it.len() == 81,
        s2.len() == 81,
        0 <= k < 81,
        forall|j: int| 0 <= j < 81 && j != k ==> s2[j] == s_it[j],
        !s_it[k].fixed_spec(),
        !s2[k].fixed_spec(),
        forall|i: int| 0 <= i < 81 ==> (#[trigger] s_it[i]).fixed_spec() == s0[i].fixed_spec(),
        forall|i: int, d: int|
            0 <= i < 81 ==> ((#[trigger] s_it[i].allows(d)) == s0[i].allows(d)),
        forall|i: int, j: int| 0 <= i < j < 81 && nf_filled(s_it, j) ==> !nf_empty(s_it, i),
        nf_filled(s_it, k) ==> forall|j: int| k < j < 81 ==> !nf_filled(s_it, j),
        cell::is_filled(s2[k].value_spec()) ==> cell::digit_of(s_it[k].value_spec())
            < cell::digit_of(s2[k].value_spec()) <= 9 && forall|d: int|
            cell::digit_of(s_it[k].value_spec()) < d < cell::digit_of(s2[k].value_spec())
                ==> !s_it[k].allows(d),
        forall|a: Seq<int>| #[trigger] is_sol(a, s0) ==> ge_state(a, s_it),
        forall|a: Seq<int>|
            #[trigger] is_sol(a, s0) && nf_filled(s_it, k) ==> !extends_search_filled(a, s_it),
    ensures
        forall|a: Seq<int>| #[trigger] is_sol(a, s0) ==> ge_state(a, s2),
{
    assert forall|a: Seq<int>| #[trigger] is_sol(a, s0) implies ge_state(a, s2) by {
        assert(ge_state(a, s_it));
        assert forall|j: int|
            0 <= j < 81 && !(#[trigger] s2[j]).fixed_spec() && agrees_below(a, s2, j) implies a[j]
            >= cell::digit_of(s2[j].value_spec()) by {
            if j < k {
                assert(s2[j] == s_it[j]);
                assert(agrees_below(a, s_it, j)) by {
                    assert forall|j2: int|
                        0 <= j2 < j && !(#[trigger] s_it[j2]).fixed_spec() implies a[j2]
                        == cell::digit_of(s_it[j2].value_spec()) by {
                        assert(s2[j2] == s_it[j2]);
                    }
                }
            } else if j == k {
                if cell::is_filled(s2[k].value_spec()) {
                    let v = cell::digit_of(s_it[k].value_spec());
                    let w = cell::digit_of(s2[k].value_spec());
                    assert(agrees_below(a, s_it, k)) by {
                        assert forall|j2: int|
                            0 <= j2 < k && !(#[trigger] s_it[j2]).fixed_spec() implies a[j2]
                            == cell::digit_of(s_it[j2].value_spec()) by {
                            assert(s2[j2] == s_it[j2]);
                        }
                    }
                    assert(s0[k].allows(a[k]));
                    assert(s_it[k].allows(a[k]));
                    if cell::is_filled(s_it[k].value_spec()) {
                        assert(a[k] >= v);
                        if a[k] == v {
                            assert(extends_search_filled(a, s_it)) by {
                                assert forall|j2: int|
                                    0 <= j2 < 81 && nf_filled(s_it, j2) implies a[j2]
                                    == cell::digit_of((#[trigger] s_it[j2]).value_spec()) by {
                                    if j2 > k {
                                        assert(!nf_filled(s_it, j2));
                                    }
                                }
                            }
                            assert(false);
                        }
                        assert(a[k] > v);
                    } else {
                        assert(v == 0);
                        assert(a[k] >= 1);
                    }
                    assert(a[k] >= w);
                }
            } else {
                assert(s2[j] == s_it[j]);
                assert(!nf_filled(s_it, j)) by {
                    if nf_filled(s_it, j) && nf_empty(s_it, k) {
                        assert(!nf_empty(s_it, k));
                    }
                }
                assert(cell::digit_of(s2[j].value_spec()) == 0);
            }
        }
    }
}

/// A cell that exhausted its candidates rules out every solution that
/// would extend the remaining pencilled digits.
#[verifier::rlimit(100)]
proof fn lemma_noext_after_exhaust<T: IsCell>(s0: Seq<T>, s_it: Seq<T>, s2: Seq<T>, k: int)
    requires
        s0.len() == 81,
        s_it.len() == 81,
        s2.len() == 81,
        0 <= k < 81,
        forall|j: int| 0 <= j < 81 && j != k ==> s2[j] == s_it[j],
        !s_it[k].fixed_spec(),
        forall|i: int| 0 <= i < 81 ==> (#[trigger] s_it[i]).fixed_spec() == s0[i].fixed_spec(),
        forall|i: int, d: int|
            0 <= i < 81 ==> ((#[trigger] s_it[i].allows(d)) == s0[i].allows(d)),
        forall|i: int, j: int| 0 <= i < j < 81 && nf_filled(s_it, j) ==> !nf_empty(s_it, i),
        nf_filled(s_it, k) ==> forall|j: int| k < j < 81 ==> !nf_filled(s_it, j),
        !cell::is_filled(s2[k].value_spec()),
        forall|d: int|
            cell::digit_of(s_it[k].value_spec()) < d <= 9 ==> !s_it[k].allows(d),
        forall|a: Seq<int>| #[trigger] is_sol(a, s0) ==> ge_state(a, s_it),
        forall|a: Seq<int>|
            #[trigger] is_sol(a, s0) && nf_filled(s_it, k) ==> !extends_search_filled(a, s_it),
    ensures
        forall|a: Seq<int>| #[trigger] is_sol(a, s0) ==> !extends_search_filled(a, s2),
{
    assert forall|a: Seq<int>| #[trigger] is_sol(a, s0) implies !extends_search_filled(a, s2) by {
        if extends_search_filled(a, s2) {
            assert(s0[k].allows(a[k]));
            assert(s_it[k].allows(a[k]));
            if cell::is_filled(s_it[k].value_spec()) {
                let v = cell::digit_of(s_it[k].value_spec());
                assert(agrees_below(a, s_it, k)) by {
                    assert forall|j2: int|
                        0 <= j2 < k && !(#[trigger] s_it[j2]).fixed_spec() implies a[j2]
                        == cell::digit_of(s_it[j2].value_spec()) by {
                        assert(!nf_empty(s_it, j2));
                        assert(nf_filled(s_it, j2));
                        assert(s2[j2] == s_it[j2]);
                        assert(nf_filled(s2, j2));
                    }
                }
                assert(ge_state(a, s_it));
                assert(a[k] >= v);
                if a[k] == v {
                    assert(extends_search_filled(a, s_it)) by {
                        assert forall|j2: int|
                            0 <= j2 < 81 && nf_filled(s_it, j2) implies a[j2] == cell::digit_of(
                            (#[trigger] s_it[j2]).value_spec()) by {
                            if j2 > k {
                                assert(!nf_filled(s_it, j2));
                            }
                        }
                    }
                }
                assert(a[k] > v);
                assert(false);
            } else {
                assert(cell::digit_of(s_it[k].value_spec()) == 0);
                assert(false);
            }
        }
    }
}

/// Characters of a completed grid that satisfies the Sudoku rules: 81
/// digits with no repetition inside any row, column or box.
pub open spec fn solution_chars_ok(sol: Seq<char>) -> bool {
    &&& sol.len() == 81
    &&& forall|i: int| 0 <= i < 81 ==> board::is_digit_char(#[trigger] sol[i])
    &&& forall|i: int, j: int|
        0 <= i < 81 && 0 <= j < 81 && i != j && board::same_unit(i, j) ==> sol[i] != sol[j]
}

/// The solution shows every fixed cell of the starting grid unchanged.
pub open spec fn extends_fixed<T: IsCell>(sol: Seq<char>, b0: Seq<T>) -> bool {
    forall|i: int|
        0 <= i < 81 && (#[trigger] b0[i]).fixed_spec() ==> sol[i] == board::char_of_value(
            b0[i].value_spec(),
        )
}

/// Runs the shared backtracking search over a grid whose non-fixed cells
/// are still empty. A `true` outcome comes with the solved grid's
/// serialization, which satisfies the Sudoku rules and keeps every fixed
/// cell; a `false` outcome comes with an empty string and certifies that
/// the grid admits no solution at all.
#[verifier::rlimit(100)]
pub fn run_search<T: IsCell>(bd: &mut Board<T>) -> (r: (bool, String))
    requires
        old(bd).wf(),
        forall|i: int|
            0 <= i < 81 && (#[trigger] old(bd).0@[i]).fixed_spec() ==> cell::is_filled(
                old(bd).0@[i].value_spec(),
            ),
        forall|i: int|
            0 <= i < 81 && !(#[trigger] old(bd).0@[i]).fixed_spec() ==> old(bd).0@[i].value_spec()
                == CellValue::Empty,
    ensures
        r.0 ==> solution_chars_ok(r.1@) && extends_fixed(r.1@, old(bd).0@),
        !r.0 ==> r.1@ == Seq::<char>::empty(),
        !r.0 ==> forall|a: Seq<int>| !is_sol(a, old(bd).0@),
{
    proof {
        assert forall|a: Seq<int>| is_sol(a, old(bd).0@) implies ge_state(a, old(bd).0@) by {
            assert forall|j: int|
                0 <= j < 81 && !(#[trigger] old(bd).0@[j]).fixed_spec() && agrees_below(
                    a,
                    old(bd).0@,
                    j,
                ) implies a[j] >= cell::digit_of(old(bd).0@[j].value_spec()) by {
                assert(old(bd).0@[j].value_spec() == CellValue::Empty);
                assert(1 <= a[j]);
            }
        }
    }
    let mut is_valid: bool = true;
    loop
        invariant
            bd.wf(),
            forall|i: int|
                0 <= i < 81 ==> (#[trigger] bd.0@[i]).fixed_spec() == old(bd).0@[i].fixed_spec(),
            forall|i: int|
                0 <= i < 81 && (#[trigger] bd.0@[i]).fixed_spec() ==> bd.0@[i] == old(bd).0@[i],
            forall|i: int|
                0 <= i < 81 && (#[trigger] bd.0@[i]).fixed_spec() ==> cell::is_filled(
                    bd.0@[i].value_spec(),
                ),
            forall|i: int, j: int|
                0 <= i < j < 81 && nf_filled(bd.0@, j) ==> !nf_empty(bd.0@, i),
            old(bd).0@.len() == 81,
            forall|i: int, d: int|
                0 <= i < 81 ==> ((#[trigger] bd.0@[i].allows(d)) == old(bd).0@[i].allows(d)),
            forall|a: Seq<int>| #[trigger] is_sol(a, old(bd).0@) ==> ge_state(a, bd.0@),
            !is_valid ==> forall|a: Seq<int>| #[trigger]
                is_sol(a, old(bd).0@) ==> !extends_search_filled(a, bd.0@),
        decreases search_measure(bd.0@, is_valid),
    {
        let ghost s_it = bd.0@;
        let ghost valid_it = is_valid;
        let curr_cell_pos: CellPosition;
        if is_valid {
            let first = bd.get_first_non_fixed_zero();
            match first {
                Some(cl) => {
                    curr_cell_pos = cl.position();
                    proof {
                        board::lemma_first_empty_props(s_it, 0);
                        let fe = first_empty_from(s_it, 0);
                        assert(curr_cell_pos == board::position_at(fe));
                        assert(9 * (fe / 9) + fe % 9 == fe);
                        assert(board::cell_index(
                            curr_cell_pos.row as int,
                            curr_cell_pos.column as int,
                        ) == fe);
                    }
                },
                None => {
                    proof {
                        board::lemma_first_empty_props(s_it, 0);
                    }
                    if bd.is_correct() {
                        let sol = bd.to_str();
                        proof {
                            assert forall|i: int| 0 <= i < 81 implies cell::is_filled(
                                (#[trigger] s_it[i]).value_spec(),
                            ) by {
                                if !s_it[i].fixed_spec() {
                                    assert(!nf_empty(s_it, i));
                                }
                            }
                            assert forall|i: int| 0 <= i < 81 implies board::is_digit_char(
                                #[trigger] sol@[i],
                            ) by {
                                assert(cell::value_wf(s_it[i].value_spec()));
                                assert(sol@[i] == board::char_of_value(s_it[i].value_spec()));
                            }
                            assert forall|i: int, j: int|
                                0 <= i < 81 && 0 <= j < 81 && i != j && board::same_unit(
                                    i,
                                    j,
                                ) implies sol@[i] != sol@[j] by {
                                board::lemma_grid_ok_pairwise(s_it, i, j);
                                assert(cell::value_wf(s_it[i].value_spec()));
                                assert(cell::value_wf(s_it[j].value_spec()));
                                assert(sol@[i] == board::char_of_value(s_it[i].value_spec()));
                                assert(sol@[j] == board::char_of_value(s_it[j].value_spec()));
                            }
                            assert forall|i: int|
                                0 <= i < 81 && (#[trigger] old(bd).0@[i]).fixed_spec() implies sol@[i]
                                == board::char_of_value(old(bd).0@[i].value_spec()) by {
                                assert(bd.0@[i].fixed_spec());
                                assert(bd.0@[i] == old(bd).0@[i]);
                            }
                        }
                        return (true, sol);
                    }
                    let last = bd.get_last_non_fixed_non_zero();
                    match last {
                        Some(cl) => {
                            curr_cell_pos = cl.position();
                            proof {
                                board::lemma_last_filled_props(s_it, 80);
                                let lf = last_filled_from(s_it, 80);
                                assert(curr_cell_pos == board::position_at(lf));
                                assert(9 * (lf / 9) + lf % 9 == lf);
                                assert(board::cell_index(
                                    curr_cell_pos.row as int,
                                    curr_cell_pos.column as int,
                                ) == lf);
                            }
                        },
                        None => {
                            proof {
                                board::lemma_last_filled_props(s_it, 80);
                                assert forall|a: Seq<int>| !is_sol(a, old(bd).0@) by {
                                    if is_sol(a, old(bd).0@) {
                                        lemma_invalid_grid_blocks_extension(s_it, old(bd).0@, a);
                                        assert(extends_search_filled(a, s_it)) by {
                                            assert(forall|j: int|
                                                0 <= j < 81 ==> !nf_filled(s_it, j));
                                        }
                                    }
                                }
                            }
                            return (false, String::new());
                        },
                    }
                },
            }
        } else {
            let last = bd.get_last_non_fixed_non_zero();
            match last {
                Some(cl) => {
                    curr_cell_pos = cl.position();
                    proof {
                        board::lemma_last_filled_props(s_it, 80);
                        let lf = last_filled_from(s_it, 80);
                        assert(curr_cell_pos == board::position_at(lf));
                        assert(9 * (lf / 9) + lf % 9 == lf);
                        assert(board::cell_index(
                            curr_cell_pos.row as int,
                            curr_cell_pos.column as int,
                        ) == lf);
                    }
                },
                None => {
                    proof {
                        board::lemma_last_filled_props(s_it, 80);
                        assert forall|a: Seq<int>| !is_sol(a, old(bd).0@) by {
                            if is_sol(a, old(bd).0@) {
                                assert(!extends_search_filled(a, s_it));
                                assert(extends_search_filled(a, s_it)) by {
                                    assert(forall|j: int| 0 <= j < 81 ==> !nf_filled(s_it, j));
                                }
                            }
                        }
                    }
                    return (false, String::new());
                },
            }
        }
        let ghost k = board::cell_index(curr_cell_pos.row as int, curr_cell_pos.column as int);
        proof {
            assert((nf_empty(s_it, k) && k == first_empty_from(s_it, 0) && 0 <= k < 81) || (
            nf_filled(s_it, k) && k == last_filled_from(s_it, 80) && 0 <= k < 81));
            assert(curr_cell_pos == board::position_at(k));
            assert(0 <= k / 9 < 9 && 0 <= k % 9 < 9);
            board::lemma_last_filled_props(s_it, 80);
            // On a backtracking move no solution extends the pencilled
            // prefix: the grid was either reported invalid, or complete
            // and rejected by the global check.
            assert forall|a: Seq<int>|
                is_sol(a, old(bd).0@) && nf_filled(s_it, k) implies !extends_search_filled(
                a,
                s_it,
            ) by {
                if valid_it && nf_filled(s_it, k) {
                    lemma_invalid_grid_blocks_extension(s_it, old(bd).0@, a);
                }
            }
        }
        let mut_cell = bd.get_mut_cell(&curr_cell_pos);
        let increment_result = mut_cell.increment();
        proof {
            assert(bd.0@.len() == 81);
            assert(forall|j: int| 0 <= j < 81 && j != k ==> bd.0@[j] == s_it[j]);
            assert(bd.0@[k].position_spec() == s_it[k].position_spec());
            assert(bd.wf());
        }
        if increment_result.needs_revalidation {
            is_valid = bd.is_cell_valid(curr_cell_pos);
        } else {
            is_valid = increment_result.is_board_valid;
        }
        proof {
            let s2 = bd.0@;
            let c1 = s_it[k];
            let c2 = s2[k];
            // The invariants survive: only the non-fixed cell at `k`
            // changed, and its fixed flag and position did not.
            assert forall|i: int| 0 <= i < 81 implies (#[trigger] s2[i]).fixed_spec() == old(
                bd,
            ).0@[i].fixed_spec() by {
                if i != k {
                    assert(s2[i] == s_it[i]);
                }
            }
            assert forall|i: int|
                0 <= i < 81 && (#[trigger] s2[i]).fixed_spec() implies s2[i] == old(bd).0@[i] by {
                assert(i != k);
                assert(s2[i] == s_it[i]);
            }
            assert forall|i: int|
                0 <= i < 81 && (#[trigger] s2[i]).fixed_spec() implies cell::is_filled(
                s2[i].value_spec()) by {
                assert(i != k);
                assert(s2[i] == s_it[i]);
            }
            if nf_empty(s_it, k) {
                // Forward move: the first empty cell was advanced.
                board::lemma_first_empty_props(s_it, 0);
                if cell::is_filled(c2.value_spec()) {
                    assert forall|i: int, j: int|
                        0 <= i < j < 81 && nf_filled(s2, j) implies !nf_empty(s2, i) by {
                        if i == k {
                            assert(cell::is_filled(s2[i].value_spec()));
                        } else {
                            assert(s2[i] == s_it[i]);
                            if j == k {
                                assert(!nf_empty(s_it, i));
                            } else {
                                assert(s2[j] == s_it[j]);
                                assert(nf_filled(s_it, j));
                                assert(!nf_empty(s_it, i));
                            }
                        }
                    }
                    lemma_measure_fill(s_it, s2, k, is_valid);
                } else {
                    // No candidate at all: the cell is unchanged and the
                    // flag just dropped to invalid.
                    assert(c2 == c1);
                    assert(s2 =~= s_it);
                    assert(!is_valid);
                    lemma_vweight_min(first_empty_from(s_it, 0));
                    assert(search_measure(s2, false) < search_measure(s_it, true));
                }
            } else {
                // Backtracking move: the last filled cell was advanced or
                // exhausted.
                board::lemma_last_filled_props(s_it, 80);
                assert forall|j: int| 0 <= j < k implies !nf_empty(s_it, j) by {
                    assert(nf_filled(s_it, k));
                }
                if cell::is_filled(c2.value_spec()) {
                    assert forall|i: int, j: int|
                        0 <= i < j < 81 && nf_filled(s2, j) implies !nf_empty(s2, i) by {
                        if i == k {
                            assert(cell::is_filled(s2[i].value_spec()));
                        } else {
                            assert(s2[i] == s_it[i]);
                            if j == k {
                                assert(!nf_empty(s_it, i));
                            } else {
                                assert(s2[j] == s_it[j]);
                                assert(nf_filled(s_it, j));
                                assert(!nf_empty(s_it, i));
                            }
                        }
                    }
                } else {
                    assert(!is_valid);
                    assert forall|i: int, j: int|
                        0 <= i < j < 81 && nf_filled(s2, j) implies !nf_empty(s2, i) by {
                        assert(j != k);
                        assert(s2[j] == s_it[j]);
                        assert(nf_filled(s_it, j));
                        assert(j < k);
                        assert(i != k);
                        assert(s2[i] == s_it[i]);
                        assert(!nf_empty(s_it, i));
                    }
                }
                lemma_measure_backtrack(s_it, s2, k, valid_it, is_valid);
            }
            // Candidate sets never change, so the solution space stays
            // anchored to the entry grid.
            assert forall|i: int, d: int|
                0 <= i < 81 implies ((#[trigger] s2[i].allows(d)) == old(bd).0@[i].allows(d)) by {
                if i != k {
                    assert(s2[i] == s_it[i]);
                }
                assert(s_it[i].allows(d) == old(bd).0@[i].allows(d));
            }
            lemma_ge_preserved(old(bd).0@, s_it, s2, k);
            // When the grid is reported invalid, no solution extends the
            // pencilled digits: either a unit check just failed, or the
            // advanced cell ran out of candidates.
            if !is_valid {
                if increment_result.needs_revalidation {
                    assert(!board::grid_ok(s2)) by {
                        let r0 = curr_cell_pos.row as int;
                        let c0 = curr_cell_pos.column as int;
                        assert(!(board::unit_ok(s2, r0) && board::unit_ok(s2, 9 + c0)
                            && board::unit_ok(s2, 18 + 3 * (r0 / 3) + c0 / 3)));
                        assert(0 <= r0 < 9 && 9 <= 9 + c0 < 18 && 18 <= 18 + 3 * (r0 / 3) + c0 / 3
                            < 27);
                    }
                    assert forall|a: Seq<int>| #[trigger] is_sol(a, old(bd).0@)
                        implies !extends_search_filled(a, s2) by {
                        lemma_invalid_grid_blocks_extension(s2, old(bd).0@, a);
                    }
                } else {
                    lemma_noext_after_exhaust(old(bd).0@, s_it, s2, k);
                }
            }
        }
    }
}

} // verus!
