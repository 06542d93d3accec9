//! The laws the numeral model obeys, stated over the same spec functions
//! the executable contracts use, and proved once for every board.

use vstd::prelude::*;

use crate::board::{clamp_total, max_total_spec, maxes_of, set_total_result, total_spec, values_of};
use crate::column::{lemma_encode_fixpoint, lemma_encode_wf, Column};
use crate::numeral::{
    digit_at, digit_seq, lemma_digit_bounds, lemma_digits_sum, lemma_pow_succ,
    lemma_ws_digit_extract, lemma_ws_nonneg, lemma_ws_pointwise_le, lemma_ws_uniform_max,
    weighted_sum,
};
use vstd::arithmetic::div_mod::lemma_multiply_divide_lt;
use vstd::arithmetic::power::{lemma_pow_positive, pow};

verus! {

/// A standard base-`r` column: its ceiling is one short of the radix, and
/// its decks leave no gap below that ceiling (a weighted deck, if present,
/// starts no higher than one past the lower deck's reach).
pub open spec fn standard_column(c: Column, r: int) -> bool {
    &&& c.max_value_spec() == r - 1
    &&& (c.upper_bead_count == 0 || c.upper_bead_weight <= c.lower_bead_count + 1)
}

/// Writing a value a gap-free column can hold shows exactly that value.
pub proof fn lemma_column_set_exact(c: Column, x: int)
    requires
        c.wf(),
        0 <= x <= c.max_value_spec(),
        c.upper_bead_count == 0 || c.upper_bead_weight <= c.lower_bead_count + 1,
    ensures
        c.encode_spec(x).value_spec() == x,
{
}

/// Writing past a column's ceiling shows exactly the ceiling.
pub proof fn lemma_column_set_clamps(c: Column, x: int)
    requires
        c.wf(),
        x > c.max_value_spec(),
    ensures
        c.encode_spec(x).value_spec() == c.max_value_spec(),
{
}

/// A click on the lower-deck bead at position `p` activates the beads up to
/// and including `p` when they were not exactly the active ones; a second
/// click on the same bead retracts it, leaving `p - 1` active.
pub proof fn lemma_click_lower_toggle(c: Column, p: int)
    requires
        c.wf(),
        1 <= p <= c.lower_bead_count,
    ensures
        c.active_lower_count() != p ==> c.click_lower_spec(p).active_lower_count() == p,
        c.active_lower_count() == p ==> c.click_lower_spec(p).active_lower_count() == p - 1,
        c.active_lower_count() != p ==> c.click_lower_spec(p).click_lower_spec(
            p,
        ).active_lower_count() == p - 1,
{
}

/// The same toggle on the upper deck, over its active-bead count.
pub proof fn lemma_click_upper_toggle(c: Column, p: int)
    requires
        c.wf(),
        1 <= p <= c.upper_bead_count,
    ensures
        c.active_upper_count != p ==> c.click_upper_spec(p).active_upper_count == p,
        c.active_upper_count == p ==> c.click_upper_spec(p).active_upper_count == p - 1,
        c.active_upper_count != p ==> c.click_upper_spec(p).click_upper_spec(
            p,
        ).active_upper_count == p - 1,
{
}

/// On a board of standard base-`r` columns, writing any total shows exactly
/// the clamped total: nothing clamps but the board's single ceiling.
pub proof fn lemma_set_total_exact(cols: Seq<Column>, r: int, t: int)
    requires
        r >= 2,
        0 <= t,
        forall|i: int| 0 <= i < cols.len() ==> (#[trigger] cols[i]).wf(),
        forall|i: int| 0 <= i < cols.len() ==> standard_column(#[trigger] cols[i], r),
    ensures
        total_spec(set_total_result(cols, r, t), r) == clamp_total(cols, r, t),
{
    let n = cols.len();
    let c = clamp_total(cols, r, t);
    let res = set_total_result(cols, r, t);
    assert forall|j: int| 0 <= j < n implies #[trigger] maxes_of(cols)[j] == r - 1 by {
        assert(standard_column(cols[j], r));
    }
    lemma_ws_uniform_max(maxes_of(cols), r);
    assert(max_total_spec(cols, r) == pow(r, n) - 1);
    if n == 0 {
        assert(values_of(res) =~= Seq::<int>::empty());
    } else {
        lemma_pow_positive(r, n);
        assert(0 <= c <= pow(r, n) - 1);
        assert forall|i: int| 0 <= i < n implies 0 <= #[trigger] digit_at(c, r, i as nat, n) <= r
            - 1 by {
            lemma_digit_bounds(c, r, i as nat, n);
            if i + 1 == n {
                lemma_pow_succ(r, (n - 1) as nat);
                lemma_pow_positive(r, (n - 1) as nat);
                lemma_multiply_divide_lt(c, pow(r, (n - 1) as nat), r);
            }
        }
        assert forall|i: int| 0 <= i < n implies #[trigger] values_of(res)[i] == digit_at(
            c,
            r,
            i as nat,
            n,
        ) by {
            lemma_column_set_exact(cols[i], digit_at(c, r, i as nat, n));
        }
        assert(values_of(res) =~= digit_seq(c, r, n));
        lemma_digits_sum(c, r, n);
    }
}

/// Round trip within range: on a board of standard base-`r` columns, a
/// total the board can show is shown exactly.
pub proof fn lemma_round_trip(cols: Seq<Column>, r: int, t: int)
    requires
        r >= 2,
        forall|i: int| 0 <= i < cols.len() ==> (#[trigger] cols[i]).wf(),
        forall|i: int| 0 <= i < cols.len() ==> standard_column(#[trigger] cols[i], r),
        0 <= t <= max_total_spec(cols, r),
    ensures
        total_spec(set_total_result(cols, r, t), r) == t,
{
    lemma_set_total_exact(cols, r, t);
}

/// Clamping: on a board of standard base-`r` columns, writing past the
/// board's ceiling shows exactly the ceiling.
pub proof fn lemma_clamping(cols: Seq<Column>, r: int, t: int)
    requires
        r >= 2,
        forall|i: int| 0 <= i < cols.len() ==> (#[trigger] cols[i]).wf(),
        forall|i: int| 0 <= i < cols.len() ==> standard_column(#[trigger] cols[i], r),
        t > max_total_spec(cols, r),
    ensures
        total_spec(set_total_result(cols, r, t), r) == max_total_spec(cols, r),
{
    assert forall|j: int| 0 <= j < cols.len() implies 0 <= #[trigger] maxes_of(cols)[j] by {
        assert(cols[j].wf());
    }
    lemma_ws_nonneg(maxes_of(cols), r);
    lemma_set_total_exact(cols, r, t);
}

/// Idempotence, on every board: writing any total, reading back what the
/// beads show, and writing that reading again moves not one bead, so the
/// board still shows the same reading.
pub proof fn lemma_set_total_idempotent(cols: Seq<Column>, r: int, v: int)
    requires
        r >= 2,
        0 <= v,
        forall|i: int| 0 <= i < cols.len() ==> (#[trigger] cols[i]).wf(),
    ensures
        0 <= total_spec(set_total_result(cols, r, v), r) <= clamp_total(cols, r, v),
        set_total_result(
            set_total_result(cols, r, v),
            r,
            total_spec(set_total_result(cols, r, v), r),
        ) == set_total_result(cols, r, v),
{
    let n = cols.len();
    let cols1 = set_total_result(cols, r, v);
    let vals = values_of(cols1);
    let a = total_spec(cols1, r);
    let c = clamp_total(cols, r, v);
    assert forall|j: int| 0 <= j < n implies 0 <= #[trigger] maxes_of(cols)[j] by {
        assert(cols[j].wf());
    }
    lemma_ws_nonneg(maxes_of(cols), r);
    assert(0 <= c);
    if n == 0 {
        assert(vals =~= Seq::<int>::empty());
        assert(set_total_result(cols1, r, a) =~= cols1);
    } else {
        assert forall|i: int|
            0 <= i < n implies (#[trigger] cols1[i]).wf() && cols1[i].same_config(cols[i]) && 0
            <= vals[i] <= digit_seq(c, r, n)[i] by {
            lemma_digit_bounds(c, r, i as nat, n);
            lemma_encode_wf(cols[i], digit_at(c, r, i as nat, n));
        }
        lemma_ws_pointwise_le(vals, digit_seq(c, r, n), r);
        lemma_digits_sum(c, r, n);
        assert(a <= c);
        assert forall|j: int| 0 <= j < n implies 0 <= #[trigger] vals[j] by {}
        lemma_ws_nonneg(vals, r);
        assert(0 <= a);
        // the write kept every deck configuration, so the ceiling is unchanged
        assert(maxes_of(cols1) =~= maxes_of(cols));
        assert(c <= max_total_spec(cols, r));
        assert(clamp_total(cols1, r, a) == a);
        // a lower digit never outgrows the greedy digit it came from
        assert forall|j: int| 0 <= j < n - 1 implies #[trigger] vals[j] < r by {
            lemma_digit_bounds(c, r, j as nat, n);
        }
        assert forall|i: int| 0 <= i < n implies #[trigger] digit_at(a, r, i as nat, n)
            == vals[i] by {
            lemma_ws_digit_extract(vals, r, i);
        }
        assert forall|i: int| 0 <= i < n implies #[trigger] set_total_result(cols1, r, a)[i]
            == cols1[i] by {
            lemma_digit_bounds(c, r, i as nat, n);
            lemma_encode_fixpoint(cols[i], digit_at(c, r, i as nat, n));
            assert(cols1[i] == cols[i].encode_spec(digit_at(c, r, i as nat, n)));
            assert(cols1[i].encode_spec(vals[i]) == cols1[i]);
        }
        assert(set_total_result(cols1, r, a) =~= cols1);
    }
}

} // verus!
