//! Pure arithmetic of positional numerals: weighted digit sums, and the
//! digits that greedy most-significant-first distribution assigns.

use vstd::prelude::*;
use vstd::arithmetic::div_mod::{
    lemma_div_multiples_vanish_fancy, lemma_div_pos_is_pos, lemma_fundamental_div_mod,
    lemma_mod_bound, lemma_mod_mod, lemma_mod_multiples_vanish, lemma_multiply_divide_lt,
    lemma_small_mod,
};
use vstd::arithmetic::mul::{
    lemma_mul_inequality, lemma_mul_is_commutative, lemma_mul_nonnegative,
};
use vstd::arithmetic::power::{lemma_pow0, lemma_pow1, lemma_pow_adds, lemma_pow_positive, pow};

verus! {

/// Value of the digit sequence `ds` read as a positional numeral in radix
/// `r`, index 0 being the least significant place.
pub open spec fn weighted_sum(ds: Seq<int>, r: int) -> int
    decreases ds.len(),
{
    if ds.len() == 0 {
        0
    } else {
        weighted_sum(ds.drop_last(), r) + ds.last() * pow(r, (ds.len() - 1) as nat)
    }
}

/// The digit that greedy most-significant-first distribution of `c` over `n`
/// places in radix `r` assigns at place `i`: each place above `i` takes its
/// share first, and the most significant place absorbs everything no higher
/// place exists for.
pub open spec fn digit_at(c: int, r: int, i: nat, n: nat) -> int {
    if i + 1 >= n {
        c / pow(r, i)
    } else {
        (c % pow(r, i + 1)) / pow(r, i)
    }
}

/// All `n` digits of the greedy distribution, least significant first.
pub open spec fn digit_seq(c: int, r: int, n: nat) -> Seq<int> {
    Seq::new(n, |i: int| digit_at(c, r, i as nat, n))
}

/// One more factor of the radix extends a power by one place.
pub proof fn lemma_pow_succ(r: int, e: nat)
    ensures
        pow(r, (e + 1) as nat) == r * pow(r, e),
{
    lemma_pow_adds(r, 1, e);
    lemma_pow1(r);
}

/// Extending a prefix of the digits by one place adds that place's share.
pub proof fn lemma_ws_take_succ(ds: Seq<int>, r: int, i: int)
    requires
        0 <= i < ds.len(),
    ensures
        weighted_sum(ds.take(i + 1), r) == weighted_sum(ds.take(i), r) + ds[i] * pow(
            r,
            i as nat,
        ),
{
    let s = ds.take(i + 1);
    assert(s.drop_last() =~= ds.take(i));
    assert(s.last() == ds[i]);
}

/// A numeral out of nonnegative digits is nonnegative.
pub proof fn lemma_ws_nonneg(ds: Seq<int>, r: int)
    requires
        r >= 1,
        forall|j: int| 0 <= j < ds.len() ==> 0 <= #[trigger] ds[j],
    ensures
        0 <= weighted_sum(ds, r),
    decreases ds.len(),
{
    if ds.len() > 0 {
        lemma_ws_nonneg(ds.drop_last(), r);
        lemma_pow_positive(r, (ds.len() - 1) as nat);
        lemma_mul_nonnegative(ds.last(), pow(r, (ds.len() - 1) as nat));
    }
}

/// Raising digits place by place can only raise the numeral.
pub proof fn lemma_ws_pointwise_le(ds: Seq<int>, es: Seq<int>, r: int)
    requires
        r >= 1,
        ds.len() == es.len(),
        forall|j: int| 0 <= j < ds.len() ==> 0 <= #[trigger] ds[j] <= es[j],
    ensures
        weighted_sum(ds, r) <= weighted_sum(es, r),
    decreases ds.len(),
{
    if ds.len() > 0 {
        lemma_ws_pointwise_le(ds.drop_last(), es.drop_last(), r);
        lemma_pow_positive(r, (ds.len() - 1) as nat);
        lemma_mul_inequality(ds.last(), es.last(), pow(r, (ds.len() - 1) as nat));
    }
}

/// A prefix of nonnegative digits stays at or below the whole numeral.
pub proof fn lemma_ws_prefix_le(ds: Seq<int>, r: int, i: int)
    requires
        r >= 1,
        0 <= i <= ds.len(),
        forall|j: int| 0 <= j < ds.len() ==> 0 <= #[trigger] ds[j],
    ensures
        weighted_sum(ds.take(i), r) <= weighted_sum(ds, r),
    decreases ds.len() - i,
{
    if i == ds.len() {
        assert(ds.take(i) =~= ds);
    } else {
        lemma_ws_take_succ(ds, r, i);
        lemma_pow_positive(r, i as nat);
        lemma_mul_nonnegative(ds[i], pow(r, i as nat));
        lemma_ws_prefix_le(ds, r, i + 1);
    }
}

/// A numeral splits at any place `k` into its low prefix and its high part
/// shifted up by `k` places.
pub proof fn lemma_ws_split(ds: Seq<int>, r: int, k: int)
    requires
        0 <= k <= ds.len(),
    ensures
        weighted_sum(ds, r) == weighted_sum(ds.take(k), r) + pow(r, k as nat) * weighted_sum(
            ds.skip(k),
            r,
        ),
    decreases ds.len(),
{
    if ds.len() == k {
        assert(ds.take(k) =~= ds);
        assert(ds.skip(k) =~= Seq::<int>::empty());
    } else {
        let dl = ds.drop_last();
        lemma_ws_split(dl, r, k);
        assert(dl.take(k) =~= ds.take(k));
        assert(ds.skip(k).drop_last() =~= dl.skip(k));
        assert(ds.skip(k).last() == ds.last());
        let a = ds.last();
        let p1 = pow(r, k as nat);
        let p2 = pow(r, (ds.len() - k - 1) as nat);
        let p3 = pow(r, (ds.len() - 1) as nat);
        lemma_pow_adds(r, k as nat, (ds.len() - k - 1) as nat);
        assert(weighted_sum(ds.skip(k), r) == weighted_sum(dl.skip(k), r) + a * p2);
        assert(p1 * (weighted_sum(dl.skip(k), r) + a * p2) == p1 * weighted_sum(dl.skip(k), r) + a
            * p3) by (nonlinear_arith)
            requires
                p3 == p1 * p2,
        ;
    }
}

/// The low `i` places of the greedy digits of `c` recover `c` modulo the
/// `i`-th power of the radix; all `n` places recover `c` itself.
pub proof fn lemma_digit_prefix(c: int, r: int, n: nat, i: int)
    requires
        0 <= c,
        r >= 2,
        n >= 1,
        0 <= i <= n,
    ensures
        weighted_sum(digit_seq(c, r, n).take(i), r) == if i < n {
            c % pow(r, i as nat)
        } else {
            c
        },
    decreases i,
{
    let ds = digit_seq(c, r, n);
    if i == 0 {
        lemma_pow0(r);
        assert(c % 1 == 0) by (nonlinear_arith);
    } else {
        lemma_digit_prefix(c, r, n, i - 1);
        lemma_ws_take_succ(ds, r, i - 1);
        let pl = pow(r, (i - 1) as nat);
        let ph = pow(r, i as nat);
        lemma_pow_positive(r, (i - 1) as nat);
        lemma_pow_positive(r, i as nat);
        lemma_pow_succ(r, (i - 1) as nat);
        let d = digit_at(c, r, (i - 1) as nat, n);
        if i < n {
            let x = c % ph;
            assert(d == x / pl);
            assert(ph == pl * r);
            lemma_mod_mod(c, pl, r);
            assert(x % pl == c % pl);
            lemma_fundamental_div_mod(x, pl);
            assert(x == pl * (x / pl) + x % pl);
            lemma_mul_is_commutative(pl, d);
            assert(weighted_sum(ds.take(i), r) == c % pl + d * pl);
        } else {
            assert(d == c / pl);
            lemma_fundamental_div_mod(c, pl);
            lemma_mul_is_commutative(pl, d);
        }
    }
}

/// The greedy digits of `c` read back as a numeral give exactly `c`.
pub proof fn lemma_digits_sum(c: int, r: int, n: nat)
    requires
        0 <= c,
        r >= 2,
        n >= 1,
    ensures
        weighted_sum(digit_seq(c, r, n), r) == c,
{
    lemma_digit_prefix(c, r, n, n as int);
    assert(digit_seq(c, r, n).take(n as int) =~= digit_seq(c, r, n));
}

/// Greedy digits are nonnegative, and below the radix everywhere but at the
/// most significant place.
pub proof fn lemma_digit_bounds(c: int, r: int, i: nat, n: nat)
    requires
        0 <= c,
        r >= 2,
        i < n,
    ensures
        0 <= digit_at(c, r, i, n),
        i + 1 < n ==> digit_at(c, r, i, n) < r,
{
    let pl = pow(r, i);
    lemma_pow_positive(r, i);
    if i + 1 < n {
        let ph = pow(r, (i + 1) as nat);
        lemma_pow_positive(r, (i + 1) as nat);
        lemma_pow_succ(r, i);
        lemma_mod_bound(c, ph);
        lemma_div_pos_is_pos(c % ph, pl);
        lemma_mul_is_commutative(pl, r);
        lemma_multiply_divide_lt(c % ph, pl, r);
    } else {
        lemma_div_pos_is_pos(c, pl);
    }
}

/// A prefix of digits that each stay below the radix stays below the value
/// of one bead at the next place up.
pub proof fn lemma_ws_prefix_bound(ds: Seq<int>, r: int, i: int)
    requires
        r >= 2,
        0 <= i <= ds.len(),
        forall|j: int| 0 <= j < i ==> 0 <= #[trigger] ds[j] < r,
    ensures
        0 <= weighted_sum(ds.take(i), r) < pow(r, i as nat),
    decreases i,
{
    if i == 0 {
        lemma_pow_positive(r, 0);
    } else {
        lemma_ws_prefix_bound(ds, r, i - 1);
        lemma_ws_take_succ(ds, r, i - 1);
        let pl = pow(r, (i - 1) as nat);
        lemma_pow_positive(r, (i - 1) as nat);
        lemma_pow_succ(r, (i - 1) as nat);
        lemma_mul_nonnegative(ds[i - 1], pl);
        lemma_mul_inequality(ds[i - 1], r - 1, pl);
        assert((r - 1) * pl == r * pl - pl) by (nonlinear_arith);
    }
}

/// A numeral whose every digit is the largest the radix allows reaches one
/// short of the next place's bead value.
pub proof fn lemma_ws_uniform_max(ds: Seq<int>, r: int)
    requires
        r >= 2,
        forall|j: int| 0 <= j < ds.len() ==> #[trigger] ds[j] == r - 1,
    ensures
        weighted_sum(ds, r) == pow(r, ds.len()) - 1,
    decreases ds.len(),
{
    if ds.len() == 0 {
        lemma_pow0(r);
    } else {
        lemma_ws_uniform_max(ds.drop_last(), r);
        let p = pow(r, (ds.len() - 1) as nat);
        lemma_pow_succ(r, (ds.len() - 1) as nat);
        assert((r - 1) * p == r * p - p) by (nonlinear_arith);
    }
}

/// Reading a numeral of in-range digits back out by greedy distribution
/// recovers each digit unchanged. The digit at the most significant place
/// may exceed the radix; every lower digit must stay below it.
pub proof fn lemma_ws_digit_extract(ds: Seq<int>, r: int, i: int)
    requires
        r >= 2,
        0 <= i < ds.len(),
        forall|j: int| 0 <= j < ds.len() ==> 0 <= #[trigger] ds[j],
        forall|j: int| 0 <= j < ds.len() - 1 ==> #[trigger] ds[j] < r,
    ensures
        digit_at(weighted_sum(ds, r), r, i as nat, ds.len()) == ds[i],
{
    let n = ds.len() as int;
    let t = weighted_sum(ds, r);
    let pl = pow(r, i as nat);
    lemma_pow_positive(r, i as nat);
    lemma_ws_split(ds, r, i + 1);
    lemma_ws_take_succ(ds, r, i);
    lemma_ws_prefix_bound(ds, r, i);
    let low = weighted_sum(ds.take(i), r);
    let mid = weighted_sum(ds.take(i + 1), r);
    let high = weighted_sum(ds.skip(i + 1), r);
    assert(mid == low + ds[i] * pl);
    lemma_mul_is_commutative(ds[i], pl);
    if i < n - 1 {
        let ph = pow(r, (i + 1) as nat);
        lemma_pow_positive(r, (i + 1) as nat);
        lemma_pow_succ(r, i as nat);
        // the digits of the prefix up to and including place i fit below ph
        lemma_mul_inequality(ds[i], r - 1, pl);
        assert((r - 1) * pl == r * pl - pl) by (nonlinear_arith);
        assert(0 <= mid < ph);
        // everything above place i vanishes modulo ph
        lemma_mod_multiples_vanish(high, mid, ph);
        lemma_small_mod(mid as nat, ph as nat);
        assert(t % ph == mid);
        lemma_div_multiples_vanish_fancy(ds[i], low, pl);
        assert(digit_at(t, r, i as nat, n as nat) == (t % ph) / pl);
    } else {
        assert(ds.skip(i + 1) =~= Seq::<int>::empty());
        assert(high == 0);
        assert(t == mid);
        lemma_div_multiples_vanish_fancy(ds[i], low, pl);
        assert(digit_at(t, r, i as nat, n as nat) == t / pl);
    }
}

} // verus!
