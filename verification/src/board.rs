//! The numeral board: an ordered sequence of columns read and written as a
//! positional numeral in a configurable radix.

use vstd::prelude::*;

use crate::column::Column;
use crate::numeral::{
    digit_at, lemma_pow_succ, lemma_ws_nonneg, lemma_ws_prefix_le, lemma_ws_take_succ,
    weighted_sum,
};
use crate::AbacusError;
use vstd::arithmetic::div_mod::{lemma_basic_div, lemma_mod_mod, lemma_small_mod};
use vstd::arithmetic::mul::{lemma_mul_inequality, lemma_mul_nonnegative};
use vstd::arithmetic::power::{lemma_pow0, lemma_pow_increases, lemma_pow_positive, pow};
use vstd::pervasive::VecAdditionalExecFns;

verus! {

/// The values the columns currently show, least significant first.
pub open spec fn values_of(cols: Seq<Column>) -> Seq<int> {
    cols.map_values(|c: Column| c.value_spec())
}

/// The largest value each column can show, least significant first.
pub open spec fn maxes_of(cols: Seq<Column>) -> Seq<int> {
    cols.map_values(|c: Column| c.max_value_spec())
}

/// The total the column sequence shows, read as a numeral in radix `r`.
pub open spec fn total_spec(cols: Seq<Column>, r: int) -> int {
    weighted_sum(values_of(cols), r)
}

/// The largest total the column sequence can show in radix `r`.
pub open spec fn max_total_spec(cols: Seq<Column>, r: int) -> int {
    weighted_sum(maxes_of(cols), r)
}

/// A requested total clamped to what the columns can show.
pub open spec fn clamp_total(cols: Seq<Column>, r: int, t: int) -> int {
    let m = max_total_spec(cols, r);
    if t <= m {
        t
    } else {
        m
    }
}

/// The column sequence after writing total `t`: the clamped total is
/// distributed greedily from the most significant column down, each column
/// encoding the share the radix assigns to its place.
pub open spec fn set_total_result(cols: Seq<Column>, r: int, t: int) -> Seq<Column> {
    let c = clamp_total(cols, r, t);
    Seq::new(cols.len(), |i: int| cols[i].encode_spec(digit_at(c, r, i as nat, cols.len())))
}

/// An ordered sequence of columns interpreted as digits of a positional
/// numeral, index 0 being the least significant.
#[derive(Debug)]
pub struct Abacus {
    /// The columns, least significant first.
    pub columns: Vec<Column>,
    /// The positional base: column `i` is weighted by `radix^i`.
    pub radix: u64,
    /// Cached copy of the last total read or written; purely a display
    /// cache, refreshed by `get_total_value`, never authoritative.
    pub total_value: u64,
}

impl Abacus {
    /// Well-formedness: a usable radix and well-formed columns.
    pub open spec fn wf(self) -> bool {
        &&& self.radix >= 2
        &&& forall|i: int| 0 <= i < self.columns@.len() ==> (#[trigger] self.columns@[i]).wf()
    }

    /// Every column shares one deck configuration.
    pub open spec fn uniform(self) -> bool {
        forall|i: int, j: int|
            0 <= i < self.columns@.len() && 0 <= j < self.columns@.len() ==> (
            #[trigger] self.columns@[i]).same_config(#[trigger] self.columns@[j])
    }

    /// Number of columns on the board.
    pub fn column_count(&self) -> (n: usize)
        ensures
            n == self.columns@.len(),
    {
        self.columns.len()
    }

    /// The value column `column_index` currently shows.
    pub fn get_column_value(&self, column_index: usize) -> (r: Result<u64, AbacusError>)
        requires
            self.wf(),
        ensures
            match r {
                Ok(v) => column_index < self.columns@.len() && v == self.columns@[
                    column_index as int].value_spec(),
                Err(e) => e == AbacusError::IndexError && column_index >= self.columns@.len(),
            },
    {
        if column_index >= self.columns.len() {
            return Err(AbacusError::IndexError);
        }
        Ok(self.columns[column_index].value())
    }

    /// The largest value column `column_index` can show.
    pub fn max_value(&self, column_index: usize) -> (r: Result<u64, AbacusError>)
        requires
            self.wf(),
        ensures
            match r {
                Ok(v) => column_index < self.columns@.len() && v == self.columns@[
                    column_index as int].max_value_spec(),
                Err(e) => e == AbacusError::IndexError && column_index >= self.columns@.len(),
            },
    {
        if column_index >= self.columns.len() {
            return Err(AbacusError::IndexError);
        }
        Ok(self.columns[column_index].max_value())
    }

    /// The largest total the board can show, or an overflow report when
    /// that ceiling does not fit in a machine word.
    pub fn max_total_value(&self) -> (r: Result<u64, AbacusError>)
        requires
            self.wf(),
        ensures
            match r {
                Ok(v) => max_total_spec(self.columns@, self.radix as int) <= u64::MAX && v
                    == max_total_spec(self.columns@, self.radix as int),
                Err(e) => e == AbacusError::OverflowError && max_total_spec(
                    self.columns@,
                    self.radix as int,
                ) > u64::MAX,
            },
    {
        let ghost ds = maxes_of(self.columns@);
        let ghost rr = self.radix as int;
        proof {
            assert forall|j: int| 0 <= j < ds.len() implies 0 <= #[trigger] ds[j] by {
                assert(self.columns@[j].wf());
            }
        }
        proof {
            lemma_pow0(rr);
        }
        let n = self.columns.len();
        let mut acc: u64 = 0;
        let mut place: Option<u64> = Some(1u64);
        let mut i: usize = 0;
        while i < n
            invariant
                self.wf(),
                n == self.columns@.len(),
                ds == maxes_of(self.columns@),
                rr == self.radix as int,
                forall|j: int| 0 <= j < ds.len() ==> 0 <= #[trigger] ds[j],
                0 <= i <= n,
                acc as int == weighted_sum(ds.take(i as int), rr),
                match place {
                    Some(p) => p as int == pow(rr, i as nat),
                    None => pow(rr, i as nat) > u64::MAX,
                },
            decreases n - i,
        {
            let v = self.columns[i].max_value();
            proof {
                lemma_ws_take_succ(ds, rr, i as int);
                lemma_ws_prefix_le(ds, rr, i as int + 1);
                lemma_pow_positive(rr, i as nat);
            }
            if v > 0 {
                match place {
                    None => {
                        proof {
                            lemma_mul_inequality(1, v as int, pow(rr, i as nat));
                        }
                        return Err(AbacusError::OverflowError);
                    },
                    Some(p) => {
                        match v.checked_mul(p) {
                            None => {
                                proof {
                                    lemma_mul_nonnegative(v as int, pow(rr, i as nat));
                                }
                                return Err(AbacusError::OverflowError);
                            },
                            Some(term) => {
                                match acc.checked_add(term) {
                                    None => {
                                        return Err(AbacusError::OverflowError);
                                    },
                                    Some(s) => {
                                        acc = s;
                                    },
                                }
                            },
                        }
                    },
                }
            }
            place = match place {
                Some(p) => p.checked_mul(self.radix),
                None => None,
            };
            proof {
                lemma_pow_succ(rr, i as nat);
                lemma_pow_increases(rr as nat, i as nat, (i + 1) as nat);
                if v > 0 {
                    assert(acc as int == weighted_sum(ds.take(i as int), rr) + v as int * pow(
                        rr,
                        i as nat,
                    ));
                } else {
                    assert(ds[i as int] == 0);
                    assert(ds[i as int] * pow(rr, i as nat) == 0);
                    assert(acc as int == weighted_sum(ds.take(i as int), rr));
                }
                assert(acc as int == weighted_sum(ds.take(i as int + 1), rr));
            }
            i += 1;
        }
        proof {
            assert(ds.take(n as int) =~= ds);
        }
        Ok(acc)
    }

    /// Recomputes the total the columns show, refreshes the cache, and
    /// returns it; reports overflow, and leaves the cache alone, when the
    /// total does not fit in a machine word.
    pub fn get_total_value(&mut self) -> (r: Result<u64, AbacusError>)
        requires
            old(self).wf(),
        ensures
            final(self).columns@ == old(self).columns@,
            final(self).radix == old(self).radix,
            final(self).wf(),
            match r {
                Ok(v) => total_spec(old(self).columns@, old(self).radix as int) <= u64::MAX && v
                    == total_spec(old(self).columns@, old(self).radix as int)
                    && final(self).total_value == v,
                Err(e) => e == AbacusError::OverflowError && total_spec(
                    old(self).columns@,
                    old(self).radix as int,
                ) > u64::MAX && final(self).total_value == old(self).total_value,
            },
    {
        match column_values_total(&self.columns, self.radix) {
            Ok(v) => {
                self.total_value = v;
                Ok(v)
            },
            Err(e) => Err(e),
        }
    }

    /// Writes `target_value` to column `column_index`, clamped to that
    /// column's range, and returns the clamped target. The column shows the
    /// clamped target exactly whenever its decks can; a weighted deck whose
    /// weight skips past the lower deck leaves gaps no arrangement fills.
    pub fn set_column_value(&mut self, column_index: usize, target_value: u64) -> (r: Result<
        u64,
        AbacusError,
    >)
        requires
            old(self).wf(),
        ensures
            final(self).wf(),
            final(self).radix == old(self).radix,
            final(self).total_value == old(self).total_value,
            final(self).columns@.len() == old(self).columns@.len(),
            match r {
                Ok(v) => {
                    &&& column_index < old(self).columns@.len()
                    &&& final(self).columns@ == old(self).columns@.update(
                        column_index as int,
                        old(self).columns@[column_index as int].encode_spec(target_value as int),
                    )
                    &&& v == if target_value as int <= old(self).columns@[
                        column_index as int].max_value_spec() {
                        target_value as int
                    } else {
                        old(self).columns@[column_index as int].max_value_spec()
                    }
                },
                Err(e) => e == AbacusError::IndexError
                    && column_index >= old(self).columns@.len()
                    && *final(self) == *old(self),
            },
    {
        if column_index >= self.columns.len() {
            return Err(AbacusError::IndexError);
        }
        let mut col = self.columns[column_index];
        let clamped = col.encode(target_value);
        self.columns.set(column_index, col);
        Ok(clamped)
    }

    /// Writes a total onto the whole board: the target is clamped to the
    /// board's ceiling and distributed greedily from the most significant
    /// column down, each column encoding the share of the remaining value
    /// that its place value divides out. The clamped target becomes the new
    /// cached total.
    pub fn set_total_value(&mut self, target_total_value: u64)
        requires
            old(self).wf(),
        ensures
            final(self).wf(),
            final(self).radix == old(self).radix,
            final(self).columns@ == set_total_result(
                old(self).columns@,
                old(self).radix as int,
                target_total_value as int,
            ),
            final(self).total_value as int == clamp_total(
                old(self).columns@,
                old(self).radix as int,
                target_total_value as int,
            ),
    {
        let ghost cols0 = old(self).columns@;
        let ghost rr = old(self).radix as int;
        let n = self.columns.len();
        let clamped = match self.max_total_value() {
            Ok(m) => if target_total_value <= m {
                target_total_value
            } else {
                m
            },
            // a ceiling beyond the machine word clamps nothing a word can hold
            Err(_) => target_total_value,
        };
        let ghost c = clamped as int;
        proof {
            assert(c == clamp_total(cols0, rr, target_total_value as int));
        }
        let mut rem: u64 = clamped;
        let mut i: usize = n;
        while i > 0
            invariant
                self.wf(),
                self.radix == old(self).radix,
                rr == self.radix as int,
                self.total_value == old(self).total_value,
                n == cols0.len(),
                self.columns@.len() == n,
                0 <= i <= n,
                0 <= c <= u64::MAX,
                forall|j: int| 0 <= j < i ==> self.columns@[j] == cols0[j],
                forall|j: int|
                    i <= j < n ==> self.columns@[j] == cols0[j].encode_spec(
                        digit_at(c, rr, j as nat, n as nat),
                    ),
                rem as int == if i == n {
                    c
                } else {
                    c % pow(rr, i as nat)
                },
            decreases i,
        {
            i = i - 1;
            proof {
                lemma_pow_positive(rr, i as nat);
                if (i + 1) as int != n as int {
                    lemma_pow_succ(rr, i as nat);
                    lemma_pow_positive(rr, (i + 1) as nat);
                }
            }
            match pow_checked(self.radix, i) {
                Some(place) => {
                    let digit = rem / place;
                    proof {
                        if (i + 1) as int != n as int {
                            lemma_mod_mod(c, pow(rr, i as nat), rr);
                        }
                        assert(digit as int == digit_at(c, rr, i as nat, n as nat));
                    }
                    let _res = self.set_column_value(i, digit);
                    rem = rem % place;
                },
                None => {
                    proof {
                        lemma_pow_increases(rr as nat, i as nat, (i + 1) as nat);
                        if (i + 1) as int != n as int {
                            lemma_small_mod(c as nat, pow(rr, (i + 1) as nat) as nat);
                        }
                        lemma_small_mod(c as nat, pow(rr, i as nat) as nat);
                        lemma_basic_div(c, pow(rr, i as nat));
                        assert(digit_at(c, rr, i as nat, n as nat) == 0);
                    }
                    let _res = self.set_column_value(i, 0);
                },
            }
        }
        self.total_value = clamped;
        proof {
            assert(self.columns@ =~= set_total_result(cols0, rr, target_total_value as int));
        }
    }

    /// A click on the lower-deck bead of column `column_index` at 1-based
    /// position `position`, counted from the bar: the clicked bead and every
    /// bead between it and the bar become active, unless exactly those beads
    /// were active already, in which case the clicked bead retracts.
    pub fn click_lower_bead(&mut self, column_index: usize, position: u64) -> (r: Result<
        (),
        AbacusError,
    >)
        requires
            old(self).wf(),
        ensures
            final(self).wf(),
            final(self).radix == old(self).radix,
            final(self).total_value == old(self).total_value,
            final(self).columns@.len() == old(self).columns@.len(),
            match r {
                Ok(_) => {
                    &&& column_index < old(self).columns@.len()
                    &&& 1 <= position <= old(self).columns@[column_index as int].lower_bead_count
                    &&& final(self).columns@ == old(self).columns@.update(
                        column_index as int,
                        old(self).columns@[column_index as int].click_lower_spec(position as int),
                    )
                },
                Err(e) => {
                    &&& e == AbacusError::IndexError
                    &&& *final(self) == *old(self)
                    &&& (column_index >= old(self).columns@.len() || position < 1 || position
                        > old(self).columns@[column_index as int].lower_bead_count)
                },
            },
    {
        if column_index >= self.columns.len() {
            return Err(AbacusError::IndexError);
        }
        let mut col = self.columns[column_index];
        if position < 1 || position > col.lower_bead_count {
            return Err(AbacusError::IndexError);
        }
        col.click_lower_bead(position);
        self.columns.set(column_index, col);
        Ok(())
    }

    /// A click on the upper-deck bead of column `column_index` at 1-based
    /// position `position`, counted from the bar.
    pub fn click_upper_bead(&mut self, column_index: usize, position: u64) -> (r: Result<
        (),
        AbacusError,
    >)
        requires
            old(self).wf(),
        ensures
            final(self).wf(),
            final(self).radix == old(self).radix,
            final(self).total_value == old(self).total_value,
            final(self).columns@.len() == old(self).columns@.len(),
            match r {
                Ok(_) => {
                    &&& column_index < old(self).columns@.len()
                    &&& 1 <= position <= old(self).columns@[column_index as int].upper_bead_count
                    &&& final(self).columns@ == old(self).columns@.update(
                        column_index as int,
                        old(self).columns@[column_index as int].click_upper_spec(position as int),
                    )
                },
                Err(e) => {
                    &&& e == AbacusError::IndexError
                    &&& *final(self) == *old(self)
                    &&& (column_index >= old(self).columns@.len() || position < 1 || position
                        > old(self).columns@[column_index as int].upper_bead_count)
                },
            },
    {
        if column_index >= self.columns.len() {
            return Err(AbacusError::IndexError);
        }
        let mut col = self.columns[column_index];
        if position < 1 || position > col.upper_bead_count {
            return Err(AbacusError::IndexError);
        }
        col.click_upper_bead(position);
        self.columns.set(column_index, col);
        Ok(())
    }
}

/// The total a column sequence shows in the given radix, or an overflow
/// report when it does not fit in a machine word.
fn column_values_total(columns: &Vec<Column>, radix: u64) -> (r: Result<u64, AbacusError>)
    requires
        radix >= 2,
        forall|i: int| 0 <= i < columns@.len() ==> (#[trigger] columns@[i]).wf(),
    ensures
        match r {
            Ok(v) => total_spec(columns@, radix as int) <= u64::MAX && v == total_spec(
                columns@,
                radix as int,
            ),
            Err(e) => e == AbacusError::OverflowError && total_spec(columns@, radix as int)
                > u64::MAX,
        },
{
    let ghost ds = values_of(columns@);
    let ghost rr = radix as int;
    proof {
        assert forall|j: int| 0 <= j < ds.len() implies 0 <= #[trigger] ds[j] by {
            assert(columns@[j].wf());
        }
    }
    proof {
        lemma_pow0(rr);
    }
    let n = columns.len();
    let mut acc: u64 = 0;
    let mut place: Option<u64> = Some(1u64);
    let mut i: usize = 0;
    while i < n
        invariant
            radix >= 2,
            forall|k: int| 0 <= k < columns@.len() ==> (#[trigger] columns@[k]).wf(),
            n == columns@.len(),
            ds == values_of(columns@),
            rr == radix as int,
            forall|j: int| 0 <= j < ds.len() ==> 0 <= #[trigger] ds[j],
            0 <= i <= n,
            acc as int == weighted_sum(ds.take(i as int), rr),
            match place {
                Some(p) => p as int == pow(rr, i as nat),
                None => pow(rr, i as nat) > u64::MAX,
            },
        decreases n - i,
    {
        let v = columns[i].value();
        proof {
            lemma_ws_take_succ(ds, rr, i as int);
            lemma_ws_prefix_le(ds, rr, i as int + 1);
            lemma_pow_positive(rr, i as nat);
        }
        if v > 0 {
            match place {
                None => {
                    proof {
                        lemma_mul_inequality(1, v as int, pow(rr, i as nat));
                    }
                    return Err(AbacusError::OverflowError);
                },
                Some(p) => {
                    match v.checked_mul(p) {
                        None => {
                            proof {
                                lemma_mul_nonnegative(v as int, pow(rr, i as nat));
                            }
                            return Err(AbacusError::OverflowError);
                        },
                        Some(term) => {
                            match acc.checked_add(term) {
                                None => {
                                    return Err(AbacusError::OverflowError);
                                },
                                Some(s) => {
                                    acc = s;
                                },
                            }
                        },
                    }
                },
            }
        }
        place = match place {
            Some(p) => p.checked_mul(radix),
            None => None,
        };
        proof {
            lemma_pow_succ(rr, i as nat);
            lemma_pow_increases(rr as nat, i as nat, (i + 1) as nat);
            if v > 0 {
                assert(acc as int == weighted_sum(ds.take(i as int), rr) + v as int * pow(
                    rr,
                    i as nat,
                ));
            } else {
                assert(ds[i as int] == 0);
                assert(ds[i as int] * pow(rr, i as nat) == 0);
                assert(acc as int == weighted_sum(ds.take(i as int), rr));
            }
            assert(acc as int == weighted_sum(ds.take(i as int + 1), rr));
        }
        i += 1;
    }
    proof {
        assert(ds.take(n as int) =~= ds);
    }
    Ok(acc)
}

/// Raises `base` to `exp`, or reports that the power does not fit in a
/// machine word.
fn pow_checked(base: u64, exp: usize) -> (r: Option<u64>)
    requires
        base >= 2,
    ensures
        match r {
            Some(p) => p as int == pow(base as int, exp as nat),
            None => pow(base as int, exp as nat) > u64::MAX,
        },
{
    proof {
        lemma_pow0(base as int);
    }
    let mut acc: u64 = 1;
    let mut j: usize = 0;
    while j < exp
        invariant
            base >= 2,
            0 <= j <= exp,
            acc as int == pow(base as int, j as nat),
        decreases exp - j,
    {
        proof {
            lemma_pow_succ(base as int, j as nat);
        }
        match acc.checked_mul(base) {
            Some(next) => {
                acc = next;
            },
            None => {
                proof {
                    lemma_pow_increases(base as nat, (j + 1) as nat, exp as nat);
                }
                return None;
            },
        }
        j += 1;
    }
    Some(acc)
}

/// Builds a fresh board: `column_count` columns of one deck configuration,
/// every bead inactive, showing total 0.
pub fn build_board(
    column_count: usize,
    upper_bead_count: u64,
    lower_bead_count: u64,
    upper_bead_weight: u64,
    radix: u64,
) -> (r: Result<Abacus, AbacusError>)
    ensures
        match r {
            Ok(b) => {
                &&& radix >= 2
                &&& upper_bead_count == 0 || lower_bead_count + upper_bead_weight <= u64::MAX
                &&& b.wf()
                &&& b.uniform()
                &&& b.radix == radix
                &&& b.total_value == 0
                &&& b.columns@.len() == column_count
                &&& forall|i: int|
                    0 <= i < column_count ==> #[trigger] b.columns@[i] == Column::fresh_spec(
                        lower_bead_count,
                        upper_bead_count,
                        upper_bead_weight,
                    )
            },
            Err(e) => {
                &&& e == AbacusError::ConfigError
                &&& (radix < 2 || (upper_bead_count > 0 && lower_bead_count + upper_bead_weight
                    > u64::MAX))
            },
        },
{
    if radix < 2 {
        return Err(AbacusError::ConfigError);
    }
    if upper_bead_count > 0 && lower_bead_count.checked_add(upper_bead_weight).is_none() {
        return Err(AbacusError::ConfigError);
    }
    let mut columns: Vec<Column> = Vec::new();
    let mut i: usize = 0;
    while i < column_count
        invariant
            0 <= i <= column_count,
            columns@.len() == i,
            upper_bead_count == 0 || lower_bead_count + upper_bead_weight <= u64::MAX,
            forall|j: int|
                0 <= j < i ==> #[trigger] columns@[j] == Column::fresh_spec(
                    lower_bead_count,
                    upper_bead_count,
                    upper_bead_weight,
                ),
        decreases column_count - i,
    {
        columns.push(
            Column {
                lower_bead_count,
                upper_bead_count,
                upper_bead_weight,
                inactive_lower_count: lower_bead_count,
                active_upper_count: 0,
            },
        );
        i += 1;
    }
    Ok(Abacus { columns, radix, total_value: 0 })
}

} // verus!
