//! Exact latency arithmetic over the cycles of a run.
//!
//! A run is a list of cycles and a cycle a list of durations in whole
//! milliseconds. A mean is a fraction of whole numbers and is never rounded.

use vstd::prelude::*;
use vstd::arithmetic::div_mod::{
    lemma_fundamental_div_mod,
    lemma_mod_multiples_basic,
};

verus! {

/// A fraction of whole numbers.
pub struct Ratio {
    pub num: int,
    pub den: int,
}

impl Ratio {
    /// The two fractions have the same value. Both denominators are taken
    /// to be positive.
    pub open spec fn same(self, other: Ratio) -> bool {
        self.num * other.den == other.num * self.den
    }

    /// This fraction is smaller than the other. Both denominators are taken
    /// to be positive.
    pub open spec fn below(self, other: Ratio) -> bool {
        self.num * other.den < other.num * self.den
    }

    /// The fraction with a whole number added.
    pub open spec fn plus(self, whole: int) -> Ratio {
        Ratio { num: self.num + whole * self.den, den: self.den }
    }
}

/// The sum of a list of durations.
pub open spec fn sum(values: Seq<nat>) -> int
    decreases values.len(),
{
    if values.len() == 0 {
        0
    } else {
        sum(values.drop_last()) + values.last()
    }
}

/// The sum of each cycle.
pub open spec fn sums(cycles: Seq<Seq<nat>>) -> Seq<nat> {
    Seq::new(cycles.len(), |i: int| sum(cycles[i]) as nat)
}

/// The number of calls in each cycle.
pub open spec fn sizes(cycles: Seq<Seq<nat>>) -> Seq<nat> {
    Seq::new(cycles.len(), |i: int| cycles[i].len())
}

/// The means of the cycles, added up: each cycle adds its sum over its size.
pub open spec fn sum_of_means(cycles: Seq<Seq<nat>>) -> Ratio
    decreases cycles.len(),
{
    if cycles.len() == 0 {
        Ratio { num: 0, den: 1 }
    } else {
        let front = sum_of_means(cycles.drop_last());
        let last = cycles.last();
        Ratio { num: front.num * last.len() + sum(last) * front.den, den: front.den * last.len() }
    }
}

/// The average of a run: the mean of the means of its cycles.
pub open spec fn mean_of_means(cycles: Seq<Seq<nat>>) -> Ratio
    recommends
        cycles.len() > 0,
{
    Ratio { num: sum_of_means(cycles).num, den: sum_of_means(cycles).den * cycles.len() }
}

/// The mean over all calls of a run, whatever cycle they belong to.
pub open spec fn flat_mean(cycles: Seq<Seq<nat>>) -> Ratio {
    Ratio { num: sum(sums(cycles)), den: sum(sizes(cycles)) }
}

/// `value` is the smallest of a list of durations.
pub open spec fn is_least(values: Seq<nat>, value: nat) -> bool {
    &&& exists|j: int| 0 <= j < values.len() && values[j] == value
    &&& forall|j: int| 0 <= j < values.len() ==> value <= values[j]
}

/// `value` is the greatest of a list of durations.
pub open spec fn is_greatest(values: Seq<nat>, value: nat) -> bool {
    &&& exists|j: int| 0 <= j < values.len() && values[j] == value
    &&& forall|j: int| 0 <= j < values.len() ==> values[j] <= value
}

/// `value` is the shortest duration of the run.
pub open spec fn is_min(cycles: Seq<Seq<nat>>, value: nat) -> bool {
    &&& exists|i: int, j: int|
        0 <= i < cycles.len() && 0 <= j < cycles[i].len() && cycles[i][j] == value
    &&& forall|i: int, j: int|
        0 <= i < cycles.len() && 0 <= j < cycles[i].len() ==> value <= cycles[i][j]
}

/// `value` is the longest duration of the run.
pub open spec fn is_max(cycles: Seq<Seq<nat>>, value: nat) -> bool {
    &&& exists|i: int, j: int|
        0 <= i < cycles.len() && 0 <= j < cycles[i].len() && cycles[i][j] == value
    &&& forall|i: int, j: int|
        0 <= i < cycles.len() && 0 <= j < cycles[i].len() ==> cycles[i][j] <= value
}

/// Every cycle has `size` calls.
pub open spec fn all_of_size(cycles: Seq<Seq<nat>>, size: nat) -> bool {
    forall|i: int| 0 <= i < cycles.len() ==> (#[trigger] cycles[i]).len() == size
}

/// No cycle is empty.
pub open spec fn none_empty(cycles: Seq<Seq<nat>>) -> bool {
    forall|i: int| 0 <= i < cycles.len() ==> (#[trigger] cycles[i]).len() > 0
}

/// A number that every cycle's size divides, built from the front: a size
/// that does not divide what was built so far multiplies it. For cycles of
/// one size it is that size.
pub open spec fn common(cycles: Seq<Seq<nat>>) -> int
    decreases cycles.len(),
{
    if cycles.len() == 0 {
        1
    } else {
        let front = common(cycles.drop_last());
        if front % (cycles.last().len() as int) == 0 {
            front
        } else {
            front * cycles.last().len()
        }
    }
}

/// The sums of the cycles brought to the denominator `scale`, added up.
pub open spec fn scaled(cycles: Seq<Seq<nat>>, scale: int) -> int
    decreases cycles.len(),
{
    if cycles.len() == 0 {
        0
    } else {
        scaled(cycles.drop_last(), scale) + sum(cycles.last()) * (scale / (
        cycles.last().len() as int))
    }
}

/// Adding a duration to a list adds it to the sum.
pub proof fn lemma_sum_push(values: Seq<nat>, value: nat)
    ensures
        sum(values.push(value)) == sum(values) + value,
{
    assert(values.push(value).drop_last() =~= values);
}

/// A sum of durations is not negative.
pub proof fn lemma_sum_nonnegative(values: Seq<nat>)
    ensures
        sum(values) >= 0,
    decreases values.len(),
{
    if values.len() > 0 {
        lemma_sum_nonnegative(values.drop_last());
    }
}

/// The denominator of a sum of means is positive where no cycle is empty.
pub proof fn lemma_sum_of_means_positive(cycles: Seq<Seq<nat>>)
    requires
        none_empty(cycles),
    ensures
        sum_of_means(cycles).den > 0,
    decreases cycles.len(),
{
    if cycles.len() > 0 {
        let front = cycles.drop_last();
        assert(none_empty(front)) by {
            assert forall|i: int| 0 <= i < front.len() implies (#[trigger] front[i]).len() > 0 by {
                assert(front[i] == cycles[i]);
            }
        }
        lemma_sum_of_means_positive(front);
        let d = sum_of_means(front).den;
        let m = cycles.last().len() as int;
        assert(cycles.last() == cycles[cycles.len() - 1]);
        assert(d * m > 0) by (nonlinear_arith)
            requires
                d > 0,
                m > 0,
        ;
    }
}

/// What was built from the front of a run is positive and no greater than
/// what is built from the whole.
pub proof fn lemma_common_grows(cycles: Seq<Seq<nat>>, upto: int)
    requires
        none_empty(cycles),
        0 <= upto <= cycles.len(),
    ensures
        1 <= common(cycles.take(upto)) <= common(cycles),
    decreases cycles.len() - upto,
{
    if upto == cycles.len() {
        assert(cycles.take(upto) =~= cycles);
        lemma_common_positive(cycles);
    } else {
        lemma_common_grows(cycles, upto + 1);
        let longer = cycles.take(upto + 1);
        assert(longer.drop_last() =~= cycles.take(upto));
        assert(longer.last() == cycles[upto]);
        assert(none_empty(cycles.take(upto))) by {
            assert forall|i: int| 0 <= i < cycles.take(upto).len() implies (
            #[trigger] cycles.take(upto)[i]).len() > 0 by {
                assert(cycles.take(upto)[i] == cycles[i]);
            }
        }
        lemma_common_positive(cycles.take(upto));
        let c = common(cycles.take(upto));
        let m = cycles[upto].len() as int;
        assert(c <= c * m) by (nonlinear_arith)
            requires
                c >= 1,
                m >= 1,
        ;
    }
}

/// What is built from a run without empty cycles is positive.
pub proof fn lemma_common_positive(cycles: Seq<Seq<nat>>)
    requires
        none_empty(cycles),
    ensures
        common(cycles) >= 1,
    decreases cycles.len(),
{
    if cycles.len() > 0 {
        let front = cycles.drop_last();
        assert(none_empty(front)) by {
            assert forall|i: int| 0 <= i < front.len() implies (#[trigger] front[i]).len() > 0 by {
                assert(front[i] == cycles[i]);
            }
        }
        lemma_common_positive(front);
        let c = common(front);
        let m = cycles.last().len() as int;
        assert(cycles.last() == cycles[cycles.len() - 1]);
        assert(c * m >= 1) by (nonlinear_arith)
            requires
                c >= 1,
                m >= 1,
        ;
    }
}

/// Every cycle's size divides what is built from the run.
pub proof fn lemma_common_divides(cycles: Seq<Seq<nat>>)
    requires
        none_empty(cycles),
    ensures
        forall|i: int|
            0 <= i < cycles.len() ==> common(cycles) % ((#[trigger] cycles[i]).len() as int) == 0,
    decreases cycles.len(),
{
    if cycles.len() > 0 {
        let front = cycles.drop_last();
        assert(none_empty(front)) by {
            assert forall|i: int| 0 <= i < front.len() implies (#[trigger] front[i]).len() > 0 by {
                assert(front[i] == cycles[i]);
            }
        }
        lemma_common_divides(front);
        let c = common(front);
        let m = cycles.last().len() as int;
        assert(cycles.last() == cycles[cycles.len() - 1]);
        assert forall|i: int| 0 <= i < cycles.len() implies common(cycles) % ((
        #[trigger] cycles[i]).len() as int) == 0 by {
            let size = cycles[i].len() as int;
            if i < front.len() {
                assert(front[i] == cycles[i]);
                assert(c % size == 0);
                if c % m != 0 {
                    lemma_multiple_of_multiple(c, size, m);
                }
            } else {
                assert(cycles[i] == cycles.last());
                if c % m != 0 {
                    lemma_mod_multiples_basic(c, m);
                }
            }
        }
    }
}

/// A multiple of a multiple of `size` is a multiple of `size`.
proof fn lemma_multiple_of_multiple(value: int, size: int, times: int)
    requires
        size > 0,
        value % size == 0,
    ensures
        (value * times) % size == 0,
{
    lemma_fundamental_div_mod(value, size);
    let q = value / size;
    assert(value * times == (q * times) * size) by (nonlinear_arith)
        requires
            value == size * q,
    ;
    lemma_mod_multiples_basic(q * times, size);
}

/// For cycles of one size, what is built from the run is that size.
pub proof fn lemma_common_of_equal_cycles(cycles: Seq<Seq<nat>>, size: nat)
    requires
        cycles.len() > 0,
        size > 0,
        all_of_size(cycles, size),
    ensures
        common(cycles) == size,
    decreases cycles.len(),
{
    let front = cycles.drop_last();
    assert(cycles.last() == cycles[cycles.len() - 1]);
    if front.len() == 0 {
        assert(common(front) == 1);
        if size == 1 {
        } else {
            assert(1int % (size as int) == 1) by (nonlinear_arith)
                requires
                    size > 1,
            ;
        }
    } else {
        assert(all_of_size(front, size)) by {
            assert forall|i: int| 0 <= i < front.len() implies (#[trigger] front[i]).len()
                == size by {
                assert(front[i] == cycles[i]);
            }
        }
        lemma_common_of_equal_cycles(front, size);
        lemma_mod_multiples_basic(1, size as int);
    }
}

/// Brought to a denominator that every size divides, the sums of the cycles
/// add up to the sum of the means.
pub proof fn lemma_scaled_is_sum_of_means(cycles: Seq<Seq<nat>>, scale: int)
    requires
        none_empty(cycles),
        forall|i: int| 0 <= i < cycles.len() ==> scale % ((#[trigger] cycles[i]).len() as int) == 0,
    ensures
        scaled(cycles, scale) * sum_of_means(cycles).den == sum_of_means(cycles).num * scale,
    decreases cycles.len(),
{
    if cycles.len() > 0 {
        let front = cycles.drop_last();
        let last = cycles.last();
        assert(last == cycles[cycles.len() - 1]);
        assert(none_empty(front)) by {
            assert forall|i: int| 0 <= i < front.len() implies (#[trigger] front[i]).len() > 0 by {
                assert(front[i] == cycles[i]);
            }
        }
        assert forall|i: int| 0 <= i < front.len() implies scale % ((
        #[trigger] front[i]).len() as int) == 0 by {
            assert(front[i] == cycles[i]);
        }
        lemma_scaled_is_sum_of_means(front, scale);
        let m = last.len() as int;
        let s = sum(last);
        let n = sum_of_means(front).num;
        let d = sum_of_means(front).den;
        let f = scaled(front, scale);
        let share = scale / m;
        lemma_fundamental_div_mod(scale, m);
        assert((f + s * share) * (d * m) == (f * d) * m + (s * d) * (share * m))
            by (nonlinear_arith);
        assert((n * m + s * d) * scale == (n * scale) * m + (s * d) * scale) by (nonlinear_arith);
        assert(share * m == m * share) by (nonlinear_arith);
        assert(sum_of_means(cycles).num == n * m + s * d);
        assert(sum_of_means(cycles).den == d * m);
        assert(scaled(cycles, scale) == f + s * share);
    }
}

/// For cycles of one size the sum of the means is the sum of all durations
/// over that size, and the calls number that size per cycle.
proof fn lemma_equal_cycles(cycles: Seq<Seq<nat>>, size: nat)
    requires
        size > 0,
        all_of_size(cycles, size),
    ensures
        sum(sizes(cycles)) == size * cycles.len(),
        sum_of_means(cycles).num * size == sum(sums(cycles)) * sum_of_means(cycles).den,
    decreases cycles.len(),
{
    if cycles.len() > 0 {
        let front = cycles.drop_last();
        let last = cycles.last();
        assert(last == cycles[cycles.len() - 1]);
        assert(all_of_size(front, size)) by {
            assert forall|i: int| 0 <= i < front.len() implies (#[trigger] front[i]).len()
                == size by {
                assert(front[i] == cycles[i]);
            }
        }
        lemma_equal_cycles(front, size);
        lemma_sum_nonnegative(last);
        assert(sums(cycles).drop_last() =~= sums(front));
        assert(sizes(cycles).drop_last() =~= sizes(front));
        assert(sums(cycles).last() == sum(last));
        assert(sizes(cycles).last() == size);
        let n = sum_of_means(front).num;
        let d = sum_of_means(front).den;
        let t = sum(sums(front));
        let s = sum(last);
        let m = size as int;
        assert((n * m + s * d) * m == (n * m) * m + s * (d * m)) by (nonlinear_arith);
        assert((t + s) * (d * m) == (t * d) * m + s * (d * m)) by (nonlinear_arith);
        assert(sum_of_means(cycles).num == n * m + s * d);
        assert(sum_of_means(cycles).den == d * m);
        assert(sum(sums(cycles)) == t + s);
        assert(n * m == t * d);
        assert((n * m) * m == (t * d) * m);
        assert(sum_of_means(cycles).num * m == sum(sums(cycles)) * sum_of_means(cycles).den);
        assert(size * (cycles.len() - 1) + size == size * cycles.len()) by (nonlinear_arith);
    } else {
        assert(size * 0 == 0) by (nonlinear_arith);
        assert(sums(cycles).len() == 0);
        assert(sizes(cycles).len() == 0);
        assert(sum(sums(cycles)) == 0);
        assert(sum_of_means(cycles).num == 0);
        assert(0 * size == 0) by (nonlinear_arith);
    }
}

/// Where every cycle has the same number of calls, the mean of the
/// per-cycle means is the flat mean over all calls.
pub proof fn lemma_mean_of_means_is_flat_mean(cycles: Seq<Seq<nat>>, size: nat)
    requires
        cycles.len() > 0,
        size > 0,
        all_of_size(cycles, size),
    ensures
        mean_of_means(cycles).same(flat_mean(cycles)),
        mean_of_means(cycles).den > 0,
        flat_mean(cycles).den > 0,
{
    lemma_equal_cycles(cycles, size);
    assert(none_empty(cycles));
    lemma_sum_of_means_positive(cycles);
    let n = sum_of_means(cycles).num;
    let d = sum_of_means(cycles).den;
    let t = sum(sums(cycles));
    let k = cycles.len() as int;
    let m = size as int;
    assert(n * (m * k) == t * (d * k)) by (nonlinear_arith)
        requires
            n * m == t * d,
    ;
    assert(d * k > 0 && m * k > 0) by (nonlinear_arith)
        requires
            d > 0,
            k > 0,
            m > 0,
    ;
}

} // verus!
