//! The running aggregate kept for one key: smallest and largest value seen,
//! their sum, and how many there were.

use vstd::prelude::*;
use vstd::arithmetic::div_mod::{lemma_fundamental_div_mod, lemma_fundamental_div_mod_converse};
use vstd::seq_lib::{
    lemma_multiset_commutative, to_multiset_build, to_multiset_contains, to_multiset_len,
    to_multiset_remove,
};
use crate::decimal::UNITS_PER_TENTH;

verus! {

/// Mathematical content of a running aggregate. All values are counted in the
/// unit of `decimal`, the billionth.
pub struct Summary {
    pub min: int,
    pub max: int,
    pub sum: int,
    pub count: nat,
}

pub open spec fn min_of(a: int, b: int) -> int {
    if a <= b {
        a
    } else {
        b
    }
}

pub open spec fn max_of(a: int, b: int) -> int {
    if a >= b {
        a
    } else {
        b
    }
}

impl Summary {
    /// The aggregate of no values. Its bounds are the unset markers: the
    /// minimum sits above, and the maximum below, every value a record can hold.
    pub open spec fn empty() -> Summary {
        Summary { min: i64::MAX as int, max: i64::MIN as int, sum: 0, count: 0 }
    }

    /// The aggregate after one more value.
    pub open spec fn update(self, value: int) -> Summary {
        Summary {
            min: min_of(self.min, value),
            max: max_of(self.max, value),
            sum: self.sum + value,
            count: self.count + 1,
        }
    }

    /// The aggregate of everything that went into `self` or into `other`.
    pub open spec fn merge(self, other: Summary) -> Summary {
        Summary {
            min: min_of(self.min, other.min),
            max: max_of(self.max, other.max),
            sum: self.sum + other.sum,
            count: self.count + other.count,
        }
    }

    /// The aggregate of `values`, folded in from first to last.
    pub open spec fn of(values: Seq<i64>) -> Summary
        decreases values.len(),
    {
        if values.len() == 0 {
            Summary::empty()
        } else {
            Summary::of(values.drop_last()).update(values.last() as int)
        }
    }

    /// What holds of every aggregate that was built from `empty` by `update`
    /// and `merge` over values in the range of `i64`: an aggregate of no value
    /// is `empty`, and otherwise the bounds are ordered and enclose the mean.
    pub open spec fn wf(self) -> bool {
        &&& self.count <= u64::MAX
        &&& self.count == 0 ==> self == Summary::empty()
        &&& self.count > 0 ==> {
            &&& i64::MIN <= self.min <= self.max <= i64::MAX
            &&& self.count * self.min <= self.sum <= self.count * self.max
        }
    }

    /// The mean, rounded to the nearest unit; a mean that lies exactly between
    /// two units goes to the even one.
    pub open spec fn mean(self) -> int
        recommends
            self.count > 0,
    {
        round_half_even(self.sum, self.count as int)
    }

    /// The mean in tenths, rounded to the nearest tenth; a mean that lies
    /// exactly between two tenths goes to the even one.
    pub open spec fn mean_tenths(self) -> int
        recommends
            self.count > 0,
    {
        round_half_even(self.sum, self.count * UNITS_PER_TENTH)
    }
}

/// `value` in tenths, rounded to the nearest tenth, ties to the even one.
pub open spec fn tenths_of(value: int) -> int {
    round_half_even(value, UNITS_PER_TENTH as int)
}

/// `num / den` rounded to the nearest integer, ties to the even neighbour.
pub open spec fn round_half_even(num: int, den: int) -> int
    recommends
        den > 0,
{
    let q = num / den;
    let r = num % den;
    if 2 * r < den {
        q
    } else if 2 * r > den {
        q + 1
    } else if q % 2 == 0 {
        q
    } else {
        q + 1
    }
}

/// Running aggregate of the values recorded for one key.
#[derive(Clone, Copy, Debug)]
pub struct Station {
    min: i64,
    max: i64,
    sum: i128,
    count: u64,
}

impl View for Station {
    type V = Summary;

    closed spec fn view(&self) -> Summary {
        Summary {
            min: self.min as int,
            max: self.max as int,
            sum: self.sum as int,
            count: self.count as nat,
        }
    }
}

proof fn lemma_sum_bounds(s: Summary)
    requires
        s.wf(),
    ensures
        s.count * (i64::MIN as int) <= s.sum <= s.count * (i64::MAX as int),
{
    if s.count > 0 {
        let c = s.count as int;
        assert(c * (i64::MIN as int) <= c * s.min) by (nonlinear_arith)
            requires
                c > 0,
                i64::MIN <= s.min,
        ;
        assert(c * s.max <= c * (i64::MAX as int)) by (nonlinear_arith)
            requires
                c > 0,
                s.max <= i64::MAX,
        ;
    }
}

/// `update` keeps an aggregate well formed.
pub proof fn lemma_update_wf(s: Summary, value: int)
    requires
        s.wf(),
        s.count < u64::MAX,
        i64::MIN <= value <= i64::MAX,
    ensures
        s.update(value).wf(),
{
    let t = s.update(value);
    let c = s.count as int;
    if c > 0 {
        assert(c * t.min <= c * s.min) by (nonlinear_arith)
            requires
                c > 0,
                t.min <= s.min,
        ;
        assert(c * s.max <= c * t.max) by (nonlinear_arith)
            requires
                c > 0,
                s.max <= t.max,
        ;
    } else {
        assert(c * t.min == 0 && c * t.max == 0) by (nonlinear_arith)
            requires
                c == 0,
        ;
    }
    assert((c + 1) * t.min == c * t.min + t.min) by (nonlinear_arith);
    assert((c + 1) * t.max == c * t.max + t.max) by (nonlinear_arith);
}

/// `merge` keeps aggregates well formed.
pub proof fn lemma_merge_wf(a: Summary, b: Summary)
    requires
        a.wf(),
        b.wf(),
        a.count + b.count <= u64::MAX,
    ensures
        a.merge(b).wf(),
{
    let t = a.merge(b);
    let ca = a.count as int;
    let cb = b.count as int;
    if ca > 0 {
        assert(ca * t.min <= ca * a.min) by (nonlinear_arith)
            requires
                ca > 0,
                t.min <= a.min,
        ;
        assert(ca * a.max <= ca * t.max) by (nonlinear_arith)
            requires
                ca > 0,
                a.max <= t.max,
        ;
    }
    if cb > 0 {
        assert(cb * t.min <= cb * b.min) by (nonlinear_arith)
            requires
                cb > 0,
                t.min <= b.min,
        ;
        assert(cb * b.max <= cb * t.max) by (nonlinear_arith)
            requires
                cb > 0,
                b.max <= t.max,
        ;
    }
    assert((ca + cb) * t.min == ca * t.min + cb * t.min) by (nonlinear_arith);
    assert((ca + cb) * t.max == ca * t.max + cb * t.max) by (nonlinear_arith);
}

/// Rounding is symmetric about zero.
pub proof fn lemma_round_negated(num: int, den: int)
    requires
        den > 0,
    ensures
        round_half_even(-num, den) == -round_half_even(num, den),
{
    let q = num / den;
    let r = num % den;
    lemma_fundamental_div_mod(num, den);
    assert(num == q * den + r) by (nonlinear_arith)
        requires
            num == den * q + r,
    ;
    if r == 0 {
        assert(-num == (-q) * den + 0) by (nonlinear_arith)
            requires
                num == q * den + r,
                r == 0,
        ;
        lemma_fundamental_div_mod_converse(-num, den, -q, 0);
    } else {
        assert(-num == (-q - 1) * den + (den - r)) by (nonlinear_arith)
            requires
                num == q * den + r,
        ;
        lemma_fundamental_div_mod_converse(-num, den, -q - 1, den - r);
    }
}

/// The rounded quotient is no further than half a unit from the exact one.
pub proof fn lemma_round_is_nearest(num: int, den: int)
    requires
        den > 0,
    ensures
        -den <= 2 * (round_half_even(num, den) * den - num) <= den,
{
    let q = num / den;
    let r = num % den;
    lemma_fundamental_div_mod(num, den);
    assert((q + 1) * den - num == den - r && q * den - num == -r) by (nonlinear_arith)
        requires
            num == den * q + r,
    ;
}

/// A larger number rounds to no smaller a quotient.
pub proof fn lemma_round_monotone(a: int, b: int, den: int)
    requires
        den > 0,
        a <= b,
    ensures
        round_half_even(a, den) <= round_half_even(b, den),
{
    let qa = a / den;
    let ra = a % den;
    let qb = b / den;
    let rb = b % den;
    lemma_fundamental_div_mod(a, den);
    lemma_fundamental_div_mod(b, den);
    assert(qa <= qb && (qa == qb ==> ra <= rb)) by (nonlinear_arith)
        requires
            a == den * qa + ra,
            b == den * qb + rb,
            0 <= ra < den,
            0 <= rb < den,
            a <= b,
    ;
}

/// Rounding a quotient does not depend on a factor that numerator and
/// denominator share.
pub proof fn lemma_round_scaled(num: int, den: int, factor: int)
    requires
        den > 0,
        factor > 0,
    ensures
        round_half_even(factor * num, factor * den) == round_half_even(num, den),
{
    let q = num / den;
    let r = num % den;
    lemma_fundamental_div_mod(num, den);
    assert(factor * num == q * (factor * den) + factor * r && 0 <= factor * r < factor * den
        && factor * den > 0) by (nonlinear_arith)
        requires
            num == den * q + r,
            0 <= r < den,
            factor > 0,
    ;
    lemma_fundamental_div_mod_converse(factor * num, factor * den, q, factor * r);
    assert((2 * (factor * r) < factor * den <==> 2 * r < den) && (2 * (factor * r) > factor * den
        <==> 2 * r > den)) by (nonlinear_arith)
        requires
            factor > 0,
    ;
}

/// The mean of an aggregate, rounded to tenths, lies between its bounds
/// rounded to tenths.
pub proof fn lemma_mean_tenths_within_bounds(s: Summary)
    requires
        s.wf(),
        s.count > 0,
    ensures
        tenths_of(s.min) <= s.mean_tenths() <= tenths_of(s.max),
{
    let c = s.count as int;
    let unit = UNITS_PER_TENTH as int;
    lemma_round_scaled(s.min, unit, c);
    lemma_round_scaled(s.max, unit, c);
    assert(c * unit > 0) by (nonlinear_arith)
        requires
            c > 0,
            unit > 0,
    ;
    lemma_round_monotone(c * s.min, s.sum, c * unit);
    lemma_round_monotone(s.sum, c * s.max, c * unit);
}

/// The rounded mean of an aggregate lies between its bounds.
pub proof fn lemma_mean_within_bounds(s: Summary)
    requires
        s.wf(),
        s.count > 0,
    ensures
        s.min <= s.mean() <= s.max,
{
    let c = s.count as int;
    let q = s.sum / c;
    let r = s.sum % c;
    lemma_fundamental_div_mod(s.sum, c);
    assert(s.min <= q) by (nonlinear_arith)
        requires
            s.sum == c * q + r,
            0 <= r < c,
            c * s.min <= s.sum,
    ;
    assert(q <= s.max && (q == s.max ==> r == 0)) by (nonlinear_arith)
        requires
            s.sum == c * q + r,
            0 <= r < c,
            s.sum <= c * s.max,
    ;
}

/// `num / den`, rounded to the nearest integer, ties to even.
fn round_quotient(num: i128, den: u128) -> (rounded: i128)
    requires
        2 <= den <= 0x1_0000_0000_0000_0000_0000_0000,
        num > i128::MIN,
    ensures
        rounded == round_half_even(num as int, den as int),
        -den <= 2 * (rounded * den - num) <= den,
{
    proof {
        lemma_round_negated(num as int, den as int);
        lemma_round_is_nearest(num as int, den as int);
    }
    let negative: bool = num < 0;
    let m: u128 = if negative {
        (-num) as u128
    } else {
        num as u128
    };
    let q: u128 = m / den;
    let r: u128 = m % den;
    assert(2 * q <= m) by (nonlinear_arith)
        requires
            q == m / den,
            den >= 2,
    ;
    let magnitude: u128 = if 2 * r > den || (2 * r == den && q % 2 == 1) {
        q + 1
    } else {
        q
    };
    assert(magnitude == round_half_even(m as int, den as int));
    if negative {
        -(magnitude as i128)
    } else {
        magnitude as i128
    }
}

/// Rounds a value to tenths: the nearest tenth, ties to the even one.
pub fn round_to_tenths(value: i64) -> (tenths: i64)
    ensures
        tenths == tenths_of(value as int),
        -UNITS_PER_TENTH <= 2 * (tenths * UNITS_PER_TENTH - value) <= UNITS_PER_TENTH,
{
    let rounded: i128 = round_quotient(value as i128, UNITS_PER_TENTH as u128);
    rounded as i64
}

impl Station {
    /// Well-formedness of the aggregate; see [`Summary::wf`].
    pub open spec fn wf(&self) -> bool {
        self@.wf()
    }

    /// An aggregate of no values.
    pub fn new() -> (station: Station)
        ensures
            station@ == Summary::empty(),
            station.wf(),
    {
        Station { min: i64::MAX, max: i64::MIN, sum: 0, count: 0 }
    }

    /// Folds one value in.
    pub fn update(&mut self, value: i64)
        requires
            old(self).wf(),
            old(self)@.count < u64::MAX,
        ensures
            final(self)@ == old(self)@.update(value as int),
            final(self).wf(),
    {
        proof {
            lemma_sum_bounds(self@);
            lemma_update_wf(self@, value as int);
        }
        if value < self.min {
            self.min = value;
        }
        if value > self.max {
            self.max = value;
        }
        self.sum = self.sum + value as i128;
        self.count = self.count + 1;
    }

    /// Folds another aggregate in.
    pub fn merge(&mut self, other: Station)
        requires
            old(self).wf(),
            other.wf(),
            old(self)@.count + other@.count <= u64::MAX,
        ensures
            final(self)@ == old(self)@.merge(other@),
            final(self).wf(),
    {
        proof {
            lemma_sum_bounds(self@);
            lemma_sum_bounds(other@);
            lemma_merge_wf(self@, other@);
        }
        if other.min < self.min {
            self.min = other.min;
        }
        if other.max > self.max {
            self.max = other.max;
        }
        self.sum = self.sum + other.sum;
        self.count = self.count + other.count;
    }

    /// The mean of the values seen in tenths, rounded to the nearest tenth,
    /// ties to even.
    pub fn mean_tenths(&self) -> (tenths: i64)
        requires
            self.wf(),
            self@.count > 0,
        ensures
            tenths == self@.mean_tenths(),
            -(self@.count * UNITS_PER_TENTH) <= 2 * (tenths * (self@.count * UNITS_PER_TENTH)
                - self@.sum) <= self@.count * UNITS_PER_TENTH,
            tenths_of(self@.min) <= tenths <= tenths_of(self@.max),
    {
        proof {
            lemma_sum_bounds(self@);
            lemma_mean_tenths_within_bounds(self@);
        }
        let den: u128 = self.count as u128 * UNITS_PER_TENTH as u128;
        let rounded: i128 = round_quotient(self.sum, den);
        assert(-92233720369 <= rounded <= 92233720369) by (nonlinear_arith)
            requires
                -den <= 2 * (rounded * den - self.sum) <= den,
                den == self.count * 100_000_000,
                self.count > 0,
                self.count * (-9223372036854775808) <= self.sum <= self.count
                    * 9223372036854775807,
        ;
        rounded as i64
    }

    /// The mean of the values seen, rounded to the nearest unit, ties to even.
    pub fn mean(&self) -> (value: i64)
        requires
            self.wf(),
            self@.count > 0,
        ensures
            value == self@.mean(),
            self@.min <= value <= self@.max,
            -self@.count <= 2 * (value * self@.count - self@.sum) <= self@.count,
    {
        proof {
            lemma_round_is_nearest(self@.sum, self@.count as int);
            lemma_sum_bounds(self@);
            lemma_mean_within_bounds(self@);
            lemma_round_negated(self@.sum, self@.count as int);
        }
        let negative: bool = self.sum < 0;
        let m: u128 = if negative {
            (-self.sum) as u128
        } else {
            self.sum as u128
        };
        let c: u128 = self.count as u128;
        let q: u128 = m / c;
        let r: u128 = m % c;
        let rounded: u128 = if 2 * r > c || (2 * r == c && q % 2 == 1) {
            q + 1
        } else {
            q
        };
        assert(rounded == round_half_even(m as int, c as int));
        if negative {
            if rounded == 9223372036854775808 {
                i64::MIN
            } else {
                -(rounded as i64)
            }
        } else {
            rounded as i64
        }
    }

    /// Smallest value seen, or the unset marker `i64::MAX` when there is none.
    pub fn min(&self) -> (value: i64)
        ensures
            value == self@.min,
    {
        self.min
    }

    /// Largest value seen, or the unset marker `i64::MIN` when there is none.
    pub fn max(&self) -> (value: i64)
        ensures
            value == self@.max,
    {
        self.max
    }

    /// Sum of the values seen.
    pub fn sum(&self) -> (value: i128)
        ensures
            value == self@.sum,
    {
        self.sum
    }

    /// Number of values seen.
    pub fn count(&self) -> (value: u64)
        ensures
            value == self@.count,
    {
        self.count
    }
}

impl Default for Station {
    fn default() -> (station: Station)
        ensures
            station@ == Summary::empty(),
            station.wf(),
    {
        Station::new()
    }
}

/// Two values can be folded in either order.
pub proof fn lemma_update_commutes(s: Summary, v: int, w: int)
    ensures
        s.update(v).update(w) == s.update(w).update(v),
{
}

/// Merging does not depend on which of the two aggregates comes first.
pub proof fn lemma_merge_commutative(a: Summary, b: Summary)
    ensures
        a.merge(b) == b.merge(a),
{
}

/// Merging three aggregates does not depend on which two are merged first.
pub proof fn lemma_merge_associative(a: Summary, b: Summary, c: Summary)
    ensures
        a.merge(b).merge(c) == a.merge(b.merge(c)),
{
}

/// Folding a value into one of two aggregates before they are merged is
/// folding it into the merged aggregate.
pub proof fn lemma_merge_update(a: Summary, b: Summary, value: int)
    ensures
        a.merge(b.update(value)) == a.merge(b).update(value),
{
}

/// The aggregate of `values` counts them, its minimum is the smallest of them
/// and its maximum the largest.
pub proof fn lemma_of_describes(values: Seq<i64>)
    ensures
        Summary::of(values).count == values.len(),
        Summary::of(values).min <= i64::MAX,
        Summary::of(values).max >= i64::MIN,
        forall|i: int|
            0 <= i < values.len() ==> Summary::of(values).min <= (#[trigger] values[i])
                <= Summary::of(values).max,
        values.len() > 0 ==> exists|i: int|
            0 <= i < values.len() && (#[trigger] values[i]) == Summary::of(values).min,
        values.len() > 0 ==> exists|i: int|
            0 <= i < values.len() && (#[trigger] values[i]) == Summary::of(values).max,
    decreases values.len(),
{
    if values.len() > 0 {
        let front = values.drop_last();
        let last = values.len() - 1;
        lemma_of_describes(front);
        assert forall|i: int| 0 <= i < values.len() implies Summary::of(values).min <= (
        #[trigger] values[i]) <= Summary::of(values).max by {
            if i < last {
                assert(front[i] == values[i]);
            }
        }
        if values[last] <= Summary::of(front).min {
            assert(values[last] == Summary::of(values).min);
        } else {
            let i = choose|i: int|
                0 <= i < front.len() && (#[trigger] front[i]) == Summary::of(front).min;
            assert(values[i] == Summary::of(values).min);
        }
        if values[last] >= Summary::of(front).max {
            assert(values[last] == Summary::of(values).max);
        } else {
            let i = choose|i: int|
                0 <= i < front.len() && (#[trigger] front[i]) == Summary::of(front).max;
            assert(values[i] == Summary::of(values).max);
        }
    }
}

/// Any one value can be taken out of the fold and folded in last.
pub proof fn lemma_of_remove(values: Seq<i64>, i: int)
    requires
        0 <= i < values.len(),
    ensures
        Summary::of(values) == Summary::of(values.remove(i)).update(values[i] as int),
    decreases values.len(),
{
    let front = values.drop_last();
    let last = values.last();
    if i == values.len() - 1 {
        assert(values.remove(i) =~= front);
    } else {
        lemma_of_remove(front, i);
        assert(values.remove(i) =~= front.remove(i).push(last));
        assert(values.remove(i).drop_last() =~= front.remove(i));
        lemma_update_commutes(Summary::of(front.remove(i)), values[i] as int, last as int);
    }
}

/// The aggregate of a run of values depends on which values there are, and how
/// often each, but not on their order.
pub proof fn lemma_fold_order_independent(a: Seq<i64>, b: Seq<i64>)
    requires
        a.to_multiset() == b.to_multiset(),
    ensures
        Summary::of(a) == Summary::of(b),
    decreases a.len(),
{
    to_multiset_len(a);
    to_multiset_len(b);
    if a.len() > 0 {
        let front = a.drop_last();
        let last = a.last();
        assert(a =~= front.push(last));
        to_multiset_build(front, last);
        to_multiset_contains(b, last);
        assert(b.contains(last));
        let j = choose|j: int| 0 <= j < b.len() && b[j] == last;
        to_multiset_remove(b, j);
        assert(front.to_multiset() =~= b.remove(j).to_multiset());
        lemma_fold_order_independent(front, b.remove(j));
        lemma_of_remove(b, j);
    }
}

/// Merging the aggregates of two runs of values gives the aggregate of the
/// two runs joined.
pub proof fn lemma_merge_of_parts(a: Seq<i64>, b: Seq<i64>)
    ensures
        Summary::of(a).merge(Summary::of(b)) == Summary::of(a + b),
    decreases b.len(),
{
    if b.len() == 0 {
        assert(a + b =~= a);
        lemma_of_describes(a);
    } else {
        lemma_merge_of_parts(a, b.drop_last());
        assert((a + b).drop_last() =~= a + b.drop_last());
        lemma_merge_update(Summary::of(a), Summary::of(b.drop_last()), b.last() as int);
    }
}

/// However a collection of values is split in two, merging the aggregates of
/// the two parts gives the aggregate of the whole collection.
pub proof fn lemma_merge_of_split(all: Seq<i64>, a: Seq<i64>, b: Seq<i64>)
    requires
        all.to_multiset() == a.to_multiset().add(b.to_multiset()),
    ensures
        Summary::of(all) == Summary::of(a).merge(Summary::of(b)),
{
    lemma_multiset_commutative(a, b);
    lemma_fold_order_independent(all, a + b);
    lemma_merge_of_parts(a, b);
}

} // verus!
