//! Running statistics for one key, and the algebra that merges them.
//!
//! Values are fixed-point decimals: an `i64` counting millionths of a unit
//! (see `record::FRACTION_DIGITS`). Their magnitude never exceeds
//! `VALUE_LIMIT`, so `i64::MAX` and `i64::MIN` serve as the infinities of the
//! identity state.

use vstd::prelude::*;

verus! {

/// Largest magnitude of a value, in millionths.
pub const VALUE_LIMIT: i64 = 999_999_999_999_999_999;

/// Mathematical model of a statistics record.
pub struct Summary {
    pub min: int,
    pub max: int,
    pub count: int,
    pub sum: int,
}

/// The neutral state: no observation yet.
pub open spec fn identity() -> Summary {
    Summary { min: i64::MAX as int, max: i64::MIN as int, count: 0, sum: 0 }
}

/// The state that holds exactly one observation `v`.
pub open spec fn single(v: int) -> Summary {
    Summary { min: v, max: v, count: 1, sum: v }
}

pub open spec fn min_int(a: int, b: int) -> int {
    if a <= b { a } else { b }
}

pub open spec fn max_int(a: int, b: int) -> int {
    if a >= b { a } else { b }
}

/// Folds one observation into a state.
pub open spec fn observe(s: Summary, v: int) -> Summary {
    Summary { min: min_int(s.min, v), max: max_int(s.max, v), count: s.count + 1, sum: s.sum + v }
}

/// Merges two states.
pub open spec fn combine(a: Summary, b: Summary) -> Summary {
    Summary {
        min: min_int(a.min, b.min),
        max: max_int(a.max, b.max),
        count: a.count + b.count,
        sum: a.sum + b.sum,
    }
}

/// A value that the library can hold.
pub open spec fn value_in_range(v: int) -> bool {
    -(VALUE_LIMIT as int) <= v <= VALUE_LIMIT as int
}

/// A state built from at least one in-range value: its fields fit the
/// machine types, and the sum stays within `count` times the value limit.
pub open spec fn observed(s: Summary) -> bool {
    &&& 1 <= s.count <= u64::MAX as int
    &&& value_in_range(s.min)
    &&& value_in_range(s.max)
    &&& s.min <= s.max
    &&& -(s.count * VALUE_LIMIT as int) <= s.sum <= s.count * VALUE_LIMIT as int
}

/// Running statistics of one key.
#[derive(Clone, Copy, Debug)]
pub struct Stats {
    pub min: i64,
    pub max: i64,
    pub count: u64,
    pub sum: i128,
}

impl Stats {
    pub open spec fn view(&self) -> Summary {
        Summary { min: self.min as int, max: self.max as int, count: self.count as int, sum: self.sum as int }
    }

    /// The identity state: `min` at `i64::MAX`, `max` at `i64::MIN`, nothing counted.
    pub fn identity() -> (r: Stats)
        ensures
            r@ == identity(),
    {
        Stats { min: i64::MAX, max: i64::MIN, count: 0, sum: 0 }
    }

    /// Folds one observation into this state.
    pub fn merge(&mut self, value: i64)
        requires
            value_in_range(value as int),
            old(self)@.count == 0 ==> old(self)@ == identity(),
            old(self)@.count > 0 ==> observed(old(self)@),
            old(self)@.count < u64::MAX,
        ensures
            final(self)@ == observe(old(self)@, value as int),
            observed(final(self)@),
    {
        proof { lemma_observe_observed(self@, value as int); }
        if value < self.min {
            self.min = value;
        }
        if value > self.max {
            self.max = value;
        }
        self.count = self.count + 1;
        self.sum = self.sum + value as i128;
    }

    /// Merges two states.
    pub fn combine(a: Stats, b: Stats) -> (r: Stats)
        requires
            observed(a@) || a@ == identity(),
            observed(b@) || b@ == identity(),
            a@.count + b@.count <= u64::MAX,
        ensures
            r@ == combine(a@, b@),
            observed(r@) || r@ == identity(),
    {
        proof { lemma_combine_observed(a@, b@); }
        Stats {
            min: if a.min <= b.min { a.min } else { b.min },
            max: if a.max >= b.max { a.max } else { b.max },
            count: a.count + b.count,
            sum: a.sum + b.sum,
        }
    }
}

impl Default for Stats {
    fn default() -> (r: Stats)
        ensures
            r@ == identity(),
    {
        Stats::identity()
    }
}

proof fn lemma_sum_bound(c: int, d: int)
    requires
        0 <= c,
        0 <= d,
    ensures
        c * (VALUE_LIMIT as int) + d * (VALUE_LIMIT as int) == (c + d) * (VALUE_LIMIT as int),
        c * (VALUE_LIMIT as int) <= (c + d) * (VALUE_LIMIT as int),
        c <= u64::MAX as int ==> c * (VALUE_LIMIT as int) < i128::MAX,
{
    assert(c * (VALUE_LIMIT as int) + d * (VALUE_LIMIT as int) == (c + d) * (VALUE_LIMIT as int))
        by (nonlinear_arith);
    assert(c * (VALUE_LIMIT as int) <= (c + d) * (VALUE_LIMIT as int)) by (nonlinear_arith)
        requires 0 <= d;
    if c <= u64::MAX as int {
        assert(c * (VALUE_LIMIT as int) <= 18_446_744_073_709_551_615 * 999_999_999_999_999_999)
            by (nonlinear_arith)
            requires c <= 18_446_744_073_709_551_615, 0 <= c;
    }
}

/// Observing an in-range value keeps a state observed.
pub proof fn lemma_observe_observed(s: Summary, v: int)
    requires
        value_in_range(v),
        0 <= s.count < u64::MAX,
        s.count == 0 ==> s == identity(),
        s.count > 0 ==> observed(s),
    ensures
        observed(observe(s, v)),
        observe(s, v).sum < i128::MAX,
        observe(s, v).sum > i128::MIN,
{
    lemma_sum_bound(s.count, 1);
    lemma_sum_bound(s.count + 1, 0);
}

/// Combining observed or identity states gives an observed or identity state.
pub proof fn lemma_combine_observed(a: Summary, b: Summary)
    requires
        observed(a) || a == identity(),
        observed(b) || b == identity(),
        a.count + b.count <= u64::MAX,
    ensures
        observed(combine(a, b)) || combine(a, b) == identity(),
        i128::MIN < combine(a, b).sum < i128::MAX,
{
    lemma_sum_bound(a.count, b.count);
    lemma_sum_bound(a.count + b.count, 0);
}

/// `combine` does not depend on the order of its arguments.
pub proof fn lemma_combine_commutative(a: Summary, b: Summary)
    ensures
        combine(a, b) == combine(b, a),
{
}

/// `combine` can regroup its arguments freely.
pub proof fn lemma_combine_associative(a: Summary, b: Summary, c: Summary)
    ensures
        combine(combine(a, b), c) == combine(a, combine(b, c)),
{
}

/// The identity state is neutral for `combine` on every state whose bounds
/// are machine integers.
pub proof fn lemma_combine_identity(s: Summary)
    requires
        i64::MIN <= s.min <= i64::MAX,
        i64::MIN <= s.max <= i64::MAX,
    ensures
        combine(identity(), s) == s,
        combine(s, identity()) == s,
{
}

} // verus!
