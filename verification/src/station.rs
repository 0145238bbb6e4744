//! The running statistic kept for one key.

use vstd::prelude::*;

use crate::number::VALUE_LIMIT;

verus! {

/// Mathematical running statistic: minimum, maximum, sum and count of the
/// values seen for one key, values in scale units.
pub ghost struct StatModel {
    pub min: int,
    pub max: int,
    pub sum: int,
    pub count: int,
}

/// The statistic before any value arrives: sentinels that the first value
/// always replaces, since every value is strictly inside the bound.
pub open spec fn stat_empty() -> StatModel {
    StatModel { min: VALUE_LIMIT as int, max: -(VALUE_LIMIT as int), sum: 0, count: 0 }
}

/// One value folded into a statistic.
pub open spec fn stat_upd(st: StatModel, v: int) -> StatModel {
    StatModel {
        min: if v < st.min {
            v
        } else {
            st.min
        },
        max: if v > st.max {
            v
        } else {
            st.max
        },
        sum: st.sum + v,
        count: st.count + 1,
    }
}

/// Bounds of a statistic that has seen at least one value, among at most
/// `n` values in all.
pub open spec fn stat_inv(st: StatModel, n: int) -> bool {
    &&& 1 <= st.count <= n
    &&& -(VALUE_LIMIT as int) < st.min < VALUE_LIMIT as int
    &&& -(VALUE_LIMIT as int) < st.max < VALUE_LIMIT as int
    &&& st.min <= st.max
    &&& -(st.count * (VALUE_LIMIT as int)) <= st.sum <= st.count * (VALUE_LIMIT as int)
}

/// Folding a bounded value into an empty or well-bounded statistic gives a
/// well-bounded statistic.
pub proof fn lemma_stat_upd_inv(st: StatModel, v: int, n: int)
    requires
        st == stat_empty() || stat_inv(st, n),
        -(VALUE_LIMIT as int) < v < VALUE_LIMIT as int,
        0 <= n,
    ensures
        stat_inv(stat_upd(st, v), n + 1),
{
    if st == stat_empty() {
    } else {
        assert((st.count + 1) * (VALUE_LIMIT as int) == st.count * (VALUE_LIMIT as int) + (
        VALUE_LIMIT as int)) by (nonlinear_arith);
    }
}

/// Running statistic for one key, in scale units.
pub struct Station {
    pub min: i64,
    pub max: i64,
    pub sum: i128,
    pub count: u64,
}

impl View for Station {
    type V = StatModel;

    open spec fn view(&self) -> StatModel {
        StatModel {
            min: self.min as int,
            max: self.max as int,
            sum: self.sum as int,
            count: self.count as int,
        }
    }
}

impl Station {
    /// A statistic that has seen nothing yet.
    pub fn new() -> (s: Station)
        ensures
            s@ == stat_empty(),
    {
        Station { min: VALUE_LIMIT, max: -VALUE_LIMIT, sum: 0, count: 0 }
    }

    /// Folds one value in: the minimum and maximum move towards the value
    /// when it passes them, the sum and the count always grow.
    pub fn update(&mut self, value: i64)
        requires
            old(self)@ == stat_empty() || stat_inv(old(self)@, u64::MAX as int - 1),
            -VALUE_LIMIT < value < VALUE_LIMIT,
        ensures
            final(self)@ == stat_upd(old(self)@, value as int),
            stat_inv(final(self)@, old(self)@.count + 1),
    {
        proof {
            lemma_stat_upd_inv(self@, value as int, u64::MAX as int - 1);
            if self@ == stat_empty() {
            } else {
                assert(self@.count * (VALUE_LIMIT as int) <= (u64::MAX as int - 1) * (
                VALUE_LIMIT as int)) by (nonlinear_arith)
                    requires
                        1 <= self@.count <= u64::MAX as int - 1,
                ;
            }
        }
        if value < self.min {
            self.min = value;
        }
        self.sum = self.sum + value as i128;
        self.count = self.count + 1;
        if value > self.max {
            self.max = value;
        }
        proof {
            lemma_stat_upd_inv(old(self)@, value as int, old(self)@.count);
        }
    }
}

} // verus!
