//! Running statistics for one key, in fixed-point units scaled by ten
//! (a reading of `12.3` is the integer `123`).

use vstd::prelude::*;

verus! {

/// Smallest representable fixed-point value (`-99.9` in decimal notation).
pub const VALUE_MIN: i16 = -999;

/// Largest representable fixed-point value (`99.9` in decimal notation).
pub const VALUE_MAX: i16 = 999;

/// Per-key running statistics. `sum` is wide enough that adding up to
/// `u64::MAX` values of magnitude at most `VALUE_MAX` can never overflow.
#[derive(Clone, Copy, Debug, PartialEq, Eq, Structural)]
pub struct MeasurementRecord {
    pub count: u64,
    pub sum: i128,
    pub min: i16,
    pub max: i16,
}

/// Mathematical counterpart of `MeasurementRecord` over unbounded integers.
pub ghost struct RecModel {
    pub count: int,
    pub sum: int,
    pub min: int,
    pub max: int,
}

impl View for MeasurementRecord {
    type V = RecModel;

    open spec fn view(&self) -> RecModel {
        RecModel {
            count: self.count as int,
            sum: self.sum as int,
            min: self.min as int,
            max: self.max as int,
        }
    }
}

/// The record created by the first observation of a key.
pub open spec fn rec_unit(v: int) -> RecModel {
    RecModel { count: 1, sum: v, min: v, max: v }
}

/// The record after one more observation `v`.
pub open spec fn rec_add(r: RecModel, v: int) -> RecModel {
    RecModel {
        count: r.count + 1,
        sum: r.sum + v,
        min: if v < r.min { v } else { r.min },
        max: if v > r.max { v } else { r.max },
    }
}

/// The record holding the observations of both arguments together.
pub open spec fn rec_combine(a: RecModel, b: RecModel) -> RecModel {
    RecModel {
        count: a.count + b.count,
        sum: a.sum + b.sum,
        min: if a.min < b.min { a.min } else { b.min },
        max: if a.max > b.max { a.max } else { b.max },
    }
}

/// Well-formedness: at least one observation, bounds in range, and the sum
/// consistent with the extremes and the count.
pub open spec fn rec_wf(r: RecModel) -> bool {
    &&& 1 <= r.count
    &&& VALUE_MIN <= r.min
    &&& r.min <= r.max
    &&& r.max <= VALUE_MAX
    &&& r.count * r.min <= r.sum
    &&& r.sum <= r.count * r.max
}

impl MeasurementRecord {
    /// The record of a single observation.
    pub fn new(value: i16) -> (r: Self)
        requires
            VALUE_MIN <= value <= VALUE_MAX,
        ensures
            r@ == rec_unit(value as int),
            rec_wf(r@),
    {
        MeasurementRecord { count: 1, sum: value as i128, min: value, max: value }
    }

    /// Fold one more observation into the record.
    pub fn add_value(&mut self, value: i16)
        requires
            rec_wf(old(self)@),
            VALUE_MIN <= value <= VALUE_MAX,
            old(self).count < u64::MAX,
        ensures
            final(self)@ == rec_add(old(self)@, value as int),
            rec_wf(final(self)@),
    {
        proof {
            lemma_rec_add_wf(self@, value as int);
            lemma_sum_bounded(self@);
        }
        self.count = self.count + 1;
        self.sum = self.sum + value as i128;
        if value < self.min {
            self.min = value;
        }
        if value > self.max {
            self.max = value;
        }
    }

    /// Fold every observation of `other` into the record.
    pub fn combine(&mut self, other: &Self)
        requires
            rec_wf(old(self)@),
            rec_wf(other@),
            old(self)@.count + other@.count <= u64::MAX,
        ensures
            final(self)@ == rec_combine(old(self)@, other@),
            rec_wf(final(self)@),
    {
        proof {
            lemma_rec_combine_wf(self@, other@);
            lemma_sum_bounded(self@);
            lemma_sum_bounded(other@);
        }
        self.count = self.count + other.count;
        self.sum = self.sum + other.sum;
        if other.min < self.min {
            self.min = other.min;
        }
        if other.max > self.max {
            self.max = other.max;
        }
    }
}

/// A well-formed record's sum is bounded by `VALUE_MAX` times its count.
pub proof fn lemma_sum_bounded(r: RecModel)
    requires
        rec_wf(r),
        r.count <= u64::MAX,
    ensures
        -(VALUE_MAX as int) * (u64::MAX as int) <= r.sum <= (VALUE_MAX as int) * (u64::MAX as int),
{
    assert(r.sum <= r.count * r.max <= r.count * (VALUE_MAX as int)
        <= (u64::MAX as int) * (VALUE_MAX as int)) by (nonlinear_arith)
        requires
            rec_wf(r),
            r.count <= u64::MAX,
    ;
    assert(r.sum >= r.count * r.min >= -(r.count * (VALUE_MAX as int))
        >= -((u64::MAX as int) * (VALUE_MAX as int))) by (nonlinear_arith)
        requires
            rec_wf(r),
            r.count <= u64::MAX,
    ;
}

/// Adding an in-range observation preserves well-formedness.
pub proof fn lemma_rec_add_wf(r: RecModel, v: int)
    requires
        rec_wf(r),
        VALUE_MIN <= v <= VALUE_MAX,
    ensures
        rec_wf(rec_add(r, v)),
{
    let r2 = rec_add(r, v);
    assert(r2.count * r2.min <= r2.sum && r2.sum <= r2.count * r2.max) by (nonlinear_arith)
        requires
            rec_wf(r),
            VALUE_MIN <= v <= VALUE_MAX,
            r2 == rec_add(r, v),
    ;
}

/// Combining well-formed records yields a well-formed record.
pub proof fn lemma_rec_combine_wf(a: RecModel, b: RecModel)
    requires
        rec_wf(a),
        rec_wf(b),
    ensures
        rec_wf(rec_combine(a, b)),
{
    let c = rec_combine(a, b);
    assert(c.count * c.min <= c.sum && c.sum <= c.count * c.max) by (nonlinear_arith)
        requires
            rec_wf(a),
            rec_wf(b),
            c == rec_combine(a, b),
    ;
}

} // verus!
