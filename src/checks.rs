use vstd::prelude::*;

use crate::float_bits::{f64_ge, ge_bits, F64_ONE_BITS};
use crate::sample::PrometheusSample;

verus! {

/// The kinds of assertion a check can make about a metric's value.
#[derive(Debug, Clone, Copy, PartialEq, Eq, Structural, PartialOrd, Ord)]
pub enum CheckType {
    /// The value is at least 1.0.
    Up,
    /// The value, read as unix seconds, is no older than the stale threshold.
    Fresh,
}

/// The time snapshot of one run. Each field is the bit pattern of a binary64
/// number of seconds; `fresh_floor` is `now - stale_threshold` as binary64
/// subtraction rounds it, computed once by whoever sampled the clock.
#[derive(Debug, Clone, Copy, PartialEq, Eq, Structural)]
pub struct CheckContext {
    pub now: u64,
    pub stale_threshold: u64,
    pub fresh_floor: u64,
}

/// A request that the metric called `name` passes the predicate `check_type`.
#[derive(Debug, Clone, PartialEq, Eq, PartialOrd, Ord)]
pub struct Check {
    pub name: String,
    pub check_type: CheckType,
}

/// What a check is, as a mathematical value.
pub struct CheckModel {
    pub name: Seq<char>,
    pub check_type: CheckType,
}

impl View for Check {
    type V = CheckModel;

    open spec fn view(&self) -> CheckModel {
        CheckModel { name: self.name@, check_type: self.check_type }
    }
}

impl CheckContext {
    /// A snapshot from the bit patterns of the current time, the threshold, and
    /// their binary64 difference.
    pub fn new(now: u64, stale_threshold: u64, fresh_floor: u64) -> (r: CheckContext)
        ensures
            r == (CheckContext { now, stale_threshold, fresh_floor }),
    {
        CheckContext { now, stale_threshold, fresh_floor }
    }

    /// A value is fresh when it is at least `now - stale_threshold`.
    pub open spec fn spec_is_fresh(self, value: u64) -> bool {
        f64_ge(value, self.fresh_floor)
    }

    pub fn is_fresh(&self, value: u64) -> (r: bool)
        ensures
            r == self.spec_is_fresh(value),
    {
        ge_bits(value, self.fresh_floor)
    }
}

impl CheckType {
    /// The predicate of each kind, on a value and the run's time snapshot.
    pub open spec fn holds(self, value: u64, context: CheckContext) -> bool {
        match self {
            CheckType::Up => f64_ge(value, F64_ONE_BITS),
            CheckType::Fresh => context.spec_is_fresh(value),
        }
    }

    pub fn is_satisfied_by(&self, value: u64, context: CheckContext) -> (r: bool)
        ensures
            r == self.holds(value, context),
    {
        match self {
            CheckType::Up => ge_bits(value, F64_ONE_BITS),
            CheckType::Fresh => context.is_fresh(value),
        }
    }
}

impl Check {
    /// The check names this sample and its value passes the check's predicate.
    pub fn is_satisfied_by(&self, sample: &PrometheusSample, context: CheckContext) -> (r: bool)
        ensures
            r == (self.name@ == sample.name@ && self.check_type.holds(sample.value, context)),
    {
        self.name == sample.name && self.check_type.is_satisfied_by(sample.value, context)
    }
}

} // verus!
