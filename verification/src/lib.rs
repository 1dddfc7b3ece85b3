//! Leveson-based trade assessment: a rating store and statistics engine.
//!
//! Exchanges (named entities) collect integer ratings in the range `[-1, 4]`
//! under a fixed, ordered list of assessment categories. The store enforces
//! the model invariants (valid rating range, closed category set, a running
//! total that matches the stored sequences) and the aggregator computes
//! per-exchange, per-category and system-wide averages plus ranked
//! performer lists. Averages are carried as integer hundredths so that all
//! arithmetic is exact.

use vstd::prelude::*;

pub mod arith;
pub mod order;
pub mod store;
pub mod document;
pub mod report;
pub mod export;

verus! {

/// A rating is accepted exactly when it lies in the closed range `[-1, 4]`.
pub open spec fn rating_in_range(v: i8) -> bool {
    -1 <= v <= 4
}

/// Executable check for the valid rating range.
pub fn rating_value_ok(v: i8) -> (r: bool)
    ensures
        r == rating_in_range(v),
{
    -1 <= v && v <= 4
}

} // verus!
