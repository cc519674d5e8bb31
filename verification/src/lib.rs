//! Character n-gram statistics for chrF-style scoring.
//!
//! The crate builds, for a candidate text and a reference text, one n-gram
//! counter per order `1..=max_order` (a "ladder"), and computes the three
//! integer statistics that an F-beta score at each order is made of: the
//! clipped-count overlap (`matching`), the candidate's total n-gram count and
//! the reference's total n-gram count.  The floating-point combination of
//! those statistics is left to the caller.

pub mod counter;
pub mod ladder;
