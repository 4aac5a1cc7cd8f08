//! The unit of fixed-point arithmetic shared by the strength model and the
//! scoring pipeline.

use vstd::prelude::*;

verus! {

/// The fixed-point representation of 1.0: strengths, weights and scores are
/// counted in units of one billionth.
pub const SCALE: u64 = 1_000_000_000;

} // verus!
