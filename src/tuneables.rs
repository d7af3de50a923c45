use vstd::prelude::*;

verus! {

/// Cut points drawn for each crossover.
pub const CROSSOVER_COUNT: usize = 3;

/// Most activities that one mutation adds.
pub const ADD_MAX: u64 = 10;

/// Power of the curve that skews additions toward few.
pub const ADD_CURVE_EXPONENT: u32 = 3;

/// Expected deletions of a mutation at its most destructive.
pub const DEL_TARGET: u64 = 3;

/// Power of the curve that skews deletions toward few.
pub const DEL_CURVE_EXPONENT: u32 = 3;

} // verus!
