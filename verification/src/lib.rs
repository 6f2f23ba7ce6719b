//! Frame-oriented mapping from physical input events to logical actions.
//!
//! Actions are dense indices owning one or more bindings; a binding is an
//! AND-group of input codes, and an action's value is the sum of its
//! bindings' contributions.

use vstd::prelude::*;

pub mod input;
pub mod input_code;
pub mod laws;
pub mod model;

verus! {

/// Largest raw magnitude one input event may carry.
pub const MAX_INPUT_VALUE: i64 = 16383;

/// Largest number of slots (chord members) one binding may hold.
pub const MAX_BIND_ARITY: usize = 4;

/// Largest number of bindings one action may own.
pub const MAX_BINDS_PER_ACTION: usize = 16;

/// The press threshold a freshly built engine starts with: with it, any
/// nonzero aggregate value counts as pressing.
pub const DEFAULT_PRESS_SENSITIVITY: i64 = 1;

/// Clamps a raw magnitude into the accepted input range.
pub fn clamp_input(v: i64) -> (r: i64)
    ensures
        0 <= r <= MAX_INPUT_VALUE,
        0 <= v <= MAX_INPUT_VALUE ==> r == v,
        v < 0 ==> r == 0,
        v > MAX_INPUT_VALUE ==> r == MAX_INPUT_VALUE,
{
    if v < 0 {
        0
    } else if v > MAX_INPUT_VALUE {
        MAX_INPUT_VALUE
    } else {
        v
    }
}

} // verus!
