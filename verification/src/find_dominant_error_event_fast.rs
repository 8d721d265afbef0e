//! The search for dominant error events on the trellis of a code given by
//! its generators.

use vstd::prelude::*;
use crate::vec2d::Vec2d;

verus! {

/// Searches for the dominant error events of the code with the given
/// constraint lengths and generators, up to the distance `fd_tilde`. The
/// search by generators has no trellis to work on yet: nothing is computed.
pub fn find_dominant_error_event_fast(
    _constraint_length: Vec<u16>,
    _code_generator: Vec2d<u16>,
    _fd_tilde: i8,
) {
}

} // verus!
