//! What can go wrong between a two-line element set and a state vector.

use crate::tle::Field;
use vstd::prelude::*;

verus! {

/// The rule that a set of elements breaks.
#[derive(Clone, Copy, Debug, PartialEq, Eq, Structural)]
pub enum Violation {
    /// The eccentricity is not in `[0, 1)`.
    Eccentricity,
    /// The mean motion is not above zero.
    MeanMotion,
    /// The inclination is not between 0 and 180 degrees.
    Inclination,
}

/// The failures that are reported to the caller.
#[derive(Clone, Copy, Debug, PartialEq, Eq, Structural)]
pub enum Error {
    /// The field is not in its line, or what is in its columns is no number.
    MalformedField(Field),
    /// The elements describe no closed orbit.
    InvalidElements(Violation),
    /// Kepler's equation was not solved within the given number of steps.
    ConvergenceFailure(u32),
}

} // verus!
