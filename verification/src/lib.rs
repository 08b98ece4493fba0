//! Exact decoding of two-line orbital element sets.
//!
//! The fields of the two lines are read in fixed columns into exact decimal
//! numbers, so that nothing is rounded before the caller asks for it, and the
//! orbital quantities are held to the rules of a closed orbit. The step
//! budget of the Kepler iteration is kept here too.

pub mod decimal;
pub mod elements;
pub mod error;
pub mod field;
pub mod numeral;
pub mod solver;
pub mod text;
pub mod tle;

pub use decimal::{Comparison, Decimal};
pub use elements::{parse_elements, RawElements};
pub use error::{Error, Violation};
pub use field::parse_real;
pub use solver::Progress;
pub use tle::{Field, Tle};
