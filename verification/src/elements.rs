//! The orbital quantities that a two-line element set states, as exact
//! numbers, and the rules that they have to meet.

use crate::decimal::{lemma_unsigned_not_below_zero, lemma_whole_bound, Comparison, Decimal};
use crate::error::{Error, Violation};
use crate::field::{
    is_field_value, lemma_compact_numeral_of_digits, lemma_field_numeral,
    lemma_narrow_field_numeral,
};
use crate::numeral::{
    all_digits, digits_value, lemma_digits_value_bound, lemma_pow10_monotonic, lemma_pow10_values,
    Numeral,
};
use crate::text::{column_text, lemma_column_text_len};
use crate::tle::{Field, Tle};
use vstd::prelude::*;

verus! {

/// The orbital quantities of a two-line element set, in the units in which
/// the lines state them.
#[derive(Clone, Copy, Debug, PartialEq, Eq, Structural)]
pub struct RawElements {
    /// Inclination in degrees.
    pub inclination: Decimal,
    /// Right ascension of the ascending node in degrees.
    pub raan: Decimal,
    /// Eccentricity: the field's number, which counts in units of `10 ^ -7`,
    /// times `10 ^ -7`.
    pub eccentricity: Decimal,
    /// Argument of perigee in degrees.
    pub arg_perigee: Decimal,
    /// Mean anomaly in degrees.
    pub mean_anomaly: Decimal,
    /// Mean motion in revolutions per day.
    pub mean_motion: Decimal,
    /// Mantissa of the drag term, in units of `10 ^ -5`.
    pub drag_mantissa: Decimal,
    /// The power of ten that scales the drag term.
    pub drag_power_of_ten: Decimal,
}

/// `d` is the eccentricity that an eccentricity field gives: `10 ^ 7` times
/// `d` is the field's number.
pub open spec fn is_eccentricity(d: Decimal, numeral: Option<Numeral>) -> bool {
    &&& d.exponent + 7 <= i64::MAX
    &&& is_field_value(d.shifted(7), numeral)
}

impl RawElements {
    /// Every quantity is what its field of `tle` states, and zero where the
    /// field states nothing.
    pub open spec fn is_read_from(self, tle: Tle) -> bool {
        &&& is_field_value(self.inclination, tle.numeral(Field::Inclination))
        &&& is_field_value(self.raan, tle.numeral(Field::Raan))
        &&& is_eccentricity(self.eccentricity, tle.numeral(Field::Eccentricity))
        &&& is_field_value(self.arg_perigee, tle.numeral(Field::ArgPerigee))
        &&& is_field_value(self.mean_anomaly, tle.numeral(Field::MeanAnomaly))
        &&& is_field_value(self.mean_motion, tle.numeral(Field::MeanMotion))
        &&& is_field_value(self.drag_mantissa, tle.numeral(Field::DragMantissa))
        &&& is_field_value(self.drag_power_of_ten, tle.numeral(Field::DragPowerOfTen))
    }

    /// The drag term: the mantissa times `10 ^ -5` times ten to the power
    /// that the elements state. There is none where that power is no whole
    /// number, nor where the power or the exponent of the product does not
    /// fit an `i64`.
    pub open spec fn spec_bstar(self) -> Option<Decimal> {
        match self.drag_power_of_ten.spec_whole() {
            Some(k) => if i64::MIN <= k <= i64::MAX && i64::MIN <= self.drag_mantissa.exponent - 5
                + k <= i64::MAX {
                Some(self.drag_mantissa.shifted(k - 5))
            } else {
                None
            },
            None => None,
        }
    }

    /// The eccentricity is in `[0, 1)`.
    pub open spec fn eccentricity_in_range(self) -> bool {
        !self.eccentricity.lt_int(0) && self.eccentricity.lt_int(1)
    }

    /// The mean motion is above zero.
    pub open spec fn mean_motion_positive(self) -> bool {
        self.mean_motion.gt_int(0)
    }

    /// The inclination is between 0 and 180 degrees, both included.
    pub open spec fn inclination_in_range(self) -> bool {
        !self.inclination.lt_int(0) && !self.inclination.gt_int(180)
    }

    /// The first rule that the elements break, in the order eccentricity,
    /// mean motion, inclination.
    pub open spec fn violation(self) -> Option<Violation> {
        if !self.eccentricity_in_range() {
            Some(Violation::Eccentricity)
        } else if !self.mean_motion_positive() {
            Some(Violation::MeanMotion)
        } else if !self.inclination_in_range() {
            Some(Violation::Inclination)
        } else {
            None
        }
    }

    /// The drag term `drag_mantissa * 10 ^ -5 * 10 ^ drag_power_of_ten`, as
    /// an exact number.
    pub fn bstar(&self) -> (r: Option<Decimal>)
        ensures
            r == self.spec_bstar(),
    {
        match self.drag_power_of_ten.whole() {
            Some(power) => {
                let exponent: i128 = self.drag_mantissa.exponent as i128 - 5 + power as i128;
                if -9223372036854775808 <= exponent && exponent <= 9223372036854775807 {
                    Some(
                        Decimal {
                            negative: self.drag_mantissa.negative,
                            mantissa: self.drag_mantissa.mantissa,
                            exponent: exponent as i64,
                        },
                    )
                } else {
                    None
                }
            },
            None => None,
        }
    }

    /// Holds the elements to the rules of a closed orbit, and names the first
    /// rule that they break.
    pub fn validate(&self) -> (r: Result<(), Error>)
        ensures
            r is Ok <==> self.violation() is None,
            r matches Err(e) ==> self.violation() matches Some(v) && e == Error::InvalidElements(
                v,
            ),
            r is Ok ==> self.eccentricity_in_range() && self.mean_motion_positive()
                && self.inclination_in_range(),
    {
        if self.eccentricity.compare_int(0) == Comparison::Less || self.eccentricity.compare_int(1)
            != Comparison::Less {
            Err(Error::InvalidElements(Violation::Eccentricity))
        } else if self.mean_motion.compare_int(0) != Comparison::Greater {
            Err(Error::InvalidElements(Violation::MeanMotion))
        } else if self.inclination.compare_int(0) == Comparison::Less
            || self.inclination.compare_int(180) == Comparison::Greater {
            Err(Error::InvalidElements(Violation::Inclination))
        } else {
            Ok(())
        }
    }
}

/// Reads the orbital quantities of `tle`. A field that is not in its line, or
/// holds no number, counts as zero.
pub fn parse_elements(tle: &Tle) -> (r: RawElements)
    ensures
        r.is_read_from(*tle),
{
    let raw = tle.value(Field::Eccentricity);
    proof {
        if tle.numeral(Field::Eccentricity) is Some {
            lemma_field_numeral(tle.line_of(Field::Eccentricity), 27, 7);
        }
    }
    let eccentricity = raw.shift(-7);
    proof {
        assert(eccentricity.shifted(7) == raw);
    }
    RawElements {
        inclination: tle.value(Field::Inclination),
        raan: tle.value(Field::Raan),
        eccentricity,
        arg_perigee: tle.value(Field::ArgPerigee),
        mean_anomaly: tle.value(Field::MeanAnomaly),
        mean_motion: tle.value(Field::MeanMotion),
        drag_mantissa: tle.value(Field::DragMantissa),
        drag_power_of_ten: tle.value(Field::DragPowerOfTen),
    }
}

/// Elements that were read from a two-line element set have a drag term
/// wherever the power of ten that they state is a whole number: the columns
/// are too few for a number that leaves the range.
pub proof fn lemma_bstar_of_fields(elements: RawElements, tle: Tle)
    requires
        elements.is_read_from(tle),
    ensures
        elements.spec_bstar() is Some <==> elements.drag_power_of_ten.spec_whole() is Some,
        elements.spec_bstar() matches Some(b) ==> b.negative == elements.drag_mantissa.negative
            && b.mantissa == elements.drag_mantissa.mantissa && b.exponent
            == elements.drag_mantissa.exponent - 5 + elements.drag_power_of_ten.spec_whole()->0,
{
    let power = elements.drag_power_of_ten;
    if tle.numeral(Field::DragMantissa) is Some {
        lemma_field_numeral(tle.line_of(Field::DragMantissa), 54, 6);
    }
    if tle.numeral(Field::DragPowerOfTen) is Some {
        lemma_narrow_field_numeral(tle.line_of(Field::DragPowerOfTen), 60, 2);
    }
    if power.spec_whole() is Some {
        lemma_pow10_values();
        lemma_whole_bound(power, 1000, 9);
    }
}

/// An eccentricity column that holds digits only gives the eccentricity that
/// has these digits behind the point, which is in `[0, 1)`.
pub proof fn lemma_eccentricity_of_digits(elements: RawElements, tle: Tle, digits: Seq<char>)
    requires
        elements.is_read_from(tle),
        column_text(tle.line2@, 27, 7) == Some(digits),
        digits.len() > 0,
        all_digits(digits),
    ensures
        !elements.eccentricity.negative,
        elements.eccentricity.mantissa == digits_value(digits),
        elements.eccentricity.exponent == -7,
        elements.eccentricity_in_range(),
{
    lemma_compact_numeral_of_digits(digits);
    lemma_column_text_len(tle.line2@, 27, 7);
    lemma_digits_value_bound(digits);
    lemma_pow10_monotonic(digits.len(), 7);
    lemma_pow10_values();
    assert(digits + Seq::<char>::empty() =~= digits);
    lemma_unsigned_not_below_zero(elements.eccentricity);
}

} // verus!
