//! The two-line element set and the columns of its fields.

use crate::decimal::Decimal;
use crate::error::Error;
use crate::field::{field_numeral, is_field_value, read_field};
use crate::numeral::Numeral;
use vstd::prelude::*;

verus! {

/// A two-line element set: the two lines as they were received.
#[derive(Debug)]
pub struct Tle {
    pub line1: String,
    pub line2: String,
}

/// The numeric fields of a two-line element set that are read.
#[derive(Clone, Copy, Debug, PartialEq, Eq, Structural)]
pub enum Field {
    /// Epoch, line 1, columns 19 to 32.
    Epoch,
    /// First derivative of the mean motion, line 1, columns 34 to 43.
    MeanMotionDot,
    /// Second derivative of the mean motion, line 1, columns 45 to 50.
    MeanMotionDdot,
    /// Drag exponent, line 1, columns 51 to 52.
    DragExponent,
    /// Mantissa of the drag term, line 1, columns 54 to 59.
    DragMantissa,
    /// Power of ten of the drag term, line 1, columns 60 to 61.
    DragPowerOfTen,
    /// Inclination in degrees, line 2, columns 9 to 16.
    Inclination,
    /// Right ascension of the ascending node in degrees, line 2, columns 18
    /// to 25.
    Raan,
    /// Eccentricity in units of `10 ^ -7`, line 2, columns 27 to 33.
    Eccentricity,
    /// Argument of perigee in degrees, line 2, columns 35 to 42.
    ArgPerigee,
    /// Mean anomaly in degrees, line 2, columns 44 to 51.
    MeanAnomaly,
    /// Mean motion in revolutions per day, line 2, columns 53 to 63.
    MeanMotion,
}

/// The number of fields that are read.
pub const FIELD_COUNT: usize = 12;

impl Field {
    /// The fields in the order in which the lines hold them.
    pub open spec fn all() -> Seq<Field> {
        seq![
            Field::Epoch,
            Field::MeanMotionDot,
            Field::MeanMotionDdot,
            Field::DragExponent,
            Field::DragMantissa,
            Field::DragPowerOfTen,
            Field::Inclination,
            Field::Raan,
            Field::Eccentricity,
            Field::ArgPerigee,
            Field::MeanAnomaly,
            Field::MeanMotion,
        ]
    }

    /// The field at place `index` of `all()`.
    pub fn nth(index: usize) -> (r: Field)
        requires
            index < FIELD_COUNT,
        ensures
            r == Field::all()[index as int],
    {
        if index == 0 {
            Field::Epoch
        } else if index == 1 {
            Field::MeanMotionDot
        } else if index == 2 {
            Field::MeanMotionDdot
        } else if index == 3 {
            Field::DragExponent
        } else if index == 4 {
            Field::DragMantissa
        } else if index == 5 {
            Field::DragPowerOfTen
        } else if index == 6 {
            Field::Inclination
        } else if index == 7 {
            Field::Raan
        } else if index == 8 {
            Field::Eccentricity
        } else if index == 9 {
            Field::ArgPerigee
        } else if index == 10 {
            Field::MeanAnomaly
        } else {
            Field::MeanMotion
        }
    }

    /// The line that holds the field: 1 or 2.
    pub open spec fn spec_line(self) -> u8 {
        match self {
            Field::Epoch => 1,
            Field::MeanMotionDot => 1,
            Field::MeanMotionDdot => 1,
            Field::DragExponent => 1,
            Field::DragMantissa => 1,
            Field::DragPowerOfTen => 1,
            _ => 2,
        }
    }

    /// The field's first column, counted from 1.
    pub open spec fn spec_first_column(self) -> usize {
        match self {
            Field::Epoch => 19,
            Field::MeanMotionDot => 34,
            Field::MeanMotionDdot => 45,
            Field::DragExponent => 51,
            Field::DragMantissa => 54,
            Field::DragPowerOfTen => 60,
            Field::Inclination => 9,
            Field::Raan => 18,
            Field::Eccentricity => 27,
            Field::ArgPerigee => 35,
            Field::MeanAnomaly => 44,
            Field::MeanMotion => 53,
        }
    }

    /// The number of columns that the field takes.
    pub open spec fn spec_width(self) -> usize {
        match self {
            Field::Epoch => 14,
            Field::MeanMotionDot => 10,
            Field::MeanMotionDdot => 6,
            Field::DragExponent => 2,
            Field::DragMantissa => 6,
            Field::DragPowerOfTen => 2,
            Field::Inclination => 8,
            Field::Raan => 8,
            Field::Eccentricity => 7,
            Field::ArgPerigee => 8,
            Field::MeanAnomaly => 8,
            Field::MeanMotion => 11,
        }
    }

    /// The line that holds the field: 1 or 2.
    #[verifier::when_used_as_spec(spec_line)]
    pub fn line(self) -> (r: u8)
        ensures
            r == self.spec_line(),
    {
        match self {
            Field::Epoch => 1,
            Field::MeanMotionDot => 1,
            Field::MeanMotionDdot => 1,
            Field::DragExponent => 1,
            Field::DragMantissa => 1,
            Field::DragPowerOfTen => 1,
            _ => 2,
        }
    }

    /// The field's first column, counted from 1.
    #[verifier::when_used_as_spec(spec_first_column)]
    pub fn first_column(self) -> (r: usize)
        ensures
            r == self.spec_first_column(),
    {
        match self {
            Field::Epoch => 19,
            Field::MeanMotionDot => 34,
            Field::MeanMotionDdot => 45,
            Field::DragExponent => 51,
            Field::DragMantissa => 54,
            Field::DragPowerOfTen => 60,
            Field::Inclination => 9,
            Field::Raan => 18,
            Field::Eccentricity => 27,
            Field::ArgPerigee => 35,
            Field::MeanAnomaly => 44,
            Field::MeanMotion => 53,
        }
    }

    /// The number of columns that the field takes.
    #[verifier::when_used_as_spec(spec_width)]
    pub fn width(self) -> (r: usize)
        ensures
            r == self.spec_width(),
    {
        match self {
            Field::Epoch => 14,
            Field::MeanMotionDot => 10,
            Field::MeanMotionDdot => 6,
            Field::DragExponent => 2,
            Field::DragMantissa => 6,
            Field::DragPowerOfTen => 2,
            Field::Inclination => 8,
            Field::Raan => 8,
            Field::Eccentricity => 7,
            Field::ArgPerigee => 8,
            Field::MeanAnomaly => 8,
            Field::MeanMotion => 11,
        }
    }
}

impl Tle {
    /// The line that holds `field`.
    pub open spec fn line_of(self, field: Field) -> Seq<char> {
        if field.spec_line() == 1 {
            self.line1@
        } else {
            self.line2@
        }
    }

    /// The numeral in the columns of `field`, if there is one.
    pub open spec fn numeral(self, field: Field) -> Option<Numeral> {
        field_numeral(
            self.line_of(field),
            field.spec_first_column() as int,
            field.spec_width() as int,
        )
    }

    /// The fields that count as zero because they are not in their line or
    /// hold no number, in the order of `Field::all()`.
    pub open spec fn defaulted(self) -> Seq<Field> {
        Field::all().filter(|field: Field| self.numeral(field) is None)
    }

    /// Reads `field`, and says so where the field is not in its line or
    /// holds no number.
    pub fn field(&self, field: Field) -> (r: Result<Decimal, Error>)
        ensures
            match r {
                Ok(d) => self.numeral(field) matches Some(n) && d.is_value_of(n),
                Err(e) => self.numeral(field) is None && e == Error::MalformedField(field),
            },
    {
        let line = if field.line() == 1 {
            self.line1.as_str()
        } else {
            self.line2.as_str()
        };
        match read_field(line, field.first_column(), field.width()) {
            Some(d) => Ok(d),
            None => Err(Error::MalformedField(field)),
        }
    }

    /// Reads `field`, and takes zero where the field is not in its line or
    /// holds no number.
    pub fn value(&self, field: Field) -> (r: Decimal)
        ensures
            is_field_value(r, self.numeral(field)),
    {
        match self.field(field) {
            Ok(d) => d,
            Err(_) => Decimal::zero(),
        }
    }

    /// Lists the fields that count as zero because they are not in their
    /// line or hold no number.
    pub fn defaulted_fields(&self) -> (r: Vec<Field>)
        ensures
            r@ == self.defaulted(),
    {
        let ghost absent = |field: Field| self.numeral(field) is None;
        let mut out: Vec<Field> = Vec::new();
        let mut i: usize = 0;
        while i < FIELD_COUNT
            invariant
                i <= FIELD_COUNT,
                Field::all().len() == FIELD_COUNT,
                absent == |field: Field| self.numeral(field) is None,
                out@ == Field::all().take(i as int).filter(absent),
            decreases FIELD_COUNT - i,
        {
            let field = Field::nth(i);
            proof {
                let seen = Field::all().take(i + 1);
                assert(seen.drop_last() =~= Field::all().take(i as int));
                assert(seen.last() == field);
                reveal(Seq::filter);
            }
            if self.field(field).is_err() {
                out.push(field);
            }
            i += 1;
        }
        proof {
            assert(Field::all().take(FIELD_COUNT as int) =~= Field::all());
        }
        out
    }
}

} // verus!
