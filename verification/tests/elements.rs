use sgp4_rust::decimal::{Comparison, Decimal};
use sgp4_rust::elements::{parse_elements, RawElements};
use sgp4_rust::error::{Error, Violation};
use sgp4_rust::tle::{Field, Tle};

const LINE1: &str = "1 25544U 98067A   21135.57634567  .00002418  00000-0  50843-4 0  9993";

fn station() -> Tle {
    Tle {
        line1: "1 25544U 98067A   21135.57634567  .00002418  00000-0  50843-4 0  9993".to_string(),
        line2: "2 25544  51.6443 126.6639 0006738  34.7758 325.3542 15.48913328283873".to_string(),
    }
}

fn with_line2(line2: &str) -> Tle {
    Tle { line1: LINE1.to_string(), line2: line2.to_string() }
}

fn number(mantissa: u64, exponent: i64) -> Decimal {
    Decimal { negative: false, mantissa, exponent }
}

fn minus(mantissa: u64, exponent: i64) -> Decimal {
    Decimal { negative: true, mantissa, exponent }
}

fn as_f64(d: &Decimal) -> f64 {
    let sign = if d.negative { "-" } else { "" };
    format!("{}{}e{}", sign, d.mantissa, d.exponent).parse().unwrap()
}

fn with_drag(mantissa: Decimal, power: Decimal) -> RawElements {
    RawElements {
        inclination: Decimal::zero(),
        raan: Decimal::zero(),
        eccentricity: Decimal::zero(),
        arg_perigee: Decimal::zero(),
        mean_anomaly: Decimal::zero(),
        mean_motion: Decimal::zero(),
        drag_mantissa: mantissa,
        drag_power_of_ten: power,
    }
}

fn elements_with(eccentricity: Decimal, mean_motion: Decimal, inclination: Decimal) -> RawElements {
    RawElements {
        inclination,
        raan: Decimal::zero(),
        eccentricity,
        arg_perigee: Decimal::zero(),
        mean_anomaly: Decimal::zero(),
        mean_motion,
        drag_mantissa: Decimal::zero(),
        drag_power_of_ten: Decimal::zero(),
    }
}

const ALL_FIELDS: [Field; 12] = [
    Field::Epoch,
    Field::MeanMotionDot,
    Field::MeanMotionDdot,
    Field::DragExponent,
    Field::DragMantissa,
    Field::DragPowerOfTen,
    Field::Inclination,
    Field::Raan,
    Field::Eccentricity,
    Field::ArgPerigee,
    Field::MeanAnomaly,
    Field::MeanMotion,
];

#[test]
fn elements_of_the_station_are_exact() {
    let elements = parse_elements(&station());
    assert_eq!(
        elements,
        RawElements {
            inclination: number(516443, -4),
            raan: number(1266639, -4),
            eccentricity: number(6738, -7),
            arg_perigee: number(347758, -4),
            mean_anomaly: number(3253542, -4),
            mean_motion: number(1548913328, -8),
            drag_mantissa: number(50843, 0),
            drag_power_of_ten: minus(4, 0),
        }
    );
}

#[test]
fn drag_term_of_the_station_has_the_signed_power_of_ten() {
    let elements = parse_elements(&station());
    assert_eq!(elements.drag_power_of_ten.whole(), Some(-4));
    let bstar = elements.bstar().unwrap();
    assert_eq!(bstar, number(50843, -9));
    assert!((as_f64(&bstar) - 5.0843e-5).abs() < 1e-12);
}

#[test]
fn drag_term_scales_the_mantissa_by_the_power_of_ten() {
    assert_eq!(with_drag(number(50843, 0), number(0, 0)).bstar(), Some(number(50843, -5)));
    assert_eq!(with_drag(number(50843, 0), number(3, 0)).bstar(), Some(number(50843, -2)));
    assert_eq!(with_drag(number(50843, 0), number(50, -1)).bstar(), Some(number(50843, 0)));
    assert_eq!(with_drag(minus(11606, -1), minus(2, 0)).bstar(), Some(minus(11606, -8)));
    assert_eq!(with_drag(number(0, 0), minus(0, 0)).bstar(), Some(number(0, -5)));
    assert_eq!(with_drag(number(7, 0), number(1, 1)).bstar(), Some(number(7, 5)));
}

#[test]
fn drag_term_needs_a_whole_power_of_ten() {
    assert_eq!(with_drag(number(50843, 0), number(5, -1)).bstar(), None);
    assert_eq!(with_drag(number(50843, 0), minus(25, -1)).bstar(), None);
    assert_eq!(with_drag(number(50843, 0), number(1, -30)).bstar(), None);
}

#[test]
fn drag_term_needs_an_exponent_in_range() {
    assert_eq!(with_drag(number(1, i64::MIN), number(0, 0)).bstar(), None);
    assert_eq!(with_drag(number(1, i64::MIN), number(5, 0)).bstar(), Some(number(1, i64::MIN)));
    assert_eq!(with_drag(number(1, i64::MAX), number(5, 0)).bstar(), Some(number(1, i64::MAX)));
    assert_eq!(with_drag(number(1, i64::MAX), number(6, 0)).bstar(), None);
    assert_eq!(with_drag(number(1, 0), number(1, 19)).bstar(), None);
}

#[test]
fn elements_of_the_station_are_in_range() {
    let elements = parse_elements(&station());
    assert_eq!(elements.inclination.compare_int(0), Comparison::Greater);
    assert_eq!(elements.raan.compare_int(0), Comparison::Greater);
    assert_ne!(elements.eccentricity.compare_int(0), Comparison::Less);
    assert_eq!(elements.eccentricity.compare_int(1), Comparison::Less);
    assert_eq!(elements.arg_perigee.compare_int(0), Comparison::Greater);
    assert_eq!(elements.mean_anomaly.compare_int(0), Comparison::Greater);
    assert_eq!(elements.mean_motion.compare_int(0), Comparison::Greater);
    assert_eq!(elements.validate(), Ok(()));
}

#[test]
fn elements_of_blank_lines_are_zero() {
    let elements = parse_elements(&Tle { line1: String::new(), line2: String::new() });
    assert_eq!(elements.inclination, Decimal::zero());
    assert_eq!(elements.eccentricity, number(0, -7));
    assert_eq!(elements.mean_motion, Decimal::zero());
    assert_eq!(elements.validate(), Err(Error::InvalidElements(Violation::MeanMotion)));
}

#[test]
fn eccentricity_column_of_nines_is_below_one() {
    let tle = with_line2("2 25544  51.6443 126.6639 9999999  34.7758 325.3542 15.48913328283873");
    let elements = parse_elements(&tle);
    assert_eq!(elements.eccentricity, number(9999999, -7));
    assert_eq!(elements.eccentricity.compare_int(1), Comparison::Less);
    assert_eq!(elements.validate(), Ok(()));
}

#[test]
fn eccentricity_of_one_is_refused() {
    let tle = with_line2("2 25544  51.6443 126.6639 1+7      34.7758 325.3542 15.48913328283873");
    let elements = parse_elements(&tle);
    assert_eq!(elements.eccentricity, number(1, 0));
    assert_eq!(elements.validate(), Err(Error::InvalidElements(Violation::Eccentricity)));
}

#[test]
fn eccentricity_below_zero_is_refused() {
    let tle = with_line2("2 25544  51.6443 126.6639 -006738  34.7758 325.3542 15.48913328283873");
    let elements = parse_elements(&tle);
    assert_eq!(elements.eccentricity, minus(6738, -7));
    assert_eq!(elements.validate(), Err(Error::InvalidElements(Violation::Eccentricity)));
}

#[test]
fn eccentricity_above_one_is_refused() {
    let tle = with_line2("2 25544  51.6443 126.6639 15e6     34.7758 325.3542 15.48913328283873");
    let elements = parse_elements(&tle);
    assert_eq!(elements.eccentricity, number(15, -1));
    assert_eq!(elements.validate(), Err(Error::InvalidElements(Violation::Eccentricity)));
}

#[test]
fn validate_names_the_first_broken_rule() {
    let half = number(5, -1);
    let fifteen = number(15, 0);
    let ninety = number(90, 0);
    let below = minus(1, 0);
    let two = number(2, 0);
    let far = number(1801, -1);
    assert_eq!(elements_with(half, fifteen, ninety).validate(), Ok(()));
    assert_eq!(
        elements_with(two, Decimal::zero(), far).validate(),
        Err(Error::InvalidElements(Violation::Eccentricity))
    );
    assert_eq!(
        elements_with(below, fifteen, ninety).validate(),
        Err(Error::InvalidElements(Violation::Eccentricity))
    );
    assert_eq!(
        elements_with(half, Decimal::zero(), far).validate(),
        Err(Error::InvalidElements(Violation::MeanMotion))
    );
    assert_eq!(
        elements_with(half, below, ninety).validate(),
        Err(Error::InvalidElements(Violation::MeanMotion))
    );
    assert_eq!(
        elements_with(half, fifteen, far).validate(),
        Err(Error::InvalidElements(Violation::Inclination))
    );
    assert_eq!(
        elements_with(half, fifteen, below).validate(),
        Err(Error::InvalidElements(Violation::Inclination))
    );
}

#[test]
fn validate_takes_the_ends_of_the_inclination_range() {
    let half = number(5, -1);
    let one = number(1, 0);
    assert_eq!(elements_with(half, one, Decimal::zero()).validate(), Ok(()));
    assert_eq!(elements_with(half, one, number(1800000, -4)).validate(), Ok(()));
    assert_eq!(elements_with(Decimal::zero(), one, number(18, 1)).validate(), Ok(()));
    assert_eq!(
        elements_with(half, one, number(1800001, -4)).validate(),
        Err(Error::InvalidElements(Violation::Inclination))
    );
}

#[test]
fn inclination_past_the_half_turn_is_refused() {
    let tle = with_line2("2 25544 181.0000 126.6639 0006738  34.7758 325.3542 15.48913328283873");
    let elements = parse_elements(&tle);
    assert_eq!(elements.inclination, number(1810000, -4));
    assert_eq!(elements.validate(), Err(Error::InvalidElements(Violation::Inclination)));
}

#[test]
fn field_reads_one_field() {
    let tle = station();
    assert_eq!(tle.field(Field::Epoch), Ok(number(2113557634567, -8)));
    assert_eq!(tle.field(Field::MeanMotionDot), Ok(number(2418, -8)));
    assert_eq!(tle.field(Field::MeanMotionDdot), Ok(number(0, 0)));
    assert_eq!(tle.field(Field::DragExponent), Ok(minus(0, 0)));
    assert_eq!(tle.field(Field::DragMantissa), Ok(number(50843, 0)));
    assert_eq!(tle.field(Field::DragPowerOfTen), Ok(minus(4, 0)));
    assert_eq!(tle.field(Field::Inclination), Ok(number(516443, -4)));
    assert_eq!(tle.field(Field::Eccentricity), Ok(number(6738, 0)));
    assert_eq!(tle.field(Field::MeanMotion), Ok(number(1548913328, -8)));
}

#[test]
fn field_reads_a_negative_rate() {
    let tle = Tle {
        line1: "1 25544U 98067A   21135.57634567 -.00002182 -11606-4  50843+1 0  9993".to_string(),
        line2: String::new(),
    };
    assert_eq!(tle.field(Field::MeanMotionDot), Ok(minus(2182, -8)));
    assert_eq!(tle.field(Field::MeanMotionDdot), Ok(minus(11606, 0)));
    assert_eq!(tle.field(Field::DragExponent), Ok(minus(4, 0)));
    assert_eq!(tle.field(Field::DragPowerOfTen), Ok(number(1, 0)));
    assert_eq!(parse_elements(&tle).bstar(), Some(number(50843, -4)));
}

#[test]
fn field_names_the_field_that_holds_no_number() {
    let tle = Tle {
        line1: "1 25544U 98067A   21135.57634567  .00002418  00000-0  50843 x 0  9993".to_string(),
        line2: "2 25544  51.6443 126.6639 0006738  34.7758 325.3542 15.48913328283873".to_string(),
    };
    assert_eq!(tle.field(Field::DragPowerOfTen), Err(Error::MalformedField(Field::DragPowerOfTen)));
    assert_eq!(tle.value(Field::DragPowerOfTen), Decimal::zero());
    assert_eq!(tle.field(Field::DragMantissa), Ok(number(50843, 0)));
    assert_eq!(tle.value(Field::Inclination), number(516443, -4));
    let blank = Tle { line1: String::new(), line2: String::new() };
    assert_eq!(blank.field(Field::Epoch), Err(Error::MalformedField(Field::Epoch)));
    assert_eq!(blank.field(Field::MeanMotion), Err(Error::MalformedField(Field::MeanMotion)));
}

#[test]
fn defaulted_fields_lists_the_fields_without_a_number() {
    assert_eq!(station().defaulted_fields(), Vec::<Field>::new());
    let blank = Tle { line1: String::new(), line2: String::new() };
    assert_eq!(blank.defaulted_fields(), ALL_FIELDS.to_vec());
    let short = Tle { line1: LINE1[..52].to_string(), line2: "2 25544  51.6443".to_string() };
    assert_eq!(
        short.defaulted_fields(),
        vec![
            Field::DragMantissa,
            Field::DragPowerOfTen,
            Field::Raan,
            Field::Eccentricity,
            Field::ArgPerigee,
            Field::MeanAnomaly,
            Field::MeanMotion,
        ]
    );
}

#[test]
fn every_field_is_defaulted_or_read() {
    let tle = Tle { line1: LINE1[..58].to_string(), line2: "2 25544  51.6443  abc.def".to_string() };
    let defaulted = tle.defaulted_fields();
    for field in ALL_FIELDS {
        assert_eq!(defaulted.contains(&field), tle.field(field).is_err());
    }
}

#[test]
fn fields_lie_in_the_columns_of_the_format() {
    let layout: [(Field, u8, usize, usize); 12] = [
        (Field::Epoch, 1, 19, 32),
        (Field::MeanMotionDot, 1, 34, 43),
        (Field::MeanMotionDdot, 1, 45, 50),
        (Field::DragExponent, 1, 51, 52),
        (Field::DragMantissa, 1, 54, 59),
        (Field::DragPowerOfTen, 1, 60, 61),
        (Field::Inclination, 2, 9, 16),
        (Field::Raan, 2, 18, 25),
        (Field::Eccentricity, 2, 27, 33),
        (Field::ArgPerigee, 2, 35, 42),
        (Field::MeanAnomaly, 2, 44, 51),
        (Field::MeanMotion, 2, 53, 63),
    ];
    for (index, (field, line, first, last)) in layout.into_iter().enumerate() {
        assert_eq!(Field::nth(index), field);
        assert_eq!(field.line(), line);
        assert_eq!(field.first_column(), first);
        assert_eq!(field.first_column() + field.width() - 1, last);
    }
}
