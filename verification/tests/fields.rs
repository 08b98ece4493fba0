use sgp4_rust::decimal::Decimal;
use sgp4_rust::field::{parse_real, read_field, read_number};

const LINE1: &str = "1 25544U 98067A   21135.57634567  .00002418  00000-0  50843-4 0  9993";
const LINE2: &str = "2 25544  51.6443 126.6639 0006738  34.7758 325.3542 15.48913328283873";

fn number(mantissa: u64, exponent: i64) -> Decimal {
    Decimal { negative: false, mantissa, exponent }
}

fn as_f64(d: &Decimal) -> f64 {
    let sign = if d.negative { "-" } else { "" };
    format!("{}{}e{}", sign, d.mantissa, d.exponent).parse().unwrap()
}

fn signed(negative: bool, mantissa: u64, exponent: i64) -> Decimal {
    Decimal { negative, mantissa, exponent }
}

/// The same reading done with the float parser of std.
fn float_reading(line: &str, start: usize, len: usize) -> f64 {
    let text = match line.get(start - 1..start - 1 + len) {
        Some(text) => text.trim(),
        None => return 0.0,
    };
    let expanded = match text.chars().next() {
        Some(first) => {
            let rest = &text[first.len_utf8()..];
            format!("{}{}", first, rest.replace("-", "e-").replace("+", "e+"))
        }
        None => String::new(),
    };
    expanded.parse::<f64>().unwrap_or(0.0)
}

fn spelled(s: &str) -> Option<Decimal> {
    let text: Vec<char> = s.chars().collect();
    read_number(&text)
}

#[test]
fn inclination_columns_give_the_written_degrees() {
    let d = parse_real(LINE2, 9, 8);
    assert_eq!(d, number(516443, -4));
    let radians = as_f64(&d) * std::f64::consts::PI / 180.0;
    assert!((radians - 51.6443_f64.to_radians()).abs() < 1e-6);
    assert!((radians - 0.901363).abs() < 1e-6);
}

#[test]
fn second_line_fields_are_read_in_their_columns() {
    assert_eq!(parse_real(LINE2, 18, 8), number(1266639, -4));
    assert_eq!(parse_real(LINE2, 27, 7), number(6738, 0));
    assert_eq!(parse_real(LINE2, 35, 8), number(347758, -4));
    assert_eq!(parse_real(LINE2, 44, 8), number(3253542, -4));
    assert_eq!(parse_real(LINE2, 53, 11), number(1548913328, -8));
}

#[test]
fn first_line_fields_are_read_in_their_columns() {
    assert_eq!(parse_real(LINE1, 19, 14), number(2113557634567, -8));
    assert_eq!(parse_real(LINE1, 34, 10), number(2418, -8));
    assert_eq!(parse_real(LINE1, 45, 6), number(0, 0));
    assert_eq!(parse_real(LINE1, 54, 6), number(50843, 0));
}

#[test]
fn a_bare_sign_marks_an_exponent() {
    assert_eq!(parse_real(LINE1, 54, 8), number(50843, -4));
    assert_eq!(parse_real(LINE1, 45, 8), number(0, 0));
    assert_eq!(parse_real("12345-3", 1, 7), number(12345, -3));
    assert_eq!(parse_real("12345+3", 1, 7), number(12345, 3));
    assert_eq!(parse_real(" 1.5-2 ", 1, 7), number(15, -3));
}

#[test]
fn a_sign_that_begins_a_field_is_the_sign_of_its_number() {
    assert_eq!(parse_real(LINE1, 60, 2), signed(true, 4, 0));
    assert_eq!(parse_real(LINE1, 51, 2), signed(true, 0, 0));
    assert_eq!(parse_real("-.00002182", 1, 10), signed(true, 2182, -8));
    assert_eq!(parse_real("+5", 1, 2), number(5, 0));
    assert_eq!(parse_real("  -4  ", 1, 6), signed(true, 4, 0));
    assert_eq!(read_field(LINE1, 60, 2), Some(signed(true, 4, 0)));
    assert_eq!(as_f64(&parse_real(LINE1, 60, 2)), -4.0);
}

#[test]
fn a_signed_field_may_have_a_signed_exponent() {
    assert_eq!(parse_real("-11606-4", 1, 8), signed(true, 11606, -4));
    assert_eq!(parse_real("+11606+4", 1, 8), number(11606, 4));
    assert_eq!(parse_real("-1.5-2", 1, 6), signed(true, 15, -3));
}

#[test]
fn a_field_with_two_signs_inside_counts_as_zero() {
    assert_eq!(parse_real("1-2-3", 1, 5), Decimal::zero());
    assert_eq!(parse_real("-1-2-3", 1, 6), Decimal::zero());
    assert_eq!(parse_real("--4", 1, 3), Decimal::zero());
    assert_eq!(parse_real("1e-5", 1, 4), Decimal::zero());
    assert_eq!(parse_real("-", 1, 1), Decimal::zero());
    assert_eq!(parse_real("------------------", 1, 18), Decimal::zero());
    assert_eq!(parse_real("1+2+3+4+5+6+7+8+9+", 1, 18), Decimal::zero());
}

#[test]
fn a_field_before_the_first_column_counts_as_zero() {
    assert_eq!(parse_real(LINE2, 0, 8), Decimal::zero());
    assert_eq!(parse_real(LINE2, 0, 0), Decimal::zero());
    assert_eq!(parse_real("", 0, 18), Decimal::zero());
    assert_eq!(read_field(LINE2, 0, 1), None);
    assert_eq!(read_field(LINE2, 1, 1), Some(number(2, 0)));
}

#[test]
fn a_field_past_the_end_of_the_line_counts_as_zero() {
    assert_eq!(parse_real("", 9, 8), Decimal::zero());
    assert_eq!(parse_real("2 25544  51.644", 9, 8), Decimal::zero());
    assert_eq!(read_field("2 25544  51.644", 9, 8), None);
    assert_eq!(read_field("2 25544  51.644", 9, 7), Some(number(51644, -3)));
}

#[test]
fn a_field_that_is_no_number_counts_as_zero() {
    for text in [
        "        ", "  abc   ", "51.64.43", " 5 1.644", "     inf", "    -inf", "     nan", "       .",
        "1,5     ", "      -.", "       +",
    ] {
        assert_eq!(parse_real(text, 1, 8), Decimal::zero(), "{:?}", text);
        assert_eq!(read_field(text, 1, 8), None, "{:?}", text);
    }
}

#[test]
fn a_field_that_cuts_a_character_counts_as_zero() {
    assert_eq!(parse_real("\u{e9}12", 2, 2), Decimal::zero());
    assert_eq!(parse_real("\u{e9}12", 3, 2), number(12, 0));
    assert_eq!(parse_real("\u{a0}12\u{3000}", 1, 7), number(12, 0));
}

#[test]
fn a_written_zero_is_told_from_a_missing_field() {
    assert_eq!(read_field("   0.000", 1, 8), Some(number(0, -3)));
    assert_eq!(read_field("        ", 1, 8), None);
    assert_eq!(parse_real("   0.000", 1, 8), number(0, -3));
}

#[test]
fn read_number_trims_and_expands_before_it_reads() {
    assert_eq!(spelled(" 51.6443"), Some(number(516443, -4)));
    assert_eq!(spelled(" 50843-4"), Some(number(50843, -4)));
    assert_eq!(spelled("\t7 "), Some(number(7, 0)));
    assert_eq!(spelled("1E3"), Some(number(1, 3)));
    assert_eq!(spelled("999999999999999999"), Some(number(999_999_999_999_999_999, 0)));
    assert_eq!(spelled("9-9999999999999999"), Some(number(9, -9_999_999_999_999_999)));
    assert_eq!(spelled("-4"), Some(signed(true, 4, 0)));
    assert_eq!(spelled(" -50843-4 "), Some(signed(true, 50843, -4)));
    assert_eq!(spelled("-999999999999999-9"), Some(signed(true, 999_999_999_999_999, -9)));
    assert_eq!(spelled(""), None);
    assert_eq!(spelled("-"), None);
    assert_eq!(spelled("4-"), None);
    assert_eq!(spelled("5 1"), None);
}

#[test]
fn the_widest_field_is_read() {
    assert_eq!(parse_real("123456789012345678", 1, 18), number(123_456_789_012_345_678, 0));
    assert_eq!(parse_real("1234567.8901234567", 1, 18), number(12_345_678_901_234_567, -10));
    assert_eq!(parse_real("12345678901234567-", 1, 18), Decimal::zero());
    assert_eq!(parse_real("1-0000000000000007", 1, 18), number(1, -7));
}

#[test]
fn readings_round_to_what_the_float_parser_gives() {
    let fields: [(&str, usize, usize); 12] = [
        (LINE1, 19, 14),
        (LINE1, 34, 10),
        (LINE1, 45, 6),
        (LINE1, 51, 2),
        (LINE1, 54, 6),
        (LINE1, 60, 2),
        (LINE2, 9, 8),
        (LINE2, 18, 8),
        (LINE2, 27, 7),
        (LINE2, 35, 8),
        (LINE2, 44, 8),
        (LINE2, 53, 11),
    ];
    for (line, start, len) in fields {
        let d = parse_real(line, start, len);
        assert_eq!(as_f64(&d).to_bits(), float_reading(line, start, len).to_bits());
    }
}

#[test]
fn readings_agree_with_the_float_parser_at_every_column() {
    for line in [LINE1, LINE2, "", "12345-3 +7 1e5 .5 5. - -4 -.5-2 --1", "  \u{a0}1.5\u{3000}2-3  x"] {
        for start in 1..75usize {
            for len in 0..=18usize {
                let d = parse_real(line, start, len);
                let expected = float_reading(line, start, len);
                assert_eq!(as_f64(&d).to_bits(), expected.to_bits(), "{:?} {} {}", line, start, len);
            }
        }
    }
}
