use oxvg::number::pow10_exec;
use oxvg::number::Number;
use oxvg::number::MAX_UNITS;
use oxvg::number::UNIT;

fn text(number: Number) -> String {
    let mut out: Vec<char> = Vec::new();
    number.write_text(&mut out);
    out.into_iter().collect()
}

#[test]
fn units_in_range_are_numbers() {
    assert_eq!(Number::from_units(0), Some(Number { units: 0 }));
    assert_eq!(Number::from_units(MAX_UNITS), Some(Number { units: MAX_UNITS }));
    assert_eq!(Number::from_units(-MAX_UNITS), Some(Number { units: -MAX_UNITS }));
    assert_eq!(Number::from_units(MAX_UNITS + 1), None);
    assert_eq!(Number::from_units(-MAX_UNITS - 1), None);
}

#[test]
fn powers_of_ten() {
    assert_eq!(pow10_exec(0), 1);
    assert_eq!(pow10_exec(9), UNIT);
    assert_eq!(pow10_exec(18), MAX_UNITS);
}

#[test]
fn sums_are_exact_or_refused() {
    let a = Number { units: 1_500_000_000 };
    let b = Number { units: 250_000_000 };
    assert_eq!(a.checked_add(b), Some(Number { units: 1_750_000_000 }));
    let top = Number { units: MAX_UNITS };
    assert_eq!(top.checked_add(Number { units: 1 }), None);
    assert_eq!(Number { units: -MAX_UNITS }.checked_add(Number { units: -1 }), None);
    assert_eq!(top.checked_add(Number { units: -MAX_UNITS }), Some(Number::zero()));
}

#[test]
fn rounding_goes_half_away_from_zero() {
    let n = Number { units: 123_449_990 };
    assert_eq!(n.to_fixed(3), Number { units: 123_000_000 });
    assert_eq!(n.to_fixed(4), Number { units: 123_400_000 });
    assert_eq!(n.to_fixed(9), n);
    assert_eq!(n.to_fixed(12), n);
    assert_eq!(Number { units: 500_000_000 }.to_fixed(0), Number { units: UNIT });
    assert_eq!(Number { units: -500_000_000 }.to_fixed(0), Number { units: -UNIT });
    assert_eq!(Number { units: 499_999_999 }.to_fixed(0), Number::zero());
    assert_eq!(Number { units: 1_250_000_000 }.to_fixed(1), Number { units: 1_300_000_000 });
    assert_eq!(Number { units: -1_250_000_000 }.to_fixed(1), Number { units: -1_300_000_000 });
    assert_eq!(Number { units: MAX_UNITS }.to_fixed(0), Number { units: MAX_UNITS });
}

#[test]
fn text_is_the_shortest_decimal() {
    assert_eq!(text(Number::zero()), "0");
    assert_eq!(text(Number { units: 10 * UNIT }), "10");
    assert_eq!(text(Number { units: -10 * UNIT }), "-10");
    assert_eq!(text(Number { units: 500_000_000 }), ".5");
    assert_eq!(text(Number { units: -500_000_000 }), "-.5");
    assert_eq!(text(Number { units: 1_050_000_000 }), "1.05");
    assert_eq!(text(Number { units: 1 }), ".000000001");
    assert_eq!(text(Number { units: 123_456_789_123_456_789 }), "123456789.123456789");
    assert_eq!(text(Number { units: MAX_UNITS }), "1000000000");
    assert_eq!(text(Number { units: -MAX_UNITS }), "-1000000000");
}

#[test]
fn text_length_is_that_of_the_text() {
    for units in [0, 1, -1, 500_000_000, -500_000_000, 10 * UNIT, 1_050_000_000, MAX_UNITS, -MAX_UNITS, 123_456_789_123_456_789] {
        let number = Number { units };
        assert_eq!(number.text_len(), text(number).len());
    }
}

#[test]
fn numbers_are_read_from_text() {
    assert_eq!(Number::parse("10"), Some(Number { units: 10 * UNIT }));
    assert_eq!(Number::parse("-10"), Some(Number { units: -10 * UNIT }));
    assert_eq!(Number::parse("+10"), Some(Number { units: 10 * UNIT }));
    assert_eq!(Number::parse(".5"), Some(Number { units: 500_000_000 }));
    assert_eq!(Number::parse("-.5"), Some(Number { units: -500_000_000 }));
    assert_eq!(Number::parse("1."), Some(Number { units: UNIT }));
    assert_eq!(Number::parse("0.12344999"), Some(Number { units: 123_449_990 }));
    assert_eq!(Number::parse("3.05176e-005"), Some(Number { units: 30_517 }));
    assert_eq!(Number::parse("1e3"), Some(Number { units: 1000 * UNIT }));
    assert_eq!(Number::parse("1E+3"), Some(Number { units: 1000 * UNIT }));
    assert_eq!(Number::parse("1.5e1"), Some(Number { units: 15 * UNIT }));
    assert_eq!(Number::parse("0.0000000019"), Some(Number { units: 1 }));
    assert_eq!(Number::parse("0.0000000009"), Some(Number::zero()));
    assert_eq!(Number::parse("1000000000"), Some(Number { units: MAX_UNITS }));
    assert_eq!(Number::parse("0e999999999"), Some(Number::zero()));
    assert_eq!(Number::parse("000000000000000000000001"), Some(Number { units: UNIT }));
}

#[test]
fn what_is_no_number_is_refused() {
    assert_eq!(Number::parse(""), None);
    assert_eq!(Number::parse("-"), None);
    assert_eq!(Number::parse("."), None);
    assert_eq!(Number::parse("1 "), None);
    assert_eq!(Number::parse(" 1"), None);
    assert_eq!(Number::parse("1e"), None);
    assert_eq!(Number::parse("1x"), None);
    assert_eq!(Number::parse("inf"), None);
    assert_eq!(Number::parse("1000000000.000000001"), None);
    assert_eq!(Number::parse("1e10"), None);
    assert_eq!(Number::parse("1e1000000000"), None);
}

#[test]
fn text_reads_back_as_the_number() {
    for units in [0, 1, -1, 7, 500_000_000, -500_000_000, 10 * UNIT, 1_050_000_000, 123_449_990, MAX_UNITS, -MAX_UNITS, 123_456_789_123_456_789, -999_999_999] {
        let number = Number { units };
        assert_eq!(Number::parse(&text(number)), Some(number));
    }
}

#[test]
fn a_magnitude_has_no_sign() {
    assert_eq!(Number { units: -5 }.magnitude(), Number { units: 5 });
    assert_eq!(Number { units: 7 }.magnitude(), Number { units: 7 });
    assert!(Number { units: MAX_UNITS }.is_wf());
    assert!(!Number { units: MAX_UNITS + 1 }.is_wf());
}
