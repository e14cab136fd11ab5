use oxvg::convert::ArcFitConfig;
use oxvg::convert::Flags;
use oxvg::convert::Options;
use oxvg::number::Number;
use oxvg::number::MAX_UNITS;
use oxvg::number::UNIT;

fn options(precision: i32) -> Options {
    Options { flags: Flags::default(), make_arcs: ArcFitConfig::default(), precision }
}

#[test]
fn the_error_is_one_unit_of_the_last_place() {
    assert_eq!(options(3).error(), Number { units: 1_000_000 });
    assert_eq!(options(0).error(), Number { units: UNIT });
    assert_eq!(options(9).error(), Number { units: 1 });
    assert_eq!(options(1).error(), Number { units: 100_000_000 });
    assert_eq!(options(-2).error(), Number { units: 100 * UNIT });
    assert_eq!(options(-9).error(), Number { units: MAX_UNITS });
}

#[test]
fn the_error_stays_a_number_at_the_ends() {
    assert_eq!(options(10).error(), Number { units: 1 });
    assert_eq!(options(25).error(), Number { units: 1 });
    assert_eq!(options(-10).error(), Number { units: MAX_UNITS });
    assert_eq!(options(i32::MIN).error(), Number { units: MAX_UNITS });
    assert_eq!(options(i32::MAX).error(), Number { units: 1 });
}

#[test]
fn a_value_within_the_error_keeps_the_precision() {
    // 0.12344999 at three places is 0.123, and 0.12 would be too far off
    let o = options(3);
    let value = Number::parse("0.12344999").unwrap();
    assert_eq!(o.round(value, o.error()), Number::parse("0.123").unwrap());
}

#[test]
fn a_place_is_dropped_where_that_is_within_the_error() {
    let o = options(3);
    // 2.0004 is 2 within 0.001
    assert_eq!(o.round(Number::parse("2.0004").unwrap(), o.error()), Number::parse("2").unwrap());
    // 2.3444 is not 2.34 within 0.001
    assert_eq!(o.round(Number::parse("2.3444").unwrap(), o.error()), Number::parse("2.344").unwrap());
    // 2.3494 is 2.35 within 0.001
    assert_eq!(o.round(Number::parse("2.3494").unwrap(), o.error()), Number::parse("2.35").unwrap());
    // a difference of just the error is too much
    assert_eq!(o.round(Number::parse("2.3490001").unwrap(), o.error()), Number::parse("2.349").unwrap());
}

#[test]
fn a_value_with_no_more_places_stays() {
    let o = options(3);
    for text in ["0", "1", "-1", "0.5", "0.123", "-7.25", "1000000000"] {
        let value = Number::parse(text).unwrap();
        assert_eq!(o.round(value, o.error()), value);
    }
}

#[test]
fn other_precisions_round_to_whole_numbers() {
    for precision in [0, -1, -5, 20, 21, 100] {
        let o = options(precision);
        assert_eq!(o.round(Number::parse("2.5").unwrap(), o.error()), Number::parse("3").unwrap());
        assert_eq!(o.round(Number::parse("-2.5").unwrap(), o.error()), Number::parse("-3").unwrap());
        assert_eq!(o.round(Number::parse("2.49").unwrap(), o.error()), Number::parse("2").unwrap());
    }
}

#[test]
fn a_precision_beyond_the_scale_changes_nothing() {
    for precision in [9, 10, 15, 19] {
        let o = options(precision);
        let value = Number { units: 123_456_789 };
        assert_eq!(o.round(value, o.error()), value);
    }
}

#[test]
fn rounding_stays_within_the_error() {
    for precision in [1, 2, 3, 4, 8, 9, 12, 19, 0, -1, -3] {
        let o = options(precision);
        let error = o.error();
        for units in [0i64, 1, 49, 50, 51, 449_999_999, 450_000_000, 123_449_990, 999_999_999, 1_999_500_000, -1, -50, -123_449_990, -999_999_999, 987_654_321_987_654_321] {
            let value = Number { units };
            let rounded = o.round(value, error);
            assert!((rounded.units - units).abs() < error.units, "{} at {}", units, precision);
        }
    }
}

#[test]
fn rounding_twice_is_rounding_once() {
    for precision in [1, 2, 3, 4, 8, 9, 12, 0, -1, 25] {
        let o = options(precision);
        let error = o.error();
        for units in [0i64, 1, 49, 50, 51, 449_999_999, 123_449_990, 999_999_999, 1_999_500_000, -50, -123_449_990, 987_654_321_987_654_321] {
            let once = o.round(Number { units }, error);
            assert_eq!(o.round(once, error), once);
        }
    }
}

#[test]
fn every_number_of_a_list_is_rounded() {
    let o = options(2);
    let mut data = vec![
        Number::parse("1.005").unwrap(),
        Number::parse("-0.004").unwrap(),
        Number::parse("1.055").unwrap(),
        Number::parse("3").unwrap(),
    ];
    o.round_data(&mut data, o.error());
    assert_eq!(
        data,
        vec![
            Number::parse("1").unwrap(),
            Number::parse("0").unwrap(),
            Number::parse("1.06").unwrap(),
            Number::parse("3").unwrap(),
        ]
    );
}
