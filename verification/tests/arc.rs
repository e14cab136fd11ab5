use oxvg::arc::fit_arc;
use oxvg::arc::Fitted;
use oxvg::convert::run;
use oxvg::convert::ArcFitConfig;
use oxvg::convert::Flags;
use oxvg::convert::Options;
use oxvg::convert::StyleInfo;
use oxvg::geometry::isqrt_exec;
use oxvg::geometry::near_chord_exec;
use oxvg::number::Number;
use oxvg::path::Path;

fn n(text: &str) -> Number {
    Number::parse(text).unwrap()
}

fn options(precision: i32) -> Options {
    Options { flags: Flags::default(), make_arcs: ArcFitConfig::default(), precision }
}

fn units(values: [&str; 6]) -> [i64; 6] {
    values.map(|text| n(text).units)
}

fn optimise(d: &str, flags: Flags) -> String {
    let path = Path::parse(d).unwrap();
    let o = Options { flags, ..options(3) };
    run(&path, &o, &StyleInfo::default()).to_string()
}

#[test]
fn the_whole_part_of_a_square_root() {
    assert_eq!(isqrt_exec(0), 0);
    assert_eq!(isqrt_exec(1), 1);
    assert_eq!(isqrt_exec(3), 1);
    assert_eq!(isqrt_exec(4), 2);
    assert_eq!(isqrt_exec(99), 9);
    assert_eq!(isqrt_exec(100), 10);
    assert_eq!(isqrt_exec(1_000_000_000_000_000_000_000_000_000_000_000_000), 1_000_000_000_000_000_000);
    assert_eq!(isqrt_exec((1u128 << 126) - 1), (1u128 << 63) - 1);
}

#[test]
fn a_point_near_a_chord() {
    // the distance of (5, 1) from the line to (10, 0) is 1
    assert!(near_chord_exec(5, 1, 10, 0, 1));
    assert!(!near_chord_exec(5, 2, 10, 0, 1));
    assert!(near_chord_exec(5, -1, 10, 0, 1));
    assert!(near_chord_exec(3, 4, 6, 8, 0));
    assert!(!near_chord_exec(3, 5, 6, 8, 0));
    // the chord of no length has nothing near it but itself
    assert!(near_chord_exec(0, 0, 0, 0, 5));
}

#[test]
fn a_quarter_of_a_circle_is_an_arc() {
    let near = |value: i64, text: &str| (value - n(text).units).abs() < n("0.001").units;
    let fit = fit_arc(&units(["2.761", "0", "5", "2.239", "5", "5"]), &options(3)).unwrap();
    assert_eq!(fit, Fitted { radius: n("5"), large: false, sweep: true, ..fit });
    assert!(near(fit.center.0, "0") && near(fit.center.1, "5"), "{:?}", fit);
    let fit = fit_arc(&units(["0", "2.761", "2.239", "5", "5", "5"]), &options(3)).unwrap();
    assert_eq!(fit, Fitted { radius: n("5"), large: false, sweep: false, ..fit });
    assert!(near(fit.center.0, "5") && near(fit.center.1, "0"), "{:?}", fit);
    let fit = fit_arc(&units(["-2.761", "0", "-5", "-2.239", "-5", "-5"]), &options(3)).unwrap();
    assert_eq!(fit, Fitted { radius: n("5"), large: false, sweep: true, ..fit });
    assert!(near(fit.center.0, "0") && near(fit.center.1, "-5"), "{:?}", fit);
}

#[test]
fn the_radius_is_rounded_as_the_numbers_are() {
    let fit = fit_arc(&units(["1.891", "0.387", "3.393", "1.841", "3.849", "3.705"]), &options(3)).unwrap();
    assert_eq!(fit.radius, fit.radius.to_fixed(3));
    assert!(fit.sweep && !fit.large);
    assert!((fit.radius.units - n("5.006").units).abs() < n("0.01").units, "{:?}", fit);
}

#[test]
fn what_is_no_arc_is_none() {
    // a straight curve has no circle
    assert_eq!(fit_arc(&units(["1", "1", "2", "2", "3", "3"]), &options(3)), None);
    // a curve back to its start neither
    assert_eq!(fit_arc(&units(["1", "0", "0", "1", "0", "0"]), &options(3)), None);
    // a wave leaves its circle
    assert_eq!(fit_arc(&units(["2", "5", "4", "-5", "6", "1"]), &options(3)), None);
    // a flat curve is off its circle
    assert_eq!(fit_arc(&units(["20", "30", "40", "50", "60", "70.5"]), &options(3)), None);
    // offsets beyond the limit are not tried
    assert_eq!(fit_arc(&units(["2761000", "0", "5000000", "2239000", "5000000", "5000000"]), &options(3)), None);
    // nor is a tolerance below nothing
    let strict = Options {
        make_arcs: ArcFitConfig { threshold: n("-1"), tolerance: n("0.5") },
        ..options(3)
    };
    assert_eq!(fit_arc(&units(["2.761", "0", "5", "2.239", "5", "5"]), &strict), None);
    let exact = Options { make_arcs: ArcFitConfig { threshold: n("0"), tolerance: n("0") }, ..options(3) };
    assert_eq!(fit_arc(&units(["2.761", "0", "5", "2.239", "5", "5"]), &exact), None);
}

#[test]
fn a_curve_along_a_circle_is_written_as_an_arc() {
    assert_eq!(optimise("M0 0c2.761 0 5 2.239 5 5", Flags::default()), "m0 0a5 5 0 0 1 5 5");
    assert_eq!(optimise("M0 0L0 0c2.761 0 5 2.239 5 5l5-5", Flags::default()), "m0 0a5 5 0 0 1 5 5l5-5");
    let off = Flags { smart_arc_rounding_flag: false, ..Flags::default() };
    assert_eq!(optimise("M0 0c2.761 0 5 2.239 5 5", off), "m0 0c2.761 0 5 2.239 5 5");
}

#[test]
fn arcs_along_one_circle_are_one_arc() {
    // two quarters are a half
    assert_eq!(optimise("M15 10c-2.761 0-5-2.239-5-5s2.239-5 5-5", Flags::default()), "m15 10a5 5 0 0 1 0-10");
    // three quarters are the larger arc
    assert_eq!(
        optimise("M15 10c-2.761 0-5-2.239-5-5s2.239-5 5-5s5 2.239 5 5l-5 5", Flags::default()),
        "m15 10a5 5 0 1 1 5-5l-5 5"
    );
    // a whole circle stays two arcs
    assert_eq!(
        optimise("M60 0c-2.761 0-5 2.239-5 5s2.239 5 5 5s5-2.239 5-5S62.761 0 60 0z", Flags::default()),
        "m60 0a5 5 0 1 0 5 5 5 5 0 0 0-5-5z"
    );
    // arcs around other centres stay apart
    assert_eq!(
        optimise("M0 0c2.761 0 5 2.239 5 5c2.761 0 5 2.239 5 5", Flags::default()),
        "m0 0a5 5 0 0 1 5 5 5 5 0 0 1 5 5"
    );
    // and so do arcs with a marker between them
    let path = Path::parse("M15 10c-2.761 0-5-2.239-5-5s2.239-5 5-5").unwrap();
    let marked = StyleInfo { has_marker_mid: true, ..StyleInfo::default() };
    assert_eq!(run(&path, &options(3), &marked).to_string(), "m15 10a5 5 0 0 1-5-5 5 5 0 0 1 5-5");
}
