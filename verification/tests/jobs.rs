use oxvg::bounds::Reach;
use oxvg::convert::ArcFitConfig;
use oxvg::convert::Flags;
use oxvg::convert::StyleInfo;
use oxvg::geometry::Point;
use oxvg::jobs::cleanup_enable_background::CleanupEnableBackground;
use oxvg::jobs::cleanup_list_of_values::default_convert_to_px;
use oxvg::jobs::cleanup_list_of_values::default_default_px;
use oxvg::jobs::cleanup_list_of_values::default_float_precision;
use oxvg::jobs::cleanup_list_of_values::default_leading_zero;
use oxvg::jobs::cleanup_list_of_values::CleanupListOfValues;
use oxvg::jobs::cleanup_list_of_values::Mode;
use oxvg::jobs::convert_ellipse_to_circle::ConvertEllipseToCircle;
use oxvg::jobs::convert_path_data::ConvertPathData;
use oxvg::jobs::remove_comments::DeserializePreservePatternError;
use oxvg::jobs::remove_comments::PreservePattern;
use oxvg::jobs::remove_comments::RemoveComments;
use oxvg::jobs::remove_off_canvas_paths::GatherViewboxDataError;
use oxvg::jobs::remove_off_canvas_paths::RemoveOffCanvasPaths;
use oxvg::jobs::remove_off_canvas_paths::Verdict;
use oxvg::jobs::remove_off_canvas_paths::ViewBoxData;
use oxvg::jobs::remove_style_element::RemoveStyleElement;
use oxvg::jobs::AttributeChange;
use oxvg::jobs::Jobs;
use oxvg::jobs::PrepareOutcome;
use oxvg::jobs::Task;
use oxvg::number::Number;
use oxvg::path::Path;

fn n(text: &str) -> Number {
    Number::parse(text).unwrap()
}

fn view_box(left: &str, top: &str, width: &str, height: &str) -> ViewBoxData {
    ViewBoxData {
        left: n(left),
        top: n(top),
        width: n(width),
        height: n(height),
        right: n(left).checked_add(n(width)).unwrap(),
        bottom: n(top).checked_add(n(height)).unwrap(),
    }
}

#[test]
fn test_jobs() {
    let jobs = Jobs { remove_style_element: Some(RemoveStyleElement(true)), ..Jobs::default() };
    let tasks = jobs.run();
    assert_eq!(tasks.len(), 1);
    assert!(matches!(tasks[0], Task::RemoveStyleElement(RemoveStyleElement(true))));
    assert!(Jobs::default().run().is_empty());
}

#[test]
fn the_jobs_run_in_their_order() {
    let jobs = Jobs {
        remove_style_element: Some(RemoveStyleElement(true)),
        convert_ellipse_to_circle: Some(ConvertEllipseToCircle::default()),
        cleanup_enable_background: Some(CleanupEnableBackground::default()),
        ..Jobs::default()
    };
    let slots = jobs.into_iter();
    assert_eq!(slots.len(), 7);
    assert!(matches!(slots[0], Some(Task::CleanupEnableBackground(_))));
    assert!(slots[1].is_none());
    assert!(matches!(slots[2], Some(Task::ConvertEllipseToCircle(_))));
    assert!(slots[3].is_none() && slots[4].is_none() && slots[5].is_none());
    assert!(matches!(slots[6], Some(Task::RemoveStyleElement(_))));
    let jobs = Jobs {
        remove_style_element: Some(RemoveStyleElement(true)),
        convert_path_data: Some(ConvertPathData::default()),
        remove_comments: Some(RemoveComments::default()),
        ..Jobs::default()
    };
    let tasks = jobs.run();
    assert_eq!(tasks.len(), 3);
    assert!(matches!(tasks[0], Task::ConvertPathData(_)));
    assert!(matches!(tasks[1], Task::RemoveComments(_)));
    assert!(matches!(tasks[2], Task::RemoveStyleElement(_)));
}

#[test]
fn an_outcome_of_skip_can_be_skipped() {
    assert!(PrepareOutcome::Skip.can_skip());
    assert!(!PrepareOutcome::Proceed.can_skip());
}

#[test]
fn remove_style_element() {
    let mut job = RemoveStyleElement(true);
    assert_eq!(job.prepare(), PrepareOutcome::Proceed);
    assert!(job.element(None, "style"));
    assert!(!job.element(None, "circle"));
    assert!(!job.element(None, "svg"));
    assert!(!job.element(Some("x"), "style"));
    assert_eq!(RemoveStyleElement(false).prepare(), PrepareOutcome::Skip);
    assert_eq!(RemoveStyleElement::default(), RemoveStyleElement(false));
}

#[test]
fn convert_ellipse_to_circle() {
    let mut job = ConvertEllipseToCircle(true);
    assert_eq!(job.prepare(), PrepareOutcome::Proceed);
    assert_eq!(job.run("ellipse", Some("5"), Some("5")), Some(String::from("5")));
    assert_eq!(job.run("ellipse", Some("auto"), Some("5")), Some(String::from("5")));
    assert_eq!(job.run("ellipse", Some("5"), Some("auto")), Some(String::from("5")));
    assert_eq!(job.run("ellipse", None, None), Some(String::from("0")));
}

#[test]
fn an_ellipse_that_is_no_circle_stays() {
    let job = ConvertEllipseToCircle::default();
    assert_eq!(job, ConvertEllipseToCircle(true));
    assert_eq!(job.run("ellipse", Some("5"), Some("6")), None);
    assert_eq!(job.run("ellipse", Some("5"), None), None);
    assert_eq!(job.run("ellipse", Some("0"), None), Some(String::from("0")));
    assert_eq!(job.run("ellipse", Some("auto"), None), Some(String::from("0")));
    assert_eq!(job.run("ellipse", Some("auto"), Some("auto")), Some(String::from("auto")));
    assert_eq!(job.run("circle", Some("5"), Some("5")), None);
    assert_eq!(ConvertEllipseToCircle(false).prepare(), PrepareOutcome::Skip);
}

#[test]
fn cleanup_list_of_values() {
    let job = CleanupListOfValues::default();
    assert_eq!(job.float_precision, 3);
    assert!(job.leading_zero && job.default_px && job.convert_to_px);
    let options = job.get_options();
    assert_eq!(options.float_precision, 3);
    assert!(options.leading_zero && options.default_px && options.do_convert_to_px);
    assert_eq!(job.get_mode(), Mode::List);
    assert_eq!(default_float_precision(), 3);
    assert!(default_leading_zero() && default_default_px() && default_convert_to_px());
    let other = CleanupListOfValues { float_precision: 1, leading_zero: false, default_px: true, convert_to_px: false };
    let options = other.get_options();
    assert_eq!(options.float_precision, 1);
    assert!(!options.leading_zero && options.default_px && !options.do_convert_to_px);
}

#[test]
fn cleanup_enable_background() {
    let mut job = CleanupEnableBackground::default();
    assert_eq!(job.prepare(Some(true)), PrepareOutcome::Proceed);
    assert!(job.contains_filter);
    // the attribute goes from an svg element of its size
    let cleaned = job.run("svg", None, Some("new 0 0 100.5 .5"), Some("100.5"), Some(".5"));
    assert!(matches!(cleaned.enable_background, AttributeChange::Remove));
    assert_eq!(cleaned.style, None);
    // and stays on one of another size
    let cleaned = job.run("svg", None, Some("new 0 0 100 50"), Some("50"), Some("50"));
    assert!(matches!(cleaned.enable_background, AttributeChange::Keep));
    // on a mask of its size it is cut down
    let cleaned = job.run("mask", None, Some("new 0 0 100 50"), Some("100"), Some("50"));
    assert!(matches!(&cleaned.enable_background, AttributeChange::Assign(value) if value == "new"));
    let cleaned = job.run("pattern", None, Some("new 0 0 100 50"), Some("100"), Some("50"));
    assert!(matches!(&cleaned.enable_background, AttributeChange::Assign(value) if value == "new"));
    let cleaned = job.run("g", None, Some("new 0 0 100 50"), Some("100"), Some("50"));
    assert!(matches!(cleaned.enable_background, AttributeChange::Keep));
    // without a filter it goes
    let mut job = CleanupEnableBackground::default();
    assert_eq!(job.prepare(Some(false)), PrepareOutcome::Proceed);
    let cleaned = job.run("mask", None, Some("new 0 0 100 50"), Some("100"), Some("50"));
    assert!(matches!(cleaned.enable_background, AttributeChange::Remove));
    // and the declaration goes from a style
    let cleaned = job.run("svg", Some("enable-background:new 0 0 100 100"), None, Some("100"), Some("100"));
    assert_eq!(cleaned.style, Some(String::new()));
}

#[test]
fn the_declaration_goes_from_the_style() {
    let job = CleanupEnableBackground { contains_filter: true };
    let style = |text: &str| job.run("g", Some(text), None, None, None).style.unwrap();
    assert_eq!(style("fill:red"), "fill:red");
    assert_eq!(style("fill:red; enable-background : new 0 0 1 1;stroke:blue"), "fill:red;stroke:blue");
    assert_eq!(style("enable-background:new;fill:red"), ";fill:red");
    assert_eq!(style("enable-background:accumulate"), "enable-background:accumulate");
    assert_eq!(style("x-enable-background:new"), "x-enable-background:new");
    assert!(matches!(job.run("g", None, None, None, None).enable_background, AttributeChange::Keep));
}

#[test]
fn the_dimensions_are_the_last_of_five_words() {
    let d = CleanupEnableBackground::get_enabled_background_dimensions("new 0 0 100.5 .5").unwrap();
    assert_eq!((d.width.as_str(), d.height.as_str()), ("100.5", ".5"));
    let d = CleanupEnableBackground::get_enabled_background_dimensions("  new\t0 0\n100   50 ").unwrap();
    assert_eq!((d.width.as_str(), d.height.as_str()), ("100", "50"));
    assert!(CleanupEnableBackground::get_enabled_background_dimensions("new 0 0 100").is_none());
    assert!(CleanupEnableBackground::get_enabled_background_dimensions("new 0 0 100 50 1").is_none());
    assert!(CleanupEnableBackground::get_enabled_background_dimensions("").is_none());
    let d = CleanupEnableBackground::get_enabled_background_dimensions("new 0 0 100 50");
    assert!(CleanupEnableBackground::enabled_background_matches(Some("100"), Some("50"), d));
    let d = CleanupEnableBackground::get_enabled_background_dimensions("new 0 0 100 50");
    assert!(!CleanupEnableBackground::enabled_background_matches(Some("100"), Some("51"), d));
    let d = CleanupEnableBackground::get_enabled_background_dimensions("new 0 0 100 50");
    assert!(!CleanupEnableBackground::enabled_background_matches(None, Some("50"), d));
    assert!(!CleanupEnableBackground::enabled_background_matches(Some("100"), Some("50"), None));
    let mut job = CleanupEnableBackground::default();
    job.prepare_contains_filter(true);
    assert_eq!(job.prepare(None), PrepareOutcome::Proceed);
    assert!(job.contains_filter);
}

#[test]
fn remove_comments() {
    let mut job = RemoveComments::default();
    assert_eq!(job.prepare(), PrepareOutcome::Proceed);
    assert!(job.comment("- test "));
    assert!(job.remove_comment(" test "));
    // a comment that starts with an exclamation mark is preserved
    assert!(!job.comment("!Icon Font v1 by @iconfont - Copyright 2023 Icon Font CIC."));
    // unless no pattern is to preserve any
    let mut none = RemoveComments { preserve_patterns: Some(vec![]) };
    assert!(none.comment("!Icon Font v1 by @iconfont - Copyright 2023 Icon Font CIC."));
}

#[test]
fn a_comment_is_preserved_by_any_of_the_patterns() {
    let job = RemoveComments {
        preserve_patterns: Some(vec![PreservePattern::new("^keep").unwrap(), PreservePattern::new("licen[cs]e").unwrap()]),
    };
    assert!(!job.remove_comment("keep this"));
    assert!(!job.remove_comment("the license"));
    assert!(job.remove_comment("do keep"));
    assert!(job.remove_comment("!important"));
    // a pattern that is no regular expression preserves nothing
    let broken = RemoveComments { preserve_patterns: Some(vec![PreservePattern(String::from("("))]) };
    assert!(broken.remove_comment("("));
}

#[test]
fn a_pattern_is_a_regular_expression() {
    assert_eq!(PreservePattern::new("^!").unwrap().0, "^!");
    assert_eq!(PreservePattern::new("foo(bar").unwrap_err(), DeserializePreservePatternError::InvalidRegex);
    assert_eq!(PreservePattern::deserialize(Some("a|b")).unwrap().0, "a|b");
    assert_eq!(PreservePattern::deserialize(Some("[")).unwrap_err(), DeserializePreservePatternError::InvalidRegex);
    assert_eq!(PreservePattern::deserialize(None).unwrap_err(), DeserializePreservePatternError::InvalidType);
    assert_eq!(DeserializePreservePatternError::InvalidType.to_string(), "expected a string");
    assert_eq!(DeserializePreservePatternError::InvalidRegex.to_string(), "expected valid regex string");
}

#[test]
fn convert_path_data() {
    let job = ConvertPathData::default();
    let style = StyleInfo::default();
    let optimise = |d: &str| job.run(d, &style);
    for d in ["M 10,50", "M 10 50", "M10 50", "M10,50", "M 10 , 50"] {
        assert_eq!(optimise(d), Some(String::from("M10 50")), "{:?}", d);
    }
    for d in ["M -10,-50", "M -10 -50", "M-10 -50", "M-10-50", "M-10,-50", "M -10 , -50"] {
        assert_eq!(optimise(d), Some(String::from("M-10-50")), "{:?}", d);
    }
    assert_eq!(optimise("M10-3.05176e-005"), Some(String::from("M10 0")));
    assert_eq!(optimise("M10-50.2.30-2"), Some(String::from("M10-50.2.3-2")));
    assert_eq!(optimise("M10-50l.2.30"), Some(String::from("m10-50 .2.3")));
    // what is no path data stays untouched
    assert_eq!(optimise("..."), None);
    assert_eq!(optimise(""), None);
    assert_eq!(optimise("M 10,50 L 20,30"), Some(String::from("m10 50 10-20")));
    assert_eq!(optimise("M 10,50 20,60"), Some(String::from("m10 50 10 10")));
    assert_eq!(optimise("M 10,50 M 20,60"), Some(String::from("M20 60")));
    assert_eq!(optimise("M 10,50 L 10,50"), Some(String::from("M10 50")));
    assert_eq!(optimise("M 10,50 L 20,50"), Some(String::from("m10 50h10")));
    assert_eq!(optimise("M 10,50 L 10,60"), Some(String::from("m10 50v10")));
    assert_eq!(optimise("M 10,50 L 20,50 L 30,50 L 40,50"), Some(String::from("m10 50h30")));
    assert_eq!(optimise("M 10,50 L 10,60 L 10,70 L 10,80"), Some(String::from("m10 50v30")));
    assert_eq!(optimise("m 0,0c 0,0 0,0 0,0 s 0,0 0,0"), Some(String::from("M0 0")));
    assert_eq!(optimise("M100,200 C200,200 300,200 400,200"), Some(String::from("m100 200h300")));
    assert_eq!(optimise("M100,200 Q400,200 600,200 T800,200"), Some(String::from("m100 200h700")));
    assert_eq!(optimise("M10 50h30h50"), Some(String::from("m10 50h80")));
    assert_eq!(optimise("M10 50v30v50"), Some(String::from("m10 50v80")));
    assert_eq!(
        optimise("M100,200 C100,100 450,100 250,200 C50,300 400,300 400,200"),
        Some(String::from("m100 200c0-100 350-100 150 0s150 100 150 0"))
    );
    assert_eq!(optimise("m100,200 300,400 z m100,200 L 300,400"), Some(String::from("m100 200 300 400zm100 200h100")));
    assert_eq!(optimise("M 10.3467,50.09 L 10.0000,50.20"), Some(String::from("M10.347 50.09 10 50.2")));
    assert_eq!(optimise("m 10 10 l 1 1 M 20 20"), Some(String::from("m10 10 1 1m9 9")));
    assert_eq!(optimise("M1 1 v8 c0-2 0-4 0-6"), Some(String::from("m1 1v8V3")));
}

#[test]
fn optimised_path_data_ends_where_the_path_data_ends() {
    let job = ConvertPathData::default();
    let style = StyleInfo::default();
    let end = |d: &str| {
        let path = Path::parse(d).unwrap();
        let positioned = oxvg::convert::relative::relative(&path);
        (positioned.0.len(), positioned.0.last().map(|p| p.end).unwrap_or(Point([n("0"), n("0")])))
    };
    for d in [
        "M 10,50 C 20,30 40,50 60,70",
        "M 10,50 C 20,30 40,50 60,70 S 20,30 30,60",
        "M 10,50 Q 30,60 30,70",
        "M 10,50 Q 30,60 30,70 T 40,70",
        "M 10,50 A 20,60 45 0,1 40,70",
        "M 10,50 L 20,30 L 40,60",
        "M 10,50 L 20,30 40,60",
        "M 10,50 C 20,30 40,50 60,70 C 40,40 50,60 70,80",
        "M 10,50 C 20,30 40,50 60,70 40,40 50,60 70,80",
        "M 10,50 C 20,30 40,50 60,70 S 30,30 40,50 S 60,70 80,100",
        "M 10,50 C 20,30 40,50 60,70 S 30,30 40,50 60,70 80,100",
        "M 10,50 Q 30,60 30,70 Q 40,70 50,90",
        "M 10,50 Q 30,60 30,70 40,70 50,90",
        "M 10,50 Q 30,60 30,70 T 40,70 T 50,90",
        "M 10,50 Q 30,60 30,70 T 40,70 50,90",
        "M 10,50 A 20,60 45 0,1 40,70 A 30,50 -30 1,1 50,70",
        "M 10,50 A 20,60 45 0,1 40,70 30,50 -30 1,1 50,70",
        "M0,0 0,5 0,10",
        "M 10,50 l 20,30 L 20,30",
        "M 10,50 c 20,30 40,50 60,70 C 20,30 40,50 60,70",
        "M 10,50 c 20,30 40,50 60,70 s 20,40 40,50 L 10,20",
        "M 10,50 q 20,60 30,70 Q 20,60 30,70",
        "M 10,50 q 20,60 30,70 t 40,70 L 10,20",
        "M 10,50 a 20,60 45 0,1 40,70 A 20,60 45 0,1 40,70",
        "m 0 0 l .1133 1 l .1133 2 l .1133 3",
        "m 0 0 l .0025 3 .0025 2 .0025 3 .0025 2",
        "M 10,50 L 20,30 10,30",
        "M 10,50 L 20,30 20,20",
        "M 10,50 L 20,30 10,30 40,50",
        "M 10,50 L 20,30 20,20 40,50",
        "m 0,0",
        "m 0,0l 0,0",
        "m 0,0h 0",
        "m 0,0v 0",
        "m 0,0q 0,0 0,0 t 0,0",
        "m 0,0a 25,25 -30 0,1 0,0",
        "M100,200 C100,200 250,200 250,200 S300,300 400,210",
        "M100,200 S250,250 250,250 S400,250 500,250",
        "M100,200 Q400,200 600,200 T800,300",
        "M100,200 Q200,200 200,300 T200,500 T300,500",
        "M100,200 Q400,200 600,200 T800,200 T900,300",
        "M100,200 T800,300",
        "M100,200 A0,150 0 0,0 150,150",
        "M100,200 A150,0 0 0,0 150,150",
        "M100,200 c-2.5 10.5-4 21-4 32 0 64 63.5 128 127.5 128s32.5 0 96.5 0 128-64 128-128-64-128-128-128",
        "M100,200 S250,100 250,200 C250,300 300,250 400,200",
        "M100,200 C100,200 250,100 250,200",
        "M200,300 Q400,50 600,300 T1000,300 Q1200,50 1400,300",
        "M10 50h-30h30",
        "M10 50h-30h-50",
        "M10 50v30v-30",
        "M10 50v-30v30",
        "M10 50v-30v-50",
        "M10 50L10 80L10 0",
        "M10 50L10 10L10 80",
        "M10 50l10 10l20 20l10 10",
        "M10 50L80 50L0 50",
        "M10 50L0 50L80 50",
        "M213 543q0 -41 20 -66.5q20 -25.5 50 -45.5l49 228q-54 -4 -86.5 -34q-32.5 -30 -32.5 -82zt0 0zM371 48z",
        "M0 0L0 0c2.761 0 5 2.239 5 5",
        "M0 0L0 0c2.761 0 5 2.239 5 5l5-5",
        "M15 10c-2.761 0-5-2.239-5-5s2.239-5 5-5s5 2.239 5 5l-5 5",
        "M41.008 0.102c1.891 0.387 3.393 1.841 3.849 3.705",
        "M7.234 19.474C6.562 19.811 5.803 20 5 20c-2.761 0-5-2.239-5-5 0-1.767 0.917-3.32 2.301-4.209",
        "M60 0c-2.761 0-5 2.239-5 5s2.239 5 5 5s5-2.239 5-5S62.761 0 60 0z",
        "M15 23.54 c-2.017,0 -3.87,-.7 -5.33,-1.87 -.032,-.023 -.068,-.052 -.11,-.087 .042,.035 .078,.064 .11,.087 .048,.04 .08,.063 .08,.063 ",
        "M-9.5,82.311c-2.657,0-4.81-2.152-4.81-4.811c0-2.656,2.153-4.811,4.81-4.811S-4.69,74.844-4.69,77.5 C-4.69,80.158-6.843,82.311-9.5,82.311z",
        "M1.5,13.4561 C1.5,15.3411 3.033,16.8751 4.918,16.8751 C6.478,16.8751 7.84,15.8201 8.229,14.3101 Z",
    ] {
        let optimised = job.run(d, &style).unwrap();
        let (count, before) = end(d);
        let (_, after) = end(&optimised);
        let allowed = n("0.001").units * count as i64;
        assert!((before.0[0].units - after.0[0].units).abs() <= allowed, "{:?} {:?}", d, optimised);
        assert!((before.0[1].units - after.0[1].units).abs() <= allowed, "{:?} {:?}", d, optimised);
    }
}

#[test]
fn the_style_decides_what_path_data_may_lose() {
    let job = ConvertPathData::default();
    let marked = StyleInfo { has_marker_mid: true, ..StyleInfo::default() };
    assert_eq!(job.run("M0,0 0,5 0,10", &marked), Some(String::from("m0 0v5 5")));
    let capped = StyleInfo { maybe_has_stroke: true, maybe_has_linecap: true, ..StyleInfo::default() };
    assert_eq!(job.run("M0,0 0,0", &capped), Some(String::from("m0 0h0")));
    let butt = StyleInfo { maybe_has_stroke: true, ..StyleInfo::default() };
    assert_eq!(job.run("M0,0 0,0", &butt), Some(String::from("M0 0")));
}

#[test]
fn the_switches_given_override_the_defaults() {
    assert_eq!(ConvertPathData::default().flags(), Flags::default());
    assert_eq!(Flags::from(&ConvertPathData::default()), Flags::default());
    let job = ConvertPathData {
        remove_useless: Some(false),
        force_absolute_path: Some(true),
        utilize_absolute: Some(false),
        float_precision: Some(1),
        ..ConvertPathData::default()
    };
    assert_eq!(
        Flags::from(&job),
        Flags {
            remove_useless_flag: false,
            force_absolute_path_flag: true,
            utilize_absolute_flag: false,
            ..Flags::default()
        }
    );
    let options = job.options();
    assert_eq!(options.precision, 1);
    assert_eq!(options.make_arcs, ArcFitConfig::default());
    assert_eq!(ConvertPathData::default().options().precision, 3);
    assert_eq!(job.run("m10.26 50l0 0", &StyleInfo::default()), Some(String::from("M10.3 50H10.3")));
    assert!(job.use_style(Some("M0 0")));
    assert!(!job.use_style(None));
    let spaced = ConvertPathData { negative_extra_space: Some(false), ..ConvertPathData::default() };
    assert_eq!(spaced.run("M10-50L0-60", &StyleInfo::default()), Some(String::from("M10 -50 0 -60")));
    let arcs = ConvertPathData {
        make_arcs: Some(ArcFitConfig { threshold: n("1"), tolerance: n("2") }),
        ..ConvertPathData::default()
    };
    assert_eq!(arcs.options().make_arcs, ArcFitConfig { threshold: n("1"), tolerance: n("2") });
}

#[test]
fn path_data_beyond_the_bounds_stays_untouched() {
    let job = ConvertPathData::default();
    assert_eq!(job.run("M400000000 0l200000000 0", &StyleInfo::default()), None);
    assert_eq!(job.run("M400000000 0l100000000 0", &StyleInfo::default()), Some(String::from("m400000000 0h100000000")));
}

#[test]
fn remove_off_canvas_paths() {
    let mut job = RemoveOffCanvasPaths { enabled: true, view_box_data: None };
    assert_eq!(job.prepare(), PrepareOutcome::Proceed);
    assert_eq!(job.element(true, None, "svg", false, None, None, Some("0 0 100 100"), None), Verdict::Keep);
    assert_eq!(job.view_box_data, Some(view_box("0", "0", "100", "100")));
    let path = |job: &mut RemoveOffCanvasPaths, d: &str| job.element(false, None, "path", false, None, None, None, Some(d));
    assert_eq!(path(&mut job, "M10 10 h 80 v 80 h -80 z"), Verdict::Keep);
    assert_eq!(path(&mut job, "M10 -90 h 80 v 80 h -80 z"), Verdict::Remove);
    assert_eq!(path(&mut job, "M110 10 h 80 v 80 h -80 z"), Verdict::Remove);
    assert_eq!(path(&mut job, "M10 110 h 80 v 80 h -80 z"), Verdict::Remove);
    assert_eq!(path(&mut job, "M-90 10 h 80 v 80 h -80 z"), Verdict::Remove);
    // a width and a height stand in for a view box
    let mut job = RemoveOffCanvasPaths { enabled: true, view_box_data: None };
    assert_eq!(job.element(true, None, "svg", false, Some("1000"), Some("1000"), None, None), Verdict::Keep);
    assert_eq!(job.view_box_data, Some(view_box("0", "0", "1000", "1000")));
    assert_eq!(path(&mut job, "M10 10 h 80 v 80 h -80 z"), Verdict::Keep);
    assert_eq!(path(&mut job, "M10 -90 h 80 v 80 h -80 z"), Verdict::Remove);
    assert_eq!(path(&mut job, "M110 10 h 80 v 80 h -80 z"), Verdict::Keep);
    // without either nothing is removed
    let mut job = RemoveOffCanvasPaths { enabled: true, view_box_data: None };
    assert_eq!(job.element(true, None, "svg", false, None, None, None, None), Verdict::Keep);
    assert_eq!(job.view_box_data, None);
    assert_eq!(path(&mut job, "M10 -90 h 80 v 80 h -80 z"), Verdict::Keep);
    // curves are held against the view box by their control points
    let mut job = RemoveOffCanvasPaths { enabled: true, view_box_data: Some(view_box("0", "0", "128", "128")) };
    assert_eq!(path(&mut job, "M0 0h128v128H0z"), Verdict::Keep);
    assert_eq!(path(&mut job, "M10.14 51.5c4.07 1.56 7.52 4.47 7.37 11.16"), Verdict::Keep);
    assert_eq!(path(&mut job, "M100 200c4.07 1.56 7.52 4.47 7.37 11.16"), Verdict::Remove);
    assert_eq!(
        path(&mut job, "M20.16 107.3l13.18-12.18m-1.6-5.41l-16.32 6.51M13 84.5h18m77 22.8L94.83 95.12m1.6-5.41l16.32 6.51M115 84.5H98"),
        Verdict::Keep
    );
    // an element with a transform is skipped with what is below it
    let mut job = RemoveOffCanvasPaths { enabled: true, view_box_data: Some(view_box("0", "0", "100", "100")) };
    assert_eq!(job.element(false, None, "path", true, None, None, None, Some("M-100-100h50v50h-50z")), Verdict::Skip);
    assert_eq!(job.element(false, None, "g", true, None, None, None, None), Verdict::Skip);
    assert_eq!(path(&mut job, "M-100-100h50v50h-50z"), Verdict::Remove);
}

#[test]
fn only_paths_are_removed() {
    let mut job = RemoveOffCanvasPaths { enabled: true, view_box_data: Some(view_box("0", "0", "100", "100")) };
    assert_eq!(job.element(false, None, "g", false, None, None, None, Some("M-100-100h50v50h-50z")), Verdict::Keep);
    assert_eq!(job.element(false, Some("x"), "path", false, None, None, None, Some("M-100-100h50v50h-50z")), Verdict::Keep);
    assert_eq!(job.element(false, None, "path", false, None, None, None, None), Verdict::Keep);
    assert_eq!(job.element(false, None, "path", false, None, None, None, Some("no path")), Verdict::Keep);
    // an arc may reach anywhere
    assert_eq!(job.element(false, None, "path", false, None, None, None, Some("M-100-100a5 5 0 0 1 5 5")), Verdict::Keep);
    assert_eq!(job.element(false, None, "path", false, None, None, None, Some("M-100-100q1 1 2 2t1 1")), Verdict::Keep);
    // a svg element that is no root leaves the view box alone
    assert_eq!(job.element(false, None, "svg", false, None, None, Some("0 0 1 1"), None), Verdict::Keep);
    assert_eq!(job.view_box_data, Some(view_box("0", "0", "100", "100")));
    assert_eq!(RemoveOffCanvasPaths { enabled: false, view_box_data: None }.prepare(), PrepareOutcome::Skip);
}

#[test]
fn the_view_box_is_gathered_from_the_root() {
    let gather = RemoveOffCanvasPaths::gather_viewbox_data;
    assert_eq!(gather(None, None, Some("0 0 100 100")), Ok(view_box("0", "0", "100", "100")));
    assert_eq!(gather(Some("5"), Some("5"), Some("-10,-20,30.5,40px")), Ok(view_box("-10", "-20", "30.5", "40")));
    assert_eq!(gather(None, None, Some(" 1px 2 3 4 5 ")), Ok(view_box("1", "2", "3", "4")));
    assert_eq!(gather(None, None, Some("0 0 100")), Err(GatherViewboxDataError::MissingParameter));
    assert_eq!(gather(None, None, Some("")), Err(GatherViewboxDataError::MissingParameter));
    assert_eq!(gather(None, None, Some("0 0 100 x")), Err(GatherViewboxDataError::ParseFloatError));
    assert_eq!(gather(None, None, Some("0, 0, 100, 100")), Err(GatherViewboxDataError::ParseFloatError));
    assert_eq!(gather(None, None, Some("x")), Err(GatherViewboxDataError::ParseFloatError));
    assert_eq!(gather(None, None, Some("900000000 0 900000000 1")), Err(GatherViewboxDataError::ParseFloatError));
    assert_eq!(gather(Some("100"), Some("50px"), None), Ok(view_box("0", "0", "100", "50")));
    assert_eq!(gather(Some(" 100px "), Some("50"), None), Ok(view_box("0", "0", "100", "50")));
    assert_eq!(gather(Some(" 100 "), Some("50"), None), Err(GatherViewboxDataError::ParseFloatError));
    assert_eq!(gather(Some("100%"), Some("50"), None), Err(GatherViewboxDataError::ParseFloatError));
    assert_eq!(gather(Some("100"), None, None), Err(GatherViewboxDataError::MissingViewbox));
    assert_eq!(gather(None, None, None), Err(GatherViewboxDataError::MissingViewbox));
    assert_eq!(ViewBoxData::fallback(n("3"), n("4")), view_box("0", "0", "3", "4"));
    assert!(view_box("0", "0", "3", "4").is_wf());
    let beyond = Number { units: oxvg::number::MAX_UNITS + 1 };
    assert!(!ViewBoxData { right: beyond, ..view_box("0", "0", "3", "4") }.is_wf());
}

#[test]
fn paths_meet_where_their_boxes_do() {
    let a = Path::parse("M0 0h10v10H0z").unwrap();
    assert!(a.intersects(&Path::parse("M5 5l10 10").unwrap()));
    assert!(a.intersects(&Path::parse("M10 10l10 10").unwrap()));
    assert!(!a.intersects(&Path::parse("M11 11l10 10").unwrap()));
    assert!(!a.intersects(&Path::parse("M-5 0V20").unwrap()));
    assert!(a.intersects(&Path::parse("M-5 5H20").unwrap()));
    assert!(a.intersects(&Path::parse("M20 20c0 0 -15 -15 0 10").unwrap()));
    assert!(!a.intersects(&Path::parse("").unwrap()));
    assert!(!Path::parse("").unwrap().intersects(&a));
    assert!(a.intersects(&Path::parse("M20 20a1 1 0 0 0 1 1").unwrap()));
    assert!(a.intersects(&Path::parse("M500000000.5 0").unwrap()));
    assert!(matches!(
        Path::parse("M1 2c-3 4 5 -6 0 0").unwrap().reach(),
        Reach::Known { min: Point([x0, y0]), max: Point([x1, y1]) }
            if (x0, y0, x1, y1) == (n("-2"), n("-4"), n("6"), n("6"))
    ));
    assert!(matches!(Path::parse("").unwrap().reach(), Reach::Empty));
    assert!(matches!(Path::parse("M0 0t1 1").unwrap().reach(), Reach::Unknown));
}

#[test]
fn every_kind_of_segment_is_optimised_to_one_text() {
    let job = ConvertPathData::default();
    let style = StyleInfo::default();
    for (d, optimised) in [
        ("M 10,50 C 20,30 40,50 60,70", "m10 50c10-20 30 0 50 20"),
        ("M 10,50 C 20,30 40,50 60,70 S 20,30 30,60", "m10 50c10-20 30 0 50 20S20 30 30 60"),
        ("M 10,50 Q 30,60 30,70", "m10 50q20 10 20 20"),
        ("M 10,50 Q 30,60 30,70 T 40,70", "m10 50q20 10 20 20t10 0"),
        ("M 10,50 A 20,60 45 0,1 40,70", "m10 50a20 60 45 0 1 30 20"),
        ("M 10,50 L 20,30 L 40,60", "m10 50 10-20 20 30"),
        ("M 10,50 L 20,30 40,60", "m10 50 10-20 20 30"),
        (
            "M 10,50 C 20,30 40,50 60,70 C 40,40 50,60 70,80",
            "m10 50c10-20 30 0 50 20C40 40 50 60 70 80",
        ),
        (
            "M 10,50 C 20,30 40,50 60,70 40,40 50,60 70,80",
            "m10 50c10-20 30 0 50 20C40 40 50 60 70 80",
        ),
        (
            "M 10,50 C 20,30 40,50 60,70 S 30,30 40,50 S 60,70 80,100",
            "m10 50c10-20 30 0 50 20S30 30 40 50s20 20 40 50",
        ),
        (
            "M 10,50 C 20,30 40,50 60,70 S 30,30 40,50 60,70 80,100",
            "m10 50c10-20 30 0 50 20S30 30 40 50s20 20 40 50",
        ),
        ("M 10,50 Q 30,60 30,70 Q 40,70 50,90", "m10 50q20 10 20 20 10 0 20 20"),
        ("M 10,50 Q 30,60 30,70 40,70 50,90", "m10 50q20 10 20 20 10 0 20 20"),
        ("M 10,50 Q 30,60 30,70 T 40,70 T 50,90", "m10 50q20 10 20 20t10 0 10 20"),
        ("M 10,50 Q 30,60 30,70 T 40,70 50,90", "m10 50q20 10 20 20t10 0 10 20"),
        (
            "M 10,50 A 20,60 45 0,1 40,70 A 30,50 -30 1,1 50,70",
            "m10 50a20 60 45 0 1 30 20 30 50-30 1 1 10 0",
        ),
        (
            "M 10,50 A 20,60 45 0,1 40,70 30,50 -30 1,1 50,70",
            "m10 50a20 60 45 0 1 30 20 30 50-30 1 1 10 0",
        ),
        ("M0,0 0,5 0,10", "m0 0v10"),
        ("M0,0 0,0", "M0 0"),
        ("M 10,50 l 20,30 L 20,30", "m10 50 20 30L20 30"),
        (
            "M 10,50 c 20,30 40,50 60,70 C 20,30 40,50 60,70",
            "m10 50c20 30 40 50 60 70C20 30 40 50 60 70",
        ),
        (
            "M 10,50 c 20,30 40,50 60,70 s 20,40 40,50 L 10,20",
            "m10 50c20 30 40 50 60 70s20 40 40 50L10 20",
        ),
        ("M 10,50 q 20,60 30,70 Q 20,60 30,70", "m10 50q20 60 30 70Q20 60 30 70"),
        ("M 10,50 q 20,60 30,70 t 40,70 L 10,20", "m10 50q20 60 30 70t40 70L10 20"),
        (
            "M 10,50 a 20,60 45 0,1 40,70 A 20,60 45 0,1 40,70",
            "m10 50a20 60 45 0 1 40 70 20 60 45 0 1-10-50",
        ),
        ("m 0 0 l .1133 1 l .1133 2 l .1133 3", "m0 0 .113 1 .113 2L.34 6"),
        ("m 0 0 l .0025 3 .0025 2 .0025 3 .0025 2", "m0 0 .003 3 .003 2 .003 3 .003 2"),
        ("M 10,50 L 20,30 10,30", "m10 50 10-20H10"),
        ("M 10,50 L 20,30 20,20", "m10 50 10-20V20"),
        ("M 10,50 L 20,30 10,30 40,50", "m10 50 10-20H10l30 20"),
        ("M 10,50 L 20,30 20,20 40,50", "m10 50 10-20V20l20 30"),
        ("M 10,50 L 20,50 L 30,50", "m10 50h20"),
        ("M 10,50 L 20,50 30,50", "m10 50h20"),
        ("M 10,50 L 10,60 L 10,70", "m10 50v20"),
        ("M 10,50 L 10,60 10,70", "m10 50v20"),
        ("m 0,0", "M0 0"),
        ("m 0,0l 0,0", "M0 0"),
        ("m 0,0h 0", "M0 0"),
        ("m 0,0v 0", "M0 0"),
        ("m 0,0q 0,0 0,0 t 0,0", "M0 0"),
        ("m 0,0a 25,25 -30 0,1 0,0", "M0 0"),
        ("M100,200 C100,200 250,200 250,200 S300,200 400,200", "m100 200h300"),
        ("M100,200 C100,200 250,200 250,200 S300,300 400,210", "m100 200h150s50 100 150 10"),
        ("M100,200 S250,250 250,250 S400,250 500,250", "m100 200 150 50h250"),
        ("M100,200 Q200,200 300,200", "m100 200h200"),
        ("M100,200 Q400,200 600,200 T800,300", "m100 200h500q200 0 200 100"),
        ("M100,200 Q200,200 200,300 T200,500 T300,500", "m100 200q100 0 100 100v200q0 100 100 0"),
        ("M100,200 Q400,200 600,200 T800,200 T900,300", "m100 200h700l100 100"),
        ("M100,200 T800,300", "m100 200 700 100"),
        ("M100,200 A0,150 0 0,0 150,150", "m100 200a0 150 0 0 0 50-50"),
        ("M100,200 A150,0 0 0,0 150,150", "m100 200a150 0 0 0 0 50-50"),
        (
            "M100,200 c-2.5 10.5-4 21-4 32 0 64 63.5 128 127.5 128s32.5 0 96.5 0 128-64 128-128-64-128-128-128",
            "m100 200c-2.5 10.5-4 21-4 32 0 64 63.5 128 127.5 128H320c64 0 128-64 128-128s-64-128-128-128",
        ),
        (
            "M100,200 S250,100 250,200 C250,300 300,250 400,200",
            "m100 200s150-100 150 0 50 50 150 0",
        ),
        ("M100,200 C100,200 250,100 250,200", "m100 200c0 0 150-100 150 0"),
        ("M200,300 Q400,50 600,300 Q 800,550 1000,300", "m200 300q200-250 400 0t400 0"),
        (
            "M200,300 Q400,50 600,300 T1000,300 Q1200,50 1400,300",
            "m200 300q200-250 400 0t400 0 400 0",
        ),
        ("M10 50h30h-30", "m10 50h30H10"),
        ("M10 50h-30h30", "m10 50h-30 30"),
        ("M10 50h-30h-50", "m10 50h-80"),
        ("M10 50v30v-30", "m10 50v30V50"),
        ("M10 50v-30v30", "m10 50V20v30"),
        ("M10 50v-30v-50", "m10 50v-80"),
        ("M10 50L10 80L10 0", "m10 50v30V0"),
        ("M10 50L10 10L10 80", "m10 50V10v70"),
        ("M10 50l10 10l20 20l10 10", "m10 50 10 10 20 20 10 10"),
        ("M10 50L80 50L0 50", "m10 50h70H0"),
        ("M10 50L0 50L80 50", "m10 50H0h80"),
        ("M10 50L0 50M80 50M30 10L10 80", "m10 50H0m30-40L10 80"),
        (
            "M213 543q0 -41 20 -66.5q20 -25.5 50 -45.5l49 228q-54 -4 -86.5 -34q-32.5 -30 -32.5 -82zt0 0zM371 48z",
            "m213 543q0-41 20-66.5t50-45.5l49 228q-54-4-86.5-34T213 543zzM371 48z",
        ),
        ("M0 0L0 0c2.761 0 5 2.239 5 5", "m0 0a5 5 0 0 1 5 5"),
        ("M0 0L0 0c2.761 0 5 2.239 5 5l5-5", "m0 0a5 5 0 0 1 5 5l5-5"),
        ("M15 10c-2.761 0-5-2.239-5-5s2.239-5 5-5s5 2.239 5 5l-5 5", "m15 10a5 5 0 1 1 5-5l-5 5"),
        (
            "M41.008 0.102c1.891 0.387 3.393 1.841 3.849 3.705",
            "m41.008.102a5.006 5.006 0 0 1 3.849 3.705",
        ),
        (
            "M7.234 19.474C6.562 19.811 5.803 20 5 20c-2.761 0-5-2.239-5-5 0-1.767 0.917-3.32 2.301-4.209",
            "m7.234 19.474A4.97 4.97 0 0 1 5 20a5 5 0 0 1-5-5c0-1.767.917-3.32 2.301-4.209",
        ),
        (
            "M60 0c-2.761 0-5 2.239-5 5s2.239 5 5 5s5-2.239 5-5S62.761 0 60 0z",
            "m60 0a5 5 0 1 0 5 5 5 5 0 0 0-5-5z",
        ),
        (
            "M15 23.54 c-2.017,0 -3.87,-.7 -5.33,-1.87 -.032,-.023 -.068,-.052 -.11,-.087 .042,.035 .078,.064 .11,.087 .048,.04 .08,.063 .08,.063 ",
            "m15 23.54c-2.017 0-3.87-.7-5.33-1.87a2.03 2.03 0 0 1-.11-.087q.063.053.11.087c.048.04.08.063.08.063",
        ),
        (
            "M-9.5,82.311c-2.657,0-4.81-2.152-4.81-4.811c0-2.656,2.153-4.811,4.81-4.811S-4.69,74.844-4.69,77.5 C-4.69,80.158-6.843,82.311-9.5,82.311z",
            "m-9.5 82.311a4.809 4.809 0 0 1-4.81-4.811 4.81 4.81 0 1 1 9.62 0 4.81 4.81 0 0 1-4.81 4.811z",
        ),
        (
            "M1.5,13.4561 C1.5,15.3411 3.033,16.8751 4.918,16.8751 C6.478,16.8751 7.84,15.8201 8.229,14.3101 Z",
            "m1.5 13.456a3.422 3.422 0 0 0 3.418 3.419 3.418 3.418 0 0 0 3.311-2.565z",
        ),
    ] {
        assert_eq!(job.run(d, &style), Some(String::from(optimised)), "{:?}", d);
    }
}

#[test]
fn a_job_that_has_nothing_to_do_does_not_stay() {
    let tasks = || {
        vec![
            Task::ConvertEllipseToCircle(ConvertEllipseToCircle::default()),
            Task::ConvertPathData(ConvertPathData::default()),
            Task::RemoveStyleElement(RemoveStyleElement::default()),
        ]
    };
    let names = |tasks: &Vec<Task>| {
        tasks
            .iter()
            .map(|task| match task {
                Task::ConvertEllipseToCircle(_) => "ellipse",
                Task::ConvertPathData(_) => "path",
                Task::RemoveStyleElement(_) => "style",
                _ => "other",
            })
            .collect::<Vec<_>>()
    };
    let all = vec![PrepareOutcome::Proceed, PrepareOutcome::Proceed, PrepareOutcome::Proceed];
    assert_eq!(names(&oxvg::jobs::retain(tasks(), &all)), vec!["ellipse", "path", "style"]);
    let some = vec![PrepareOutcome::Skip, PrepareOutcome::Proceed, PrepareOutcome::Skip];
    assert_eq!(names(&oxvg::jobs::retain(tasks(), &some)), vec!["path"]);
    let none = vec![PrepareOutcome::Skip, PrepareOutcome::Skip, PrepareOutcome::Skip];
    assert!(oxvg::jobs::retain(tasks(), &none).is_empty());
    // a task without an outcome stays
    assert_eq!(names(&oxvg::jobs::retain(tasks(), &vec![PrepareOutcome::Skip])), vec!["path", "style"]);
    assert!(oxvg::jobs::retain(vec![], &some).is_empty());
}
