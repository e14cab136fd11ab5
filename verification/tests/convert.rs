use oxvg::command::Command;
use oxvg::command::Position;
use oxvg::command::ID;
use oxvg::convert::cleanup::cleanup;
use oxvg::convert::cleanup::remove_repeated_moves;
use oxvg::convert::cleanup::switch_leading_move;
use oxvg::convert::filter::filter;
use oxvg::convert::filter::State;
use oxvg::convert::mixed::mixed;
use oxvg::convert::relative::relative;
use oxvg::convert::run;
use oxvg::convert::ArcFitConfig;
use oxvg::convert::ComputedStyle;
use oxvg::convert::Flags;
use oxvg::convert::LineCap;
use oxvg::convert::LineJoin;
use oxvg::convert::Options;
use oxvg::convert::Paint;
use oxvg::convert::StyleInfo;
use oxvg::geometry::Point;
use oxvg::number::Number;
use oxvg::path::Path;
use oxvg::path::PositionedPath;

fn n(text: &str) -> Number {
    Number::parse(text).unwrap()
}

fn point(x: &str, y: &str) -> Point {
    Point([n(x), n(y)])
}

fn options(flags: Flags) -> Options {
    Options { flags, make_arcs: ArcFitConfig::default(), precision: 3 }
}

fn only(set: fn(&mut Flags)) -> Flags {
    let mut flags = Flags::empty();
    set(&mut flags);
    flags
}

fn optimise(d: &str, flags: Flags, style: StyleInfo) -> String {
    let path = Path::parse(d).unwrap();
    assert!(path.is_resolvable());
    run(&path, &options(flags), &style).serialize(flags.negative_extra_space())
}

fn filtered(d: &str, flags: Flags, style: StyleInfo) -> String {
    let path = Path::parse(d).unwrap();
    let positioned = relative(&path);
    let o = options(flags);
    let mut state = State::new(&positioned, &o, &style);
    filter(&positioned, &o, &mut state, &style).take().to_string()
}

fn safe() -> StyleInfo {
    StyleInfo { is_safe_to_use_z: true, ..StyleInfo::default() }
}

#[test]
fn the_default_flags_are_all_but_the_forcing_of_absolute_paths() {
    let flags = Flags::default();
    assert!(flags.remove_useless());
    assert!(flags.smart_arc_rounding());
    assert!(flags.straight_curves());
    assert!(flags.convert_to_q());
    assert!(flags.line_shorthands());
    assert!(flags.collapse_repeated());
    assert!(flags.curve_smooth_shorthands());
    assert!(flags.convert_to_z());
    assert!(!flags.force_absolute_path());
    assert!(flags.negative_extra_space());
    assert!(flags.utilize_absolute());
    assert_eq!(Flags { force_absolute_path_flag: true, ..flags }, Flags::all());
    assert!(!Flags::empty().remove_useless());
}

#[test]
fn the_default_style_allows_nothing() {
    assert_eq!(
        StyleInfo::default(),
        StyleInfo {
            has_marker_mid: false,
            maybe_has_stroke: false,
            maybe_has_linecap: false,
            is_safe_to_use_z: false,
            has_marker: false,
        }
    );
}

#[test]
fn the_style_is_gathered_from_the_computed_properties() {
    let none = ComputedStyle { marker_mid: false, stroke: None, stroke_linecap: None, stroke_linejoin: None };
    assert_eq!(StyleInfo::gather(&none, false), StyleInfo { is_safe_to_use_z: true, ..StyleInfo::default() });
    assert_eq!(
        StyleInfo::gather(&none, true),
        StyleInfo { is_safe_to_use_z: true, has_marker: true, ..StyleInfo::default() }
    );
    let unpainted = ComputedStyle { stroke: Some(Paint::Unpainted), ..none };
    assert!(!StyleInfo::gather(&unpainted, false).maybe_has_stroke);
    assert!(StyleInfo::gather(&unpainted, false).is_safe_to_use_z);
    let stroked = ComputedStyle { stroke: Some(Paint::Painted), ..none };
    assert_eq!(
        StyleInfo::gather(&stroked, false),
        StyleInfo { maybe_has_stroke: true, ..StyleInfo::default() }
    );
    let butt = ComputedStyle { stroke_linecap: Some(LineCap::Butt), ..stroked };
    assert!(!StyleInfo::gather(&butt, false).maybe_has_linecap);
    let square = ComputedStyle { stroke_linecap: Some(LineCap::Square), ..stroked };
    assert!(StyleInfo::gather(&square, false).maybe_has_linecap);
    let round_cap = ComputedStyle { stroke_linecap: Some(LineCap::Round), ..stroked };
    assert!(!StyleInfo::gather(&round_cap, false).is_safe_to_use_z);
    let round_join = ComputedStyle { stroke_linejoin: Some(LineJoin::Round), ..stroked };
    assert!(!StyleInfo::gather(&round_join, false).is_safe_to_use_z);
    let round = ComputedStyle { stroke_linejoin: Some(LineJoin::Round), ..round_cap };
    assert_eq!(
        StyleInfo::gather(&round, false),
        StyleInfo { maybe_has_stroke: true, maybe_has_linecap: true, is_safe_to_use_z: true, ..StyleInfo::default() }
    );
    let bevel = ComputedStyle { stroke_linejoin: Some(LineJoin::Bevel), ..round_cap };
    assert!(!StyleInfo::gather(&bevel, false).is_safe_to_use_z);
    let marked = ComputedStyle { marker_mid: true, ..none };
    assert!(StyleInfo::gather(&marked, false).has_marker_mid);
}

#[test]
fn the_normaliser_rebases_every_command() {
    let path = Path::parse("M10 50L20 30H5V6zL12 52m1 1 2 2").unwrap();
    let positioned = relative(&path);
    assert_eq!(
        positioned,
        PositionedPath(vec![
            Position { command: Command::MoveBy([n("10"), n("50")]), start: point("0", "0"), end: point("10", "50") },
            Position { command: Command::LineBy([n("10"), n("-20")]), start: point("10", "50"), end: point("20", "30") },
            Position { command: Command::HLineBy([n("-15")]), start: point("20", "30"), end: point("5", "30") },
            Position { command: Command::VLineBy([n("-24")]), start: point("5", "30"), end: point("5", "6") },
            Position { command: Command::ClosePath, start: point("5", "6"), end: point("10", "50") },
            Position { command: Command::LineBy([n("2"), n("2")]), start: point("10", "50"), end: point("12", "52") },
            Position { command: Command::MoveBy([n("1"), n("1")]), start: point("12", "52"), end: point("13", "53") },
            Position {
                command: Command::Implicit(Box::new(Command::LineBy([n("2"), n("2")]))),
                start: point("13", "53"),
                end: point("15", "55"),
            },
        ])
    );
}

#[test]
fn the_normaliser_keeps_every_command_in_its_place() {
    let path = Path::parse("M10 50C20 30 40 50 60 70S20 30 30 60Q30 60 30 70T40 70A20 60 45 0 1 40 70").unwrap();
    let positioned = relative(&path);
    assert_eq!(positioned.0.len(), path.0.len());
    for (before, after) in path.0.iter().zip(positioned.0.iter()) {
        assert_eq!(after.command.to_absolute(&after.start), before.to_absolute(&after.start));
        assert!(after.command.id().is_relative());
    }
    assert_eq!(positioned.take().to_string(), "m10 50c10-20 30 0 50 20s-40-40-30-10q0 0 0 10t10 0a20 60 45 0 1 0 0");
}

#[test]
fn a_line_that_leads_nowhere_is_dropped() {
    // the second line to the same point draws nothing
    assert_eq!(optimise("M 10 10 L 20 10 L 20 10", Flags::default(), StyleInfo::default()), "m10 10h10");
    let end = relative(&Path::parse("m10 10h10").unwrap()).0.pop().unwrap().end;
    assert_eq!(end, point("20", "10"));
    assert_eq!(
        optimise("M 10 10 L 20 10 L 20 10", only(|f| f.remove_useless_flag = true), StyleInfo::default()),
        "m10 10 10 0"
    );
    assert_eq!(optimise("M 10 10 L 20 10 L 20 10", Flags::empty(), StyleInfo::default()), "m10 10 10 0 0 0");
}

#[test]
fn a_marker_keeps_every_vertex() {
    let marked = StyleInfo { has_marker_mid: true, ..StyleInfo::default() };
    assert_eq!(optimise("M0 0 L10 0 L10 0", Flags::default(), marked), "m0 0h10 0");
    assert_eq!(optimise("M0 0 L10 0 L10 0", Flags::default(), StyleInfo::default()), "m0 0h10");
    let start = StyleInfo { has_marker: true, ..StyleInfo::default() };
    assert_eq!(optimise("M0 0 L10 0 L10 0", Flags::default(), start), "m0 0h10");
    // a marker at the ends lets lines in one direction be one line
    assert_eq!(filtered("M0 0 L10 0 L10 0", Flags::default(), start), "m0 0h10");
    let apart = Flags { collapse_repeated_flag: false, ..Flags::default() };
    assert_eq!(filtered("M0 0 L10 0 L10 0", apart, start), "m0 0h10 0");
    assert_eq!(filtered("M0 0 L10 0 L10 0", apart, StyleInfo::default()), "m0 0h10");
    assert_eq!(optimise("M0,0 0,5 0,10", Flags::default(), marked), "m0 0v5 5");
    assert_eq!(optimise("M0,0 0,5 0,10", Flags::default(), StyleInfo::default()), "m0 0v10");
}

#[test]
fn a_cap_keeps_a_line_of_no_length() {
    let capped = StyleInfo { maybe_has_stroke: true, maybe_has_linecap: true, ..StyleInfo::default() };
    assert_eq!(optimise("M0,0 0,0", Flags::default(), capped), "m0 0h0");
    let stroked = StyleInfo { maybe_has_stroke: true, ..StyleInfo::default() };
    assert_eq!(optimise("M0,0 0,0", Flags::default(), stroked), "M0 0");
}

#[test]
fn a_straight_curve_becomes_a_line() {
    let flags = only(|f| f.straight_curves_flag = true);
    // the control points lie on the line from start to end
    assert_eq!(optimise("M0 0C10 10 20 20 30 30", flags, StyleInfo::default()), "m0 0 30 30");
    assert_eq!(optimise("M0 0Q10 10 30 30", flags, StyleInfo::default()), "m0 0 30 30");
    assert_eq!(optimise("M100,200 C200,200 300,200 400,200", flags, StyleInfo::default()), "m100 200 300 0");
    assert_eq!(optimise("M100,200 C200,200 300,200 400,200", Flags::default(), StyleInfo::default()), "m100 200h300");
    let path = Path::parse("M0 0C10 10 20 20 30 30").unwrap();
    let out = run(&path, &options(flags), &StyleInfo::default());
    assert_eq!(out.0[1].id(), ID::LineBy);
    // a control point off the line by more than the error keeps the curve
    assert_eq!(optimise("M0 0C10 10.01 20 20 30 30", flags, StyleInfo::default()), "m0 0c10 10.01 20 20 30 30");
    // and one within the error does not
    assert_eq!(optimise("M0 0C10 10.001 20 20 30 30", flags, StyleInfo::default()), "m0 0 30 30");
    assert_eq!(optimise("M0 0C10 10 20 20 30 30", Flags::empty(), StyleInfo::default()), "m0 0c10 10 20 20 30 30");
    // a curve back to its start is no line
    assert_eq!(optimise("M0 0C10 0 20 0 0 0", flags, StyleInfo::default()), "m0 0c10 0 20 0 0 0");
}

#[test]
fn a_cubic_curve_that_is_quadratic_is_lowered() {
    let flags = only(|f| f.convert_to_q_flag = true);
    assert_eq!(optimise("M0 12C4 4 8 4 12 12", flags, StyleInfo::default()), "m0 12q6 -12 12 0");
    assert_eq!(optimise("M0 12C4 4 8 4 12 12", Flags::empty(), StyleInfo::default()), "m0 12c4 -8 8 -8 12 0");
    assert_eq!(optimise("M0 12C4 4 8 5 12 12", flags, StyleInfo::default()), "m0 12c4 -8 8 -7 12 0");
}

#[test]
fn a_line_along_an_axis_is_written_short() {
    let flags = only(|f| f.line_shorthands_flag = true);
    assert_eq!(optimise("M 10,50 L 20,50", flags, StyleInfo::default()), "m10 50h10");
    assert_eq!(optimise("M 10,50 L 10,60", flags, StyleInfo::default()), "m10 50v10");
    assert_eq!(optimise("M 10,50 L 20,60", flags, StyleInfo::default()), "m10 50 10 10");
    assert_eq!(optimise("M 10,50 L 20,50", Flags::empty(), StyleInfo::default()), "m10 50 10 0");
    assert_eq!(optimise("M 10,50 H 20", Flags::empty(), StyleInfo::default()), "m10 50h10");
}

#[test]
fn lines_in_one_direction_are_one_line() {
    assert_eq!(optimise("M10 50h30h50", Flags::default(), StyleInfo::default()), "m10 50h80");
    assert_eq!(optimise("M10 50h-30h-50", Flags::default(), StyleInfo::default()), "m10 50h-80");
    assert_eq!(optimise("M10 50v30v50", Flags::default(), StyleInfo::default()), "m10 50v80");
    assert_eq!(optimise("M10 50h30h-30", Flags::default(), StyleInfo::default()), "m10 50h30H10");
    assert_eq!(optimise("M10 50v30v-30", Flags::default(), StyleInfo::default()), "m10 50v30V50");
    assert_eq!(optimise("M 10,50 L 20,50 L 30,50 L 40,50", Flags::default(), StyleInfo::default()), "m10 50h30");
    let flags = Flags { collapse_repeated_flag: false, ..Flags::default() };
    assert_eq!(optimise("M10 50h30h50", flags, StyleInfo::default()), "m10 50h30 50");
    let marked = StyleInfo { has_marker_mid: true, ..StyleInfo::default() };
    assert_eq!(optimise("M10 50h30h50", Flags::default(), marked), "m10 50h30 50");
}

#[test]
fn a_curve_that_mirrors_the_last_is_written_smooth() {
    assert_eq!(
        optimise("M100,200 C100,100 450,100 250,200 C50,300 400,300 400,200", Flags::default(), StyleInfo::default()),
        "m100 200c0-100 350-100 150 0s150 100 150 0"
    );
    assert_eq!(
        optimise("M200,300 Q400,50 600,300 Q 800,550 1000,300", Flags::default(), StyleInfo::default()),
        "m200 300q200-250 400 0t400 0"
    );
    let flags = Flags { curve_smooth_shorthands_flag: false, ..Flags::default() };
    assert_eq!(
        optimise("M200,300 Q400,50 600,300 Q 800,550 1000,300", flags, StyleInfo::default()),
        "m200 300q200-250 400 0 200 250 400 0"
    );
    // a smooth curve that was read stays smooth
    assert_eq!(
        optimise("M200,300 Q400,50 600,300 T1000,300", flags, StyleInfo::default()),
        "m200 300q200-250 400 0t400 0"
    );
}

#[test]
fn a_smooth_curve_is_written_out_where_the_curve_before_it_goes() {
    // the first curve becomes a line, so the second cannot mirror it
    assert_eq!(
        optimise("M0 0C10 0 20 0 30 0S50 20 60 0", Flags::default(), StyleInfo::default()),
        "m0 0h30c10 0 20 20 30 0"
    );
}

#[test]
fn a_line_back_to_the_start_closes_the_path() {
    assert_eq!(optimise("M0 0L10 0L10 10L0 0", Flags::default(), safe()), "m0 0h10v10z");
    assert_eq!(optimise("M0 0L10 0L10 10L0 0z", Flags::default(), safe()), "m0 0h10v10z");
    assert_eq!(optimise("M10 50h30h-30", Flags::default(), safe()), "m10 50h30z");
}

#[test]
fn a_path_is_not_closed_where_that_is_not_safe() {
    assert_eq!(optimise("M0 0L10 0L10 10L0 0", Flags::default(), StyleInfo::default()), "m0 0h10v10L0 0");
    assert_eq!(optimise("M0 0L10 0L10 10L0 0z", Flags::default(), StyleInfo::default()), "m0 0h10v10L0 0z");
    let flags = Flags { convert_to_z_flag: false, ..Flags::default() };
    assert_eq!(optimise("M0 0L10 0L10 10L0 0", flags, safe()), "m0 0h10v10L0 0");
    for d in ["M0 0L10 0L10 10L0 0", "M0 0L10 0L10 10L0 0z", "M10 50h30h-30", "M0 0L5 5L0 0L5 5L0 0zL0 0"] {
        let closes = |text: &str| text.chars().filter(|c| *c == 'z' || *c == 'Z').count();
        assert_eq!(closes(&optimise(d, Flags::default(), StyleInfo::default())), closes(d));
        assert_eq!(closes(&optimise(d, Flags::all(), StyleInfo::default())), closes(d));
    }
}

#[test]
fn absolute_paths_are_forced() {
    let flags = Flags { force_absolute_path_flag: true, utilize_absolute_flag: false, ..Flags::default() };
    assert_eq!(optimise("m10 50l10 10h5v5c1 1 2 2 3 3", flags, StyleInfo::default()), "M10 50 20 60H25V65L28 68");
    assert_eq!(optimise("m10 50l10 10h5v5c1 1 2 2 3 3", Flags::all(), StyleInfo::default()), "M10 50 20 60H25V65L28 68");
    assert_eq!(optimise("m1 1l1 1", Flags::all(), StyleInfo::default()), "M1 1 2 2");
}

#[test]
fn the_shorter_notation_is_taken() {
    let path = Path::parse("M100 100l-100-100L101 101").unwrap();
    let positioned = relative(&path);
    assert_eq!(positioned.clone().take().to_string(), "m100 100l-100-100l101 101");
    let chosen = mixed(&positioned, &options(Flags::default()));
    // equal lengths keep the relative notation
    assert_eq!(chosen.take().to_string(), "m100 100L0 0l101 101");
}

#[test]
fn the_notation_is_chosen_by_the_rounded_numbers() {
    let path = Path::parse("M1 1L2.0004 2").unwrap();
    let positioned = relative(&path);
    let chosen = mixed(&positioned, &options(Flags::default()));
    // 1.0004 1 rounds to 1 1, as long as 2 2
    assert_eq!(chosen.take(), Path::parse("m1 1l1.0004 1").unwrap());
}

#[test]
fn runs_of_moves_are_one_move() {
    let path = Path::parse("M10 50M20 60m1 1M5 5L6 6m1 1m2 2").unwrap();
    let merged = remove_repeated_moves(&relative(&path));
    assert_eq!(
        merged,
        PositionedPath(vec![
            Position { command: Command::MoveBy([n("5"), n("5")]), start: point("0", "0"), end: point("5", "5") },
            Position { command: Command::LineBy([n("1"), n("1")]), start: point("5", "5"), end: point("6", "6") },
            Position { command: Command::MoveBy([n("3"), n("3")]), start: point("6", "6"), end: point("9", "9") },
        ])
    );
    let absolute = PositionedPath(vec![
        Position { command: Command::MoveTo([n("10"), n("50")]), start: point("0", "0"), end: point("10", "50") },
        Position { command: Command::MoveBy([n("1"), n("2")]), start: point("10", "50"), end: point("11", "52") },
        Position { command: Command::MoveTo([n("3"), n("4")]), start: point("11", "52"), end: point("3", "4") },
    ]);
    assert_eq!(
        remove_repeated_moves(&absolute),
        PositionedPath(vec![Position {
            command: Command::MoveTo([n("3"), n("4")]),
            start: point("0", "0"),
            end: point("3", "4"),
        }])
    );
}

#[test]
fn the_leading_move_takes_the_notation_of_its_line() {
    let mut path = PositionedPath(vec![
        Position { command: Command::MoveBy([n("10"), n("50")]), start: point("0", "0"), end: point("10", "50") },
        Position { command: Command::LineTo([n("20"), n("60")]), start: point("10", "50"), end: point("20", "60") },
    ]);
    switch_leading_move(&mut path);
    assert_eq!(path.clone().take().to_string(), "M10 50 20 60");
    assert_eq!(path.0[1].command, Command::Implicit(Box::new(Command::LineTo([n("20"), n("60")]))));
    let mut other = PositionedPath(vec![
        Position { command: Command::MoveTo([n("10"), n("50")]), start: point("0", "0"), end: point("10", "50") },
        Position { command: Command::LineBy([n("10"), n("10")]), start: point("10", "50"), end: point("20", "60") },
    ]);
    switch_leading_move(&mut other);
    assert_eq!(other.clone().take().to_string(), "m10 50 10 10");
}

#[test]
fn the_line_after_the_leading_move_goes_without_its_letter() {
    // a move and a line of one notation: the move stays, the line goes implicit
    let mut absolute = PositionedPath(vec![
        Position { command: Command::MoveTo([n("10"), n("50")]), start: point("0", "0"), end: point("10", "50") },
        Position { command: Command::LineTo([n("20"), n("60")]), start: point("10", "50"), end: point("20", "60") },
        Position { command: Command::LineTo([n("0"), n("0")]), start: point("20", "60"), end: point("0", "0") },
    ]);
    let before = absolute.clone();
    switch_leading_move(&mut absolute);
    assert_eq!(absolute.0[0], before.0[0]);
    assert_eq!(absolute.0[1].command, Command::Implicit(Box::new(Command::LineTo([n("20"), n("60")]))));
    assert_eq!(absolute.0[2], before.0[2]);
    for (after, before) in absolute.0.iter().zip(before.0.iter()) {
        assert_eq!((after.start, after.end), (before.start, before.end));
    }
    assert!(absolute.is_chained());
    assert_eq!(absolute.clone().take().to_string(), "M10 50 20 60L0 0");
    let mut relative_pair = PositionedPath(vec![
        Position { command: Command::MoveBy([n("10"), n("50")]), start: point("0", "0"), end: point("10", "50") },
        Position { command: Command::LineBy([n("10"), n("10")]), start: point("10", "50"), end: point("20", "60") },
    ]);
    switch_leading_move(&mut relative_pair);
    assert_eq!(relative_pair.0[0].command, Command::MoveBy([n("10"), n("50")]));
    assert_eq!(relative_pair.0[1].command, Command::Implicit(Box::new(Command::LineBy([n("10"), n("10")]))));
    assert_eq!(relative_pair.clone().take().to_string(), "m10 50 10 10");
    // a line that goes without its letter already is left alone, whatever its notation
    for (first, second) in [
        (Command::MoveBy([n("10"), n("50")]), Command::LineTo([n("20"), n("60")])),
        (Command::MoveTo([n("10"), n("50")]), Command::LineBy([n("10"), n("10")])),
        (Command::MoveBy([n("10"), n("50")]), Command::LineBy([n("10"), n("10")])),
        (Command::MoveTo([n("10"), n("50")]), Command::LineTo([n("20"), n("60")])),
    ] {
        let mut tagged = PositionedPath(vec![
            Position { command: first, start: point("0", "0"), end: point("10", "50") },
            Position { command: Command::Implicit(Box::new(second)), start: point("10", "50"), end: point("20", "60") },
        ]);
        let before = tagged.clone();
        switch_leading_move(&mut tagged);
        assert_eq!(tagged, before);
    }
    // switching what was switched changes nothing
    let once = absolute.clone();
    switch_leading_move(&mut absolute);
    assert_eq!(absolute, once);
    let once = relative_pair.clone();
    switch_leading_move(&mut relative_pair);
    assert_eq!(relative_pair, once);
    // nothing but a line after a move is touched
    for d in ["M10 50H20", "M10 50C1 2 3 4 5 6", "M10 50z", "M10 50"] {
        let mut path = relative(&Path::parse(d).unwrap());
        let before = path.clone();
        switch_leading_move(&mut path);
        assert_eq!(path, before, "{:?}", d);
    }
}

#[test]
fn a_lone_move_is_absolute() {
    assert_eq!(cleanup(&relative(&Path::parse("m10 50").unwrap())).take().to_string(), "M10 50");
    assert_eq!(cleanup(&relative(&Path::parse("m10 50m1 1").unwrap())).take().to_string(), "M11 51");
    assert_eq!(optimise("M 10,50", Flags::default(), StyleInfo::default()), "M10 50");
    assert_eq!(optimise("M 10,50 M 20,60", Flags::default(), StyleInfo::default()), "M20 60");
}

#[test]
fn cleaning_up_twice_is_cleaning_up_once() {
    for d in ["m10 50", "M10 50M20 60m1 1M5 5L6 6m1 1m2 2", "m10 50L20 60", "M10 50l20 60", "M0 0zm1 1m2 2z", ""] {
        let once = cleanup(&relative(&Path::parse(d).unwrap()));
        assert_eq!(cleanup(&once), once, "{:?}", d);
    }
}

#[test]
fn a_marker_keeps_a_vertex_to_sit_on() {
    let marked = StyleInfo { has_marker: true, is_safe_to_use_z: true, ..StyleInfo::default() };
    let capless = Flags::default();
    // the line is all there is to draw; without it a close stands in
    let path = Path::parse("M10 10L10 10").unwrap();
    let mut o = options(capless);
    o.flags.remove_useless_flag = true;
    let out = run(&path, &o, &marked);
    assert!(out.0.iter().any(|c| !c.id().is_move()));
    for d in ["M10 10L10 10", "M0 0L10 0", "M0 0zm1 1z", "m0 0l0 0l0 0"] {
        let path = Path::parse(d).unwrap();
        let out = run(&path, &options(Flags::default()), &marked);
        assert!(out.0.iter().any(|c| !c.id().is_move()), "{:?}", d);
    }
    // a path of moves alone gets none
    assert_eq!(optimise("M10 10M20 20", Flags::default(), marked), "M20 20");
}

#[test]
fn a_close_stands_in_for_the_commands_that_went() {
    let path = PositionedPath(vec![
        Position { command: Command::MoveBy([n("10"), n("10")]), start: point("0", "0"), end: point("10", "10") },
    ]);
    assert_eq!(path.take().to_string(), "m10 10");
    // with a marker at the ends nothing is dropped for being useless, so a
    // path loses its last vertex only by closing
    let marked = StyleInfo { has_marker: true, ..StyleInfo::default() };
    assert_eq!(optimise("M10 10L10 10", Flags::default(), marked), "m10 10h0");
}

#[test]
fn an_empty_path_stays_empty() {
    assert_eq!(optimise("", Flags::default(), StyleInfo::default()), "");
    assert_eq!(optimise("", Flags::default(), StyleInfo { has_marker: true, ..StyleInfo::default() }), "");
}

#[test]
fn every_number_is_rounded_at_the_end() {
    assert_eq!(optimise("M 10.3467,50.09 L 10.0000,50.20", Flags::default(), StyleInfo::default()), "M10.347 50.09 10 50.2");
    assert_eq!(optimise("M0.12344999 0", Flags::default(), StyleInfo::default()), "M.123 0");
    let mut o = options(Flags::default());
    o.precision = 0;
    let path = Path::parse("M1.5 2.4L3.5 -0.5").unwrap();
    assert_eq!(run(&path, &o, &StyleInfo::default()).to_string(), "m2 2 2-3");
}

#[test]
fn optimising_what_was_optimised_changes_nothing() {
    for d in [
        "M 10 10 L 20 10 L 20 10",
        "M 10,50 C 20,30 40,50 60,70 S 20,30 30,60",
        "M 10,50 Q 30,60 30,70 T 40,70",
        "M 10,50 A 20,60 45 0,1 40,70",
        "M10 50h30h-30",
        "M0 0L10 0L10 10L0 0z",
        "M100,200 C100,100 450,100 250,200 C50,300 400,300 400,200",
        "m100,200 300,400 z m100,200 L 300,400",
        "M10 50L0 50M80 50M30 10L10 80",
        "M1 1 v8 c0-2 0-4 0-6",
        "M 10,50",
        "",
    ] {
        for style in [StyleInfo::default(), safe()] {
            let once = optimise(d, Flags::default(), style);
            assert_eq!(optimise(&once, Flags::default(), style), once, "{:?}", d);
        }
    }
}

#[test]
fn the_optimised_text_is_no_longer() {
    for d in [
        "M 10 10 L 20 10 L 20 10",
        "M 10,50 C 20,30 40,50 60,70 S 20,30 30,60",
        "M 10,50 Q 30,60 30,70 T 40,70",
        "M 10,50 A 20,60 45 0,1 40,70",
        "M10 50h30h-30",
        "M0 0L10 0L10 10L0 0z",
        "M100,200 C100,100 450,100 250,200 C50,300 400,300 400,200",
        "M10 50L0 50M80 50M30 10L10 80",
        "M100 100L0 0",
        "M 10,50",
    ] {
        let path = Path::parse(d).unwrap();
        let before = path.to_string();
        assert!(optimise(d, Flags::default(), StyleInfo::default()).len() <= before.len(), "{:?}", d);
    }
}

#[test]
fn the_state_of_the_filter_follows_the_commands() {
    let path = Path::parse("M0 0C1 2 3 4 5 6").unwrap();
    let positioned = relative(&path);
    let o = options(Flags::empty());
    let style = StyleInfo::default();
    let mut state = State::new(&positioned, &o, &style);
    assert_eq!(state.read, Some(Command::ClosePath));
    assert_eq!(state.subpath, point("0", "0"));
    let out = filter(&positioned, &o, &mut state, &style);
    assert_eq!(out.0.len(), 2);
    assert_eq!(state.read, Some(Command::CurveBy([n("1"), n("2"), n("3"), n("4"), n("5"), n("6")])));
    assert_eq!(state.written, state.read);
    assert_eq!(state.subpath, point("0", "0"));
}

#[test]
fn normalising_twice_is_normalising_once() {
    for d in ["M10 50L20 30H5V6zL12 52m1 1 2 2", "M10 50C20 30 40 50 60 70S20 30 30 60Q30 60 30 70T40 70", ""] {
        let once = relative(&Path::parse(d).unwrap());
        assert_eq!(relative(&once.clone().take()), once, "{:?}", d);
    }
}

#[test]
fn choosing_the_notation_twice_is_choosing_it_once() {
    for d in ["M100 100l-100-100L101 101", "M1 1L2.0004 2", "M10 50h30h-30zl5 5", ""] {
        for flags in [Flags::default(), Flags::all()] {
            let once = mixed(&relative(&Path::parse(d).unwrap()), &options(flags));
            assert_eq!(mixed(&once, &options(flags)), once, "{:?}", d);
        }
    }
}

#[test]
fn the_chosen_notation_is_no_longer() {
    let o = options(Flags::default());
    for d in ["M100 100l-100-100L101 101", "M1 1L2.0004 2", "M10 50h30H-30zl5 5C1 2 3 4 5 6"] {
        let before = relative(&Path::parse(d).unwrap());
        let after = mixed(&before, &o);
        for (b, a) in before.0.iter().zip(after.0.iter()) {
            let round = |c: &Command| oxvg::convert::round_command(c, &o);
            let length = |c: &Command| Path(vec![round(c).as_explicit()]).serialize(true).len();
            assert!(length(&a.command) <= length(&b.command), "{:?}", d);
        }
    }
}

#[test]
fn the_filter_moves_no_vertex() {
    for d in [
        "M 10 10 L 20 10 L 20 10",
        "M10 50h30h50v5v5",
        "M0 0c2.761 0 5 2.239 5 5s-2.239 5-5 5L0 0z",
        "M100,200 C100,100 450,100 250,200 C50,300 400,300 400,200",
    ] {
        let before = relative(&Path::parse(d).unwrap());
        let o = options(Flags::default());
        let style = safe();
        let mut state = State::new(&before, &o, &style);
        let after = filter(&before, &o, &mut state, &style);
        assert_eq!(after.0.last().unwrap().end, before.0.last().unwrap().end);
        for position in &after.0 {
            assert!(before.0.iter().any(|p| p.end == position.end), "{:?}", d);
        }
        // what is written is chained
        let mut at = point("0", "0");
        for position in &after.0 {
            assert_eq!(position.start, at);
            at = position.end;
        }
    }
}

#[test]
fn positions_are_chained_or_not() {
    let path = relative(&Path::parse("M10 50L20 30H5V6zL12 52m1 1 2 2").unwrap());
    assert!(path.is_chained());
    assert!(PositionedPath(vec![]).is_chained());
    // a command that starts elsewhere than the last ended
    let mut apart = path.clone();
    apart.0[2].start = point("0", "0");
    assert!(!apart.is_chained());
    // a command that ends elsewhere than it leads
    let mut astray = path.clone();
    astray.0[1].end = point("20", "31");
    astray.0[2].start = point("20", "31");
    assert!(!astray.is_chained());
    // a close that ends elsewhere than at the start of its subpath
    let mut open = path.clone();
    open.0[4].end = point("0", "0");
    open.0[5].start = point("0", "0");
    assert!(!open.is_chained());
    // a command beyond the bounds
    let far = PositionedPath(vec![Position {
        command: Command::MoveTo([n("500000001"), n("0")]),
        start: point("0", "0"),
        end: point("500000001", "0"),
    }]);
    assert!(!far.is_chained());
    assert!(!point("500000001", "0").is_in_bounds());
    assert!(point("-500000000", "500000000").is_in_bounds());
}

#[test]
fn a_path_of_numbers_in_range_is_well_formed() {
    assert!(Path::parse("M10 50L20 30").unwrap().is_wf());
    assert!(Path(vec![]).is_wf());
    let beyond = Number { units: oxvg::number::MAX_UNITS + 1 };
    assert!(!Path(vec![Command::MoveTo([n("1"), beyond])]).is_wf());
    assert!(!Path(vec![Command::MoveTo([n("1"), n("1")]), Command::Implicit(Box::new(Command::HLineBy([beyond])))]).is_wf());
}

#[test]
fn with_the_switches_off_nothing_that_is_drawn_changes() {
    let shapes = Flags {
        line_shorthands_flag: true,
        curve_smooth_shorthands_flag: true,
        utilize_absolute_flag: true,
        negative_extra_space_flag: true,
        ..Flags::empty()
    };
    let marked = StyleInfo { has_marker: true, has_marker_mid: true, ..StyleInfo::default() };
    for d in [
        "M10 50C20 30 40 50 60 70S20 30 30 60L5.5 5H3V3z",
        "M10 50L10 50L10 50",
        "M0 0L10 0L20 0L20 0",
        "M1.125 2.5Q3 4 5 6T9 9t1 1a5 5 0 0 1 5 5zm1 1l0 0",
        "m100 200s150-100 150 0 50 50 150 0",
        "M5 5h0v0zM7 7",
    ] {
        let path = Path::parse(d).unwrap();
        let before = relative(&path);
        for flags in [Flags::empty(), shapes] {
            for style in [StyleInfo::default(), safe(), marked] {
                let optimised = run(&path, &options(flags), &style);
                let after = relative(&optimised);
                assert_eq!(after.0.len(), before.0.len(), "{:?}", d);
                for (a, b) in after.0.iter().zip(before.0.iter()) {
                    assert_eq!(a.start, b.start, "{:?}", d);
                    assert_eq!(a.end, b.end, "{:?}", d);
                    assert_eq!(a.command.id().is_move(), b.command.id().is_move(), "{:?}", d);
                }
                // and what is returned is at rest
                let again = run(&optimised, &options(flags), &style);
                assert_eq!(again.to_string(), optimised.to_string(), "{:?}", d);
                assert_eq!(again.0.len(), optimised.0.len());
            }
        }
    }
    // the control points stay where they are
    assert_eq!(
        optimise("M10 50C20 30 40 50 60 70S20 30 30 60", Flags::empty(), StyleInfo::default()),
        "m10 50c10 -20 30 0 50 20s-40 -40 -30 -10"
    );
    assert_eq!(optimise("M10 50C20 30 40 50 60 70S20 30 30 60", shapes, marked), "m10 50c10-20 30 0 50 20S20 30 30 60");
}

#[test]
fn a_number_with_no_more_places_than_the_precision_is_at_rest() {
    let o = options(Flags::empty());
    let error = o.error();
    for text in ["0", "1.25", "-0.001", "12.345", "-100000.5"] {
        assert_eq!(o.round(n(text), error), n(text), "{:?}", text);
    }
    assert_eq!(o.round(n("12.3456"), error), n("12.346"));
    let whole = Options { precision: 0, ..o };
    assert_eq!(whole.round(n("-7"), whole.error()), n("-7"));
}

#[test]
fn merged_moves_keep_the_notation_of_the_first() {
    let flags = Flags { utilize_absolute_flag: true, negative_extra_space_flag: true, ..Flags::empty() };
    let path = Path::parse("M0 0L100 100M1 1M150 150").unwrap();
    let once = run(&path, &options(flags), &StyleInfo::default());
    assert_eq!(once.to_string(), "m0 0 100 100M150 150");
    // the notation of the one move is chosen when it is read again
    let twice = run(&once, &options(flags), &StyleInfo::default());
    assert_eq!(twice.to_string(), "m0 0 100 100m50 50");
    let thrice = run(&twice, &options(flags), &StyleInfo::default());
    assert_eq!(thrice.to_string(), "m0 0 100 100m50 50");
    // what is drawn stays: one line
    let before = relative(&path);
    for optimised in [&once, &twice] {
        let after = relative(optimised);
        assert_eq!(after.0.len(), 3);
        assert_eq!(after.0[1].start, before.0[1].start);
        assert_eq!(after.0[1].end, before.0[1].end);
        assert_eq!(after.0[2].end, before.0[3].end);
    }
    let leading = Path::parse("M1 1M2 2L3 3").unwrap();
    assert_eq!(run(&leading, &options(flags), &StyleInfo::default()).to_string(), "m2 2 1 1");
}

#[test]
fn a_command_that_no_longer_continues_gets_its_letter_back() {
    let o = options(Flags { utilize_absolute_flag: true, negative_extra_space_flag: true, ..Flags::empty() });
    // the line is shorter in absolute notation, which does not continue a relative move
    let path = PositionedPath(vec![
        Position { command: Command::MoveBy([n("10"), n("-50.2")]), start: point("0", "0"), end: point("10", "-50.2") },
        Position {
            command: Command::Implicit(Box::new(Command::LineBy([n("-9.7"), n("48.2")]))),
            start: point("10", "-50.2"),
            end: point("0.3", "-2"),
        },
        Position {
            command: Command::Implicit(Box::new(Command::LineBy([n("1"), n("1")]))),
            start: point("0.3", "-2"),
            end: point("1.3", "-1"),
        },
    ]);
    let chosen = mixed(&path, &o);
    assert_eq!(chosen.0[0].command, Command::MoveBy([n("10"), n("-50.2")]));
    assert_eq!(chosen.0[1].command, Command::LineTo([n("0.3"), n("-2")]));
    // a relative line does not continue an absolute one
    assert_eq!(chosen.0[2].command, Command::LineBy([n("1"), n("1")]));
    for (after, before) in chosen.0.iter().zip(path.0.iter()) {
        assert_eq!((after.start, after.end), (before.start, before.end));
    }
    assert!(chosen.is_chained());
    assert_eq!(mixed(&chosen, &o), chosen);
    // the cleanup pass then finds a move and a line with their letters
    assert_eq!(cleanup(&chosen).take().to_string(), "M10-50.2.3-2l1 1");
    // a tag that still holds stays
    let lines = PositionedPath(vec![
        Position { command: Command::MoveBy([n("10"), n("50")]), start: point("0", "0"), end: point("10", "50") },
        Position {
            command: Command::Implicit(Box::new(Command::LineBy([n("1"), n("1")]))),
            start: point("10", "50"),
            end: point("11", "51"),
        },
        Position { command: Command::LineBy([n("2"), n("2")]), start: point("11", "51"), end: point("13", "53") },
    ]);
    let kept = mixed(&lines, &o);
    assert_eq!(kept, lines);
    // where absolute paths are forced every command changes, and the tags hold
    let forced = mixed(&lines, &options(Flags { force_absolute_path_flag: true, ..Flags::empty() }));
    assert_eq!(forced.0[0].command, Command::MoveTo([n("10"), n("50")]));
    assert_eq!(forced.0[1].command, Command::Implicit(Box::new(Command::LineTo([n("11"), n("51")]))));
    assert_eq!(forced.0[2].command, Command::LineTo([n("13"), n("53")]));
}

#[test]
fn with_the_switches_off_an_arc_keeps_its_ends_and_has_its_radii_rounded() {
    let o = options(Flags::empty());
    for (d, expected) in [
        ("M0 0A1.23456 2.5 30.12345 0 1 2 2L3 3", "m0 0a1.235 2.5 30.123 0 1 2 2l1 1"),
        ("M1 1a5.55555 5.55555 0 1 0 4 4", "m1 1a5.556 5.556 0 1 0 4 4"),
    ] {
        let path = Path::parse(d).unwrap();
        let optimised = run(&path, &o, &StyleInfo::default());
        assert_eq!(optimised.to_string(), expected);
        let before = relative(&path);
        let after = relative(&optimised);
        assert_eq!(after.0.len(), before.0.len());
        for (a, b) in after.0.iter().zip(before.0.iter()) {
            assert_eq!((a.start, a.end), (b.start, b.end), "{:?}", d);
            assert_eq!(a.command.id(), b.command.id(), "{:?}", d);
        }
        assert_eq!(run(&optimised, &o, &StyleInfo::default()).to_string(), expected);
    }
}

#[test]
fn rounding_may_move_a_walk_out_of_the_bounds() {
    let whole = Options { flags: Flags::empty(), make_arcs: ArcFitConfig::default(), precision: 0 };
    let path = Path::parse("M499999999.5 0l0.5 0").unwrap();
    assert!(path.is_resolvable());
    let optimised = run(&path, &whole, &StyleInfo::default());
    assert_eq!(optimised.to_string(), "m500000000 0 1 0");
    assert!(!optimised.is_resolvable());
    // a path without a number to round stays within them
    let at_rest = Path::parse("M499999999 0l1 0").unwrap();
    let optimised = run(&at_rest, &whole, &StyleInfo::default());
    assert_eq!(optimised.to_string(), "m499999999 0 1 0");
    assert!(optimised.is_resolvable());
}
