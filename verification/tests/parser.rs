use oxvg::command::Command;
use oxvg::number::Number;
use oxvg::parser::PathParseError;
use oxvg::path::Path;

fn n(text: &str) -> Number {
    Number::parse(text).unwrap()
}

fn implicit(command: Command) -> Command {
    Command::Implicit(Box::new(command))
}

#[test]
fn commands_are_read_with_their_arguments() {
    let path = Path::parse("M 10,50 L 20,30 H 5 v -2 z").unwrap();
    assert_eq!(
        path,
        Path(vec![
            Command::MoveTo([n("10"), n("50")]),
            Command::LineTo([n("20"), n("30")]),
            Command::HLineTo([n("5")]),
            Command::VLineBy([n("-2")]),
            Command::ClosePath,
        ])
    );
}

#[test]
fn every_kind_of_command_is_read() {
    let path = Path::parse(
        "m1 2l3 4h5v6c1 2 3 4 5 6s1 2 3 4q1 2 3 4t1 2a1 2 3 0 1 4 5ZM1 2L3 4H5V6C1 2 3 4 5 6S1 2 3 4Q1 2 3 4T1 2A1 2 3 1 0 4 5z",
    )
    .unwrap();
    assert_eq!(
        path,
        Path(vec![
            Command::MoveBy([n("1"), n("2")]),
            Command::LineBy([n("3"), n("4")]),
            Command::HLineBy([n("5")]),
            Command::VLineBy([n("6")]),
            Command::CurveBy([n("1"), n("2"), n("3"), n("4"), n("5"), n("6")]),
            Command::SmoothCurveBy([n("1"), n("2"), n("3"), n("4")]),
            Command::QuadBy([n("1"), n("2"), n("3"), n("4")]),
            Command::SmoothQuadBy([n("1"), n("2")]),
            Command::ArcBy([n("1"), n("2"), n("3"), n("0"), n("1"), n("4"), n("5")]),
            Command::ClosePath,
            Command::MoveTo([n("1"), n("2")]),
            Command::LineTo([n("3"), n("4")]),
            Command::HLineTo([n("5")]),
            Command::VLineTo([n("6")]),
            Command::CurveTo([n("1"), n("2"), n("3"), n("4"), n("5"), n("6")]),
            Command::SmoothCurveTo([n("1"), n("2"), n("3"), n("4")]),
            Command::QuadTo([n("1"), n("2"), n("3"), n("4")]),
            Command::SmoothQuadTo([n("1"), n("2")]),
            Command::ArcTo([n("1"), n("2"), n("3"), n("1"), n("0"), n("4"), n("5")]),
            Command::ClosePath,
        ])
    );
}

#[test]
fn separators_are_optional_where_a_sign_or_a_point_separates() {
    let expected = Path(vec![Command::MoveTo([n("10"), n("-50")])]);
    for text in ["M10-50", "M 10 -50", "M10,-50", "M 10 , -50", " M10\t-50\n", "M10\r\n-50"] {
        assert_eq!(Path::parse(text).unwrap(), expected, "{:?}", text);
    }
    assert_eq!(
        Path::parse("M10-50.2.30-2").unwrap(),
        Path(vec![
            Command::MoveTo([n("10"), n("-50.2")]),
            implicit(Command::LineTo([n(".30"), n("-2")])),
        ])
    );
    assert_eq!(
        Path::parse("M10-50l.2.30").unwrap(),
        Path(vec![Command::MoveTo([n("10"), n("-50")]), Command::LineBy([n(".2"), n(".3")])])
    );
}

#[test]
fn an_exponent_belongs_to_its_number() {
    assert_eq!(
        Path::parse("M10-3.05176e-005").unwrap(),
        Path(vec![Command::MoveTo([n("10"), Number { units: -30_517 }])])
    );
}

#[test]
fn arguments_without_a_letter_repeat_the_command() {
    assert_eq!(
        Path::parse("M 10,50 20,60 30,70").unwrap(),
        Path(vec![
            Command::MoveTo([n("10"), n("50")]),
            implicit(Command::LineTo([n("20"), n("60")])),
            implicit(Command::LineTo([n("30"), n("70")])),
        ])
    );
    assert_eq!(
        Path::parse("m 10,50 20,60").unwrap(),
        Path(vec![
            Command::MoveBy([n("10"), n("50")]),
            implicit(Command::LineBy([n("20"), n("60")])),
        ])
    );
    assert_eq!(
        Path::parse("M0 0h1 2v3 4").unwrap(),
        Path(vec![
            Command::MoveTo([n("0"), n("0")]),
            Command::HLineBy([n("1")]),
            implicit(Command::HLineBy([n("2")])),
            Command::VLineBy([n("3")]),
            implicit(Command::VLineBy([n("4")])),
        ])
    );
}

#[test]
fn the_flags_of_an_arc_are_single_characters() {
    assert_eq!(
        Path::parse("M0 0a20 60 45 0140 70").unwrap(),
        Path(vec![
            Command::MoveTo([n("0"), n("0")]),
            Command::ArcBy([n("20"), n("60"), n("45"), n("0"), n("1"), n("40"), n("70")]),
        ])
    );
    assert_eq!(Path::parse("M0 0a20 60 45 2 1 40 70"), Err(PathParseError::MalformedNumber(14)));
}

#[test]
fn an_empty_text_is_an_empty_path() {
    assert_eq!(Path::parse("").unwrap(), Path(vec![]));
    assert_eq!(Path::parse(" \n\t ").unwrap(), Path(vec![]));
}

#[test]
fn an_unknown_letter_is_refused() {
    assert_eq!(Path::parse("M 10 10 X 5 5"), Err(PathParseError::UnknownCommand(8)));
    assert_eq!(Path::parse("..."), Err(PathParseError::UnknownCommand(0)));
    assert_eq!(Path::parse("10 10"), Err(PathParseError::UnknownCommand(0)));
    assert_eq!(Path::parse("M0 0z1 1"), Err(PathParseError::UnknownCommand(5)));
}

#[test]
fn a_malformed_number_is_refused() {
    assert_eq!(Path::parse("M 10 x"), Err(PathParseError::MalformedNumber(5)));
    assert_eq!(Path::parse("M 10"), Err(PathParseError::MalformedNumber(4)));
    assert_eq!(Path::parse("M 10 -"), Err(PathParseError::MalformedNumber(5)));
    assert_eq!(Path::parse("M 1e10 0"), Err(PathParseError::MalformedNumber(2)));
    assert_eq!(Path::parse("M0 0 1"), Err(PathParseError::MalformedNumber(6)));
}

#[test]
fn a_path_starts_with_a_move() {
    assert_eq!(Path::parse("L 10 10"), Err(PathParseError::MissingMove));
    assert_eq!(Path::parse("z"), Err(PathParseError::MissingMove));
    assert!(Path::parse("m 10 10").is_ok());
}

#[test]
fn a_path_that_was_read_is_well_within_reach() {
    assert!(Path::parse("M0 0L10 10").unwrap().is_resolvable());
    assert!(Path::parse("M500000000 0").unwrap().is_resolvable());
    assert!(!Path::parse("M500000000.1 0").unwrap().is_resolvable());
    assert!(!Path::parse("M400000000 0l200000000 0").unwrap().is_resolvable());
    assert!(Path::parse("M400000000 0l100000000 0").unwrap().is_resolvable());
}
