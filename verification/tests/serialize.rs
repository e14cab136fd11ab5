use oxvg::command::Command;
use oxvg::number::Number;
use oxvg::path::Path;

fn n(text: &str) -> Number {
    Number::parse(text).unwrap()
}

fn implicit(command: Command) -> Command {
    Command::Implicit(Box::new(command))
}

#[test]
fn a_command_is_written_with_its_letter() {
    let path = Path(vec![
        Command::MoveTo([n("10"), n("50")]),
        Command::LineBy([n("20"), n("30")]),
        Command::ClosePath,
    ]);
    assert_eq!(path.to_string(), "M10 50l20 30z");
}

#[test]
fn an_implicit_command_is_written_bare() {
    let path = Path(vec![
        Command::MoveTo([n("10"), n("50")]),
        implicit(Command::LineTo([n("20"), n("30")])),
        implicit(Command::LineTo([n("-5"), n(".5")])),
    ]);
    assert_eq!(path.to_string(), "M10 50 20 30-5 .5");
    assert_eq!(path.serialize(false), "M10 50 20 30 -5 .5");
}

#[test]
fn an_implicit_command_that_continues_nothing_keeps_its_letter() {
    let path = Path(vec![
        Command::MoveTo([n("10"), n("50")]),
        implicit(Command::LineBy([n("20"), n("30")])),
        implicit(Command::HLineBy([n("1")])),
        Command::ClosePath,
        implicit(Command::LineBy([n("1"), n("1")])),
    ]);
    assert_eq!(path.to_string(), "M10 50l20 30h1zl1 1");
    let first = Path(vec![implicit(Command::MoveTo([n("1"), n("2")]))]);
    assert_eq!(first.to_string(), "M1 2");
}

#[test]
fn a_point_separates_after_a_fraction_only() {
    let path = Path(vec![Command::MoveTo([n("1.5"), n(".5")]), Command::LineBy([n("1"), n(".5")])]);
    assert_eq!(path.to_string(), "M1.5.5l1 .5");
    assert_eq!(path.serialize(false), "M1.5 .5l1 .5");
}

#[test]
fn an_arc_is_written_with_its_flags() {
    let path = Path(vec![
        Command::MoveTo([n("0"), n("0")]),
        Command::ArcBy([n("20"), n("60"), n("45"), n("0"), n("1"), n("40"), n("-70")]),
    ]);
    assert_eq!(path.to_string(), "M0 0a20 60 45 0 1 40-70");
}

#[test]
fn what_is_written_reads_back() {
    for text in [
        "M10 50",
        "M10-50",
        "M10 50 20 60 30 70",
        "m10 50 20 60",
        "M10 50l20 30z",
        "M1.5.5l1 .5",
        "M0 0a20 60 45 0 1 40-70",
        "m1 2l3 4h5v6c1 2 3 4 5 6s1 2 3 4q1 2 3 4t1 2a1 2 3 0 1 4 5zM1 2L3 4H5V6C1 2 3 4 5 6S1 2 3 4Q1 2 3 4T1 2A1 2 3 1 0 4 5z",
        "M.000000001-.000000001",
        "M-1000000000 1000000000",
        "",
    ] {
        let path = Path::parse(text).unwrap();
        assert_eq!(path.to_string(), text);
        assert_eq!(Path::parse(&path.to_string()).unwrap(), path);
        assert_eq!(Path::parse(&path.serialize(false)).unwrap(), path);
    }
}

#[test]
fn reading_and_writing_keeps_the_path() {
    for text in [
        "M 10,50 L 20,30",
        "M 10 , 50",
        "M10-3.05176e-005",
        "M10-50.2.30-2",
        "M 10,50 C 20,30 40,50 60,70 S 20,30 30,60",
        "M 10,50 A 20,60 45 0,1 40,70",
        "M213 543q0 -41 20 -66.5q20 -25.5 50 -45.5l49 228q-54 -4 -86.5 -34q-32.5 -30 -32.5 -82zt0 0zM371 48z",
        "M15 23.54 c-2.017,0 -3.87,-.7 -5.33,-1.87 -.032,-.023 -.068,-.052 -.11,-.087 .042,.035 .078,.064 .11,.087 .048,.04 .08,.063 .08,.063 ",
    ] {
        let path = Path::parse(text).unwrap();
        for negative_extra_space in [false, true] {
            let written = path.serialize(negative_extra_space);
            assert_eq!(Path::parse(&written).unwrap(), path, "{:?}", written);
            assert!(!negative_extra_space || written.len() <= text.len(), "{:?}", written);
        }
    }
}

#[test]
fn a_copy_is_the_same_path() {
    let path = Path::parse("M10 50 20 60z").unwrap();
    assert_eq!(path.clone(), path);
}
