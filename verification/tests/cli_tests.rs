use dab_core::cli::{parse_u8, Args, ArgsError, Command, CommandError, Flag};
use dab_core::{BoardGeom, Orientation};

#[test]
fn parse_coord_and_id() {
    let geom = BoardGeom::new(2, 2).unwrap();
    match Command::parse("H 0 1", geom).unwrap() {
        Command::Play(id) => {
            let c = geom.edge_coord(id).unwrap();
            assert_eq!(c.orientation, Orientation::Horizontal);
            assert_eq!((c.row, c.col), (0, 1));
        }
        other => panic!("unexpected {other:?}"),
    }
    match Command::parse("#3", geom).unwrap() {
        Command::Play(3) => {}
        other => panic!("unexpected {other:?}"),
    }
    assert!(matches!(
        Command::parse("legal", geom).unwrap(),
        Command::Legal
    ));
    assert!(matches!(Command::parse("q", geom).unwrap(), Command::Quit));
}

#[test]
fn args_defaults_and_flags() {
    let a = Args::parse(vec![]).unwrap();
    assert_eq!((a.rows, a.cols), (2, 2));
    let a = Args::parse(vec![
        "--rows".into(),
        "3".into(),
        "--cols".into(),
        "4".into(),
    ])
    .unwrap();
    assert_eq!((a.rows, a.cols), (3, 4));
}

#[test]
fn args_errors() {
    assert!(matches!(
        Args::parse(vec!["--rows".into()]),
        Err(ArgsError::MissingValue(Flag::Rows))
    ));
    match Args::parse(vec!["--cols".into(), "x".into()]) {
        Err(ArgsError::NotAnInteger(Flag::Cols, raw)) => assert_eq!(raw, "x"),
        other => panic!("unexpected {other:?}"),
    }
    match Args::parse(vec!["--size".into()]) {
        Err(ArgsError::UnknownFlag(a)) => assert_eq!(a, "--size"),
        other => panic!("unexpected {other:?}"),
    }
    match Args::parse(vec!["3".into()]) {
        Err(ArgsError::UnexpectedArgument(a)) => assert_eq!(a, "3"),
        other => panic!("unexpected {other:?}"),
    }
    // Later flags win; values above 255 are not integers of the flag's type.
    let a = Args::parse(vec!["--rows".into(), "5".into(), "--rows".into(), "+7".into()]).unwrap();
    assert_eq!((a.rows, a.cols), (7, 2));
    assert!(matches!(
        Args::parse(vec!["--rows".into(), "256".into()]),
        Err(ArgsError::NotAnInteger(Flag::Rows, _))
    ));
}

#[test]
fn parse_u8_accepts_plus_and_rejects_garbage() {
    assert_eq!(parse_u8("042", Flag::Rows).unwrap(), 42);
    assert_eq!(parse_u8("+9", Flag::Rows).unwrap(), 9);
    assert!(parse_u8("", Flag::Rows).is_err());
    assert!(parse_u8("-1", Flag::Cols).is_err());
    assert!(parse_u8(" 1", Flag::Cols).is_err());
}

#[test]
fn command_keywords_any_case_and_trimmed() {
    let geom = BoardGeom::new(3, 3).unwrap();
    assert!(matches!(Command::parse("  QUIT \n", geom).unwrap(), Command::Quit));
    assert!(matches!(Command::parse("Exit", geom).unwrap(), Command::Quit));
    assert!(matches!(Command::parse("?", geom).unwrap(), Command::Help));
    assert!(matches!(Command::parse("Moves", geom).unwrap(), Command::Legal));
    assert!(matches!(Command::parse("b", geom).unwrap(), Command::Board));
    assert!(matches!(
        Command::parse(" \t ", geom),
        Err(CommandError::Empty)
    ));
}

#[test]
fn command_coordinates_and_errors() {
    let geom = BoardGeom::new(2, 2).unwrap();
    // v 1 2 on 2×2: vertical row 1 col 2 → 6 + 1*3 + 2 = 11.
    assert_eq!(Command::parse("v  1\t2", geom).unwrap(), Command::Play(11));
    assert!(matches!(
        Command::parse("H 0", geom),
        Err(CommandError::ExpectedCoord)
    ));
    assert!(matches!(
        Command::parse("H x 1", geom),
        Err(CommandError::RowNotInteger)
    ));
    assert!(matches!(
        Command::parse("H 0 y", geom),
        Err(CommandError::ColNotInteger)
    ));
    assert!(matches!(
        Command::parse("H 0 1 2", geom),
        Err(CommandError::TooManyForCoord)
    ));
    assert!(matches!(
        Command::parse("H 3 0", geom),
        Err(CommandError::OffBoard(Orientation::Horizontal, 3, 0))
    ));
    assert!(matches!(
        Command::parse("5 6", geom),
        Err(CommandError::TooManyForId)
    ));
    match Command::parse("  jump ", geom) {
        Err(CommandError::Unknown(line)) => assert_eq!(line, "jump"),
        other => panic!("unexpected {other:?}"),
    }
    assert_eq!(Command::parse("##12", geom).unwrap(), Command::Play(12));
}

#[test]
fn parse_u8_edges_of_the_range() {
    assert_eq!(parse_u8("255", Flag::Rows).unwrap(), 255);
    assert_eq!(parse_u8("0", Flag::Rows).unwrap(), 0);
    assert!(parse_u8("256", Flag::Rows).is_err());
    assert!(parse_u8("99999999999", Flag::Rows).is_err());
    assert!(parse_u8("+", Flag::Rows).is_err());
    assert!(parse_u8("1x", Flag::Rows).is_err());
    assert!(parse_u8("٣", Flag::Rows).is_err());
}

#[test]
fn edge_ids_parse_up_to_u16() {
    let geom = BoardGeom::new(2, 2).unwrap();
    assert!(matches!(Command::parse("#11", geom).unwrap(), Command::Play(11)));
    assert!(matches!(Command::parse("+65535", geom).unwrap(), Command::Play(65535)));
    assert!(matches!(Command::parse("65536", geom), Err(CommandError::Unknown(_))));
}
