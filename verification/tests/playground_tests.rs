use dab_core::cli::{Args, Command};
use dab_core::playground::{
    args_message, banner, command_message, play_edge, render_game_over, render_state, respond,
    size_message,
};
use dab_core::{BoardGeom, Game};

const EMPTY_1X1_STATE: &str =
    "\n     0  \n 0  * · *\n    ·   ·\n 1  * · *\n\nScore  P1=0  P2=0    Turn: P1\n\n";

fn args(words: &[&str]) -> Vec<String> {
    words.iter().map(|w| w.to_string()).collect()
}

#[test]
fn argument_errors_are_explained() {
    let msg = |words: &[&str]| args_message(&Args::parse(args(words)).unwrap_err());
    assert_eq!(msg(&["--rows"]), "--rows needs a value");
    assert_eq!(msg(&["--cols", "x"]), "--cols must be an integer, got 'x'");
    assert_eq!(msg(&["--size"]), "unknown flag '--size' (try --help)");
    assert_eq!(msg(&["3"]), "unexpected argument '3' (try --help)");
}

#[test]
fn unsupported_size_is_explained() {
    assert_eq!(size_message(9, 0), "invalid board size 9x0 (supported: 1..=8 by 1..=8)");
}

#[test]
fn banner_names_the_board() {
    let geom = BoardGeom::new(2, 3).unwrap();
    assert_eq!(
        banner(geom),
        "Dots and Boxes — hotseat CLI (dab-core playground)\nBoard: 2×3 boxes\n"
    );
}

#[test]
fn command_errors_are_explained() {
    let geom = BoardGeom::new(2, 2).unwrap();
    let msg = |line: &str| command_message(&Command::parse(line, geom).unwrap_err());
    assert_eq!(msg("   "), "empty input");
    assert_eq!(msg("H 1"), "expected: H <row> <col>  or  V <row> <col>");
    assert_eq!(msg("V x 1"), "row must be an integer");
    assert_eq!(msg("h 1 y"), "col must be an integer");
    assert_eq!(msg("H 0 0 0"), "too many arguments");
    assert_eq!(msg("h 0 2"), "H 0 2 is out of range for this board");
    assert_eq!(msg("V 2 0"), "V 2 0 is out of range for this board");
    assert_eq!(msg("3 4"), "too many arguments (use: <id>  or  H <row> <col>)");
    assert_eq!(msg("  jump "), "unknown command 'jump' (try 'help')");
}

#[test]
fn played_move_is_announced() {
    let geom = BoardGeom::new(1, 1).unwrap();
    let mut game = Game::new(geom);
    assert_eq!(play_edge(&mut game, 2), Ok("P1 played #2".to_string()));
    assert_eq!(play_edge(&mut game, 0), Ok("P2 played #0".to_string()));
    assert_eq!(play_edge(&mut game, 1), Ok("P1 played #1".to_string()));
    assert_eq!(
        play_edge(&mut game, 3),
        Ok("P2 played #3 — claimed 1 box(es), extra turn!".to_string())
    );
    assert_eq!(game.scores(), [0, 1]);
}

#[test]
fn refused_move_is_explained_and_changes_nothing() {
    let geom = BoardGeom::new(1, 1).unwrap();
    let mut game = Game::new(geom);
    play_edge(&mut game, 0).unwrap();
    let before = game.clone();
    assert_eq!(play_edge(&mut game, 0), Err("edge #0 is already drawn".to_string()));
    assert_eq!(play_edge(&mut game, 4), Err("edge #4 is out of range".to_string()));
    assert_eq!(game, before);
}

#[test]
fn state_shows_board_and_status() {
    let game = Game::new(BoardGeom::new(1, 1).unwrap());
    assert_eq!(render_state(&game), EMPTY_1X1_STATE);
}

#[test]
fn game_over_names_the_winner() {
    let mut game = Game::new(BoardGeom::new(1, 1).unwrap());
    for id in 0..4u16 {
        game.play(id).unwrap();
    }
    assert_eq!(
        render_game_over(&game),
        "\n=== Game over ===\nScore  P1=0  P2=1    Turn: P2\nWinner: P2\n"
    );
}

#[test]
fn replies_to_each_kind_of_line() {
    let mut game = Game::new(BoardGeom::new(1, 1).unwrap());

    let r = respond(&mut game, "board");
    assert_eq!(r.text, EMPTY_1X1_STATE);
    assert!(!r.quit);

    let r = respond(&mut game, "legal");
    assert_eq!(
        r.text,
        "Legal moves (4):\n  #0  H 0 0\n  #1  H 1 0\n  #2  V 0 0\n  #3  V 0 1\n"
    );

    let r = respond(&mut game, "help");
    assert!(r.text.starts_with("Commands:\n"));
    assert!(r.text.ends_with("claimed by P1/P2\n\n"));

    let r = respond(&mut game, "bogus");
    assert_eq!(r.text, "unknown command 'bogus' (try 'help')  (type 'help')\n");
    assert!(!r.quit);

    let r = respond(&mut game, "H 0 0");
    assert_eq!(
        r.text,
        "P1 played #0\n\n     0  \n 0  *---*\n    ·   ·\n 1  * · *\n\nScore  P1=0  P2=0    Turn: P2\n\n"
    );
    assert_eq!(game.current_player(), dab_core::Player::P2);

    let r = respond(&mut game, "#0");
    assert_eq!(r.text, "edge #0 is already drawn\n");
    assert_eq!(game.current_player(), dab_core::Player::P2);

    let r = respond(&mut game, "quit");
    assert_eq!(r.text, "Bye.\n");
    assert!(r.quit);
}
