use dab_core::render::{format_edge, player_label, render_board, render_help, render_legal, render_status};
use dab_core::{BoardGeom, EdgeId, Game, Player};

#[test]
fn labels_name_the_players() {
    assert_eq!(player_label(Player::P1), "P1");
    assert_eq!(player_label(Player::P2), "P2");
}

#[test]
fn empty_single_box_board() {
    let geom = BoardGeom::new(1, 1).unwrap();
    let game = Game::new(geom);
    assert_eq!(render_board(&game), "     0  \n 0  * · *\n    ·   ·\n 1  * · *\n");
}

#[test]
fn drawn_edges_and_owner_are_shown() {
    let geom = BoardGeom::new(1, 1).unwrap();
    let mut game = Game::new(geom);
    game.play(0).unwrap();
    assert_eq!(render_board(&game), "     0  \n 0  *---*\n    ·   ·\n 1  * · *\n");
    for id in 1..4u16 {
        game.play(id).unwrap();
    }
    // P1, P2, P1 drew three sides; P2 closed the box.
    assert_eq!(render_board(&game), "     0  \n 0  *---*\n    | 2 |\n 1  *---*\n");
    assert_eq!(render_status(&game), "Score  P1=0  P2=1    Turn: P2");
    assert_eq!(render_legal(&game), "No legal moves.");
}

#[test]
fn status_of_a_new_game() {
    let game = Game::new(BoardGeom::new(3, 3).unwrap());
    assert_eq!(render_status(&game), "Score  P1=0  P2=0    Turn: P1");
}

#[test]
fn edges_are_formatted_by_orientation() {
    let geom = BoardGeom::new(3, 3).unwrap();
    assert_eq!(format_edge(geom, 0), "#0  H 0 0");
    assert_eq!(format_edge(geom, 11), "#11  H 3 2");
    assert_eq!(format_edge(geom, 12), "#12  V 0 0");
    assert_eq!(format_edge(geom, 23), "#23  V 2 3");
    let invalid: EdgeId = 24;
    assert_eq!(format_edge(geom, invalid), "#24  (invalid)");
}

#[test]
fn legal_moves_of_a_single_box() {
    let game = Game::new(BoardGeom::new(1, 1).unwrap());
    assert_eq!(
        render_legal(&game),
        "Legal moves (4):\n  #0  H 0 0\n  #1  H 1 0\n  #2  V 0 0\n  #3  V 0 1"
    );
}

#[test]
fn legal_moves_are_sorted_as_text() {
    let game = Game::new(BoardGeom::new(2, 2).unwrap());
    let text = render_legal(&game);
    assert!(text.starts_with(
        "Legal moves (12):\n  #0  H 0 0\n  #1  H 0 1\n  #10  V 1 1\n  #11  V 1 2\n  #2  H 1 0\n"
    ));
    assert!(text.ends_with("\n  #9  V 1 0"));
}

#[test]
fn help_names_the_ranges() {
    let text = render_help(BoardGeom::new(3, 3).unwrap());
    assert!(text.starts_with("Commands:\n  H <row> <col>   draw horizontal edge  (row 0..=3, col 0..2)\n"));
    assert!(text.contains("  V <row> <col>   draw vertical edge    (row 0..2, col 0..=3)\n"));
    assert!(text.contains("  <id>            draw edge by dense id (0..23)\n"));
    assert!(text.ends_with("Board key:  --- / |  drawn edges    ·  undrawn    1/2  claimed by P1/P2\n"));
}
