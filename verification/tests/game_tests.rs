use dab_core::{BoardGeom, EdgeCoord, EdgeId, Game, Orientation, Player, Winner};

fn edge(geom: BoardGeom, o: Orientation, row: u8, col: u8) -> EdgeId {
    geom.edge_id(EdgeCoord {
        orientation: o,
        row,
        col,
    })
    .unwrap()
}

#[test]
fn no_capture_passes_turn() {
    let geom = BoardGeom::new(2, 2).unwrap();
    let mut game = Game::new(geom);
    assert_eq!(game.current_player(), Player::P1);
    let (result, _) = game
        .play(edge(geom, Orientation::Horizontal, 0, 0))
        .unwrap();
    assert!(!result.extra_turn);
    assert_eq!(result.next_player, Player::P2);
    assert_eq!(game.current_player(), Player::P2);
    assert_eq!(game.scores(), [0, 0]);
}

#[test]
fn capture_grants_extra_turn_and_score() {
    // 1×1 board: four edges complete the only box.
    let geom = BoardGeom::new(1, 1).unwrap();
    let mut game = Game::new(geom);
    let sides = geom.box_edges(0, 0).unwrap();

    for &e in &sides[..3] {
        let (r, _) = game.play(e).unwrap();
        assert!(!r.extra_turn);
    }
    // P1, P2, P1 played → P2's turn.
    assert_eq!(game.current_player(), Player::P2);
    let (r, _) = game.play(sides[3]).unwrap();
    assert!(r.extra_turn);
    assert_eq!(r.completed.as_slice(), &[0]);
    assert_eq!(game.score(Player::P2), 1);
    assert_eq!(game.score(Player::P1), 0);
    assert_eq!(game.box_owner(0), Some(Player::P2));
    assert_eq!(game.current_player(), Player::P2);
    assert!(game.is_terminal());
    assert_eq!(game.winner(), Some(Winner::Player(Player::P2)));
}

#[test]
fn hand_verified_2x1_sample_game() {
    // 2 boxes in a row. Scripted play with known scores/turns.
    let geom = BoardGeom::new(1, 2).unwrap();
    let mut game = Game::new(geom);

    // Edges for left box (0,0) and right box (0,1).
    let left = geom.box_edges(0, 0).unwrap(); // top,bottom,left,right
    let right = geom.box_edges(0, 1).unwrap();

    // Shared vertical edge between boxes is left[3] == right[2].
    assert_eq!(left[3], right[2]);

    let script = [
        left[0],  // P1
        right[0], // P2
        left[1],  // P1
        right[1], // P2
        left[2],  // P1
        right[3], // P2
    ];
    for &e in &script {
        let (r, _) = game.play(e).unwrap();
        assert!(!r.extra_turn, "unexpected capture on edge {e}");
    }
    assert_eq!(game.scores(), [0, 0]);
    assert_eq!(game.current_player(), Player::P1);

    // P1 takes the shared middle → completes BOTH boxes → scores 2, extra turn, terminal.
    let (r, _) = game.play(left[3]).unwrap();
    assert!(r.extra_turn);
    assert_eq!(r.completed.len(), 2);
    assert_eq!(game.scores(), [2, 0]);
    assert!(game.is_terminal());
    assert_eq!(game.winner(), Some(Winner::Player(Player::P1)));
    assert_eq!(game.box_owner(0), Some(Player::P1));
    assert_eq!(game.box_owner(1), Some(Player::P1));
}

#[test]
fn play_undo_restores_full_game_state() {
    let geom = BoardGeom::new(2, 2).unwrap();
    let mut game = Game::new(geom);
    let start = game;
    let mut stack = Vec::new();

    for edge in game.legal_moves() {
        let before = game;
        let (_, undo) = game.play(edge).unwrap();
        stack.push((before, undo));
        if game.is_terminal() {
            break;
        }
    }

    while let Some((before, undo)) = stack.pop() {
        game.undo(undo);
        assert_eq!(game, before);
    }
    assert_eq!(game, start);
}

#[test]
fn winner_none_while_in_progress() {
    let geom = BoardGeom::new(2, 2).unwrap();
    let game = Game::new(geom);
    assert!(!game.is_terminal());
    assert_eq!(game.winner(), None);
}

#[test]
fn play_errors_leave_game_unchanged() {
    let geom = BoardGeom::new(1, 1).unwrap();
    let mut game = Game::new(geom);
    game.play(0).unwrap();
    let before = game;
    assert_eq!(game.play(0).err(), Some(dab_core::MoveError::AlreadyDrawn));
    assert_eq!(game.play(4).err(), Some(dab_core::MoveError::OutOfRange));
    assert_eq!(game, before);
    assert_eq!(Player::P1.other(), Player::P2);
    assert_eq!(Player::P2.index(), 1);
}

#[test]
fn drawn_game_on_1x2() {
    // Each player ends with one box of a 1×2 board.
    let geom = BoardGeom::new(1, 2).unwrap();
    let mut game = Game::new(geom);
    let left = geom.box_edges(0, 0).unwrap();
    let right = geom.box_edges(0, 1).unwrap();
    // P1 top-left, P2 bottom-left, P1 left outer, P2 top-right: no captures.
    for e in [left[0], left[1], left[2], right[0]] {
        let (r, _) = game.play(e).unwrap();
        assert!(!r.extra_turn);
    }
    // P1 draws the shared edge, completing the left box only.
    assert_eq!(game.current_player(), Player::P1);
    let (r, _) = game.play(left[3]).unwrap();
    assert!(r.extra_turn);
    assert_eq!(r.completed.as_slice(), &[0]);
    // P1 bottom-right (no capture), P2 right outer completes the right box.
    let (r, _) = game.play(right[1]).unwrap();
    assert!(!r.extra_turn);
    let (r, _) = game.play(right[3]).unwrap();
    assert!(r.extra_turn);
    assert!(game.is_terminal());
    assert_eq!(game.scores(), [1, 1]);
    assert_eq!(game.winner(), Some(Winner::Draw));
}

#[test]
fn capturing_child_keeps_to_move() {
    let g = BoardGeom::new(2, 2).unwrap();
    let mut game = Game::new(g);
    let sides = g.box_edges(0, 0).unwrap();
    for &e in &sides[..3] {
        game.play(e).unwrap();
    }
    let last = sides[3];
    let parent = game.current_player();
    let mut child = game;
    let (result, _) = child.play(last).unwrap();
    assert!(result.extra_turn);
    assert_eq!(child.current_player(), parent);
}

#[test]
fn terminal_exactly_when_all_boxes_and_edges_are_done() {
    let geom = BoardGeom::new(2, 2).unwrap();
    let mut game = Game::new(geom);
    assert!(!game.is_terminal());
    let mut id: EdgeId = 0;
    while !game.is_terminal() {
        assert!(!game.legal_moves().is_empty());
        assert!((game.position().boxes().count_ones() as u16) < geom.box_count());
        if game.is_legal(id) {
            game.play(id).unwrap();
        }
        id += 1;
    }
    assert!(game.legal_moves().is_empty());
    assert_eq!(game.position().boxes().count_ones() as u16, geom.box_count());
}
