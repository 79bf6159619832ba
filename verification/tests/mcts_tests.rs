use dab_core::mcts::{best_capture, most_visited_child, rollout, root_margin, DEFAULT_ITERS};
use dab_core::{BoardGeom, Game, MctsEngine, Player, XorShift64};

#[test]
fn settings_default_and_minimum() {
    let e = MctsEngine::new(1);
    assert_eq!(e.iterations(), DEFAULT_ITERS);
    assert_eq!(e.clone().with_iterations(0).iterations(), 1);
    assert_eq!(e.with_iterations(48).iterations(), 48);
}

#[test]
fn shortcut_takes_the_free_box_and_the_only_move() {
    let geom = BoardGeom::new(2, 2).unwrap();
    let mut game = Game::new(geom);
    let sides = geom.box_edges(0, 0).unwrap();
    for &e in &sides[..3] {
        game.play(e).unwrap();
    }
    let legal = game.legal_moves();
    let mut mcts = MctsEngine::new(1).with_iterations(8);
    assert_eq!(mcts.shortcut(&game, &legal), Some(sides[3]));

    let geom = BoardGeom::new(1, 1).unwrap();
    let mut game = Game::new(geom);
    let sides = geom.box_edges(0, 0).unwrap();
    for &e in &sides[..3] {
        game.play(e).unwrap();
    }
    let legal = game.legal_moves();
    assert_eq!(MctsEngine::new(2).shortcut(&game, &legal), Some(sides[3]));

    // Nothing to capture on an empty board: the search decides.
    let game = Game::new(BoardGeom::new(2, 2).unwrap());
    let legal = game.legal_moves();
    assert_eq!(MctsEngine::new(3).shortcut(&game, &legal), None);
}

#[test]
fn best_capture_prefers_double() {
    let geom = BoardGeom::new(1, 2).unwrap();
    let mut game = Game::new(geom);
    // Draw every edge but the shared middle vertical.
    let middle = geom
        .edge_id(dab_core::EdgeCoord {
            orientation: dab_core::Orientation::Vertical,
            row: 0,
            col: 1,
        })
        .unwrap();
    for e in 0..geom.edge_count() {
        if e != middle {
            game.play(e).unwrap();
        }
    }
    let legal = game.legal_moves();
    let mut rng = XorShift64::new(5);
    assert_eq!(best_capture(&game, &legal, &mut rng), Some(middle));
}

#[test]
fn rollout_reaches_the_end() {
    let mut game = Game::new(BoardGeom::new(3, 3).unwrap());
    let mut rng = XorShift64::new(11);
    rollout(&mut game, &mut rng);
    assert!(game.is_terminal());
    let m = root_margin(&game, Player::P1);
    assert_eq!(
        m,
        game.score(Player::P1) as i32 - game.score(Player::P2) as i32
    );
    assert_eq!(root_margin(&game, Player::P2), -m);
}

#[test]
fn most_visited_picks_the_max() {
    let mut rng = XorShift64::new(1);
    assert_eq!(most_visited_child(&vec![], &mut rng), None);
    let kids = vec![(4u16, 3u32), (7, 9), (2, 1)];
    assert_eq!(most_visited_child(&kids, &mut rng), Some(7));
    let tied = vec![(4u16, 5u32), (7, 5)];
    let pick = most_visited_child(&tied, &mut rng).unwrap();
    assert!(pick == 4 || pick == 7);
}

#[test]
fn capturing_child_keeps_to_move_and_mcts_takes_it() {
    let geom = BoardGeom::new(2, 2).unwrap();
    let mut game = Game::new(geom);
    let sides = geom.box_edges(0, 0).unwrap();
    for &e in &sides[..3] {
        game.play(e).unwrap();
    }
    let last = sides[3];
    let parent = game.current_player();
    let mut child = game;
    let (result, _) = child.play(last).unwrap();
    assert!(result.extra_turn);
    assert_eq!(child.current_player(), parent);

    // A completing move at the root is taken without searching.
    let mut mcts = MctsEngine::new(1).with_iterations(8);
    let legal = game.legal_moves();
    assert_eq!(mcts.shortcut(&game, &legal), Some(last));
    assert!(game.is_legal(last));
    assert_eq!(game.current_player(), parent);
}
