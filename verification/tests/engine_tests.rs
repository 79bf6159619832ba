use dab_core::{
    BoardGeom, EdgeCoord, EdgeId, Engine, Game, GreedyEngine, Orientation, Player, RandomEngine,
    Winner,
};

fn edge(geom: BoardGeom, o: Orientation, row: u8, col: u8) -> EdgeId {
    geom.edge_id(EdgeCoord {
        orientation: o,
        row,
        col,
    })
    .unwrap()
}

fn play_all(game: &mut Game, edges: &[EdgeId]) {
    for &e in edges {
        game.play(e).unwrap();
    }
}

/// Boxes `edge` would complete, probed on a copy.
fn completed_count(game: &Game, edge: EdgeId) -> usize {
    let mut probe = game.position();
    probe.apply_move(edge).unwrap().completed().len()
}

/// Whether `edge` leaves an adjacent unclaimed box with three sides drawn.
fn leaves_three_sided(game: &Game, edge: EdgeId) -> bool {
    let pos = game.position();
    let mut probe = pos;
    probe.apply_move(edge).unwrap();
    let mut touching = [0u16; 2];
    let n = pos.geom().boxes_touching_edge(edge, &mut touching);
    touching[..n]
        .iter()
        .any(|&b| !probe.box_is_claimed(b) && probe.sides_drawn(b) == 3)
}

#[test]
fn random_returns_legal_and_is_deterministic() {
    let geom = BoardGeom::new(2, 2).unwrap();
    let game = Game::new(geom);
    let mut a = RandomEngine::new(42);
    let mut b = RandomEngine::new(42);
    let e1 = a.choose_move(&game);
    let e2 = b.choose_move(&game);
    assert_eq!(e1, e2);
    assert!(game.is_legal(e1));
}

#[test]
fn greedy_takes_completing_move_when_available() {
    let geom = BoardGeom::new(1, 1).unwrap();
    let mut game = Game::new(geom);
    let sides = geom.box_edges(0, 0).unwrap();
    play_all(&mut game, &sides[..3]);
    let last = sides[3];
    let mut greedy = GreedyEngine::new(1);
    assert_eq!(greedy.choose_move(&game), last);
}

#[test]
fn greedy_prefers_double_claim_over_single() {
    let geom = BoardGeom::new(2, 2).unwrap();
    let mut game = Game::new(geom);
    let a = geom.box_edges(0, 0).unwrap();
    let b = geom.box_edges(0, 1).unwrap();
    let shared = a[3];
    assert_eq!(shared, b[2]);
    play_all(&mut game, &[a[0], a[1], a[2], b[0], b[1], b[3]]);
    let c = geom.box_edges(1, 0).unwrap();
    play_all(&mut game, &[c[2], c[3]]);
    let single = c[1];
    assert_eq!(completed_count(&game, shared), 2);
    assert_eq!(completed_count(&game, single), 1);

    let mut greedy = GreedyEngine::new(7);
    assert_eq!(greedy.choose_move(&game), shared);
}

#[test]
fn greedy_avoids_unsafe_when_safe_exists() {
    let geom = BoardGeom::new(2, 2).unwrap();
    let mut game = Game::new(geom);
    let box00 = geom.box_edges(0, 0).unwrap();
    play_all(&mut game, &[box00[0], box00[1]]);
    let unsafe_edge = box00[2];
    assert!(leaves_three_sided(&game, unsafe_edge));

    let far = edge(geom, Orientation::Horizontal, 2, 1);
    assert!(!leaves_three_sided(&game, far));
    assert!(game.is_legal(far));
    assert!(game.is_legal(unsafe_edge));

    let mut greedy = GreedyEngine::new(99);
    for _ in 0..20 {
        let choice = greedy.choose_move(&game);
        assert!(
            !leaves_three_sided(&game, choice),
            "chose unsafe edge {choice}"
        );
        assert_ne!(choice, unsafe_edge);
    }
}

fn play_match(
    rows: u8,
    cols: u8,
    greedy_is_p1: bool,
    greedy_seed: u64,
    random_seed: u64,
) -> Winner {
    let geom = BoardGeom::new(rows, cols).unwrap();
    let mut game = Game::new(geom);
    let mut greedy = GreedyEngine::new(greedy_seed);
    let mut random = RandomEngine::new(random_seed);
    while !game.is_terminal() {
        let edge = match (game.current_player(), greedy_is_p1) {
            (Player::P1, true) | (Player::P2, false) => greedy.choose_move(&game),
            _ => random.choose_move(&game),
        };
        game.play(edge).unwrap();
    }
    game.winner().unwrap()
}

fn arena_greedy_win_rate(rows: u8, cols: u8, games: u32) -> f64 {
    let mut greedy_wins = 0u32;
    let mut decisive = 0u32;
    for i in 0..games {
        let greedy_is_p1 = i % 2 == 0;
        let winner = play_match(rows, cols, greedy_is_p1, 1000 + i as u64, 5000 + i as u64);
        let greedy_won = matches!(
            (winner, greedy_is_p1),
            (Winner::Player(Player::P1), true) | (Winner::Player(Player::P2), false)
        );
        if matches!(winner, Winner::Draw) {
            continue;
        }
        decisive += 1;
        if greedy_won {
            greedy_wins += 1;
        }
    }
    assert!(decisive > 0, "no decisive games");
    greedy_wins as f64 / decisive as f64
}

#[test]
fn arena_greedy_beats_random_2x2() {
    let rate = arena_greedy_win_rate(2, 2, 200);
    assert!(rate >= 0.65, "greedy win rate {rate:.3} below 65% on 2×2");
}

#[test]
fn arena_greedy_beats_random_3x3() {
    let rate = arena_greedy_win_rate(3, 3, 200);
    assert!(rate >= 0.65, "greedy win rate {rate:.3} below 65% on 3×3");
}

#[test]
fn greedy_forced_move_when_nothing_is_safe() {
    // 1×1 with two sides drawn: every move leaves a three-sided box.
    let geom = BoardGeom::new(1, 1).unwrap();
    let mut game = Game::new(geom);
    let sides = geom.box_edges(0, 0).unwrap();
    play_all(&mut game, &sides[..2]);
    let mut greedy = GreedyEngine::new(5);
    let choice = greedy.choose_move(&game);
    assert!(choice == sides[2] || choice == sides[3]);
}
