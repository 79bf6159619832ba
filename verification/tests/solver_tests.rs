use dab_core::solver::{map_edge, Symmetry};
use dab_core::{
    is_perfect_hud_size, perfect_value, BoardGeom, CgtEngine, EdgeCoord, EdgeId, Engine, Game,
    GreedyEngine, Orientation, PerfectEngine, Player, Winner,
};

fn edge(geom: BoardGeom, o: Orientation, row: u8, col: u8) -> EdgeId {
    geom.edge_id(EdgeCoord {
        orientation: o,
        row,
        col,
    })
    .unwrap()
}

fn play_all(game: &mut Game, edges: &[EdgeId]) {
    for &e in edges {
        game.play(e).unwrap();
    }
}

fn draw_all_horizontals(game: &mut Game) {
    let geom = game.geom();
    for row in 0..=geom.rows() {
        for col in 0..geom.cols() {
            game.play(edge(geom, Orientation::Horizontal, row, col))
                .unwrap();
        }
    }
}

fn score_diff(game: &Game) -> i8 {
    let us = game.score(game.current_player()) as i8;
    let them = game.score(game.current_player().other()) as i8;
    us - them
}

#[test]
fn d4_rot90_four_times_is_identity() {
    let geom = BoardGeom::new(3, 3).unwrap();
    for id in 0..geom.edge_count() {
        let mut x = id;
        for _ in 0..4 {
            x = map_edge(geom, x, Symmetry::Rot90);
        }
        assert_eq!(x, id, "rot90^4 failed at {id}");
    }
}

#[test]
fn d2_flips_are_involutions() {
    let geom = BoardGeom::new(2, 3).unwrap();
    for id in 0..geom.edge_count() {
        let h = map_edge(geom, id, Symmetry::FlipH);
        assert_eq!(map_edge(geom, h, Symmetry::FlipH), id);
        let v = map_edge(geom, id, Symmetry::FlipV);
        assert_eq!(map_edge(geom, v, Symmetry::FlipV), id);
    }
}

#[test]
fn symmetries_permute_edges() {
    let geom = BoardGeom::new(3, 3).unwrap();
    for s in [
        Symmetry::Identity,
        Symmetry::Rot90,
        Symmetry::Rot180,
        Symmetry::Rot270,
        Symmetry::FlipH,
        Symmetry::FlipV,
        Symmetry::Transpose,
        Symmetry::AntiTranspose,
    ] {
        let mut seen = vec![false; geom.edge_count() as usize];
        for id in 0..geom.edge_count() {
            let img = map_edge(geom, id, s);
            assert!(img < geom.edge_count());
            assert!(!seen[img as usize]);
            seen[img as usize] = true;
        }
    }
    // H(0,0) on 3×3 turns into the left end of the last column's vertical.
    let h00 = edge(geom, Orientation::Horizontal, 0, 0);
    assert_eq!(
        map_edge(geom, h00, Symmetry::Rot90),
        edge(geom, Orientation::Vertical, 0, 3)
    );
    assert_eq!(
        map_edge(geom, h00, Symmetry::Transpose),
        edge(geom, Orientation::Vertical, 0, 0)
    );
}

#[test]
fn hud_size_is_square_two_or_three() {
    assert!(is_perfect_hud_size(2, 2));
    assert!(is_perfect_hud_size(3, 3));
    assert!(!is_perfect_hud_size(1, 1));
    assert!(!is_perfect_hud_size(4, 4));
    assert!(!is_perfect_hud_size(2, 3));
}

#[test]
fn empty_1x1_is_minus_one() {
    let geom = BoardGeom::new(1, 1).unwrap();
    let game = Game::new(geom);
    assert_eq!(perfect_value(&game), -1);
}

#[test]
fn terminal_margin_is_score_diff() {
    let geom = BoardGeom::new(1, 1).unwrap();
    let mut game = Game::new(geom);
    let sides = geom.box_edges(0, 0).unwrap();
    play_all(&mut game, &sides);
    assert!(game.is_terminal());
    assert_eq!(game.current_player(), Player::P2);
    assert_eq!(game.score(Player::P2), 1);
    assert_eq!(perfect_value(&game), 1);
}

#[test]
fn empty_2x2_is_first_player_plus_two() {
    let geom = BoardGeom::new(2, 2).unwrap();
    let game = Game::new(geom);
    assert_eq!(perfect_value(&game), 2);
}

fn naive_remaining(game: &mut Game) -> i8 {
    if game.is_terminal() {
        return 0;
    }
    let legal: Vec<EdgeId> = game.legal_moves();
    let mut best = i8::MIN;
    for &edge in &legal {
        let (result, undo) = game.play(edge).unwrap();
        let scored = result.completed.len() as i8;
        let child = if result.extra_turn {
            naive_remaining(game)
        } else {
            -naive_remaining(game)
        };
        game.undo(undo);
        let v = scored + child;
        if v > best {
            best = v;
        }
    }
    best
}

#[test]
fn remaining_matches_naive_on_near_terminal_2x2() {
    let geom = BoardGeom::new(2, 2).unwrap();
    let mut game = Game::new(geom);
    let mut drawn = 0u8;
    for id in 0..geom.edge_count() {
        if drawn >= 8 {
            break;
        }
        if game.is_legal(id) {
            game.play(id).unwrap();
            drawn += 1;
        }
    }
    let mut naive_game = game;
    let naive = naive_remaining(&mut naive_game);
    let fast = perfect_value(&game) - score_diff(&game);
    assert_eq!(fast, naive, "search {fast} vs naive {naive}");
}

#[test]
fn solver_same_seed_same_choice() {
    let geom = BoardGeom::new(2, 2).unwrap();
    let game = Game::new(geom);
    let mut a = PerfectEngine::new(42);
    let mut b = PerfectEngine::new(42);
    assert_eq!(a.choose_move(&game), b.choose_move(&game));
    assert_eq!(a.value(&game), perfect_value(&game));
}

#[test]
fn empty_3x3_is_second_player_win_by_three() {
    // Barker & Korf: 3×3 boxes is a second-player win by three.
    let geom = BoardGeom::new(3, 3).unwrap();
    let game = Game::new(geom);
    assert_eq!(perfect_value(&game), -3);
}

#[test]
fn symmetry_preserves_value_after_one_edge() {
    let geom = BoardGeom::new(2, 2).unwrap();
    let e0 = edge(geom, Orientation::Horizontal, 0, 0);
    let mut a = Game::new(geom);
    a.play(e0).unwrap();
    let v = perfect_value(&a);
    for f in [
        Symmetry::Rot90,
        Symmetry::Rot180,
        Symmetry::Rot270,
        Symmetry::FlipH,
        Symmetry::FlipV,
        Symmetry::Transpose,
        Symmetry::AntiTranspose,
    ] {
        let mut b = Game::new(geom);
        b.play(map_edge(geom, e0, f)).unwrap();
        assert_eq!(b.current_player(), a.current_player());
        assert_eq!(perfect_value(&b), v);
    }
}

#[test]
fn perfect_on_cgt_double_cross_fixture_is_legal() {
    let geom = BoardGeom::new(2, 3).unwrap();
    let mut game = Game::new(geom);
    draw_all_horizontals(&mut game);
    game.play(edge(geom, Orientation::Vertical, 0, 0)).unwrap();
    let take = edge(geom, Orientation::Vertical, 0, 1);
    let mut cgt = CgtEngine::new(7);
    let cgt_choice = cgt.choose_move(&game);
    let mut perfect = PerfectEngine::new(7);
    let choice = perfect.choose_move(&game);
    assert_eq!(choice, take, "Perfect takes; CGT refuses");
    assert_ne!(cgt_choice, take);
    assert_eq!(perfect_value(&game), 2);
}

#[test]
fn perfect_on_cgt_all_but_four_fixture_is_legal() {
    let geom = BoardGeom::new(3, 3).unwrap();
    let mut game = Game::new(geom);
    play_all(
        &mut game,
        &[
            edge(geom, Orientation::Horizontal, 0, 0),
            edge(geom, Orientation::Horizontal, 0, 1),
            edge(geom, Orientation::Horizontal, 2, 0),
            edge(geom, Orientation::Horizontal, 2, 1),
            edge(geom, Orientation::Vertical, 0, 0),
            edge(geom, Orientation::Vertical, 1, 0),
            edge(geom, Orientation::Vertical, 0, 2),
            edge(geom, Orientation::Vertical, 1, 2),
            edge(geom, Orientation::Horizontal, 0, 2),
            edge(geom, Orientation::Horizontal, 2, 2),
            edge(geom, Orientation::Horizontal, 3, 0),
            edge(geom, Orientation::Horizontal, 3, 1),
            edge(geom, Orientation::Horizontal, 3, 2),
        ],
    );
    game.play(edge(geom, Orientation::Vertical, 0, 1)).unwrap();
    let take_a = edge(geom, Orientation::Horizontal, 1, 0);
    let take_b = edge(geom, Orientation::Horizontal, 1, 1);
    let mut perfect = PerfectEngine::new(11);
    let choice = perfect.choose_move(&game);
    assert!(
        choice == take_a || choice == take_b,
        "Perfect takes the loop; CGT refuses, got {choice}"
    );
    assert_eq!(perfect_value(&game), 5);
}

fn play_perfect_vs(
    perfect: &mut PerfectEngine,
    rows: u8,
    cols: u8,
    perfect_is_p1: bool,
    perfect_seed: u64,
    other_seed: u64,
    greedy: bool,
) -> Winner {
    let geom = BoardGeom::new(rows, cols).unwrap();
    let mut game = Game::new(geom);
    perfect.set_seed(perfect_seed);
    let mut greedy_eng = GreedyEngine::new(other_seed);
    let mut cgt_eng = CgtEngine::new(other_seed);
    while !game.is_terminal() {
        let is_perfect = matches!(
            (game.current_player(), perfect_is_p1),
            (Player::P1, true) | (Player::P2, false)
        );
        let edge = if is_perfect {
            perfect.choose_move(&game)
        } else if greedy {
            greedy_eng.choose_move(&game)
        } else {
            cgt_eng.choose_move(&game)
        };
        game.play(edge).unwrap();
    }
    game.winner().unwrap()
}

fn arena_perfect_win_rate(greedy: bool, games: u32) -> (f64, u32, u32) {
    let mut perfect = PerfectEngine::new(1);
    let mut perfect_wins = 0u32;
    let mut p2_perfect_losses = 0u32;
    let mut decisive = 0u32;
    for i in 0..games {
        let perfect_is_p1 = i % 2 == 0;
        let winner = play_perfect_vs(
            &mut perfect,
            3,
            3,
            perfect_is_p1,
            3000 + i as u64,
            9000 + i as u64,
            greedy,
        );
        if !perfect_is_p1 && matches!(winner, Winner::Player(Player::P1)) {
            p2_perfect_losses += 1;
        }
        let perfect_won = matches!(
            (winner, perfect_is_p1),
            (Winner::Player(Player::P1), true) | (Winner::Player(Player::P2), false)
        );
        if matches!(winner, Winner::Draw) {
            continue;
        }
        decisive += 1;
        if perfect_won {
            perfect_wins += 1;
        }
    }
    assert!(decisive > 0, "no decisive games");
    (
        perfect_wins as f64 / decisive as f64,
        p2_perfect_losses,
        decisive,
    )
}

#[test]
fn arena_perfect_vs_greedy_3x3() {
    let (rate, p2_losses, _decisive) = arena_perfect_win_rate(true, 20);
    assert_eq!(p2_losses, 0, "Perfect as P2 lost a 3×3 (forced P2 win)");
    assert!(rate >= 0.50, "perfect vs greedy win rate {rate:.3}");
}

#[test]
fn arena_perfect_vs_cgt_3x3() {
    let (rate, p2_losses, decisive) = arena_perfect_win_rate(false, 20);
    println!("perfect vs cgt: win rate {rate:.3} ({decisive} decisive), P2 losses {p2_losses}");
    assert_eq!(p2_losses, 0, "Perfect as P2 lost a 3×3 (forced P2 win)");
    assert!(rate >= 0.50, "perfect vs cgt win rate {rate:.3}");
}

#[test]
fn cgt_opens_other_chain_instead_of_double_crossing() {
    let geom = BoardGeom::new(2, 3).unwrap();
    let mut game = Game::new(geom);
    draw_all_horizontals(&mut game);
    game.play(edge(geom, Orientation::Vertical, 0, 0)).unwrap();
    let mut cgt = CgtEngine::new(3);
    let choice = cgt.choose_move(&game);
    // The other long chain is opened at one of its ground strings.
    let ends = [
        edge(geom, Orientation::Vertical, 1, 0),
        edge(geom, Orientation::Vertical, 1, 3),
    ];
    assert!(ends.contains(&choice), "got {choice}");
}

#[test]
fn cgt_takes_when_only_one_region_is_left() {
    let geom = BoardGeom::new(1, 3).unwrap();
    let mut game = Game::new(geom);
    draw_all_horizontals(&mut game);
    game.play(edge(geom, Orientation::Vertical, 0, 0)).unwrap();
    let mut cgt = CgtEngine::new(5);
    assert_eq!(
        cgt.choose_move(&game),
        edge(geom, Orientation::Vertical, 0, 1)
    );
}

#[test]
fn cgt_same_seed_same_choice_and_legal() {
    let geom = BoardGeom::new(3, 3).unwrap();
    let game = Game::new(geom);
    let mut a = CgtEngine::new(9);
    let mut b = CgtEngine::new(9);
    let x = a.choose_move(&game);
    assert_eq!(x, b.choose_move(&game));
    assert!(game.is_legal(x));
}

#[test]
fn perfect_value_is_best_child_value() {
    let geom = BoardGeom::new(2, 2).unwrap();
    let mut game = Game::new(geom);
    for id in [0u16, 7, 3] {
        game.play(id).unwrap();
    }
    let mut best = i8::MIN;
    for e in game.legal_moves() {
        let mut child = game;
        let (r, _) = child.play(e).unwrap();
        let v = if r.extra_turn { perfect_value(&child) } else { -perfect_value(&child) };
        best = best.max(v);
    }
    assert_eq!(perfect_value(&game), best);
}
