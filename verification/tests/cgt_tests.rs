use dab_core::cgt::{
    attached_region, opening_edges, ranked_open_targets, refuse_remnant, refuse_skip_region,
    should_refuse_capture, takeable_box_ids, REGION_KIND_LONG, REGION_KIND_LOOP,
    REGION_KIND_SHORT,
};
use dab_core::{
    analyze_endgame, analyze_position, encode_analysis, BoardGeom, BoxId, EdgeCoord, EdgeId,
    EndgameAnalysis, Game, Orientation, Player, Region, RegionKind,
};

fn edge(geom: BoardGeom, o: Orientation, row: u8, col: u8) -> EdgeId {
    geom.edge_id(EdgeCoord {
        orientation: o,
        row,
        col,
    })
    .unwrap()
}

fn draw(game: &mut Game, edges: &[EdgeId]) {
    for &e in edges {
        game.play(e).unwrap();
    }
}

fn draw_all_horizontals(game: &mut Game) {
    let geom = game.geom();
    for row in 0..=geom.rows() {
        for col in 0..geom.cols() {
            game.play(edge(geom, Orientation::Horizontal, row, col))
                .unwrap();
        }
    }
}

fn region_boxes(region: &Region, n: u16) -> Vec<BoxId> {
    (0..n).filter(|&id| region.boxes.get(id)).collect()
}

fn only_region(a: &EndgameAnalysis, kind: RegionKind, n: u16) -> Vec<BoxId> {
    assert_eq!(a.regions().len(), 1);
    let r = &a.regions()[0];
    assert_eq!(r.kind, kind);
    region_boxes(r, n)
}

fn outer_ring_2x2(geom: BoardGeom) -> Vec<EdgeId> {
    vec![
        edge(geom, Orientation::Horizontal, 0, 0),
        edge(geom, Orientation::Horizontal, 0, 1),
        edge(geom, Orientation::Horizontal, 2, 0),
        edge(geom, Orientation::Horizontal, 2, 1),
        edge(geom, Orientation::Vertical, 0, 0),
        edge(geom, Orientation::Vertical, 1, 0),
        edge(geom, Orientation::Vertical, 0, 2),
        edge(geom, Orientation::Vertical, 1, 2),
    ]
}

#[test]
fn analyze_does_not_mutate_game() {
    let geom = BoardGeom::new(2, 2).unwrap();
    let mut game = Game::new(geom);
    game.play(0).unwrap();
    let before = game;
    let _ = analyze_endgame(&game);
    assert_eq!(game, before);
}

#[test]
fn terminal_is_empty_and_decomposed() {
    let geom = BoardGeom::new(1, 1).unwrap();
    let mut game = Game::new(geom);
    for e in geom.box_edges(0, 0).unwrap() {
        game.play(e).unwrap();
    }
    assert!(game.is_terminal());
    let a = analyze_endgame(&game);
    assert!(a.decomposed);
    assert_eq!(a.long_chain_count, 0);
    assert_eq!(a.short_chain_count, 0);
    assert_eq!(a.loop_count, 0);
    assert_eq!(a.takeable_count, 0);
    assert!(a.regions().is_empty());
}

#[test]
fn empty_2x2_is_not_decomposed() {
    let geom = BoardGeom::new(2, 2).unwrap();
    let game = Game::new(geom);
    let a = analyze_endgame(&game);
    assert!(!a.decomposed);
    assert_eq!(a.long_chain_count, 0);
    assert_eq!(a.short_chain_count, 0);
    assert_eq!(a.loop_count, 0);
    assert_eq!(a.takeable_count, 0);
}

#[test]
fn one_by_three_is_a_long_chain() {
    let geom = BoardGeom::new(1, 3).unwrap();
    let mut game = Game::new(geom);
    draw_all_horizontals(&mut game);
    let a = analyze_endgame(&game);
    assert!(a.decomposed);
    assert_eq!(a.long_chain_count, 1);
    assert_eq!(a.short_chain_count, 0);
    assert_eq!(a.loop_count, 0);
    assert_eq!(a.takeable_count, 0);
    let boxes = only_region(&a, RegionKind::LongChain, 3);
    assert_eq!(boxes, vec![0, 1, 2]);
    assert_eq!(a.regions()[0].length, 3);
}

#[test]
fn encode_analysis_1x3_long_chain() {
    let geom = BoardGeom::new(1, 3).unwrap();
    let mut game = Game::new(geom);
    draw_all_horizontals(&mut game);
    let dump = encode_analysis(&game);
    assert_eq!(dump[0], 1); // decomposed
    assert_eq!(dump[1], 1); // L
    assert_eq!(dump[2], 0);
    assert_eq!(dump[3], 0);
    assert_eq!(dump[4], 0); // takeables
    assert_eq!(dump[7], 1); // one region
    assert_eq!(dump[8], REGION_KIND_LONG);
    assert_eq!(dump[9], 3);
    assert_eq!(dump[10], 3);
    assert_eq!(&dump[11..14], &[0, 1, 2]);
}

#[test]
fn one_by_two_is_a_short_chain() {
    let geom = BoardGeom::new(1, 2).unwrap();
    let mut game = Game::new(geom);
    draw_all_horizontals(&mut game);
    let a = analyze_endgame(&game);
    assert!(a.decomposed);
    assert_eq!(a.long_chain_count, 0);
    assert_eq!(a.short_chain_count, 1);
    let boxes = only_region(&a, RegionKind::ShortChain, 2);
    assert_eq!(boxes, vec![0, 1]);
    assert_eq!(a.regions()[0].length, 2);
}

#[test]
fn one_by_one_degree_two_is_short_chain_len_1() {
    let geom = BoardGeom::new(1, 1).unwrap();
    let mut game = Game::new(geom);
    let sides = geom.box_edges(0, 0).unwrap();
    draw(&mut game, &[sides[0], sides[1]]); // top, bottom
    let a = analyze_endgame(&game);
    assert!(a.decomposed);
    assert_eq!(a.short_chain_count, 1);
    assert_eq!(a.long_chain_count, 0);
    let boxes = only_region(&a, RegionKind::ShortChain, 1);
    assert_eq!(boxes, vec![0]);
    assert_eq!(a.regions()[0].length, 1);
}

#[test]
fn two_by_two_outer_drawn_is_a_loop() {
    let geom = BoardGeom::new(2, 2).unwrap();
    let mut game = Game::new(geom);
    draw(&mut game, &outer_ring_2x2(geom));
    let a = analyze_endgame(&game);
    assert!(a.decomposed);
    assert_eq!(a.loop_count, 1);
    assert_eq!(a.long_chain_count, 0);
    assert_eq!(a.short_chain_count, 0);
    let boxes = only_region(&a, RegionKind::Loop, 4);
    assert_eq!(boxes, vec![0, 1, 2, 3]);
    assert_eq!(a.regions()[0].length, 4);
}

#[test]
fn encode_analysis_2x2_loop() {
    let geom = BoardGeom::new(2, 2).unwrap();
    let mut game = Game::new(geom);
    draw(&mut game, &outer_ring_2x2(geom));
    let dump = encode_analysis(&game);
    assert_eq!(dump[0], 1);
    assert_eq!(dump[3], 1); // loop_count
    assert_eq!(dump[7], 1);
    assert_eq!(dump[8], REGION_KIND_LOOP);
    assert_eq!(dump[9], 4);
    assert_eq!(dump[10], 4);
}

#[test]
fn two_by_three_double_corridor_two_long_chains() {
    let geom = BoardGeom::new(2, 3).unwrap();
    let mut game = Game::new(geom);
    draw_all_horizontals(&mut game);
    let a = analyze_endgame(&game);
    assert!(a.decomposed);
    assert_eq!(a.long_chain_count, 2);
    assert_eq!(a.short_chain_count, 0);
    assert_eq!(a.loop_count, 0);
    assert_eq!(a.regions().len(), 2);
    for r in a.regions() {
        assert_eq!(r.kind, RegionKind::LongChain);
        assert_eq!(r.length, 3);
    }
    let mut all = Vec::new();
    for r in a.regions() {
        all.extend(region_boxes(r, 6));
    }
    all.sort();
    assert_eq!(all, vec![0, 1, 2, 3, 4, 5]);
}

#[test]
fn long_chain_parity_p1_wants_even_on_odd_n() {
    let geom = BoardGeom::new(1, 3).unwrap();
    let mut game = Game::new(geom);
    draw_all_horizontals(&mut game);
    assert_eq!(game.current_player(), Player::P1);
    let a = analyze_endgame(&game);
    // N=3 odd → P1 target 0; L=1 → parity 1; not ok.
    assert_eq!(a.target_parity, 0);
    assert_eq!(a.long_chain_parity, 1);
    assert!(!a.parity_ok());

    let p2 = analyze_position(game.position(), Player::P2);
    assert_eq!(p2.target_parity, 1);
    assert!(p2.parity_ok());
}

#[test]
fn p1_wants_odd_long_chains_when_n_even() {
    let geom = BoardGeom::new(2, 2).unwrap();
    let game = Game::new(geom);
    let a = analyze_endgame(&game);
    assert_eq!(a.target_parity, 1);
    assert_eq!(a.long_chain_parity, 0);
    assert!(!a.parity_ok());
}

#[test]
fn takeable_is_not_a_chain() {
    let geom = BoardGeom::new(1, 3).unwrap();
    let mut game = Game::new(geom);
    draw_all_horizontals(&mut game);
    game.play(edge(geom, Orientation::Vertical, 0, 0)).unwrap();
    let a = analyze_endgame(&game);
    assert_eq!(a.takeable_count, 1);
    assert_eq!(a.short_chain_count, 1);
    assert_eq!(a.long_chain_count, 0);
    let boxes = only_region(&a, RegionKind::ShortChain, 3);
    assert_eq!(boxes, vec![1, 2]);
}

/// 2×3 with all horizontals drawn and the left end of the top chain opened:
/// one takeable box next to a short chain of two, with another long chain left.
fn double_cross_fixture() -> Game {
    let geom = BoardGeom::new(2, 3).unwrap();
    let mut game = Game::new(geom);
    draw_all_horizontals(&mut game);
    game.play(edge(geom, Orientation::Vertical, 0, 0)).unwrap();
    game
}

#[test]
fn takeable_ids_and_attached_remnant() {
    let game = double_cross_fixture();
    let pos = game.position();
    assert_eq!(takeable_box_ids(pos), vec![0]);
    let a = analyze_endgame(&game);
    let r = attached_region(pos, &a, 0).expect("corridor next to the takeable");
    assert_eq!(r.kind, RegionKind::ShortChain);
    assert_eq!(r.length, 2);
    assert_eq!(region_boxes(r, 6), vec![1, 2]);
    // A box of the long chain has no takeable neighbour region of its own kind.
    assert!(attached_region(pos, &a, 200).is_none());
}

#[test]
fn refuse_double_cross_with_another_long_chain() {
    let game = double_cross_fixture();
    assert!(should_refuse_capture(&game));
    let skip = refuse_skip_region(&game).unwrap();
    assert_eq!(skip.kind, RegionKind::ShortChain);
    assert_eq!(skip.length, 2);
    let a = analyze_endgame(&game);
    assert_eq!(refuse_remnant(&game, &a), Some(skip));
}

#[test]
fn take_when_the_remnant_is_the_last_region() {
    let geom = BoardGeom::new(1, 3).unwrap();
    let mut game = Game::new(geom);
    draw_all_horizontals(&mut game);
    game.play(edge(geom, Orientation::Vertical, 0, 0)).unwrap();
    assert!(!should_refuse_capture(&game));
    assert_eq!(refuse_skip_region(&game), None);
}

#[test]
fn not_decomposed_never_refuses() {
    let game = Game::new(BoardGeom::new(2, 2).unwrap());
    assert!(!should_refuse_capture(&game));
    let a = analyze_endgame(&game);
    assert_eq!(refuse_remnant(&game, &a), None);
}

#[test]
fn opening_edges_of_chain_and_loop() {
    // 1×3 long chain: ground strings are the two end verticals.
    let geom = BoardGeom::new(1, 3).unwrap();
    let mut game = Game::new(geom);
    draw_all_horizontals(&mut game);
    let a = analyze_endgame(&game);
    let r = a.regions()[0];
    let opens = opening_edges(game.position(), &r);
    assert_eq!(
        opens,
        vec![
            edge(geom, Orientation::Vertical, 0, 0),
            edge(geom, Orientation::Vertical, 0, 3)
        ]
    );

    // 2×2 loop: the four internal strings.
    let geom = BoardGeom::new(2, 2).unwrap();
    let mut game = Game::new(geom);
    draw(&mut game, &outer_ring_2x2(geom));
    let a = analyze_endgame(&game);
    let r = a.regions()[0];
    let mut want = vec![
        edge(geom, Orientation::Horizontal, 1, 0),
        edge(geom, Orientation::Horizontal, 1, 1),
        edge(geom, Orientation::Vertical, 0, 1),
        edge(geom, Orientation::Vertical, 1, 1),
    ];
    want.sort();
    assert_eq!(opening_edges(game.position(), &r), want);
}

#[test]
fn ranked_targets_order_and_skip() {
    let game = double_cross_fixture();
    let a = analyze_endgame(&game);
    assert_eq!(a.regions().len(), 2);
    // Control: long chain before short chain.
    let control = ranked_open_targets(&a, None, true);
    assert_eq!(control.len(), 2);
    assert_eq!(control[0].kind, RegionKind::LongChain);
    assert_eq!(control[1].kind, RegionKind::ShortChain);
    // Dumping: shortest first.
    let dump = ranked_open_targets(&a, None, false);
    assert_eq!(dump[0].length, 2);
    assert_eq!(dump[1].length, 3);
    // Skipping the remnant leaves the long chain only.
    let skip = refuse_skip_region(&game).unwrap();
    let rest = ranked_open_targets(&a, Some(&skip), true);
    assert_eq!(rest.len(), 1);
    assert_eq!(rest[0].kind, RegionKind::LongChain);
}

#[test]
fn encode_lists_takeables_last_and_short_kind_code() {
    let game = double_cross_fixture();
    let a = analyze_endgame(&game);
    let dump = encode_analysis(&game);
    assert_eq!(dump[4], 1);
    assert_eq!(dump[7] as usize, a.regions().len());
    assert_eq!(
        dump,
        vec![
            1, 1, 1, 0, 1, 1, 1, 2, // header
            REGION_KIND_SHORT, 2, 2, 1, 2, // short chain 1-2
            REGION_KIND_LONG, 3, 3, 3, 4, 5, // long chain 3-4-5
            0, // takeable box
        ]
    );
}

#[test]
fn region_containing_finds_first_holder() {
    let game = double_cross_fixture();
    let a = analyze_endgame(&game);
    let r = a.region_containing(4).unwrap();
    assert_eq!(r.kind, RegionKind::LongChain);
    assert!(a.region_containing(0).is_none());
}

#[test]
fn chains_are_listed_before_loops() {
    let geom = BoardGeom::new(2, 3).unwrap();
    let mut game = Game::new(geom);
    let mut edges = outer_ring_2x2(geom);
    edges.push(edge(geom, Orientation::Horizontal, 0, 2));
    edges.push(edge(geom, Orientation::Horizontal, 2, 2));
    draw(&mut game, &edges);
    let a = analyze_endgame(&game);
    let n = geom.box_count();
    assert_eq!(a.regions().len(), 2);
    assert_eq!(a.regions()[0].kind, RegionKind::ShortChain);
    assert_eq!(region_boxes(&a.regions()[0], n), vec![2, 5]);
    assert_eq!(a.regions()[1].kind, RegionKind::Loop);
    assert_eq!(region_boxes(&a.regions()[1], n), vec![0, 1, 3, 4]);
    assert_eq!(a.short_chain_count, 1);
    assert_eq!(a.loop_count, 1);
}

#[test]
fn each_corridor_component_is_one_region() {
    let geom = BoardGeom::new(1, 6).unwrap();
    let mut game = Game::new(geom);
    draw_all_horizontals(&mut game);
    let a = analyze_endgame(&game);
    assert_eq!(only_region(&a, RegionKind::LongChain, 6), vec![0, 1, 2, 3, 4, 5]);
    assert_eq!(a.regions()[0].length, 6);
    assert_eq!(a.long_chain_count, 1);
}

#[test]
fn same_position_gives_the_same_analysis() {
    let geom = BoardGeom::new(2, 3).unwrap();
    let mut edges = outer_ring_2x2(geom);
    edges.push(edge(geom, Orientation::Horizontal, 0, 2));
    edges.push(edge(geom, Orientation::Horizontal, 2, 2));
    let mut forward = Game::new(geom);
    draw(&mut forward, &edges);
    let mut backward = Game::new(geom);
    let reversed: Vec<EdgeId> = edges.iter().rev().copied().collect();
    draw(&mut backward, &reversed);
    assert_eq!(forward.position(), backward.position());
    assert_eq!(forward.current_player(), backward.current_player());
    assert_eq!(analyze_endgame(&forward), analyze_endgame(&backward));
    assert_eq!(encode_analysis(&forward), encode_analysis(&backward));
}
