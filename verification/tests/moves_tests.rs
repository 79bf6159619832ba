use dab_core::{BoardGeom, EdgeCoord, MoveError, Orientation, Position, Undo, XorShift64};

#[test]
fn legal_moves_starts_with_all_edges() {
    let geom = BoardGeom::new(2, 2).unwrap();
    let pos = Position::new(geom);
    let moves: Vec<_> = pos.legal_moves();
    assert_eq!(moves.len(), geom.edge_count() as usize);
    assert_eq!(moves[0], 0);
    assert_eq!(*moves.last().unwrap(), geom.edge_count() - 1);
}

#[test]
fn apply_then_undo_restores_state() {
    let geom = BoardGeom::new(3, 3).unwrap();
    let mut pos = Position::new(geom);
    let before = pos;
    let edge = geom
        .edge_id(EdgeCoord {
            orientation: Orientation::Horizontal,
            row: 1,
            col: 1,
        })
        .unwrap();
    let undo = pos.apply_move(edge).unwrap();
    assert!(pos.edge_is_drawn(edge));
    assert_ne!(pos, before);
    pos.undo(undo);
    assert_eq!(pos, before);
}

#[test]
fn completing_a_box_claims_it() {
    let geom = BoardGeom::new(1, 1).unwrap();
    let mut pos = Position::new(geom);
    let edges = geom.box_edges(0, 0).unwrap();
    for &e in &edges[..3] {
        let undo = pos.apply_move(e).unwrap();
        assert!(undo.completed().is_empty());
    }
    let undo = pos.apply_move(edges[3]).unwrap();
    assert_eq!(undo.completed().as_slice(), &[0]);
    assert!(pos.box_is_claimed(0));
    pos.undo(undo);
    assert!(!pos.box_is_claimed(0));
    assert!(!pos.edge_is_drawn(edges[3]));
}

#[test]
fn reject_already_drawn_and_oob() {
    let geom = BoardGeom::new(2, 2).unwrap();
    let mut pos = Position::new(geom);
    pos.apply_move(0).unwrap();
    assert_eq!(pos.apply_move(0), Err(MoveError::AlreadyDrawn));
    assert_eq!(
        pos.apply_move(geom.edge_count()),
        Err(MoveError::OutOfRange)
    );
}

#[test]
fn random_playouts_stay_legal_and_undo_clean() {
    let mut rng = XorShift64::new(0xDEAD_BEEF_CAFE_BABE);
    for rows in 1..=5u8 {
        for cols in 1..=5u8 {
            let geom = BoardGeom::new(rows, cols).unwrap();
            for _game in 0..20 {
                let mut pos = Position::new(geom);
                let mut stack: Vec<Undo> = Vec::new();
                let start = pos;

                while let Some(edge) = {
                    let legal: Vec<_> = pos.legal_moves();
                    if legal.is_empty() {
                        None
                    } else {
                        Some(legal[rng.gen_index(legal.len())])
                    }
                } {
                    assert!(pos.is_legal(edge));
                    let before = pos;
                    let undo = pos.apply_move(edge).unwrap();
                    // Drawn edge count increases by 1; completed boxes newly claimed.
                    assert!(pos.edge_is_drawn(edge));
                    assert_eq!(pos.edges().count_ones(), before.edges().count_ones() + 1);
                    for &b in undo.completed().as_slice() {
                        assert!(pos.box_is_claimed(b));
                        assert!(pos.box_is_complete(b));
                    }
                    // Claimed boxes ⊆ complete boxes; never claim twice.
                    assert!(pos.boxes().count_ones() <= geom.box_count() as u32);
                    stack.push(undo);
                }

                // Terminal: all edges drawn, all boxes claimed.
                assert_eq!(pos.legal_move_count(), 0);
                assert_eq!(pos.edges().count_ones(), geom.edge_count() as u32);
                assert_eq!(pos.boxes().count_ones(), geom.box_count() as u32);

                while let Some(undo) = stack.pop() {
                    pos.undo(undo);
                }
                assert_eq!(pos, start);
            }
        }
    }
}

#[test]
fn box_edges_and_touching_agree() {
    let geom = BoardGeom::new(2, 3).unwrap();
    // Box (1, 2): top H(1,2)=5, bottom H(2,2)=8, left V(1,2)=9+4+2=15, right V(1,3)=16.
    assert_eq!(geom.box_edges(1, 2), Some([5, 8, 15, 16]));
    assert_eq!(geom.box_edges(2, 0), None);
    let mut out = [99u16; 2];
    assert_eq!(geom.boxes_touching_edge(5, &mut out), 2);
    assert_eq!(out, [2, 5]);
    let mut out = [99u16; 2];
    assert_eq!(geom.boxes_touching_edge(15, &mut out), 2);
    assert_eq!(out, [4, 5]);
    let mut out = [99u16; 2];
    assert_eq!(geom.boxes_touching_edge(16, &mut out), 1);
    assert_eq!(out, [5, 99]);
    assert_eq!(geom.boxes_touching_edge(17, &mut out), 0);
}

#[test]
fn sides_drawn_counts_and_legal_count() {
    let geom = BoardGeom::new(2, 2).unwrap();
    let mut pos = Position::new(geom);
    let sides = geom.box_edges(0, 0).unwrap();
    pos.apply_move(sides[0]).unwrap();
    pos.apply_move(sides[2]).unwrap();
    assert_eq!(pos.sides_drawn(0), 2);
    assert_eq!(pos.sides_drawn(1), 0);
    assert_eq!(pos.sides_drawn(4), 0);
    assert!(!pos.box_is_complete(0));
    assert!(!pos.box_is_complete(4));
    assert_eq!(pos.legal_move_count(), 10);
    assert!(!pos.is_legal(sides[0]));
    assert!(!pos.is_legal(12));
}

#[test]
fn legal_move_count_is_edges_less_drawn() {
    let geom = BoardGeom::new(2, 3).unwrap();
    let mut pos = Position::new(geom);
    for id in [0u16, 5, 9, 16] {
        pos.apply_move(id).unwrap();
        assert_eq!(pos.legal_move_count() as usize, pos.legal_moves().len());
        assert_eq!(pos.legal_move_count(), geom.edge_count() - pos.edges().count_ones() as u16);
    }
    for id in 0..geom.edge_count() {
        if pos.is_legal(id) {
            pos.apply_move(id).unwrap();
        }
    }
    assert_eq!(pos.legal_move_count(), 0);
    assert!(pos.legal_moves().is_empty());
}
