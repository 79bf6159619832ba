use dab_core::{BoardGeom, EdgeCoord, Orientation, Position, MAX_COLS, MAX_ROWS};

fn assert_round_trip(geom: BoardGeom) {
    for id in 0..geom.edge_count() {
        let coord = geom.edge_coord(id).expect("coord");
        let back = geom.edge_id(coord).expect("id");
        assert_eq!(back, id, "round-trip failed at edge {id} on {geom:?}");
    }
}

#[test]
fn geom_rejects_invalid_sizes() {
    assert!(BoardGeom::new(0, 3).is_none());
    assert!(BoardGeom::new(3, 0).is_none());
    assert!(BoardGeom::new(MAX_ROWS + 1, 3).is_none());
    assert!(BoardGeom::new(3, MAX_COLS + 1).is_none());
}

#[test]
fn edge_counts_match_formula() {
    let g = BoardGeom::new(3, 4).unwrap();
    assert_eq!(g.box_count(), 12);
    assert_eq!(g.horizontal_count(), 4 * 4); // (3+1)*4
    assert_eq!(g.vertical_count(), 3 * 5);
    assert_eq!(g.edge_count(), 16 + 15);
}

#[test]
fn edge_index_round_trip_multiple_sizes() {
    for rows in 1..=MAX_ROWS {
        for cols in 1..=MAX_COLS {
            let geom = BoardGeom::new(rows, cols).unwrap();
            assert_round_trip(geom);
        }
    }
}

#[test]
fn known_corner_edges_on_2x2() {
    let g = BoardGeom::new(2, 2).unwrap();
    // Top-left horizontal
    assert_eq!(
        g.edge_id(EdgeCoord {
            orientation: Orientation::Horizontal,
            row: 0,
            col: 0
        }),
        Some(0)
    );
    // Bottom-right horizontal (row=2, col=1) → 2*2+1 = 5
    assert_eq!(
        g.edge_id(EdgeCoord {
            orientation: Orientation::Horizontal,
            row: 2,
            col: 1
        }),
        Some(5)
    );
    // First vertical starts after 6 horizontals
    assert_eq!(
        g.edge_id(EdgeCoord {
            orientation: Orientation::Vertical,
            row: 0,
            col: 0
        }),
        Some(6)
    );
    assert_eq!(g.edge_count(), 6 + 6);
}

#[test]
fn box_coord_round_trip() {
    let g = BoardGeom::new(3, 5).unwrap();
    for id in 0..g.box_count() {
        let (r, c) = g.box_coord(id).unwrap();
        assert_eq!(g.box_id(r, c), Some(id));
    }
}

#[test]
fn position_is_copy_and_tracks_bits() {
    fn assert_copy<T: Copy>(_: T) {}
    let geom = BoardGeom::new(5, 5).unwrap();
    let mut pos = Position::new(geom);
    assert_copy(pos);
    // Cheap for search: fixed-size, stack-friendly, no heap.
    assert!(core::mem::size_of::<Position>() <= 64);

    pos.set_edge_drawn(0);
    pos.set_edge_drawn(17);
    pos.set_box_claimed(3);
    assert!(pos.edge_is_drawn(0));
    assert!(pos.edge_is_drawn(17));
    assert!(!pos.edge_is_drawn(1));
    assert!(pos.box_is_claimed(3));
    assert_eq!(pos.edges().count_ones(), 2);
    assert_eq!(pos.boxes().count_ones(), 1);
}

#[test]
fn out_of_range_coords_rejected() {
    let g = BoardGeom::new(2, 3).unwrap();
    assert!(g
        .edge_id(EdgeCoord {
            orientation: Orientation::Horizontal,
            row: 3,
            col: 0
        })
        .is_none());
    assert!(g
        .edge_id(EdgeCoord {
            orientation: Orientation::Horizontal,
            row: 0,
            col: 3
        })
        .is_none());
    assert!(g
        .edge_id(EdgeCoord {
            orientation: Orientation::Vertical,
            row: 2,
            col: 0
        })
        .is_none());
    assert!(g.edge_coord(g.edge_count()).is_none());
}

#[test]
fn geometry_accessors_and_box_bounds() {
    let g = BoardGeom::new(2, 3).unwrap();
    assert_eq!(g.rows(), 2);
    assert_eq!(g.cols(), 3);
    assert_eq!(g.box_id(2, 0), None);
    assert_eq!(g.box_id(0, 3), None);
    assert_eq!(g.box_id(1, 2), Some(5));
    assert_eq!(g.box_coord(6), None);
    assert_eq!(g.box_coord(4), Some((1, 1)));
    // First vertical edge on 2×3 comes after (2+1)*3 = 9 horizontals.
    assert_eq!(
        g.edge_coord(9),
        Some(EdgeCoord {
            orientation: Orientation::Vertical,
            row: 0,
            col: 0
        })
    );
    assert_eq!(
        g.edge_coord(16),
        Some(EdgeCoord {
            orientation: Orientation::Vertical,
            row: 1,
            col: 3
        })
    );
    assert!(BoardGeom::new(8, 8).is_some());
}

#[test]
fn position_clear_bits() {
    let geom = BoardGeom::new(2, 2).unwrap();
    let mut pos = Position::new(geom);
    pos.set_edge_drawn(5);
    pos.set_box_claimed(2);
    pos.clear_edge_drawn(5);
    pos.clear_box_claimed(2);
    assert_eq!(pos, Position::new(geom));
    assert_eq!(pos.geom(), geom);
}
