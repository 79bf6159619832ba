//! Board symmetries acting on edges: the dihedral group of a square board and
//! the four symmetries of a rectangle.
use vstd::prelude::*;

use crate::board::{BoardGeom, EdgeCoord, EdgeId, Orientation};

verus! {

/// A symmetry of the board, acting on dot coordinates `(row, col)` with
/// `0 <= row <= rows` and `0 <= col <= cols`.
#[derive(Clone, Copy, Debug, PartialEq, Eq, Structural)]
pub enum Symmetry {
    Identity,
    Rot90,
    Rot180,
    Rot270,
    FlipH,
    FlipV,
    Transpose,
    AntiTranspose,
}

/// Symmetries that only exist on a square board.
pub open spec fn square_only(s: Symmetry) -> bool {
    s is Rot90 || s is Rot270 || s is Transpose || s is AntiTranspose
}

/// `s` is a symmetry of a `rows × cols` board.
pub open spec fn sym_allowed(s: Symmetry, rows: int, cols: int) -> bool {
    square_only(s) ==> rows == cols
}

/// Image of dot `(r, c)` under `s` on a `rows × cols` board.
pub open spec fn sym_dot(s: Symmetry, rows: int, cols: int, r: int, c: int) -> (int, int) {
    match s {
        Symmetry::Identity => (r, c),
        Symmetry::Rot90 => (c, rows - r),
        Symmetry::Rot180 => (rows - r, cols - c),
        Symmetry::Rot270 => (rows - c, r),
        Symmetry::FlipH => (r, cols - c),
        Symmetry::FlipV => (rows - r, c),
        Symmetry::Transpose => (c, r),
        Symmetry::AntiTranspose => (cols - c, rows - r),
    }
}

/// The two end dots of an edge: left then right, or top then bottom.
pub open spec fn coord_dots(k: EdgeCoord) -> (int, int, int, int) {
    match k.orientation {
        Orientation::Horizontal => (k.row as int, k.col as int, k.row as int, k.col + 1),
        Orientation::Vertical => (k.row as int, k.col as int, k.row + 1, k.col as int),
    }
}

/// The edge joining two adjacent dots.
pub open spec fn dots_coord(r1: int, c1: int, r2: int, c2: int) -> EdgeCoord {
    if r1 == r2 {
        EdgeCoord {
            orientation: Orientation::Horizontal,
            row: r1 as u8,
            col: if c1 <= c2 {
                c1 as u8
            } else {
                c2 as u8
            },
        }
    } else {
        EdgeCoord {
            orientation: Orientation::Vertical,
            row: if r1 <= r2 {
                r1 as u8
            } else {
                r2 as u8
            },
            col: c1 as u8,
        }
    }
}

/// Image of edge coordinate `k` under `s` on a `rows × cols` board.
pub open spec fn map_coord(s: Symmetry, rows: int, cols: int, k: EdgeCoord) -> EdgeCoord {
    let (r1, c1, r2, c2) = coord_dots(k);
    let (a1, b1) = sym_dot(s, rows, cols, r1, c1);
    let (a2, b2) = sym_dot(s, rows, cols, r2, c2);
    dots_coord(a1, b1, a2, b2)
}

/// `k` names an edge of a `rows × cols` board.
pub open spec fn on_board(rows: int, cols: int, k: EdgeCoord) -> bool {
    match k.orientation {
        Orientation::Horizontal => k.row <= rows && k.col < cols,
        Orientation::Vertical => k.row < rows && k.col <= cols,
    }
}

/// Image of edge id `e` under `s`.
pub open spec fn spec_map_edge(geom: BoardGeom, s: Symmetry, e: int) -> int {
    let k = geom.spec_edge_coord(e)->0;
    geom.spec_edge_id(map_coord(s, geom.nrows(), geom.ncols(), k))->0
}

/// A symmetry maps edges of the board to edges of the board.
pub proof fn lemma_map_coord_on_board(s: Symmetry, rows: int, cols: int, k: EdgeCoord)
    requires
        1 <= rows <= 8,
        1 <= cols <= 8,
        sym_allowed(s, rows, cols),
        on_board(rows, cols, k),
    ensures
        on_board(rows, cols, map_coord(s, rows, cols, k)),
{
}

/// Edge coordinates on the board are edges with ids.
proof fn lemma_on_board_id(geom: BoardGeom, k: EdgeCoord)
    requires
        geom.wf(),
    ensures
        on_board(geom.nrows(), geom.ncols(), k) <==> geom.spec_edge_id(k) is Some,
{
}

/// Each edge id on the board names an on-board coordinate.
proof fn lemma_coord_on_board(geom: BoardGeom, e: int)
    requires
        geom.wf(),
        0 <= e < geom.nedges(),
    ensures
        geom.spec_edge_coord(e) is Some,
        on_board(geom.nrows(), geom.ncols(), geom.spec_edge_coord(e)->0),
{
    crate::board::law_id_round_trip(geom, e);
}

/// A symmetry maps edge ids of the board to edge ids of the board.
pub proof fn lemma_map_edge_in_range(geom: BoardGeom, s: Symmetry, e: int)
    requires
        geom.wf(),
        sym_allowed(s, geom.nrows(), geom.ncols()),
        0 <= e < geom.nedges(),
    ensures
        0 <= spec_map_edge(geom, s, e) < geom.nedges(),
        geom.spec_edge_id(map_coord(s, geom.nrows(), geom.ncols(), geom.spec_edge_coord(e)->0))
            is Some,
{
    geom.lemma_bounds();
    lemma_coord_on_board(geom, e);
    let k = geom.spec_edge_coord(e)->0;
    let m = map_coord(s, geom.nrows(), geom.ncols(), k);
    lemma_map_coord_on_board(s, geom.nrows(), geom.ncols(), k);
    lemma_on_board_id(geom, m);
    crate::board::law_coord_round_trip(geom, m);
    let id = geom.spec_edge_id(m)->0;
    if !(0 <= id < geom.nedges()) {
        assert(geom.spec_edge_coord(id) is None);
    }
}

/// Mapping an edge id goes through the mapped coordinate.
proof fn lemma_map_edge_coord(geom: BoardGeom, s: Symmetry, e: int)
    requires
        geom.wf(),
        sym_allowed(s, geom.nrows(), geom.ncols()),
        0 <= e < geom.nedges(),
    ensures
        geom.spec_edge_coord(spec_map_edge(geom, s, e)) == Some(
            map_coord(s, geom.nrows(), geom.ncols(), geom.spec_edge_coord(e)->0),
        ),
{
    lemma_map_edge_in_range(geom, s, e);
    let m = map_coord(s, geom.nrows(), geom.ncols(), geom.spec_edge_coord(e)->0);
    crate::board::law_coord_round_trip(geom, m);
}

/// Four quarter turns of a square board are the identity on edges.
pub proof fn law_rot90_order_four(geom: BoardGeom, e: int)
    requires
        geom.wf(),
        geom.nrows() == geom.ncols(),
        0 <= e < geom.nedges(),
    ensures
        spec_map_edge(
            geom,
            Symmetry::Rot90,
            spec_map_edge(
                geom,
                Symmetry::Rot90,
                spec_map_edge(geom, Symmetry::Rot90, spec_map_edge(geom, Symmetry::Rot90, e)),
            ),
        ) == e,
{
    let n = geom.nrows();
    let s = Symmetry::Rot90;
    let e1 = spec_map_edge(geom, s, e);
    lemma_map_edge_in_range(geom, s, e);
    lemma_map_edge_coord(geom, s, e);
    let e2 = spec_map_edge(geom, s, e1);
    lemma_map_edge_in_range(geom, s, e1);
    lemma_map_edge_coord(geom, s, e1);
    let e3 = spec_map_edge(geom, s, e2);
    lemma_map_edge_in_range(geom, s, e2);
    lemma_map_edge_coord(geom, s, e2);
    lemma_map_edge_coord(geom, s, e3);
    let k = geom.spec_edge_coord(e)->0;
    lemma_coord_on_board(geom, e);
    geom.lemma_bounds();
    let k4 = map_coord(s, n, n, map_coord(s, n, n, map_coord(s, n, n, map_coord(s, n, n, k))));
    assert(k4 == k);
    crate::board::law_id_round_trip(geom, e);
}

/// Mirroring left–right twice is the identity on edges.
pub proof fn law_flip_h_involution(geom: BoardGeom, e: int)
    requires
        geom.wf(),
        0 <= e < geom.nedges(),
    ensures
        spec_map_edge(geom, Symmetry::FlipH, spec_map_edge(geom, Symmetry::FlipH, e)) == e,
{
    let s = Symmetry::FlipH;
    let e1 = spec_map_edge(geom, s, e);
    lemma_map_edge_in_range(geom, s, e);
    lemma_map_edge_coord(geom, s, e);
    lemma_map_edge_coord(geom, s, e1);
    lemma_coord_on_board(geom, e);
    geom.lemma_bounds();
    crate::board::law_id_round_trip(geom, e);
}

/// Mirroring top–bottom twice is the identity on edges.
pub proof fn law_flip_v_involution(geom: BoardGeom, e: int)
    requires
        geom.wf(),
        0 <= e < geom.nedges(),
    ensures
        spec_map_edge(geom, Symmetry::FlipV, spec_map_edge(geom, Symmetry::FlipV, e)) == e,
{
    let s = Symmetry::FlipV;
    let e1 = spec_map_edge(geom, s, e);
    lemma_map_edge_in_range(geom, s, e);
    lemma_map_edge_coord(geom, s, e);
    lemma_map_edge_coord(geom, s, e1);
    lemma_coord_on_board(geom, e);
    geom.lemma_bounds();
    crate::board::law_id_round_trip(geom, e);
}

/// Image of dot `(r, c)` under `s`.
fn map_dot(s: Symmetry, rows: u8, cols: u8, r: u8, c: u8) -> (d: (u8, u8))
    requires
        r <= rows,
        c <= cols,
        sym_allowed(s, rows as int, cols as int),
    ensures
        (d.0 as int, d.1 as int) == sym_dot(s, rows as int, cols as int, r as int, c as int),
{
    match s {
        Symmetry::Identity => (r, c),
        Symmetry::Rot90 => (c, rows - r),
        Symmetry::Rot180 => (rows - r, cols - c),
        Symmetry::Rot270 => (rows - c, r),
        Symmetry::FlipH => (r, cols - c),
        Symmetry::FlipV => (rows - r, c),
        Symmetry::Transpose => (c, r),
        Symmetry::AntiTranspose => (cols - c, rows - r),
    }
}

/// The edge joining two adjacent dots.
fn edge_from_dots(geom: BoardGeom, r1: u8, c1: u8, r2: u8, c2: u8) -> (e: EdgeId)
    requires
        geom.spec_edge_id(dots_coord(r1 as int, c1 as int, r2 as int, c2 as int)) is Some,
    ensures
        e as int == geom.spec_edge_id(dots_coord(r1 as int, c1 as int, r2 as int, c2 as int))->0,
{
    let coord = if r1 == r2 {
        EdgeCoord {
            orientation: Orientation::Horizontal,
            row: r1,
            col: if c1 <= c2 {
                c1
            } else {
                c2
            },
        }
    } else {
        EdgeCoord {
            orientation: Orientation::Vertical,
            row: if r1 <= r2 {
                r1
            } else {
                r2
            },
            col: c1,
        }
    };
    match geom.edge_id(coord) {
        Some(e) => e,
        None => 0,
    }
}

/// Image of edge `id` under symmetry `s`.
pub fn map_edge(geom: BoardGeom, id: EdgeId, s: Symmetry) -> (r: EdgeId)
    requires
        id < geom.nedges(),
        sym_allowed(s, geom.nrows(), geom.ncols()),
    ensures
        r as int == spec_map_edge(geom, s, id as int),
        r < geom.nedges(),
{
    proof {
        use_type_invariant(geom);
        geom.lemma_bounds();
        lemma_coord_on_board(geom, id as int);
        lemma_map_edge_in_range(geom, s, id as int);
    }
    let coord = match geom.edge_coord(id) {
        Some(k) => k,
        None => return 0,
    };
    let rows = geom.rows();
    let cols = geom.cols();
    let (r1, c1, r2, c2) = match coord.orientation {
        Orientation::Horizontal => (coord.row, coord.col, coord.row, coord.col + 1),
        Orientation::Vertical => (coord.row, coord.col, coord.row + 1, coord.col),
    };
    let (a_r, a_c) = map_dot(s, rows, cols, r1, c1);
    let (b_r, b_c) = map_dot(s, rows, cols, r2, c2);
    edge_from_dots(geom, a_r, a_c, b_r, b_c)
}

} // verus!
