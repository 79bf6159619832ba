//! Board geometry, canonical edge indexing, and packed position state.
//!
//! # Edge indexing
//!
//! For an `R × C` box grid:
//! - Horizontal edges come first: `(R + 1)` rows × `C` edges (row-major).
//! - Vertical edges follow: `R` rows × `(C + 1)` edges (row-major).
//!
//! Index of horizontal edge at `(row, col)`: `row * C + col`
//! Index of vertical edge at `(row, col)`: `H + row * (C + 1) + col`
//! where `H = (R + 1) * C`.
use vstd::prelude::*;

use crate::bitboard::{BoxBits, EdgeBits};

verus! {

/// Maximum supported box rows (inclusive upper bound is this value).
pub const MAX_ROWS: u8 = 8;

/// Maximum supported box columns.
pub const MAX_COLS: u8 = 8;

/// Edge orientation on the grid.
#[derive(Clone, Copy, Debug, PartialEq, Eq, Hash, Structural)]
pub enum Orientation {
    Horizontal,
    Vertical,
}

/// Grid coordinate of an edge (not yet resolved to a dense index).
#[derive(Clone, Copy, Debug, PartialEq, Eq, Hash, Structural)]
pub struct EdgeCoord {
    pub orientation: Orientation,
    /// For horizontal: `0..=rows`. For vertical: `0..rows`.
    pub row: u8,
    /// For horizontal: `0..cols`. For vertical: `0..=cols`.
    pub col: u8,
}

/// Dense edge id in `0..geom.edge_count()`.
pub type EdgeId = u16;

/// Dense box id in `0..geom.box_count()` (row-major).
pub type BoxId = u16;

/// Immutable geometry for a Dots and Boxes board.
#[derive(Clone, Copy, Debug, PartialEq, Eq, Hash, Structural)]
pub struct BoardGeom {
    rows: u8,
    cols: u8,
}

/// Number of horizontal edges of an `r × c` grid.
pub open spec fn h_count(r: int, c: int) -> int {
    (r + 1) * c
}

/// Number of edges of an `r × c` grid.
pub open spec fn e_count(r: int, c: int) -> int {
    (r + 1) * c + r * (c + 1)
}

/// Dense id of an edge coordinate on an `r × c` grid, if on the board.
pub open spec fn coord_to_id(r: int, c: int, coord: EdgeCoord) -> Option<int> {
    match coord.orientation {
        Orientation::Horizontal => if coord.row <= r && coord.col < c {
            Some(coord.row * c + coord.col)
        } else {
            None
        },
        Orientation::Vertical => if coord.row < r && coord.col <= c {
            Some(h_count(r, c) + coord.row * (c + 1) + coord.col)
        } else {
            None
        },
    }
}

/// Coordinate of a dense edge id on an `r × c` grid, if in range.
pub open spec fn id_to_coord(r: int, c: int, id: int) -> Option<EdgeCoord> {
    if 0 <= id < h_count(r, c) {
        Some(
            EdgeCoord {
                orientation: Orientation::Horizontal,
                row: (id / c) as u8,
                col: (id % c) as u8,
            },
        )
    } else if h_count(r, c) <= id < e_count(r, c) {
        Some(
            EdgeCoord {
                orientation: Orientation::Vertical,
                row: ((id - h_count(r, c)) / (c + 1)) as u8,
                col: ((id - h_count(r, c)) % (c + 1)) as u8,
            },
        )
    } else {
        None
    }
}

impl BoardGeom {
    /// Dimensions within `1..=MAX_ROWS` × `1..=MAX_COLS`.
    #[verifier::type_invariant]
    pub closed spec fn wf(self) -> bool {
        1 <= self.rows <= MAX_ROWS && 1 <= self.cols <= MAX_COLS
    }

    /// Box rows.
    pub closed spec fn nrows(self) -> int {
        self.rows as int
    }

    /// Box columns.
    pub closed spec fn ncols(self) -> int {
        self.cols as int
    }

    /// Number of boxes.
    pub open spec fn nboxes(self) -> int {
        self.nrows() * self.ncols()
    }

    /// Number of horizontal edges.
    pub open spec fn nhoriz(self) -> int {
        h_count(self.nrows(), self.ncols())
    }

    /// Number of edges.
    pub open spec fn nedges(self) -> int {
        e_count(self.nrows(), self.ncols())
    }

    /// Dense id of an edge coordinate, if on the board.
    pub open spec fn spec_edge_id(self, coord: EdgeCoord) -> Option<int> {
        coord_to_id(self.nrows(), self.ncols(), coord)
    }

    /// Coordinate of a dense edge id, if in range.
    pub open spec fn spec_edge_coord(self, id: int) -> Option<EdgeCoord> {
        id_to_coord(self.nrows(), self.ncols(), id)
    }

    /// Dense id of the box at `(row, col)`, if on the board.
    pub open spec fn spec_box_id(self, row: int, col: int) -> Option<int> {
        if 0 <= row < self.nrows() && 0 <= col < self.ncols() {
            Some(row * self.ncols() + col)
        } else {
            None
        }
    }

    /// `(row, col)` of a box id, if in range.
    pub open spec fn spec_box_coord(self, id: int) -> Option<(int, int)> {
        if 0 <= id < self.nboxes() {
            Some((id / self.ncols(), id % self.ncols()))
        } else {
            None
        }
    }

    /// The bounds every well-formed geometry satisfies.
    pub proof fn lemma_bounds(self)
        requires
            self.wf(),
        ensures
            1 <= self.nrows() <= 8,
            1 <= self.ncols() <= 8,
            1 <= self.nboxes() <= 64,
            self.nhoriz() == (self.nrows() + 1) * self.ncols(),
            self.nedges() == self.nhoriz() + self.nrows() * (self.ncols() + 1),
            4 <= self.nedges() <= 144,
            self.nhoriz() <= 72,
    {
        let r = self.nrows();
        let c = self.ncols();
        assert(1 <= r * c <= 64) by (nonlinear_arith)
            requires
                1 <= r <= 8,
                1 <= c <= 8,
        ;
        assert(2 <= (r + 1) * c <= 72) by (nonlinear_arith)
            requires
                1 <= r <= 8,
                1 <= c <= 8,
        ;
        assert(2 <= r * (c + 1) <= 72) by (nonlinear_arith)
            requires
                1 <= r <= 8,
                1 <= c <= 8,
        ;
    }

    /// Create geometry for an `rows × cols` box grid.
    ///
    /// Returns `None` if dimensions are zero or exceed [`MAX_ROWS`]/[`MAX_COLS`].
    pub fn new(rows: u8, cols: u8) -> (r: Option<Self>)
        ensures
            r is Some <==> (1 <= rows <= MAX_ROWS && 1 <= cols <= MAX_COLS),
            r matches Some(g) ==> g.nrows() == rows && g.ncols() == cols && g.wf(),
    {
        if rows == 0 || cols == 0 || rows > MAX_ROWS || cols > MAX_COLS {
            return None;
        }
        let geom = Self { rows, cols };
        proof {
            geom.lemma_bounds();
        }
        // Every supported size fits the edge and box bitboards.
        if geom.edge_count() as usize > 256 {
            return None;
        }
        if geom.box_count() as usize > 128 {
            return None;
        }
        Some(geom)
    }

    #[inline]
    pub fn rows(self) -> (r: u8)
        ensures
            r == self.nrows(),
            1 <= r <= MAX_ROWS,
    {
        proof {
            use_type_invariant(self);
        }
        self.rows
    }

    #[inline]
    pub fn cols(self) -> (r: u8)
        ensures
            r == self.ncols(),
            1 <= r <= MAX_COLS,
    {
        proof {
            use_type_invariant(self);
        }
        self.cols
    }

    /// Number of boxes: `rows * cols`.
    #[inline]
    pub fn box_count(self) -> (r: u16)
        ensures
            r == self.nboxes(),
    {
        proof {
            use_type_invariant(self);
            self.lemma_bounds();
        }
        self.rows as u16 * self.cols as u16
    }

    /// Number of horizontal edges: `(rows + 1) * cols`.
    #[inline]
    pub fn horizontal_count(self) -> (r: u16)
        ensures
            r == self.nhoriz(),
    {
        proof {
            use_type_invariant(self);
            self.lemma_bounds();
        }
        (self.rows as u16 + 1) * self.cols as u16
    }

    /// Number of vertical edges: `rows * (cols + 1)`.
    #[inline]
    pub fn vertical_count(self) -> (r: u16)
        ensures
            r == self.nrows() * (self.ncols() + 1),
    {
        proof {
            use_type_invariant(self);
            self.lemma_bounds();
        }
        self.rows as u16 * (self.cols as u16 + 1)
    }

    /// Total edges (horizontal then vertical).
    #[inline]
    pub fn edge_count(self) -> (r: u16)
        ensures
            r == self.nedges(),
    {
        proof {
            use_type_invariant(self);
            self.lemma_bounds();
        }
        self.horizontal_count() + self.vertical_count()
    }

    /// Convert an edge coordinate to a dense [`EdgeId`].
    pub fn edge_id(self, coord: EdgeCoord) -> (r: Option<EdgeId>)
        ensures
            r matches Some(id) ==> self.spec_edge_id(coord) == Some(id as int),
            r is None ==> self.spec_edge_id(coord) is None,
    {
        proof {
            use_type_invariant(self);
            self.lemma_bounds();
        }
        match coord.orientation {
            Orientation::Horizontal => {
                if coord.row > self.rows || coord.col >= self.cols {
                    return None;
                }
                proof {
                    lemma_mul_add_bound(coord.row as int, self.cols as int, coord.col as int, 8, 8);
                }
                Some(coord.row as u16 * self.cols as u16 + coord.col as u16)
            },
            Orientation::Vertical => {
                if coord.row >= self.rows || coord.col > self.cols {
                    return None;
                }
                let h = self.horizontal_count();
                proof {
                    lemma_mul_add_bound(
                        coord.row as int,
                        self.cols as int + 1,
                        coord.col as int,
                        7,
                        9,
                    );
                }
                Some(h + coord.row as u16 * (self.cols as u16 + 1) + coord.col as u16)
            },
        }
    }

    /// Convert a dense [`EdgeId`] back to an [`EdgeCoord`].
    pub fn edge_coord(self, id: EdgeId) -> (r: Option<EdgeCoord>)
        ensures
            r == self.spec_edge_coord(id as int),
    {
        proof {
            use_type_invariant(self);
            self.lemma_bounds();
        }
        let h = self.horizontal_count();
        if id < h {
            let cols = self.cols as u16;
            proof {
                let r = self.rows as int;
                let c = cols as int;
                assert((r + 1) * c <= 9 * c) by (nonlinear_arith)
                    requires
                        r <= 8,
                        c >= 1,
                ;
                lemma_div_small(id as int, cols as int, 9);
            }
            Some(
                EdgeCoord {
                    orientation: Orientation::Horizontal,
                    row: (id / cols) as u8,
                    col: (id % cols) as u8,
                },
            )
        } else if id < self.edge_count() {
            let local = id - h;
            let stride = self.cols as u16 + 1;
            proof {
                let r = self.rows as int;
                let c = stride as int;
                assert(r * c <= 8 * c) by (nonlinear_arith)
                    requires
                        r <= 8,
                        c >= 1,
                ;
                lemma_div_small(local as int, stride as int, 8);
            }
            Some(
                EdgeCoord {
                    orientation: Orientation::Vertical,
                    row: (local / stride) as u8,
                    col: (local % stride) as u8,
                },
            )
        } else {
            None
        }
    }

    /// Box id for the box whose top-left corner is at grid cell `(row, col)`.
    pub fn box_id(self, row: u8, col: u8) -> (r: Option<BoxId>)
        ensures
            r matches Some(id) ==> self.spec_box_id(row as int, col as int) == Some(id as int),
            r is None ==> self.spec_box_id(row as int, col as int) is None,
    {
        proof {
            use_type_invariant(self);
            self.lemma_bounds();
        }
        if row >= self.rows || col >= self.cols {
            return None;
        }
        proof {
            lemma_mul_add_bound(row as int, self.cols as int, col as int, 8, 8);
        }
        Some(row as u16 * self.cols as u16 + col as u16)
    }

    /// Row/col of a box id.
    pub fn box_coord(self, id: BoxId) -> (r: Option<(u8, u8)>)
        ensures
            r matches Some(rc) ==> self.spec_box_coord(id as int) == Some(
                (rc.0 as int, rc.1 as int),
            ),
            r is None ==> self.spec_box_coord(id as int) is None,
    {
        proof {
            use_type_invariant(self);
            self.lemma_bounds();
        }
        if id >= self.box_count() {
            return None;
        }
        let cols = self.cols as u16;
        proof {
            lemma_div_small(id as int, cols as int, 64);
        }
        Some(((id / cols) as u8, (id % cols) as u8))
    }
}

/// `a * b + c` stays small when its parts do.
pub proof fn lemma_mul_add_bound(a: int, b: int, c: int, amax: int, bmax: int)
    requires
        0 <= a <= amax,
        0 <= b <= bmax,
        0 <= c <= bmax,
        0 <= amax,
        0 <= bmax,
    ensures
        0 <= a * b + c <= amax * bmax + bmax,
        0 <= a * b <= amax * bmax,
{
    assert(0 <= a * b <= amax * bmax) by (nonlinear_arith)
        requires
            0 <= a <= amax,
            0 <= b <= bmax,
    ;
}

/// Quotient and remainder of a small number by a positive divisor.
pub proof fn lemma_div_small(x: int, d: int, bound: int)
    requires
        0 <= x,
        1 <= d,
        x < bound * d,
    ensures
        0 <= x / d < bound,
        0 <= x % d < d,
        x == (x / d) * d + x % d,
{
    assert(x == (x / d) * d + x % d && 0 <= x % d < d) by (nonlinear_arith)
        requires
            0 <= x,
            1 <= d,
    ;
    assert(0 <= x / d < bound) by (nonlinear_arith)
        requires
            0 <= x,
            1 <= d,
            x < bound * d,
    ;
}

/// Packed board state: drawn edges + claimed boxes.
///
/// Box *ownership* (which player scored the box) lives on `Game`;
/// this bitboard only tracks which boxes are complete/claimed in the position.
#[derive(Clone, Copy, Debug, PartialEq, Eq, Hash)]
pub struct Position {
    geom: BoardGeom,
    edges: EdgeBits,
    boxes: BoxBits,
}

/// Abstract state of a [`Position`]: its geometry, drawn edges, claimed boxes.
pub struct PositionView {
    pub geom: BoardGeom,
    pub drawn: Set<int>,
    pub claimed: Set<int>,
}

impl View for Position {
    type V = PositionView;

    open spec fn view(&self) -> PositionView {
        PositionView { geom: self.spec_geom(), drawn: self.drawn(), claimed: self.claimed() }
    }
}

impl Position {
    /// Drawn edges and claimed boxes stay on the board.
    #[verifier::type_invariant]
    pub closed spec fn wf(self) -> bool {
        &&& self.geom.wf()
        &&& forall|i: int| self.edges@.contains(i) ==> 0 <= i < self.geom.nedges()
        &&& forall|i: int| self.boxes@.contains(i) ==> 0 <= i < self.geom.nboxes()
    }

    /// The board geometry.
    pub closed spec fn spec_geom(self) -> BoardGeom {
        self.geom
    }

    /// Drawn edges.
    pub closed spec fn drawn(self) -> Set<int> {
        self.edges@
    }

    /// Claimed boxes.
    pub closed spec fn claimed(self) -> Set<int> {
        self.boxes@
    }

    /// The edge bitboard.
    pub closed spec fn spec_edges(self) -> EdgeBits {
        self.edges
    }

    /// The box bitboard.
    pub closed spec fn spec_boxes(self) -> BoxBits {
        self.boxes
    }

    /// What the type invariant gives a reader.
    pub proof fn lemma_wf(self)
        requires
            self.wf(),
        ensures
            self.spec_geom().wf(),
            forall|i: int| self.drawn().contains(i) ==> 0 <= i < self.spec_geom().nedges(),
            forall|i: int| self.claimed().contains(i) ==> 0 <= i < self.spec_geom().nboxes(),
            self.drawn() == self.spec_edges()@,
            self.claimed() == self.spec_boxes()@,
    {
    }

    /// Positions with the same geometry, edges and boxes are equal.
    pub proof fn lemma_ext(a: Self, b: Self)
        requires
            a.spec_geom() == b.spec_geom(),
            a.drawn() =~= b.drawn(),
            a.claimed() =~= b.claimed(),
        ensures
            a == b,
    {
        EdgeBits::lemma_ext(a.edges, b.edges);
        BoxBits::lemma_ext(a.boxes, b.boxes);
    }

    /// Empty position (no edges drawn, no boxes claimed).
    pub fn new(geom: BoardGeom) -> (r: Self)
        ensures
            r.spec_geom() == geom,
            r.drawn() == Set::<int>::empty(),
            r.claimed() == Set::<int>::empty(),
    {
        proof {
            use_type_invariant(geom);
        }
        Self { geom, edges: EdgeBits::new(), boxes: BoxBits::new() }
    }

    #[inline]
    pub fn geom(self) -> (r: BoardGeom)
        ensures
            r == self.spec_geom(),
            r.wf(),
    {
        proof {
            use_type_invariant(self);
        }
        self.geom
    }

    #[inline]
    pub fn edges(self) -> (r: EdgeBits)
        ensures
            r == self.spec_edges(),
            r@ == self.drawn(),
    {
        self.edges
    }

    #[inline]
    pub fn boxes(self) -> (r: BoxBits)
        ensures
            r == self.spec_boxes(),
            r@ == self.claimed(),
    {
        self.boxes
    }

    #[inline]
    pub fn edge_is_drawn(self, id: EdgeId) -> (r: bool)
        requires
            id < self.spec_geom().nedges(),
        ensures
            r == self.drawn().contains(id as int),
    {
        proof {
            use_type_invariant(self);
            self.geom.lemma_bounds();
        }
        self.edges.get(id)
    }

    #[inline]
    pub fn box_is_claimed(self, id: BoxId) -> (r: bool)
        requires
            id < self.spec_geom().nboxes(),
        ensures
            r == self.claimed().contains(id as int),
    {
        proof {
            use_type_invariant(self);
            self.geom.lemma_bounds();
        }
        self.boxes.get(id)
    }

    /// Mark an edge as drawn. Does not check legality or update boxes.
    #[inline]
    pub fn set_edge_drawn(&mut self, id: EdgeId)
        requires
            id < old(self).spec_geom().nedges(),
        ensures
            final(self).spec_geom() == old(self).spec_geom(),
            final(self).drawn() == old(self).drawn().insert(id as int),
            final(self).claimed() == old(self).claimed(),
    {
        proof {
            use_type_invariant(&*self);
            self.geom.lemma_bounds();
        }
        self.edges.set(id);
    }

    /// Clear a drawn edge (for undo / testing).
    #[inline]
    pub fn clear_edge_drawn(&mut self, id: EdgeId)
        requires
            id < old(self).spec_geom().nedges(),
        ensures
            final(self).spec_geom() == old(self).spec_geom(),
            final(self).drawn() == old(self).drawn().remove(id as int),
            final(self).claimed() == old(self).claimed(),
    {
        proof {
            use_type_invariant(&*self);
            self.geom.lemma_bounds();
        }
        self.edges.clear(id);
    }

    /// Mark a box as claimed.
    #[inline]
    pub fn set_box_claimed(&mut self, id: BoxId)
        requires
            id < old(self).spec_geom().nboxes(),
        ensures
            final(self).spec_geom() == old(self).spec_geom(),
            final(self).drawn() == old(self).drawn(),
            final(self).claimed() == old(self).claimed().insert(id as int),
    {
        proof {
            use_type_invariant(&*self);
            self.geom.lemma_bounds();
        }
        self.boxes.set(id);
    }

    /// Clear a claimed box (for undo / testing).
    #[inline]
    pub fn clear_box_claimed(&mut self, id: BoxId)
        requires
            id < old(self).spec_geom().nboxes(),
        ensures
            final(self).spec_geom() == old(self).spec_geom(),
            final(self).drawn() == old(self).drawn(),
            final(self).claimed() == old(self).claimed().remove(id as int),
    {
        proof {
            use_type_invariant(&*self);
            self.geom.lemma_bounds();
        }
        self.boxes.clear(id);
    }
}

} // verus!

verus! {

/// Resolving a coordinate to an id and back gives the same coordinate.
pub proof fn law_coord_round_trip(geom: BoardGeom, k: EdgeCoord)
    requires
        geom.wf(),
        geom.spec_edge_id(k) is Some,
    ensures
        geom.spec_edge_coord(geom.spec_edge_id(k)->0) == Some(k),
{
    geom.lemma_bounds();
    let r = geom.nrows();
    let c = geom.ncols();
    let e = geom.spec_edge_id(k)->0;
    match k.orientation {
        Orientation::Horizontal => {
            assert(k.row * c + k.col < (r + 1) * c) by (nonlinear_arith)
                requires
                    0 <= k.row <= r,
                    0 <= k.col < c,
            ;
            assert(0 <= k.row * c) by (nonlinear_arith)
                requires
                    0 <= k.row,
                    0 <= c,
            ;
            vstd::arithmetic::div_mod::lemma_fundamental_div_mod_converse(e, c, k.row as int, k.col as int);
        },
        Orientation::Vertical => {
            assert(k.row * (c + 1) + k.col < r * (c + 1)) by (nonlinear_arith)
                requires
                    0 <= k.row < r,
                    0 <= k.col <= c,
            ;
            assert(0 <= k.row * (c + 1)) by (nonlinear_arith)
                requires
                    0 <= k.row,
                    0 <= c,
            ;
            vstd::arithmetic::div_mod::lemma_fundamental_div_mod_converse(
                e - geom.nhoriz(),
                c + 1,
                k.row as int,
                k.col as int,
            );
        },
    }
}

/// Every edge id on the board resolves to a coordinate that maps back to it.
pub proof fn law_id_round_trip(geom: BoardGeom, e: int)
    requires
        geom.wf(),
        0 <= e < geom.nedges(),
    ensures
        geom.spec_edge_coord(e) is Some,
        geom.spec_edge_id(geom.spec_edge_coord(e)->0) == Some(e),
{
    geom.lemma_coord_of_id(e);
}

/// Box ids and box coordinates are inverse on the board.
pub proof fn law_box_round_trip(geom: BoardGeom, b: int, row: int, col: int)
    requires
        geom.wf(),
    ensures
        0 <= b < geom.nboxes() ==> (geom.spec_box_coord(b) matches Some(rc) && geom.spec_box_id(
            rc.0,
            rc.1,
        ) == Some(b)),
        geom.spec_box_id(row, col) matches Some(id) ==> geom.spec_box_coord(id) == Some((row, col)),
{
    geom.lemma_bounds();
    let c = geom.ncols();
    if 0 <= b < geom.nboxes() {
        lemma_div_small(b, c, geom.nrows());
    }
    if 0 <= row < geom.nrows() && 0 <= col < c {
        let id = row * c + col;
        assert(id < geom.nboxes()) by (nonlinear_arith)
            requires
                id == row * c + col,
                0 <= row < geom.nrows(),
                0 <= col < c,
                geom.nboxes() == geom.nrows() * c,
        ;
        assert(0 <= row * c) by (nonlinear_arith)
            requires
                0 <= row,
                0 <= c,
        ;
        vstd::arithmetic::div_mod::lemma_fundamental_div_mod_converse(id, c, row, col);
    }
}

} // verus!
