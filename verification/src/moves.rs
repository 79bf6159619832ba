//! Legal move generation and make/unmake over [`Position`].
use vstd::prelude::*;

use crate::board::{
    lemma_div_small, lemma_mul_add_bound, BoardGeom, BoxId, EdgeCoord, EdgeId, Orientation,
    Position, PositionView,
};

verus! {

/// Maximum boxes an edge can complete in one move (shared by two boxes).
pub const MAX_COMPLETED_PER_MOVE: usize = 2;

/// Error applying a move.
#[derive(Clone, Copy, Debug, PartialEq, Eq, Structural)]
pub enum MoveError {
    /// Edge id is outside `0..edge_count`.
    OutOfRange,
    /// Edge is already drawn.
    AlreadyDrawn,
}

/// Boxes completed by a successful move (0–2).
#[derive(Clone, Copy, Debug, PartialEq, Eq)]
pub struct CompletedBoxes {
    boxes: [BoxId; MAX_COMPLETED_PER_MOVE],
    len: u8,
}

impl View for CompletedBoxes {
    type V = Seq<BoxId>;

    /// The completed boxes, in the order they were claimed.
    closed spec fn view(&self) -> Seq<BoxId> {
        self.boxes@.subrange(0, self.len as int)
    }
}

impl Default for CompletedBoxes {
    fn default() -> (r: Self)
        ensures
            r@ == Seq::<BoxId>::empty(),
    {
        let r = CompletedBoxes { boxes: [0u16, 0u16], len: 0 };
        assert(r@ =~= Seq::<BoxId>::empty());
        r
    }
}

impl CompletedBoxes {
    #[verifier::type_invariant]
    closed spec fn wf(self) -> bool {
        self.len as usize <= MAX_COMPLETED_PER_MOVE
    }

    #[inline]
    pub fn len(self) -> (r: usize)
        ensures
            r == self@.len(),
            r <= 2,
    {
        proof {
            use_type_invariant(self);
        }
        self.len as usize
    }

    #[inline]
    pub fn is_empty(self) -> (r: bool)
        ensures
            r == (self@.len() == 0),
    {
        proof {
            use_type_invariant(self);
        }
        self.len == 0
    }

    #[inline]
    pub fn as_slice(&self) -> (r: &[BoxId])
        ensures
            r@ == self@,
    {
        proof {
            use_type_invariant(self);
        }
        vstd::slice::slice_subrange(self.boxes.as_slice(), 0, self.len as usize)
    }

    /// The `i`-th completed box.
    #[inline]
    pub fn get(self, i: usize) -> (r: BoxId)
        requires
            i < self@.len(),
        ensures
            r == self@[i as int],
    {
        proof {
            use_type_invariant(self);
        }
        self.boxes[i]
    }

    #[inline]
    fn push(&mut self, id: BoxId)
        requires
            old(self)@.len() < MAX_COMPLETED_PER_MOVE,
        ensures
            final(self)@ == old(self)@.push(id),
    {
        proof {
            use_type_invariant(&*self);
        }
        let ghost before = *self;
        let n = self.len as usize;
        self.boxes[n] = id;
        self.len = self.len + 1;
        assert(self@ =~= before@.push(id));
    }
}

/// Token that reverses a previous [`Position::apply_move`].
#[derive(Clone, Copy, Debug, PartialEq, Eq)]
pub struct Undo {
    edge: EdgeId,
    completed: CompletedBoxes,
}

impl Undo {
    /// The drawn edge.
    pub closed spec fn spec_edge(self) -> EdgeId {
        self.edge
    }

    /// The boxes the move claimed.
    pub closed spec fn spec_completed(self) -> CompletedBoxes {
        self.completed
    }

    #[inline]
    pub fn edge(self) -> (r: EdgeId)
        ensures
            r == self.spec_edge(),
    {
        self.edge
    }

    #[inline]
    pub fn completed(self) -> (r: CompletedBoxes)
        ensures
            r == self.spec_completed(),
    {
        self.completed
    }
}

impl BoardGeom {
    /// The four sides of box `(row, col)`: top, bottom, left, right.
    pub open spec fn spec_box_edges(self, row: int, col: int) -> Seq<int> {
        let c = self.ncols();
        let h = self.nhoriz();
        seq![
            row * c + col,
            (row + 1) * c + col,
            h + row * (c + 1) + col,
            h + row * (c + 1) + col + 1,
        ]
    }

    /// The four sides of box id `b`.
    pub open spec fn box_sides(self, b: int) -> Seq<int> {
        self.spec_box_edges(b / self.ncols(), b % self.ncols())
    }

    /// Boxes adjacent to edge `e`, in the order `boxes_touching_edge` reports them.
    pub open spec fn touching(self, e: int) -> Seq<int> {
        let c = self.ncols();
        match self.spec_edge_coord(e) {
            None => Seq::empty(),
            Some(k) => match k.orientation {
                Orientation::Horizontal => (if k.row > 0 {
                    seq![(k.row - 1) * c + k.col]
                } else {
                    Seq::empty()
                }) + (if k.row < self.nrows() {
                    seq![k.row * c + k.col]
                } else {
                    Seq::empty()
                }),
                Orientation::Vertical => (if k.col > 0 {
                    seq![k.row * c + k.col - 1]
                } else {
                    Seq::empty()
                }) + (if k.col < c {
                    seq![k.row * c + k.col]
                } else {
                    Seq::empty()
                }),
            },
        }
    }

    /// The four sides of box `(row, col)`, in order: top, bottom, left, right.
    pub fn box_edges(self, row: u8, col: u8) -> (r: Option<[EdgeId; 4]>)
        ensures
            r is Some <==> (row < self.nrows() && col < self.ncols()),
            r matches Some(a) ==> forall|i: int|
                0 <= i < 4 ==> a[i] as int == #[trigger] self.spec_box_edges(
                    row as int,
                    col as int,
                )[i],
    {
        if row >= self.rows() || col >= self.cols() {
            return None;
        }
        proof {
            use_type_invariant(self);
            self.lemma_box_edges_in_range(row as int, col as int);
        }
        let top = match self.edge_id(
            EdgeCoord { orientation: Orientation::Horizontal, row, col },
        ) {
            Some(e) => e,
            None => return None,
        };
        let bottom = match self.edge_id(
            EdgeCoord { orientation: Orientation::Horizontal, row: row + 1, col },
        ) {
            Some(e) => e,
            None => return None,
        };
        let left = match self.edge_id(
            EdgeCoord { orientation: Orientation::Vertical, row, col },
        ) {
            Some(e) => e,
            None => return None,
        };
        let right = match self.edge_id(
            EdgeCoord { orientation: Orientation::Vertical, row, col: col + 1 },
        ) {
            Some(e) => e,
            None => return None,
        };
        let a = [top, bottom, left, right];
        proof {
            let s = self.spec_box_edges(row as int, col as int);
            assert(a[0] as int == s[0] && a[1] as int == s[1] && a[2] as int == s[2] && a[3] as int
                == s[3]);
        }
        Some(a)
    }

    proof fn lemma_box_edges_in_range(self, row: int, col: int)
        requires
            self.wf(),
            0 <= row < self.nrows(),
            0 <= col < self.ncols(),
        ensures
            forall|i: int|
                0 <= i < 4 ==> 0 <= #[trigger] self.spec_box_edges(row, col)[i] < self.nedges(),
    {
        self.lemma_bounds();
        let r = self.nrows();
        let c = self.ncols();
        assert((row + 2) * c <= (r + 1) * c) by (nonlinear_arith)
            requires
                row + 1 <= r,
                0 <= c,
        ;
        assert((row + 2) * c == (row + 1) * c + c) by (nonlinear_arith);
        assert((row + 1) * (c + 1) <= r * (c + 1)) by (nonlinear_arith)
            requires
                row + 1 <= r,
                0 <= c,
        ;
        assert((row + 1) * (c + 1) == row * (c + 1) + c + 1) by (nonlinear_arith);
        assert(row * c <= (row + 1) * c) by (nonlinear_arith)
            requires
                0 <= c,
        ;
        let s = self.spec_box_edges(row, col);
        assert(0 <= s[0] < self.nedges());
        assert(0 <= s[1] < self.nedges());
        assert(0 <= s[2] < self.nedges());
        assert(0 <= s[3] < self.nedges());
        assert(0 <= row * c && 0 <= row * (c + 1)) by (nonlinear_arith)
            requires
                0 <= row,
                0 <= c,
        ;
    }

    /// Every side of a box is on the board.
    pub proof fn lemma_box_sides_in_range(self, b: int)
        requires
            self.wf(),
            0 <= b < self.nboxes(),
        ensures
            forall|i: int| 0 <= i < 4 ==> 0 <= #[trigger] self.box_sides(b)[i] < self.nedges(),
    {
        self.lemma_bounds();
        lemma_div_small(b, self.ncols(), self.nrows());
        self.lemma_box_edges_in_range(b / self.ncols(), b % self.ncols());
    }

    /// Every box adjacent to an edge is on the board.
    pub proof fn lemma_touching_in_range(self, e: int)
        requires
            self.wf(),
        ensures
            self.touching(e).len() <= 2,
            self.touching(e).len() == 2 ==> self.touching(e)[0] < self.touching(e)[1],
            forall|i: int|
                0 <= i < self.touching(e).len() ==> 0 <= #[trigger] self.touching(e)[i]
                    < self.nboxes(),
    {
        self.lemma_bounds();
        let r = self.nrows();
        let c = self.ncols();
        if let Some(k) = self.spec_edge_coord(e) {
            self.lemma_coord_of_id(e);
            match k.orientation {
                Orientation::Horizontal => {
                    assert((k.row - 1) * c == k.row * c - c) by (nonlinear_arith);
                    if k.row > 0 {
                        lemma_mul_add_bound(k.row - 1, c, k.col as int, 8, 8);
                        assert((k.row - 1) * c + k.col < r * c) by (nonlinear_arith)
                            requires
                                k.row <= r,
                                k.col < c,
                        ;
                    }
                    if k.row < r {
                        lemma_mul_add_bound(k.row as int, c, k.col as int, 8, 8);
                        assert(k.row * c + k.col < r * c) by (nonlinear_arith)
                            requires
                                k.row < r,
                                k.col < c,
                        ;
                    }
                },
                Orientation::Vertical => {
                    lemma_mul_add_bound(k.row as int, c, k.col as int, 8, 8);
                    if k.col > 0 {
                        assert(k.row * c + k.col - 1 < r * c) by (nonlinear_arith)
                            requires
                                k.row < r,
                                k.col <= c,
                        ;
                    }
                    if k.col < c {
                        assert(k.row * c + k.col < r * c) by (nonlinear_arith)
                            requires
                                k.row < r,
                                k.col < c,
                        ;
                    }
                },
            }
        }
    }

    /// The coordinate of an in-range edge id is on the board and maps back to the id.
    pub proof fn lemma_coord_of_id(self, e: int)
        requires
            self.wf(),
            self.spec_edge_coord(e) is Some,
        ensures
            self.spec_edge_coord(e) matches Some(k) && (match k.orientation {
                Orientation::Horizontal => k.row <= self.nrows() && k.col < self.ncols() && e == k.row
                    * self.ncols() + k.col,
                Orientation::Vertical => k.row < self.nrows() && k.col <= self.ncols() && e
                    == self.nhoriz() + k.row * (self.ncols() + 1) + k.col,
            }),
    {
        self.lemma_bounds();
        let r = self.nrows();
        let c = self.ncols();
        if e < self.nhoriz() {
            assert((r + 1) * c <= 9 * c) by (nonlinear_arith)
                requires
                    r <= 8,
                    c >= 1,
            ;
            lemma_div_small(e, c, 9);
            assert(e / c <= r) by (nonlinear_arith)
                requires
                    0 <= e < (r + 1) * c,
                    c >= 1,
                    e == (e / c) * c + e % c,
                    0 <= e % c < c,
            ;
            assert(e == (e / c) * c + e % c);
        } else {
            let l = e - self.nhoriz();
            assert(r * (c + 1) <= 8 * (c + 1)) by (nonlinear_arith)
                requires
                    r <= 8,
                    c >= 1,
            ;
            lemma_div_small(l, c + 1, 8);
            assert(l / (c + 1) < r) by (nonlinear_arith)
                requires
                    0 <= l < r * (c + 1),
                    c >= 1,
                    l == (l / (c + 1)) * (c + 1) + l % (c + 1),
                    0 <= l % (c + 1) < c + 1,
            ;
        }
    }

    /// Every box adjacent to an edge is on the board and has the edge as a side.
    pub proof fn lemma_touching_side(self, e: int, b: int)
        requires
            self.wf(),
            self.touching(e).contains(b),
        ensures
            0 <= b < self.nboxes(),
            self.box_sides(b).contains(e),
    {
        self.lemma_bounds();
        self.lemma_touching_in_range(e);
        let r = self.nrows();
        let c = self.ncols();
        let h = self.nhoriz();
        self.lemma_coord_of_id(e);
        let k = self.spec_edge_coord(e)->0;
        let t = self.touching(e);
        let i = choose|i: int| 0 <= i < t.len() && t[i] == b;
        let row = k.row as int;
        let col = k.col as int;
        match k.orientation {
            Orientation::Horizontal => {
                if row > 0 && i == 0 {
                    assert(b == (row - 1) * c + col);
                    vstd::arithmetic::div_mod::lemma_fundamental_div_mod_converse(b, c, row - 1, col);
                    assert(self.box_sides(b)[1] == (row - 1 + 1) * c + col);
                    assert((row - 1 + 1) * c + col == e) by (nonlinear_arith)
                        requires
                            e == row * c + col,
                    ;
                    assert(self.box_sides(b)[1] == e);
                } else {
                    assert(b == row * c + col);
                    vstd::arithmetic::div_mod::lemma_fundamental_div_mod_converse(b, c, row, col);
                    assert(self.box_sides(b)[0] == e);
                }
            },
            Orientation::Vertical => {
                if col > 0 && i == 0 {
                    assert(b == row * c + col - 1);
                    vstd::arithmetic::div_mod::lemma_fundamental_div_mod_converse(b, c, row, col - 1);
                    assert(self.box_sides(b)[3] == h + row * (c + 1) + (col - 1) + 1);
                    assert(self.box_sides(b)[3] == e);
                } else {
                    assert(b == row * c + col);
                    vstd::arithmetic::div_mod::lemma_fundamental_div_mod_converse(b, c, row, col);
                    assert(self.box_sides(b)[2] == e);
                }
            },
        }
    }

    /// Each side of a box is an edge that reports the box as adjacent.
    pub proof fn lemma_side_touches(self, b: int, i: int)
        requires
            self.wf(),
            0 <= b < self.nboxes(),
            0 <= i < 4,
        ensures
            self.touching(self.box_sides(b)[i]).contains(b),
    {
        self.lemma_bounds();
        let r = self.nrows();
        let c = self.ncols();
        let h = self.nhoriz();
        lemma_div_small(b, c, r);
        let br = b / c;
        let bc = b % c;
        self.lemma_box_edges_in_range(br, bc);
        let e = self.box_sides(b)[i];
        if i == 0 || i == 1 {
            let row = if i == 0 {
                br
            } else {
                br + 1
            };
            assert(e == row * c + bc);
            assert(row * c + bc < (r + 1) * c) by (nonlinear_arith)
                requires
                    0 <= row <= r,
                    0 <= bc < c,
            ;
            assert(e < h);
            vstd::arithmetic::div_mod::lemma_fundamental_div_mod_converse(e, c, row, bc);
            let k = self.spec_edge_coord(e)->0;
            assert(k.row == row && k.col == bc);
            let t = self.touching(e);
            if i == 0 {
                assert(t.contains(b)) by {
                    if row > 0 {
                        assert(t[1] == b);
                    } else {
                        assert(t[0] == b);
                    }
                }
            } else {
                assert(t[0] == (row - 1) * c + bc);
            }
        } else {
            let col = if i == 2 {
                bc
            } else {
                bc + 1
            };
            let l = br * (c + 1) + col;
            assert(e == h + l);
            assert(0 <= br * (c + 1)) by (nonlinear_arith)
                requires
                    0 <= br,
                    0 <= c,
            ;
            vstd::arithmetic::div_mod::lemma_fundamental_div_mod_converse(l, c + 1, br, col);
            let k = self.spec_edge_coord(e)->0;
            assert(k.row == br && k.col == col);
            assert(br * c + col == br * (c + 1) + col - br) by (nonlinear_arith);
            let t = self.touching(e);
            if i == 2 {
                assert(t.contains(b)) by {
                    if col > 0 {
                        assert(t[1] == b);
                    } else {
                        assert(t[0] == b);
                    }
                }
            } else {
                assert(t[0] == b);
            }
        }
    }

    /// The box across side `i` of box `b` (top, bottom, left, right), when
    /// [`Self::has_across`] says it exists.
    pub open spec fn across_box(self, b: int, i: int) -> int {
        if i == 0 {
            b - self.ncols()
        } else if i == 1 {
            b + self.ncols()
        } else if i == 2 {
            b - 1
        } else {
            b + 1
        }
    }

    /// Box `b` has a neighbour on the board across its side `i`.
    pub open spec fn has_across(self, b: int, i: int) -> bool {
        let row = b / self.ncols();
        let col = b % self.ncols();
        if i == 0 {
            row > 0
        } else if i == 1 {
            row < self.nrows() - 1
        } else if i == 2 {
            col > 0
        } else {
            col < self.ncols() - 1
        }
    }

    /// The side of the neighbour facing back: bottom for top, right for left.
    pub open spec fn opposite_side(i: int) -> int {
        if i == 0 {
            1
        } else if i == 1 {
            0
        } else if i == 2 {
            3
        } else {
            2
        }
    }

    /// The boxes along side `i` of box `b` are `b` and, when it exists, the box
    /// across; that box has the same edge as its opposite side and `b` across it.
    pub proof fn lemma_side_boxes(self, b: int, i: int)
        requires
            self.wf(),
            0 <= b < self.nboxes(),
            0 <= i < 4,
        ensures
            self.touching(self.box_sides(b)[i]).contains(b),
            forall|k: int|
                0 <= k < self.touching(self.box_sides(b)[i]).len() ==> (#[trigger] self.touching(
                    self.box_sides(b)[i],
                )[k] == b || (self.has_across(b, i) && self.touching(self.box_sides(b)[i])[k]
                    == self.across_box(b, i))),
            self.has_across(b, i) ==> {
                let x = self.across_box(b, i);
                let j = Self::opposite_side(i);
                &&& 0 <= x < self.nboxes()
                &&& x != b
                &&& self.touching(self.box_sides(b)[i]).contains(x)
                &&& self.box_sides(x)[j] == self.box_sides(b)[i]
                &&& self.has_across(x, j)
                &&& self.across_box(x, j) == b
            },
    {
        self.lemma_bounds();
        self.lemma_side_touches(b, i);
        let r = self.nrows();
        let c = self.ncols();
        let h = self.nhoriz();
        lemma_div_small(b, c, r);
        let br = b / c;
        let bc = b % c;
        self.lemma_box_edges_in_range(br, bc);
        let e = self.box_sides(b)[i];
        let t = self.touching(e);
        assert(b == br * c + bc);
        if i == 0 || i == 1 {
            let row = if i == 0 {
                br
            } else {
                br + 1
            };
            assert(e == row * c + bc);
            assert(row * c + bc < (r + 1) * c) by (nonlinear_arith)
                requires
                    0 <= row <= r,
                    0 <= bc < c,
            ;
            assert(e < h);
            vstd::arithmetic::div_mod::lemma_fundamental_div_mod_converse(e, c, row, bc);
            let k = self.spec_edge_coord(e)->0;
            assert(k.row == row && k.col == bc);
            assert((row - 1) * c == row * c - c) by (nonlinear_arith);
            assert((br + 1) * c == br * c + c) by (nonlinear_arith);
            if i == 0 {
                assert(t =~= (if br > 0 {
                    seq![b - c]
                } else {
                    Seq::empty()
                }) + seq![b]);
                if br > 0 {
                    let x = b - c;
                    vstd::arithmetic::div_mod::lemma_fundamental_div_mod_converse(x, c, br - 1, bc);
                    assert(t[0] == x);
                    assert(self.box_sides(x)[1] == ((br - 1) + 1) * c + bc);
                }
            } else {
                assert(t =~= seq![b] + (if br + 1 < r {
                    seq![b + c]
                } else {
                    Seq::empty()
                }));
                if br + 1 < r {
                    let x = b + c;
                    vstd::arithmetic::div_mod::lemma_fundamental_div_mod_converse(x, c, br + 1, bc);
                    assert(t[1] == x);
                    assert((br + 2) * c <= r * c) by (nonlinear_arith)
                        requires
                            br + 2 <= r,
                            c >= 0,
                    ;
                    assert((br + 2) * c == (br + 1) * c + c) by (nonlinear_arith);
                    assert(x < r * c);
                    assert(self.box_sides(x)[0] == (br + 1) * c + bc);
                }
            }
        } else {
            let col = if i == 2 {
                bc
            } else {
                bc + 1
            };
            let l = br * (c + 1) + col;
            assert(e == h + l);
            assert(0 <= br * (c + 1)) by (nonlinear_arith)
                requires
                    0 <= br,
                    0 <= c,
            ;
            vstd::arithmetic::div_mod::lemma_fundamental_div_mod_converse(l, c + 1, br, col);
            let k = self.spec_edge_coord(e)->0;
            assert(k.row == br && k.col == col);
            assert(br * c + col == br * (c + 1) + col - br) by (nonlinear_arith);
            if i == 2 {
                assert(t =~= (if bc > 0 {
                    seq![b - 1]
                } else {
                    Seq::empty()
                }) + seq![b]);
                if bc > 0 {
                    let x = b - 1;
                    vstd::arithmetic::div_mod::lemma_fundamental_div_mod_converse(x, c, br, bc - 1);
                    assert(t[0] == x);
                    assert(self.box_sides(x)[3] == h + br * (c + 1) + (bc - 1) + 1);
                }
            } else {
                assert(t =~= seq![b] + (if bc + 1 < c {
                    seq![b + 1]
                } else {
                    Seq::empty()
                }));
                if bc + 1 < c {
                    let x = b + 1;
                    assert((br + 1) * c <= r * c) by (nonlinear_arith)
                        requires
                            br + 1 <= r,
                            c >= 0,
                    ;
                    assert((br + 1) * c == br * c + c) by (nonlinear_arith);
                    assert(x < r * c);
                    vstd::arithmetic::div_mod::lemma_fundamental_div_mod_converse(x, c, br, bc + 1);
                    assert(t[1] == x);
                    assert(self.box_sides(x)[2] == h + br * (c + 1) + (bc + 1));
                }
            }
        }
    }

    /// Boxes adjacent to an edge (0–2), filled into `out`; returns count.
    pub fn boxes_touching_edge(self, edge: EdgeId, out: &mut [BoxId; 2]) -> (n: usize)
        ensures
            n == self.touching(edge as int).len(),
            n <= 2,
            forall|i: int| 0 <= i < n ==> final(out)[i] as int == self.touching(edge as int)[i],
            forall|i: int| n <= i < 2 ==> final(out)[i] == old(out)[i],
    {
        proof {
            use_type_invariant(self);
            self.lemma_touching_in_range(edge as int);
        }
        let coord = match self.edge_coord(edge) {
            Some(c) => c,
            None => {
                return 0;
            },
        };
        proof {
            self.lemma_coord_of_id(edge as int);
        }
        let mut n: usize = 0;
        let ghost t = self.touching(edge as int);
        match coord.orientation {
            Orientation::Horizontal => {
                if coord.row > 0 {
                    if let Some(id) = self.box_id(coord.row - 1, coord.col) {
                        out[n] = id;
                        n += 1;
                    }
                }
                if coord.row < self.rows() {
                    if let Some(id) = self.box_id(coord.row, coord.col) {
                        out[n] = id;
                        n += 1;
                    }
                }
            },
            Orientation::Vertical => {
                if coord.col > 0 {
                    if let Some(id) = self.box_id(coord.row, coord.col - 1) {
                        out[n] = id;
                        n += 1;
                    }
                }
                if coord.col < self.cols() {
                    if let Some(id) = self.box_id(coord.row, coord.col) {
                        out[n] = id;
                        n += 1;
                    }
                }
            },
        }
        n
    }
}

/// Number of the given sides that are drawn.
pub open spec fn count_drawn(drawn: Set<int>, sides: Seq<int>) -> nat
    decreases sides.len(),
{
    if sides.len() == 0 {
        0
    } else {
        count_drawn(drawn, sides.drop_last()) + if drawn.contains(sides.last()) {
            1nat
        } else {
            0nat
        }
    }
}

impl PositionView {
    /// Edge `e` can be drawn: on the board and not yet drawn.
    pub open spec fn is_legal(self, e: int) -> bool {
        0 <= e < self.geom.nedges() && !self.drawn.contains(e)
    }

    /// Legal edges below `k`, in increasing order.
    pub open spec fn legal_below(self, k: int) -> Seq<int>
        decreases k,
    {
        if k <= 0 {
            Seq::empty()
        } else {
            self.legal_below(k - 1) + if self.is_legal(k - 1) {
                seq![k - 1]
            } else {
                Seq::empty()
            }
        }
    }

    /// All legal edges, in increasing order.
    pub open spec fn legal_edges(self) -> Seq<int> {
        self.legal_below(self.geom.nedges())
    }

    /// `legal_below(k)` lists exactly the legal edges below `k`, strictly increasing.
    pub proof fn lemma_legal_below(self, k: int)
        ensures
            forall|i: int|
                0 <= i < self.legal_below(k).len() ==> self.is_legal(#[trigger] self.legal_below(k)[i])
                    && self.legal_below(k)[i] < k,
            forall|e: int| self.is_legal(e) && e < k ==> self.legal_below(k).contains(e),
            forall|i: int, j: int|
                0 <= i < j < self.legal_below(k).len() ==> self.legal_below(k)[i] < self.legal_below(
                    k,
                )[j],
            self.legal_below(k).len() <= if k < 0 { 0 } else { k },
        decreases k,
    {
        if k > 0 {
            self.lemma_legal_below(k - 1);
            let prev = self.legal_below(k - 1);
            let cur = self.legal_below(k);
            assert forall|e: int| self.is_legal(e) && e < k implies cur.contains(e) by {
                if e < k - 1 {
                    let j = choose|j: int| 0 <= j < prev.len() && prev[j] == e;
                    assert(cur[j] == e);
                } else {
                    assert(cur[cur.len() - 1] == e);
                }
            }
            assert forall|i: int|
                0 <= i < cur.len() implies self.is_legal(#[trigger] cur[i]) && cur[i] < k by {
                if i < prev.len() {
                    assert(cur[i] == prev[i]);
                }
            }
            assert forall|i: int, j: int| 0 <= i < j < cur.len() implies cur[i] < cur[j] by {
                if j < prev.len() {
                    assert(cur[i] == prev[i] && cur[j] == prev[j]);
                } else if i < prev.len() {
                    assert(cur[i] == prev[i]);
                }
            }
        }
    }

    /// All four sides of box `b` are drawn.
    pub open spec fn is_complete(self, b: int) -> bool {
        0 <= b < self.geom.nboxes() && forall|i: int|
            0 <= i < 4 ==> self.drawn.contains(#[trigger] self.geom.box_sides(b)[i])
    }

    /// Number of drawn sides of box `b` (0 off the board).
    pub open spec fn sides(self, b: int) -> nat {
        if 0 <= b < self.geom.nboxes() {
            count_drawn(self.drawn, self.geom.box_sides(b))
        } else {
            0
        }
    }

    /// Drawing `e` completes the unclaimed box `b`.
    pub open spec fn completes(self, e: int, b: int) -> bool {
        !self.claimed.contains(b) && 0 <= b < self.geom.nboxes() && forall|i: int|
            0 <= i < 4 ==> (#[trigger] self.geom.box_sides(b)[i] == e || self.drawn.contains(
                self.geom.box_sides(b)[i],
            ))
    }

    /// Boxes newly claimed by drawing `e`, in the order they are claimed.
    pub open spec fn newly_completed(self, e: int) -> Seq<int> {
        let t = self.geom.touching(e);
        (if t.len() > 0 && self.completes(e, t[0]) {
            seq![t[0]]
        } else {
            Seq::empty()
        }) + (if t.len() > 1 && self.completes(e, t[1]) {
            seq![t[1]]
        } else {
            Seq::empty()
        })
    }

    /// State after drawing the legal edge `e`.
    pub open spec fn after_move(self, e: int) -> PositionView {
        PositionView {
            geom: self.geom,
            drawn: self.drawn.insert(e),
            claimed: self.claimed + self.newly_completed(e).to_set(),
        }
    }

    /// State after reversing a move that drew `e` and claimed `completed`.
    pub open spec fn after_undo(self, e: int, completed: Seq<int>) -> PositionView {
        PositionView {
            geom: self.geom,
            drawn: self.drawn.remove(e),
            claimed: self.claimed - completed.to_set(),
        }
    }

    /// Every claimed box is complete and every complete box is claimed.
    pub open spec fn consistent(self) -> bool {
        forall|b: int| 0 <= b < self.geom.nboxes() ==> (self.claimed.contains(b) <==> self.is_complete(b))
    }
}

impl Position {
    /// Whether `edge` is a legal move (in range and not yet drawn).
    #[inline]
    pub fn is_legal(self, edge: EdgeId) -> (r: bool)
        ensures
            r == self@.is_legal(edge as int),
    {
        edge < self.geom().edge_count() && !self.edge_is_drawn(edge)
    }

    /// Undrawn edges, in increasing order.
    pub fn legal_moves(self) -> (r: Vec<EdgeId>)
        ensures
            r@.map_values(|e: EdgeId| e as int) == self@.legal_edges(),
            forall|i: int| 0 <= i < r.len() ==> self@.is_legal(#[trigger] r@[i] as int),
            forall|e: int| self@.is_legal(e) ==> r@.contains(e as EdgeId),
            forall|i: int, j: int| 0 <= i < j < r.len() ==> r@[i] < r@[j],
    {
        let n = self.geom().edge_count();
        let mut out: Vec<EdgeId> = Vec::new();
        let mut id: u16 = 0;
        while id < n
            invariant
                n == self@.geom.nedges(),
                id <= n,
                out@.map_values(|e: EdgeId| e as int) == self@.legal_below(id as int),
            decreases n - id,
        {
            if !self.edge_is_drawn(id) {
                out.push(id);
            }
            proof {
                assert(out@.map_values(|e: EdgeId| e as int) =~= self@.legal_below(id + 1));
            }
            id = id + 1;
        }
        proof {
            self@.lemma_legal_below(n as int);
            assert forall|i: int| 0 <= i < out.len() implies self@.is_legal(#[trigger] out@[i] as int) by {
                assert(out@.map_values(|e: EdgeId| e as int)[i] == out@[i] as int);
            }
            assert forall|e: int| self@.is_legal(e) implies out@.contains(e as EdgeId) by {
                let k = choose|k: int| 0 <= k < self@.legal_edges().len() && self@.legal_edges()[k] == e;
                assert(out@.map_values(|e: EdgeId| e as int)[k] == out@[k] as int);
            }
            assert forall|i: int, j: int| 0 <= i < j < out.len() implies out@[i] < out@[j] by {
                assert(out@.map_values(|e: EdgeId| e as int)[i] == out@[i] as int);
                assert(out@.map_values(|e: EdgeId| e as int)[j] == out@[j] as int);
            }
        }
        out
    }

    /// Count of undrawn edges.
    pub fn legal_move_count(self) -> (r: u16)
        ensures
            r as int == self@.geom.nedges() - self@.drawn.len(),
    {
        let n = self.geom().edge_count();
        let mut count: u16 = 0;
        let mut id: u16 = 0;
        proof {
            use_type_invariant(self);
            self.lemma_wf();
            self@.geom.lemma_bounds();
        }
        while id < n
            invariant
                n == self@.geom.nedges(),
                self.drawn() == self.spec_edges()@,
                n <= 144,
                id <= n,
                count <= id,
                count == id - self.spec_edges().count_below(id as nat),
            decreases n - id,
        {
            if !self.edge_is_drawn(id) {
                count = count + 1;
            }
            id = id + 1;
        }
        proof {
            use_type_invariant(self);
            self.lemma_drawn_count();
        }
        count
    }

    /// The number of drawn edges is the count of the edge bitboard.
    pub proof fn lemma_drawn_count(self)
        requires
            self.wf(),
        ensures
            self@.drawn.finite(),
            self@.drawn.len() == self.spec_edges().count_below(self@.geom.nedges() as nat),
            self.spec_edges().count() == self.spec_edges().count_below(self@.geom.nedges() as nat),
    {
        self.lemma_wf();
        self.spec_geom().lemma_bounds();
        let k = self@.geom.nedges() as nat;
        self.spec_edges().lemma_count_stable(k, 256);
        lemma_count_is_len(self@.drawn, self.spec_edges(), k);
    }

    /// Draw `edge`, claim any newly completed boxes, and return an undo token.
    pub fn apply_move(&mut self, edge: EdgeId) -> (r: Result<Undo, MoveError>)
        ensures
            r == Err::<Undo, MoveError>(MoveError::OutOfRange) <==> edge >= old(self)@.geom.nedges(),
            r == Err::<Undo, MoveError>(MoveError::AlreadyDrawn) <==> (edge < old(
                self,
            )@.geom.nedges() && old(self)@.drawn.contains(edge as int)),
            r is Err ==> *final(self) == *old(self),
            r matches Ok(u) ==> {
                &&& old(self)@.is_legal(edge as int)
                &&& final(self)@ == old(self)@.after_move(edge as int)
                &&& u.spec_edge() == edge
                &&& u.spec_completed()@.map_values(|b: BoxId| b as int) == old(
                    self,
                )@.newly_completed(edge as int)
            },
    {
        if edge >= self.geom().edge_count() {
            return Err(MoveError::OutOfRange);
        }
        if self.edge_is_drawn(edge) {
            return Err(MoveError::AlreadyDrawn);
        }
        let ghost start = self@;
        self.set_edge_drawn(edge);

        let mut touching = [0u16; 2];
        let n = self.geom().boxes_touching_edge(edge, &mut touching);
        let mut completed = CompletedBoxes::default();
        proof {
            self@.geom.lemma_touching_in_range(edge as int);
        }
        let ghost t = start.geom.touching(edge as int);

        let mut i: usize = 0;
        while i < n
            invariant
                n == t.len(),
                n <= 2,
                i <= n,
                t == start.geom.touching(edge as int),
                n == 2 ==> t[0] < t[1],
                forall|k: int| 0 <= k < n ==> touching[k] as int == t[k],
                forall|k: int| 0 <= k < n ==> 0 <= #[trigger] t[k] < start.geom.nboxes(),
                self@.geom == start.geom,
                self@.drawn == start.drawn.insert(edge as int),
                start.is_legal(edge as int),
                completed@.map_values(|b: BoxId| b as int) == start.newly_prefix(
                    edge as int,
                    i as int,
                ),
                self@.claimed == start.claimed + start.newly_prefix(edge as int, i as int).to_set(),
            decreases n - i,
        {
            let box_id = touching[i];
            proof {
                assert(box_id as int == t[i as int]);
                assert(0 <= t[i as int] < start.geom.nboxes());
            }
            if self.box_is_claimed(box_id) {
                proof {
                    if !start.claimed.contains(box_id as int) {
                        assert(start.newly_prefix(edge as int, i as int).contains(box_id as int));
                        assert(false);
                    }
                    start.lemma_claimed_after_prefix(edge as int, i as int);
                }
            } else if self.box_is_complete(box_id) {
                let ghost before = completed@;
                self.set_box_claimed(box_id);
                proof {
                    start.lemma_newly_prefix_len(edge as int, i as int);
                }
                completed.push(box_id);
                proof {
                    assert(completed@.map_values(|b: BoxId| b as int) =~= before.map_values(
                        |b: BoxId| b as int,
                    ).push(box_id as int));
                    assert(start.newly_prefix(edge as int, i + 1) =~= start.newly_prefix(
                        edge as int,
                        i as int,
                    ).push(box_id as int));
                    lemma_push_to_set(start.newly_prefix(edge as int, i as int), box_id as int);
                    assert(self@.claimed =~= start.claimed + start.newly_prefix(
                        edge as int,
                        i + 1,
                    ).to_set());
                }
            } else {
                proof {
                    start.lemma_claimed_after_prefix(edge as int, i as int);
                }
            }
            i += 1;
        }
        proof {
            start.lemma_newly_prefix_full(edge as int);
        }
        Ok(Undo { edge, completed })
    }

    /// Reverse a previous [`Self::apply_move`].
    pub fn undo(&mut self, undo: Undo)
        requires
            undo.spec_edge() < old(self)@.geom.nedges(),
            forall|i: int|
                0 <= i < undo.spec_completed()@.len() ==> #[trigger] undo.spec_completed()@[i]
                    < old(self)@.geom.nboxes(),
        ensures
            final(self)@ == old(self)@.after_undo(
                undo.spec_edge() as int,
                undo.spec_completed()@.map_values(|b: BoxId| b as int),
            ),
    {
        let ghost start = self@;
        let ghost done = undo.completed@.map_values(|b: BoxId| b as int);
        let n = undo.completed.len();
        let mut i: usize = 0;
        while i < n
            invariant
                n == undo.spec_completed()@.len(),
                i <= n,
                done == undo.spec_completed()@.map_values(|b: BoxId| b as int),
                forall|k: int|
                    0 <= k < undo.spec_completed()@.len() ==> #[trigger] undo.spec_completed()@[k]
                        < start.geom.nboxes(),
                self@.geom == start.geom,
                self@.drawn == start.drawn,
                self@.claimed == start.claimed - done.subrange(0, i as int).to_set(),
            decreases n - i,
        {
            let b = undo.completed.get(i);
            self.clear_box_claimed(b);
            proof {
                assert(done.subrange(0, i + 1) =~= done.subrange(0, i as int).push(b as int));
                lemma_push_to_set(done.subrange(0, i as int), b as int);
                assert(self@.claimed =~= start.claimed - done.subrange(0, i + 1).to_set());
            }
            i += 1;
        }
        self.clear_edge_drawn(undo.edge);
        proof {
            assert(done.subrange(0, n as int) =~= done);
            assert(self@.drawn =~= start.drawn.remove(undo.edge as int));
        }
    }

    /// True when all four sides of `box_id` are drawn.
    pub fn box_is_complete(self, box_id: BoxId) -> (r: bool)
        ensures
            r == self@.is_complete(box_id as int),
    {
        let (row, col) = match self.geom().box_coord(box_id) {
            Some(rc) => rc,
            None => return false,
        };
        proof {
            self@.geom.lemma_bounds();
            lemma_div_small(box_id as int, self@.geom.ncols(), self@.geom.nrows());
        }
        let edges = match self.geom().box_edges(row, col) {
            Some(e) => e,
            None => return false,
        };
        proof {
            self@.geom.lemma_box_sides_in_range(box_id as int);
        }
        let mut i: usize = 0;
        while i < 4
            invariant
                i <= 4,
                0 <= box_id < self@.geom.nboxes(),
                forall|k: int| 0 <= k < 4 ==> edges[k] as int == self@.geom.box_sides(box_id as int)[k],
                forall|k: int| 0 <= k < 4 ==> 0 <= #[trigger] self@.geom.box_sides(box_id as int)[k] < self@.geom.nedges(),
                forall|k: int| 0 <= k < i ==> self@.drawn.contains(#[trigger] self@.geom.box_sides(box_id as int)[k]),
            decreases 4 - i,
        {
            if !self.edge_is_drawn(edges[i]) {
                return false;
            }
            i += 1;
        }
        true
    }

    /// How many of the four sides of `box_id` are currently drawn (0–4).
    pub fn sides_drawn(self, box_id: BoxId) -> (r: u8)
        ensures
            r == self@.sides(box_id as int),
            r <= 4,
    {
        let (row, col) = match self.geom().box_coord(box_id) {
            Some(rc) => rc,
            None => return 0,
        };
        proof {
            self@.geom.lemma_bounds();
            lemma_div_small(box_id as int, self@.geom.ncols(), self@.geom.nrows());
        }
        let edges = match self.geom().box_edges(row, col) {
            Some(e) => e,
            None => return 0,
        };
        proof {
            self@.geom.lemma_box_sides_in_range(box_id as int);
        }
        let ghost sides = self@.geom.box_sides(box_id as int);
        let mut count: u8 = 0;
        let mut i: usize = 0;
        while i < 4
            invariant
                i <= 4,
                sides.len() == 4,
                sides == self@.geom.box_sides(box_id as int),
                forall|k: int| 0 <= k < 4 ==> edges[k] as int == sides[k],
                forall|k: int| 0 <= k < 4 ==> 0 <= #[trigger] sides[k] < self@.geom.nedges(),
                count == count_drawn(self@.drawn, sides.subrange(0, i as int)),
                count <= i,
            decreases 4 - i,
        {
            assert(sides.subrange(0, i + 1).drop_last() =~= sides.subrange(0, i as int));
            if self.edge_is_drawn(edges[i]) {
                count += 1;
            }
            i += 1;
        }
        assert(sides.subrange(0, 4) =~= sides);
        count
    }
}

impl PositionView {
    /// The boxes claimed while scanning the first `i` adjacent boxes of `e`.
    pub open spec fn newly_prefix(self, e: int, i: int) -> Seq<int> {
        let t = self.geom.touching(e);
        (if i > 0 && t.len() > 0 && self.completes(e, t[0]) {
            seq![t[0]]
        } else {
            Seq::empty()
        }) + (if i > 1 && t.len() > 1 && self.completes(e, t[1]) {
            seq![t[1]]
        } else {
            Seq::empty()
        })
    }

    proof fn lemma_newly_prefix_full(self, e: int)
        requires
            self.geom.touching(e).len() <= 2,
        ensures
            self.newly_prefix(e, self.geom.touching(e).len() as int) == self.newly_completed(e),
    {
    }

    proof fn lemma_newly_prefix_len(self, e: int, i: int)
        ensures
            self.newly_prefix(e, i).len() <= (if i < 0 { 0 } else if i > 2 { 2 } else { i }),
    {
    }

    proof fn lemma_claimed_after_prefix(self, e: int, i: int)
        requires
            0 <= i < 2,
            i < self.geom.touching(e).len(),
            self.geom.touching(e).len() <= 2,
            !self.completes(e, self.geom.touching(e)[i]),
        ensures
            self.newly_prefix(e, i + 1) == self.newly_prefix(e, i),
    {
        assert(self.newly_prefix(e, i + 1) =~= self.newly_prefix(e, i));
    }
}

/// Pushing onto a sequence inserts into its set.
pub proof fn lemma_push_to_set<A>(s: Seq<A>, x: A)
    ensures
        s.push(x).to_set() == s.to_set().insert(x),
{
    assert forall|a: A| s.push(x).to_set().contains(a) <==> s.to_set().insert(x).contains(a) by {
        if s.push(x).contains(a) {
            let k = choose|k: int| 0 <= k < s.push(x).len() && s.push(x)[k] == a;
            if k < s.len() {
                assert(s[k] == a);
            }
        }
        if s.contains(a) {
            let k = choose|k: int| 0 <= k < s.len() && s[k] == a;
            assert(s.push(x)[k] == a);
        }
        if a == x {
            assert(s.push(x)[s.len() as int] == a);
        }
    }
    assert(s.push(x).to_set() =~= s.to_set().insert(x));
}

/// A set of indices below `k` held by a bitboard has the bitboard's count as its size.
pub proof fn lemma_count_is_len<const N: usize>(s: Set<int>, bb: crate::bitboard::Bitboard<N>, k: nat)
    requires
        s == bb@,
        forall|i: int| s.contains(i) ==> 0 <= i < k,
    ensures
        s.finite(),
        s.len() == bb.count_below(k),
    decreases k,
{
    if k == 0 {
        assert(s =~= Set::<int>::empty());
    } else {
        let j = k - 1;
        let rest = Set::new(|i: int| s.contains(i) && i < j);
        lemma_restricted_len(s, bb, j as nat);
        if s.contains(j) {
            assert(s =~= rest.insert(j));
        } else {
            assert(s =~= rest);
        }
    }
}

/// Size of the part of a bitboard's set below `k`.
proof fn lemma_restricted_len<const N: usize>(s: Set<int>, bb: crate::bitboard::Bitboard<N>, k: nat)
    requires
        s == bb@,
    ensures
        Set::new(|i: int| s.contains(i) && i < k).finite(),
        Set::new(|i: int| s.contains(i) && i < k).len() == bb.count_below(k),
    decreases k,
{
    let cur = Set::new(|i: int| s.contains(i) && i < k);
    bb.lemma_bounded();
    if k == 0 {
        assert(cur =~= Set::<int>::empty());
    } else {
        let j = k - 1;
        lemma_restricted_len(s, bb, j as nat);
        let prev = Set::new(|i: int| s.contains(i) && i < j);
        if s.contains(j) {
            assert(cur =~= prev.insert(j));
        } else {
            assert(cur =~= prev);
        }
    }
}

} // verus!

verus! {

/// Drawing a legal edge and then undoing it gives back the state before the move.
pub proof fn law_move_then_undo(p: PositionView, e: int)
    requires
        p.is_legal(e),
    ensures
        p.after_move(e).after_undo(e, p.newly_completed(e)) == p,
{
    let q = p.after_move(e).after_undo(e, p.newly_completed(e));
    assert(q.drawn =~= p.drawn);
    let n = p.newly_completed(e);
    assert forall|b: int| n.to_set().contains(b) implies !p.claimed.contains(b) by {
        let k = choose|k: int| 0 <= k < n.len() && n[k] == b;
    }
    assert(q.claimed =~= p.claimed);
}

/// Drawing a legal edge draws exactly one more edge.
pub proof fn law_move_draws_one(p: PositionView, e: int)
    requires
        p.is_legal(e),
        p.drawn.finite(),
    ensures
        p.after_move(e).drawn.len() == p.drawn.len() + 1,
        p.after_move(e).drawn.contains(e),
{
}

/// A move keeps "claimed" and "complete" in step: a box is claimed exactly when
/// all four of its sides are drawn.
pub proof fn law_move_keeps_consistent(p: PositionView, e: int)
    requires
        p.geom.wf(),
        p.consistent(),
        p.is_legal(e),
    ensures
        p.after_move(e).consistent(),
{
    let q = p.after_move(e);
    let t = p.geom.touching(e);
    let n = p.newly_completed(e);
    p.geom.lemma_touching_in_range(e);
    assert forall|b: int| 0 <= b < q.geom.nboxes() implies (q.claimed.contains(b) <==> q.is_complete(
        b,
    )) by {
        if t.contains(b) {
            if p.claimed.contains(b) {
                assert(p.is_complete(b));
                assert(q.is_complete(b));
            } else {
                if q.is_complete(b) {
                    assert(p.completes(e, b));
                    if t[0] == b {
                        assert(n[0] == b);
                    } else {
                        assert(t[1] == b);
                        assert(n[n.len() - 1] == b);
                    }
                    assert(n.to_set().contains(b));
                } else {
                    assert(!p.completes(e, b));
                    assert(!n.contains(b));
                }
            }
        } else {
            assert forall|i: int| 0 <= i < 4 implies #[trigger] p.geom.box_sides(b)[i] != e by {
                p.geom.lemma_side_touches(b, i);
            }
            assert(!n.contains(b));
            assert(q.is_complete(b) == p.is_complete(b));
        }
    }
}

/// When every edge is drawn, every box is claimed.
pub proof fn law_all_drawn_all_claimed(p: PositionView)
    requires
        p.geom.wf(),
        p.consistent(),
        forall|e: int| 0 <= e < p.geom.nedges() ==> p.drawn.contains(e),
    ensures
        forall|b: int| 0 <= b < p.geom.nboxes() ==> p.claimed.contains(b),
{
    assert forall|b: int| 0 <= b < p.geom.nboxes() implies p.claimed.contains(b) by {
        p.geom.lemma_box_sides_in_range(b);
        assert(p.is_complete(b));
    }
}

/// The drawn edges below `k`.
pub open spec fn drawn_below(p: PositionView, k: int) -> Set<int> {
    Set::new(|x: int| p.drawn.contains(x) && 0 <= x < k)
}

/// Below `k`, every edge is either legal or drawn.
proof fn lemma_legal_below_len(p: PositionView, k: int)
    requires
        0 <= k <= p.geom.nedges(),
    ensures
        drawn_below(p, k).finite(),
        p.legal_below(k).len() + drawn_below(p, k).len() == k,
    decreases k,
{
    if k == 0 {
        assert(drawn_below(p, 0) =~= Set::<int>::empty());
    } else {
        lemma_legal_below_len(p, k - 1);
        if p.drawn.contains(k - 1) {
            assert(drawn_below(p, k) =~= drawn_below(p, k - 1).insert(k - 1));
        } else {
            assert(drawn_below(p, k) =~= drawn_below(p, k - 1));
        }
    }
}

/// The legal moves are the undrawn edges: their number is the number of edges
/// less the number of drawn edges, which is the edge bitboard's count of set
/// bits; none is left once every edge is drawn.
pub proof fn law_legal_move_count(p: Position)
    requires
        p.wf(),
    ensures
        p@.legal_edges().len() == p@.geom.nedges() - p@.drawn.len(),
        p@.drawn.len() == p.spec_edges().count(),
        p@.drawn.len() == p@.geom.nedges() ==> p@.legal_edges().len() == 0,
{
    p.lemma_wf();
    p@.geom.lemma_bounds();
    let n = p@.geom.nedges();
    lemma_legal_below_len(p@, n);
    assert(drawn_below(p@, n) =~= p@.drawn);
    lemma_count_is_len(p@.drawn, p.spec_edges(), (crate::bitboard::EDGE_WORDS * 64) as nat);
}

} // verus!
