//! AlphaZero feature layout and the canonical edge → policy-index map.
//!
//! Training and inference must use this encoding; bump [`AZ_FEATURES_VERSION`]
//! on any layout change.
use vstd::prelude::*;

use crate::board::{BoardGeom, EdgeCoord, EdgeId, Orientation};
use crate::game::{Game, GameView, Player};

verus! {

/// HUD / net pad size (max boxes on a side). Smaller boards embed at the origin.
pub const AZ_HUD_ROWS: u8 = 5;

pub const AZ_HUD_COLS: u8 = 5;

pub const AZ_CHANNELS: usize = 7;

/// `2 * AZ_HUD_ROWS + 1` interleaved dots / edges / boxes.
pub const AZ_PLANE: usize = 11;

/// `AZ_CHANNELS * AZ_PLANE * AZ_PLANE`.
pub const AZ_FEATURES: usize = 847;

/// Horizontal edges on a 5×5 pad: `(5 + 1) * 5`.
pub const AZ_H_POLICY: usize = 30;

/// Vertical stride on a 5×5 pad: `5 + 1`.
pub const AZ_V_STRIDE: usize = 6;

/// `edge_count(5, 5)`.
pub const AZ_POLICY: usize = 60;

/// Sidecar / ONNX stamp; bump when channels, plane, or the policy map change.
pub const AZ_FEATURES_VERSION: u32 = 1;

/// The geometry fits the 5×5 pad.
pub open spec fn fits_pad(geom: BoardGeom) -> bool {
    geom.nrows() <= AZ_HUD_ROWS && geom.ncols() <= AZ_HUD_COLS
}

/// Canonical index of an edge coordinate on the 5×5 pad.
pub open spec fn coord_policy_index(k: EdgeCoord) -> int {
    match k.orientation {
        Orientation::Horizontal => k.row * 5 + k.col,
        Orientation::Vertical => 30 + k.row * 6 + k.col,
    }
}

/// Canonical policy index of edge `e` on `geom` (5×5 strides).
pub open spec fn spec_policy_index(geom: BoardGeom, e: int) -> int {
    coord_policy_index(geom.spec_edge_coord(e)->0)
}

/// Pad coordinate named by canonical index `idx`.
pub open spec fn policy_coord(idx: int) -> EdgeCoord {
    if idx < 30 {
        EdgeCoord { orientation: Orientation::Horizontal, row: (idx / 5) as u8, col: (idx % 5) as u8 }
    } else {
        EdgeCoord {
            orientation: Orientation::Vertical,
            row: ((idx - 30) / 6) as u8,
            col: ((idx - 30) % 6) as u8,
        }
    }
}

/// The edge of `geom` named by canonical index `idx`, if it is on the board.
pub open spec fn spec_edge_from_policy(geom: BoardGeom, idx: int) -> Option<int> {
    if 0 <= idx < 60 {
        geom.spec_edge_id(policy_coord(idx))
    } else {
        None
    }
}

/// Board-size-invariant edge → policy index (5×5 strides).
///
/// `H(r, c) → r * 5 + c` (0..29); `V(r, c) → 30 + r * 6 + c` (30..59).
/// On a 5×5 board this is the identity on [`EdgeId`].
pub fn policy_index(geom: BoardGeom, edge: EdgeId) -> (r: usize)
    requires
        fits_pad(geom),
        edge < geom.nedges(),
    ensures
        r == spec_policy_index(geom, edge as int),
        r < AZ_POLICY,
{
    proof {
        use_type_invariant(geom);
        lemma_policy_index_bound(geom, edge as int);
    }
    let coord = match geom.edge_coord(edge) {
        Some(c) => c,
        None => {
            return 0;
        },
    };
    match coord.orientation {
        Orientation::Horizontal => coord.row as usize * AZ_HUD_COLS as usize + coord.col as usize,
        Orientation::Vertical => AZ_H_POLICY + coord.row as usize * AZ_V_STRIDE + coord.col as usize,
    }
}

/// Inverse: canonical index → this board's [`EdgeId`], if that edge exists on-board.
pub fn edge_from_policy_index(geom: BoardGeom, idx: usize) -> (r: Option<EdgeId>)
    ensures
        r matches Some(e) ==> spec_edge_from_policy(geom, idx as int) == Some(e as int),
        r is None ==> spec_edge_from_policy(geom, idx as int) is None,
{
    if idx >= AZ_POLICY {
        return None;
    }
    let coord = if idx < AZ_H_POLICY {
        EdgeCoord {
            orientation: Orientation::Horizontal,
            row: (idx / AZ_HUD_COLS as usize) as u8,
            col: (idx % AZ_HUD_COLS as usize) as u8,
        }
    } else {
        let local = idx - AZ_H_POLICY;
        EdgeCoord {
            orientation: Orientation::Vertical,
            row: (local / AZ_V_STRIDE) as u8,
            col: (local % AZ_V_STRIDE) as u8,
        }
    };
    geom.edge_id(coord)
}

/// `true` at indices that are legal (on-board and undrawn) for `game`.
pub fn legal_policy_mask(game: &Game) -> (mask: [bool; AZ_POLICY])
    requires
        fits_pad(game@.pos.geom),
    ensures
        forall|i: int|
            0 <= i < AZ_POLICY ==> mask[i] == (spec_edge_from_policy(game@.pos.geom, i) matches Some(
                e,
            ) && game@.pos.is_legal(e)),
{
    let mut mask = [false; AZ_POLICY];
    let geom = game.geom();
    let legal = game.legal_moves();
    let ghost g = game@;
    let mut k: usize = 0;
    proof {
        use_type_invariant(geom);
        g.pos.lemma_legal_below(g.pos.geom.nedges());
    }
    while k < legal.len()
        invariant
            k <= legal.len(),
            geom == g.pos.geom,
            geom.wf(),
            fits_pad(geom),
            g == game@,
            forall|i: int| 0 <= i < legal.len() ==> g.pos.is_legal(#[trigger] legal@[i] as int),
            forall|e: int| g.pos.is_legal(e) ==> legal@.contains(e as EdgeId),
            forall|i: int, j: int| 0 <= i < j < legal.len() ==> legal@[i] < legal@[j],
            forall|i: int|
                0 <= i < AZ_POLICY ==> mask[i] == exists|j: int|
                    0 <= j < k && #[trigger] spec_policy_index(geom, legal@[j] as int) == i,
        decreases legal.len() - k,
    {
        let edge = legal[k];
        let idx = policy_index(geom, edge);
        mask[idx] = true;
        proof {
            assert forall|i: int| 0 <= i < AZ_POLICY implies mask[i] == exists|j: int|
                0 <= j < k + 1 && #[trigger] spec_policy_index(geom, legal@[j] as int) == i by {
                if i == idx as int {
                    assert(spec_policy_index(geom, legal@[k as int] as int) == i);
                }
                if exists|j: int| 0 <= j < k + 1 && #[trigger] spec_policy_index(geom, legal@[j] as int) == i {
                    let j = choose|j: int| 0 <= j < k + 1 && #[trigger] spec_policy_index(geom, legal@[j] as int) == i;
                    if j < k {
                        assert(exists|j2: int| 0 <= j2 < k && #[trigger] spec_policy_index(geom, legal@[j2] as int) == i);
                    }
                }
            }
        }
        k += 1;
    }
    proof {
        assert forall|i: int| 0 <= i < AZ_POLICY implies mask[i] == (spec_edge_from_policy(geom, i) matches Some(
                e,
            ) && g.pos.is_legal(e)) by {
            if mask[i] {
                let j = choose|j: int| 0 <= j < legal.len() && #[trigger] spec_policy_index(geom, legal@[j] as int) == i;
                law_policy_round_trip(geom, legal@[j] as int);
            }
            if let Some(e) = spec_edge_from_policy(geom, i) {
                if g.pos.is_legal(e) {
                    lemma_policy_from_index(geom, i);
                    let j = choose|j: int| 0 <= j < legal.len() && legal@[j] == e as EdgeId;
                    assert(spec_policy_index(geom, legal@[j] as int) == i);
                }
            }
        }
    }
    mask
}

proof fn lemma_policy_index_bound(geom: BoardGeom, e: int)
    requires
        geom.wf(),
        fits_pad(geom),
        0 <= e < geom.nedges(),
    ensures
        0 <= spec_policy_index(geom, e) < 60,
{
    geom.lemma_bounds();
    geom.lemma_coord_of_id(e);
    let k = geom.spec_edge_coord(e)->0;
    let row = k.row as int;
    match k.orientation {
        Orientation::Horizontal => {
            assert(0 <= row * 5 <= 25) by (nonlinear_arith)
                requires
                    0 <= row <= 5,
            ;
        },
        Orientation::Vertical => {
            assert(0 <= row * 6 <= 24) by (nonlinear_arith)
                requires
                    0 <= row <= 4,
            ;
        },
    }
}

/// Canonical indices round-trip: an on-board edge maps to an index below
/// `AZ_POLICY` that maps back to the same edge.
pub proof fn law_policy_round_trip(geom: BoardGeom, e: int)
    requires
        geom.wf(),
        fits_pad(geom),
        0 <= e < geom.nedges(),
    ensures
        0 <= spec_policy_index(geom, e) < AZ_POLICY,
        spec_edge_from_policy(geom, spec_policy_index(geom, e)) == Some(e),
{
    lemma_policy_index_bound(geom, e);
    geom.lemma_bounds();
    geom.lemma_coord_of_id(e);
    let k = geom.spec_edge_coord(e)->0;
    let idx = spec_policy_index(geom, e);
    match k.orientation {
        Orientation::Horizontal => {
            vstd::arithmetic::div_mod::lemma_fundamental_div_mod_converse(idx, 5, k.row as int, k.col as int);
            assert(policy_coord(idx) == k);
        },
        Orientation::Vertical => {
            vstd::arithmetic::div_mod::lemma_fundamental_div_mod_converse(idx - 30, 6, k.row as int, k.col as int);
            assert(policy_coord(idx) == k);
        },
    }
}

/// An index that names an on-board edge is that edge's canonical index.
pub proof fn lemma_policy_from_index(geom: BoardGeom, idx: int)
    requires
        geom.wf(),
        fits_pad(geom),
        spec_edge_from_policy(geom, idx) is Some,
    ensures
        spec_policy_index(geom, spec_edge_from_policy(geom, idx)->0) == idx,
{
    geom.lemma_bounds();
    let k = policy_coord(idx);
    let e = spec_edge_from_policy(geom, idx)->0;
    if idx < 30 {
        vstd::arithmetic::div_mod::lemma_fundamental_div_mod(idx, 5);
        assert(0 <= idx % 5 < 5) by (nonlinear_arith)
            requires
                0 <= idx,
        ;
        assert(0 <= idx / 5 < 6) by (nonlinear_arith)
            requires
                0 <= idx < 30,
        ;
    } else {
        vstd::arithmetic::div_mod::lemma_fundamental_div_mod(idx - 30, 6);
        assert(0 <= (idx - 30) % 6 < 6) by (nonlinear_arith)
            requires
                0 <= idx - 30,
        ;
        assert(0 <= (idx - 30) / 6 < 5) by (nonlinear_arith)
            requires
                0 <= idx - 30 < 30,
        ;
    }
    crate::board::law_coord_round_trip(geom, k);
}

/// Flat index of `(channel, y, x)` in a channel-major tensor.
pub open spec fn spec_chw(c: int, y: int, x: int) -> int {
    c * 121 + y * 11 + x
}

/// Flat index of `(channel, y, x)` in the 7×11×11 channel-major tensor.
pub fn chw(channel: usize, y: usize, x: usize) -> (r: usize)
    requires
        channel < AZ_CHANNELS,
        y < AZ_PLANE,
        x < AZ_PLANE,
    ensures
        r == spec_chw(channel as int, y as int, x as int),
        r < AZ_FEATURES,
{
    channel * AZ_PLANE * AZ_PLANE + y * AZ_PLANE + x
}

/// Cell of an edge on the interleaved dot / edge / box grid.
pub open spec fn spec_edge_cell(k: EdgeCoord) -> (int, int) {
    match k.orientation {
        Orientation::Horizontal => (2 * k.row, 2 * k.col + 1),
        Orientation::Vertical => (2 * k.row + 1, 2 * k.col),
    }
}

/// Cell `(y, x)` of an edge on the interleaved dot / edge / box grid.
pub fn edge_cell(coord: EdgeCoord) -> (r: (usize, usize))
    ensures
        (r.0 as int, r.1 as int) == spec_edge_cell(coord),
{
    match coord.orientation {
        Orientation::Horizontal => (2 * coord.row as usize, 2 * coord.col as usize + 1),
        Orientation::Vertical => (2 * coord.row as usize + 1, 2 * coord.col as usize),
    }
}

/// Some edge below `k`, drawn or not as `drawn` says, sits at cell `(y, x)`.
pub open spec fn edge_plane(g: GameView, drawn: bool, y: int, x: int, k: int) -> bool {
    exists|e: int|
        0 <= e < k && e < g.pos.geom.nedges() && #[trigger] spec_edge_cell(
            g.pos.geom.spec_edge_coord(e)->0,
        ) == (y, x) && g.pos.drawn.contains(e) == drawn
}

/// Channel of box `b`: 2 owned by the side to move, 3 by the opponent, 4 unclaimed.
pub open spec fn box_channel(g: GameView, b: int) -> int {
    if g.owned1.contains(b) {
        if g.current == Player::P1 {
            2
        } else {
            3
        }
    } else if g.owned2.contains(b) {
        if g.current == Player::P2 {
            2
        } else {
            3
        }
    } else {
        4
    }
}

/// Cell of box `b` on the interleaved grid.
pub open spec fn box_cell(geom: BoardGeom, b: int) -> (int, int) {
    (2 * (b / geom.ncols()) + 1, 2 * (b % geom.ncols()) + 1)
}

/// Some box below `k` of channel `ch` sits at cell `(y, x)`.
pub open spec fn box_plane(g: GameView, ch: int, y: int, x: int, k: int) -> bool {
    exists|b: int|
        0 <= b < k && b < g.pos.geom.nboxes() && #[trigger] box_cell(g.pos.geom, b) == (y, x)
            && box_channel(g, b) == ch
}

/// Value of feature `(c, y, x)` for `g` with the given last move, from the side
/// to move's perspective: 0 undrawn edges, 1 drawn edges, 2 own boxes, 3
/// opponent boxes, 4 unclaimed boxes, 5 the board area when player one is to
/// move, 6 the last move.
pub open spec fn feature_on(g: GameView, last_move: Option<EdgeId>, c: int, y: int, x: int) -> bool {
    if c == 0 {
        edge_plane(g, false, y, x, g.pos.geom.nedges())
    } else if c == 1 {
        edge_plane(g, true, y, x, g.pos.geom.nedges())
    } else if 2 <= c <= 4 {
        box_plane(g, c, y, x, g.pos.geom.nboxes())
    } else if c == 5 {
        g.current == Player::P1 && y <= 2 * g.pos.geom.nrows() && x <= 2 * g.pos.geom.ncols()
    } else if c == 6 {
        match last_move {
            Some(e) => g.pos.geom.spec_edge_coord(e as int) is Some && spec_edge_cell(
                g.pos.geom.spec_edge_coord(e as int)->0,
            ) == (y, x),
            None => false,
        }
    } else {
        false
    }
}

/// The box planes from the side to move's perspective: the cell of box `b`
/// (row `2 * (b / cols) + 1`, column `2 * (b % cols) + 1`) is set in channel 2
/// exactly when the player to move owns the box, in channel 3 exactly when
/// the other player owns it, and in channel 4 exactly when it is unclaimed.
pub proof fn law_box_planes(g: GameView, last_move: Option<EdgeId>, b: int)
    requires
        g.inv(),
        0 <= b < g.pos.geom.nboxes(),
    ensures
        ({
            let c = g.pos.geom.ncols();
            let y = 2 * (b / c) + 1;
            let x = 2 * (b % c) + 1;
            &&& feature_on(g, last_move, 2, y, x) == g.owned(g.current).contains(b)
            &&& feature_on(g, last_move, 3, y, x) == g.owned(g.current.spec_other()).contains(b)
            &&& feature_on(g, last_move, 4, y, x) == !g.pos.claimed.contains(b)
        }),
{
    let geom = g.pos.geom;
    geom.lemma_bounds();
    let c = geom.ncols();
    let r = geom.nrows();
    let y = 2 * (b / c) + 1;
    let x = 2 * (b % c) + 1;
    crate::board::lemma_div_small(b, c, r);
    assert(box_cell(geom, b) == (y, x));
    assert forall|b2: int| 0 <= b2 < geom.nboxes() && #[trigger] box_cell(geom, b2) == (y, x) implies b2 == b by {
        crate::board::lemma_div_small(b2, c, r);
    }
    assert(g.owned1.contains(b) || g.owned2.contains(b) <==> g.pos.claimed.contains(b)) by {
        assert((g.owned1 + g.owned2).contains(b) == g.pos.claimed.contains(b));
    }
    assert(!(g.owned1.contains(b) && g.owned2.contains(b)));
    assert forall|ch: int| 2 <= ch <= 4 implies box_plane(g, ch, y, x, geom.nboxes()) == (box_channel(g, b) == ch) by {
        if box_plane(g, ch, y, x, geom.nboxes()) {
            let b2 = choose|b2: int|
                0 <= b2 < geom.nboxes() && b2 < geom.nboxes() && #[trigger] box_cell(geom, b2) == (y, x)
                    && box_channel(g, b2) == ch;
        }
    }
}

/// The cell of edge `e`: row `2 * row` and column `2 * col + 1` for a
/// horizontal edge, row `2 * row + 1` and column `2 * col` for a vertical one.
pub open spec fn edge_position(geom: BoardGeom, e: int) -> (int, int) {
    let k = geom.spec_edge_coord(e)->0;
    match k.orientation {
        Orientation::Horizontal => (2 * k.row, 2 * k.col + 1),
        Orientation::Vertical => (2 * k.row + 1, 2 * k.col),
    }
}

/// Different edges sit at different cells.
proof fn lemma_edge_cells_distinct(geom: BoardGeom, e: int, e2: int)
    requires
        geom.wf(),
        0 <= e < geom.nedges(),
        0 <= e2 < geom.nedges(),
        spec_edge_cell(geom.spec_edge_coord(e)->0) == edge_position(geom, e2),
    ensures
        e == e2,
{
    crate::board::law_id_round_trip(geom, e);
    crate::board::law_id_round_trip(geom, e2);
    let k = geom.spec_edge_coord(e)->0;
    let k2 = geom.spec_edge_coord(e2)->0;
    assert(k == k2);
}

/// The edge planes: the cell of edge `e` is set in channel 1 exactly when `e`
/// is drawn and in channel 0 exactly when it is not; channel 6 marks the cell
/// of the last move and of no other edge; channel 5, the side-to-move plane,
/// is set there exactly when player one is to move.
pub proof fn law_edge_planes(g: GameView, last_move: Option<EdgeId>, e: int)
    requires
        g.inv(),
        0 <= e < g.pos.geom.nedges(),
    ensures
        ({
            let (y, x) = edge_position(g.pos.geom, e);
            &&& feature_on(g, last_move, 1, y, x) == g.pos.drawn.contains(e)
            &&& feature_on(g, last_move, 0, y, x) == !g.pos.drawn.contains(e)
            &&& feature_on(g, last_move, 6, y, x) == (last_move == Some(e as EdgeId))
            &&& feature_on(g, last_move, 5, y, x) == (g.current == Player::P1)
        }),
{
    let geom = g.pos.geom;
    geom.lemma_bounds();
    crate::board::law_id_round_trip(geom, e);
    geom.lemma_coord_of_id(e);
    let (y, x) = edge_position(geom, e);
    assert(spec_edge_cell(geom.spec_edge_coord(e)->0) == (y, x));
    assert forall|e2: int| 0 <= e2 < geom.nedges() && #[trigger] spec_edge_cell(geom.spec_edge_coord(e2)->0) == (y, x)
        implies e2 == e by {
        lemma_edge_cells_distinct(geom, e2, e);
    }
    if edge_plane(g, true, y, x, geom.nedges()) {
        let e2 = choose|e2: int|
            0 <= e2 < geom.nedges() && e2 < geom.nedges() && #[trigger] spec_edge_cell(geom.spec_edge_coord(e2)->0)
                == (y, x) && g.pos.drawn.contains(e2) == true;
    }
    if edge_plane(g, false, y, x, geom.nedges()) {
        let e2 = choose|e2: int|
            0 <= e2 < geom.nedges() && e2 < geom.nedges() && #[trigger] spec_edge_cell(geom.spec_edge_coord(e2)->0)
                == (y, x) && g.pos.drawn.contains(e2) == false;
    }
    match last_move {
        Some(m) => {
            if geom.spec_edge_coord(m as int) is Some && spec_edge_cell(geom.spec_edge_coord(m as int)->0) == (y, x) {
                assert(0 <= m < geom.nedges()) by {
                    if m as int >= geom.nedges() {
                        assert(geom.spec_edge_coord(m as int) is None);
                    }
                }
            }
        },
        None => {},
    }
    assert(y <= 2 * geom.nrows() && x <= 2 * geom.ncols());
}

/// Features filled so far: the board area, edges below `ne`, the last move when
/// `with_last`, boxes below `nb`.
pub open spec fn partial_feature(
    g: GameView,
    last_move: Option<EdgeId>,
    c: int,
    y: int,
    x: int,
    ne: int,
    with_last: bool,
    nb: int,
) -> bool {
    if c == 0 {
        edge_plane(g, false, y, x, ne)
    } else if c == 1 {
        edge_plane(g, true, y, x, ne)
    } else if 2 <= c <= 4 {
        box_plane(g, c, y, x, nb)
    } else if c == 5 {
        feature_on(g, last_move, c, y, x)
    } else if c == 6 {
        with_last && feature_on(g, last_move, c, y, x)
    } else {
        false
    }
}

/// Features as a 0/1 tensor: `r[spec_chw(c, y, x)] == feature_on(..)`.
pub open spec fn features_match(
    r: Seq<bool>,
    g: GameView,
    last_move: Option<EdgeId>,
    ne: int,
    with_last: bool,
    nb: int,
) -> bool {
    forall|c: int, y: int, x: int|
        0 <= c < 7 && 0 <= y < 11 && 0 <= x < 11 ==> r[#[trigger] spec_chw(c, y, x)]
            == partial_feature(g, last_move, c, y, x, ne, with_last, nb)
}

/// Distinct `(c, y, x)` give distinct flat indices.
proof fn lemma_chw_injective(c: int, y: int, x: int, c2: int, y2: int, x2: int)
    requires
        0 <= c < 7 && 0 <= y < 11 && 0 <= x < 11,
        0 <= c2 < 7 && 0 <= y2 < 11 && 0 <= x2 < 11,
        spec_chw(c, y, x) == spec_chw(c2, y2, x2),
    ensures
        c == c2 && y == y2 && x == x2,
{
}

/// Setting the flag of `(c0, y0, x0)` changes only that feature.
proof fn lemma_set_feature(
    before: Seq<bool>,
    after: Seq<bool>,
    c0: int,
    y0: int,
    x0: int,
)
    requires
        0 <= c0 < 7 && 0 <= y0 < 11 && 0 <= x0 < 11,
        before.len() == AZ_FEATURES,
        after == before.update(spec_chw(c0, y0, x0), true),
    ensures
        forall|c: int, y: int, x: int|
            0 <= c < 7 && 0 <= y < 11 && 0 <= x < 11 ==> after[#[trigger] spec_chw(c, y, x)] == if c
                == c0 && y == y0 && x == x0 {
                true
            } else {
                before[spec_chw(c, y, x)]
            },
{
    assert forall|c: int, y: int, x: int|
        0 <= c < 7 && 0 <= y < 11 && 0 <= x < 11 implies after[#[trigger] spec_chw(c, y, x)] == if c
        == c0 && y == y0 && x == x0 {
        true
    } else {
        before[spec_chw(c, y, x)]
    } by {
        if spec_chw(c, y, x) == spec_chw(c0, y0, x0) {
            lemma_chw_injective(c, y, x, c0, y0, x0);
        }
    }
}

/// 7×11×11 channel-major 0/1 feature tensor from the side-to-move perspective
/// (boards up to the 5×5 pad embed at the origin). `last_move` is threaded in
/// because a game has no last-move accessor.
pub fn feature_bits(game: &Game, last_move: Option<EdgeId>) -> (r: [bool; AZ_FEATURES])
    requires
        fits_pad(game@.pos.geom),
    ensures
        forall|c: int, y: int, x: int|
            0 <= c < 7 && 0 <= y < 11 && 0 <= x < 11 ==> r[#[trigger] spec_chw(c, y, x)]
                == feature_on(game@, last_move, c, y, x),
{
    let ghost g = game@;
    let mut out = [false; 847];
    let geom = game.geom();
    let pos = game.position();
    let rows = geom.rows();
    let cols = geom.cols();
    let side = game.current_player();
    proof {
        use_type_invariant(geom);
        use_type_invariant(game);
        game.lemma_wf();
        geom.lemma_bounds();
    }
    // Channel 5: the board area when player one is to move.
    let is_p1 = match side {
        Player::P1 => true,
        Player::P2 => false,
    };
    let y_max = 2 * rows as usize;
    let x_max = 2 * cols as usize;
    let mut y: usize = 0;
    if is_p1 {
        while y <= y_max
            invariant
                y_max == 2 * g.pos.geom.nrows(),
                x_max == 2 * g.pos.geom.ncols(),
                y_max <= 10,
                x_max <= 10,
                y <= y_max + 1,
                g.current == Player::P1,
                forall|c: int, yy: int, xx: int|
                    0 <= c < 7 && 0 <= yy < 11 && 0 <= xx < 11 ==> out@[#[trigger] spec_chw(c, yy, xx)]
                        == (c == 5 && yy < y && xx <= x_max),
            decreases y_max + 1 - y,
        {
            let mut x: usize = 0;
            while x <= x_max
                invariant
                    y <= y_max,
                    y_max <= 10,
                    x_max <= 10,
                    x <= x_max + 1,
                    forall|c: int, yy: int, xx: int|
                        0 <= c < 7 && 0 <= yy < 11 && 0 <= xx < 11 ==> out@[#[trigger] spec_chw(
                            c,
                            yy,
                            xx,
                        )] == (c == 5 && (yy < y && xx <= x_max || yy == y && xx < x)),
                decreases x_max + 1 - x,
            {
                let i = chw(5, y, x);
                let ghost before = out@;
                out[i] = true;
                proof {
                    lemma_set_feature(before, out@, 5, y as int, x as int);
                }
                x += 1;
            }
            y += 1;
        }
    }
    proof {
        assert forall|c: int, yy: int, xx: int|
            0 <= c < 7 && 0 <= yy < 11 && 0 <= xx < 11 implies out@[#[trigger] spec_chw(c, yy, xx)]
            == partial_feature(g, last_move, c, yy, xx, 0, false, 0) by {
            if c == 0 || c == 1 {
                assert(!edge_plane(g, c == 1, yy, xx, 0));
            }
            if 2 <= c <= 4 {
                assert(!box_plane(g, c, yy, xx, 0));
            }
        }
    }
    // Channels 0 and 1: undrawn and drawn edges.
    let n = geom.edge_count();
    let mut id: u16 = 0;
    while id < n
        invariant
            g == game@,
            geom == g.pos.geom,
            geom.wf(),
            fits_pad(geom),
            pos@ == g.pos,
            n == g.pos.geom.nedges(),
            id <= n,
            features_match(out@, g, last_move, id as int, false, 0),
        decreases n - id,
    {
        proof {
            crate::board::law_id_round_trip(geom, id as int);
        }
        let coord = match geom.edge_coord(id) {
            Some(k) => k,
            None => {
                id += 1;
                continue;
            },
        };
        let (yy, xx) = edge_cell(coord);
        let drawn = pos.edge_is_drawn(id);
        let ch: usize = if drawn {
            1
        } else {
            0
        };
        let i = chw(ch, yy, xx);
        let ghost before = out@;
        out[i] = true;
        proof {
            lemma_set_feature(before, out@, ch as int, yy as int, xx as int);
            let e = id as int;
            assert forall|c: int, y2: int, x2: int|
                0 <= c < 7 && 0 <= y2 < 11 && 0 <= x2 < 11 implies out@[#[trigger] spec_chw(
                c,
                y2,
                x2,
            )] == partial_feature(g, last_move, c, y2, x2, id + 1, false, 0) by {
                if c == 0 || c == 1 {
                    if edge_plane(g, c == 1, y2, x2, id + 1) && !edge_plane(g, c == 1, y2, x2, id as int) {
                        let w = choose|w: int|
                            0 <= w < id + 1 && w < g.pos.geom.nedges() && #[trigger] spec_edge_cell(
                                g.pos.geom.spec_edge_coord(w)->0,
                            ) == (y2, x2) && g.pos.drawn.contains(w) == (c == 1);
                        assert(w == e);
                    }
                    if c == ch && y2 == yy && x2 == xx {
                        assert(spec_edge_cell(g.pos.geom.spec_edge_coord(e)->0) == (y2, x2));
                    }
                }
            }
        }
        id += 1;
    }
    // Channel 6: the last move.
    match last_move {
        Some(edge) => {
            match geom.edge_coord(edge) {
                Some(coord) => {
                    proof {
                        crate::board::law_id_round_trip(geom, edge as int);
                    }
                    let (yy, xx) = edge_cell(coord);
                    let i = chw(6, yy, xx);
                    let ghost before = out@;
                    out[i] = true;
                    proof {
                        lemma_set_feature(before, out@, 6, yy as int, xx as int);
                    }
                },
                None => {},
            }
        },
        None => {},
    }
    proof {
        assert(features_match(out@, g, last_move, n as int, true, 0));
    }
    // Channels 2 to 4: boxes by owner.
    let nb = geom.box_count();
    let mut b: u16 = 0;
    while b < nb
        invariant
            g == game@,
            geom == g.pos.geom,
            geom.wf(),
            fits_pad(geom),
            g.inv(),
            nb == g.pos.geom.nboxes(),
            n == g.pos.geom.nedges(),
            b <= nb,
            side == g.current,
            features_match(out@, g, last_move, n as int, true, b as int),
        decreases nb - b,
    {
        proof {
            geom.lemma_bounds();
            crate::board::lemma_div_small(b as int, geom.ncols(), geom.nrows());
        }
        let (r, c) = match geom.box_coord(b) {
            Some(rc) => rc,
            None => {
                b += 1;
                continue;
            },
        };
        let yy = 2 * r as usize + 1;
        let xx = 2 * c as usize + 1;
        let ch: usize = match game.box_owner(b) {
            Some(p) => {
                if p == side {
                    2
                } else {
                    3
                }
            },
            None => 4,
        };
        let i = chw(ch, yy, xx);
        let ghost before = out@;
        out[i] = true;
        proof {
            lemma_set_feature(before, out@, ch as int, yy as int, xx as int);
            let bb = b as int;
            assert(box_channel(g, bb) == ch);
            assert(box_cell(geom, bb) == (yy as int, xx as int));
            assert forall|c2: int, y2: int, x2: int|
                0 <= c2 < 7 && 0 <= y2 < 11 && 0 <= x2 < 11 implies out@[#[trigger] spec_chw(
                c2,
                y2,
                x2,
            )] == partial_feature(g, last_move, c2, y2, x2, n as int, true, b + 1) by {
                if 2 <= c2 <= 4 {
                    if box_plane(g, c2, y2, x2, b + 1) && !box_plane(g, c2, y2, x2, b as int) {
                        let w = choose|w: int|
                            0 <= w < b + 1 && w < g.pos.geom.nboxes() && #[trigger] box_cell(
                                g.pos.geom,
                                w,
                            ) == (y2, x2) && box_channel(g, w) == c2;
                        assert(w == bb);
                    }
                }
            }
        }
        b += 1;
    }
    out
}

} // verus!
