//! Facts about every analysis: loops are at least four boxes long, and a
//! finished game has nothing left to analyse.
use vstd::prelude::*;

use crate::board::{BoardGeom, PositionView};
use crate::cgt::{
    is_corridor, is_open, is_takeable, is_walk, joins, lemma_neighbours, linked, neighbours,
    region_ok, step_linked, takeable_below, EndgameAnalysis, Region, RegionKind,
};
use crate::game::Player;

verus! {

/// The colour of box `b` in the chessboard colouring of the board.
pub open spec fn box_colour(g: BoardGeom, b: int) -> int {
    (b / g.ncols() + b % g.ncols()) % 2
}

/// Linked boxes are side by side on the board, so their colours differ.
pub proof fn lemma_linked_colour(p: PositionView, a: int, c: int)
    requires
        p.geom.wf(),
        linked(p, a, c),
    ensures
        box_colour(p.geom, a) != box_colour(p.geom, c),
{
    let g = p.geom;
    g.lemma_bounds();
    let n = g.ncols();
    let row = a / n;
    let col = a % n;
    vstd::arithmetic::div_mod::lemma_fundamental_div_mod(a, n);
    assert(a == row * n + col) by (nonlinear_arith)
        requires
            a == n * (a / n) + (a % n),
            row == a / n,
            col == a % n,
    ;
    assert((row - 1) * n == row * n - n) by (nonlinear_arith);
    assert((row + 1) * n == row * n + n) by (nonlinear_arith);
    if joins(p, a, 0, c) {
        vstd::arithmetic::div_mod::lemma_fundamental_div_mod_converse(c, n, row - 1, col);
    } else if joins(p, a, 1, c) {
        vstd::arithmetic::div_mod::lemma_fundamental_div_mod_converse(c, n, row + 1, col);
    } else if joins(p, a, 2, c) {
        vstd::arithmetic::div_mod::lemma_fundamental_div_mod_converse(c, n, row, col - 1);
    } else {
        vstd::arithmetic::div_mod::lemma_fundamental_div_mod_converse(c, n, row, col + 1);
    }
}

/// A loop has at least four boxes (the corridor graph has no cycle of two or
/// three boxes).
pub proof fn law_loop_at_least_four(p: PositionView, r: Region)
    requires
        p.geom.wf(),
        region_ok(p, r),
        r.kind == RegionKind::Loop,
    ensures
        r.length >= 4,
{
    let w = choose|w: Seq<int>| #[trigger] is_walk(p, w) && w.to_set() == r.boxes@;
    w.unique_seq_to_set();
    assert(w.len() == r.length);
    if w.len() <= 3 {
        let x = w[0];
        assert(w.to_set().contains(x));
        assert(is_corridor(p, x));
        lemma_neighbours(p, x);
        let l = neighbours(p, x);
        assert(l.len() >= 2);
        let y1 = l[0];
        let y2 = l[1];
        assert(linked(p, x, y1) && linked(p, x, y2));
        assert(y1 != y2);
        assert(r.boxes@.contains(y1) && r.boxes@.contains(y2));
        assert(w.contains(y1) && w.contains(y2));
        let k1 = choose|k: int| 0 <= k < w.len() && w[k] == y1;
        let k2 = choose|k: int| 0 <= k < w.len() && w[k] == y2;
        assert(k1 != 0 && k2 != 0);
        assert(w.len() == 3);
        assert(step_linked(p, w, 1));
        lemma_linked_colour(p, w[0], w[1]);
        lemma_linked_colour(p, w[1], w[2]);
        lemma_linked_colour(p, w[0], w[2]);
    }
}

/// No box is takeable below `k` when none is takeable at all.
proof fn lemma_no_takeable(p: PositionView, k: int)
    requires
        forall|b: int| !is_takeable(p, b),
    ensures
        takeable_below(p, k) == 0,
    decreases k,
{
    if k > 0 {
        lemma_no_takeable(p, k - 1);
    }
}

/// A finished game has nothing left to analyse: no regions, no takeable box,
/// long-chain parity zero, and it counts as decomposed.
pub proof fn law_terminal_analysis(p: PositionView, to_move: Player, a: EndgameAnalysis)
    requires
        forall|b: int| 0 <= b < p.geom.nboxes() ==> p.claimed.contains(b),
        a.describes(p, to_move),
    ensures
        a.region_count == 0,
        a.long_chain_count == 0,
        a.short_chain_count == 0,
        a.loop_count == 0,
        a.takeable_count == 0,
        a.long_chain_parity == 0,
        a.decomposed,
{
    let rs = a.spec_regions();
    if rs.len() > 0 {
        assert(region_ok(p, rs[0]));
        let b = rs[0].boxes@.choose();
        assert(rs[0].boxes@.len() > 0);
        assert(rs[0].boxes@.contains(b));
        assert(is_corridor(p, b));
    }
    assert(rs.len() == 0);
    lemma_no_takeable(p, p.geom.nboxes());
    assert(!(exists|b: int| is_open(p, b)));
}

/// The two players want opposite long-chain parities: player one wants the
/// parity of the box count plus one, and player two the other one.
pub proof fn law_target_parity(p: PositionView, a1: EndgameAnalysis, a2: EndgameAnalysis)
    requires
        a1.describes(p, Player::P1),
        a2.describes(p, Player::P2),
    ensures
        a1.target_parity == (p.geom.nboxes() + 1) % 2,
        a2.target_parity == 1 - a1.target_parity,
        a1.target_parity + a2.target_parity == 1,
{
    a1.lemma_describes(p, Player::P1);
    a2.lemma_describes(p, Player::P2);
}

} // verus!
