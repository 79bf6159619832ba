//! Board symmetries as permutations of edges and boxes, and why they keep the
//! value of a position: a permutation of the edges that carries the sides of
//! every box onto the sides of its image box turns every game into a game of
//! the same value.
use vstd::prelude::*;

use crate::board::{BoardGeom, EdgeId};
use crate::game::GameView;
use crate::solver::value::{
    game_value, lemma_best_value, lemma_drawn_count, lemma_open_boxes, lemma_undrawn_play,
    lemma_value_by_position, move_value, open_boxes, undrawn,
};

verus! {

/// The entries of `v` as integers.
pub open spec fn as_ints(v: Seq<EdgeId>) -> Seq<int> {
    v.map_values(|x: EdgeId| x as int)
}

/// Edge `x` is a side of box `b`.
pub open spec fn is_side(geom: BoardGeom, x: int, b: int) -> bool {
    geom.box_sides(b).contains(x)
}

/// Some entry of `s` below `n` is `x`.
pub open spec fn reached(s: Seq<int>, n: int, x: int) -> bool {
    exists|e: int| 0 <= e < n && s[e] == x
}

/// `sigma` permutes the edges and `tau` the boxes of `geom`, and an edge is a
/// side of a box exactly when its image is a side of the image box.
pub open spec fn sym_ok(geom: BoardGeom, sigma: Seq<int>, tau: Seq<int>) -> bool {
    &&& sigma.len() == geom.nedges()
    &&& tau.len() == geom.nboxes()
    &&& forall|e: int| 0 <= e < geom.nedges() ==> 0 <= #[trigger] sigma[e] < geom.nedges()
    &&& forall|e1: int, e2: int|
        0 <= e1 < geom.nedges() && 0 <= e2 < geom.nedges() && #[trigger] sigma[e1] == #[trigger] sigma[e2]
            ==> e1 == e2
    &&& forall|x: int| 0 <= x < geom.nedges() ==> #[trigger] reached(sigma, geom.nedges(), x)
    &&& forall|b: int| 0 <= b < geom.nboxes() ==> 0 <= #[trigger] tau[b] < geom.nboxes()
    &&& forall|b1: int, b2: int|
        0 <= b1 < geom.nboxes() && 0 <= b2 < geom.nboxes() && #[trigger] tau[b1] == #[trigger] tau[b2]
            ==> b1 == b2
    &&& forall|y: int| 0 <= y < geom.nboxes() ==> #[trigger] reached(tau, geom.nboxes(), y)
    &&& forall|b: int, x: int|
        0 <= b < geom.nboxes() && 0 <= x < geom.nedges() ==> (is_side(geom, #[trigger] sigma[x], #[trigger] tau[b])
            <==> is_side(geom, x, b))
}

/// The images under `sigma` of the members of `s`.
pub open spec fn map_set(s: Set<int>, sigma: Seq<int>) -> Set<int> {
    s.map(|e: int| sigma[e])
}

/// `sigma` is the edge map of a symmetry of `geom`.
pub open spec fn is_symmetry(geom: BoardGeom, sigma: Seq<int>) -> bool {
    exists|tau: Seq<int>| #[trigger] sym_ok(geom, sigma, tau)
}

/// The game `g` moved by the symmetry `(sigma, tau)`; all claimed boxes are
/// credited to player one, which does not change the value.
pub open spec fn image(g: GameView, sigma: Seq<int>, tau: Seq<int>) -> GameView {
    let claimed = g.pos.claimed.map(|b: int| tau[b]);
    GameView {
        pos: crate::board::PositionView {
            geom: g.pos.geom,
            drawn: map_set(g.pos.drawn, sigma),
            claimed,
        },
        current: g.current,
        score1: claimed.len() as int,
        score2: 0,
        owned1: claimed,
        owned2: Set::empty(),
    }
}

/// In a consistent position, drawing the legal edge `e` claims exactly the
/// unclaimed boxes that have `e` as a side and all their other sides drawn.
pub proof fn lemma_newly_set(g: GameView, e: int)
    requires
        g.inv(),
        g.pos.is_legal(e),
    ensures
        forall|b: int|
            #[trigger] g.pos.newly_completed(e).contains(b) <==> (0 <= b < g.pos.geom.nboxes()
                && is_side(g.pos.geom, e, b) && g.pos.completes(e, b)),
{
    let p = g.pos;
    let geom = p.geom;
    geom.lemma_touching_in_range(e);
    let t = geom.touching(e);
    let n = p.newly_completed(e);
    assert forall|b: int| #[trigger] n.contains(b) <==> (0 <= b < geom.nboxes() && is_side(geom, e, b)
        && p.completes(e, b)) by {
        if n.contains(b) {
            let k = choose|k: int| 0 <= k < n.len() && n[k] == b;
            assert(p.completes(e, b));
            if !is_side(geom, e, b) {
                assert forall|i: int| 0 <= i < 4 implies p.drawn.contains(#[trigger] geom.box_sides(b)[i]) by {
                    if geom.box_sides(b)[i] == e {
                        assert(geom.box_sides(b).contains(e));
                    }
                }
                assert(p.is_complete(b));
            }
        }
        if 0 <= b < geom.nboxes() && is_side(geom, e, b) && p.completes(e, b) {
            let i = choose|i: int| 0 <= i < geom.box_sides(b).len() && geom.box_sides(b)[i] == e;
            assert(geom.box_sides(b).len() == 4);
            geom.lemma_side_touches(b, i);
            let k = choose|k: int| 0 <= k < t.len() && t[k] == b;
            if k == 0 {
                assert(n[0] == b);
            } else {
                assert(k == 1);
                if t.len() > 0 && p.completes(e, t[0]) {
                    assert(n[1] == b);
                } else {
                    assert(n[0] == b);
                }
            }
        }
    }
}

/// An image of a valid game is valid, with the same open boxes, and it is
/// over exactly when the game is.
pub proof fn lemma_image_inv(g: GameView, sigma: Seq<int>, tau: Seq<int>)
    requires
        g.inv(),
        sym_ok(g.pos.geom, sigma, tau),
    ensures
        image(g, sigma, tau).inv(),
        open_boxes(image(g, sigma, tau)) == open_boxes(g),
        image(g, sigma, tau).is_terminal() == g.is_terminal(),
        image(g, sigma, tau).pos.drawn.len() == g.pos.drawn.len(),
{
    let geom = g.pos.geom;
    let h = image(g, sigma, tau);
    let fs = |e: int| sigma[e];
    let ft = |b: int| tau[b];
    geom.lemma_bounds();
    lemma_drawn_count(g);
    let all_b = vstd::set_lib::set_int_range(0, geom.nboxes());
    vstd::set_lib::lemma_int_range(0, geom.nboxes());
    assert(g.pos.claimed.subset_of(all_b));
    vstd::set_lib::lemma_len_subset(g.pos.claimed, all_b);
    assert(vstd::relations::injective_on(ft, g.pos.claimed));
    vstd::set_lib::lemma_map_size(g.pos.claimed, h.pos.claimed, ft);
    assert(vstd::relations::injective_on(fs, g.pos.drawn));
    vstd::set_lib::lemma_map_size(g.pos.drawn, h.pos.drawn, fs);
    assert forall|y: int| #[trigger] h.pos.claimed.contains(y) <==> (0 <= y < geom.nboxes() && h.pos.is_complete(y)) by {
        if h.pos.claimed.contains(y) {
            let b = choose|b: int| g.pos.claimed.contains(b) && tau[b] == y;
            lemma_complete_image(g, sigma, tau, b);
        }
        if 0 <= y < geom.nboxes() && h.pos.is_complete(y) {
            assert(reached(tau, geom.nboxes(), y));
            let b = choose|b: int| 0 <= b < geom.nboxes() && tau[b] == y;
            lemma_complete_image(g, sigma, tau, b);
            assert(g.pos.claimed.contains(b));
        }
    }
    assert forall|e: int| h.pos.drawn.contains(e) implies 0 <= e < geom.nedges() by {
        let x = choose|x: int| g.pos.drawn.contains(x) && sigma[x] == e;
    }
    assert(h.owned1 + h.owned2 =~= h.pos.claimed);
    vstd::set_lib::lemma_set_disjoint_lens(g.owned1, g.owned2);
    assert(h.is_terminal() == g.is_terminal()) by {
        if g.is_terminal() {
            assert forall|y: int| 0 <= y < geom.nboxes() implies h.pos.claimed.contains(y) by {
                assert(reached(tau, geom.nboxes(), y));
            let b = choose|b: int| 0 <= b < geom.nboxes() && tau[b] == y;
                assert(g.pos.claimed.contains(b));
            }
        }
        if h.is_terminal() {
            assert forall|b: int| 0 <= b < geom.nboxes() implies g.pos.claimed.contains(b) by {
                assert(h.pos.claimed.contains(tau[b]));
                let b2 = choose|b2: int| g.pos.claimed.contains(b2) && tau[b2] == tau[b];
            }
        }
    }
}

/// Box `b` is complete exactly when its image is complete in the image game.
proof fn lemma_complete_image(g: GameView, sigma: Seq<int>, tau: Seq<int>, b: int)
    requires
        g.inv(),
        sym_ok(g.pos.geom, sigma, tau),
        0 <= b < g.pos.geom.nboxes(),
    ensures
        image(g, sigma, tau).pos.is_complete(tau[b]) == g.pos.is_complete(b),
        image(g, sigma, tau).pos.claimed.contains(tau[b]) == g.pos.claimed.contains(b),
{
    let geom = g.pos.geom;
    let h = image(g, sigma, tau);
    geom.lemma_box_sides_in_range(b);
    geom.lemma_box_sides_in_range(tau[b]);
    if g.pos.is_complete(b) {
        assert forall|j: int| 0 <= j < 4 implies h.pos.drawn.contains(#[trigger] geom.box_sides(tau[b])[j]) by {
            let y = geom.box_sides(tau[b])[j];
            assert(is_side(geom, y, tau[b]));
            assert(reached(sigma, geom.nedges(), y));
            let x = choose|x: int| 0 <= x < geom.nedges() && sigma[x] == y;
            assert(is_side(geom, x, b));
            let i = choose|i: int| 0 <= i < geom.box_sides(b).len() && geom.box_sides(b)[i] == x;
            assert(g.pos.drawn.contains(geom.box_sides(b)[i]));
        }
    }
    if h.pos.is_complete(tau[b]) {
        assert forall|i: int| 0 <= i < 4 implies g.pos.drawn.contains(#[trigger] geom.box_sides(b)[i]) by {
            let x = geom.box_sides(b)[i];
            assert(is_side(geom, x, b));
            assert(is_side(geom, sigma[x], tau[b]));
            let j = choose|j: int| 0 <= j < geom.box_sides(tau[b]).len() && geom.box_sides(tau[b])[j] == sigma[x];
            assert(h.pos.drawn.contains(geom.box_sides(tau[b])[j]));
            let x2 = choose|x2: int| g.pos.drawn.contains(x2) && sigma[x2] == sigma[x];
        }
    }
    if h.pos.claimed.contains(tau[b]) {
        let b2 = choose|b2: int| g.pos.claimed.contains(b2) && tau[b2] == tau[b];
    }
}

/// Playing the image of a legal edge in the image game claims as many boxes
/// and reaches the image of the position after the edge.
pub proof fn lemma_image_play(g: GameView, sigma: Seq<int>, tau: Seq<int>, e: int)
    requires
        g.inv(),
        sym_ok(g.pos.geom, sigma, tau),
        g.pos.is_legal(e),
    ensures
        image(g, sigma, tau).pos.is_legal(sigma[e]),
        image(g, sigma, tau).pos.newly_completed(sigma[e]).len() == g.pos.newly_completed(e).len(),
        image(g, sigma, tau).after_play(sigma[e]).pos == image(g.after_play(e), sigma, tau).pos,
{
    let geom = g.pos.geom;
    let h = image(g, sigma, tau);
    let ft = |b: int| tau[b];
    lemma_image_inv(g, sigma, tau);
    assert(h.pos.is_legal(sigma[e])) by {
        if h.pos.drawn.contains(sigma[e]) {
            let x = choose|x: int| g.pos.drawn.contains(x) && sigma[x] == sigma[e];
        }
    }
    lemma_newly_set(g, e);
    lemma_newly_set(h, sigma[e]);
    let n = g.pos.newly_completed(e);
    let n2 = h.pos.newly_completed(sigma[e]);
    g.pos.lemma_newly_facts(e);
    h.pos.lemma_newly_facts(sigma[e]);
    assert forall|y: int| n2.to_set().contains(y) <==> n.to_set().map(ft).contains(y) by {
        if n2.contains(y) {
            assert(reached(tau, geom.nboxes(), y));
            let b = choose|b: int| 0 <= b < geom.nboxes() && tau[b] == y;
            lemma_completes_image(g, sigma, tau, e, b);
            assert(n.contains(b));
            assert(n.to_set().contains(b));
        }
        if n.to_set().map(ft).contains(y) {
            let b = choose|b: int| n.to_set().contains(b) && tau[b] == y;
            assert(n.contains(b));
            lemma_completes_image(g, sigma, tau, e, b);
        }
    }
    assert(n2.to_set() =~= n.to_set().map(ft));
    assert(vstd::relations::injective_on(ft, n.to_set()));
    vstd::set_lib::lemma_map_size(n.to_set(), n2.to_set(), ft);
    let a = g.after_play(e);
    let ha = h.after_play(sigma[e]);
    let fs = |x: int| sigma[x];
    assert forall|y: int| ha.pos.drawn.contains(y) <==> a.pos.drawn.map(fs).contains(y) by {
        if ha.pos.drawn.contains(y) {
            if y == sigma[e] {
                assert(a.pos.drawn.contains(e));
            } else {
                let x = choose|x: int| g.pos.drawn.contains(x) && sigma[x] == y;
                assert(a.pos.drawn.contains(x));
            }
        }
        if a.pos.drawn.map(fs).contains(y) {
            let x = choose|x: int| a.pos.drawn.contains(x) && fs(x) == y;
            if x != e {
                assert(g.pos.drawn.contains(x));
                assert(g.pos.drawn.map(fs).contains(y));
            }
        }
    }
    assert(ha.pos.drawn =~= a.pos.drawn.map(fs));
    assert forall|y: int| ha.pos.claimed.contains(y) <==> a.pos.claimed.map(ft).contains(y) by {
        if ha.pos.claimed.contains(y) {
            if n2.to_set().contains(y) {
                let b = choose|b: int| n.to_set().contains(b) && ft(b) == y;
                assert(a.pos.claimed.contains(b));
            } else {
                let b = choose|b: int| g.pos.claimed.contains(b) && ft(b) == y;
                assert(a.pos.claimed.contains(b));
            }
        }
        if a.pos.claimed.map(ft).contains(y) {
            let b = choose|b: int| a.pos.claimed.contains(b) && ft(b) == y;
            if g.pos.claimed.contains(b) {
                assert(g.pos.claimed.map(ft).contains(y));
            } else {
                assert(n.to_set().contains(b));
                assert(n.to_set().map(ft).contains(y));
            }
        }
    }
    assert(ha.pos.claimed =~= a.pos.claimed.map(ft));
}

/// Drawing `e` completes box `b` exactly when drawing the image of `e` in the
/// image game completes the image of `b`.
proof fn lemma_completes_image(g: GameView, sigma: Seq<int>, tau: Seq<int>, e: int, b: int)
    requires
        g.inv(),
        sym_ok(g.pos.geom, sigma, tau),
        g.pos.is_legal(e),
        0 <= b < g.pos.geom.nboxes(),
    ensures
        (is_side(g.pos.geom, e, b) && g.pos.completes(e, b)) == (is_side(g.pos.geom, sigma[e], tau[b])
            && image(g, sigma, tau).pos.completes(sigma[e], tau[b])),
{
    let geom = g.pos.geom;
    let h = image(g, sigma, tau);
    lemma_complete_image(g, sigma, tau, b);
    geom.lemma_box_sides_in_range(b);
    geom.lemma_box_sides_in_range(tau[b]);
    if g.pos.completes(e, b) {
        assert forall|j: int| 0 <= j < 4 implies (#[trigger] geom.box_sides(tau[b])[j] == sigma[e]
            || h.pos.drawn.contains(geom.box_sides(tau[b])[j])) by {
            let y = geom.box_sides(tau[b])[j];
            assert(is_side(geom, y, tau[b]));
            assert(reached(sigma, geom.nedges(), y));
            let x = choose|x: int| 0 <= x < geom.nedges() && sigma[x] == y;
            assert(is_side(geom, x, b));
            let i = choose|i: int| 0 <= i < geom.box_sides(b).len() && geom.box_sides(b)[i] == x;
            assert(geom.box_sides(b)[i] == e || g.pos.drawn.contains(geom.box_sides(b)[i]));
        }
    }
    if h.pos.completes(sigma[e], tau[b]) {
        assert forall|i: int| 0 <= i < 4 implies (#[trigger] geom.box_sides(b)[i] == e
            || g.pos.drawn.contains(geom.box_sides(b)[i])) by {
            let x = geom.box_sides(b)[i];
            assert(is_side(geom, x, b));
            assert(is_side(geom, sigma[x], tau[b]));
            let j = choose|j: int| 0 <= j < geom.box_sides(tau[b]).len() && geom.box_sides(tau[b])[j] == sigma[x];
            assert(geom.box_sides(tau[b])[j] == sigma[e] || h.pos.drawn.contains(geom.box_sides(tau[b])[j]));
            if h.pos.drawn.contains(sigma[x]) {
                let x2 = choose|x2: int| g.pos.drawn.contains(x2) && sigma[x2] == sigma[x];
            }
        }
    }
    if is_side(geom, e, b) {
        assert(is_side(geom, sigma[e], tau[b]));
    }
    if is_side(geom, sigma[e], tau[b]) {
        assert(is_side(geom, e, b));
    }
}

/// A board symmetry, a permutation of the edges and of the boxes under which
/// an edge is a side of a box exactly when its image is a side of the image
/// box, keeps the value of every valid game.
pub proof fn law_symmetry_keeps_value(g: GameView, sigma: Seq<int>, tau: Seq<int>)
    requires
        g.inv(),
        sym_ok(g.pos.geom, sigma, tau),
    ensures
        game_value(image(g, sigma, tau)) == game_value(g),
    decreases undrawn(g),
{
    let h = image(g, sigma, tau);
    lemma_image_inv(g, sigma, tau);
    if !g.is_terminal() {
        let geom = g.pos.geom;
        assert forall|e: int| g.pos.is_legal(e) implies move_value(h, #[trigger] sigma[e]) == move_value(g, e) by {
            lemma_undrawn_play(g, e);
            lemma_image_play(g, sigma, tau, e);
            crate::game::law_play_keeps_invariant(g, e);
            crate::game::law_play_keeps_invariant(h, sigma[e]);
            let a = g.after_play(e);
            lemma_image_inv(a, sigma, tau);
            law_symmetry_keeps_value(a, sigma, tau);
            lemma_value_by_position(h.after_play(sigma[e]), image(a, sigma, tau));
        }
        let ls = g.pos.legal_edges();
        let hs = h.pos.legal_edges();
        g.pos.lemma_legal_below(geom.nedges());
        h.pos.lemma_legal_below(geom.nedges());
        lemma_best_value(g, ls);
        lemma_best_value(h, hs);
        crate::engine::lemma_nonterminal_has_move(g);
        crate::engine::lemma_nonterminal_has_move(h);
        // Every move of one game has a move of the same value in the other.
        let kg = choose|k: int| 0 <= k < ls.len() && move_value(g, #[trigger] ls[k]) == game_value(g);
        let kh = choose|k: int| 0 <= k < hs.len() && move_value(h, #[trigger] hs[k]) == game_value(h);
        let eg = ls[kg];
        assert(g.pos.is_legal(eg));
        assert(h.pos.is_legal(sigma[eg])) by {
            lemma_image_play(g, sigma, tau, eg);
        }
        assert(hs.contains(sigma[eg]));
        let jh = choose|j: int| 0 <= j < hs.len() && hs[j] == sigma[eg];
        assert(move_value(h, hs[jh]) <= game_value(h));
        let eh = hs[kh];
        assert(h.pos.is_legal(eh));
        assert(reached(sigma, geom.nedges(), eh));
        let x = choose|x: int| 0 <= x < geom.nedges() && sigma[x] == eh;
        assert(g.pos.is_legal(x)) by {
            if g.pos.drawn.contains(x) {
                assert(h.pos.drawn.contains(sigma[x]));
            }
        }
        assert(ls.contains(x));
        let jg = choose|j: int| 0 <= j < ls.len() && ls[j] == x;
        assert(move_value(g, ls[jg]) <= game_value(g));
        assert(move_value(h, sigma[x]) == move_value(g, x));
    }
}

/// The identity on `0..n`.
pub open spec fn identity_map(n: int) -> Seq<int> {
    Seq::new(n as nat, |i: int| i)
}

/// The identity is a symmetry of every board.
pub proof fn lemma_identity_sym(geom: BoardGeom)
    requires
        geom.wf(),
    ensures
        sym_ok(geom, identity_map(geom.nedges() as int), identity_map(geom.nboxes() as int)),
{
    geom.lemma_bounds();
    let n = geom.nedges() as int;
    let nb = geom.nboxes() as int;
    let s = identity_map(n);
    let t = identity_map(nb);
    assert forall|x: int| 0 <= x < n implies #[trigger] reached(s, n, x) by {
        assert(s[x] == x);
    }
    assert forall|y: int| 0 <= y < nb implies #[trigger] reached(t, nb, y) by {
        assert(t[y] == y);
    }
    assert forall|b: int, x: int|
        0 <= b < nb && 0 <= x < n implies (is_side(geom, #[trigger] s[x], #[trigger] t[b]) <==> is_side(
        geom,
        x,
        b,
    )) by {
        assert(s[x] == x && t[b] == b);
    }
    assert forall|e1: int, e2: int| 0 <= e1 < n && 0 <= e2 < n && #[trigger] s[e1] == #[trigger] s[e2] implies e1 == e2 by {
        assert(s[e1] == e1 && s[e2] == e2);
    }
    assert forall|e1: int, e2: int| 0 <= e1 < nb && 0 <= e2 < nb && #[trigger] t[e1] == #[trigger] t[e2] implies e1 == e2 by {
        assert(t[e1] == e1 && t[e2] == e2);
    }
    assert forall|e: int| 0 <= e < n implies 0 <= #[trigger] s[e] < n by {
        assert(s[e] == e);
    }
    assert forall|b: int| 0 <= b < nb implies 0 <= #[trigger] t[b] < nb by {
        assert(t[b] == b);
    }
    assert(s.len() == geom.nedges());
    assert(t.len() == geom.nboxes());
}

/// Whether `v` lists a permutation of `0..n`: every entry is below `n`, no
/// two entries are equal, and every number below `n` occurs.
fn is_permutation(v: &Vec<u16>, n: u16) -> (r: bool)
    requires
        v.len() == n,
    ensures
        r ==> forall|k: int| 0 <= k < n ==> 0 <= #[trigger] as_ints(v@)[k] < n,
        r ==> forall|k1: int, k2: int|
            0 <= k1 < n && 0 <= k2 < n && #[trigger] as_ints(v@)[k1] == #[trigger] as_ints(v@)[k2] ==> k1 == k2,
        r ==> forall|x: int| 0 <= x < n ==> #[trigger] reached(as_ints(v@), n as int, x),
{
    let mut inv: Vec<u16> = Vec::new();
    let mut i: u16 = 0;
    while i < n
        invariant
            i <= n,
            inv.len() == i,
            forall|k: int| 0 <= k < i ==> inv@[k] == n,
        decreases n - i,
    {
        inv.push(n);
        i += 1;
    }
    let mut e: u16 = 0;
    while e < n
        invariant
            e <= n,
            v.len() == n,
            inv.len() == n,
            forall|k: int| 0 <= k < e ==> #[trigger] v@[k] < n && inv@[v@[k] as int] == k,
            forall|x: int| 0 <= x < n && #[trigger] inv@[x] != n ==> inv@[x] < e && v@[inv@[x] as int] == x,
        decreases n - e,
    {
        let t = v[e as usize];
        if t >= n || inv[t as usize] != n {
            return false;
        }
        inv.set(t as usize, e);
        e += 1;
    }
    let mut x: u16 = 0;
    while x < n
        invariant
            x <= n,
            inv.len() == n,
            v.len() == n,
            forall|k: int| 0 <= k < x ==> #[trigger] inv@[k] != n,
        decreases n - x,
    {
        if inv[x as usize] == n {
            return false;
        }
        x += 1;
    }
    proof {
        let w = as_ints(v@);
        assert forall|k: int| 0 <= k < n implies 0 <= #[trigger] w[k] < n by {
            assert(v@[k] < n);
        }
        assert forall|k1: int, k2: int|
            0 <= k1 < n && 0 <= k2 < n && #[trigger] w[k1] == #[trigger] w[k2] implies k1 == k2 by {
            assert(inv@[v@[k1] as int] == k1);
            assert(inv@[v@[k2] as int] == k2);
        }
        assert forall|y: int| 0 <= y < n implies #[trigger] reached(w, n as int, y) by {
            assert(inv@[y] != n);
            let k = inv@[y] as int;
            assert(w[k] == y);
        }
    }
    true
}

/// The four sides of box `b`.
fn sides_of(geom: BoardGeom, b: u16) -> (r: [EdgeId; 4])
    requires
        geom.wf(),
        b < geom.nboxes(),
    ensures
        forall|j: int| 0 <= j < 4 ==> r@[j] as int == #[trigger] geom.box_sides(b as int)[j],
{
    proof {
        geom.lemma_bounds();
        crate::board::lemma_div_small(b as int, geom.ncols() as int, geom.nrows() as int);
    }
    let c = geom.cols() as u16;
    let row = (b / c) as u8;
    let col = (b % c) as u8;
    match geom.box_edges(row, col) {
        Some(a) => a,
        None => {
            proof {
                assert(false);
            }
            [0u16; 4]
        },
    }
}

/// Whether `x` is one of `sides`.
fn side_in(sides: &[EdgeId; 4], x: EdgeId) -> (r: bool)
    ensures
        r == exists|j: int| 0 <= j < 4 && sides@[j] == x,
{
    let mut j: usize = 0;
    while j < 4
        invariant
            j <= 4,
            forall|k: int| 0 <= k < j ==> sides@[k] != x,
        decreases 4 - j,
    {
        if sides[j] == x {
            return true;
        }
        j += 1;
    }
    false
}

/// The sides listed in `a` are those of box `b`, so membership in `a` is
/// being a side of `b`.
proof fn lemma_side_in(geom: BoardGeom, a: [EdgeId; 4], b: int, x: int)
    requires
        forall|j: int| 0 <= j < 4 ==> a@[j] as int == #[trigger] geom.box_sides(b)[j],
    ensures
        is_side(geom, x, b) == exists|j: int| 0 <= j < 4 && a@[j] as int == x,
{
    assert(geom.box_sides(b).len() == 4);
    if is_side(geom, x, b) {
        let j = choose|j: int| 0 <= j < geom.box_sides(b).len() && geom.box_sides(b)[j] == x;
        assert(a@[j] as int == x);
    }
    if exists|j: int| 0 <= j < 4 && a@[j] as int == x {
        let j = choose|j: int| 0 <= j < 4 && a@[j] as int == x;
        assert(geom.box_sides(b)[j] == x);
    }
}

/// Whether the edge map `map` carries the sides of box `b` exactly onto the
/// sides of box `c`.
fn carries(geom: BoardGeom, map: &Vec<EdgeId>, b: u16, c: u16) -> (r: bool)
    requires
        geom.wf(),
        map.len() == geom.nedges(),
        b < geom.nboxes(),
        c < geom.nboxes(),
    ensures
        r ==> forall|x: int|
            0 <= x < geom.nedges() ==> (is_side(geom, #[trigger] as_ints(map@)[x], c as int)
                <==> is_side(geom, x, b as int)),
{
    let sb = sides_of(geom, b);
    let sc = sides_of(geom, c);
    let n = geom.edge_count();
    let mut x: u16 = 0;
    while x < n
        invariant
            x <= n,
            n == geom.nedges(),
            map.len() == n,
            forall|j: int| 0 <= j < 4 ==> sb@[j] as int == #[trigger] geom.box_sides(b as int)[j],
            forall|j: int| 0 <= j < 4 ==> sc@[j] as int == #[trigger] geom.box_sides(c as int)[j],
            forall|k: int|
                0 <= k < x ==> (is_side(geom, #[trigger] as_ints(map@)[k], c as int) <==> is_side(
                    geom,
                    k,
                    b as int,
                )),
        decreases n - x,
    {
        let img = map[x as usize];
        if side_in(&sc, img) != side_in(&sb, x) {
            return false;
        }
        proof {
            lemma_side_in(geom, sc, c as int, img as int);
            lemma_side_in(geom, sb, b as int, x as int);
            assert(as_ints(map@)[x as int] == img as int);
            assert((exists|j: int| 0 <= j < 4 && sc@[j] as int == img as int) == (exists|j: int|
                0 <= j < 4 && sc@[j] == img));
            assert((exists|j: int| 0 <= j < 4 && sb@[j] as int == x as int) == (exists|j: int|
                0 <= j < 4 && sb@[j] == x));
        }
        x += 1;
    }
    true
}

/// The box permutation that goes with the edge map `map`, when `map` is a
/// symmetry of the board: a permutation of the edges carrying the sides of
/// every box onto the sides of one box, different boxes onto different boxes.
pub(crate) fn symmetry_boxes(geom: BoardGeom, map: &Vec<EdgeId>) -> (r: Option<Vec<u16>>)
    requires
        geom.wf(),
        map.len() == geom.nedges(),
    ensures
        r matches Some(t) ==> sym_ok(geom, as_ints(map@), as_ints(t@)),
{
    proof {
        geom.lemma_bounds();
    }
    let n = geom.edge_count();
    if !is_permutation(map, n) {
        return None;
    }
    let nb = geom.box_count();
    let mut tau: Vec<u16> = Vec::new();
    let mut b: u16 = 0;
    while b < nb
        invariant
            b <= nb,
            nb == geom.nboxes(),
            geom.wf(),
            map.len() == geom.nedges(),
            tau.len() == b,
            forall|k: int| 0 <= k < b ==> #[trigger] tau@[k] < nb,
            forall|k: int, x: int|
                0 <= k < b && 0 <= x < geom.nedges() ==> (is_side(
                    geom,
                    #[trigger] as_ints(map@)[x],
                    #[trigger] as_ints(tau@)[k],
                ) <==> is_side(geom, x, k)),
        decreases nb - b,
    {
        let mut c: u16 = 0;
        while c < nb
            invariant
                c <= nb,
                nb == geom.nboxes(),
                geom.wf(),
                map.len() == geom.nedges(),
                b < nb,
            decreases nb - c,
        {
            if carries(geom, map, b, c) {
                break;
            }
            c += 1;
        }
        if c >= nb || !carries(geom, map, b, c) {
            return None;
        }
        let ghost t0 = tau@;
        tau.push(c);
        proof {
            assert forall|k: int, x: int|
                0 <= k < b + 1 && 0 <= x < geom.nedges() implies (is_side(
                geom,
                #[trigger] as_ints(map@)[x],
                #[trigger] as_ints(tau@)[k],
            ) <==> is_side(geom, x, k)) by {
                if k < b {
                    assert(as_ints(tau@)[k] == as_ints(t0)[k]);
                } else {
                    assert(as_ints(tau@)[k] == c as int);
                }
            }
        }
        b += 1;
    }
    if !is_permutation(&tau, nb) {
        return None;
    }
    proof {
        let sigma = as_ints(map@);
        let t = as_ints(tau@);
        assert(sym_ok(geom, sigma, t));
    }
    Some(tau)
}

} // verus!
