//! The game-theoretic value of a position: the box margin the player to move
//! can force over the rest of the game.
use vstd::prelude::*;

use crate::game::GameView;

verus! {

/// Undrawn edges left in a game (the search depth bound).
pub open spec fn undrawn(g: GameView) -> int {
    g.pos.geom.nedges() - g.pos.drawn.len()
}

/// Boxes not yet claimed by either player.
pub open spec fn open_boxes(g: GameView) -> int {
    g.pos.geom.nboxes() - g.score1 - g.score2
}

/// A play draws one more edge, so fewer remain undrawn.
pub proof fn lemma_undrawn_play(g: GameView, e: int)
    requires
        g.inv(),
        g.pos.is_legal(e),
    ensures
        0 <= undrawn(g.after_play(e)) < undrawn(g),
{
    g.pos.geom.lemma_bounds();
    let all = vstd::set_lib::set_int_range(0, g.pos.geom.nedges());
    vstd::set_lib::lemma_int_range(0, g.pos.geom.nedges());
    assert(g.pos.drawn.subset_of(all));
    vstd::set_lib::lemma_len_subset(g.pos.drawn, all);
    crate::moves::law_move_draws_one(g.pos, e);
    let d2 = g.after_play(e).pos.drawn;
    assert(d2.subset_of(all));
    vstd::set_lib::lemma_len_subset(d2, all);
}

/// The drawn edges are a finite set of edges of the board, and a play draws one more.
pub proof fn lemma_drawn_count(g: GameView)
    requires
        g.inv(),
    ensures
        g.pos.drawn.finite(),
        0 <= g.pos.drawn.len() <= g.pos.geom.nedges() <= 144,
        forall|e: int|
            g.pos.is_legal(e) ==> #[trigger] g.after_play(e).pos.drawn.len() == g.pos.drawn.len() + 1,
{
    g.pos.geom.lemma_bounds();
    let all = vstd::set_lib::set_int_range(0, g.pos.geom.nedges());
    vstd::set_lib::lemma_int_range(0, g.pos.geom.nedges());
    assert(g.pos.drawn.subset_of(all));
    vstd::set_lib::lemma_len_subset(g.pos.drawn, all);
    assert forall|e: int| g.pos.is_legal(e) implies #[trigger] g.after_play(e).pos.drawn.len()
        == g.pos.drawn.len() + 1 by {
        crate::moves::law_move_draws_one(g.pos, e);
    }
}

/// What drawing `e` is worth to the player to move: the boxes it completes,
/// then the rest of the game, counted for the mover if they move again and
/// against them otherwise.
pub open spec fn move_value(g: GameView, e: int) -> int
    decreases undrawn(g), 0int, 0int,
{
    if !g.inv() || !g.pos.is_legal(e) {
        0
    } else {
        proof {
            lemma_undrawn_play(g, e);
        }
        let n = g.pos.newly_completed(e).len();
        let rest = game_value(g.after_play(e));
        if n > 0 {
            n + rest
        } else {
            -rest
        }
    }
}

/// The best move value among `ls` (`-128` for no moves).
pub open spec fn best_value(g: GameView, ls: Seq<int>) -> int
    decreases undrawn(g), 1int, ls.len(),
{
    if ls.len() == 0 {
        -128
    } else if ls.len() == 1 {
        move_value(g, ls[0])
    } else {
        let a = best_value(g, ls.drop_last());
        let b = move_value(g, ls.last());
        if a >= b {
            a
        } else {
            b
        }
    }
}

/// The box margin the player to move can force over the rest of the game
/// (boxes they will still win minus boxes the opponent will), with both
/// sides playing perfectly.
pub open spec fn game_value(g: GameView) -> int
    decreases undrawn(g), 2int, 0int,
{
    if !g.inv() || g.is_terminal() {
        0
    } else {
        best_value(g, g.pos.legal_edges())
    }
}

/// The open boxes are at most all boxes, and a play claims the boxes it completes.
pub proof fn lemma_open_boxes(g: GameView)
    requires
        g.inv(),
    ensures
        0 <= open_boxes(g) <= 64,
        forall|e: int|
            g.pos.is_legal(e) ==> #[trigger] open_boxes(g.after_play(e)) == open_boxes(g)
                - g.pos.newly_completed(e).len(),
        forall|e: int| g.pos.is_legal(e) ==> #[trigger] g.pos.newly_completed(e).len() <= 2,
{
    g.pos.geom.lemma_bounds();
    let all = vstd::set_lib::set_int_range(0, g.pos.geom.nboxes());
    vstd::set_lib::lemma_int_range(0, g.pos.geom.nboxes());
    assert(g.pos.claimed.subset_of(all));
    vstd::set_lib::lemma_len_subset(g.pos.claimed, all);
    vstd::set_lib::lemma_set_disjoint_lens(g.owned1, g.owned2);
    assert forall|e: int| g.pos.is_legal(e) implies #[trigger] g.pos.newly_completed(e).len() <= 2 by {
        g.pos.lemma_newly_facts(e);
    }
}

/// A position with no moves left has no boxes left to win.
proof fn lemma_terminal_open(g: GameView)
    requires
        g.inv(),
        g.is_terminal(),
    ensures
        open_boxes(g) == 0,
{
    g.pos.geom.lemma_bounds();
    let all = vstd::set_lib::set_int_range(0, g.pos.geom.nboxes());
    vstd::set_lib::lemma_int_range(0, g.pos.geom.nboxes());
    assert(g.pos.claimed =~= all);
    vstd::set_lib::lemma_set_disjoint_lens(g.owned1, g.owned2);
}

/// The best value is at least the value of each listed move, and is the value
/// of one of them when there are any.
pub proof fn lemma_best_value(g: GameView, ls: Seq<int>)
    ensures
        forall|k: int| 0 <= k < ls.len() ==> move_value(g, #[trigger] ls[k]) <= best_value(g, ls),
        ls.len() > 0 ==> exists|k: int| 0 <= k < ls.len() && move_value(g, #[trigger] ls[k]) == best_value(g, ls),
        ls.len() == 0 ==> best_value(g, ls) == -128,
    decreases ls.len(),
{
    if ls.len() > 0 {
        let prev = ls.drop_last();
        lemma_best_value(g, prev);
        assert forall|k: int| 0 <= k < ls.len() implies move_value(g, #[trigger] ls[k]) <= best_value(g, ls) by {
            if k < prev.len() {
                assert(ls[k] == prev[k]);
            }
        }
        if prev.len() == 0 {
            assert(move_value(g, ls[0]) == best_value(g, ls));
        } else if best_value(g, prev) >= move_value(g, ls.last()) {
            let k = choose|k: int| 0 <= k < prev.len() && move_value(g, #[trigger] prev[k]) == best_value(g, prev);
            assert(ls[k] == prev[k]);
        } else {
            assert(move_value(g, ls[ls.len() - 1]) == best_value(g, ls));
        }
    }
}

/// Lists with the same members have the same best value.
pub proof fn lemma_best_value_same_members(g: GameView, a: Seq<int>, b: Seq<int>)
    requires
        forall|x: int| a.contains(x) <==> b.contains(x),
    ensures
        best_value(g, a) == best_value(g, b),
{
    lemma_best_value(g, a);
    lemma_best_value(g, b);
    if a.len() > 0 {
        let ka = choose|k: int| 0 <= k < a.len() && move_value(g, #[trigger] a[k]) == best_value(g, a);
        assert(a.contains(a[ka]));
        let jb = choose|j: int| 0 <= j < b.len() && b[j] == a[ka];
        assert(b.len() > 0);
        let kb = choose|k: int| 0 <= k < b.len() && move_value(g, #[trigger] b[k]) == best_value(g, b);
        assert(b.contains(b[kb]));
        let ja = choose|j: int| 0 <= j < a.len() && a[j] == b[kb];
        assert(move_value(g, a[ja]) <= best_value(g, a));
        assert(move_value(g, b[jb]) <= best_value(g, b));
    } else if b.len() > 0 {
        assert(b.contains(b[0]));
    }
}

/// Every move value, and the value of the game, is within the open boxes.
pub proof fn lemma_value_bounds(g: GameView)
    requires
        g.inv(),
    ensures
        -open_boxes(g) <= game_value(g) <= open_boxes(g),
        forall|e: int|
            g.pos.is_legal(e) ==> -open_boxes(g) <= #[trigger] move_value(g, e) <= open_boxes(g),
    decreases undrawn(g), 1int,
{
    lemma_open_boxes(g);
    assert forall|e: int| g.pos.is_legal(e) implies -open_boxes(g) <= #[trigger] move_value(g, e)
        <= open_boxes(g) by {
        lemma_undrawn_play(g, e);
        crate::game::law_play_keeps_invariant(g, e);
        lemma_value_bounds(g.after_play(e));
    }
    if g.is_terminal() {
        lemma_terminal_open(g);
    } else {
        let ls = g.pos.legal_edges();
        g.pos.lemma_legal_below(g.pos.geom.nedges());
        lemma_best_value(g, ls);
        crate::engine::lemma_nonterminal_has_move(g);
        let k = choose|k: int| 0 <= k < ls.len() && move_value(g, #[trigger] ls[k]) == best_value(g, ls);
        assert(g.pos.is_legal(ls[k]));
        assert forall|j: int| 0 <= j < ls.len() implies move_value(g, #[trigger] ls[j]) <= open_boxes(g) by {
            assert(g.pos.is_legal(ls[j]));
        }
    }
}

/// Two valid games on one board with the same drawn edges have the same
/// position: the claimed boxes are exactly the completed ones.
pub proof fn lemma_drawn_fixes_position(g1: GameView, g2: GameView)
    requires
        g1.inv(),
        g2.inv(),
        g1.pos.geom == g2.pos.geom,
        g1.pos.drawn == g2.pos.drawn,
    ensures
        g1.pos == g2.pos,
        open_boxes(g1) == open_boxes(g2),
{
    assert forall|b: int| g1.pos.claimed.contains(b) <==> g2.pos.claimed.contains(b) by {
        if g1.pos.claimed.contains(b) || g2.pos.claimed.contains(b) {
            assert(g1.pos.is_complete(b) <==> g2.pos.is_complete(b));
        }
    }
    assert(g1.pos.claimed =~= g2.pos.claimed);
    vstd::set_lib::lemma_set_disjoint_lens(g1.owned1, g1.owned2);
    vstd::set_lib::lemma_set_disjoint_lens(g2.owned1, g2.owned2);
}

/// Lists whose moves are worth the same in two games have the same best value.
proof fn lemma_best_value_congruent(g1: GameView, g2: GameView, ls: Seq<int>)
    requires
        forall|k: int| 0 <= k < ls.len() ==> move_value(g1, #[trigger] ls[k]) == move_value(g2, ls[k]),
    ensures
        best_value(g1, ls) == best_value(g2, ls),
    decreases ls.len(),
{
    if ls.len() > 1 {
        let prev = ls.drop_last();
        assert forall|k: int| 0 <= k < prev.len() implies move_value(g1, #[trigger] prev[k])
            == move_value(g2, prev[k]) by {
            assert(prev[k] == ls[k]);
        }
        lemma_best_value_congruent(g1, g2, prev);
        assert(move_value(g1, ls[ls.len() - 1]) == move_value(g2, ls[ls.len() - 1]));
    } else if ls.len() == 1 {
        assert(move_value(g1, ls[0]) == move_value(g2, ls[0]));
    }
}

/// The value of a valid game depends only on its position: who is to move
/// and the scores so far do not change what the rest of the game is worth.
pub proof fn lemma_value_by_position(g1: GameView, g2: GameView)
    requires
        g1.inv(),
        g2.inv(),
        g1.pos == g2.pos,
    ensures
        game_value(g1) == game_value(g2),
    decreases undrawn(g1),
{
    if !g1.is_terminal() {
        assert forall|e: int| g1.pos.is_legal(e) implies move_value(g1, e) == move_value(g2, e) by {
            lemma_undrawn_play(g1, e);
            crate::game::law_play_keeps_invariant(g1, e);
            crate::game::law_play_keeps_invariant(g2, e);
            assert(g1.after_play(e).pos == g2.after_play(e).pos);
            lemma_value_by_position(g1.after_play(e), g2.after_play(e));
        }
        let ls = g1.pos.legal_edges();
        g1.pos.lemma_legal_below(g1.pos.geom.nedges());
        assert forall|k: int| 0 <= k < ls.len() implies move_value(g1, #[trigger] ls[k]) == move_value(
            g2,
            ls[k],
        ) by {
            assert(g1.pos.is_legal(ls[k]));
        }
        lemma_best_value_congruent(g1, g2, ls);
    }
}

} // verus!
