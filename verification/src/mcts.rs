//! Integer parts of the UCT Monte Carlo tree search: the engine's settings and
//! generator, the root capture shortcut, greedy rollouts, terminal margins and
//! the final most-visited choice. The UCT selection itself scores children with
//! floating-point confidence bounds and is driven from outside the library.
use vstd::prelude::*;

use crate::board::EdgeId;
use crate::engine::{
    best_captures, capturing_edges, greedy_candidates, lemma_keep_members,
    lemma_nonterminal_has_move, max_capture, pick, pick_from, state_after_pick, Engine, GreedyEngine,
};
use crate::game::{Game, GameView, Player};
use crate::rng::{sample_index, xorshift_step, XorShift64};

verus! {

/// Iterations used when none are configured.
pub const DEFAULT_ITERS: u32 = 256;

/// UCT search settings and tie-break generator. Deterministic given seed and
/// iteration budget.
#[derive(Clone, Debug)]
pub struct MctsEngine {
    rng: XorShift64,
    iterations: u32,
}

impl MctsEngine {
    /// Generator state.
    pub closed spec fn rng_state(self) -> u64 {
        self.rng.state()
    }

    /// The generator.
    pub closed spec fn spec_rng(self) -> XorShift64 {
        self.rng
    }

    /// Iteration budget.
    pub closed spec fn spec_iterations(self) -> u32 {
        self.iterations
    }

    pub fn new(seed: u64) -> (r: Self)
        ensures
            r.rng_state() == XorShift64::new_state(seed),
            r.spec_iterations() == DEFAULT_ITERS,
    {
        Self { rng: XorShift64::new(seed), iterations: DEFAULT_ITERS }
    }

    /// Set the iteration budget (at least one).
    pub fn with_iterations(self, n: u32) -> (r: Self)
        ensures
            r.rng_state() == self.rng_state(),
            r.spec_iterations() == if n >= 1 {
                n
            } else {
                1
            },
    {
        let mut s = self;
        s.iterations = if n >= 1 {
            n
        } else {
            1
        };
        s
    }

    /// The iteration budget.
    pub fn iterations(&self) -> (r: u32)
        ensures
            r == self.spec_iterations(),
    {
        self.iterations
    }

    /// The tie-break generator, for the search driver.
    pub fn rng_mut(&mut self) -> (r: &mut XorShift64)
        ensures
            *r == old(self).spec_rng(),
            final(self).spec_rng() == *final(r),
            final(self).spec_iterations() == old(self).spec_iterations(),
    {
        &mut self.rng
    }

    /// The move chosen without searching: the only legal move, else the best
    /// capture (greedy rollouts cannot represent a double-cross, so a free box
    /// at the root is taken). `None` when the tree search must decide.
    pub fn shortcut(&mut self, game: &Game, legal: &Vec<EdgeId>) -> (r: Option<EdgeId>)
        requires
            legal@.map_values(|e: EdgeId| e as int) == game@.pos.legal_edges(),
        ensures
            legal.len() == 1 ==> r == Some(legal@[0]) && final(self).rng_state() == old(
                self,
            ).rng_state(),
            legal.len() != 1 ==> r == best_capture_spec(game@, old(self).rng_state()),
            legal.len() != 1 && r is Some ==> final(self).rng_state() == state_after_pick(
                capturing_edges(game@.pos).len() as int,
                old(self).rng_state(),
            ),
            r is None ==> final(self).rng_state() == old(self).rng_state(),
            r matches Some(e) ==> game@.pos.is_legal(e as int),
            final(self).spec_iterations() == old(self).spec_iterations(),
    {
        if legal.len() == 1 {
            proof {
                assert(legal@.map_values(|e: EdgeId| e as int)[0] == legal@[0] as int);
                game@.pos.lemma_legal_below(game@.pos.geom.nedges());
            }
            return Some(legal[0]);
        }
        best_capture(game, legal, &mut self.rng)
    }
}

/// The capture a uniform draw from `state` picks among the best captures, if any.
pub open spec fn best_capture_spec(g: GameView, state: u64) -> Option<EdgeId> {
    if max_capture(g.pos, g.pos.legal_edges()) > 0 {
        Some(pick_from(capturing_edges(g.pos), state) as EdgeId)
    } else {
        None
    }
}

/// A uniformly drawn capturing move completing the most boxes, if any.
pub fn best_capture(game: &Game, legal: &Vec<EdgeId>, rng: &mut XorShift64) -> (r: Option<EdgeId>)
    requires
        legal@.map_values(|e: EdgeId| e as int) == game@.pos.legal_edges(),
    ensures
        r == best_capture_spec(game@, old(rng).state()),
        r is Some ==> final(rng).state() == state_after_pick(
            capturing_edges(game@.pos).len() as int,
            old(rng).state(),
        ),
        r is None ==> final(rng).state() == old(rng).state(),
        r matches Some(e) ==> game@.pos.is_legal(e as int),
{
    let pos = game.position();
    let ghost p = pos@;
    let capturing = best_captures(pos, legal);
    if capturing.len() == 0 {
        return None;
    }
    let e = pick(rng, &capturing);
    proof {
        let k = choose|k: int| 0 <= k < capturing.len() && capturing@[k] == e;
        assert(capturing@.map_values(|x: EdgeId| x as int)[k] == e as int);
        let m = max_capture(p, p.legal_edges());
        lemma_keep_members(
            p.legal_edges(),
            |x: int| crate::engine::capture_count(p, x) > 0 && crate::engine::capture_count(p, x)
                == m,
        );
        p.lemma_legal_below(p.geom.nedges());
        assert(capturing_edges(p)[k] == e as int);
        let le = p.legal_edges();
        let j = choose|j: int| 0 <= j < le.len() && le[j] == capturing_edges(p)[k];
        assert(0 <= e < 65536);
    }
    Some(e)
}

/// Undrawn edges left in a game.
pub open spec fn open_edges(g: GameView) -> int {
    g.pos.geom.nedges() - g.pos.drawn.len()
}

/// A play draws one more edge.
pub proof fn lemma_open_edges_play(g: GameView, e: int)
    requires
        g.inv(),
        g.pos.is_legal(e),
    ensures
        0 <= open_edges(g.after_play(e)) < open_edges(g),
{
    g.pos.geom.lemma_bounds();
    let all = vstd::set_lib::set_int_range(0, g.pos.geom.nedges());
    vstd::set_lib::lemma_int_range(0, g.pos.geom.nedges());
    assert(g.pos.drawn.subset_of(all));
    vstd::set_lib::lemma_len_subset(g.pos.drawn, all);
    crate::moves::law_move_draws_one(g.pos, e);
    let d2 = g.after_play(e).pos.drawn;
    assert(d2.subset_of(all));
    vstd::set_lib::lemma_len_subset(d2, all);
}

/// Where a greedy playout from `g` ends when its generator starts in state
/// `s`: while the game is not over, play the greedy engine's pick.
pub open spec fn greedy_playout(g: GameView, s: u64) -> GameView
    decreases open_edges(g),
{
    if !g.inv() || g.is_terminal() {
        g
    } else {
        let e = pick_from(greedy_candidates(g.pos), s);
        if !g.pos.is_legal(e) {
            g
        } else {
            proof {
                lemma_open_edges_play(g, e);
            }
            greedy_playout(
                g.after_play(e),
                state_after_pick(greedy_candidates(g.pos).len() as int, s),
            )
        }
    }
}

/// Play the game to the end with a greedy engine seeded from `rng`.
pub fn rollout(game: &mut Game, rng: &mut XorShift64)
    ensures
        final(game)@.is_terminal(),
        final(game)@.pos.geom == old(game)@.pos.geom,
        final(rng).state() == xorshift_step(old(rng).state()),
        final(game)@ == greedy_playout(
            old(game)@,
            XorShift64::new_state(xorshift_step(old(rng).state())),
        ),
{
    let mut greedy = GreedyEngine::new(rng.next_u64());
    let ghost geom = game@.pos.geom;
    let ghost target = greedy_playout(game@, greedy.rng_state());
    while !game.is_terminal()
        invariant
            game@.pos.geom == geom,
            greedy_playout(game@, greedy.rng_state()) == target,
        decreases open_edges(game@),
    {
        proof {
            use_type_invariant(&*game);
            game.lemma_wf();
        }
        let ghost before = game@;
        let ghost s0 = greedy.rng_state();
        let edge = greedy.choose_move(game);
        proof {
            lemma_open_edges_play(before, edge as int);
        }
        match game.play(edge) {
            Ok(_) => {},
            Err(e) => {
                proof {
                    match e {
                        crate::moves::MoveError::OutOfRange => {},
                        crate::moves::MoveError::AlreadyDrawn => {},
                    }
                    assert(false);
                }
                return;
            },
        }
        proof {
            assert(greedy_playout(before, s0) == greedy_playout(game@, greedy.rng_state()));
        }
    }
}

/// Score of `root` minus the score of the other player.
pub fn root_margin(game: &Game, root: Player) -> (r: i32)
    ensures
        r == game@.score(root) - game@.score(root.spec_other()),
{
    game.score(root) as i32 - game.score(root.other()) as i32
}

/// The reservoir scan of the first `k` children, from generator state `state`:
/// the chosen edge, the most visits seen, how many children had that many, and
/// the generator state. A child with more visits replaces the choice; the
/// `t`-th child with as many replaces it when a draw in `0..t` gives `0`.
pub open spec fn visit_scan(children: Seq<(EdgeId, u32)>, k: int, state: u64) -> (
    EdgeId,
    u32,
    u32,
    u64,
)
    decreases k,
{
    if k <= 0 {
        (children[0].0, 0, 0, state)
    } else {
        let prev = visit_scan(children, k - 1, state);
        let edge = children[k - 1].0;
        let v = children[k - 1].1;
        if v > prev.1 {
            (edge, v, 1, prev.3)
        } else if v == prev.1 {
            let t = prev.2 + 1;
            let draw = sample_index(prev.3, t as u64, u64::MAX as nat);
            (if draw.1 == 0 {
                edge
            } else {
                prev.0
            }, prev.1, t as u32, draw.0)
        } else {
            prev
        }
    }
}

/// Root child with the most visits; ties are broken by reservoir sampling with
/// `rng` (each tie after the first replaces the choice with probability 1/k).
/// `None` when the root has no children.
pub fn most_visited_child(children: &Vec<(EdgeId, u32)>, rng: &mut XorShift64) -> (r: Option<EdgeId>)
    requires
        children.len() < u32::MAX,
    ensures
        r is None <==> children.len() == 0,
        children.len() == 0 ==> final(rng).state() == old(rng).state(),
        children.len() > 0 ==> r == Some(visit_scan(children@, children.len() as int, old(rng).state()).0),
        children.len() > 0 ==> final(rng).state() == visit_scan(
            children@,
            children.len() as int,
            old(rng).state(),
        ).3,
        r matches Some(e) ==> exists|i: int|
            0 <= i < children.len() && children@[i].0 == e && forall|j: int|
                0 <= j < children.len() ==> #[trigger] children@[j].1 <= children@[i].1,
{
    if children.len() == 0 {
        return None;
    }
    let ghost s0 = rng.state();
    let mut best_edge = children[0].0;
    let mut best_i: usize = 0;
    let mut best_visits: u32 = 0;
    let mut ties: u32 = 0;
    let mut k: usize = 0;
    while k < children.len()
        invariant
            children.len() > 0,
            k <= children.len(),
            best_i < children.len(),
            children@[best_i as int].0 == best_edge,
            k > 0 ==> children@[best_i as int].1 == best_visits,
            forall|j: int| 0 <= j < k ==> #[trigger] children@[j].1 <= best_visits,
            k == 0 ==> best_visits == 0 && best_i == 0,
            ties <= k,
            children.len() < u32::MAX,
            visit_scan(children@, k as int, s0) == (best_edge, best_visits, ties, rng.state()),
        decreases children.len() - k,
    {
        let (edge, v) = children[k];
        if v > best_visits {
            best_visits = v;
            best_edge = edge;
            best_i = k;
            ties = 1;
        } else if v == best_visits {
            ties += 1;
            if rng.gen_index(ties as usize) == 0 {
                best_edge = edge;
                best_i = k;
            }
        }
        k += 1;
    }
    Some(best_edge)
}

} // verus!
