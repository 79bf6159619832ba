//! Baseline move engines: Random and Greedy.
use vstd::prelude::*;

use crate::board::{EdgeId, Position, PositionView};
use crate::cgt::{
    analysis_of, analyze_endgame, deref_opt, ids_below, opening_edges, opening_set, opens_at, ranked,
    ranked_open_targets, refusal, refuse_remnant, EndgameAnalysis, Region,
};
use crate::game::{Game, GameView};
use crate::rng::{accept_zone, sample_index, xorshift_step, XorShift64};

verus! {

/// Elements of `s` satisfying `f`, in order.
pub open spec fn keep(s: Seq<int>, f: spec_fn(int) -> bool) -> Seq<int>
    decreases s.len(),
{
    if s.len() == 0 {
        Seq::empty()
    } else {
        keep(s.drop_last(), f) + if f(s.last()) {
            seq![s.last()]
        } else {
            Seq::empty()
        }
    }
}

/// Appending one element extends the kept elements by it when it satisfies `f`.
pub proof fn lemma_keep_push(s: Seq<int>, x: int, f: spec_fn(int) -> bool)
    ensures
        keep(s.push(x), f) == keep(s, f) + if f(x) {
            seq![x]
        } else {
            Seq::<int>::empty()
        },
{
    assert(s.push(x).drop_last() =~= s);
}

/// Kept elements come from `s` and satisfy `f`.
pub proof fn lemma_keep_members(s: Seq<int>, f: spec_fn(int) -> bool)
    ensures
        keep(s, f).len() <= s.len(),
        forall|i: int|
            0 <= i < keep(s, f).len() ==> f(#[trigger] keep(s, f)[i]) && s.contains(keep(s, f)[i]),
    decreases s.len(),
{
    if s.len() > 0 {
        lemma_keep_members(s.drop_last(), f);
        let prev = keep(s.drop_last(), f);
        let cur = keep(s, f);
        assert forall|i: int| 0 <= i < cur.len() implies f(#[trigger] cur[i]) && s.contains(cur[i]) by {
            if i < prev.len() {
                assert(cur[i] == prev[i]);
                let j = choose|j: int| 0 <= j < s.drop_last().len() && s.drop_last()[j] == prev[i];
                assert(s[j] == prev[i]);
            } else {
                assert(s[s.len() - 1] == cur[i]);
            }
        }
    }
}

/// Every element of `s` satisfying `f` is kept.
pub proof fn lemma_keep_complete(s: Seq<int>, f: spec_fn(int) -> bool, i: int)
    requires
        0 <= i < s.len(),
        f(s[i]),
    ensures
        keep(s, f).contains(s[i]),
    decreases s.len(),
{
    if i == s.len() - 1 {
        assert(keep(s, f)[keep(s, f).len() - 1] == s[i]);
    } else {
        lemma_keep_complete(s.drop_last(), f, i);
        let prev = keep(s.drop_last(), f);
        let j = choose|j: int| 0 <= j < prev.len() && prev[j] == s[i];
        assert(keep(s, f)[j] == prev[j]);
    }
}

/// Nothing is kept when no element satisfies `f`.
pub proof fn lemma_keep_none(s: Seq<int>, f: spec_fn(int) -> bool)
    requires
        forall|i: int| 0 <= i < s.len() ==> !f(#[trigger] s[i]),
    ensures
        keep(s, f) == Seq::<int>::empty(),
    decreases s.len(),
{
    if s.len() > 0 {
        lemma_keep_none(s.drop_last(), f);
        assert(!f(s[s.len() - 1]));
    }
}

/// Boxes drawing the legal edge `e` would complete.
pub open spec fn capture_count(p: PositionView, e: int) -> int {
    p.newly_completed(e).len() as int
}

/// Largest capture count over `s` (0 for none).
pub open spec fn max_capture(p: PositionView, s: Seq<int>) -> int
    decreases s.len(),
{
    if s.len() == 0 {
        0
    } else {
        let m = max_capture(p, s.drop_last());
        let c = capture_count(p, s.last());
        if c > m {
            c
        } else {
            m
        }
    }
}

/// `max_capture` bounds every element and is reached when positive.
pub proof fn lemma_max_capture(p: PositionView, s: Seq<int>)
    ensures
        max_capture(p, s) >= 0,
        forall|i: int| 0 <= i < s.len() ==> capture_count(p, #[trigger] s[i]) <= max_capture(p, s),
        max_capture(p, s) > 0 ==> exists|i: int|
            0 <= i < s.len() && capture_count(p, #[trigger] s[i]) == max_capture(p, s),
    decreases s.len(),
{
    if s.len() > 0 {
        lemma_max_capture(p, s.drop_last());
        let prev = s.drop_last();
        assert forall|i: int| 0 <= i < s.len() implies capture_count(p, #[trigger] s[i])
            <= max_capture(p, s) by {
            if i < prev.len() {
                assert(s[i] == prev[i]);
            }
        }
        if max_capture(p, s) > 0 {
            if capture_count(p, s.last()) > max_capture(p, prev) {
                assert(capture_count(p, s[s.len() - 1]) == max_capture(p, s));
            } else {
                let i = choose|i: int|
                    0 <= i < prev.len() && capture_count(p, #[trigger] prev[i]) == max_capture(
                        p,
                        prev,
                    );
                assert(s[i] == prev[i]);
            }
        }
    }
}

/// Legal edges completing the most boxes (empty when none completes a box).
pub open spec fn capturing_edges(p: PositionView) -> Seq<int> {
    let m = max_capture(p, p.legal_edges());
    keep(p.legal_edges(), |e: int| capture_count(p, e) > 0 && capture_count(p, e) == m)
}

/// Drawing `e` leaves an adjacent unclaimed box with exactly three sides drawn.
pub open spec fn leaves_three(p: PositionView, e: int) -> bool {
    let q = p.after_move(e);
    let t = p.geom.touching(e);
    exists|i: int| 0 <= i < t.len() && !q.claimed.contains(t[i]) && #[trigger] q.sides(t[i]) == 3
}

/// A move hands over a box exactly when one of the boxes it is a side of, any
/// of them, is left unclaimed with exactly three sides drawn once it is made.
pub proof fn law_unsafe_move(p: PositionView, e: int)
    requires
        p.geom.wf(),
    ensures
        leaves_three(p, e) <==> exists|b: int|
            0 <= b < p.geom.nboxes() && #[trigger] p.geom.box_sides(b).contains(e)
                && !p.after_move(e).claimed.contains(b) && p.after_move(e).sides(b) == 3,
{
    let q = p.after_move(e);
    let t = p.geom.touching(e);
    if leaves_three(p, e) {
        let i = choose|i: int| 0 <= i < t.len() && !q.claimed.contains(t[i]) && #[trigger] q.sides(t[i]) == 3;
        assert(t.contains(t[i]));
        p.geom.lemma_touching_side(e, t[i]);
        assert(p.geom.box_sides(t[i]).contains(e));
    }
    if exists|b: int|
        0 <= b < p.geom.nboxes() && #[trigger] p.geom.box_sides(b).contains(e)
            && !q.claimed.contains(b) && q.sides(b) == 3 {
        let b = choose|b: int|
            0 <= b < p.geom.nboxes() && #[trigger] p.geom.box_sides(b).contains(e)
                && !q.claimed.contains(b) && q.sides(b) == 3;
        let j = choose|j: int| 0 <= j < p.geom.box_sides(b).len() && p.geom.box_sides(b)[j] == e;
        assert(p.geom.box_sides(b).len() == 4);
        p.geom.lemma_side_touches(b, j);
        let i = choose|i: int| 0 <= i < t.len() && t[i] == b;
        assert(!q.claimed.contains(t[i]) && q.sides(t[i]) == 3);
    }
}

/// Legal edges that do not hand the opponent a three-sided box.
pub open spec fn safe_edges(p: PositionView) -> Seq<int> {
    keep(p.legal_edges(), |e: int| !leaves_three(p, e))
}

/// The edges Greedy chooses among: best captures, else safe moves, else any move.
pub open spec fn greedy_candidates(p: PositionView) -> Seq<int> {
    if max_capture(p, p.legal_edges()) > 0 {
        capturing_edges(p)
    } else if safe_edges(p).len() > 0 {
        safe_edges(p)
    } else {
        p.legal_edges()
    }
}

/// The element of `items` a uniform draw from generator state `state` selects.
pub open spec fn pick_from(items: Seq<int>, state: u64) -> int {
    items[sample_index(state, items.len() as u64, u64::MAX as nat).1 as int]
}

/// Generator state after drawing an index into a list of `len` items.
pub open spec fn state_after_pick(len: int, state: u64) -> u64 {
    sample_index(state, len as u64, u64::MAX as nat).0
}

/// A uniform draw from `len` items gives an index below `len`.
pub proof fn lemma_sample_below(x: u64, len: u64, tries: nat)
    requires
        len > 0,
    ensures
        sample_index(x, len, tries).1 < len,
    decreases tries,
{
    let y = xorshift_step(x);
    if !(y < accept_zone(len) || tries == 0) {
        lemma_sample_below(y, len, (tries - 1) as nat);
    }
}

/// A draw from a non-empty list gives one of its elements.
pub proof fn lemma_pick_member(items: Seq<int>, state: u64)
    requires
        0 < items.len() <= u64::MAX,
    ensures
        items.contains(pick_from(items, state)),
{
    lemma_sample_below(state, items.len() as u64, u64::MAX as nat);
    let k = sample_index(state, items.len() as u64, u64::MAX as nat).1 as int;
    assert(items[k] == pick_from(items, state));
}

/// Random's choice from any generator state is a legal move.
pub proof fn law_random_policy(g: GameView, s: u64)
    requires
        g.inv(),
        !g.is_terminal(),
    ensures
        g.pos.is_legal(pick_from(g.pos.legal_edges(), s)),
{
    lemma_nonterminal_has_move(g);
    g.pos.lemma_legal_below(g.pos.geom.nedges());
    g.pos.geom.lemma_bounds();
    lemma_pick_member(g.pos.legal_edges(), s);
    let ls = g.pos.legal_edges();
    let k = choose|k: int| 0 <= k < ls.len() && ls[k] == pick_from(ls, s);
}

/// Greedy's choice from any generator state: a legal move; when some move
/// completes a box, one completing the most; otherwise, when some move hands
/// over no three-sided box, such a move.
pub proof fn law_greedy_policy(g: GameView, s: u64)
    requires
        g.inv(),
        !g.is_terminal(),
    ensures
        g.pos.is_legal(pick_from(greedy_candidates(g.pos), s)),
        max_capture(g.pos, g.pos.legal_edges()) > 0 ==> capture_count(
            g.pos,
            pick_from(greedy_candidates(g.pos), s),
        ) == max_capture(g.pos, g.pos.legal_edges()),
        max_capture(g.pos, g.pos.legal_edges()) == 0 && safe_edges(g.pos).len() > 0 ==> !leaves_three(
            g.pos,
            pick_from(greedy_candidates(g.pos), s),
        ),
{
    let p = g.pos;
    let ls = p.legal_edges();
    lemma_nonterminal_has_move(g);
    p.lemma_legal_below(p.geom.nedges());
    p.geom.lemma_bounds();
    lemma_max_capture(p, ls);
    let m = max_capture(p, ls);
    let fc = |e: int| capture_count(p, e) > 0 && capture_count(p, e) == m;
    let fs = |e: int| !leaves_three(p, e);
    lemma_keep_members(ls, fc);
    lemma_keep_members(ls, fs);
    let c = greedy_candidates(p);
    if m > 0 {
        let i = choose|i: int| 0 <= i < ls.len() && capture_count(p, #[trigger] ls[i]) == m;
        lemma_keep_complete(ls, fc, i);
    }
    assert(0 < c.len() <= ls.len());
    lemma_pick_member(c, s);
    let r = pick_from(c, s);
    let k = choose|k: int| 0 <= k < c.len() && c[k] == r;
    if m == 0 && safe_edges(p).len() == 0 {
        let j = choose|j: int| 0 <= j < ls.len() && ls[j] == r;
    }
}

/// A game that is not over has a legal move.
pub proof fn lemma_nonterminal_has_move(g: GameView)
    requires
        g.inv(),
        !g.is_terminal(),
    ensures
        g.pos.legal_edges().len() > 0,
{
    let b = choose|b: int| 0 <= b < g.pos.geom.nboxes() && !g.pos.claimed.contains(b);
    assert(!g.pos.is_complete(b));
    let i = choose|i: int| 0 <= i < 4 && !g.pos.drawn.contains(#[trigger] g.pos.geom.box_sides(b)[i]);
    g.pos.geom.lemma_box_sides_in_range(b);
    let e = g.pos.geom.box_sides(b)[i];
    g.pos.lemma_legal_below(g.pos.geom.nedges());
    assert(g.pos.is_legal(e));
    assert(g.pos.legal_edges().contains(e));
}

/// Selects a legal edge for the side to move.
///
/// Callers must not invoke [`Engine::choose_move`] on a terminal game.
pub trait Engine {
    fn choose_move(&mut self, game: &Game) -> (r: EdgeId)
        requires
            !game@.is_terminal(),
        ensures
            game@.pos.is_legal(r as int),
    ;
}

/// Uniform random legal move.
#[derive(Clone, Debug)]
pub struct RandomEngine {
    rng: XorShift64,
}

impl RandomEngine {
    /// Generator state.
    pub closed spec fn rng_state(self) -> u64 {
        self.rng.state()
    }

    pub fn new(seed: u64) -> (r: Self)
        ensures
            r.rng_state() == XorShift64::new_state(seed),
    {
        Self { rng: XorShift64::new(seed) }
    }
}

impl Engine for RandomEngine {
    fn choose_move(&mut self, game: &Game) -> (r: EdgeId)
        ensures
            r as int == pick_from(game@.pos.legal_edges(), old(self).rng_state()),
            final(self).rng_state() == state_after_pick(
                game@.pos.legal_edges().len() as int,
                old(self).rng_state(),
            ),
    {
        let legal = game.legal_moves();
        proof {
            use_type_invariant(game);
            game.lemma_wf();
            lemma_nonterminal_has_move(game@);
        }
        pick(&mut self.rng, &legal)
    }
}

/// Take free boxes; otherwise avoid handing the opponent a 3-sided box.
#[derive(Clone, Debug)]
pub struct GreedyEngine {
    rng: XorShift64,
}

impl GreedyEngine {
    /// Generator state.
    pub closed spec fn rng_state(self) -> u64 {
        self.rng.state()
    }

    pub fn new(seed: u64) -> (r: Self)
        ensures
            r.rng_state() == XorShift64::new_state(seed),
    {
        Self { rng: XorShift64::new(seed) }
    }
}

impl Engine for GreedyEngine {
    fn choose_move(&mut self, game: &Game) -> (r: EdgeId)
        ensures
            r as int == pick_from(greedy_candidates(game@.pos), old(self).rng_state()),
            final(self).rng_state() == state_after_pick(
                greedy_candidates(game@.pos).len() as int,
                old(self).rng_state(),
            ),
    {
        proof {
            use_type_invariant(game);
            game.lemma_wf();
            lemma_nonterminal_has_move(game@);
        }
        let pos = game.position();
        let legal = game.legal_moves();
        let ghost p = pos@;
        let ghost ls = legal@.map_values(|e: EdgeId| e as int);

        // 1) Maximize completed boxes among capturing moves.
        let capturing = best_captures(pos, &legal);
        proof {
            lemma_max_capture(p, ls);
        }
        if capturing.len() > 0 {
            let r = pick(&mut self.rng, &capturing);
            proof {
                let ghost f = |e: int| capture_count(p, e) > 0 && capture_count(p, e) == max_capture(
                    p,
                    ls,
                );
                lemma_keep_members(ls, f);
                let k = choose|k: int| 0 <= k < capturing.len() && capturing@[k] == r;
                assert(capturing@.map_values(|e: EdgeId| e as int)[k] == r as int);
                p.lemma_legal_below(p.geom.nedges());
            }
            return r;
        }
        // 2) Prefer safe non-capturing moves (do not create a 3-sided box).
        let safe = safe_moves(pos, &legal);
        if safe.len() > 0 {
            let r = pick(&mut self.rng, &safe);
            proof {
                lemma_keep_members(ls, |e: int| !leaves_three(p, e));
                let k = choose|k: int| 0 <= k < safe.len() && safe@[k] == r;
                assert(safe@.map_values(|e: EdgeId| e as int)[k] == r as int);
                p.lemma_legal_below(p.geom.nedges());
            }
            return r;
        }
        // 3) Forced: every move hands over a box.
        pick(&mut self.rng, &legal)
    }
}

/// Legal moves completing the most boxes, in order (empty when none captures).
pub fn best_captures(pos: Position, legal: &Vec<EdgeId>) -> (r: Vec<EdgeId>)
    requires
        legal@.map_values(|e: EdgeId| e as int) == pos@.legal_edges(),
    ensures
        r@.map_values(|e: EdgeId| e as int) == capturing_edges(pos@),
        r.len() > 0 <==> max_capture(pos@, pos@.legal_edges()) > 0,
{
    let ghost p = pos@;
    let ghost ls = legal@.map_values(|e: EdgeId| e as int);
    let mut best_completed: usize = 0;
    let mut capturing: Vec<EdgeId> = Vec::new();
    let mut i: usize = 0;
    while i < legal.len()
        invariant
            i <= legal.len(),
            ls == legal@.map_values(|e: EdgeId| e as int),
            ls == p.legal_edges(),
            p == pos@,
            best_completed == max_capture(p, ls.take(i as int)),
            capturing@.map_values(|e: EdgeId| e as int) == keep(
                ls.take(i as int),
                |e: int| capture_count(p, e) > 0 && capture_count(p, e) == best_completed,
            ),
        decreases legal.len() - i,
    {
        let edge = legal[i];
        proof {
            p.lemma_legal_below(p.geom.nedges());
            assert(ls[i as int] == edge as int);
            assert(ls.take(i + 1) =~= ls.take(i as int).push(edge as int));
            assert(ls.take(i + 1).drop_last() =~= ls.take(i as int));
        }
        let n = completed_count(pos, edge);
        let ghost old_best = best_completed;
        if n > best_completed {
            best_completed = n;
            capturing.clear();
            capturing.push(edge);
            proof {
                let f = |e: int| capture_count(p, e) > 0 && capture_count(p, e) == best_completed;
                lemma_max_capture(p, ls.take(i as int));
                assert forall|j: int| 0 <= j < ls.take(i as int).len() implies !f(
                    #[trigger] ls.take(i as int)[j],
                ) by {}
                lemma_keep_none(ls.take(i as int), f);
                lemma_keep_push(ls.take(i as int), edge as int, f);
                assert(capturing@.map_values(|e: EdgeId| e as int) =~= keep(ls.take(i + 1), f));
            }
        } else {
            let ghost f = |e: int| capture_count(p, e) > 0 && capture_count(p, e) == best_completed;
            proof {
                lemma_keep_push(ls.take(i as int), edge as int, f);
            }
            if n > 0 && n == best_completed {
                capturing.push(edge);
            }
            proof {
                assert(capturing@.map_values(|e: EdgeId| e as int) =~= keep(ls.take(i + 1), f));
            }
        }
        i += 1;
    }
    proof {
        assert(ls.take(legal.len() as int) =~= ls);
        lemma_max_capture(p, ls);
        let f = |e: int| capture_count(p, e) > 0 && capture_count(p, e) == best_completed;
        lemma_keep_members(ls, f);
        if best_completed > 0 {
            let j = choose|j: int| 0 <= j < ls.len() && capture_count(p, #[trigger] ls[j]) == max_capture(p, ls);
            lemma_keep_complete(ls, f, j);
        }
        assert(capturing@.map_values(|e: EdgeId| e as int).len() == capturing.len());
        if capturing.len() > 0 {
            assert(f(keep(ls, f)[0]));
        }
    }
    capturing
}

/// Legal moves that do not leave a three-sided box, in order.
pub(crate) fn safe_moves(pos: Position, legal: &Vec<EdgeId>) -> (r: Vec<EdgeId>)
    requires
        legal@.map_values(|e: EdgeId| e as int) == pos@.legal_edges(),
    ensures
        r@.map_values(|e: EdgeId| e as int) == safe_edges(pos@),
{
    let ghost p = pos@;
    let ghost ls = legal@.map_values(|e: EdgeId| e as int);
    let mut safe: Vec<EdgeId> = Vec::new();
    let mut i: usize = 0;
    while i < legal.len()
        invariant
            i <= legal.len(),
            ls == legal@.map_values(|e: EdgeId| e as int),
            ls == p.legal_edges(),
            p == pos@,
            safe@.map_values(|e: EdgeId| e as int) == keep(
                ls.take(i as int),
                |e: int| !leaves_three(p, e),
            ),
        decreases legal.len() - i,
    {
        let edge = legal[i];
        proof {
            p.lemma_legal_below(p.geom.nedges());
            assert(ls[i as int] == edge as int);
            assert(ls.take(i + 1) =~= ls.take(i as int).push(edge as int));
            lemma_keep_push(ls.take(i as int), edge as int, |e: int| !leaves_three(p, e));
        }
        if !leaves_three_sided(pos, edge) {
            safe.push(edge);
        }
        proof {
            assert(safe@.map_values(|e: EdgeId| e as int) =~= keep(
                ls.take(i + 1),
                |e: int| !leaves_three(p, e),
            ));
        }
        i += 1;
    }
    proof {
        assert(ls.take(legal.len() as int) =~= ls);
    }
    safe
}

/// Uniform pick from a nonempty list.
pub fn pick(rng: &mut XorShift64, items: &Vec<EdgeId>) -> (r: EdgeId)
    requires
        items.len() > 0,
    ensures
        r as int == pick_from(items@.map_values(|e: EdgeId| e as int), old(rng).state()),
        final(rng).state() == state_after_pick(items.len() as int, old(rng).state()),
        exists|i: int| 0 <= i < items.len() && items@[i] == r,
{
    let i = rng.gen_index(items.len());
    items[i]
}

/// Boxes completed by drawing the legal `edge`.
pub fn completed_count(pos: Position, edge: EdgeId) -> (r: usize)
    requires
        pos@.is_legal(edge as int),
    ensures
        r == capture_count(pos@, edge as int),
        r <= 2,
{
    let mut probe = pos;
    let res = probe.apply_move(edge);
    match res {
        Ok(undo) => {
            let c = undo.completed();
            proof {
                assert(c@.map_values(|b: u16| b as int).len() == c@.len());
            }
            c.len()
        },
        Err(e) => {
            proof {
                match e {
                    crate::moves::MoveError::OutOfRange => {},
                    crate::moves::MoveError::AlreadyDrawn => {},
                }
            }
            0
        },
    }
}

/// True if drawing `edge` leaves an adjacent unclaimed box with exactly 3 sides.
pub fn leaves_three_sided(pos: Position, edge: EdgeId) -> (r: bool)
    requires
        pos@.is_legal(edge as int),
    ensures
        r == leaves_three(pos@, edge as int),
{
    let mut probe = pos;
    let res = probe.apply_move(edge);
    proof {
        match res {
            Ok(_) => {},
            Err(e) => {
                match e {
                    crate::moves::MoveError::OutOfRange => {},
                    crate::moves::MoveError::AlreadyDrawn => {},
                }
            },
        }
    }
    let ghost q = probe@;
    let ghost t = pos@.geom.touching(edge as int);

    let mut touching = [0u16; 2];
    let n = pos.geom().boxes_touching_edge(edge, &mut touching);
    proof {
        pos@.geom.lemma_touching_in_range(edge as int);
    }
    let mut i: usize = 0;
    while i < n
        invariant
            i <= n,
            n == t.len(),
            t == pos@.geom.touching(edge as int),
            q == probe@,
            q == pos@.after_move(edge as int),
            forall|k: int| 0 <= k < n ==> touching[k] as int == t[k],
            forall|k: int| 0 <= k < n ==> 0 <= #[trigger] t[k] < q.geom.nboxes(),
            forall|k: int| 0 <= k < i ==> !(!q.claimed.contains(t[k]) && #[trigger] q.sides(t[k]) == 3),
        decreases n - i,
    {
        let box_id = touching[i];
        proof {
            assert(box_id as int == t[i as int]);
        }
        if !probe.box_is_claimed(box_id) && probe.sides_drawn(box_id) == 3 {
            return true;
        }
        i += 1;
    }
    false
}

/// The opening edges of region `r`, ascending; without those completing a box
/// when `drop_captures`.
pub open spec fn region_openings(p: PositionView, r: Region, drop_captures: bool) -> Seq<int> {
    let all = ids_below(opening_set(p, r), p.geom.nedges()).map_values(|e: u16| e as int);
    if drop_captures {
        keep(all, |e: int| capture_count(p, e) == 0)
    } else {
        all
    }
}

/// The openings of the first region from index `i` on that has any.
pub open spec fn first_openings(p: PositionView, ts: Seq<Region>, drop_captures: bool, i: int) -> Seq<
    int,
>
    decreases ts.len() - i,
{
    if i < 0 || i >= ts.len() {
        Seq::empty()
    } else if region_openings(p, ts[i], drop_captures).len() > 0 {
        region_openings(p, ts[i], drop_captures)
    } else {
        first_openings(p, ts, drop_captures, i + 1)
    }
}

/// The edges the CGT engine draws among, given analysis `a` of `p`.
///
/// With a capture available: when the capture should be refused, the non-capturing
/// openings of the best other region to keep control (long chains, then loops, then
/// short chains, shortest first), else the best captures. Without a capture: in a
/// decomposed position the openings of the smallest region; in the midgame the safe
/// moves, else the openings of the smallest region. Any legal move when nothing else
/// applies.
pub open spec fn cgt_candidates(p: PositionView, a: EndgameAnalysis) -> Seq<int> {
    let dump = first_openings(p, ranked(a.spec_regions(), None, false), false, 0);
    if max_capture(p, p.legal_edges()) > 0 {
        let opened = match refusal(p, a) {
            Some(rem) => first_openings(p, ranked(a.spec_regions(), Some(rem), true), true, 0),
            None => Seq::empty(),
        };
        if opened.len() > 0 {
            opened
        } else {
            capturing_edges(p)
        }
    } else if !a.decomposed && safe_edges(p).len() > 0 {
        safe_edges(p)
    } else if dump.len() > 0 {
        dump
    } else {
        p.legal_edges()
    }
}

/// Ids listed by `ids_below` are members below the bound.
pub proof fn lemma_ids_below_members(s: Set<int>, k: int)
    requires
        k <= 65536,
    ensures
        forall|i: int|
            0 <= i < ids_below(s, k).len() ==> 0 <= #[trigger] ids_below(s, k)[i] < k && s.contains(
                ids_below(s, k)[i] as int,
            ),
    decreases k,
{
    if k > 0 {
        lemma_ids_below_members(s, k - 1);
        let prev = ids_below(s, k - 1);
        assert forall|i: int| 0 <= i < ids_below(s, k).len() implies 0 <= #[trigger] ids_below(
            s,
            k,
        )[i] < k && s.contains(ids_below(s, k)[i] as int) by {
            if i < prev.len() {
                assert(ids_below(s, k)[i] == prev[i]);
            }
        }
    }
}

/// Every opening edge of a region is a legal move.
pub proof fn lemma_openings_legal(p: PositionView, r: Region, drop_captures: bool)
    requires
        p.geom.wf(),
    ensures
        forall|i: int|
            0 <= i < region_openings(p, r, drop_captures).len() ==> p.is_legal(
                #[trigger] region_openings(p, r, drop_captures)[i],
            ),
{
    p.geom.lemma_bounds();
    let ids = ids_below(opening_set(p, r), p.geom.nedges());
    lemma_ids_below_members(opening_set(p, r), p.geom.nedges());
    let all = ids.map_values(|e: u16| e as int);
    assert forall|i: int| 0 <= i < all.len() implies p.is_legal(#[trigger] all[i]) by {
        assert(opening_set(p, r).contains(ids[i] as int));
        let (b, k) = choose|b: int, k: int| #[trigger] opens_at(p, r, b, k, ids[i] as int);
        p.geom.lemma_box_sides_in_range(b);
    }
    if drop_captures {
        lemma_keep_members(all, |e: int| capture_count(p, e) == 0);
    }
}

/// The openings of the first target that has any, as computed by `first_openings`.
fn first_openings_of(pos: Position, targets: &Vec<&Region>, drop_captures: bool) -> (r: Vec<EdgeId>)
    requires
        pos@.geom.wf(),
    ensures
        r@.map_values(|e: EdgeId| e as int) == first_openings(
            pos@,
            targets@.map_values(|x: &Region| *x),
            drop_captures,
            0,
        ),
{
    let ghost p = pos@;
    let ghost ts = targets@.map_values(|x: &Region| *x);
    let mut i: usize = 0;
    while i < targets.len()
        invariant
            p == pos@,
            p.geom.wf(),
            ts == targets@.map_values(|x: &Region| *x),
            i <= targets.len(),
            first_openings(p, ts, drop_captures, 0) == first_openings(p, ts, drop_captures, i as int),
        decreases targets.len() - i,
    {
        let t = targets[i];
        let es = opening_edges(pos, t);
        let ghost all = es@.map_values(|e: EdgeId| e as int);
        proof {
            assert(ts[i as int] == *t);
            assert(all =~= ids_below(opening_set(p, *t), p.geom.nedges()).map_values(|e: u16| e as int));
        }
        let kept = if drop_captures {
            let mut out: Vec<EdgeId> = Vec::new();
            let mut j: usize = 0;
            proof {
                lemma_openings_legal(p, *t, false);
            }
            while j < es.len()
                invariant
                    j <= es.len(),
                    p == pos@,
                    all == es@.map_values(|e: EdgeId| e as int),
                    all == region_openings(p, *t, false),
                    forall|k: int| 0 <= k < all.len() ==> p.is_legal(#[trigger] all[k]),
                    out@.map_values(|e: EdgeId| e as int) == keep(
                        all.take(j as int),
                        |e: int| capture_count(p, e) == 0,
                    ),
                decreases es.len() - j,
            {
                let e = es[j];
                proof {
                    assert(all[j as int] == e as int);
                    assert(all.take(j + 1) =~= all.take(j as int).push(e as int));
                    lemma_keep_push(all.take(j as int), e as int, |x: int| capture_count(p, x) == 0);
                }
                if completed_count(pos, e) == 0 {
                    out.push(e);
                }
                proof {
                    assert(out@.map_values(|x: EdgeId| x as int) =~= keep(
                        all.take(j + 1),
                        |x: int| capture_count(p, x) == 0,
                    ));
                }
                j += 1;
            }
            proof {
                assert(all.take(es.len() as int) =~= all);
            }
            out
        } else {
            es
        };
        if kept.len() > 0 {
            proof {
                assert(kept@.map_values(|e: EdgeId| e as int).len() == kept.len());
            }
            return kept;
        }
        proof {
            assert(kept@.map_values(|e: EdgeId| e as int).len() == kept.len());
        }
        i += 1;
    }
    Vec::new()
}

/// Keeps chain control: double-cross (all-but-two) and all-but-four on loops;
/// greedy capture / safe-move ladder in the midgame.
#[derive(Clone, Debug)]
pub struct CgtEngine {
    rng: XorShift64,
}

impl CgtEngine {
    /// Generator state.
    pub closed spec fn rng_state(self) -> u64 {
        self.rng.state()
    }

    pub fn new(seed: u64) -> (r: Self)
        ensures
            r.rng_state() == XorShift64::new_state(seed),
    {
        Self { rng: XorShift64::new(seed) }
    }
}

/// Every candidate of the CGT engine is a legal move, and there is one.
proof fn lemma_cgt_candidates_legal(g: GameView, a: EndgameAnalysis)
    requires
        g.inv(),
        !g.is_terminal(),
    ensures
        cgt_candidates(g.pos, a).len() > 0,
        forall|i: int|
            0 <= i < cgt_candidates(g.pos, a).len() ==> g.pos.is_legal(
                #[trigger] cgt_candidates(g.pos, a)[i],
            ),
{
    let p = g.pos;
    lemma_nonterminal_has_move(g);
    p.lemma_legal_below(p.geom.nedges());
    lemma_max_capture(p, p.legal_edges());
    let m = max_capture(p, p.legal_edges());
    let fcap = |e: int| capture_count(p, e) > 0 && capture_count(p, e) == m;
    lemma_keep_members(p.legal_edges(), fcap);
    if m > 0 {
        let j = choose|j: int|
            0 <= j < p.legal_edges().len() && capture_count(p, #[trigger] p.legal_edges()[j]) == m;
        lemma_keep_complete(p.legal_edges(), fcap, j);
    }
    lemma_keep_members(p.legal_edges(), |e: int| !leaves_three(p, e));
    lemma_first_openings_legal(p, ranked(a.spec_regions(), None, false), false, 0);
    match refusal(p, a) {
        Some(rem) => {
            lemma_first_openings_legal(p, ranked(a.spec_regions(), Some(rem), true), true, 0);
        },
        None => {},
    }
}

/// The openings chosen from a target list are legal moves.
proof fn lemma_first_openings_legal(p: PositionView, ts: Seq<Region>, drop_captures: bool, i: int)
    requires
        p.geom.wf(),
    ensures
        forall|k: int|
            0 <= k < first_openings(p, ts, drop_captures, i).len() ==> p.is_legal(
                #[trigger] first_openings(p, ts, drop_captures, i)[k],
            ),
    decreases ts.len() - i,
{
    if 0 <= i < ts.len() {
        lemma_openings_legal(p, ts[i], drop_captures);
        lemma_first_openings_legal(p, ts, drop_captures, i + 1);
        let here = region_openings(p, ts[i], drop_captures);
        let f = first_openings(p, ts, drop_captures, i);
        let next = first_openings(p, ts, drop_captures, i + 1);
        assert forall|k: int| 0 <= k < f.len() implies p.is_legal(#[trigger] f[k]) by {
            if here.len() > 0 {
                assert(f == here);
                assert(p.is_legal(here[k]));
            } else {
                assert(f == next);
                assert(p.is_legal(next[k]));
            }
        }
    }
}

/// The candidate list `cgt_candidates` for `game` under its analysis.
fn cgt_moves(game: &Game, analysis: &EndgameAnalysis) -> (r: Vec<EdgeId>)
    requires
        analysis.describes(game@.pos, game@.current),
    ensures
        r@.map_values(|e: EdgeId| e as int) == cgt_candidates(game@.pos, *analysis),
{
    proof {
        use_type_invariant(game);
        game.lemma_wf();
    }
    let pos = game.position();
    let legal = game.legal_moves();
    let ghost p = pos@;
    let ghost a = *analysis;
    let capturing = best_captures(pos, &legal);
    if capturing.len() > 0 {
        match refuse_remnant(game, analysis) {
            Some(rem) => {
                let targets = ranked_open_targets(analysis, Some(&rem), true);
                let opened = first_openings_of(pos, &targets, true);
                proof {
                    assert(deref_opt(Some(&rem)) == Some(rem));
                    assert(opened@.map_values(|e: EdgeId| e as int).len() == opened.len());
                }
                if opened.len() > 0 {
                    return opened;
                }
            },
            None => {},
        }
        return capturing;
    }
    if !analysis.decomposed {
        let safe = safe_moves(pos, &legal);
        proof {
            assert(safe@.map_values(|e: EdgeId| e as int).len() == safe.len());
        }
        if safe.len() > 0 {
            return safe;
        }
    }
    let targets = ranked_open_targets(analysis, None, false);
    let opened = first_openings_of(pos, &targets, false);
    proof {
        assert(deref_opt(None) == None::<Region>);
        assert(opened@.map_values(|e: EdgeId| e as int).len() == opened.len());
    }
    if opened.len() > 0 {
        return opened;
    }
    legal
}

impl Engine for CgtEngine {
    fn choose_move(&mut self, game: &Game) -> (r: EdgeId)
        ensures
            r as int == pick_from(
                cgt_candidates(game@.pos, analysis_of(game@.pos, game@.current)),
                old(self).rng_state(),
            ),
            final(self).rng_state() == state_after_pick(
                cgt_candidates(game@.pos, analysis_of(game@.pos, game@.current)).len() as int,
                old(self).rng_state(),
            ),
    {
        proof {
            use_type_invariant(game);
            game.lemma_wf();
        }
        let analysis = analyze_endgame(game);
        let cands = cgt_moves(game, &analysis);
        proof {
            lemma_cgt_candidates_legal(game@, analysis);
            assert(cands@.map_values(|e: EdgeId| e as int).len() == cands.len());
        }
        let r = pick(&mut self.rng, &cands);
        proof {
            let k = choose|k: int| 0 <= k < cands.len() && cands@[k] == r;
            assert(cands@.map_values(|e: EdgeId| e as int)[k] == r as int);
        }
        r
    }
}

} // verus!
