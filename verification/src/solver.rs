//! Exact box-margin solver: negamax over the real game graph with a
//! transposition table. A position is stored in its canonical form, the image
//! of its drawn edges under the board symmetry with the smallest Zobrist hash,
//! and an entry is used only for positions with the same canonical form. The
//! symmetries are checked, when the tables are built, to carry box sides onto
//! box sides, which is what makes symmetric positions equal in value. Capture
//! and safe-move tests only order the moves; they never decide values.
use vstd::prelude::*;

use std::collections::HashMap;

use crate::bitboard::{EdgeBits, EDGE_WORDS};
use crate::board::{BoardGeom, EdgeId, PositionView};
use crate::cgt::push_all;
use crate::engine::{
    capture_count, completed_count, keep, leaves_three, leaves_three_sided, lemma_keep_complete,
    lemma_keep_members, lemma_keep_push, lemma_nonterminal_has_move, pick_from, state_after_pick,
    Engine,
};
use crate::game::{Game, GameView, Player};
use crate::rng::{xorshift_step, XorShift64};

mod canon;
mod symmetry;
mod value;

use canon::symmetry_boxes;

pub use value::{
    best_value, game_value, lemma_best_value, lemma_best_value_same_members, lemma_drawn_count,
    lemma_drawn_fixes_position, lemma_open_boxes, lemma_undrawn_play, lemma_value_bounds,
    lemma_value_by_position, move_value, open_boxes, undrawn,
};
pub use canon::{
    as_ints, identity_map, image, is_side, is_symmetry, law_symmetry_keeps_value, lemma_identity_sym, map_set,
    reached, sym_ok,
};
pub use symmetry::{
    law_flip_h_involution, law_flip_v_involution, law_rot90_order_four, map_edge, spec_map_edge,
    sym_allowed, Symmetry,
};

verus! {

broadcast use vstd::std_specs::hash::group_hash_axioms;

/// Search window bound (larger than any box margin).
const INF: i16 = 128;

/// Table entry holds the exact value.
const TT_EXACT: u8 = 0;

/// Table entry holds a lower bound.
const TT_LOWER: u8 = 1;

/// Table entry holds an upper bound.
const TT_UPPER: u8 = 2;

/// Seed of the generator that draws the Zobrist keys.
pub const ZOBRIST_SEED: u64 = 0xC0FF_EE54_1B18;

/// Boxes of the player to move minus boxes of the opponent.
pub open spec fn score_margin(g: GameView) -> int {
    g.score(g.current) - g.score(g.current.spec_other())
}

/// Whether the in-browser Perfect opponent supports this board: a square board
/// of two or three boxes a side.
pub fn is_perfect_hud_size(rows: u8, cols: u8) -> (r: bool)
    ensures
        r == (rows == cols && (rows == 2 || rows == 3)),
{
    rows == cols && (rows == 2 || rows == 3)
}

/// A player's score is at most the number of boxes.
proof fn lemma_scores_small(g: GameView)
    requires
        g.inv(),
    ensures
        0 <= g.score1 <= 64,
        0 <= g.score2 <= 64,
{
    g.pos.geom.lemma_bounds();
    let all = vstd::set_lib::set_int_range(0, 64);
    vstd::set_lib::lemma_int_range(0, 64);
    assert forall|b: int| g.owned1.contains(b) implies all.contains(b) by {
        assert((g.owned1 + g.owned2).contains(b));
    }
    assert forall|b: int| g.owned2.contains(b) implies all.contains(b) by {
        assert((g.owned1 + g.owned2).contains(b));
    }
    vstd::set_lib::lemma_len_subset(g.owned1, all);
    vstd::set_lib::lemma_len_subset(g.owned2, all);
}

/// The score margin and the open boxes together are at most all the boxes.
proof fn lemma_margin_bound(g: GameView)
    requires
        g.inv(),
    ensures
        -(g.pos.geom.nboxes() - open_boxes(g)) <= score_margin(g) <= g.pos.geom.nboxes() - open_boxes(g),
        g.pos.geom.nboxes() <= 64,
{
    lemma_scores_small(g);
    g.pos.geom.lemma_bounds();
}

/// Box margin of the player to move.
fn score_diff(game: &Game) -> (r: i8)
    ensures
        r == score_margin(game@),
{
    proof {
        use_type_invariant(game);
        game.lemma_wf();
        lemma_scores_small(game@);
    }
    let us = game.score(game.current_player()) as i8;
    let them = game.score(game.current_player().other()) as i8;
    us - them
}

/// `x` clamped to the `i16` range.
pub open spec fn clamp16(x: int) -> int {
    if x < i16::MIN {
        i16::MIN as int
    } else if x > i16::MAX {
        i16::MAX as int
    } else {
        x
    }
}

/// `x` clamped to the `i8` range.
pub open spec fn clamp8(x: int) -> int {
    if x < i8::MIN {
        i8::MIN as int
    } else if x > i8::MAX {
        i8::MAX as int
    } else {
        x
    }
}

/// Saturating `a + b`.
fn sat_add(a: i16, b: i16) -> (r: i16)
    ensures
        r == clamp16(a + b),
{
    let s = a as i32 + b as i32;
    if s < i16::MIN as i32 {
        i16::MIN
    } else if s > i16::MAX as i32 {
        i16::MAX
    } else {
        s as i16
    }
}

/// Saturating `a - b`.
fn sat_sub(a: i16, b: i16) -> (r: i16)
    ensures
        r == clamp16(a - b),
{
    let s = a as i32 - b as i32;
    if s < i16::MIN as i32 {
        i16::MIN
    } else if s > i16::MAX as i32 {
        i16::MAX
    } else {
        s as i16
    }
}

/// Saturating `-a`.
fn sat_neg(a: i16) -> (r: i16)
    ensures
        r == clamp16(-a),
{
    if a == i16::MIN {
        i16::MAX
    } else {
        -a
    }
}

/// Saturating `a + b` on `i8`.
fn sat_add8(a: i8, b: i8) -> (r: i8)
    ensures
        r == clamp8(a + b),
{
    let s = a as i16 + b as i16;
    if s < i8::MIN as i16 {
        i8::MIN
    } else if s > i8::MAX as i16 {
        i8::MAX
    } else {
        s as i8
    }
}

/// Search order: double captures, single captures, safe moves, then moves that
/// hand over a box, each group in the given order.
pub open spec fn move_order(p: PositionView, ls: Seq<int>) -> Seq<int> {
    keep(ls, |e: int| capture_count(p, e) == 2) + keep(ls, |e: int| capture_count(p, e) == 1)
        + keep(ls, |e: int| capture_count(p, e) == 0 && !leaves_three(p, e)) + keep(
        ls,
        |e: int| capture_count(p, e) == 0 && leaves_three(p, e),
    )
}

/// Stable sort of the legal moves into search order.
fn order_moves(game: &Game, legal: &Vec<EdgeId>) -> (r: Vec<EdgeId>)
    requires
        legal@.map_values(|e: EdgeId| e as int) == game@.pos.legal_edges(),
    ensures
        r@.map_values(|e: EdgeId| e as int) == move_order(game@.pos, game@.pos.legal_edges()),
        forall|i: int| 0 <= i < r.len() ==> game@.pos.is_legal(#[trigger] r@[i] as int),
{
    let pos = game.position();
    let ghost p = pos@;
    let ghost ls = legal@.map_values(|e: EdgeId| e as int);
    let ghost f2 = |e: int| capture_count(p, e) == 2;
    let ghost f1 = |e: int| capture_count(p, e) == 1;
    let ghost fs = |e: int| capture_count(p, e) == 0 && !leaves_three(p, e);
    let ghost fu = |e: int| capture_count(p, e) == 0 && leaves_three(p, e);
    let mut two: Vec<EdgeId> = Vec::new();
    let mut one: Vec<EdgeId> = Vec::new();
    let mut safe: Vec<EdgeId> = Vec::new();
    let mut unsafe_moves: Vec<EdgeId> = Vec::new();
    let mut i: usize = 0;
    while i < legal.len()
        invariant
            i <= legal.len(),
            p == pos@,
            ls == legal@.map_values(|e: EdgeId| e as int),
            ls == p.legal_edges(),
            f2 == (|e: int| capture_count(p, e) == 2),
            f1 == (|e: int| capture_count(p, e) == 1),
            fs == (|e: int| capture_count(p, e) == 0 && !leaves_three(p, e)),
            fu == (|e: int| capture_count(p, e) == 0 && leaves_three(p, e)),
            two@.map_values(|e: EdgeId| e as int) == keep(ls.take(i as int), f2),
            one@.map_values(|e: EdgeId| e as int) == keep(ls.take(i as int), f1),
            safe@.map_values(|e: EdgeId| e as int) == keep(ls.take(i as int), fs),
            unsafe_moves@.map_values(|e: EdgeId| e as int) == keep(ls.take(i as int), fu),
        decreases legal.len() - i,
    {
        let edge = legal[i];
        proof {
            p.lemma_legal_below(p.geom.nedges());
            assert(ls[i as int] == edge as int);
            assert(ls.take(i + 1) =~= ls.take(i as int).push(edge as int));
            lemma_keep_push(ls.take(i as int), edge as int, f2);
            lemma_keep_push(ls.take(i as int), edge as int, f1);
            lemma_keep_push(ls.take(i as int), edge as int, fs);
            lemma_keep_push(ls.take(i as int), edge as int, fu);
        }
        let n = completed_count(pos, edge);
        if n == 2 {
            two.push(edge);
        } else if n == 1 {
            one.push(edge);
        } else if !leaves_three_sided(pos, edge) {
            safe.push(edge);
        } else {
            unsafe_moves.push(edge);
        }
        proof {
            assert(two@.map_values(|e: EdgeId| e as int) =~= keep(ls.take(i + 1), f2));
            assert(one@.map_values(|e: EdgeId| e as int) =~= keep(ls.take(i + 1), f1));
            assert(safe@.map_values(|e: EdgeId| e as int) =~= keep(ls.take(i + 1), fs));
            assert(unsafe_moves@.map_values(|e: EdgeId| e as int) =~= keep(ls.take(i + 1), fu));
        }
        i += 1;
    }
    proof {
        assert(ls.take(legal.len() as int) =~= ls);
    }
    let mut out = two;
    push_all(&mut out, &one);
    push_all(&mut out, &safe);
    push_all(&mut out, &unsafe_moves);
    proof {
        let m = move_order(p, ls);
        assert(out@.map_values(|e: EdgeId| e as int) =~= m);
        p.lemma_legal_below(p.geom.nedges());
        lemma_keep_members(ls, f2);
        lemma_keep_members(ls, f1);
        lemma_keep_members(ls, fs);
        lemma_keep_members(ls, fu);
        assert forall|k: int| 0 <= k < out.len() implies p.is_legal(#[trigger] out@[k] as int) by {
            assert(out@.map_values(|e: EdgeId| e as int)[k] == out@[k] as int);
            let a = keep(ls, f2).len();
            let b = keep(ls, f1).len();
            let c = keep(ls, fs).len();
            if k < a {
                assert(m[k] == keep(ls, f2)[k]);
            } else if k < a + b {
                assert(m[k] == keep(ls, f1)[k - a]);
            } else if k < a + b + c {
                assert(m[k] == keep(ls, fs)[k - a - b]);
            } else {
                assert(m[k] == keep(ls, fu)[k - a - b - c]);
            }
        }
    }
    out
}

/// The symmetries used to reduce positions on `geom`: the eight of a square, or
/// the four of a rectangle.
pub open spec fn symmetries(geom: BoardGeom) -> Seq<Symmetry> {
    if geom.nrows() == geom.ncols() {
        seq![
            Symmetry::Identity,
            Symmetry::Rot90,
            Symmetry::Rot180,
            Symmetry::Rot270,
            Symmetry::FlipH,
            Symmetry::FlipV,
            Symmetry::Transpose,
            Symmetry::AntiTranspose,
        ]
    } else {
        seq![Symmetry::Identity, Symmetry::FlipH, Symmetry::FlipV, Symmetry::Rot180]
    }
}

/// Edge permutation tables, one per symmetry of `geom`.
fn symmetry_maps(geom: BoardGeom) -> (r: Vec<Vec<EdgeId>>)
    ensures
        r.len() == symmetries(geom).len(),
        forall|m: int| 0 <= m < r.len() ==> #[trigger] r@[m].len() == geom.nedges(),
        forall|m: int, i: int|
            0 <= m < r.len() && 0 <= i < geom.nedges() ==> #[trigger] r@[m]@[i] as int
                == spec_map_edge(geom, symmetries(geom)[m], i),
{
    proof {
        use_type_invariant(geom);
        geom.lemma_bounds();
    }
    let kinds: Vec<Symmetry> = if geom.rows() == geom.cols() {
        vec![
            Symmetry::Identity,
            Symmetry::Rot90,
            Symmetry::Rot180,
            Symmetry::Rot270,
            Symmetry::FlipH,
            Symmetry::FlipV,
            Symmetry::Transpose,
            Symmetry::AntiTranspose,
        ]
    } else {
        vec![Symmetry::Identity, Symmetry::FlipH, Symmetry::FlipV, Symmetry::Rot180]
    };
    proof {
        assert(kinds@ =~= symmetries(geom));
    }
    let n = geom.edge_count();
    let mut maps: Vec<Vec<EdgeId>> = Vec::new();
    let mut k: usize = 0;
    while k < kinds.len()
        invariant
            geom.wf(),
            kinds@ == symmetries(geom),
            n == geom.nedges(),
            k <= kinds.len(),
            maps.len() == k,
            forall|m: int| 0 <= m < k ==> #[trigger] maps@[m].len() == geom.nedges(),
            forall|m: int, i: int|
                0 <= m < k && 0 <= i < geom.nedges() ==> #[trigger] maps@[m]@[i] as int
                    == spec_map_edge(geom, symmetries(geom)[m], i),
        decreases kinds.len() - k,
    {
        let s = kinds[k];
        let mut map: Vec<EdgeId> = Vec::new();
        let mut id: u16 = 0;
        while id < n
            invariant
                geom.wf(),
                n == geom.nedges(),
                sym_allowed(s, geom.nrows(), geom.ncols()),
                id <= n,
                map.len() == id,
                forall|i: int| 0 <= i < id ==> #[trigger] map@[i] as int == spec_map_edge(geom, s, i),
            decreases n - id,
        {
            map.push(map_edge(geom, id, s));
            id += 1;
        }
        maps.push(map);
        proof {
            assert forall|m: int, i: int|
                0 <= m < k + 1 && 0 <= i < geom.nedges() implies #[trigger] maps@[m]@[i] as int
                == spec_map_edge(geom, symmetries(geom)[m], i) by {
                if m == k {
                    assert(maps@[m] == map);
                }
            }
        }
        k += 1;
    }
    maps
}

/// The Zobrist generator's state after `k` draws.
pub open spec fn zobrist_state(k: nat) -> u64
    decreases k,
{
    if k == 0 {
        XorShift64::new_state(ZOBRIST_SEED)
    } else {
        xorshift_step(zobrist_state((k - 1) as nat))
    }
}

/// The `k`-th Zobrist key drawn, one per edge in edge order.
pub open spec fn zobrist_word(k: int) -> u64 {
    zobrist_state((k + 1) as nat)
}

/// XOR of the keys of the images under `sigma` of the drawn edges below `k`.
pub open spec fn image_hash(sigma: Seq<int>, drawn: Set<int>, k: int) -> u64
    decreases k,
{
    if k <= 0 {
        0
    } else {
        let h = image_hash(sigma, drawn, k - 1);
        if drawn.contains(k - 1) {
            h ^ zobrist_word(sigma[k - 1])
        } else {
            h
        }
    }
}

/// The first of the smallest image hashes over the first `m` edge maps, with
/// its index (`u64::MAX` and index 0 for none).
pub open spec fn min_image(maps: Seq<Seq<int>>, drawn: Set<int>, n: int, m: int) -> (u64, int)
    decreases m,
{
    if m <= 0 {
        (u64::MAX, 0)
    } else {
        let b = min_image(maps, drawn, n, m - 1);
        let h = image_hash(maps[m - 1], drawn, n);
        if m == 1 || h < b.0 {
            (h, m - 1)
        } else {
            b
        }
    }
}

/// The edge maps of a list of edge-map tables.
pub open spec fn map_seqs(maps: Seq<Vec<EdgeId>>) -> Seq<Seq<int>> {
    maps.map_values(|v: Vec<EdgeId>| as_ints(v@))
}

/// Zobrist keys and the board's symmetries, each as a table mapping every edge
/// to its image.
#[derive(Debug)]
struct Tables {
    geom: BoardGeom,
    zobrist_edge: Vec<u64>,
    maps: Vec<Vec<EdgeId>>,
}

impl Tables {
    /// The keys are the generator's draws, one per edge, and every kept map is
    /// a symmetry of the board; there is at least one.
    #[verifier::type_invariant]
    spec fn inv(self) -> bool {
        &&& self.geom.wf()
        &&& self.zobrist_edge.len() == self.geom.nedges()
        &&& forall|i: int| 0 <= i < self.geom.nedges() ==> #[trigger] self.zobrist_edge@[i] == zobrist_word(i)
        &&& self.maps.len() >= 1
        &&& forall|m: int| 0 <= m < self.maps.len() ==> #[trigger] self.maps@[m].len() == self.geom.nedges()
        &&& forall|m: int|
            0 <= m < self.maps.len() ==> is_symmetry(self.geom, #[trigger] as_ints(self.maps@[m]@))
    }

    /// The geometry the tables are for.
    spec fn spec_geom(self) -> BoardGeom {
        self.geom
    }

    /// The symmetries kept, as edge maps.
    spec fn spec_maps(self) -> Seq<Seq<int>> {
        map_seqs(self.maps@)
    }

    fn new(geom: BoardGeom) -> (r: Self)
        ensures
            r.spec_geom() == geom,
    {
        proof {
            use_type_invariant(geom);
            geom.lemma_bounds();
        }
        let n = geom.edge_count();
        let mut rng = XorShift64::new(ZOBRIST_SEED);
        let mut zobrist_edge: Vec<u64> = Vec::new();
        let mut i: u16 = 0;
        while i < n
            invariant
                i <= n,
                n == geom.nedges(),
                zobrist_edge.len() == i,
                rng.state() == zobrist_state(i as nat),
                forall|k: int| 0 <= k < i ==> #[trigger] zobrist_edge@[k] == zobrist_word(k),
            decreases n - i,
        {
            zobrist_edge.push(rng.next_u64());
            i += 1;
        }
        let all = symmetry_maps(geom);
        let mut maps: Vec<Vec<EdgeId>> = Vec::new();
        let mut k: usize = 0;
        while k < all.len()
            invariant
                k <= all.len(),
                geom.wf(),
                forall|m: int| 0 <= m < all.len() ==> #[trigger] all@[m].len() == geom.nedges(),
                forall|m: int| 0 <= m < maps.len() ==> #[trigger] maps@[m].len() == geom.nedges(),
                forall|m: int|
                    0 <= m < maps.len() ==> is_symmetry(geom, #[trigger] as_ints(maps@[m]@)),
            decreases all.len() - k,
        {
            let map = all[k].clone();
            proof {
                assert(map@ == all@[k as int]@);
            }
            match symmetry_boxes(geom, &map) {
                Some(t) => {
                    let ghost m0 = maps@;
                    let ghost mv = map@;
                    maps.push(map);
                    proof {
                        assert forall|m: int| 0 <= m < maps.len() implies is_symmetry(
                            geom,
                            #[trigger] as_ints(maps@[m]@),
                        ) by {
                            if m < m0.len() {
                                assert(maps@[m] == m0[m]);
                            } else {
                                assert(maps@[m]@ == mv);
                                assert(sym_ok(geom, as_ints(maps@[m]@), as_ints(t@)));
                            }
                        }
                    }
                },
                None => {},
            }
            k += 1;
        }
        if maps.len() == 0 {
            let mut id_map: Vec<EdgeId> = Vec::new();
            let mut e: u16 = 0;
            while e < n
                invariant
                    e <= n,
                    n == geom.nedges(),
                    id_map.len() == e,
                    forall|j: int| 0 <= j < e ==> #[trigger] id_map@[j] == j,
                decreases n - e,
            {
                id_map.push(e);
                e += 1;
            }
            maps.push(id_map);
            proof {
                canon::lemma_identity_sym(geom);
                assert(maps@[0] == id_map);
                assert(as_ints(maps@[0]@) =~= canon::identity_map(geom.nedges() as int));
            }
        }
        Tables { geom, zobrist_edge, maps }
    }

    /// The key of a position and its canonical form: of the images of the
    /// drawn edges under the board's symmetries, the first with the smallest
    /// Zobrist hash, returned with that hash and the index of its symmetry.
    fn canonical(&self, game: &Game) -> (r: (u64, EdgeBits, usize))
        requires
            self.spec_geom() == game@.pos.geom,
        ensures
            r.2 < self.maps.len(),
            r.1@ == map_set(game@.pos.drawn, self.spec_maps()[r.2 as int]),
            (r.0, r.2 as int) == min_image(
                self.spec_maps(),
                game@.pos.drawn,
                self.geom.nedges() as int,
                self.maps.len() as int,
            ),
    {
        proof {
            use_type_invariant(self);
            use_type_invariant(game);
            game.lemma_wf();
            self.geom.lemma_bounds();
        }
        let ghost drawn = game@.pos.drawn;
        let ghost maps = self.spec_maps();
        let pos = game.position();
        let edges = pos.edges();
        let n = self.geom.edge_count();
        let mut best = u64::MAX;
        let mut best_m: usize = 0;
        let mut m: usize = 0;
        while m < self.maps.len()
            invariant
                self.inv(),
                maps == self.spec_maps(),
                n == self.geom.nedges(),
                n <= 144,
                m <= self.maps.len(),
                edges@ == drawn,
                m > 0 ==> best_m < m,
                (best, best_m as int) == min_image(maps, drawn, n as int, m as int),
            decreases self.maps.len() - m,
        {
            let map = &self.maps[m];
            let ghost sigma = maps[m as int];
            proof {
                assert(self.maps@[m as int].len() == self.geom.nedges());
                assert(sigma == as_ints(self.maps@[m as int]@));
                assert(is_symmetry(self.geom, as_ints(self.maps@[m as int]@)));
            }
            let mut h: u64 = 0;
            let mut id: u16 = 0;
            while id < n
                invariant
                    self.inv(),
                    n == self.geom.nedges(),
                    n <= 144,
                    m < self.maps.len(),
                    *map == self.maps@[m as int],
                    map.len() == n,
                    sigma == as_ints(map@),
                    is_symmetry(self.geom, sigma),
                    id <= n,
                    edges@ == drawn,
                    h == image_hash(sigma, drawn, id as int),
                decreases n - id,
            {
                if edges.get(id) {
                    let img = map[id as usize];
                    proof {
                        let tau = choose|tau: Seq<int>| sym_ok(self.geom, sigma, tau);
                        assert(sigma[id as int] == img as int);
                        assert(0 <= sigma[id as int] < n);
                        assert(self.zobrist_edge@[img as int] == zobrist_word(img as int));
                    }
                    h = h ^ self.zobrist_edge[img as usize];
                }
                id += 1;
            }
            if m == 0 || h < best {
                best = h;
                best_m = m;
            }
            m += 1;
        }
        let map = &self.maps[best_m];
        let ghost sigma = maps[best_m as int];
        proof {
            assert(sigma == as_ints(map@));
            assert(is_symmetry(self.geom, as_ints(self.maps@[best_m as int]@)));
        }
        let mut bits = EdgeBits::new();
        let mut id: u16 = 0;
        while id < n
            invariant
                self.inv(),
                n == self.geom.nedges(),
                n <= 144,
                best_m < self.maps.len(),
                *map == self.maps@[best_m as int],
                map.len() == n,
                sigma == as_ints(map@),
                is_symmetry(self.geom, sigma),
                id <= n,
                edges@ == drawn,
                forall|y: int| #[trigger] bits@.contains(y) <==> exists|x: int|
                    0 <= x < id && drawn.contains(x) && sigma[x] == y,
            decreases n - id,
        {
            if edges.get(id) {
                let img = map[id as usize];
                proof {
                    let tau = choose|tau: Seq<int>| sym_ok(self.geom, sigma, tau);
                    assert(sigma[id as int] == img as int);
                    assert(0 <= sigma[id as int] < n);
                }
                let ghost b0 = bits@;
                bits.set(img);
                proof {
                    assert forall|y: int| #[trigger] bits@.contains(y) <==> exists|x: int|
                        0 <= x < id + 1 && drawn.contains(x) && sigma[x] == y by {
                        if y == img as int {
                            assert(drawn.contains(id as int) && sigma[id as int] == y);
                        } else if b0.contains(y) {
                            let x = choose|x: int| 0 <= x < id && drawn.contains(x) && sigma[x] == y;
                        }
                    }
                }
            } else {
                proof {
                    assert forall|y: int| #[trigger] bits@.contains(y) <==> exists|x: int|
                        0 <= x < id + 1 && drawn.contains(x) && sigma[x] == y by {
                        if exists|x: int| 0 <= x < id + 1 && drawn.contains(x) && sigma[x] == y {
                            let x = choose|x: int| 0 <= x < id + 1 && drawn.contains(x) && sigma[x] == y;
                            assert(x != id);
                        }
                    }
                }
            }
            id += 1;
        }
        proof {
            assert forall|y: int| bits@.contains(y) <==> map_set(drawn, sigma).contains(y) by {
                if map_set(drawn, sigma).contains(y) {
                    let x = choose|x: int| drawn.contains(x) && sigma[x] == y;
                    assert(0 <= x < n);
                }
            }
            assert(bits@ =~= map_set(drawn, sigma));
        }
        (best, bits, best_m)
    }
}

/// Whether two edge sets hold the same edges, word by word.
fn same_edges(a: &EdgeBits, b: &EdgeBits) -> (r: bool)
    ensures
        r ==> a@ == b@,
{
    let wa = a.words();
    let wb = b.words();
    let mut i: usize = 0;
    while i < EDGE_WORDS
        invariant
            i <= EDGE_WORDS,
            wa@ == a.words_seq(),
            wb@ == b.words_seq(),
            wa@.len() == EDGE_WORDS,
            wb@.len() == EDGE_WORDS,
            forall|j: int| 0 <= j < i ==> wa@[j] == wb@[j],
        decreases EDGE_WORDS - i,
    {
        if wa[i] != wb[i] {
            return false;
        }
        i += 1;
    }
    proof {
        assert(a.words_seq() =~= b.words_seq());
        assert(a@ =~= b@);
    }
    true
}

/// What a table entry `(val, flag)` says of the value `v` of its position.
spec fn entry_holds(val: i16, flag: u8, v: int) -> bool {
    if flag == TT_EXACT {
        v == val
    } else if flag == TT_LOWER {
        v >= val
    } else if flag == TT_UPPER {
        v <= val
    } else {
        false
    }
}

/// Every entry holds the drawn edges of a position of `geom` whose value it
/// bounds as its flag says, and lies within that position's open boxes.
spec fn table_sound(geom: BoardGeom, tt: Map<u64, (i16, u8, EdgeBits)>) -> bool {
    forall|k: u64|
        #[trigger] tt.contains_key(k) ==> exists|h: GameView|
            h.pos.drawn == tt[k].2@ && h.inv() && h.pos.geom == geom && entry_holds(
                tt[k].0,
                tt[k].1,
                game_value(h),
            ) && -open_boxes(h) <= tt[k].0 <= open_boxes(h)
}

/// Fail-soft alpha-beta: a result at or below the window bounds the value from
/// above, one at or above it bounds it from below, one inside it is the value.
spec fn fail_soft(r: int, a: int, b: int, v: int) -> bool {
    &&& (r <= a ==> v <= r)
    &&& (r >= b ==> v >= r)
    &&& (a < r < b ==> v == r)
}

/// The search window stays within reach of `i16` arithmetic: it widens by at
/// most two per edge drawn.
spec fn window_ok(g: GameView, a: int, b: int) -> bool {
    -(128 + 2 * g.pos.drawn.len()) <= a && b <= 128 + 2 * g.pos.drawn.len()
}

/// What one child search says of a move of value `mv`, searched with window
/// `(a, b)` and found `v`.
spec fn child_fact(mv: int, v: int, a: int, b: int) -> bool {
    &&& (v <= a ==> mv <= v)
    &&& (v > a ==> mv >= v)
    &&& (a < v < b ==> mv == v)
}

/// A move whose found value is the best and exceeds the starting bound was
/// searched with a window below it.
proof fn lemma_first_gain(vs: Seq<int>, as_: Seq<int>, a0: int, best: int, k: int)
    requires
        0 <= k < vs.len(),
        as_.len() == vs.len(),
        vs[k] == best,
        a0 < best,
        forall|i: int| 0 <= i < vs.len() ==> vs[i] <= best,
        forall|i: int|
            0 <= i < vs.len() ==> (#[trigger] as_[i] == a0 || exists|j: int|
                0 <= j < i && vs[j] == as_[i]),
    ensures
        exists|i: int| 0 <= i <= k && vs[i] == best && as_[i] < best,
    decreases k,
{
    if as_[k] >= best {
        assert(as_[k] != a0 || as_[k] == a0);
        if as_[k] == a0 {
        } else {
            let j = choose|j: int| 0 <= j < k && vs[j] == as_[k];
            lemma_first_gain(vs, as_, a0, best, j);
        }
    }
}

/// The fail-soft result of scanning the moves: `best` is the largest found
/// value, `v` the best move value, and the scan stopped early only on a cutoff.
#[verifier::rlimit(60)]
#[verifier::spinoff_prover]
proof fn lemma_scan_result(
    mvs: Seq<int>,
    vs: Seq<int>,
    as_: Seq<int>,
    a0: int,
    b: int,
    best: int,
    v: int,
    cut: bool,
)
    requires
        vs.len() > 0,
        mvs.len() == vs.len(),
        as_.len() == vs.len(),
        a0 < b,
        forall|k: int| 0 <= k < vs.len() ==> child_fact(mvs[k], #[trigger] vs[k], as_[k], b),
        forall|k: int|
            0 <= k < vs.len() ==> a0 <= #[trigger] as_[k] && as_[k] < b && (as_[k] == a0 || exists|
                j: int,
            | 0 <= j < k && vs[j] == as_[k]),
        forall|k: int, j: int| #![trigger vs[j], as_[k]] 0 <= j < k < vs.len() ==> vs[j] <= as_[k],
        forall|k: int| 0 <= k < vs.len() ==> #[trigger] vs[k] <= best,
        exists|k: int| 0 <= k < vs.len() && vs[k] == best,
        forall|k: int| 0 <= k < vs.len() - 1 ==> #[trigger] vs[k] < b,
        forall|k: int| 0 <= k < vs.len() ==> #[trigger] mvs[k] <= v,
        !cut ==> vs[vs.len() - 1] < b && exists|k: int| 0 <= k < vs.len() && mvs[k] == v,
        cut ==> vs[vs.len() - 1] >= b,
    ensures
        fail_soft(best, a0, b, v),
{
    let last = vs.len() - 1;
    if cut {
        assert(best == vs[last]) by {
            let k = choose|k: int| 0 <= k < vs.len() && vs[k] == best;
            assert(vs[last] <= best);
            if k < last {
                assert(vs[k] < b);
            }
        }
        assert(as_[last] < b);
        assert(child_fact(mvs[last], vs[last], as_[last], b));
        assert(mvs[last] <= v);
    } else {
        assert forall|k: int| 0 <= k < vs.len() implies #[trigger] mvs[k] <= best by {
            assert(vs[k] <= best);
            if k < last {
                assert(vs[k] < b);
            }
            assert(child_fact(mvs[k], vs[k], as_[k], b));
        }
        let km = choose|k: int| 0 <= k < vs.len() && mvs[k] == v;
        assert(mvs[km] <= best);
        if best > a0 {
            let kb = choose|k: int| 0 <= k < vs.len() && vs[k] == best;
            assert(best < b) by {
                if kb < last {
                    assert(vs[kb] < b);
                }
            }
            lemma_first_gain(vs, as_, a0, best, kb);
            let i = choose|i: int| 0 <= i <= kb && vs[i] == best && as_[i] < best;
            assert(child_fact(mvs[i], vs[i], as_[i], b));
            assert(mvs[i] <= v);
        } else {
            assert(best < b);
        }
    }
}

/// Every legal move is in the search order, and only legal moves.
proof fn lemma_move_order_members(p: PositionView)
    ensures
        forall|x: int|
            move_order(p, p.legal_edges()).contains(x) <==> p.legal_edges().contains(x),
{
    let ls = p.legal_edges();
    let f2 = |e: int| capture_count(p, e) == 2;
    let f1 = |e: int| capture_count(p, e) == 1;
    let fs = |e: int| capture_count(p, e) == 0 && !leaves_three(p, e);
    let fu = |e: int| capture_count(p, e) == 0 && leaves_three(p, e);
    let m = move_order(p, ls);
    lemma_keep_members(ls, f2);
    lemma_keep_members(ls, f1);
    lemma_keep_members(ls, fs);
    lemma_keep_members(ls, fu);
    let a = keep(ls, f2).len();
    let b = keep(ls, f1).len();
    let c = keep(ls, fs).len();
    assert forall|x: int| m.contains(x) <==> ls.contains(x) by {
        if m.contains(x) {
            let k = choose|k: int| 0 <= k < m.len() && m[k] == x;
            if k < a {
                assert(m[k] == keep(ls, f2)[k]);
            } else if k < a + b {
                assert(m[k] == keep(ls, f1)[k - a]);
            } else if k < a + b + c {
                assert(m[k] == keep(ls, fs)[k - a - b]);
            } else {
                assert(m[k] == keep(ls, fu)[k - a - b - c]);
            }
        }
        if ls.contains(x) {
            let i = choose|i: int| 0 <= i < ls.len() && ls[i] == x;
            let cc = capture_count(p, x);
            if cc == 2 {
                lemma_keep_complete(ls, f2, i);
                let j = choose|j: int| 0 <= j < keep(ls, f2).len() && keep(ls, f2)[j] == x;
                assert(m[j] == x);
            } else if cc == 1 {
                lemma_keep_complete(ls, f1, i);
                let j = choose|j: int| 0 <= j < keep(ls, f1).len() && keep(ls, f1)[j] == x;
                assert(m[a + j] == x);
            } else if cc == 0 && !leaves_three(p, x) {
                lemma_keep_complete(ls, fs, i);
                let j = choose|j: int| 0 <= j < keep(ls, fs).len() && keep(ls, fs)[j] == x;
                assert(m[a + b + j] == x);
            } else if cc == 0 {
                lemma_keep_complete(ls, fu, i);
                let j = choose|j: int| 0 <= j < keep(ls, fu).len() && keep(ls, fu)[j] == x;
                assert(m[a + b + c + j] == x);
            } else {
                assert(false);
            }
        }
    }
}

/// Search state for one geometry: keys, symmetry tables and transposition table.
#[derive(Debug)]
struct Search {
    tables: Tables,
    tt: HashMap<u64, (i16, u8, EdgeBits)>,
}

impl Search {
    /// Every table entry is sound.
    #[verifier::type_invariant]
    spec fn sound(self) -> bool {
        table_sound(self.tables.spec_geom(), self.tt@)
    }

    fn new(geom: BoardGeom) -> (r: Self)
        ensures
            r.tables.spec_geom() == geom,
    {
        let tt: HashMap<u64, (i16, u8, EdgeBits)> = HashMap::new();
        proof {
            assert(tt@ =~= Map::<u64, (i16, u8, EdgeBits)>::empty());
        }
        Search { tables: Tables::new(geom), tt }
    }

    /// Remaining-play margin for the side to move (ignores current scores),
    /// fail-soft alpha-beta with the transposition table.
    #[verifier::rlimit(80)]
    fn negamax(&mut self, game: &mut Game, alpha: i16, beta: i16) -> (r: i16)
        requires
            old(self).tables.spec_geom() == old(game)@.pos.geom,
            alpha < beta,
            window_ok(old(game)@, alpha as int, beta as int),
        ensures
            final(self).tables == old(self).tables,
            final(game)@ == old(game)@,
            fail_soft(r as int, alpha as int, beta as int, game_value(old(game)@)),
            -open_boxes(old(game)@) <= r <= open_boxes(old(game)@),
        decreases undrawn(old(game)@),
    {
        proof {
            use_type_invariant(&*game);
            game.lemma_wf();
            use_type_invariant(&*self);
        }
        let ghost g0 = game@;
        let ghost geom = g0.pos.geom;
        let ghost v0 = game_value(g0);
        proof {
            lemma_open_boxes(g0);
            lemma_value_bounds(g0);
            g0.pos.geom.lemma_bounds();
            lemma_drawn_count(g0);
        }
        let mut alpha = alpha;
        let mut beta = beta;
        if game.is_terminal() {
            return 0;
        }
        let alpha_orig = alpha;
        let beta_orig = beta;
        // The canonical form is the drawn edges of a symmetric image of this
        // game, and a symmetric image has the same value.
        let (key, canon_bits, sym) = self.tables.canonical(game);
        let ghost img = {
            let sigma = self.tables.spec_maps()[sym as int];
            let tau = choose|tau: Seq<int>| sym_ok(geom, sigma, tau);
            canon::image(g0, sigma, tau)
        };
        proof {
            use_type_invariant(&self.tables);
            let sigma = self.tables.spec_maps()[sym as int];
            assert(sigma == as_ints(self.tables.maps@[sym as int]@));
            assert(is_symmetry(geom, as_ints(self.tables.maps@[sym as int]@)));
            let tau = choose|tau: Seq<int>| sym_ok(geom, sigma, tau);
            canon::lemma_image_inv(g0, sigma, tau);
            canon::law_symmetry_keeps_value(g0, sigma, tau);
            assert(img.pos.drawn == canon_bits@);
        }
        match self.tt.get(&key) {
            Some(entry) => {
                if same_edges(&entry.2, &canon_bits) {
                    let val = entry.0;
                    let flag = entry.1;
                    proof {
                        assert(self.tt@.contains_key(key));
                        let h = choose|h: GameView|
                            h.pos.drawn == self.tt@[key].2@ && h.inv() && h.pos.geom == geom
                                && entry_holds(self.tt@[key].0, self.tt@[key].1, game_value(h))
                                && -open_boxes(h) <= self.tt@[key].0 <= open_boxes(h);
                        lemma_drawn_fixes_position(h, img);
                        lemma_value_by_position(h, img);
                        assert(entry_holds(val, flag, v0));
                        assert(-open_boxes(g0) <= val <= open_boxes(g0));
                    }
                    if flag == TT_EXACT {
                        return val;
                    } else if flag == TT_LOWER && val > alpha {
                        alpha = val;
                    } else if flag == TT_UPPER && val < beta {
                        beta = val;
                    }
                    if alpha >= beta {
                        return val;
                    }
                }
            },
            None => {},
        }
        let alpha_start = alpha;
        let beta_start = beta;
        let legal = game.legal_moves();
        let ordered = order_moves(game, &legal);
        let ghost ls = ordered@.map_values(|e: EdgeId| e as int);
        proof {
            lemma_nonterminal_has_move(g0);
            lemma_move_order_len(g0.pos, g0.pos.legal_edges());
            lemma_move_order_members(g0.pos);
            lemma_best_value_same_members(g0, ls, g0.pos.legal_edges());
            lemma_best_value(g0, ls);
            assert(ls.len() == ordered.len());
        }
        let mut best: i16 = -INF;
        let ghost mut mvs: Seq<int> = Seq::empty();
        let ghost mut vs: Seq<int> = Seq::empty();
        let ghost mut as_: Seq<int> = Seq::empty();
        let mut i: usize = 0;
        while i < ordered.len()
            invariant_except_break
                vs.len() == i,
                alpha < beta,
                forall|k: int| 0 <= k < vs.len() ==> #[trigger] vs[k] < beta,
            invariant
                i < vs.len() + 1,
                i <= ordered.len(),
                vs.len() <= ordered.len(),
                mvs.len() == vs.len(),
                as_.len() == vs.len(),
                ordered.len() > 0,
                game@ == g0,
                g0.inv(),
                !g0.is_terminal(),
                self.tables == old(self).tables,
                self.tables.spec_geom() == g0.pos.geom,
                g0 == old(game)@,
                geom == g0.pos.geom,
                v0 == game_value(g0),
                v0 == best_value(g0, ls),
                ls == ordered@.map_values(|e: EdgeId| e as int),
                ls.len() == ordered.len(),
                forall|k: int| 0 <= k < ordered.len() ==> g0.pos.is_legal(#[trigger] ordered@[k] as int),
                forall|k: int| 0 <= k < ls.len() ==> move_value(g0, #[trigger] ls[k]) <= v0,
                exists|k: int| 0 <= k < ls.len() && move_value(g0, #[trigger] ls[k]) == v0,
                beta == beta_start,
                alpha_start < beta_start,
                alpha_start >= alpha_orig,
                beta_start <= beta_orig,
                (alpha_start > alpha_orig ==> v0 >= alpha_start),
                (beta_start < beta_orig ==> v0 <= beta_start),
                window_ok(g0, alpha_start as int, beta_start as int),
                -open_boxes(g0) <= v0 <= open_boxes(g0),
                vs.len() == 0 ==> alpha == alpha_start && best == -INF,
                vs.len() > 0 ==> alpha == (if alpha_start >= best {
                    alpha_start
                } else {
                    best
                }),
                vs.len() > 0 ==> exists|k: int| 0 <= k < vs.len() && vs[k] == best,
                forall|k: int| 0 <= k < vs.len() ==> #[trigger] vs[k] <= best,
                forall|k: int| 0 <= k < vs.len() ==> #[trigger] mvs[k] == move_value(g0, ls[k]),
                forall|k: int|
                    0 <= k < vs.len() ==> child_fact(mvs[k], #[trigger] vs[k], as_[k], beta_start as int),
                forall|k: int|
                    0 <= k < vs.len() ==> -open_boxes(g0) <= #[trigger] vs[k] <= open_boxes(g0),
                forall|k: int| 0 <= k < vs.len() ==> alpha_start <= #[trigger] as_[k],
                alpha >= alpha_start,
                forall|k: int| 0 <= k < vs.len() ==> #[trigger] vs[k] <= alpha,
                forall|k: int|
                    0 <= k < vs.len() ==> (#[trigger] as_[k] == alpha_start || exists|j: int|
                        0 <= j < k && vs[j] == as_[k]),
                forall|k: int| 0 <= k < vs.len() ==> #[trigger] as_[k] < beta_start,
                forall|k: int, j: int| #![trigger vs[j], as_[k]] 0 <= j < k < vs.len() ==> vs[j] <= as_[k],
            ensures
                vs.len() > 0,
                (vs.len() == ordered.len() && vs[vs.len() - 1] < beta_start) || (alpha
                    >= beta && vs[vs.len() - 1] >= beta_start),
                forall|k: int| 0 <= k < vs.len() - 1 ==> #[trigger] vs[k] < beta_start,
            decreases ordered.len() - i,
        {
            let edge = ordered[i];
            proof {
                assert(g0.pos.is_legal(ordered@[i as int] as int));
                lemma_undrawn_play(g0, edge as int);
                assert(ls[i as int] == edge as int);
            }
            let (result, undo) = match game.play(edge) {
                Ok(x) => x,
                Err(e) => {
                    proof {
                        match e {
                            crate::moves::MoveError::OutOfRange => {},
                            crate::moves::MoveError::AlreadyDrawn => {},
                        }
                        assert(false);
                    }
                    return best;
                },
            };
            let ghost g1 = game@;
            proof {
                crate::game::law_play_keeps_invariant(g0, edge as int);
                g0.pos.lemma_newly_facts(edge as int);
                lemma_open_boxes(g1);
                lemma_value_bounds(g1);
            }
            let scored = result.completed.len() as i16;
            let ghost a_k = alpha as int;
            proof {
                lemma_drawn_count(g0);
                assert(g1 == g0.after_play(edge as int));
                assert(a_k == alpha_start || exists|j: int| 0 <= j < vs.len() && vs[j] == a_k) by {
                    if vs.len() > 0 && alpha != alpha_start {
                        let j = choose|j: int| 0 <= j < vs.len() && vs[j] == best;
                        assert(vs[j] == a_k);
                    }
                }
                assert(-open_boxes(g0) <= best <= open_boxes(g0) || vs.len() == 0) by {
                    if vs.len() > 0 {
                        let j = choose|j: int| 0 <= j < vs.len() && vs[j] == best;
                        assert(-open_boxes(g0) <= vs[j] <= open_boxes(g0));
                    }
                }
                assert(window_ok(g0, alpha as int, beta as int));
                assert(g1.pos.drawn.len() == g0.pos.drawn.len() + 1);
                assert(0 <= scored <= 2);
            }
            let child = if result.extra_turn {
                self.negamax(game, sat_sub(alpha, scored), sat_sub(beta, scored))
            } else {
                sat_neg(self.negamax(game, sat_add(sat_neg(beta), scored), sat_add(sat_neg(alpha), scored)))
            };
            proof {
                assert(g0.after_play(edge as int) == game@);
                assert(game.undoes(undo));
                crate::game::law_play_then_undo(g0, edge as int);
            }
            game.undo(undo);
            let v = sat_add(scored, child);
            proof {
                let mv = move_value(g0, edge as int);
                assert(child_fact(mv, v as int, a_k, beta_start as int));
                assert(-open_boxes(g0) <= v <= open_boxes(g0));
                let vs0 = vs;
                let as0 = as_;
                mvs = mvs.push(mv);
                vs = vs.push(v as int);
                as_ = as_.push(a_k);
                let n0 = vs0.len() as int;
                assert(as_[n0] == a_k && vs[n0] == v);
                if n0 > 0 {
                    let j = choose|j: int| 0 <= j < n0 && vs0[j] == best;
                    assert(vs[j] == best);
                }
                assert forall|k: int| 0 <= k < vs.len() implies alpha_start <= #[trigger] as_[k] by {
                    if k < n0 {
                        assert(as_[k] == as0[k]);
                    }
                }
                assert forall|k: int| 0 <= k < vs.len() implies (#[trigger] as_[k] == alpha_start
                    || exists|j: int| 0 <= j < k && vs[j] == as_[k]) by {
                    if k < n0 {
                        assert(as_[k] == as0[k]);
                        if as_[k] != alpha_start {
                            let j = choose|j: int| 0 <= j < k && vs0[j] == as0[k];
                            assert(vs[j] == vs0[j]);
                        }
                    } else {
                        if as_[k] != alpha_start {
                            let j = choose|j: int| 0 <= j < n0 && vs0[j] == a_k;
                            assert(vs[j] == vs0[j]);
                        }
                    }
                }
                assert forall|k: int, j: int| #![trigger vs[j], as_[k]] 0 <= j < k < vs.len() implies vs[j]
                    <= as_[k] by {
                    assert(vs[j] == vs0[j]);
                    if k < n0 {
                        assert(as_[k] == as0[k]);
                    } else {
                        assert(vs0[j] <= alpha);
                    }
                }
            }
            if v > best {
                best = v;
            }
            if v > alpha {
                alpha = v;
            }
            proof {
                assert(vs[vs.len() - 1] == v);
                if alpha >= beta {
                    assert(v >= beta_start) by {
                        if vs.len() > 1 {
                            let j = choose|j: int| 0 <= j < vs.len() && vs[j] == best;
                            if j < vs.len() - 1 {
                                assert(vs[j] < beta);
                            }
                        }
                    }
                }
            }
            if alpha >= beta {
                break;
            }
            i += 1;
        }
        let flag = if best <= alpha_orig {
            TT_UPPER
        } else if best >= beta {
            TT_LOWER
        } else {
            TT_EXACT
        };
        proof {
            let cut = !(vs.len() == ordered.len() && vs[vs.len() - 1] < beta_start);
            assert forall|k: int| 0 <= k < vs.len() implies #[trigger] mvs[k] <= v0 by {
                assert(move_value(g0, ls[k]) <= v0);
            }
            if !cut {
                let km = choose|k: int| 0 <= k < ls.len() && move_value(g0, #[trigger] ls[k]) == v0;
                assert(mvs[km] == v0);
            }
            lemma_scan_result(mvs, vs, as_, alpha_start as int, beta_start as int, best as int, v0, cut);
            let kb = choose|k: int| 0 <= k < vs.len() && vs[k] == best;
            assert(entry_holds(best, flag, v0));
            assert(-open_boxes(g0) <= best <= open_boxes(g0)) by {
                assert(vs[kb] == best);
            }
        }
        let mut tt: HashMap<u64, (i16, u8, EdgeBits)> = HashMap::new();
        proof {
            use_type_invariant(&*self);
            assert(tt@ =~= Map::<u64, (i16, u8, EdgeBits)>::empty());
        }
        std::mem::swap(&mut tt, &mut self.tt);
        let ghost tt0 = tt@;
        tt.insert(key, (best, flag, canon_bits));
        proof {
            assert forall|k: u64| #[trigger] tt@.contains_key(k) implies exists|h: GameView|
                h.pos.drawn == tt@[k].2@ && h.inv() && h.pos.geom == geom && entry_holds(
                    tt@[k].0,
                    tt@[k].1,
                    game_value(h),
                ) && -open_boxes(h) <= tt@[k].0 <= open_boxes(h) by {
                if k == key {
                    assert(tt@[k].2@ == img.pos.drawn);
                } else {
                    assert(tt0.contains_key(k));
                }
            }
        }
        self.tt = tt;
        best
    }
}

/// Selects an optimal edge (ties via [`XorShift64`]).
#[derive(Debug)]
pub struct PerfectEngine {
    rng: XorShift64,
    search: Option<Search>,
}

impl PerfectEngine {
    /// Generator state.
    pub closed spec fn rng_state(self) -> u64 {
        self.rng.state()
    }

    pub fn new(seed: u64) -> (r: Self)
        ensures
            r.rng_state() == XorShift64::new_state(seed),
    {
        Self { rng: XorShift64::new(seed), search: None }
    }

    /// Reseed the tie-break generator; the transposition table is kept.
    pub fn set_seed(&mut self, seed: u64)
        ensures
            final(self).rng_state() == XorShift64::new_state(seed),
    {
        self.rng = XorShift64::new(seed);
    }

    /// The search state for `geom`, reusing the kept one when it matches.
    fn take_search(&mut self, geom: BoardGeom) -> (r: Search)
        ensures
            r.tables.spec_geom() == geom,
            final(self).rng_state() == old(self).rng_state(),
    {
        let reuse = match &self.search {
            Some(s) => s.tables.geom == geom,
            None => false,
        };
        if reuse {
            match self.search.take() {
                Some(s) => {
                    return s;
                },
                None => {},
            }
        }
        Search::new(geom)
    }

    /// Box-difference margin for the player to move (reuses the transposition
    /// table): at a terminal position the score difference, otherwise that plus
    /// the searched remaining-play margin.
    pub fn value(&mut self, game: &Game) -> (r: i8)
        ensures
            game@.is_terminal() ==> r == score_margin(game@),
            r == perfect_margin(game@),
            final(self).rng_state() == old(self).rng_state(),
    {
        proof {
            use_type_invariant(game);
            game.lemma_wf();
            lemma_open_boxes(game@);
            lemma_value_bounds(game@);
        }
        let current = score_diff(game);
        if game.is_terminal() {
            return current;
        }
        let mut work = *game;
        let mut search = self.take_search(work.geom());
        let remaining = search.negamax(&mut work, -INF, INF);
        self.search = Some(search);
        proof {
            assert(remaining == game_value(game@));
            lemma_margin_bound(game@);
        }
        sat_add8(current, remaining as i8)
    }
}

/// The moves of `g` that achieve its value, in search order.
pub open spec fn optimal_moves(g: GameView) -> Seq<int> {
    keep(move_order(g.pos, g.pos.legal_edges()), |e: int| move_value(g, e) == game_value(g))
}

impl Engine for PerfectEngine {
    /// A move of optimal value, drawn uniformly from all optimal moves.
    #[verifier::rlimit(100)]
    fn choose_move(&mut self, game: &Game) -> (r: EdgeId)
        ensures
            move_value(game@, r as int) == game_value(game@),
            r as int == pick_from(optimal_moves(game@), old(self).rng_state()),
            final(self).rng_state() == state_after_pick(
                optimal_moves(game@).len() as int,
                old(self).rng_state(),
            ),
    {
        proof {
            use_type_invariant(game);
            game.lemma_wf();
            lemma_nonterminal_has_move(game@);
        }
        let mut work = *game;
        let ghost g0 = work@;
        let geom = work.geom();
        let legal = work.legal_moves();
        let ordered = order_moves(&work, &legal);
        let ghost ls = ordered@.map_values(|e: EdgeId| e as int);
        proof {
            g0.pos.lemma_legal_below(g0.pos.geom.nedges());
            assert(legal@.map_values(|e: EdgeId| e as int).len() == legal.len());
            assert(ordered@.map_values(|e: EdgeId| e as int).len() == ordered.len());
            lemma_move_order_len(g0.pos, g0.pos.legal_edges());
            lemma_move_order_members(g0.pos);
            lemma_best_value_same_members(g0, ls, g0.pos.legal_edges());
            lemma_value_bounds(g0);
            lemma_open_boxes(g0);
            lemma_drawn_count(g0);
        }
        let mut search = self.take_search(geom);
        let mut best_val: i16 = i16::MIN;
        let mut best: Vec<EdgeId> = Vec::new();
        let mut i: usize = 0;
        while i < ordered.len()
            invariant
                i <= ordered.len(),
                ordered.len() > 0,
                work@ == g0,
                g0 == game@,
                g0.inv(),
                !g0.is_terminal(),
                ls == ordered@.map_values(|e: EdgeId| e as int),
                ls.len() == ordered.len(),
                ls == move_order(g0.pos, g0.pos.legal_edges()),
                best_value(g0, ls) == game_value(g0),
                search.tables.spec_geom() == g0.pos.geom,
                forall|k: int| 0 <= k < ordered.len() ==> g0.pos.is_legal(#[trigger] ordered@[k] as int),
                forall|k: int| 0 <= k < best.len() ==> g0.pos.is_legal(#[trigger] best@[k] as int),
                i > 0 ==> best.len() > 0,
                i == 0 ==> best.len() == 0,
                best.len() == 0 ==> best_val == i16::MIN,
                i > 0 ==> best_val == best_value(g0, ls.take(i as int)),
                i > 0 ==> -open_boxes(g0) <= best_val <= open_boxes(g0),
                0 <= open_boxes(g0) <= 64,
                i > 0 ==> best@.map_values(|e: EdgeId| e as int) == keep(
                    ls.take(i as int),
                    |e: int| move_value(g0, e) == best_val,
                ),
            decreases ordered.len() - i,
        {
            let edge = ordered[i];
            proof {
                assert(g0.pos.is_legal(ordered@[i as int] as int));
                assert(ls[i as int] == edge as int);
            }
            let (result, undo) = match work.play(edge) {
                Ok(x) => x,
                Err(e) => {
                    proof {
                        match e {
                            crate::moves::MoveError::OutOfRange => {},
                            crate::moves::MoveError::AlreadyDrawn => {},
                        }
                        assert(false);
                    }
                    i += 1;
                    continue;
                },
            };
            let ghost g1 = work@;
            proof {
                crate::game::law_play_keeps_invariant(g0, edge as int);
                g0.pos.lemma_newly_facts(edge as int);
                lemma_open_boxes(g1);
                lemma_value_bounds(g1);
                assert(g1 == g0.after_play(edge as int));
                lemma_drawn_count(g0);
                assert(g0.after_play(edge as int).pos.drawn.len() == g0.pos.drawn.len() + 1);
            }
            let scored = result.completed.len() as i16;
            // Once a best value is known, a move only matters if it reaches it:
            // search above `floor` and learn either the exact value or that the
            // move falls short.
            let floor: i16 = if i == 0 {
                -INF
            } else {
                best_val - 1
            };
            let child = if result.extra_turn {
                search.negamax(&mut work, sat_sub(floor, scored), sat_sub(INF, scored))
            } else {
                search.negamax(&mut work, sat_add(-INF, scored), sat_add(sat_neg(floor), scored))
            };
            proof {
                assert(g0.after_play(edge as int) == work@);
                assert(work.undoes(undo));
                crate::game::law_play_then_undo(g0, edge as int);
            }
            work.undo(undo);
            let v = if result.extra_turn {
                sat_add(scored, child)
            } else {
                sat_sub(scored, child)
            };
            let ghost bv0 = best_val as int;
            let ghost best0 = best@.map_values(|e: EdgeId| e as int);
            let ghost mv = move_value(g0, edge as int);
            proof {
                assert(mv == scored + game_value(g1) || mv == scored - game_value(g1));
                assert(v > floor ==> v == mv);
                assert(v <= floor ==> mv <= floor);
                assert(i == 0 ==> v == mv);
            }
            if v > best_val {
                best_val = v;
                best.clear();
                best.push(edge);
            } else if v == best_val {
                best.push(edge);
            }
            proof {
                let t0 = ls.take(i as int);
                let t1 = ls.take(i + 1);
                assert(t1 =~= t0.push(edge as int));
                let f = |e: int| move_value(g0, e) == best_val as int;
                lemma_keep_push(t0, edge as int, f);
                if i == 0 {
                    assert(t0 =~= Seq::<int>::empty());
                    assert(t1 =~= seq![edge as int]);
                    assert(best_value(g0, t1) == move_value(g0, edge as int));
                    assert(best@.map_values(|e: EdgeId| e as int) =~= seq![edge as int]);
                } else {
                    assert(t1.drop_last() =~= t0);
                    lemma_best_value(g0, t0);
                    if v > bv0 {
                        assert(v == mv);
                        assert forall|k: int| 0 <= k < t0.len() implies !f(#[trigger] t0[k]) by {
                            assert(move_value(g0, t0[k]) <= bv0);
                        }
                        crate::engine::lemma_keep_none(t0, f);
                        assert(best@.map_values(|e: EdgeId| e as int) =~= seq![edge as int]);
                    } else if v == bv0 {
                        assert(v == mv);
                        assert(best@.map_values(|e: EdgeId| e as int) =~= best0.push(edge as int));
                    } else {
                        assert(mv < bv0);
                        assert(best@.map_values(|e: EdgeId| e as int) =~= best0);
                    }
                }
                lemma_best_value(g0, t1);
                let kb = choose|k: int| 0 <= k < t1.len() && move_value(g0, #[trigger] t1[k]) == best_value(g0, t1);
                assert(t1[kb] == ls[kb]);
                assert(g0.pos.is_legal(ordered@[kb] as int));
            }
            i += 1;
        }
        self.search = Some(search);
        proof {
            assert(ls.take(ordered.len() as int) =~= ls);
        }
        let k = self.rng.gen_index(best.len());
        proof {
            let f = |e: int| move_value(g0, e) == game_value(g0);
            assert(best@.map_values(|e: EdgeId| e as int) == keep(ls, f));
            assert(best@.map_values(|e: EdgeId| e as int)[k as int] == best@[k as int] as int);
            lemma_keep_members(ls, f);
        }
        best[k]
    }
}

/// The search order lists every legal move once per group it falls in.
proof fn lemma_move_order_len(p: PositionView, ls: Seq<int>)
    ensures
        ls.len() > 0 ==> move_order(p, ls).len() > 0,
{
    if ls.len() > 0 {
        let e = ls[0];
        let c = capture_count(p, e);
        assert(0 <= ls.len() - 1);
        if c == 2 {
            crate::engine::lemma_keep_complete(ls, |e: int| capture_count(p, e) == 2, 0);
        } else if c == 1 {
            crate::engine::lemma_keep_complete(ls, |e: int| capture_count(p, e) == 1, 0);
        } else if c == 0 && !leaves_three(p, e) {
            crate::engine::lemma_keep_complete(
                ls,
                |e: int| capture_count(p, e) == 0 && !leaves_three(p, e),
                0,
            );
        } else if c == 0 {
            crate::engine::lemma_keep_complete(
                ls,
                |e: int| capture_count(p, e) == 0 && leaves_three(p, e),
                0,
            );
        }
    }
}

/// The box margin the player to move finishes with when both sides play
/// perfectly: the margin so far plus the value of the rest of the game.
pub open spec fn perfect_margin(g: GameView) -> int {
    score_margin(g) + game_value(g)
}

/// What drawing `e` leads to for the player to move: the perfect margin of the
/// game after it, from the mover's side (negated when the turn passes).
pub open spec fn child_margin(g: GameView, e: int) -> int {
    if g.pos.newly_completed(e).len() > 0 {
        perfect_margin(g.after_play(e))
    } else {
        -perfect_margin(g.after_play(e))
    }
}

/// A legal move's child margin is the margin so far plus the move's value.
proof fn lemma_child_margin(g: GameView, e: int)
    requires
        g.inv(),
        g.pos.is_legal(e),
    ensures
        child_margin(g, e) == score_margin(g) + move_value(g, e),
{
    let n = g.pos.newly_completed(e).len();
    let c = g.after_play(e);
    if n > 0 {
        assert(score_margin(c) == score_margin(g) + n);
    } else {
        assert(score_margin(c) == -score_margin(g));
    }
}

/// The perfect margin of a finished game is its score margin; otherwise it is
/// the best child margin over the legal moves: no legal move leads to more,
/// and some legal move leads to exactly that.
pub proof fn law_perfect_margin(g: GameView)
    requires
        g.inv(),
    ensures
        g.is_terminal() ==> perfect_margin(g) == score_margin(g),
        forall|e: int| g.pos.is_legal(e) ==> #[trigger] child_margin(g, e) <= perfect_margin(g),
        !g.is_terminal() ==> exists|e: int| g.pos.is_legal(e) && #[trigger] child_margin(g, e) == perfect_margin(g),
{
    let ls = g.pos.legal_edges();
    g.pos.lemma_legal_below(g.pos.geom.nedges());
    lemma_best_value(g, ls);
    assert forall|e: int| g.pos.is_legal(e) implies #[trigger] child_margin(g, e) <= perfect_margin(g) by {
        lemma_child_margin(g, e);
        assert(ls.contains(e));
        if g.is_terminal() {
            crate::game::law_terminal_iff(g);
        } else {
            let k = choose|k: int| 0 <= k < ls.len() && ls[k] == e;
            assert(move_value(g, ls[k]) <= best_value(g, ls));
        }
    }
    if !g.is_terminal() {
        crate::engine::lemma_nonterminal_has_move(g);
        let k = choose|k: int| 0 <= k < ls.len() && move_value(g, #[trigger] ls[k]) == best_value(g, ls);
        let e = ls[k];
        assert(g.pos.is_legal(e));
        lemma_child_margin(g, e);
    }
}

/// Box-difference margin for the player to move.
///
/// At a terminal: `score(to_move) − score(other)`. Otherwise that quantity
/// plus the searched remaining-play margin.
pub fn perfect_value(game: &Game) -> (r: i8)
    ensures
        game@.is_terminal() ==> r == score_margin(game@),
        r == perfect_margin(game@),
{
    let mut engine = PerfectEngine::new(0);
    engine.value(game)
}

} // verus!
