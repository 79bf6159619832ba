//! Full game rules: players, scoring, extra turns, and terminal detection.
use vstd::prelude::*;

use crate::bitboard::BoxBits;
use crate::board::{BoardGeom, BoxId, EdgeId, Position, PositionView};
use crate::moves::{lemma_count_is_len, lemma_push_to_set, CompletedBoxes, MoveError, Undo};

verus! {

/// Two-player side.
#[derive(Clone, Copy, Debug, PartialEq, Eq, Hash, Structural)]
pub enum Player {
    P1,
    P2,
}

impl Player {
    /// The opponent.
    pub open spec fn spec_other(self) -> Player {
        match self {
            Player::P1 => Player::P2,
            Player::P2 => Player::P1,
        }
    }

    /// `0` for P1, `1` for P2.
    pub open spec fn spec_index(self) -> int {
        match self {
            Player::P1 => 0,
            Player::P2 => 1,
        }
    }

    #[inline]
    pub fn other(self) -> (r: Self)
        ensures
            r == self.spec_other(),
    {
        match self {
            Player::P1 => Player::P2,
            Player::P2 => Player::P1,
        }
    }

    #[inline]
    pub fn index(self) -> (r: usize)
        ensures
            r == self.spec_index(),
    {
        match self {
            Player::P1 => 0,
            Player::P2 => 1,
        }
    }
}

/// Outcome of a finished game.
#[derive(Clone, Copy, Debug, PartialEq, Eq, Hash, Structural)]
pub enum Winner {
    Player(Player),
    Draw,
}

/// Result of playing one edge under full rules.
#[derive(Clone, Copy, Debug, PartialEq, Eq)]
pub struct PlayResult {
    /// Boxes awarded to the player who just moved.
    pub completed: CompletedBoxes,
    /// Player to move after this play (same as mover if any box was completed).
    pub next_player: Player,
    /// True when the mover earned an extra turn.
    pub extra_turn: bool,
}

/// Undo token for [`Game::play`].
#[derive(Clone, Copy, Debug, PartialEq, Eq)]
pub struct GameUndo {
    position: Undo,
    previous_player: Player,
    /// Points awarded on this move (0–2), to `previous_player`.
    scored: u8,
}

impl GameUndo {
    /// The drawn edge.
    pub closed spec fn spec_edge(self) -> int {
        self.position.spec_edge() as int
    }

    /// The boxes the move claimed.
    pub closed spec fn spec_completed(self) -> Seq<int> {
        self.position.spec_completed()@.map_values(|b: BoxId| b as int)
    }

    /// The player who moved.
    pub closed spec fn spec_mover(self) -> Player {
        self.previous_player
    }

    /// Points the move scored.
    pub closed spec fn spec_scored(self) -> int {
        self.scored as int
    }
}

/// Abstract state of a [`Game`].
pub struct GameView {
    pub pos: PositionView,
    pub current: Player,
    pub score1: int,
    pub score2: int,
    pub owned1: Set<int>,
    pub owned2: Set<int>,
}

impl GameView {
    /// Score of `p`.
    pub open spec fn score(self, p: Player) -> int {
        match p {
            Player::P1 => self.score1,
            Player::P2 => self.score2,
        }
    }

    /// Boxes owned by `p`.
    pub open spec fn owned(self, p: Player) -> Set<int> {
        match p {
            Player::P1 => self.owned1,
            Player::P2 => self.owned2,
        }
    }

    /// Rules invariant: claimed boxes are exactly the complete ones, each owned by
    /// one player, and each player's score counts the boxes they own.
    pub open spec fn inv(self) -> bool {
        &&& self.pos.geom.wf()
        &&& forall|e: int| self.pos.drawn.contains(e) ==> 0 <= e < self.pos.geom.nedges()
        &&& forall|b: int| self.pos.claimed.contains(b) ==> 0 <= b < self.pos.geom.nboxes()
        &&& self.pos.consistent()
        &&& self.owned1 + self.owned2 == self.pos.claimed
        &&& self.owned1.disjoint(self.owned2)
        &&& self.owned1.finite()
        &&& self.owned2.finite()
        &&& self.score1 == self.owned1.len()
        &&& self.score2 == self.owned2.len()
    }

    /// Every box is claimed.
    pub open spec fn is_terminal(self) -> bool {
        forall|b: int| 0 <= b < self.pos.geom.nboxes() ==> self.pos.claimed.contains(b)
    }

    /// The winner of a finished game.
    pub open spec fn winner(self) -> Option<Winner> {
        if !self.is_terminal() {
            None
        } else if self.score1 > self.score2 {
            Some(Winner::Player(Player::P1))
        } else if self.score1 < self.score2 {
            Some(Winner::Player(Player::P2))
        } else {
            Some(Winner::Draw)
        }
    }

    /// State after the player to move draws the legal edge `e`.
    pub open spec fn after_play(self, e: int) -> GameView {
        let n = self.pos.newly_completed(e);
        let mover = self.current;
        GameView {
            pos: self.pos.after_move(e),
            current: if n.len() > 0 {
                mover
            } else {
                mover.spec_other()
            },
            score1: if mover == Player::P1 {
                self.score1 + n.len()
            } else {
                self.score1
            },
            score2: if mover == Player::P2 {
                self.score2 + n.len()
            } else {
                self.score2
            },
            owned1: if mover == Player::P1 {
                self.owned1 + n.to_set()
            } else {
                self.owned1
            },
            owned2: if mover == Player::P2 {
                self.owned2 + n.to_set()
            } else {
                self.owned2
            },
        }
    }

    /// State after reversing a play of `e` by `mover` that claimed `completed`.
    pub open spec fn after_undo(self, e: int, completed: Seq<int>, mover: Player) -> GameView {
        GameView {
            pos: self.pos.after_undo(e, completed),
            current: mover,
            score1: if mover == Player::P1 {
                self.score1 - completed.len()
            } else {
                self.score1
            },
            score2: if mover == Player::P2 {
                self.score2 - completed.len()
            } else {
                self.score2
            },
            owned1: if mover == Player::P1 {
                self.owned1 - completed.to_set()
            } else {
                self.owned1
            },
            owned2: if mover == Player::P2 {
                self.owned2 - completed.to_set()
            } else {
                self.owned2
            },
        }
    }
}

/// Full game state with turn, scores, and per-player box ownership.
#[derive(Clone, Copy, Debug, PartialEq, Eq, Hash)]
pub struct Game {
    position: Position,
    current: Player,
    scores: [u16; 2],
    owner_p1: BoxBits,
    owner_p2: BoxBits,
}

impl View for Game {
    type V = GameView;

    open spec fn view(&self) -> GameView {
        GameView {
            pos: self.spec_position()@,
            current: self.spec_current(),
            score1: self.spec_scores()[0] as int,
            score2: self.spec_scores()[1] as int,
            owned1: self.spec_owner(Player::P1)@,
            owned2: self.spec_owner(Player::P2)@,
        }
    }
}

impl Game {
    /// The rules invariant holds of every game.
    #[verifier::type_invariant]
    pub closed spec fn wf(self) -> bool {
        &&& self.position.wf()
        &&& self@.inv()
    }

    pub closed spec fn spec_position(self) -> Position {
        self.position
    }

    pub closed spec fn spec_current(self) -> Player {
        self.current
    }

    pub closed spec fn spec_scores(self) -> Seq<u16> {
        self.scores@
    }

    pub closed spec fn spec_owner(self, p: Player) -> BoxBits {
        match p {
            Player::P1 => self.owner_p1,
            Player::P2 => self.owner_p2,
        }
    }

    /// What the type invariant gives a reader.
    pub proof fn lemma_wf(self)
        requires
            self.wf(),
        ensures
            self@.inv(),
            self.spec_position().wf(),
            self.spec_scores().len() == 2,
    {
    }

    /// Games with the same abstract state are equal.
    pub proof fn lemma_ext(a: Self, b: Self)
        requires
            a.spec_position() == b.spec_position(),
            a@.current == b@.current,
            a@.score1 == b@.score1,
            a@.score2 == b@.score2,
            a@.owned1 =~= b@.owned1,
            a@.owned2 =~= b@.owned2,
        ensures
            a == b,
    {
        BoxBits::lemma_ext(a.owner_p1, b.owner_p1);
        BoxBits::lemma_ext(a.owner_p2, b.owner_p2);
        assert(a.scores =~= b.scores);
    }

    /// New game on `geom`; Player 1 to move, scores zero.
    pub fn new(geom: BoardGeom) -> (r: Self)
        ensures
            r@.pos.geom == geom,
            r@.pos.drawn == Set::<int>::empty(),
            r@.pos.claimed == Set::<int>::empty(),
            r@.current == Player::P1,
            r@.score1 == 0,
            r@.score2 == 0,
            r@.owned1 == Set::<int>::empty(),
            r@.owned2 == Set::<int>::empty(),
    {
        let position = Position::new(geom);
        let owner_p1 = BoxBits::new();
        let owner_p2 = BoxBits::new();
        proof {
            use_type_invariant(geom);
            let pv = position@;
            assert forall|b: int| 0 <= b < pv.geom.nboxes() implies (pv.claimed.contains(b)
                <==> pv.is_complete(b)) by {
                pv.geom.lemma_box_sides_in_range(b);
                assert(!pv.drawn.contains(pv.geom.box_sides(b)[0]));
            }
            assert(owner_p1@ + owner_p2@ =~= pv.claimed);
            use_type_invariant(&position);
            position.lemma_wf();
        }
        let r = Self { position, current: Player::P1, scores: [0, 0], owner_p1, owner_p2 };
        r
    }

    #[inline]
    pub fn position(self) -> (r: Position)
        ensures
            r == self.spec_position(),
            r@ == self@.pos,
    {
        self.position
    }

    #[inline]
    pub fn geom(self) -> (r: BoardGeom)
        ensures
            r == self@.pos.geom,
    {
        self.position.geom()
    }

    #[inline]
    pub fn current_player(self) -> (r: Player)
        ensures
            r == self@.current,
    {
        self.current
    }

    #[inline]
    pub fn score(self, player: Player) -> (r: u16)
        ensures
            r == self@.score(player),
    {
        self.scores[player.index()]
    }

    #[inline]
    pub fn scores(self) -> (r: [u16; 2])
        ensures
            r[0] == self@.score1,
            r[1] == self@.score2,
    {
        self.scores
    }

    /// Owner of a claimed box, if any.
    pub fn box_owner(self, box_id: BoxId) -> (r: Option<Player>)
        requires
            box_id < 128,
        ensures
            r == (if self@.owned1.contains(box_id as int) {
                Some(Player::P1)
            } else if self@.owned2.contains(box_id as int) {
                Some(Player::P2)
            } else {
                None
            }),
    {
        if self.owner_p1.get(box_id) {
            Some(Player::P1)
        } else if self.owner_p2.get(box_id) {
            Some(Player::P2)
        } else {
            None
        }
    }

    /// Game is over when every box is claimed.
    #[inline]
    pub fn is_terminal(self) -> (r: bool)
        ensures
            r == self@.is_terminal(),
    {
        proof {
            use_type_invariant(self);
            self.position.lemma_wf();
            self@.pos.geom.lemma_bounds();
            let boxes = self.position.spec_boxes();
            let b = self@.pos.geom.nboxes() as nat;
            boxes.lemma_count_stable(b, 128);
            boxes.lemma_count_full(b);
        }
        self.position.boxes().count_ones() as u16 == self.geom().box_count()
    }

    /// Winner when terminal; `None` if the game is still in progress.
    pub fn winner(self) -> (r: Option<Winner>)
        ensures
            r == self@.winner(),
    {
        if !self.is_terminal() {
            return None;
        }
        let s1 = self.scores[0];
        let s2 = self.scores[1];
        Some(
            if s1 > s2 {
                Winner::Player(Player::P1)
            } else if s1 < s2 {
                Winner::Player(Player::P2)
            } else {
                Winner::Draw
            },
        )
    }

    /// Undrawn edges, in increasing order.
    pub fn legal_moves(self) -> (r: Vec<EdgeId>)
        ensures
            r@.map_values(|e: EdgeId| e as int) == self@.pos.legal_edges(),
            forall|i: int| 0 <= i < r.len() ==> self@.pos.is_legal(#[trigger] r@[i] as int),
            forall|e: int| self@.pos.is_legal(e) ==> r@.contains(e as EdgeId),
            forall|i: int, j: int| 0 <= i < j < r.len() ==> r@[i] < r@[j],
    {
        self.position.legal_moves()
    }

    pub fn is_legal(self, edge: EdgeId) -> (r: bool)
        ensures
            r == self@.pos.is_legal(edge as int),
    {
        self.position.is_legal(edge)
    }

    /// Play `edge` for the current player.
    ///
    /// Completing one or more boxes awards them to the mover and grants an extra turn.
    pub fn play(&mut self, edge: EdgeId) -> (r: Result<(PlayResult, GameUndo), MoveError>)
        ensures
            r == Err::<(PlayResult, GameUndo), MoveError>(MoveError::OutOfRange) <==> edge
                >= old(self)@.pos.geom.nedges(),
            r == Err::<(PlayResult, GameUndo), MoveError>(MoveError::AlreadyDrawn) <==> (edge < old(
                self,
            )@.pos.geom.nedges() && old(self)@.pos.drawn.contains(edge as int)),
            r is Err ==> *final(self) == *old(self),
            r matches Ok((res, u)) ==> {
                &&& old(self)@.pos.is_legal(edge as int)
                &&& final(self)@ == old(self)@.after_play(edge as int)
                &&& res.completed@.map_values(|b: BoxId| b as int) == old(
                    self,
                )@.pos.newly_completed(edge as int)
                &&& res.next_player == final(self)@.current
                &&& res.extra_turn == (old(self)@.pos.newly_completed(edge as int).len() > 0)
                &&& u.spec_edge() == edge
                &&& u.spec_completed() == old(self)@.pos.newly_completed(edge as int)
                &&& u.spec_mover() == old(self)@.current
                &&& u.spec_scored() == old(self)@.pos.newly_completed(edge as int).len()
            },
    {
        proof {
            use_type_invariant(&*self);
        }
        let ghost g = self@;
        let mover = self.current;
        let mut position = self.position;
        let pos_undo = match position.apply_move(edge) {
            Ok(u) => u,
            Err(e) => {
                return Err(e);
            },
        };
        let completed = pos_undo.completed();
        let scored = completed.len() as u8;
        let ghost n = g.pos.newly_completed(edge as int);
        proof {
            g.pos.geom.lemma_touching_in_range(edge as int);
            assert(completed@.len() == n.len());
        }

        let mut owner_p1 = self.owner_p1;
        let mut owner_p2 = self.owner_p2;
        let mut i: usize = 0;
        while i < completed.len()
            invariant
                i <= completed@.len(),
                completed@.map_values(|b: BoxId| b as int) == n,
                n == g.pos.newly_completed(edge as int),
                g.inv(),
                g.pos.is_legal(edge as int),
                g.pos.geom.touching(edge as int).len() <= 2,
                forall|k: int|
                    0 <= k < g.pos.geom.touching(edge as int).len() ==> 0 <= #[trigger] g.pos.geom.touching(
                        edge as int,
                    )[k] < g.pos.geom.nboxes(),
                owner_p1@ == (if mover == Player::P1 {
                    g.owned1 + n.subrange(0, i as int).to_set()
                } else {
                    g.owned1
                }),
                owner_p2@ == (if mover == Player::P2 {
                    g.owned2 + n.subrange(0, i as int).to_set()
                } else {
                    g.owned2
                }),
                mover == g.current,
            decreases completed@.len() - i,
        {
            let box_id = completed.get(i);
            proof {
                g.pos.lemma_newly_in_touching(edge as int, i as int);
                assert(n[i as int] == box_id as int);
                assert(n.subrange(0, i + 1) =~= n.subrange(0, i as int).push(box_id as int));
                lemma_push_to_set(n.subrange(0, i as int), box_id as int);
                g.pos.geom.lemma_bounds();
            }
            match mover {
                Player::P1 => owner_p1.set(box_id),
                Player::P2 => owner_p2.set(box_id),
            }
            i += 1;
        }
        proof {
            assert(n.subrange(0, n.len() as int) =~= n);
            g.lemma_score_after_play(edge as int);
        }
        let mut scores = self.scores;
        let idx = mover.index();
        let cur = scores[idx];
        proof {
            assert(cur == g.score(mover));
            g.pos.geom.lemma_bounds();
            assert(cur + scored <= 64);
        }
        scores[idx] = cur + scored as u16;

        let extra_turn = scored > 0;
        let next_player = if extra_turn {
            mover
        } else {
            mover.other()
        };
        proof {
            g.lemma_play_keeps_inv(edge as int);
            use_type_invariant(&position);
            let q = g.after_play(edge as int);
            assert(owner_p1@ =~= q.owned1);
            assert(owner_p2@ =~= q.owned2);
            assert(scores[0] == q.score1);
            assert(scores[1] == q.score2);
            assert(position@ == q.pos);
            assert(next_player == q.current);
        }
        *self = Game { position, current: next_player, scores, owner_p1, owner_p2 };
        proof {
            assert(self@.owned1 =~= g.after_play(edge as int).owned1);
            assert(self@.owned2 =~= g.after_play(edge as int).owned2);
        }
        Ok(
            (
                PlayResult { completed, next_player, extra_turn },
                GameUndo { position: pos_undo, previous_player: mover, scored },
            ),
        )
    }

    /// `u` reverses the play that produced this game.
    pub open spec fn undoes(self, u: GameUndo) -> bool {
        exists|g: GameView|
            #![trigger g.after_play(u.spec_edge())]
            {
                &&& g.inv()
                &&& g.pos.is_legal(u.spec_edge())
                &&& g.after_play(u.spec_edge()) == self@
                &&& u.spec_completed() == g.pos.newly_completed(u.spec_edge())
                &&& u.spec_mover() == g.current
                &&& u.spec_scored() == g.pos.newly_completed(u.spec_edge()).len()
            }
    }

    /// Reverse a previous [`Self::play`].
    pub fn undo(&mut self, undo: GameUndo)
        requires
            old(self).undoes(undo),
        ensures
            final(self)@ == old(self)@.after_undo(
                undo.spec_edge(),
                undo.spec_completed(),
                undo.spec_mover(),
            ),
    {
        proof {
            use_type_invariant(&*self);
        }
        let ghost g = choose|g: GameView|
            #![trigger g.after_play(undo.spec_edge())]
            {
                &&& g.inv()
                &&& g.pos.is_legal(undo.spec_edge())
                &&& g.after_play(undo.spec_edge()) == self@
                &&& undo.spec_completed() == g.pos.newly_completed(undo.spec_edge())
                &&& undo.spec_mover() == g.current
                &&& undo.spec_scored() == g.pos.newly_completed(undo.spec_edge()).len()
            };
        let ghost e = undo.spec_edge();
        let ghost n = g.pos.newly_completed(e);
        proof {
            g.pos.geom.lemma_touching_in_range(e);
            g.lemma_score_after_play(e);
            law_play_then_undo(g, e);
        }
        let prev = undo.previous_player;
        let completed = undo.position.completed();
        let mut owner_p1 = self.owner_p1;
        let mut owner_p2 = self.owner_p2;
        let mut i: usize = 0;
        while i < completed.len()
            invariant
                i <= completed@.len(),
                completed@.map_values(|b: BoxId| b as int) == n,
                n == g.pos.newly_completed(e),
                g.pos.geom.touching(e).len() <= 2,
                g.pos.geom.wf(),
                forall|k: int|
                    0 <= k < g.pos.geom.touching(e).len() ==> 0 <= #[trigger] g.pos.geom.touching(
                        e,
                    )[k] < g.pos.geom.nboxes(),
                owner_p1@ == (if prev == Player::P1 {
                    self@.owned1 - n.subrange(0, i as int).to_set()
                } else {
                    self@.owned1
                }),
                owner_p2@ == (if prev == Player::P2 {
                    self@.owned2 - n.subrange(0, i as int).to_set()
                } else {
                    self@.owned2
                }),
            decreases completed@.len() - i,
        {
            let box_id = completed.get(i);
            proof {
                g.pos.lemma_newly_in_touching(e, i as int);
                assert(n[i as int] == box_id as int);
                assert(n.subrange(0, i + 1) =~= n.subrange(0, i as int).push(box_id as int));
                lemma_push_to_set(n.subrange(0, i as int), box_id as int);
                g.pos.geom.lemma_bounds();
            }
            match prev {
                Player::P1 => owner_p1.clear(box_id),
                Player::P2 => owner_p2.clear(box_id),
            }
            proof {
                if prev == Player::P1 {
                    assert(owner_p1@ =~= self@.owned1 - n.subrange(0, i + 1).to_set());
                } else {
                    assert(owner_p2@ =~= self@.owned2 - n.subrange(0, i + 1).to_set());
                }
            }
            i += 1;
        }
        proof {
            assert(n.subrange(0, n.len() as int) =~= n);
        }
        let mut scores = self.scores;
        let idx = prev.index();
        let cur = scores[idx];
        proof {
            assert(cur == self@.score(prev));
        }
        scores[idx] = cur - undo.scored as u16;
        let mut position = self.position;
        proof {
            g.pos.lemma_newly_in_range(e);
        }
        position.undo(undo.position);
        proof {
            use_type_invariant(&position);
            let q = g.after_play(e).after_undo(e, n, g.current);
            assert(owner_p1@ =~= q.owned1);
            assert(owner_p2@ =~= q.owned2);
            assert(scores[0] == q.score1);
            assert(scores[1] == q.score2);
            assert(position@ == q.pos);
            assert(q == g);
        }
        *self = Game { position, current: prev, scores, owner_p1, owner_p2 };
        proof {
            assert(self@.owned1 =~= g.after_play(e).after_undo(e, n, g.current).owned1);
            assert(self@.owned2 =~= g.after_play(e).after_undo(e, n, g.current).owned2);
        }
    }
}

impl PositionView {
    /// Each newly completed box is one of the boxes adjacent to the edge.
    pub proof fn lemma_newly_in_touching(self, e: int, i: int)
        requires
            0 <= i < self.newly_completed(e).len(),
        ensures
            self.geom.touching(e).contains(self.newly_completed(e)[i]),
            0 <= self.newly_completed(e)[i] < self.geom.nboxes(),
    {
        let t = self.geom.touching(e);
        let n = self.newly_completed(e);
        if n.len() == 2 || (t.len() > 0 && self.completes(e, t[0])) {
            if i == 0 {
                assert(n[0] == t[0]);
            } else {
                assert(n[1] == t[1]);
            }
        } else {
            assert(n[0] == t[1]);
        }
    }

    /// The newly completed boxes are on the board.
    pub proof fn lemma_newly_in_range(self, e: int)
        ensures
            forall|i: int|
                0 <= i < self.newly_completed(e).len() ==> 0 <= #[trigger] self.newly_completed(
                    e,
                )[i] < self.geom.nboxes(),
    {
        assert forall|i: int| 0 <= i < self.newly_completed(e).len() implies 0
            <= #[trigger] self.newly_completed(e)[i] < self.geom.nboxes() by {
            self.lemma_newly_in_touching(e, i);
        }
    }

    /// The newly completed boxes are distinct, unclaimed, and at most two.
    pub proof fn lemma_newly_facts(self, e: int)
        requires
            self.geom.wf(),
        ensures
            self.newly_completed(e).len() <= 2,
            self.newly_completed(e).len() == 2 ==> self.newly_completed(e)[0]
                != self.newly_completed(e)[1],
            forall|b: int| self.newly_completed(e).contains(b) ==> !self.claimed.contains(b),
            self.newly_completed(e).to_set().finite(),
            self.newly_completed(e).to_set().len() == self.newly_completed(e).len(),
    {
        self.geom.lemma_touching_in_range(e);
        let n = self.newly_completed(e);
        assert forall|b: int| n.contains(b) implies !self.claimed.contains(b) by {
            let k = choose|k: int| 0 <= k < n.len() && n[k] == b;
            self.lemma_newly_in_touching(e, k);
        }
        if n.len() == 0 {
            assert(n.to_set() =~= Set::<int>::empty());
        } else if n.len() == 1 {
            assert(n.to_set() =~= Set::<int>::empty().insert(n[0]));
        } else {
            assert(n.to_set() =~= Set::<int>::empty().insert(n[0]).insert(n[1]));
        }
    }
}

impl GameView {
    /// Scores after a play count the owned boxes.
    pub proof fn lemma_score_after_play(self, e: int)
        requires
            self.inv(),
            self.pos.is_legal(e),
        ensures
            self.after_play(e).owned1.finite(),
            self.after_play(e).owned2.finite(),
            self.after_play(e).score1 == self.after_play(e).owned1.len(),
            self.after_play(e).score2 == self.after_play(e).owned2.len(),
            self.score(self.current) + self.pos.newly_completed(e).len() <= self.pos.geom.nboxes(),
    {
        let n = self.pos.newly_completed(e);
        self.pos.lemma_newly_facts(e);
        let ns = n.to_set();
        let own = self.owned(self.current);
        assert(own.disjoint(ns));
        vstd::set_lib::lemma_set_disjoint_lens(own, ns);
        // All claimed boxes plus the new ones fit on the board.
        let all = Set::new(|b: int| 0 <= b < self.pos.geom.nboxes());
        self.pos.geom.lemma_bounds();
        vstd::set_lib::lemma_int_range(0, self.pos.geom.nboxes());
        assert(all =~= vstd::set_lib::set_int_range(0, self.pos.geom.nboxes()));
        self.pos.lemma_newly_in_range(e);
        assert((own + ns).subset_of(all)) by {
            assert forall|b: int| (own + ns).contains(b) implies all.contains(b) by {
                if ns.contains(b) {
                    let k = choose|k: int| 0 <= k < n.len() && n[k] == b;
                    assert(0 <= n[k] < self.pos.geom.nboxes());
                } else {
                    assert((self.owned1 + self.owned2).contains(b));
                    assert(self.pos.claimed.contains(b));
                }
            }
        }
        vstd::set_lib::lemma_len_subset(own + ns, all);
    }

    /// A play keeps the rules invariant.
    pub proof fn lemma_play_keeps_inv(self, e: int)
        requires
            self.inv(),
            self.pos.is_legal(e),
        ensures
            self.after_play(e).inv(),
    {
        let q = self.after_play(e);
        let n = self.pos.newly_completed(e);
        self.lemma_score_after_play(e);
        self.pos.lemma_newly_facts(e);
        crate::moves::law_move_keeps_consistent(self.pos, e);
        self.pos.lemma_newly_in_range(e);
        assert(q.owned1 + q.owned2 =~= q.pos.claimed);
        assert(q.owned1.disjoint(q.owned2)) by {
            assert forall|b: int| q.owned1.contains(b) implies !q.owned2.contains(b) by {
                if n.to_set().contains(b) {
                    assert(!self.pos.claimed.contains(b));
                }
            }
        }
        assert forall|b: int| q.pos.claimed.contains(b) implies 0 <= b < q.pos.geom.nboxes() by {
            if n.to_set().contains(b) {
                let k = choose|k: int| 0 <= k < n.len() && n[k] == b;
            }
        }
    }
}

/// Playing a legal edge and then undoing it with the returned token gives back
/// the game state before the play.
pub proof fn law_play_then_undo(g: GameView, e: int)
    requires
        g.inv(),
        g.pos.is_legal(e),
    ensures
        g.after_play(e).after_undo(e, g.pos.newly_completed(e), g.current) == g,
        g.after_play(e).after_undo(e, g.pos.newly_completed(e), g.current).inv(),
{
    let q = g.after_play(e).after_undo(e, g.pos.newly_completed(e), g.current);
    let n = g.pos.newly_completed(e);
    g.pos.lemma_newly_facts(e);
    crate::moves::law_move_then_undo(g.pos, e);
    assert(q.owned1 =~= g.owned1);
    assert(q.owned2 =~= g.owned2);
}

/// A play keeps the rules invariant: every claimed box is complete and owned by
/// exactly one player, and the scores count the owned boxes.
pub proof fn law_play_keeps_invariant(g: GameView, e: int)
    requires
        g.inv(),
        g.pos.is_legal(e),
    ensures
        g.after_play(e).inv(),
        g.after_play(e).score1 + g.after_play(e).score2 == g.after_play(e).pos.claimed.len(),
{
    g.lemma_play_keeps_inv(e);
    let q = g.after_play(e);
    vstd::set_lib::lemma_set_disjoint_lens(q.owned1, q.owned2);
}

/// A play that completes no box passes the turn; one that completes a box keeps it.
pub proof fn law_turn_order(g: GameView, e: int)
    requires
        g.inv(),
        g.pos.is_legal(e),
    ensures
        g.pos.newly_completed(e).len() == 0 ==> g.after_play(e).current == g.current.spec_other(),
        g.pos.newly_completed(e).len() > 0 ==> g.after_play(e).current == g.current,
        g.after_play(e).score(g.current) == g.score(g.current) + g.pos.newly_completed(e).len(),
        g.after_play(e).score(g.current.spec_other()) == g.score(g.current.spec_other()),
{
}

/// Every edge of the board is a side of some box.
pub proof fn lemma_edge_is_side(geom: BoardGeom, e: int)
    requires
        geom.wf(),
        0 <= e < geom.nedges(),
    ensures
        exists|b: int| 0 <= b < geom.nboxes() && #[trigger] geom.box_sides(b).contains(e),
{
    geom.lemma_bounds();
    let r = geom.nrows();
    let c = geom.ncols();
    let h = geom.nhoriz();
    if e < r * c {
        let b = e;
        crate::board::lemma_div_small(b, c, r);
        assert(geom.box_sides(b)[0] == (b / c) * c + b % c);
        assert(geom.box_sides(b)[0] == e);
        assert(geom.box_sides(b).contains(e));
    } else if e < h {
        let b = e - c;
        assert(0 <= b < r * c) by (nonlinear_arith)
            requires
                r * c <= e < h,
                h == (r + 1) * c,
                b == e - c,
                r >= 1,
                c >= 1,
        ;
        crate::board::lemma_div_small(b, c, r);
        assert(geom.box_sides(b)[1] == (b / c + 1) * c + b % c);
        assert((b / c + 1) * c + b % c == b + c) by (nonlinear_arith)
            requires
                b == (b / c) * c + b % c,
        ;
        assert(geom.box_sides(b)[1] == e);
        assert(geom.box_sides(b).contains(e));
    } else {
        let v = e - h;
        assert(0 <= v < r * (c + 1));
        crate::board::lemma_div_small(v, c + 1, r);
        let row = v / (c + 1);
        let col = v % (c + 1);
        if col < c {
            let b = row * c + col;
            assert(0 <= b < r * c) by (nonlinear_arith)
                requires
                    0 <= row < r,
                    0 <= col < c,
                    b == row * c + col,
            ;
            vstd::arithmetic::div_mod::lemma_fundamental_div_mod_converse(b, c, row, col);
            assert(geom.box_sides(b)[2] == h + row * (c + 1) + col);
            assert(geom.box_sides(b)[2] == e);
        assert(geom.box_sides(b).contains(e));
        } else {
            let b = row * c + (c - 1);
            assert(0 <= b < r * c) by (nonlinear_arith)
                requires
                    0 <= row < r,
                    1 <= c,
                    b == row * c + (c - 1),
            ;
            vstd::arithmetic::div_mod::lemma_fundamental_div_mod_converse(b, c, row, c - 1);
            assert(geom.box_sides(b)[3] == h + row * (c + 1) + (c - 1) + 1);
            assert(geom.box_sides(b)[3] == e);
        assert(geom.box_sides(b).contains(e));
        }
    }
}

/// A valid game is over exactly when all its boxes are counted as claimed,
/// and exactly when no legal move is left (every edge is drawn).
pub proof fn law_terminal_iff(g: GameView)
    requires
        g.inv(),
    ensures
        g.is_terminal() <==> g.pos.claimed.len() == g.pos.geom.nboxes(),
        g.is_terminal() <==> g.pos.legal_edges().len() == 0,
        g.is_terminal() <==> forall|e: int| 0 <= e < g.pos.geom.nedges() ==> g.pos.drawn.contains(e),
{
    let geom = g.pos.geom;
    geom.lemma_bounds();
    let all = vstd::set_lib::set_int_range(0, geom.nboxes());
    vstd::set_lib::lemma_int_range(0, geom.nboxes());
    assert(g.pos.claimed.subset_of(all));
    vstd::set_lib::lemma_len_subset(g.pos.claimed, all);
    if g.pos.claimed.len() == geom.nboxes() {
        vstd::set_lib::lemma_subset_equality(g.pos.claimed, all);
    }
    if g.is_terminal() {
        assert(g.pos.claimed =~= all);
        assert forall|e: int| 0 <= e < geom.nedges() implies g.pos.drawn.contains(e) by {
            lemma_edge_is_side(geom, e);
            let b = choose|b: int| 0 <= b < geom.nboxes() && #[trigger] geom.box_sides(b).contains(e);
            assert(g.pos.claimed.contains(b));
            assert(g.pos.is_complete(b));
            let i = choose|i: int| 0 <= i < geom.box_sides(b).len() && geom.box_sides(b)[i] == e;
        }
    }
    if forall|e: int| 0 <= e < geom.nedges() ==> g.pos.drawn.contains(e) {
        crate::moves::law_all_drawn_all_claimed(g.pos);
    }
    g.pos.lemma_legal_below(geom.nedges());
    if g.pos.legal_edges().len() == 0 {
        assert forall|e: int| 0 <= e < geom.nedges() implies g.pos.drawn.contains(e) by {
            if !g.pos.drawn.contains(e) {
                assert(g.pos.is_legal(e));
                assert(g.pos.legal_edges().contains(e));
            }
        }
    }
    if forall|e: int| 0 <= e < geom.nedges() ==> g.pos.drawn.contains(e) {
        if g.pos.legal_edges().len() > 0 {
            assert(g.pos.is_legal(g.pos.legal_edges()[0]));
        }
    }
}

} // verus!
