//! Strings-and-coins endgame analysis: chains, loops, long-chain parity.
use vstd::prelude::*;

use crate::bitboard::BoxBits;
use crate::board::{BoardGeom, BoxId, EdgeId, Position, PositionView};
use crate::game::{Game, GameView, Player};

mod control;
mod facts;
mod graph;
mod unique;

pub(crate) use control::push_all;
pub use graph::{
    is_walk, joins, lemma_linked_symmetric, lemma_neighbours, lemma_three_neighbours, linked,
    links_closed, neighbour_list, neighbours, step_linked,
};
pub use facts::{
    box_colour, law_loop_at_least_four, law_target_parity, law_terminal_analysis, lemma_linked_colour,
};
pub use unique::{law_analysis_unique, region_key};
use graph::{
    lemma_cycle_closes, lemma_neighbour_list_grows, lemma_side_partners, lemma_two_neighbours,
    lemma_walk_push,
};
pub use control::{
    deref_opt, ids_below, law_open_order, law_refusal, opening_set, refuses_at, opens_at, ranked, refusal,
    attached_region, encode_analysis, opening_edges, ranked_open_targets, REGION_KIND_LONG, REGION_KIND_LOOP, REGION_KIND_SHORT, refuse_remnant, refuse_skip_region, should_refuse_capture, takeable_box_ids,
};

verus! {

/// Max regions = max boxes on a supported board.
pub const MAX_REGIONS: usize = 64;

/// Corridor / loop classification for a connected set of degree-2 coins.
#[derive(Clone, Copy, Debug, PartialEq, Eq, Structural)]
pub enum RegionKind {
    ShortChain,
    LongChain,
    Loop,
}

/// One chain or loop (membership is the unclaimed corridor boxes).
#[derive(Clone, Copy, Debug, PartialEq, Eq)]
pub struct Region {
    pub kind: RegionKind,
    pub length: u8,
    pub boxes: BoxBits,
}

/// An unclaimed box with exactly two sides drawn (a degree-2 coin).
pub open spec fn is_corridor(p: PositionView, b: int) -> bool {
    0 <= b < p.geom.nboxes() && !p.claimed.contains(b) && p.sides(b) == 2
}

/// An unclaimed box with exactly three sides drawn.
pub open spec fn is_takeable(p: PositionView, b: int) -> bool {
    0 <= b < p.geom.nboxes() && !p.claimed.contains(b) && p.sides(b) == 3
}

/// An unclaimed box with three or four sides still undrawn.
pub open spec fn is_open(p: PositionView, b: int) -> bool {
    0 <= b < p.geom.nboxes() && !p.claimed.contains(b) && p.sides(b) <= 1
}

/// Number of takeable boxes below `k`.
pub open spec fn takeable_below(p: PositionView, k: int) -> nat
    decreases k,
{
    if k <= 0 {
        0
    } else {
        takeable_below(p, k - 1) + if is_takeable(p, k - 1) {
            1nat
        } else {
            0nat
        }
    }
}

/// Number of corridor neighbours of `b`: corridor boxes sharing an undrawn side with it.
pub open spec fn corridor_degree(p: PositionView, b: int) -> nat {
    neighbours(p, b).len()
}

/// A reported region: a connected component of the corridor graph (a walk
/// visits all its boxes, and none is linked to a box outside it), classified
/// as a loop when every box has two corridor neighbours, else as a chain.
pub open spec fn region_ok(p: PositionView, r: Region) -> bool {
    &&& r.length >= 1
    &&& r.boxes@.finite()
    &&& r.boxes@.len() == r.length
    &&& forall|b: int| r.boxes@.contains(b) ==> is_corridor(p, b)
    &&& links_closed(p, r.boxes@)
    &&& exists|w: Seq<int>| #[trigger] is_walk(p, w) && w.to_set() == r.boxes@
    &&& match r.kind {
        RegionKind::Loop => forall|b: int| r.boxes@.contains(b) ==> corridor_degree(p, b) >= 2,
        RegionKind::ShortChain => r.length <= 2 && exists|b: int|
            r.boxes@.contains(b) && corridor_degree(p, b) <= 1,
        RegionKind::LongChain => r.length >= 3 && exists|b: int|
            r.boxes@.contains(b) && corridor_degree(p, b) <= 1,
    }
}

/// Number of regions of `kind` in `rs`.
pub open spec fn count_kind(rs: Seq<Region>, kind: RegionKind) -> nat
    decreases rs.len(),
{
    if rs.len() == 0 {
        0
    } else {
        count_kind(rs.drop_last(), kind) + if rs.last().kind == kind {
            1nat
        } else {
            0nat
        }
    }
}

/// Union of the box sets of `rs`.
pub open spec fn union_boxes(rs: Seq<Region>) -> Set<int>
    decreases rs.len(),
{
    if rs.len() == 0 {
        Set::empty()
    } else {
        union_boxes(rs.drop_last()) + rs.last().boxes@
    }
}

/// The regions partition the corridor boxes into valid chains and loops.
pub open spec fn regions_ok(p: PositionView, rs: Seq<Region>) -> bool {
    &&& forall|i: int| 0 <= i < rs.len() ==> region_ok(p, #[trigger] rs[i])
    &&& forall|i: int, j: int|
        0 <= i < j < rs.len() ==> (#[trigger] rs[i]).boxes@.disjoint((#[trigger] rs[j]).boxes@)
    &&& union_boxes(rs) == Set::new(|b: int| is_corridor(p, b))
}

/// `k` anchors `r`: for a chain, its smallest box with at most one corridor
/// neighbour; for a loop, its smallest box.
pub open spec fn anchored_at(p: PositionView, r: Region, k: int) -> bool {
    &&& r.boxes@.contains(k)
    &&& (r.kind != RegionKind::Loop ==> corridor_degree(p, k) <= 1)
    &&& forall|b: int|
        #[trigger] r.boxes@.contains(b) && (r.kind == RegionKind::Loop || corridor_degree(p, b) <= 1)
            ==> k <= b
}

/// The anchor of `r` (see [`anchored_at`]).
pub open spec fn anchor(p: PositionView, r: Region) -> int {
    choose|k: int| anchored_at(p, r, k)
}

/// Chains come before loops, and each group is listed by increasing anchor.
pub open spec fn regions_ordered(p: PositionView, rs: Seq<Region>) -> bool {
    &&& forall|i: int| 0 <= i < rs.len() ==> anchored_at(p, #[trigger] rs[i], anchor(p, rs[i]))
    &&& forall|i: int, j: int|
        0 <= i < j < rs.len() && (#[trigger] rs[i]).kind == RegionKind::Loop ==> (
        #[trigger] rs[j]).kind == RegionKind::Loop
    &&& forall|i: int, j: int|
        0 <= i < j < rs.len() && ((#[trigger] rs[i]).kind == RegionKind::Loop) == ((
        #[trigger] rs[j]).kind == RegionKind::Loop) ==> anchor(p, rs[i]) < anchor(p, rs[j])
}

/// A region has at most one anchor.
pub proof fn lemma_anchor_unique(p: PositionView, r: Region, k1: int, k2: int)
    requires
        anchored_at(p, r, k1),
        anchored_at(p, r, k2),
    ensures
        k1 == k2,
{
    assert(r.boxes@.contains(k1) && r.boxes@.contains(k2));
}

/// Appending a region anchored after every earlier one of its group, and no
/// chain after a loop, keeps the regions ordered.
proof fn lemma_ordered_push(p: PositionView, rs: Seq<Region>, r: Region, k: int)
    requires
        regions_ordered(p, rs),
        anchored_at(p, r, k),
        forall|i: int| 0 <= i < rs.len() && (#[trigger] rs[i]).kind == RegionKind::Loop ==> r.kind
            == RegionKind::Loop,
        forall|i: int|
            0 <= i < rs.len() && ((#[trigger] rs[i]).kind == RegionKind::Loop) == (r.kind
                == RegionKind::Loop) ==> anchor(p, rs[i]) < k,
    ensures
        regions_ordered(p, rs.push(r)),
        anchor(p, r) == k,
{
    lemma_anchor_unique(p, r, k, anchor(p, r));
    let rs2 = rs.push(r);
    assert forall|i: int| 0 <= i < rs2.len() implies anchored_at(p, #[trigger] rs2[i], anchor(p, rs2[i])) by {
        if i < rs.len() {
            assert(rs2[i] == rs[i]);
        }
    }
    assert forall|i: int, j: int|
        0 <= i < j < rs2.len() && (#[trigger] rs2[i]).kind == RegionKind::Loop implies (
        #[trigger] rs2[j]).kind == RegionKind::Loop by {
        assert(rs2[i] == rs[i]);
        if j < rs.len() {
            assert(rs2[j] == rs[j]);
        }
    }
    assert forall|i: int, j: int|
        0 <= i < j < rs2.len() && ((#[trigger] rs2[i]).kind == RegionKind::Loop) == ((
        #[trigger] rs2[j]).kind == RegionKind::Loop) implies anchor(p, rs2[i]) < anchor(p, rs2[j]) by {
        assert(rs2[i] == rs[i]);
        if j < rs.len() {
            assert(rs2[j] == rs[j]);
        }
    }
}

/// An unused slot of the region table.
pub open spec fn is_placeholder(r: Region) -> bool {
    r.kind == RegionKind::ShortChain && r.length == 0 && r.boxes@ == Set::<int>::empty()
}

/// The parity of long chains the player to move wants.
pub open spec fn spec_target_parity(nboxes: int, to_move: Player) -> int {
    let p1 = (nboxes + 1) % 2;
    match to_move {
        Player::P1 => p1,
        Player::P2 => 1 - p1,
    }
}

/// Structural analysis of unclaimed boxes.
#[derive(Clone, Copy, Debug, PartialEq, Eq)]
pub struct EndgameAnalysis {
    pub long_chain_count: u8,
    pub short_chain_count: u8,
    pub loop_count: u8,
    pub takeable_count: u8,
    /// `long_chain_count % 2` (0 or 1).
    pub long_chain_parity: u8,
    /// What the player to move wants `long_chain_parity` to be.
    pub target_parity: u8,
    /// True when no unclaimed box still has 3 or 4 remaining sides.
    pub decomposed: bool,
    /// Number of valid entries in `regions`.
    pub region_count: u8,
    /// Regions found, valid in `0..region_count`.
    pub regions: [Region; MAX_REGIONS],
}

impl EndgameAnalysis {
    /// The reported regions: chains, then loops, each group by anchor box.
    pub open spec fn spec_regions(self) -> Seq<Region> {
        self.regions@.subrange(0, self.region_count as int)
    }

    /// Number of reported regions.
    pub open spec fn spec_region_count(self) -> int {
        self.region_count as int
    }

    /// The analysis of position `p` with `to_move` to play (see [`Self::lemma_describes`]).
    pub open spec fn describes(self, p: PositionView, to_move: Player) -> bool {
        &&& 0 <= self.spec_region_count() <= MAX_REGIONS
        &&& self.spec_regions().len() == self.spec_region_count()
        &&& regions_ok(p, self.spec_regions())
        &&& regions_ordered(p, self.spec_regions())
        &&& forall|i: int|
            self.spec_region_count() <= i < MAX_REGIONS ==> is_placeholder(#[trigger] self.regions[i])
        &&& self.long_chain_count == count_kind(self.spec_regions(), RegionKind::LongChain)
        &&& self.short_chain_count == count_kind(self.spec_regions(), RegionKind::ShortChain)
        &&& self.loop_count == count_kind(self.spec_regions(), RegionKind::Loop)
        &&& self.takeable_count == takeable_below(p, p.geom.nboxes())
        &&& self.long_chain_parity == self.long_chain_count % 2
        &&& self.target_parity == spec_target_parity(p.geom.nboxes(), to_move)
        &&& self.decomposed == !(exists|b: int| is_open(p, b))
    }

    /// What an analysis of `p` states.
    pub proof fn lemma_describes(self, p: PositionView, to_move: Player)
        requires
            self.describes(p, to_move),
        ensures
            0 <= self.spec_region_count() <= MAX_REGIONS,
            self.spec_regions().len() == self.spec_region_count(),
            regions_ok(p, self.spec_regions()),
            regions_ordered(p, self.spec_regions()),
            forall|i: int|
                self.spec_region_count() <= i < MAX_REGIONS ==> is_placeholder(
                    #[trigger] self.regions[i],
                ),
            self.long_chain_count == count_kind(self.spec_regions(), RegionKind::LongChain),
            self.short_chain_count == count_kind(self.spec_regions(), RegionKind::ShortChain),
            self.loop_count == count_kind(self.spec_regions(), RegionKind::Loop),
            self.takeable_count == takeable_below(p, p.geom.nboxes()),
            self.long_chain_parity == self.long_chain_count % 2,
            self.target_parity == spec_target_parity(p.geom.nboxes(), to_move),
            self.decomposed == !(exists|b: int| is_open(p, b)),
    {
    }

    pub fn regions(&self) -> (r: &[Region])
        requires
            self.spec_region_count() <= MAX_REGIONS,
        ensures
            r@ == self.spec_regions(),
    {
        vstd::slice::slice_subrange(self.regions.as_slice(), 0, self.region_count as usize)
    }

    /// Number of reported regions.
    pub fn region_count(&self) -> (r: usize)
        ensures
            r == self.spec_region_count(),
    {
        self.region_count as usize
    }

    #[inline]
    pub fn parity_ok(self) -> (r: bool)
        ensures
            r == (self.long_chain_parity == self.target_parity),
    {
        self.long_chain_parity == self.target_parity
    }

    /// The first region holding `box_id`, if any.
    pub fn region_containing(&self, box_id: BoxId) -> (r: Option<&Region>)
        requires
            self.spec_region_count() <= MAX_REGIONS,
            box_id < 128,
        ensures
            r matches Some(reg) ==> find_region(self.spec_regions(), box_id as int) matches Some(
                i,
            ) && *reg == self.spec_regions()[i],
            r is None ==> find_region(self.spec_regions(), box_id as int) is None,
    {
        let n = self.region_count as usize;
        let mut i: usize = 0;
        while i < n
            invariant
                i <= n,
                n == self.spec_region_count(),
                n <= MAX_REGIONS,
                box_id < 128,
                self.spec_regions().len() == n,
                forall|j: int|
                    0 <= j < i ==> !(#[trigger] self.spec_regions()[j]).boxes@.contains(
                        box_id as int,
                    ),
            decreases n - i,
        {
            assert(self.spec_regions()[i as int] == self.regions[i as int]);
            if self.regions[i].boxes.get(box_id) {
                proof {
                    let rs = self.spec_regions();
                    assert(first_containing(rs, box_id as int, i as int));
                    let k = choose|k: int| first_containing(rs, box_id as int, k);
                    lemma_first_unique(rs, box_id as int, i as int, k);
                }
                return Some(&self.regions[i]);
            }
            i += 1;
        }
        None
    }
}

/// `rs[i]` is the first region holding box `b`.
pub open spec fn first_containing(rs: Seq<Region>, b: int, i: int) -> bool {
    &&& 0 <= i < rs.len()
    &&& rs[i].boxes@.contains(b)
    &&& forall|j: int| 0 <= j < i ==> !(#[trigger] rs[j]).boxes@.contains(b)
}

/// Index of the first region holding box `b`, if any.
pub open spec fn find_region(rs: Seq<Region>, b: int) -> Option<int> {
    if exists|i: int| first_containing(rs, b, i) {
        Some(choose|i: int| first_containing(rs, b, i))
    } else {
        None
    }
}

/// At most one index is the first region holding a box.
pub proof fn lemma_first_unique(rs: Seq<Region>, b: int, i: int, k: int)
    requires
        first_containing(rs, b, i),
        first_containing(rs, b, k),
    ensures
        i == k,
{
    if i < k {
        assert(!rs[i].boxes@.contains(b));
    } else if k < i {
        assert(!rs[k].boxes@.contains(b));
    }
}

/// The analysis of `p` with `to_move` to play: the one value that describes
/// it (see [`law_analysis_unique`]).
pub open spec fn analysis_of(p: PositionView, to_move: Player) -> EndgameAnalysis {
    choose|a: EndgameAnalysis| a.describes(p, to_move)
}

/// Analyze `game` without mutating it.
pub fn analyze_endgame(game: &Game) -> (r: EndgameAnalysis)
    ensures
        r.describes(game@.pos, game@.current),
        r == analysis_of(game@.pos, game@.current),
{
    analyze_position(game.position(), game.current_player())
}

/// Correct adjacency tables: box `b` lists its `deg[b]` corridor neighbours in
/// `adj[2b..2b+deg[b]]`; unused slots hold `u16::MAX`.
pub open spec fn adj_ok(p: PositionView, adj: Seq<u16>, deg: Seq<u8>) -> bool {
    &&& adj.len() == 2 * MAX_REGIONS
    &&& deg.len() == MAX_REGIONS
    &&& forall|b: int| 0 <= b < MAX_REGIONS ==> #[trigger] box_adj_ok(p, adj, deg, b)
}

/// Same analysis given a packed position and who is to move.
pub fn analyze_position(pos: Position, to_move: Player) -> (r: EndgameAnalysis)
    ensures
        r.describes(pos@, to_move),
        r == analysis_of(pos@, to_move),
{
    let ghost p = pos@;
    let geom = pos.geom();
    let n_boxes = geom.box_count();
    proof {
        geom.lemma_bounds();
    }
    let mut takeable: u8 = 0;
    let mut open: u8 = 0;
    let mut corridor = BoxBits::new();

    let mut id: u16 = 0;
    while id < n_boxes
        invariant
            n_boxes == p.geom.nboxes(),
            1 <= n_boxes <= 64,
            p == pos@,
            id <= n_boxes,
            takeable == takeable_below(p, id as int),
            takeable <= id,
            open <= id,
            (open == 0) == !(exists|b: int| 0 <= b < id && is_open(p, b)),
            forall|b: int| #[trigger] corridor@.contains(b) <==> (0 <= b < id && is_corridor(p, b)),
        decreases n_boxes - id,
    {
        let ghost c0 = corridor@;
        let ghost open0 = open;
        if !pos.box_is_claimed(id) {
            let s = pos.sides_drawn(id);
            let left = 4u8 - s;
            if left == 1 {
                takeable += 1;
            } else if left == 2 {
                corridor.set(id);
            } else if left == 3 || left == 4 {
                open += 1;
            }
        }
        proof {
            let b0 = id as int;
            if is_corridor(p, b0) {
                assert(corridor@ == c0.insert(b0));
            } else {
                assert(corridor@ == c0);
            }
            assert forall|b: int| corridor@.contains(b) <==> (0 <= b < id + 1 && is_corridor(p, b)) by {
                if b != b0 {
                    assert(c0.contains(b) <==> (0 <= b < id && is_corridor(p, b)));
                }
            }
            if is_open(p, b0) {
                assert(open == open0 + 1);
            } else {
                assert(open == open0);
                assert forall|b: int| 0 <= b < id + 1 && is_open(p, b) implies 0 <= b < id by {}
            }
        }
        id += 1;
    }
    proof {
        assert(corridor@ =~= Set::new(|b: int| is_corridor(p, b)));
    }

    let (adj, deg) = corridor_adj(pos, geom, n_boxes, corridor);
    let mut seen = BoxBits::new();
    let mut regions = [Region::empty(); MAX_REGIONS];
    let mut region_count: u8 = 0;
    let mut long_chain_count: u8 = 0;
    let mut short_chain_count: u8 = 0;
    let mut loop_count: u8 = 0;

    let ghost all = Set::new(|b: int| is_corridor(p, b));
    proof {
        use_type_invariant(geom);
        lemma_corridor_finite(p);
        assert(regions@.subrange(0, 0) =~= Seq::<Region>::empty());
        assert(seen@ =~= Set::<int>::empty());
    }

    // Paths first: start at G-degree 0 or 1.
    let mut id: u16 = 0;
    while id < n_boxes
        invariant
            p.geom.wf(),
            n_boxes == p.geom.nboxes(),
            1 <= n_boxes <= 64,
            p == pos@,
            id <= n_boxes,
            all == Set::new(|b: int| is_corridor(p, b)),
            all.finite(),
            all.len() <= 64,
            corridor@ == all,
            adj_ok(p, adj@, deg@),
            seen@.subset_of(all),
            seen@.finite(),
            region_count <= seen@.len(),
            seen@.len() <= all.len(),
            walk_state_ok(p, regions@.subrange(0, region_count as int), seen@, long_chain_count,
                short_chain_count, loop_count),
            forall|b: int|
                0 <= b < id && is_corridor(p, b) && corridor_degree(p, b) <= 1 ==> seen@.contains(
                    b,
                ),
            regions_ordered(p, regions@.subrange(0, region_count as int)),
            region_count <= MAX_REGIONS,
            forall|i: int|
                region_count <= i < MAX_REGIONS ==> is_placeholder(#[trigger] regions@[i]),
            forall|i: int|
                0 <= i < region_count ==> (#[trigger] regions@[i]).kind != RegionKind::Loop && anchor(
                    p,
                    regions@[i],
                ) < id,
        decreases n_boxes - id,
    {
        if !corridor.get(id) || seen.get(id) {
            id += 1;
            continue;
        }
        let d = deg[id as usize];
        proof {
            lemma_slots(p, adj@, deg@, id as int);
        }
        if d > 1 {
            id += 1;
            continue;
        }
        let ghost before = seen@;
        let ghost rs0 = regions@.subrange(0, region_count as int);
        let ghost c0 = (long_chain_count, short_chain_count, loop_count);
        let region = walk_path(id, &adj, &deg, n_boxes, &mut seen, Ghost(p));
        proof {
            assert(anchored_at(p, region, id as int)) by {
                assert forall|b: int|
                    #[trigger] region.boxes@.contains(b) && (region.kind == RegionKind::Loop
                        || corridor_degree(p, b) <= 1) implies id <= b by {
                    assert(!before.contains(b));
                    assert(is_corridor(p, b));
                }
            }
            assert forall|i: int|
                0 <= i < rs0.len() && ((#[trigger] rs0[i]).kind == RegionKind::Loop) == (region.kind
                    == RegionKind::Loop) implies anchor(p, rs0[i]) < id by {
                assert(rs0[i] == regions@[i]);
            }
            lemma_ordered_push(p, rs0, region, id as int);
            lemma_seen_len(p, before, seen@, region);
            lemma_len_le_all(seen@, all);
            lemma_count_kind_le(rs0, RegionKind::LongChain);
            lemma_count_kind_le(rs0, RegionKind::ShortChain);
            lemma_count_kind_le(rs0, RegionKind::Loop);
        }
        push_region(
            region,
            &mut regions,
            &mut region_count,
            &mut long_chain_count,
            &mut short_chain_count,
            &mut loop_count,
        );
        proof {
            assert(regions@.subrange(0, region_count as int) =~= rs0.push(region));
            lemma_walk_state_push(p, rs0, before, region, c0.0, c0.1, c0.2, long_chain_count,
                short_chain_count, loop_count);
        }
        id += 1;
    }

    // Remaining G-degree 2 components are loops.
    let mut id: u16 = 0;
    while id < n_boxes
        invariant
            p.geom.wf(),
            n_boxes == p.geom.nboxes(),
            1 <= n_boxes <= 64,
            p == pos@,
            id <= n_boxes,
            all == Set::new(|b: int| is_corridor(p, b)),
            all.finite(),
            all.len() <= 64,
            corridor@ == all,
            adj_ok(p, adj@, deg@),
            seen@.subset_of(all),
            seen@.finite(),
            region_count <= seen@.len(),
            seen@.len() <= all.len(),
            walk_state_ok(p, regions@.subrange(0, region_count as int), seen@, long_chain_count,
                short_chain_count, loop_count),
            forall|b: int|
                is_corridor(p, b) && corridor_degree(p, b) <= 1 ==> seen@.contains(b),
            forall|b: int| 0 <= b < id && is_corridor(p, b) ==> seen@.contains(b),
            regions_ordered(p, regions@.subrange(0, region_count as int)),
            region_count <= MAX_REGIONS,
            forall|i: int|
                region_count <= i < MAX_REGIONS ==> is_placeholder(#[trigger] regions@[i]),
            forall|i: int|
                0 <= i < region_count && (#[trigger] regions@[i]).kind == RegionKind::Loop ==> anchor(
                    p,
                    regions@[i],
                ) < id,
        decreases n_boxes - id,
    {
        if !corridor.get(id) || seen.get(id) {
            id += 1;
            continue;
        }
        let ghost before = seen@;
        let ghost rs0 = regions@.subrange(0, region_count as int);
        let ghost c0 = (long_chain_count, short_chain_count, loop_count);
        let region = walk_loop(id, &adj, n_boxes, &mut seen, Ghost(p), Ghost(deg@));
        proof {
            assert(anchored_at(p, region, id as int)) by {
                assert forall|b: int|
                    #[trigger] region.boxes@.contains(b) && (region.kind == RegionKind::Loop
                        || corridor_degree(p, b) <= 1) implies id <= b by {
                    assert(!before.contains(b));
                    assert(is_corridor(p, b));
                }
            }
            assert forall|i: int|
                0 <= i < rs0.len() && ((#[trigger] rs0[i]).kind == RegionKind::Loop) == (region.kind
                    == RegionKind::Loop) implies anchor(p, rs0[i]) < id by {
                assert(rs0[i] == regions@[i]);
            }
            lemma_ordered_push(p, rs0, region, id as int);
            lemma_seen_len(p, before, seen@, region);
            lemma_len_le_all(seen@, all);
            lemma_count_kind_le(rs0, RegionKind::LongChain);
            lemma_count_kind_le(rs0, RegionKind::ShortChain);
            lemma_count_kind_le(rs0, RegionKind::Loop);
        }
        push_region(
            region,
            &mut regions,
            &mut region_count,
            &mut long_chain_count,
            &mut short_chain_count,
            &mut loop_count,
        );
        proof {
            assert(regions@.subrange(0, region_count as int) =~= rs0.push(region));
            lemma_walk_state_push(p, rs0, before, region, c0.0, c0.1, c0.2, long_chain_count,
                short_chain_count, loop_count);
        }
        id += 1;
    }
    proof {
        assert(seen@ =~= all);
    }

    let n = n_boxes;
    let p1_target = ((n + 1) % 2) as u8;
    let target_parity = match to_move {
        Player::P1 => p1_target,
        Player::P2 => 1 - p1_target,
    };
    let long_chain_parity = long_chain_count % 2;

    let r = EndgameAnalysis {
        long_chain_count,
        short_chain_count,
        loop_count,
        takeable_count: takeable,
        long_chain_parity,
        target_parity,
        decomposed: open == 0,
        region_count,
        regions,
    };
    proof {
        assert(r.spec_regions() == regions@.subrange(0, region_count as int));
        assert forall|b: int| !is_open(p, b) || (0 <= b < n_boxes && is_open(p, b)) by {}
        assert(r.describes(p, to_move));
        law_analysis_unique(p, to_move, r, analysis_of(p, to_move));
    }
    r
}

impl Region {
    /// A zero-length placeholder.
    pub fn empty() -> (r: Self)
        ensures
            r.kind == RegionKind::ShortChain,
            r.length == 0,
            r.boxes@ == Set::<int>::empty(),
    {
        Region { kind: RegionKind::ShortChain, length: 0, boxes: BoxBits::new() }
    }
}

/// The state of the region scan: the regions found so far are valid, disjoint,
/// cover exactly the seen boxes, and the counters count them by kind.
pub open spec fn walk_state_ok(
    p: PositionView,
    rs: Seq<Region>,
    seen: Set<int>,
    long: u8,
    short: u8,
    loops: u8,
) -> bool {
    &&& forall|i: int| 0 <= i < rs.len() ==> region_ok(p, #[trigger] rs[i])
    &&& forall|i: int, j: int|
        0 <= i < j < rs.len() ==> (#[trigger] rs[i]).boxes@.disjoint((#[trigger] rs[j]).boxes@)
    &&& union_boxes(rs) == seen
    &&& links_closed(p, seen)
    &&& long == count_kind(rs, RegionKind::LongChain)
    &&& short == count_kind(rs, RegionKind::ShortChain)
    &&& loops == count_kind(rs, RegionKind::Loop)
}

/// The corridor boxes form a finite set of at most 64 boxes.
proof fn lemma_corridor_finite(p: PositionView)
    requires
        p.geom.wf(),
    ensures
        Set::new(|b: int| is_corridor(p, b)).finite(),
        Set::new(|b: int| is_corridor(p, b)).len() <= 64,
{
    p.geom.lemma_bounds();
    let all = Set::new(|b: int| is_corridor(p, b));
    vstd::set_lib::lemma_int_range(0, 64);
    assert(all.subset_of(vstd::set_lib::set_int_range(0, 64)));
    vstd::set_lib::lemma_len_subset(all, vstd::set_lib::set_int_range(0, 64));
}

/// A subset of the corridor boxes has at most as many elements.
proof fn lemma_len_le_all(s: Set<int>, all: Set<int>)
    requires
        all.finite(),
        s.subset_of(all),
    ensures
        s.len() <= all.len(),
{
    vstd::set_lib::lemma_len_subset(s, all);
}

/// A walk adds its region's boxes to the seen set.
proof fn lemma_seen_len(p: PositionView, before: Set<int>, after: Set<int>, r: Region)
    requires
        before.finite(),
        r.boxes@.finite(),
        after == before + r.boxes@,
        before.disjoint(r.boxes@),
    ensures
        after.finite(),
        after.len() == before.len() + r.boxes@.len(),
{
    vstd::set_lib::lemma_set_disjoint_lens(before, r.boxes@);
}

/// Recording a fresh valid region keeps the scan state consistent.
proof fn lemma_walk_state_push(
    p: PositionView,
    rs: Seq<Region>,
    seen: Set<int>,
    r: Region,
    long: u8,
    short: u8,
    loops: u8,
    long2: u8,
    short2: u8,
    loops2: u8,
)
    requires
        walk_state_ok(p, rs, seen, long, short, loops),
        region_ok(p, r),
        seen.disjoint(r.boxes@),
        long2 == if r.kind == RegionKind::LongChain { long + 1 } else { long as int },
        short2 == if r.kind == RegionKind::ShortChain { short + 1 } else { short as int },
        loops2 == if r.kind == RegionKind::Loop { loops + 1 } else { loops as int },
    ensures
        walk_state_ok(p, rs.push(r), seen + r.boxes@, long2, short2, loops2),
{
    let rs2 = rs.push(r);
    assert(rs2.drop_last() =~= rs);
    assert forall|i: int| 0 <= i < rs2.len() implies region_ok(p, #[trigger] rs2[i]) by {
        if i < rs.len() {
            assert(rs2[i] == rs[i]);
        }
    }
    assert forall|i: int, j: int|
        0 <= i < j < rs2.len() implies (#[trigger] rs2[i]).boxes@.disjoint(
        (#[trigger] rs2[j]).boxes@,
    ) by {
        if j < rs.len() {
            assert(rs2[i] == rs[i] && rs2[j] == rs[j]);
        } else {
            assert(rs2[i] == rs[i]);
            lemma_region_in_union(rs, i);
        }
    }
    let all = seen + r.boxes@;
    assert forall|a: int, c: int| #![trigger all.contains(a), linked(p, a, c)]
        all.contains(a) && linked(p, a, c) implies all.contains(c) by {
        if seen.contains(a) {
            assert(seen.contains(c));
        } else {
            assert(r.boxes@.contains(c));
        }
    }
}

/// Region counts by kind are at most the number of regions.
proof fn lemma_count_kind_le(rs: Seq<Region>, kind: RegionKind)
    ensures
        count_kind(rs, kind) <= rs.len(),
    decreases rs.len(),
{
    if rs.len() > 0 {
        lemma_count_kind_le(rs.drop_last(), kind);
    }
}

/// Walk a corridor path from `start`, marking boxes seen.
fn walk_path(
    start: BoxId,
    adj: &[u16; 128],
    deg: &[u8; MAX_REGIONS],
    n_boxes: u16,
    seen: &mut BoxBits,
    Ghost(p): Ghost<PositionView>,
) -> (r: Region)
    requires
        p.geom.wf(),
        adj_ok(p, adj@, deg@),
        n_boxes == p.geom.nboxes(),
        1 <= n_boxes <= 64,
        is_corridor(p, start as int),
        !old(seen)@.contains(start as int),
        old(seen)@.subset_of(Set::new(|b: int| is_corridor(p, b))),
        old(seen)@.finite(),
        links_closed(p, old(seen)@),
        deg@[start as int] <= 1,
    ensures
        final(seen)@ == old(seen)@ + r.boxes@,
        old(seen)@.disjoint(r.boxes@),
        region_ok(p, r),
        r.kind != RegionKind::Loop,
        r.boxes@.contains(start as int),
{
    let ghost seen0 = seen@;
    let ghost all = Set::new(|b: int| is_corridor(p, b));
    let mut boxes = BoxBits::new();
    let mut length: u8 = 0;
    let mut cur = start;
    let mut prev = u16::MAX;
    let ghost mut w: Seq<int> = Seq::empty();
    proof {
        vstd::set_lib::lemma_int_range(0, 64);
        assert(boxes@ =~= Set::<int>::empty());
        assert(w.to_set() =~= Set::<int>::empty());
        lemma_slots(p, adj@, deg@, start as int);
    }
    loop
        invariant_except_break
            is_corridor(p, cur as int),
            !seen@.contains(cur as int),
            w.len() > 0 ==> linked(p, w.last(), cur as int) && prev as int == w.last(),
            w.len() == 0 ==> cur == start && prev == u16::MAX,
            forall|a: int, c: int| #![trigger boxes@.contains(a), linked(p, a, c)]
                boxes@.contains(a) && linked(p, a, c) ==> boxes@.contains(c) || c == cur as int,
        invariant
            p.geom.wf(),
            adj_ok(p, adj@, deg@),
            n_boxes == p.geom.nboxes(),
            1 <= n_boxes <= 64,
            all == Set::new(|b: int| is_corridor(p, b)),
            seen0.subset_of(all),
            seen0.finite(),
            links_closed(p, seen0),
            seen@ == seen0 + boxes@,
            seen0.disjoint(boxes@),
            boxes@.subset_of(all),
            boxes@.finite(),
            length == boxes@.len(),
            length <= 64,
            length == w.len(),
            boxes@ == w.to_set(),
            is_walk(p, w),
            w.len() > 0 ==> w[0] == start as int,
            length == 0 ==> cur == start,
            length > 0 ==> boxes@.contains(start as int),
            is_corridor(p, start as int),
            corridor_degree(p, start as int) <= 1,
            vstd::set_lib::set_int_range(0, 64).finite(),
            vstd::set_lib::set_int_range(0, 64).len() == 64,
        ensures
            length >= 1,
            seen@ == seen0 + boxes@,
            seen0.disjoint(boxes@),
            boxes@.subset_of(all),
            boxes@.finite(),
            length == boxes@.len(),
            boxes@.contains(start as int),
            boxes@ == w.to_set(),
            is_walk(p, w),
            links_closed(p, boxes@),
        decreases 64 - length,
    {
        if cur >= n_boxes || seen.get(cur) {
            break;
        }
        let ghost u = cur as int;
        let ghost w0 = w;
        let ghost b0 = boxes@;
        seen.set(cur);
        boxes.set(cur);
        proof {
            assert(boxes@.subset_of(vstd::set_lib::set_int_range(0, 64)));
            vstd::set_lib::lemma_len_subset(boxes@, vstd::set_lib::set_int_range(0, 64));
            assert(seen@ =~= seen0 + boxes@);
            lemma_walk_push(p, w0, u);
            w = w0.push(u);
            crate::moves::lemma_push_to_set(w0, u);
            assert(boxes@ =~= b0.insert(u));
        }
        length += 1;
        proof {
            lemma_slots(p, adj@, deg@, cur as int);
        }
        let nxt = next_unseen(cur, prev, adj, *seen);
        prev = cur;
        match nxt {
            Some(n) => {
                proof {
                    assert(linked(p, u, n as int));
                    assert forall|a: int, c: int|
                        #![trigger boxes@.contains(a), linked(p, a, c)]
                        boxes@.contains(a) && linked(p, a, c) implies boxes@.contains(c) || c
                        == n as int by {
                        if a == u {
                            if c != n as int && !boxes@.contains(c) {
                                if w0.len() == 0 {
                                    lemma_two_neighbours(p, u, n as int, c);
                                } else {
                                    lemma_linked_symmetric(p, w0.last(), u);
                                    assert(w0.contains(w0.last()));
                                    lemma_three_neighbours(p, u, n as int, c, w0.last());
                                }
                            }
                        } else {
                            assert(b0.contains(a));
                        }
                    }
                }
                cur = n;
            },
            None => {
                proof {
                    assert forall|a: int, c: int|
                        #![trigger boxes@.contains(a), linked(p, a, c)]
                        boxes@.contains(a) && linked(p, a, c) implies boxes@.contains(c) by {
                        if a == u {
                            assert(c == adj@[2 * u] as int || c == adj@[2 * u + 1] as int);
                            if w0.len() > 0 && c == w0.last() {
                                assert(w0.contains(w0.last()));
                            } else if seen0.contains(c) {
                                lemma_linked_symmetric(p, u, c);
                            }
                        } else {
                            assert(b0.contains(a));
                        }
                    }
                }
                break;
            },
        }
        proof {
            lemma_slots(p, adj@, deg@, cur as int);
        }
        if deg[cur as usize] > 2 {
            break;
        }
    }
    let r = region_from_boxes(boxes, length, false);
    proof {
        assert(is_walk(p, w) && w.to_set() == r.boxes@);
    }
    r
}

/// Walk a corridor loop from `start`, marking boxes seen.
fn walk_loop(
    start: BoxId,
    adj: &[u16; 128],
    n_boxes: u16,
    seen: &mut BoxBits,
    Ghost(p): Ghost<PositionView>,
    Ghost(deg): Ghost<Seq<u8>>,
) -> (r: Region)
    requires
        p.geom.wf(),
        adj_ok(p, adj@, deg),
        n_boxes == p.geom.nboxes(),
        1 <= n_boxes <= 64,
        is_corridor(p, start as int),
        !old(seen)@.contains(start as int),
        old(seen)@.subset_of(Set::new(|b: int| is_corridor(p, b))),
        old(seen)@.finite(),
        links_closed(p, old(seen)@),
        forall|b: int| is_corridor(p, b) && corridor_degree(p, b) <= 1 ==> old(seen)@.contains(b),
    ensures
        final(seen)@ == old(seen)@ + r.boxes@,
        old(seen)@.disjoint(r.boxes@),
        region_ok(p, r),
        r.kind == RegionKind::Loop,
        r.boxes@.contains(start as int),
{
    let ghost seen0 = seen@;
    let ghost all = Set::new(|b: int| is_corridor(p, b));
    let mut boxes = BoxBits::new();
    let mut length: u8 = 0;
    let mut cur = start;
    let mut prev = u16::MAX;
    let ghost mut w: Seq<int> = Seq::empty();
    proof {
        vstd::set_lib::lemma_int_range(0, 64);
        assert(boxes@ =~= Set::<int>::empty());
        assert(w.to_set() =~= Set::<int>::empty());
    }
    loop
        invariant_except_break
            is_corridor(p, cur as int),
            !seen@.contains(cur as int),
            w.len() > 0 ==> linked(p, w.last(), cur as int) && prev as int == w.last(),
            w.len() == 0 ==> cur == start && prev == u16::MAX,
            forall|a: int, c: int| #![trigger boxes@.contains(a), linked(p, a, c)]
                boxes@.contains(a) && linked(p, a, c) ==> boxes@.contains(c) || c == cur as int
                    || a == start as int,
        invariant
            p.geom.wf(),
            adj_ok(p, adj@, deg),
            n_boxes == p.geom.nboxes(),
            1 <= n_boxes <= 64,
            all == Set::new(|b: int| is_corridor(p, b)),
            seen0.subset_of(all),
            seen0.finite(),
            links_closed(p, seen0),
            forall|b: int| is_corridor(p, b) && corridor_degree(p, b) <= 1 ==> seen0.contains(b),
            seen@ == seen0 + boxes@,
            seen0.disjoint(boxes@),
            boxes@.subset_of(all),
            boxes@.finite(),
            length == boxes@.len(),
            length <= 64,
            length == w.len(),
            boxes@ == w.to_set(),
            is_walk(p, w),
            w.len() > 0 ==> w[0] == start as int,
            length == 0 ==> cur == start,
            length > 0 ==> boxes@.contains(start as int),
            is_corridor(p, start as int),
            vstd::set_lib::set_int_range(0, 64).finite(),
            vstd::set_lib::set_int_range(0, 64).len() == 64,
        ensures
            length >= 1,
            seen@ == seen0 + boxes@,
            seen0.disjoint(boxes@),
            boxes@.subset_of(all),
            boxes@.finite(),
            length == boxes@.len(),
            boxes@.contains(start as int),
            boxes@ == w.to_set(),
            is_walk(p, w),
            links_closed(p, boxes@),
        decreases 64 - length,
    {
        if cur >= n_boxes || seen.get(cur) {
            break;
        }
        let ghost u = cur as int;
        let ghost w0 = w;
        let ghost b0 = boxes@;
        seen.set(cur);
        boxes.set(cur);
        proof {
            assert(boxes@.subset_of(vstd::set_lib::set_int_range(0, 64)));
            vstd::set_lib::lemma_len_subset(boxes@, vstd::set_lib::set_int_range(0, 64));
            assert(seen@ =~= seen0 + boxes@);
            lemma_walk_push(p, w0, u);
            w = w0.push(u);
            crate::moves::lemma_push_to_set(w0, u);
            assert(boxes@ =~= b0.insert(u));
        }
        length += 1;
        proof {
            lemma_slots(p, adj@, deg, cur as int);
        }
        let nxt = next_unseen(cur, prev, adj, *seen);
        prev = cur;
        match nxt {
            Some(n) => {
                proof {
                    assert(linked(p, u, n as int));
                    assert forall|a: int, c: int|
                        #![trigger boxes@.contains(a), linked(p, a, c)]
                        boxes@.contains(a) && linked(p, a, c) implies boxes@.contains(c) || c
                        == n as int || a == start as int by {
                        if a == u {
                            if c != n as int && !boxes@.contains(c) && a != start as int {
                                lemma_linked_symmetric(p, w0.last(), u);
                                assert(w0.contains(w0.last()));
                                lemma_three_neighbours(p, u, n as int, c, w0.last());
                            }
                        } else {
                            assert(b0.contains(a));
                        }
                    }
                }
                cur = n;
            },
            None => {
                proof {
                    assert forall|c: int| #[trigger] linked(p, u, c) implies boxes@.contains(c) by {
                        assert(c == adj@[2 * u] as int || c == adj@[2 * u + 1] as int);
                        if w0.len() > 0 && c == w0.last() {
                            assert(w0.contains(w0.last()));
                        } else if seen0.contains(c) {
                            lemma_linked_symmetric(p, u, c);
                        }
                    }
                    assert forall|k: int| 0 <= k < w.len() implies is_corridor(p, #[trigger] w[k])
                        && neighbours(p, w[k]).len() >= 2 by {
                        assert(w.contains(w[k]));
                        assert(boxes@.contains(w[k]));
                        assert(!seen0.contains(w[k]));
                        assert(is_corridor(p, w[k]));
                        if corridor_degree(p, w[k]) <= 1 {
                            assert(seen0.contains(w[k]));
                        }
                    }
                    assert forall|c: int| #[trigger] linked(p, w.last(), c) implies w.contains(c) by {
                        assert(w.last() == u);
                        assert(boxes@.contains(c));
                    }
                    lemma_cycle_closes(p, w);
                    assert forall|a: int, c: int|
                        #![trigger boxes@.contains(a), linked(p, a, c)]
                        boxes@.contains(a) && linked(p, a, c) implies boxes@.contains(c) by {
                        if a == u {
                        } else if a == start as int {
                            assert(w[0] == a);
                            assert(w.contains(c));
                        } else {
                            assert(b0.contains(a));
                        }
                    }
                }
                break;
            },
        }
    }
    let r = region_from_boxes(boxes, length, true);
    proof {
        assert forall|b: int| r.boxes@.contains(b) implies corridor_degree(p, b) >= 2 by {
            assert(!seen0.contains(b));
        }
        assert(is_walk(p, w) && w.to_set() == r.boxes@);
    }
    r
}

/// Record `region` and bump the counter for its kind.
fn push_region(
    region: Region,
    regions: &mut [Region; MAX_REGIONS],
    region_count: &mut u8,
    long_chain_count: &mut u8,
    short_chain_count: &mut u8,
    loop_count: &mut u8,
)
    requires
        region.length > 0,
        *old(region_count) < MAX_REGIONS,
        *old(long_chain_count) < 255,
        *old(short_chain_count) < 255,
        *old(loop_count) < 255,
    ensures
        *final(region_count) == *old(region_count) + 1,
        final(regions)@ == old(regions)@.update(*old(region_count) as int, region),
        *final(long_chain_count) == if region.kind == RegionKind::LongChain {
            *old(long_chain_count) + 1
        } else {
            *old(long_chain_count) as int
        },
        *final(short_chain_count) == if region.kind == RegionKind::ShortChain {
            *old(short_chain_count) + 1
        } else {
            *old(short_chain_count) as int
        },
        *final(loop_count) == if region.kind == RegionKind::Loop {
            *old(loop_count) + 1
        } else {
            *old(loop_count) as int
        },
{
    if region.length == 0 || *region_count as usize >= MAX_REGIONS {
        return;
    }
    match region.kind {
        RegionKind::LongChain => *long_chain_count += 1,
        RegionKind::ShortChain => *short_chain_count += 1,
        RegionKind::Loop => *loop_count += 1,
    }
    regions[*region_count as usize] = region;
    *region_count += 1;
}

/// Each region's boxes lie in the union.
proof fn lemma_region_in_union(rs: Seq<Region>, i: int)
    requires
        0 <= i < rs.len(),
    ensures
        rs[i].boxes@.subset_of(union_boxes(rs)),
    decreases rs.len(),
{
    if i < rs.len() - 1 {
        lemma_region_in_union(rs.drop_last(), i);
        assert(rs.drop_last()[i] == rs[i]);
    }
}

/// Correct adjacency tables for the corridor graph.
fn corridor_adj(pos: Position, geom: BoardGeom, n_boxes: u16, corridor: BoxBits) -> (r: (
    [u16; 128],
    [u8; MAX_REGIONS],
))
    requires
        geom == pos@.geom,
        n_boxes == geom.nboxes(),
        corridor@ == Set::new(|b: int| is_corridor(pos@, b)),
    ensures
        adj_ok(pos@, r.0@, r.1@),
{
    let ghost p = pos@;
    let mut adj = [u16::MAX; 128];
    let mut deg = [0u8; MAX_REGIONS];
    proof {
        use_type_invariant(geom);
        geom.lemma_bounds();
    }
    let mut id: u16 = 0;
    while id < n_boxes
        invariant
            p == pos@,
            geom == p.geom,
            geom.wf(),
            n_boxes == geom.nboxes(),
            1 <= n_boxes <= 64,
            id <= n_boxes,
            corridor@ == Set::new(|b: int| is_corridor(p, b)),
            forall|b: int| 0 <= b < id ==> #[trigger] box_adj_ok(p, adj@, deg@, b),
            forall|b: int| id <= b < MAX_REGIONS ==> #[trigger] untouched(adj@, deg@, b),
        decreases n_boxes - id,
    {
        let ghost b = id as int;
        proof {
            assert(untouched(adj@, deg@, b));
        }
        if !corridor.get(id) {
            proof {
                assert(box_adj_ok(p, adj@, deg@, b));
            }
            id += 1;
            continue;
        }
        let (row, col) = match geom.box_coord(id) {
            Some(rc) => rc,
            None => {
                id += 1;
                continue;
            },
        };
        proof {
            geom.lemma_bounds();
            crate::board::lemma_div_small(id as int, geom.ncols(), geom.nrows());
            geom.lemma_box_sides_in_range(id as int);
            lemma_neighbours(p, b);
            assert(neighbour_list(p, b, 0) =~= Seq::<int>::empty());
        }
        let edges = match geom.box_edges(row, col) {
            Some(e) => e,
            None => {
                id += 1;
                continue;
            },
        };
        let base = 2 * id as usize;
        let mut i: usize = 0;
        while i < 4
            invariant
                p == pos@,
                geom == p.geom,
                geom.wf(),
                n_boxes == geom.nboxes(),
                1 <= n_boxes <= 64,
                0 <= b < n_boxes,
                b == id,
                base == 2 * b,
                i <= 4,
                is_corridor(p, b),
                neighbours(p, b).len() <= 2,
                corridor@ == Set::new(|x: int| is_corridor(p, x)),
                forall|k: int| 0 <= k < 4 ==> edges[k] as int == geom.box_sides(b)[k],
                forall|k: int| 0 <= k < 4 ==> 0 <= #[trigger] geom.box_sides(b)[k] < geom.nedges(),
                slots_hold(adj@, deg@, b, neighbour_list(p, b, i as int)),
                forall|x: int| 0 <= x < b ==> #[trigger] box_adj_ok(p, adj@, deg@, x),
                forall|x: int| b < x < MAX_REGIONS ==> #[trigger] untouched(adj@, deg@, x),
            decreases 4 - i,
        {
            let e = edges[i];
            let ghost si = i as int;
            let ghost x = geom.across_box(b, si);
            proof {
                lemma_neighbour_list_grows(p, b, si + 1, 4);
                assert(neighbour_list(p, b, si + 1) == neighbour_list(p, b, si) + if joins(
                    p,
                    b,
                    si,
                    x,
                ) {
                    seq![x]
                } else {
                    Seq::empty()
                });
            }
            if pos.edge_is_drawn(e) {
                proof {
                    assert(neighbour_list(p, b, si + 1) =~= neighbour_list(p, b, si));
                }
                i += 1;
                continue;
            }
            let mut touching = [0u16; 2];
            let n = geom.boxes_touching_edge(e, &mut touching);
            proof {
                lemma_side_partners(geom, b, si);
            }
            let ghost t = geom.touching(e as int);
            let mut j: usize = 0;
            while j < n
                invariant
                    p == pos@,
                    geom == p.geom,
                    geom.wf(),
                    n_boxes == geom.nboxes(),
                    1 <= n_boxes <= 64,
                    0 <= b < n_boxes,
                    b == id,
                    base == 2 * b,
                    i < 4,
                    si == i,
                    j <= n,
                    n == t.len(),
                    n <= 2,
                    t == geom.touching(e as int),
                    e as int == geom.box_sides(b)[si],
                    x == geom.across_box(b, si),
                    !p.drawn.contains(e as int),
                    n == 2 ==> t[0] != t[1],
                    forall|k: int| 0 <= k < n ==> touching[k] as int == t[k],
                    forall|k: int| 0 <= k < n ==> 0 <= #[trigger] t[k] < geom.nboxes(),
                    forall|k: int|
                        0 <= k < n && #[trigger] t[k] != b ==> geom.has_across(b, si) && t[k] == x,
                    joins(p, b, si, x) ==> neighbour_list(p, b, si).len() < 2,
                    corridor@ == Set::new(|y: int| is_corridor(p, y)),
                    slots_hold(
                        adj@,
                        deg@,
                        b,
                        neighbour_list(p, b, si) + if found_in(p, b, t, j as int) {
                            seq![x]
                        } else {
                            Seq::empty()
                        },
                    ),
                    forall|y: int| 0 <= y < b ==> #[trigger] box_adj_ok(p, adj@, deg@, y),
                    forall|y: int| b < y < MAX_REGIONS ==> #[trigger] untouched(adj@, deg@, y),
                decreases n - j,
            {
                let other = touching[j];
                proof {
                    assert(other as int == t[j as int]);
                }
                if other == id || !corridor.get(other) {
                    proof {
                        assert(found_in(p, b, t, j + 1) == found_in(p, b, t, j as int));
                    }
                    j += 1;
                    continue;
                }
                proof {
                    assert(joins(p, b, si, x));
                    assert(!found_in(p, b, t, j as int));
                }
                let d = deg[id as usize];
                let ghost adj0 = adj@;
                let ghost deg0 = deg@;
                if d < 2 {
                    adj[base + d as usize] = other;
                    deg[id as usize] = d + 1;
                    proof {
                        assert forall|y: int| 0 <= y < b implies #[trigger] box_adj_ok(p, adj@, deg@, y) by {
                            assert(box_adj_ok(p, adj0, deg0, y));
                            assert(adj@[2 * y] == adj0[2 * y] && adj@[2 * y + 1] == adj0[2 * y + 1]);
                        }
                        assert forall|y: int| b < y < MAX_REGIONS implies #[trigger] untouched(adj@, deg@, y) by {
                            assert(untouched(adj0, deg0, y));
                        }
                    }
                }
                proof {
                    assert(found_in(p, b, t, j + 1));
                }
                j += 1;
            }
            proof {
                if joins(p, b, si, x) {
                    let k = choose|k: int| 0 <= k < t.len() && t[k] == x;
                    assert(t[k] != b);
                    assert(found_in(p, b, t, n as int));
                }
                assert(neighbour_list(p, b, si + 1) =~= neighbour_list(p, b, si) + if found_in(
                    p,
                    b,
                    t,
                    n as int,
                ) {
                    seq![x]
                } else {
                    Seq::empty()
                });
            }
            i += 1;
        }
        proof {
            assert(box_adj_ok(p, adj@, deg@, b));
        }
        id += 1;
    }
    proof {
        assert forall|b: int| 0 <= b < MAX_REGIONS implies #[trigger] box_adj_ok(p, adj@, deg@, b) by {
            if b >= n_boxes {
                assert(untouched(adj@, deg@, b));
                assert(!is_corridor(p, b));
            }
        }
    }
    (adj, deg)
}

/// A box whose adjacency slots are still empty.
pub open spec fn untouched(adj: Seq<u16>, deg: Seq<u8>, b: int) -> bool {
    deg[b] == 0 && adj[2 * b] == u16::MAX && adj[2 * b + 1] == u16::MAX
}

/// One of the first `j` boxes of `t` is a corridor box other than `b`.
spec fn found_in(p: PositionView, b: int, t: Seq<int>, j: int) -> bool {
    ||| (j > 0 && t.len() > 0 && t[0] != b && is_corridor(p, t[0]))
    ||| (j > 1 && t.len() > 1 && t[1] != b && is_corridor(p, t[1]))
}

/// The slots of box `b` list exactly `l`; unused slots hold `u16::MAX`.
pub open spec fn slots_hold(adj: Seq<u16>, deg: Seq<u8>, b: int, l: Seq<int>) -> bool {
    &&& deg[b] == l.len()
    &&& (0 < l.len() ==> adj[2 * b] as int == l[0])
    &&& (1 < l.len() ==> adj[2 * b + 1] as int == l[1])
    &&& (l.len() <= 0 ==> adj[2 * b] == u16::MAX)
    &&& (l.len() <= 1 ==> adj[2 * b + 1] == u16::MAX)
}

/// The adjacency facts for one box: a corridor box lists its neighbours, any
/// other box lists nothing.
pub open spec fn box_adj_ok(p: PositionView, adj: Seq<u16>, deg: Seq<u8>, b: int) -> bool {
    if is_corridor(p, b) {
        slots_hold(adj, deg, b, neighbours(p, b))
    } else {
        untouched(adj, deg, b)
    }
}

/// The adjacency slots of `b` are empty or hold boxes linked to it, every box
/// linked to it is in a slot, and the two slots differ when both are used.
proof fn lemma_slots(p: PositionView, adj: Seq<u16>, deg: Seq<u8>, b: int)
    requires
        p.geom.wf(),
        adj_ok(p, adj, deg),
        0 <= b < MAX_REGIONS,
    ensures
        adj[2 * b] == u16::MAX || (adj[2 * b] < 64 && linked(p, b, adj[2 * b] as int)),
        adj[2 * b + 1] == u16::MAX || (adj[2 * b + 1] < 64 && linked(p, b, adj[2 * b + 1] as int)),
        adj[2 * b] != u16::MAX && adj[2 * b + 1] != u16::MAX ==> adj[2 * b] != adj[2 * b + 1],
        forall|c: int| #[trigger] linked(p, b, c) ==> c == adj[2 * b] as int || c == adj[2 * b + 1] as int,
        is_corridor(p, b) ==> deg[b] == corridor_degree(p, b) && deg[b] <= 2,
{
    assert(box_adj_ok(p, adj, deg, b));
    p.geom.lemma_bounds();
    if is_corridor(p, b) {
        lemma_neighbours(p, b);
        let l = neighbours(p, b);
        if l.len() > 0 {
            assert(linked(p, b, l[0]));
        }
        if l.len() > 1 {
            assert(linked(p, b, l[1]));
        }
        assert forall|c: int| #[trigger] linked(p, b, c) implies c == adj[2 * b] as int || c
            == adj[2 * b + 1] as int by {
            assert(l.contains(c));
        }
    }
}

/// First neighbour of `cur` other than `prev` that is not yet seen.
fn next_unseen(cur: BoxId, prev: BoxId, adj: &[u16; 128], seen: BoxBits) -> (r: Option<BoxId>)
    requires
        cur < MAX_REGIONS,
        adj@[2 * cur] == u16::MAX || adj@[2 * cur] < 128,
        adj@[2 * cur + 1] == u16::MAX || adj@[2 * cur + 1] < 128,
    ensures
        r matches Some(n) ==> (n == adj@[2 * cur] || n == adj@[2 * cur + 1]) && n != u16::MAX && n
            != prev && !seen@.contains(n as int),
        r is None ==> (adj@[2 * cur] == u16::MAX || adj@[2 * cur] == prev || seen@.contains(
            adj@[2 * cur] as int,
        )),
        r is None ==> (adj@[2 * cur + 1] == u16::MAX || adj@[2 * cur + 1] == prev || seen@.contains(
            adj@[2 * cur + 1] as int,
        )),
{
    let base = 2 * cur as usize;
    let mut k: usize = 0;
    while k < 2
        invariant
            k <= 2,
            base == 2 * cur,
            cur < MAX_REGIONS,
            adj@[2 * cur] == u16::MAX || adj@[2 * cur] < 128,
            adj@[2 * cur + 1] == u16::MAX || adj@[2 * cur + 1] < 128,
            k > 0 ==> (adj@[2 * cur] == u16::MAX || adj@[2 * cur] == prev || seen@.contains(
                adj@[2 * cur] as int,
            )),
            k > 1 ==> (adj@[2 * cur + 1] == u16::MAX || adj@[2 * cur + 1] == prev || seen@.contains(
                adj@[2 * cur + 1] as int,
            )),
        decreases 2 - k,
    {
        let n = adj[base + k];
        if n != u16::MAX && n != prev && !seen.get(n) {
            return Some(n);
        }
        k += 1;
    }
    None
}

fn region_from_boxes(boxes: BoxBits, length: u8, is_loop: bool) -> (r: Region)
    ensures
        r.boxes == boxes,
        r.length == length,
        r.kind == if is_loop {
            RegionKind::Loop
        } else if length >= 3 {
            RegionKind::LongChain
        } else {
            RegionKind::ShortChain
        },
{
    let kind = if is_loop {
        RegionKind::Loop
    } else if length >= 3 {
        RegionKind::LongChain
    } else {
        RegionKind::ShortChain
    };
    Region { kind, length, boxes }
}

} // verus!
