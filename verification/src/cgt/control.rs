//! Control decisions on top of the endgame analysis: which corridor a takeable
//! box is attached to, when to refuse a capture, and which edges open a region.
use vstd::prelude::*;

use crate::board::{BoxId, EdgeId, Position, PositionView};
use crate::cgt::{
    analysis_of, find_region, is_takeable, lemma_first_unique, EndgameAnalysis, Region, RegionKind,
    MAX_REGIONS,
};
use crate::game::{Game, GameView};

verus! {

/// The members of `s` below `k`, ascending.
pub open spec fn ids_below(s: Set<int>, k: int) -> Seq<u16>
    decreases k,
{
    if k <= 0 {
        Seq::empty()
    } else {
        ids_below(s, k - 1) + if s.contains(k - 1) {
            seq![(k - 1) as u16]
        } else {
            Seq::<u16>::empty()
        }
    }
}

/// Takeable boxes (unclaimed, three sides drawn), ascending.
pub open spec fn takeable_ids(p: PositionView) -> Seq<u16> {
    ids_below(Set::new(|b: int| is_takeable(p, b)), p.geom.nboxes())
}

/// Unclaimed boxes with exactly three sides drawn.
pub fn takeable_box_ids(pos: Position) -> (r: Vec<BoxId>)
    ensures
        r@ == takeable_ids(pos@),
{
    let ghost p = pos@;
    let ghost t = Set::new(|b: int| is_takeable(p, b));
    let n = pos.geom().box_count();
    let mut out: Vec<BoxId> = Vec::new();
    let mut id: u16 = 0;
    while id < n
        invariant
            p == pos@,
            t == Set::new(|b: int| is_takeable(p, b)),
            n == p.geom.nboxes(),
            id <= n,
            out@ == ids_below(t, id as int),
        decreases n - id,
    {
        if !pos.box_is_claimed(id) && pos.sides_drawn(id) == 3 {
            out.push(id);
        }
        proof {
            assert(t.contains(id as int) == is_takeable(p, id as int));
        }
        id += 1;
    }
    out
}

/// Boxes across side `i` of box `b` (both boxes of the edge) when that side is undrawn.
pub open spec fn side_boxes(p: PositionView, b: int, i: int) -> Seq<int> {
    let e = p.geom.box_sides(b)[i];
    if p.drawn.contains(e) {
        Seq::empty()
    } else {
        p.geom.touching(e)
    }
}

/// Boxes across the first `i` sides of `b`, in scan order.
pub open spec fn across(p: PositionView, b: int, i: int) -> Seq<int>
    decreases i,
{
    if i <= 0 {
        Seq::empty()
    } else {
        across(p, b, i - 1) + side_boxes(p, b, i - 1)
    }
}

/// Index of the region of the first box of `cs` other than `b` that lies in a region.
pub open spec fn first_hit(rs: Seq<Region>, cs: Seq<int>, b: int) -> Option<int>
    decreases cs.len(),
{
    if cs.len() == 0 {
        None
    } else {
        let prev = first_hit(rs, cs.drop_last(), b);
        if prev is Some {
            prev
        } else if cs.last() != b {
            find_region(rs, cs.last())
        } else {
            None
        }
    }
}

/// Index of the region attached to box `b` across an undrawn side, if any.
pub open spec fn attached_index(p: PositionView, rs: Seq<Region>, b: int) -> Option<int> {
    if 0 <= b < p.geom.nboxes() {
        first_hit(rs, across(p, b, 4), b)
    } else {
        None
    }
}

/// A hit found in a prefix is the hit of any extension.
proof fn lemma_first_hit_append(rs: Seq<Region>, s1: Seq<int>, s2: Seq<int>, b: int)
    requires
        first_hit(rs, s1, b) is Some,
    ensures
        first_hit(rs, s1 + s2, b) == first_hit(rs, s1, b),
    decreases s2.len(),
{
    if s2.len() == 0 {
        assert(s1 + s2 =~= s1);
    } else {
        lemma_first_hit_append(rs, s1, s2.drop_last(), b);
        assert((s1 + s2).drop_last() =~= s1 + s2.drop_last());
    }
}

/// A hit across the first `i` sides is the hit across all four.
proof fn lemma_first_hit_across(p: PositionView, rs: Seq<Region>, b: int, i: int, k: int)
    requires
        0 <= i <= k,
        first_hit(rs, across(p, b, i), b) is Some,
    ensures
        first_hit(rs, across(p, b, k), b) == first_hit(rs, across(p, b, i), b),
    decreases k - i,
{
    if i < k {
        lemma_first_hit_across(p, rs, b, i, k - 1);
        lemma_first_hit_append(rs, across(p, b, k - 1), side_boxes(p, b, k - 1), b);
    }
}

/// Corridor region sharing an undrawn edge with a takeable box, if any.
pub fn attached_region(pos: Position, analysis: &EndgameAnalysis, takeable: BoxId) -> (r: Option<
    &Region,
>)
    requires
        analysis.spec_region_count() <= MAX_REGIONS,
    ensures
        r matches Some(reg) ==> attached_index(pos@, analysis.spec_regions(), takeable as int)
            matches Some(i) && *reg == analysis.spec_regions()[i],
        r is None ==> attached_index(pos@, analysis.spec_regions(), takeable as int) is None,
{
    let ghost p = pos@;
    let ghost rs = analysis.spec_regions();
    let ghost b = takeable as int;
    let geom = pos.geom();
    let (row, col) = match geom.box_coord(takeable) {
        Some(rc) => rc,
        None => return None,
    };
    proof {
        use_type_invariant(geom);
        geom.lemma_bounds();
        crate::board::lemma_div_small(b, geom.ncols(), geom.nrows());
        geom.lemma_box_sides_in_range(b);
    }
    let edges = match geom.box_edges(row, col) {
        Some(e) => e,
        None => return None,
    };
    let mut i: usize = 0;
    while i < 4
        invariant
            p == pos@,
            geom == p.geom,
            p.geom.wf(),
            rs == analysis.spec_regions(),
            analysis.spec_region_count() <= MAX_REGIONS,
            0 <= b < p.geom.nboxes(),
            p.geom.nboxes() <= 64,
            b == takeable,
            i <= 4,
            forall|k: int| 0 <= k < 4 ==> edges[k] as int == p.geom.box_sides(b)[k],
            forall|k: int| 0 <= k < 4 ==> 0 <= #[trigger] p.geom.box_sides(b)[k] < p.geom.nedges(),
            first_hit(rs, across(p, b, i as int), b) is None,
        decreases 4 - i,
    {
        let e = edges[i];
        proof {
            assert(e as int == p.geom.box_sides(b)[i as int]);
        }
        if pos.edge_is_drawn(e) {
            proof {
                assert(across(p, b, i + 1) =~= across(p, b, i as int));
            }
            i += 1;
            continue;
        }
        let mut touching = [0u16; 2];
        let n = geom.boxes_touching_edge(e, &mut touching);
        proof {
            p.geom.lemma_touching_in_range(e as int);
        }
        let ghost t = p.geom.touching(e as int);
        let ghost pre = across(p, b, i as int);
        let mut j: usize = 0;
        while j < n
            invariant
                p == pos@,
                rs == analysis.spec_regions(),
                analysis.spec_region_count() <= MAX_REGIONS,
                b == takeable,
                0 <= b < p.geom.nboxes(),
                p.geom.nboxes() <= 64,
                i < 4,
                e as int == p.geom.box_sides(b)[i as int],
                !p.drawn.contains(e as int),
                t == p.geom.touching(e as int),
                pre == across(p, b, i as int),
                j <= n,
                n == t.len(),
                n <= 2,
                forall|k: int| 0 <= k < n ==> touching[k] as int == t[k],
                forall|k: int| 0 <= k < n ==> 0 <= #[trigger] t[k] < p.geom.nboxes(),
                first_hit(rs, pre + t.subrange(0, j as int), b) is None,
            decreases n - j,
        {
            let other = touching[j];
            let ghost cs = pre + t.subrange(0, j + 1);
            proof {
                assert(other as int == t[j as int]);
                assert(cs.drop_last() =~= pre + t.subrange(0, j as int));
                assert(cs.last() == other as int);
            }
            if other != takeable {
                match analysis.region_containing(other) {
                    Some(reg) => {
                        proof {
                            assert(first_hit(rs, cs, b) == find_region(rs, other as int));
                            lemma_first_hit_append(rs, cs, t.subrange(j + 1, n as int), b);
                            assert(cs + t.subrange(j + 1, n as int) =~= pre + t);
                            assert(across(p, b, i + 1) =~= pre + t);
                            lemma_first_hit_across(p, rs, b, i + 1, 4);
                        }
                        return Some(reg);
                    },
                    None => {},
                }
            }
            j += 1;
        }
        proof {
            assert(t.subrange(0, n as int) =~= t);
            assert(across(p, b, i + 1) =~= pre + t);
        }
        i += 1;
    }
    None
}

/// A remnant `r` next to a takeable box that should be left for the opponent:
/// a short chain of two while another control region remains, or a loop of
/// four while another long chain or a second loop remains.
pub open spec fn triggers_refuse(r: Region, a: EndgameAnalysis) -> bool {
    ||| r.kind == RegionKind::ShortChain && r.length == 2 && a.long_chain_count + a.loop_count > 0
    ||| r.kind == RegionKind::Loop && r.length == 4 && (a.long_chain_count > 0 || a.loop_count > 1)
}

fn remnant_triggers_refuse(r: &Region, analysis: &EndgameAnalysis) -> (b: bool)
    ensures
        b == triggers_refuse(*r, *analysis),
{
    (r.kind == RegionKind::ShortChain && r.length == 2 && (analysis.long_chain_count > 0
        || analysis.loop_count > 0)) || (r.kind == RegionKind::Loop && r.length == 4 && (
    analysis.long_chain_count > 0 || analysis.loop_count > 1))
}

/// The refusal remnant found scanning boxes `0..k` in order.
pub open spec fn refuse_below(p: PositionView, a: EndgameAnalysis, k: int) -> Option<Region>
    decreases k,
{
    if k <= 0 {
        None
    } else {
        let prev = refuse_below(p, a, k - 1);
        if prev is Some {
            prev
        } else if is_takeable(p, k - 1) {
            match attached_index(p, a.spec_regions(), k - 1) {
                Some(i) => if triggers_refuse(a.spec_regions()[i], a) {
                    Some(a.spec_regions()[i])
                } else {
                    None
                },
                None => None,
            }
        } else {
            None
        }
    }
}

/// The region to leave alone when refusing a capture, per analysis `a` of `p`.
pub open spec fn refusal(p: PositionView, a: EndgameAnalysis) -> Option<Region> {
    if !a.decomposed {
        None
    } else {
        refuse_below(p, a, p.geom.nboxes())
    }
}

/// A remnant found among the first boxes stays the result of a longer scan.
proof fn lemma_refuse_below_mono(p: PositionView, a: EndgameAnalysis, k: int, n: int)
    requires
        0 <= k <= n,
        refuse_below(p, a, k) is Some,
    ensures
        refuse_below(p, a, n) == refuse_below(p, a, k),
    decreases n - k,
{
    if k < n {
        lemma_refuse_below_mono(p, a, k, n - 1);
    }
}

/// Box `c` is takeable and its attached region is one to leave for the
/// opponent: a short chain of two while a long chain or a loop remains, or a
/// loop of four while a long chain or another loop remains.
pub open spec fn refuses_at(p: PositionView, a: EndgameAnalysis, c: int) -> bool {
    is_takeable(p, c) && (attached_index(p, a.spec_regions(), c) matches Some(i) && ({
        let r = a.spec_regions()[i];
        ||| r.kind == RegionKind::ShortChain && r.length == 2 && (a.long_chain_count > 0 || a.loop_count > 0)
        ||| r.kind == RegionKind::Loop && r.length == 4 && (a.long_chain_count > 0 || a.loop_count >= 2)
    }))
}

/// The scan over boxes `0..k` returns the region attached to the first box
/// below `k` that refuses, and nothing when no box below `k` does.
proof fn lemma_refuse_first(p: PositionView, a: EndgameAnalysis, k: int)
    ensures
        refuse_below(p, a, k) is None ==> forall|c: int| 0 <= c < k ==> !#[trigger] refuses_at(p, a, c),
        refuse_below(p, a, k) matches Some(r) ==> exists|c: int|
            0 <= c < k && #[trigger] refuses_at(p, a, c) && a.spec_regions()[attached_index(
                p,
                a.spec_regions(),
                c,
            )->0] == r && forall|d: int| 0 <= d < c ==> !#[trigger] refuses_at(p, a, d),
    decreases k,
{
    if k > 0 {
        lemma_refuse_first(p, a, k - 1);
        if refuse_below(p, a, k - 1) is None {
            assert(refuses_at(p, a, k - 1) == (refuse_below(p, a, k) is Some));
            if refuse_below(p, a, k) is Some {
                assert(refuses_at(p, a, k - 1));
            }
        }
    }
}

/// Refusing a capture, in terms of the position and its analysis: in a
/// decomposed position, the refused remnant is the region attached to the
/// first box that is takeable and attached to a short chain of two while any
/// long chain or loop remains, or to a loop of four while a long chain or
/// another loop remains; when no box is, or the position is not decomposed,
/// nothing is refused.
pub proof fn law_refusal(p: PositionView, a: EndgameAnalysis, b: int)
    ensures
        !a.decomposed ==> refusal(p, a) is None,
        a.decomposed && 0 <= b < p.geom.nboxes() && refuses_at(p, a, b) ==> refusal(p, a) is Some,
        a.decomposed && (forall|c: int| 0 <= c < p.geom.nboxes() ==> !#[trigger] refuses_at(p, a, c))
            ==> refusal(p, a) is None,
        refusal(p, a) matches Some(r) ==> {
            &&& a.decomposed
            &&& exists|c: int|
                0 <= c < p.geom.nboxes() && #[trigger] refuses_at(p, a, c) && a.spec_regions()[attached_index(
                    p,
                    a.spec_regions(),
                    c,
                )->0] == r && forall|d: int| 0 <= d < c ==> !#[trigger] refuses_at(p, a, d)
        },
{
    lemma_refuse_first(p, a, p.geom.nboxes());
    if a.decomposed && 0 <= b < p.geom.nboxes() && refuses_at(p, a, b) {
        assert(refuses_at(p, a, b));
    }
}

/// Corridor attached to a takeable that should be double-crossed / all-but-four.
pub fn refuse_remnant(game: &Game, analysis: &EndgameAnalysis) -> (r: Option<Region>)
    requires
        analysis.spec_region_count() <= MAX_REGIONS,
    ensures
        r == refusal(game@.pos, *analysis),
{
    if !analysis.decomposed {
        return None;
    }
    let pos = game.position();
    let ghost p = pos@;
    let n = pos.geom().box_count();
    let mut id: u16 = 0;
    while id < n
        invariant
            p == pos@,
            p == game@.pos,
            n == p.geom.nboxes(),
            analysis.spec_region_count() <= MAX_REGIONS,
            analysis.decomposed,
            id <= n,
            refuse_below(p, *analysis, id as int) is None,
        decreases n - id,
    {
        if pos.box_is_claimed(id) || pos.sides_drawn(id) != 3 {
            id += 1;
            continue;
        }
        match attached_region(pos, analysis, id) {
            Some(r) => {
                if remnant_triggers_refuse(r, analysis) {
                    proof {
                        lemma_refuse_below_mono(p, *analysis, id + 1, n as int);
                    }
                    return Some(*r);
                }
            },
            None => {},
        }
        id += 1;
    }
    None
}

/// True when taking now would give up control (double-cross / all-but-four).
pub fn should_refuse_capture(game: &Game) -> (r: bool)
    ensures
        r == (refusal(game@.pos, analysis_of(game@.pos, game@.current)) is Some),
{
    let analysis = crate::cgt::analyze_endgame(game);
    let r = refuse_remnant(game, &analysis);
    r.is_some()
}

/// Remnant that triggered refuse, if any. Same predicate as [`should_refuse_capture`].
pub fn refuse_skip_region(game: &Game) -> (r: Option<Region>)
    ensures
        r == refusal(game@.pos, analysis_of(game@.pos, game@.current)),
{
    let analysis = crate::cgt::analyze_endgame(game);
    refuse_remnant(game, &analysis)
}

/// Region-kind code for [`RegionKind::ShortChain`] in the flat dump.
pub const REGION_KIND_SHORT: u16 = 0;

/// Region-kind code for [`RegionKind::LongChain`] in the flat dump.
pub const REGION_KIND_LONG: u16 = 1;

/// Region-kind code for [`RegionKind::Loop`] in the flat dump.
pub const REGION_KIND_LOOP: u16 = 2;

/// The dump code of a region kind.
pub open spec fn kind_code(k: RegionKind) -> u16 {
    match k {
        RegionKind::ShortChain => REGION_KIND_SHORT,
        RegionKind::LongChain => REGION_KIND_LONG,
        RegionKind::Loop => REGION_KIND_LOOP,
    }
}

/// One region in the dump: kind, length, member count, then the members ascending.
pub open spec fn region_words(r: Region, n: int) -> Seq<u16> {
    let ids = ids_below(r.boxes@, n);
    seq![kind_code(r.kind), r.length as u16, ids.len() as u16] + ids
}

/// The dump of a sequence of regions.
pub open spec fn regions_words(rs: Seq<Region>, n: int) -> Seq<u16>
    decreases rs.len(),
{
    if rs.len() == 0 {
        Seq::empty()
    } else {
        regions_words(rs.drop_last(), n) + region_words(rs.last(), n)
    }
}

/// The eight header words of the dump.
pub open spec fn header_words(a: EndgameAnalysis) -> Seq<u16> {
    seq![
        if a.decomposed {
            1u16
        } else {
            0u16
        },
        a.long_chain_count as u16,
        a.short_chain_count as u16,
        a.loop_count as u16,
        a.takeable_count as u16,
        a.long_chain_parity as u16,
        a.target_parity as u16,
        a.region_count as u16,
    ]
}

/// Flat dump of analysis `a` of position `p`: header, regions, takeable boxes.
pub open spec fn encoding(a: EndgameAnalysis, p: PositionView) -> Seq<u16> {
    header_words(a) + regions_words(a.spec_regions(), p.geom.nboxes()) + takeable_ids(p)
}

/// `ids_below` lists at most `k` ids.
proof fn lemma_ids_below_len(s: Set<int>, k: int)
    ensures
        ids_below(s, k).len() <= if k <= 0 {
            0
        } else {
            k
        },
    decreases k,
{
    if k > 0 {
        lemma_ids_below_len(s, k - 1);
    }
}

/// Members of `bits` below `n`, ascending.
fn set_ids(bits: &crate::bitboard::BoxBits, n: u16) -> (r: Vec<u16>)
    requires
        n <= 128,
    ensures
        r@ == ids_below(bits@, n as int),
{
    let mut out: Vec<u16> = Vec::new();
    let mut id: u16 = 0;
    while id < n
        invariant
            id <= n,
            n <= 128,
            out@ == ids_below(bits@, id as int),
        decreases n - id,
    {
        if bits.get(id) {
            out.push(id);
        }
        id += 1;
    }
    out
}

/// Append `tail` to `out`.
pub(crate) fn push_all(out: &mut Vec<u16>, tail: &Vec<u16>)
    ensures
        final(out)@ == old(out)@ + tail@,
{
    let ghost base = out@;
    let mut k: usize = 0;
    while k < tail.len()
        invariant
            k <= tail.len(),
            out@ == base + tail@.take(k as int),
        decreases tail.len() - k,
    {
        out.push(tail[k]);
        proof {
            assert(tail@.take(k + 1) =~= tail@.take(k as int).push(tail@[k as int]));
        }
        k += 1;
    }
    proof {
        assert(tail@.take(tail.len() as int) =~= tail@);
    }
}

fn kind_word(k: RegionKind) -> (r: u16)
    ensures
        r == kind_code(k),
{
    match k {
        RegionKind::ShortChain => REGION_KIND_SHORT,
        RegionKind::LongChain => REGION_KIND_LONG,
        RegionKind::Loop => REGION_KIND_LOOP,
    }
}

/// Flat `u16` dump for the overlay: the analysis header, each region (kind,
/// length, member count, members ascending), then the takeable boxes ascending.
pub fn encode_analysis(game: &Game) -> (r: Vec<u16>)
    ensures
        r@ == encoding(analysis_of(game@.pos, game@.current), game@.pos),
{
    let analysis = crate::cgt::analyze_endgame(game);
    let pos = game.position();
    let ghost p = pos@;
    let n = pos.geom().box_count();
    let takeables = takeable_box_ids(pos);
    proof {
        p.geom.lemma_bounds();
    }
    let mut out: Vec<u16> = Vec::new();
    out.push(if analysis.decomposed { 1 } else { 0 });
    out.push(analysis.long_chain_count as u16);
    out.push(analysis.short_chain_count as u16);
    out.push(analysis.loop_count as u16);
    out.push(analysis.takeable_count as u16);
    out.push(analysis.long_chain_parity as u16);
    out.push(analysis.target_parity as u16);
    out.push(analysis.region_count as u16);
    let ghost rs = analysis.spec_regions();
    proof {
        assert(out@ =~= header_words(analysis) + regions_words(rs.take(0), n as int)) by {
            assert(rs.take(0) =~= Seq::<Region>::empty());
        }
    }
    let regions = analysis.regions();
    let mut i: usize = 0;
    while i < regions.len()
        invariant
            p == pos@,
            n == p.geom.nboxes(),
            1 <= n <= 64,
            rs == analysis.spec_regions(),
            regions@ == rs,
            i <= regions.len(),
            out@ == header_words(analysis) + regions_words(rs.take(i as int), n as int),
        decreases regions.len() - i,
    {
        let r = &regions[i];
        let ids = set_ids(&r.boxes, n);
        proof {
            lemma_ids_below_len(r.boxes@, n as int);
        }
        let ghost before = out@;
        out.push(kind_word(r.kind));
        out.push(r.length as u16);
        out.push(ids.len() as u16);
        push_all(&mut out, &ids);
        proof {
            assert(rs.take(i + 1).drop_last() =~= rs.take(i as int));
            assert(rs.take(i + 1).last() == *r);
            assert(out@ =~= header_words(analysis) + regions_words(rs.take(i + 1), n as int));
        }
        i += 1;
    }
    proof {
        assert(rs.take(regions.len() as int) =~= rs);
    }
    push_all(&mut out, &takeables);
    proof {
        assert(out@ =~= encoding(analysis, p));
    }
    out
}

/// Edge `e` also touches a box of `r` other than `b`.
pub open spec fn other_in_region(p: PositionView, r: Region, b: int, e: int) -> bool {
    exists|k: int|
        0 <= k < p.geom.touching(e).len() && p.geom.touching(e)[k] != b && r.boxes@.contains(
            #[trigger] p.geom.touching(e)[k],
        )
}

/// Side `i` of box `b` of `r` is an undrawn edge `e` that opens `r`: a ground
/// string (touching no other box of the region) for a chain, an internal
/// string (between two boxes of the region) for a loop.
pub open spec fn opens_at(p: PositionView, r: Region, b: int, i: int, e: int) -> bool {
    &&& 0 <= b < p.geom.nboxes()
    &&& r.boxes@.contains(b)
    &&& 0 <= i < 4
    &&& p.geom.box_sides(b)[i] == e
    &&& !p.drawn.contains(e)
    &&& if r.kind == RegionKind::Loop {
        other_in_region(p, r, b, e)
    } else {
        !other_in_region(p, r, b, e)
    }
}

/// The edges that open region `r`.
pub open spec fn opening_set(p: PositionView, r: Region) -> Set<int> {
    Set::new(|e: int| exists|b: int, i: int| #[trigger] opens_at(p, r, b, i, e))
}

/// Edges opened from boxes before `b`, or from sides before `i` of box `b`.
pub open spec fn opened_before(p: PositionView, r: Region, b: int, i: int, e: int) -> bool {
    exists|x: int, k: int| (x < b || (x == b && k < i)) && #[trigger] opens_at(p, r, x, k, e)
}

/// Whether the boxes `t[..n]` hold a region box other than `id`.
fn other_member(region: &Region, touching: &[BoxId; 2], n: usize, id: BoxId) -> (r: bool)
    requires
        n <= 2,
        forall|k: int| 0 <= k < n ==> touching[k] < 128,
    ensures
        r == exists|k: int|
            0 <= k < n && touching[k] != id && region.boxes@.contains(#[trigger] touching[k] as int),
{
    let mut j: usize = 0;
    while j < n
        invariant
            j <= n,
            n <= 2,
            forall|k: int| 0 <= k < n ==> touching[k] < 128,
            forall|k: int|
                0 <= k < j ==> !(touching[k] != id && region.boxes@.contains(
                    #[trigger] touching[k] as int,
                )),
        decreases n - j,
    {
        let b = touching[j];
        if b != id && region.boxes.get(b) {
            return true;
        }
        j += 1;
    }
    false
}

/// Legal edges that open `region` (ground string on a chain; internal on a loop),
/// ascending.
pub fn opening_edges(pos: Position, region: &Region) -> (r: Vec<EdgeId>)
    ensures
        r@ == ids_below(opening_set(pos@, *region), pos@.geom.nedges()),
{
    let ghost p = pos@;
    let ghost reg = *region;
    let geom = pos.geom();
    proof {
        use_type_invariant(geom);
        geom.lemma_bounds();
    }
    let mut bits = crate::bitboard::EdgeBits::new();
    let nb = geom.box_count();
    let mut id: u16 = 0;
    while id < nb
        invariant
            p == pos@,
            geom == p.geom,
            p.geom.wf(),
            nb == p.geom.nboxes(),
            1 <= nb <= 64,
            reg == *region,
            id <= nb,
            forall|e: int| #[trigger] bits@.contains(e) <==> opened_before(p, reg, id as int, 0, e),
        decreases nb - id,
    {
        let ghost b = id as int;
        if !region.boxes.get(id) {
            proof {
                assert forall|e: int| #[trigger] bits@.contains(e) <==> opened_before(p, reg, b + 1, 0, e) by {
                    if opened_before(p, reg, b + 1, 0, e) {
                        let (x, k) = choose|x: int, k: int| (x < b + 1 || (x == b + 1 && k < 0))
                            && #[trigger] opens_at(p, reg, x, k, e);
                        assert(opened_before(p, reg, b, 0, e));
                    }
                }
            }
            id += 1;
            continue;
        }
        proof {
            geom.lemma_bounds();
            crate::board::lemma_div_small(b, geom.ncols(), geom.nrows());
            geom.lemma_box_sides_in_range(b);
        }
        let (row, col) = match geom.box_coord(id) {
            Some(rc) => rc,
            None => {
                id += 1;
                continue;
            },
        };
        let edges = match geom.box_edges(row, col) {
            Some(e) => e,
            None => {
                id += 1;
                continue;
            },
        };
        let mut i: usize = 0;
        while i < 4
            invariant
                p == pos@,
                geom == p.geom,
                p.geom.wf(),
                nb == p.geom.nboxes(),
                1 <= nb <= 64,
                reg == *region,
                0 <= b < nb,
                b == id,
                reg.boxes@.contains(b),
                i <= 4,
                forall|k: int| 0 <= k < 4 ==> edges[k] as int == p.geom.box_sides(b)[k],
                forall|k: int| 0 <= k < 4 ==> 0 <= #[trigger] p.geom.box_sides(b)[k] < p.geom.nedges(),
                forall|e: int| #[trigger] bits@.contains(e) <==> opened_before(p, reg, b, i as int, e),
            decreases 4 - i,
        {
            let e = edges[i];
            proof {
                assert(e as int == p.geom.box_sides(b)[i as int]);
            }
            let ghost before = bits@;
            let mut want = false;
            if !pos.edge_is_drawn(e) {
                let mut touching = [0u16; 2];
                let n = geom.boxes_touching_edge(e, &mut touching);
                proof {
                    p.geom.lemma_touching_in_range(e as int);
                }
                let other = other_member(region, &touching, n, id);
                proof {
                    let t = p.geom.touching(e as int);
                    if other {
                        let k = choose|k: int|
                            0 <= k < n && touching[k] != id && region.boxes@.contains(
                                #[trigger] touching[k] as int,
                            );
                        assert(t[k] == touching[k] as int);
                        assert(other_in_region(p, reg, b, e as int));
                    } else {
                        assert forall|k: int| 0 <= k < t.len() && t[k] != b implies !reg.boxes@.contains(
                            #[trigger] t[k],
                        ) by {
                            assert(touching[k] as int == t[k]);
                        }
                    }
                }
                want = match region.kind {
                    RegionKind::Loop => other,
                    RegionKind::ShortChain | RegionKind::LongChain => !other,
                };
                if want {
                    proof {
                        p.geom.lemma_bounds();
                    }
                    bits.set(e);
                }
            }
            proof {
                assert(want == opens_at(p, reg, b, i as int, e as int));
                assert forall|x: int| #[trigger] bits@.contains(x) <==> opened_before(p, reg, b, i + 1, x) by {
                    if opened_before(p, reg, b, i + 1, x) {
                        let (y, k) = choose|y: int, k: int| (y < b || (y == b && k < i + 1))
                            && #[trigger] opens_at(p, reg, y, k, x);
                        if !(y == b && k == i) {
                            assert(opened_before(p, reg, b, i as int, x));
                        }
                    }
                    if want && x == e as int {
                        assert(opens_at(p, reg, b, i as int, x));
                    }
                }
            }
            i += 1;
        }
        proof {
            assert forall|x: int| #[trigger] bits@.contains(x) <==> opened_before(p, reg, b + 1, 0, x) by {
                if opened_before(p, reg, b + 1, 0, x) {
                    let (y, k) = choose|y: int, k: int| (y < b + 1 || (y == b + 1 && k < 0))
                        && #[trigger] opens_at(p, reg, y, k, x);
                    if y == b {
                        assert(opened_before(p, reg, b, 4, x));
                    } else {
                        assert(opened_before(p, reg, b, 4, x));
                    }
                }
                if opened_before(p, reg, b, 4, x) {
                    let (y, k) = choose|y: int, k: int| (y < b || (y == b && k < 4))
                        && #[trigger] opens_at(p, reg, y, k, x);
                    assert(opened_before(p, reg, b + 1, 0, x));
                }
            }
        }
        id += 1;
    }
    proof {
        assert(bits@ =~= opening_set(p, reg)) by {
            assert forall|x: int| opening_set(p, reg).contains(x) implies bits@.contains(x) by {
                let (y, k) = choose|y: int, k: int| #[trigger] opens_at(p, reg, y, k, x);
                assert(opened_before(p, reg, nb as int, 0, x));
            }
        }
    }
    let ne = geom.edge_count();
    let mut out: Vec<EdgeId> = Vec::new();
    let mut e: u16 = 0;
    while e < ne
        invariant
            ne == p.geom.nedges(),
            ne <= 144,
            e <= ne,
            bits@ == opening_set(p, reg),
            out@ == ids_below(bits@, e as int),
        decreases ne - e,
    {
        if bits.get(e) {
            out.push(e);
        }
        e += 1;
    }
    out
}

/// Preference class of a region kind when keeping control: long chains, then
/// loops, then short chains.
pub open spec fn class_rank(k: RegionKind) -> int {
    match k {
        RegionKind::LongChain => 0,
        RegionKind::Loop => 1,
        RegionKind::ShortChain => 2,
    }
}

/// Sort key: `(class, length)` when keeping control, else `(length, class)`,
/// each pair packed into one integer in the same order.
pub open spec fn rank_key(r: Region, control: bool) -> int {
    if control {
        class_rank(r.kind) * 256 + r.length
    } else {
        r.length * 4 + class_rank(r.kind)
    }
}

/// Largest sort key plus one.
pub open spec fn key_bound() -> int {
    1024
}

/// The region is not the one to skip.
pub open spec fn kept(r: Region, skip: Option<Region>) -> bool {
    match skip {
        Some(s) => s.boxes@ != r.boxes@,
        None => true,
    }
}

/// The regions of `rs` whose key is below `k`, ordered by key, ties in input order.
pub open spec fn ranked_below(rs: Seq<Region>, control: bool, k: int) -> Seq<Region>
    decreases k,
{
    if k <= 0 {
        Seq::empty()
    } else {
        ranked_below(rs, control, k - 1) + rs.filter(|r: Region| rank_key(r, control) == k - 1)
    }
}

/// `rs` without the skipped region, stably sorted by key.
pub open spec fn ranked(rs: Seq<Region>, skip: Option<Region>, control: bool) -> Seq<Region> {
    ranked_below(rs.filter(|r: Region| kept(r, skip)), control, key_bound())
}

/// The regions ranked below key `k` come in non-decreasing key order, all
/// with keys below `k`, and include every region of `rs` with a key below `k`.
proof fn lemma_ranked_below_sorted(rs: Seq<Region>, control: bool, k: int)
    ensures
        forall|i: int, j: int|
            0 <= i < j < ranked_below(rs, control, k).len() ==> rank_key(
                #[trigger] ranked_below(rs, control, k)[i],
                control,
            ) <= rank_key(#[trigger] ranked_below(rs, control, k)[j], control),
        forall|i: int|
            0 <= i < ranked_below(rs, control, k).len() ==> rank_key(
                #[trigger] ranked_below(rs, control, k)[i],
                control,
            ) < k,
        forall|m: int|
            0 <= m < rs.len() && rank_key(rs[m], control) < k ==> #[trigger] ranked_below(rs, control, k).contains(
                rs[m],
            ),
    decreases k,
{
    broadcast use vstd::seq_lib::group_filter_ensures;
    if k > 0 {
        lemma_ranked_below_sorted(rs, control, k - 1);
        let prev = ranked_below(rs, control, k - 1);
        let f = |r: Region| rank_key(r, control) == k - 1;
        let add = rs.filter(f);
        let all = ranked_below(rs, control, k);
        assert(all == prev + add);
        assert forall|i: int| 0 <= i < add.len() implies rank_key(#[trigger] add[i], control) == k - 1 by {
            assert(f(add[i]));
        }
        assert forall|i: int, j: int| 0 <= i < j < all.len() implies rank_key(#[trigger] all[i], control)
            <= rank_key(#[trigger] all[j], control) by {
            if j < prev.len() {
                assert(all[i] == prev[i] && all[j] == prev[j]);
            } else if i < prev.len() {
                assert(all[i] == prev[i] && all[j] == add[j - prev.len()]);
            } else {
                assert(all[i] == add[i - prev.len()] && all[j] == add[j - prev.len()]);
            }
        }
        assert forall|i: int| 0 <= i < all.len() implies rank_key(#[trigger] all[i], control) < k by {
            if i < prev.len() {
                assert(all[i] == prev[i]);
            } else {
                assert(all[i] == add[i - prev.len()]);
            }
        }
        assert forall|m: int| 0 <= m < rs.len() && rank_key(rs[m], control) < k implies #[trigger] all.contains(
            rs[m],
        ) by {
            if rank_key(rs[m], control) < k - 1 {
                assert(prev.contains(rs[m]));
                let j = choose|j: int| 0 <= j < prev.len() && prev[j] == rs[m];
                assert(all[j] == rs[m]);
            } else {
                assert(f(rs[m]));
                assert(add.contains(rs[m]));
                let j = choose|j: int| 0 <= j < add.len() && add[j] == rs[m];
                assert(all[prev.len() + j] == rs[m]);
            }
        }
    }
}

/// The order of regions to open. When dumping (no control to keep) the
/// regions go shortest first, and among regions of one length long chains
/// come before loops and loops before short chains; when keeping control, long
/// chains come first, then loops, then short chains, each group shortest
/// first. Every region other than the skipped one is listed, so the first
/// region to open when dumping is one of the shortest.
pub proof fn law_open_order(rs: Seq<Region>, skip: Option<Region>, control: bool)
    ensures
        forall|i: int, j: int|
            0 <= i < j < ranked(rs, skip, control).len() ==> {
                let a = #[trigger] ranked(rs, skip, control)[i];
                let b = #[trigger] ranked(rs, skip, control)[j];
                &&& !control ==> a.length <= b.length
                &&& !control && a.length == b.length ==> (a.kind == RegionKind::LongChain
                    || b.kind != RegionKind::LongChain) && (b.kind == RegionKind::ShortChain
                    || a.kind != RegionKind::ShortChain)
                &&& control ==> (a.kind == RegionKind::LongChain || b.kind != RegionKind::LongChain)
                    && (b.kind == RegionKind::ShortChain || a.kind != RegionKind::ShortChain)
                &&& control && a.kind == b.kind ==> a.length <= b.length
            },
        forall|m: int|
            0 <= m < rs.len() && kept(rs[m], skip) ==> #[trigger] ranked(rs, skip, control).contains(rs[m]),
        forall|m: int|
            0 <= m < rs.len() && #[trigger] kept(rs[m], skip) && !control ==> ranked(rs, skip, control).len() > 0
                && ranked(rs, skip, control)[0].length <= rs[m].length,
{
    broadcast use vstd::seq_lib::group_filter_ensures;
    let ks = rs.filter(|r: Region| kept(r, skip));
    let out = ranked(rs, skip, control);
    lemma_ranked_below_sorted(ks, control, key_bound());
    assert forall|i: int, j: int| 0 <= i < j < out.len() implies {
        let a = #[trigger] out[i];
        let b = #[trigger] out[j];
        &&& !control ==> a.length <= b.length
        &&& !control && a.length == b.length ==> (a.kind == RegionKind::LongChain || b.kind
            != RegionKind::LongChain) && (b.kind == RegionKind::ShortChain || a.kind
            != RegionKind::ShortChain)
        &&& control ==> (a.kind == RegionKind::LongChain || b.kind != RegionKind::LongChain) && (b.kind
            == RegionKind::ShortChain || a.kind != RegionKind::ShortChain)
        &&& control && a.kind == b.kind ==> a.length <= b.length
    } by {
        assert(rank_key(out[i], control) <= rank_key(out[j], control));
    }
    assert forall|m: int| 0 <= m < rs.len() && kept(rs[m], skip) implies #[trigger] out.contains(rs[m]) by {
        let f = |r: Region| kept(r, skip);
        assert(f(rs[m]));
        assert(ks.contains(rs[m]));
        let j = choose|j: int| 0 <= j < ks.len() && ks[j] == rs[m];
        assert(rank_key(ks[j], control) < key_bound());
    }
    assert forall|m: int| 0 <= m < rs.len() && #[trigger] kept(rs[m], skip) && !control implies out.len() > 0
        && out[0].length <= rs[m].length by {
        assert(out.contains(rs[m]));
        let j = choose|j: int| 0 <= j < out.len() && out[j] == rs[m];
        if j > 0 {
            assert(rank_key(out[0], control) <= rank_key(out[j], control));
        }
    }
}

/// The value behind an optional reference.
pub open spec fn deref_opt(o: Option<&Region>) -> Option<Region> {
    match o {
        Some(r) => Some(*r),
        None => None,
    }
}

fn class_of(k: RegionKind) -> (r: u16)
    ensures
        r == class_rank(k),
{
    match k {
        RegionKind::LongChain => 0,
        RegionKind::Loop => 1,
        RegionKind::ShortChain => 2,
    }
}

fn key_of(r: &Region, control: bool) -> (k: u16)
    ensures
        k == rank_key(*r, control),
        k < key_bound(),
{
    let class = class_of(r.kind);
    if control {
        class * 256 + r.length as u16
    } else {
        r.length as u16 * 4 + class
    }
}

/// Regions to open, best first.
///
/// `control`: long chains, then loops, then short chains (double-cross / keep control).
/// Otherwise dump the smallest gift: shortest region first (short chains before long).
pub fn ranked_open_targets<'a>(
    analysis: &'a EndgameAnalysis,
    skip: Option<&Region>,
    control: bool,
) -> (r: Vec<&'a Region>)
    requires
        analysis.spec_region_count() <= MAX_REGIONS,
    ensures
        r@.map_values(|x: &Region| *x) == ranked(analysis.spec_regions(), deref_opt(skip), control),
{
    let ghost rs = analysis.spec_regions();
    let ghost sk = deref_opt(skip);
    let ghost keep_f = |r: Region| kept(r, sk);
    let regions = analysis.regions();
    let mut v: Vec<&'a Region> = Vec::new();
    let mut i: usize = 0;
    proof {
        reveal(Seq::filter);
    }
    while i < regions.len()
        invariant
            regions@ == rs,
            sk == deref_opt(skip),
            keep_f == (|r: Region| kept(r, sk)),
            i <= regions.len(),
            v@.map_values(|x: &Region| *x) == rs.take(i as int).filter(keep_f),
        decreases regions.len() - i,
    {
        let r = &regions[i];
        let keep = match skip {
            Some(s) => !s.boxes.same_bits(&r.boxes),
            None => true,
        };
        proof {
            reveal(Seq::filter);
            assert(rs.take(i + 1).drop_last() =~= rs.take(i as int));
            assert(rs.take(i + 1).last() == *r);
            assert(keep == keep_f(*r));
        }
        if keep {
            v.push(r);
        }
        proof {
            assert(v@.map_values(|x: &Region| *x) =~= rs.take(i + 1).filter(keep_f));
        }
        i += 1;
    }
    proof {
        assert(rs.take(regions.len() as int) =~= rs);
    }
    let ghost vs = v@.map_values(|x: &Region| *x);
    let mut out: Vec<&'a Region> = Vec::new();
    let mut k: u16 = 0;
    while k < 1024
        invariant
            k <= 1024,
            vs == v@.map_values(|x: &Region| *x),
            out@.map_values(|x: &Region| *x) == ranked_below(vs, control, k as int),
        decreases 1024 - k,
    {
        let ghost key_f = |r: Region| rank_key(r, control) == k;
        let mut j: usize = 0;
        while j < v.len()
            invariant
                j <= v.len(),
                k < 1024,
                vs == v@.map_values(|x: &Region| *x),
                key_f == (|r: Region| rank_key(r, control) == k),
                out@.map_values(|x: &Region| *x) == ranked_below(vs, control, k as int) + vs.take(
                    j as int,
                ).filter(key_f),
            decreases v.len() - j,
        {
            let r = v[j];
            let kk = key_of(r, control);
            proof {
                reveal(Seq::filter);
                assert(vs.take(j + 1).drop_last() =~= vs.take(j as int));
                assert(vs.take(j + 1).last() == *r);
            }
            let ghost before = out@.map_values(|x: &Region| *x);
            if kk == k {
                out.push(r);
            }
            proof {
                reveal(Seq::filter);
                assert(key_f(*r) == (kk == k));
                if kk == k {
                    assert(vs.take(j + 1).filter(key_f) == vs.take(j as int).filter(key_f).push(*r));
                    assert(out@.map_values(|x: &Region| *x) =~= before.push(*r));
                } else {
                    assert(vs.take(j + 1).filter(key_f) == vs.take(j as int).filter(key_f));
                    assert(out@.map_values(|x: &Region| *x) =~= before);
                }
                assert(out@.map_values(|x: &Region| *x) =~= ranked_below(vs, control, k as int)
                    + vs.take(j + 1).filter(key_f));
            }
            j += 1;
        }
        proof {
            assert(vs.take(v.len() as int) =~= vs);
            assert(ranked_below(vs, control, k + 1) == ranked_below(vs, control, k as int)
                + vs.filter(key_f));
        }
        k += 1;
    }
    out
}

} // verus!
