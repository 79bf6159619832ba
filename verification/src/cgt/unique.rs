//! The analysis of a position is unique: its regions are the connected
//! components of the corridor graph, listed in a fixed order.
use vstd::prelude::*;

use crate::bitboard::BoxBits;
use crate::board::PositionView;
use crate::cgt::{
    anchor, anchored_at, count_kind, is_corridor, is_placeholder, is_walk, lemma_linked_symmetric,
    linked, links_closed, region_ok, regions_ok, regions_ordered, step_linked, union_boxes,
    EndgameAnalysis, Region, RegionKind, MAX_REGIONS,
};
use crate::game::Player;

verus! {

/// Every box of a walk that meets a closed set lies in that set.
proof fn lemma_walk_reach(p: PositionView, w: Seq<int>, s: Set<int>, j: int, k: int)
    requires
        p.geom.wf(),
        is_walk(p, w),
        links_closed(p, s),
        0 <= j < w.len(),
        0 <= k < w.len(),
        s.contains(w[j]),
    ensures
        s.contains(w[k]),
    decreases if k >= j {
        k - j
    } else {
        j - k
    },
{
    if k > j {
        lemma_walk_reach(p, w, s, j, k - 1);
        assert(step_linked(p, w, k - 1));
        assert(s.contains(w[k - 1]) && linked(p, w[k - 1], w[k]));
    } else if k < j {
        lemma_walk_reach(p, w, s, j, k + 1);
        assert(step_linked(p, w, k));
        lemma_linked_symmetric(p, w[k], w[k + 1]);
        assert(s.contains(w[k + 1]) && linked(p, w[k + 1], w[k]));
    }
}

/// Two regions that share a box have the same boxes.
proof fn lemma_same_component(p: PositionView, r1: Region, r2: Region, b: int)
    requires
        p.geom.wf(),
        region_ok(p, r1),
        region_ok(p, r2),
        r1.boxes@.contains(b),
        r2.boxes@.contains(b),
    ensures
        r1.boxes@ == r2.boxes@,
{
    lemma_component_within(p, r1, r2, b);
    lemma_component_within(p, r2, r1, b);
    assert(r1.boxes@ =~= r2.boxes@);
}

/// A region lies within any region it shares a box with.
proof fn lemma_component_within(p: PositionView, r1: Region, r2: Region, b: int)
    requires
        p.geom.wf(),
        region_ok(p, r1),
        region_ok(p, r2),
        r1.boxes@.contains(b),
        r2.boxes@.contains(b),
    ensures
        r1.boxes@.subset_of(r2.boxes@),
{
    let w = choose|w: Seq<int>| #[trigger] is_walk(p, w) && w.to_set() == r1.boxes@;
    assert(w.to_set().contains(b));
    let j = choose|j: int| 0 <= j < w.len() && w[j] == b;
    assert forall|c: int| r1.boxes@.contains(c) implies r2.boxes@.contains(c) by {
        assert(w.to_set().contains(c));
        let k = choose|k: int| 0 <= k < w.len() && w[k] == c;
        lemma_walk_reach(p, w, r2.boxes@, j, k);
    }
}

/// A region is determined by its boxes.
proof fn lemma_region_by_boxes(p: PositionView, r1: Region, r2: Region)
    requires
        region_ok(p, r1),
        region_ok(p, r2),
        r1.boxes@ == r2.boxes@,
    ensures
        r1 == r2,
{
    BoxBits::lemma_ext(r1.boxes, r2.boxes);
    if r1.kind == RegionKind::Loop && r2.kind != RegionKind::Loop {
        let b = choose|b: int| r2.boxes@.contains(b) && crate::cgt::corridor_degree(p, b) <= 1;
        assert(r1.boxes@.contains(b));
    }
    if r2.kind == RegionKind::Loop && r1.kind != RegionKind::Loop {
        let b = choose|b: int| r1.boxes@.contains(b) && crate::cgt::corridor_degree(p, b) <= 1;
        assert(r2.boxes@.contains(b));
    }
}

/// Some region holds each box of the union.
proof fn lemma_union_member(rs: Seq<Region>, b: int) -> (j: int)
    requires
        union_boxes(rs).contains(b),
    ensures
        0 <= j < rs.len(),
        rs[j].boxes@.contains(b),
    decreases rs.len(),
{
    if rs.last().boxes@.contains(b) {
        rs.len() - 1
    } else {
        let j = lemma_union_member(rs.drop_last(), b);
        assert(rs[j] == rs.drop_last()[j]);
        j
    }
}

/// Every region of one valid list of regions is in any other valid list.
proof fn lemma_region_in_other(p: PositionView, rs1: Seq<Region>, rs2: Seq<Region>, i: int)
    requires
        p.geom.wf(),
        regions_ok(p, rs1),
        regions_ok(p, rs2),
        regions_ordered(p, rs1),
        0 <= i < rs1.len(),
    ensures
        rs2.contains(rs1[i]),
{
    let r1 = rs1[i];
    assert(region_ok(p, r1));
    assert(anchored_at(p, r1, anchor(p, r1)));
    let k = anchor(p, r1);
    assert(is_corridor(p, k));
    assert(union_boxes(rs2).contains(k));
    let j = lemma_union_member(rs2, k);
    assert(region_ok(p, rs2[j]));
    lemma_same_component(p, r1, rs2[j], k);
    lemma_region_by_boxes(p, r1, rs2[j]);
}

/// The sort key of a region: chains by anchor, then loops by anchor.
pub open spec fn region_key(p: PositionView, r: Region) -> int {
    anchor(p, r) + if r.kind == RegionKind::Loop {
        64int
    } else {
        0int
    }
}

/// Ordered valid regions have strictly increasing keys.
proof fn lemma_keys_increase(p: PositionView, rs: Seq<Region>)
    requires
        p.geom.wf(),
        regions_ok(p, rs),
        regions_ordered(p, rs),
    ensures
        forall|i: int, j: int|
            0 <= i < j < rs.len() ==> region_key(p, #[trigger] rs[i]) < region_key(p, #[trigger] rs[j]),
{
    p.geom.lemma_bounds();
    assert forall|i: int, j: int| 0 <= i < j < rs.len() implies region_key(p, #[trigger] rs[i])
        < region_key(p, #[trigger] rs[j]) by {
        assert(region_ok(p, rs[i]));
        assert(anchored_at(p, rs[i], anchor(p, rs[i])));
        assert(is_corridor(p, anchor(p, rs[i])));
        assert(region_ok(p, rs[j]));
        assert(anchored_at(p, rs[j], anchor(p, rs[j])));
        assert(is_corridor(p, anchor(p, rs[j])));
    }
}

/// Two sequences, each strictly increasing in the same key, with the same
/// elements, are equal.
proof fn lemma_sorted_unique<A>(s1: Seq<A>, s2: Seq<A>, key: spec_fn(A) -> int)
    requires
        forall|i: int, j: int| 0 <= i < j < s1.len() ==> key(#[trigger] s1[i]) < key(#[trigger] s1[j]),
        forall|i: int, j: int| 0 <= i < j < s2.len() ==> key(#[trigger] s2[i]) < key(#[trigger] s2[j]),
        forall|x: A| s1.contains(x) <==> s2.contains(x),
    ensures
        s1 == s2,
    decreases s1.len() + s2.len(),
{
    if s1.len() == 0 {
        if s2.len() > 0 {
            assert(s2.contains(s2[0]));
        }
        assert(s1 =~= s2);
    } else if s2.len() == 0 {
        assert(s1.contains(s1[0]));
    } else {
        let x1 = s1[0];
        let x2 = s2[0];
        assert(s1.contains(x1));
        assert(s2.contains(x2));
        let j = choose|j: int| 0 <= j < s2.len() && s2[j] == x1;
        let i = choose|i: int| 0 <= i < s1.len() && s1[i] == x2;
        if j > 0 {
            assert(key(s2[0]) < key(s2[j]));
            if i > 0 {
                assert(key(s1[0]) < key(s1[i]));
            }
        }
        if i > 0 {
            assert(key(s1[0]) < key(s1[i]));
        }
        assert(x1 == x2);
        let t1 = s1.drop_first();
        let t2 = s2.drop_first();
        assert forall|x: A| t1.contains(x) <==> t2.contains(x) by {
            if t1.contains(x) {
                let k = choose|k: int| 0 <= k < t1.len() && t1[k] == x;
                assert(s1[k + 1] == x);
                assert(key(s1[0]) < key(s1[k + 1]));
                assert(s2.contains(x));
                let m = choose|m: int| 0 <= m < s2.len() && s2[m] == x;
                if m == 0 {
                    assert(false);
                }
                assert(t2[m - 1] == x);
            }
            if t2.contains(x) {
                let k = choose|k: int| 0 <= k < t2.len() && t2[k] == x;
                assert(s2[k + 1] == x);
                assert(key(s2[0]) < key(s2[k + 1]));
                assert(s1.contains(x));
                let m = choose|m: int| 0 <= m < s1.len() && s1[m] == x;
                if m == 0 {
                    assert(false);
                }
                assert(t1[m - 1] == x);
            }
        }
        assert forall|i: int, j: int| 0 <= i < j < t1.len() implies key(#[trigger] t1[i]) < key(
            #[trigger] t1[j],
        ) by {
            assert(t1[i] == s1[i + 1] && t1[j] == s1[j + 1]);
        }
        assert forall|i: int, j: int| 0 <= i < j < t2.len() implies key(#[trigger] t2[i]) < key(
            #[trigger] t2[j],
        ) by {
            assert(t2[i] == s2[i + 1] && t2[j] == s2[j + 1]);
        }
        lemma_sorted_unique(t1, t2, key);
        assert(s1 =~= s2) by {
            assert forall|k: int| 0 <= k < s1.len() implies s1[k] == s2[k] by {
                if k > 0 {
                    assert(s1[k] == t1[k - 1] && s2[k] == t2[k - 1]);
                }
            }
        }
    }
}

/// Two placeholders are the same value.
proof fn lemma_placeholders_equal(r1: Region, r2: Region)
    requires
        is_placeholder(r1),
        is_placeholder(r2),
    ensures
        r1 == r2,
{
    BoxBits::lemma_ext(r1.boxes, r2.boxes);
}

/// The analysis of a position is unique: any two analyses that describe the
/// same position, with the same player to move, are equal.
pub proof fn law_analysis_unique(
    p: PositionView,
    to_move: Player,
    a1: EndgameAnalysis,
    a2: EndgameAnalysis,
)
    requires
        p.geom.wf(),
        a1.describes(p, to_move),
        a2.describes(p, to_move),
    ensures
        a1 == a2,
{
    let rs1 = a1.spec_regions();
    let rs2 = a2.spec_regions();
    assert forall|x: Region| rs1.contains(x) <==> rs2.contains(x) by {
        if rs1.contains(x) {
            let i = choose|i: int| 0 <= i < rs1.len() && rs1[i] == x;
            lemma_region_in_other(p, rs1, rs2, i);
        }
        if rs2.contains(x) {
            let i = choose|i: int| 0 <= i < rs2.len() && rs2[i] == x;
            lemma_region_in_other(p, rs2, rs1, i);
        }
    }
    lemma_keys_increase(p, rs1);
    lemma_keys_increase(p, rs2);
    let key = |r: Region| region_key(p, r);
    assert forall|i: int, j: int| 0 <= i < j < rs1.len() implies key(#[trigger] rs1[i]) < key(
        #[trigger] rs1[j],
    ) by {
        assert(region_key(p, rs1[i]) < region_key(p, rs1[j]));
    }
    assert forall|i: int, j: int| 0 <= i < j < rs2.len() implies key(#[trigger] rs2[i]) < key(
        #[trigger] rs2[j],
    ) by {
        assert(region_key(p, rs2[i]) < region_key(p, rs2[j]));
    }
    lemma_sorted_unique(rs1, rs2, key);
    assert(a1.region_count == a2.region_count);
    assert forall|i: int| 0 <= i < MAX_REGIONS implies a1.regions[i] == a2.regions[i] by {
        if i < a1.region_count {
            assert(a1.regions[i] == rs1[i]);
            assert(a2.regions[i] == rs2[i]);
        } else {
            lemma_placeholders_equal(a1.regions[i], a2.regions[i]);
        }
    }
    assert(a1.regions =~= a2.regions);
}

} // verus!
