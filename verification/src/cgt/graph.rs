//! The corridor graph: corridor boxes joined across undrawn shared sides.
use vstd::prelude::*;

use crate::board::{BoardGeom, PositionView};
use crate::cgt::is_corridor;
use crate::moves::count_drawn;

verus! {

/// Side `i` of box `a` is undrawn and is shared with the corridor box `c`.
pub open spec fn joins(p: PositionView, a: int, i: int, c: int) -> bool {
    &&& 0 <= i < 4
    &&& !p.drawn.contains(p.geom.box_sides(a)[i])
    &&& p.geom.has_across(a, i)
    &&& p.geom.across_box(a, i) == c
    &&& is_corridor(p, c)
}

/// The corridor boxes `a` and `c` share an undrawn side.
pub open spec fn linked(p: PositionView, a: int, c: int) -> bool {
    &&& is_corridor(p, a)
    &&& (joins(p, a, 0, c) || joins(p, a, 1, c) || joins(p, a, 2, c) || joins(p, a, 3, c))
}

/// The corridor neighbours of `a` across its first `i` sides, in side order.
pub open spec fn neighbour_list(p: PositionView, a: int, i: int) -> Seq<int>
    decreases i,
{
    if i <= 0 {
        Seq::empty()
    } else {
        let x = p.geom.across_box(a, i - 1);
        neighbour_list(p, a, i - 1) + if joins(p, a, i - 1, x) {
            seq![x]
        } else {
            Seq::empty()
        }
    }
}

/// The corridor neighbours of `a`, in side order (top, bottom, left, right).
pub open spec fn neighbours(p: PositionView, a: int) -> Seq<int> {
    neighbour_list(p, a, 4)
}

/// No box of `s` is linked to a box outside `s`.
pub open spec fn links_closed(p: PositionView, s: Set<int>) -> bool {
    forall|a: int, c: int| #![trigger s.contains(a), linked(p, a, c)]
        s.contains(a) && linked(p, a, c) ==> s.contains(c)
}

/// Step `k` of the walk `w` goes between linked boxes.
pub open spec fn step_linked(p: PositionView, w: Seq<int>, k: int) -> bool {
    linked(p, w[k], w[k + 1])
}

/// `w` visits distinct boxes, each linked to the next.
pub open spec fn is_walk(p: PositionView, w: Seq<int>) -> bool {
    &&& w.no_duplicates()
    &&& forall|k: int| 0 <= k < w.len() - 1 ==> #[trigger] step_linked(p, w, k)
}

/// Number of drawn sides among four, one by one.
proof fn lemma_count_four(drawn: Set<int>, s: Seq<int>)
    requires
        s.len() == 4,
    ensures
        count_drawn(drawn, s) == (if drawn.contains(s[0]) { 1int } else { 0int }) + (if drawn.contains(
            s[1],
        ) {
            1int
        } else {
            0int
        }) + (if drawn.contains(s[2]) { 1int } else { 0int }) + (if drawn.contains(s[3]) {
            1int
        } else {
            0int
        }),
{
    let s3 = s.drop_last();
    let s2 = s3.drop_last();
    let s1 = s2.drop_last();
    let s0 = s1.drop_last();
    assert(s0.len() == 0);
    assert(s1.last() == s[0]);
    assert(s2.last() == s[1]);
    assert(s3.last() == s[2]);
    assert(count_drawn(drawn, s0) == 0);
    assert(count_drawn(drawn, s1) == count_drawn(drawn, s0) + if drawn.contains(s[0]) {
        1nat
    } else {
        0nat
    });
    assert(count_drawn(drawn, s2) == count_drawn(drawn, s1) + if drawn.contains(s[1]) {
        1nat
    } else {
        0nat
    });
    assert(count_drawn(drawn, s3) == count_drawn(drawn, s2) + if drawn.contains(s[2]) {
        1nat
    } else {
        0nat
    });
}

/// Boxes across two different sides are different boxes.
proof fn lemma_across_distinct(g: BoardGeom, b: int, i: int, j: int)
    requires
        g.wf(),
        0 <= b < g.nboxes(),
        0 <= i < 4,
        0 <= j < 4,
        i != j,
        g.has_across(b, i),
        g.has_across(b, j),
    ensures
        g.across_box(b, i) != g.across_box(b, j),
{
    g.lemma_bounds();
    let c = g.ncols();
    if c == 1 {
        assert(b % c == 0) by (nonlinear_arith)
            requires
                c == 1,
        ;
    }
}

/// `c` is joined to `a` across one of its first `i` sides.
spec fn joined_before(p: PositionView, a: int, i: int, c: int) -> bool {
    ||| (0 < i && joins(p, a, 0, c))
    ||| (1 < i && joins(p, a, 1, c))
    ||| (2 < i && joins(p, a, 2, c))
    ||| (3 < i && joins(p, a, 3, c))
}

/// What the neighbours across the first `i` sides of a box are.
proof fn lemma_neighbour_prefix(p: PositionView, a: int, i: int)
    requires
        p.geom.wf(),
        0 <= a < p.geom.nboxes(),
        0 <= i <= 4,
    ensures
        forall|k: int|
            0 <= k < neighbour_list(p, a, i).len() ==> joined_before(
                p,
                a,
                i,
                #[trigger] neighbour_list(p, a, i)[k],
            ),
        forall|s: int|
            0 <= s < i && #[trigger] joins(p, a, s, p.geom.across_box(a, s)) ==> neighbour_list(
                p,
                a,
                i,
            ).contains(p.geom.across_box(a, s)),
        neighbour_list(p, a, i).no_duplicates(),
        neighbour_list(p, a, i).len() <= i,
    decreases i,
{
    if i > 0 {
        lemma_neighbour_prefix(p, a, i - 1);
        let prev = neighbour_list(p, a, i - 1);
        let cur = neighbour_list(p, a, i);
        let x = p.geom.across_box(a, i - 1);
        if joins(p, a, i - 1, x) {
            assert(cur == prev.push(x));
            assert forall|k: int| 0 <= k < prev.len() implies prev[k] != x by {
                assert(joined_before(p, a, i - 1, prev[k]));
                let s = if joins(p, a, 0, prev[k]) {
                    0int
                } else if joins(p, a, 1, prev[k]) {
                    1int
                } else {
                    2int
                };
                lemma_across_distinct(p.geom, a, s, i - 1);
            }
            assert forall|k: int| 0 <= k < cur.len() implies joined_before(p, a, i, #[trigger] cur[k]) by {
                if k < prev.len() {
                    assert(cur[k] == prev[k]);
                    assert(joined_before(p, a, i - 1, prev[k]));
                } else {
                    assert(joins(p, a, i - 1, cur[k]));
                }
            }
            assert forall|s: int|
                0 <= s < i && #[trigger] joins(p, a, s, p.geom.across_box(a, s)) implies cur.contains(
                p.geom.across_box(a, s),
            ) by {
                if s < i - 1 {
                    let k = choose|k: int| 0 <= k < prev.len() && prev[k] == p.geom.across_box(a, s);
                    assert(cur[k] == prev[k]);
                } else {
                    assert(cur[cur.len() - 1] == x);
                }
            }
            assert forall|k1: int, k2: int|
                0 <= k1 < cur.len() && 0 <= k2 < cur.len() && k1 != k2 implies cur[k1]
                != cur[k2] by {
                if k1 < prev.len() && k2 < prev.len() {
                    assert(cur[k1] == prev[k1] && cur[k2] == prev[k2]);
                } else if k1 < prev.len() {
                    assert(cur[k1] == prev[k1]);
                } else if k2 < prev.len() {
                    assert(cur[k2] == prev[k2]);
                }
            }
        } else {
            assert(cur =~= prev);
            assert forall|k: int| 0 <= k < cur.len() implies joined_before(p, a, i, #[trigger] cur[k]) by {
                assert(joined_before(p, a, i - 1, prev[k]));
            }
        }
    }
}

/// The neighbour list of a corridor box: at most two distinct boxes, each
/// linked to it, and every box linked to it is listed.
pub proof fn lemma_neighbours(p: PositionView, a: int)
    requires
        p.geom.wf(),
        is_corridor(p, a),
    ensures
        neighbours(p, a).len() <= 2,
        neighbours(p, a).no_duplicates(),
        forall|k: int|
            0 <= k < neighbours(p, a).len() ==> #[trigger] linked(p, a, neighbours(p, a)[k]),
        forall|c: int| #[trigger] linked(p, a, c) ==> neighbours(p, a).contains(c),
        forall|c: int| linked(p, a, c) ==> c != a && 0 <= c < p.geom.nboxes(),
{
    lemma_neighbour_prefix(p, a, 4);
    let l = neighbours(p, a);
    assert forall|k: int| 0 <= k < l.len() implies #[trigger] linked(p, a, l[k]) by {
        assert(joined_before(p, a, 4, l[k]));
    }
    assert forall|c: int| #[trigger] linked(p, a, c) implies l.contains(c) by {
        if joins(p, a, 0, c) {
            assert(joins(p, a, 0, p.geom.across_box(a, 0)));
        } else if joins(p, a, 1, c) {
            assert(joins(p, a, 1, p.geom.across_box(a, 1)));
        } else if joins(p, a, 2, c) {
            assert(joins(p, a, 2, p.geom.across_box(a, 2)));
        } else {
            assert(joins(p, a, 3, p.geom.across_box(a, 3)));
        }
    }
    assert forall|c: int| linked(p, a, c) implies c != a && 0 <= c < p.geom.nboxes() by {
        assert(is_corridor(p, c));
        let s = if joins(p, a, 0, c) {
            0int
        } else if joins(p, a, 1, c) {
            1int
        } else if joins(p, a, 2, c) {
            2int
        } else {
            3int
        };
        p.geom.lemma_side_boxes(a, s);
    }
    // At most two sides are undrawn, and only undrawn sides join.
    lemma_count_four(p.drawn, p.geom.box_sides(a));
    reveal_with_fuel(neighbour_list, 5);
}

/// Linking is symmetric.
pub proof fn lemma_linked_symmetric(p: PositionView, a: int, c: int)
    requires
        p.geom.wf(),
        linked(p, a, c),
    ensures
        linked(p, c, a),
{
    let s = if joins(p, a, 0, c) {
        0int
    } else if joins(p, a, 1, c) {
        1int
    } else if joins(p, a, 2, c) {
        2int
    } else {
        3int
    };
    p.geom.lemma_side_boxes(a, s);
    let j = BoardGeom::opposite_side(s);
    assert(joins(p, c, j, a));
}

/// A corridor box is linked to at most two others.
pub proof fn lemma_three_neighbours(p: PositionView, a: int, x: int, y: int, z: int)
    requires
        p.geom.wf(),
        linked(p, a, x),
        linked(p, a, y),
        linked(p, a, z),
        x != y,
    ensures
        z == x || z == y,
{
    lemma_neighbours(p, a);
    let l = neighbours(p, a);
    assert(l.contains(x) && l.contains(y) && l.contains(z));
    let kx = choose|k: int| 0 <= k < l.len() && l[k] == x;
    let ky = choose|k: int| 0 <= k < l.len() && l[k] == y;
    let kz = choose|k: int| 0 <= k < l.len() && l[k] == z;
}

/// The corridor neighbours across the first `i` sides never outnumber those
/// across the first `j >= i`.
pub proof fn lemma_neighbour_list_grows(p: PositionView, a: int, i: int, j: int)
    requires
        i <= j,
    ensures
        neighbour_list(p, a, i).len() <= neighbour_list(p, a, j).len(),
    decreases j - i,
{
    if i < j {
        lemma_neighbour_list_grows(p, a, i, j - 1);
        if j > 0 {
            assert(neighbour_list(p, a, j - 1).len() <= neighbour_list(p, a, j).len());
        }
    }
}

/// Two different boxes linked to `a` are all of its neighbours' count.
pub proof fn lemma_two_neighbours(p: PositionView, a: int, x: int, y: int)
    requires
        p.geom.wf(),
        linked(p, a, x),
        linked(p, a, y),
        x != y,
    ensures
        neighbours(p, a).len() == 2,
{
    lemma_neighbours(p, a);
    let l = neighbours(p, a);
    let kx = choose|k: int| 0 <= k < l.len() && l[k] == x;
    let ky = choose|k: int| 0 <= k < l.len() && l[k] == y;
}

/// A box with two neighbours has one other than any given box.
pub proof fn lemma_other_neighbour(p: PositionView, a: int, x: int) -> (z: int)
    requires
        p.geom.wf(),
        is_corridor(p, a),
        neighbours(p, a).len() >= 2,
    ensures
        linked(p, a, z),
        z != x,
{
    lemma_neighbours(p, a);
    let l = neighbours(p, a);
    assert(linked(p, a, l[0]));
    assert(linked(p, a, l[1]));
    if l[0] != x {
        l[0]
    } else {
        l[1]
    }
}

/// The boxes along side `i` of box `b`: at most two, distinct, on the board,
/// and any other than `b` is the box across that side.
pub proof fn lemma_side_partners(g: BoardGeom, b: int, i: int)
    requires
        g.wf(),
        0 <= b < g.nboxes(),
        0 <= i < 4,
    ensures
        g.touching(g.box_sides(b)[i]).len() <= 2,
        g.touching(g.box_sides(b)[i]).len() == 2 ==> g.touching(g.box_sides(b)[i])[0] != g.touching(
            g.box_sides(b)[i],
        )[1],
        forall|k: int|
            0 <= k < g.touching(g.box_sides(b)[i]).len() ==> 0 <= #[trigger] g.touching(
                g.box_sides(b)[i],
            )[k] < g.nboxes(),
        forall|k: int|
            0 <= k < g.touching(g.box_sides(b)[i]).len() && #[trigger] g.touching(
                g.box_sides(b)[i],
            )[k] != b ==> g.has_across(b, i) && g.touching(g.box_sides(b)[i])[k] == g.across_box(
                b,
                i,
            ),
        g.has_across(b, i) ==> g.touching(g.box_sides(b)[i]).contains(g.across_box(b, i))
            && g.across_box(b, i) != b,
{
    g.lemma_side_boxes(b, i);
    g.lemma_touching_in_range(g.box_sides(b)[i]);
}

/// A walk that ends at a box whose neighbours it has all visited, through
/// boxes with two neighbours each, has visited every neighbour of its first box.
pub proof fn lemma_cycle_closes(p: PositionView, w: Seq<int>)
    requires
        p.geom.wf(),
        is_walk(p, w),
        w.len() >= 1,
        forall|k: int| 0 <= k < w.len() ==> is_corridor(p, #[trigger] w[k]) && neighbours(p, w[k]).len() >= 2,
        forall|c: int| #[trigger] linked(p, w.last(), c) ==> w.contains(c),
    ensures
        forall|c: int| #[trigger] linked(p, w[0], c) ==> w.contains(c),
{
    let m = w.len() - 1;
    if m > 0 {
        let u = w[m];
        let prev = w[m - 1];
        assert(step_linked(p, w, m - 1));
        lemma_linked_symmetric(p, prev, u);
        assert(is_corridor(p, u) && neighbours(p, u).len() >= 2);
        let z = lemma_other_neighbour(p, u, prev);
        lemma_neighbours(p, u);
        assert(linked(p, w.last(), z));
        assert(w.contains(z));
        let j = choose|j: int| 0 <= j < w.len() && w[j] == z;
        assert(j != m);
        assert(j != m - 1);
        lemma_linked_symmetric(p, u, z);
        if j > 0 {
            assert(step_linked(p, w, j - 1));
            assert(step_linked(p, w, j));
            lemma_linked_symmetric(p, w[j - 1], w[j]);
            lemma_three_neighbours(p, z, w[j - 1], w[j + 1], u);
            assert(false);
        }
        assert(step_linked(p, w, 0));
        assert forall|c: int| #[trigger] linked(p, w[0], c) implies w.contains(c) by {
            lemma_three_neighbours(p, w[0], w[1], u, c);
            if c == w[1] {
                assert(w[1] == c);
            }
        }
    } else {
        assert(w.last() == w[0]);
        assert forall|c: int| #[trigger] linked(p, w[0], c) implies w.contains(c) by {
            assert(linked(p, w.last(), c));
        }
    }
}

/// Extending a walk by a new box linked to its last box gives a walk.
pub proof fn lemma_walk_push(p: PositionView, w: Seq<int>, u: int)
    requires
        is_walk(p, w),
        !w.contains(u),
        w.len() > 0 ==> linked(p, w.last(), u),
    ensures
        is_walk(p, w.push(u)),
{
    let w2 = w.push(u);
    assert forall|k: int| 0 <= k < w2.len() - 1 implies #[trigger] step_linked(p, w2, k) by {
        if k < w.len() - 1 {
            assert(step_linked(p, w, k));
        }
    }
    assert forall|i: int, j: int| 0 <= i < w2.len() && 0 <= j < w2.len() && i != j implies w2[i]
        != w2[j] by {
        if i < w.len() && j < w.len() {
        } else if i < w.len() {
            assert(w.contains(w[i]));
        } else if j < w.len() {
            assert(w.contains(w[j]));
        }
    }
}

} // verus!
