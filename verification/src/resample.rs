//! Rebuilding the curves with new segment lengths. The length and angle tests
//! are made beforehand, one `EdgePlan` per edge; this module rebuilds the
//! points, the curves and the trees from those decisions.
use crate::curves::is_chain;
use crate::physics::Edge;
use crate::physics::Point;
use crate::physics::PointType;
use crate::tree::reported_same;
use crate::tree::search_end;
use crate::tree::scan_result;
use crate::tree::search_path;
use crate::tree::connected;
use crate::tree::held_upto;
use crate::tree::tree_wf;
use crate::tree::Node;
use crate::typed_idx::Idx;
use vstd::multiset::Multiset;
use crate::tree::Geometry;
use crate::tree::QTreeData;
use crate::tree::QuadTree;
use crate::tree::search_result;
use std::collections::HashMap;
use vstd::prelude::*;

verus! {

/// What the length and angle tests decided for one edge of a curve.
#[derive(Clone, Copy, Debug)]
pub struct EdgePlan<S> {
    /// Short, nearly straight with the next edge and as wide as it: the edge
    /// may be merged into the next one.
    pub merge: bool,
    /// Too long: the edge is split at its midpoint.
    pub split: bool,
    /// Half the target segment length: the least rest length of a split half.
    pub half_segment: S,
}

/// Every tree is well formed and holds only indices below `n`.
pub open spec fn trees_ok<T, D, V, S>(trees: Seq<QuadTree<T, D, V, S>>, n: nat) -> bool {
    forall|l: int| #![trigger trees[l]] 0 <= l < trees.len() ==> trees[l].wf() && trees[l].items_below(n)
}

/// `b` has the trees of `a`, with the same root squares.
pub open spec fn same_squares<T, D, V, S>(a: Seq<QuadTree<T, D, V, S>>, b: Seq<QuadTree<T, D, V, S>>) -> bool {
    &&& a.len() == b.len()
    &&& forall|l: int|
        #![trigger b[l]]
        0 <= l < a.len() ==> b[l].rad == a[l].rad && b[l].nodes@[0].pos == a[l].nodes@[0].pos
}

/// Every entry `k -> j` of `m` maps a carried old point to its copy among `points`.
pub open spec fn copies_ok<V, S>(m: Map<usize, usize>, points: Seq<Point<V, S>>, old_points: Seq<Point<V, S>>) -> bool {
    forall|k: usize|
        #[trigger] m.contains_key(k) ==> {
            &&& k < old_points.len()
            &&& m[k] < points.len()
            &&& points[m[k] as int] == old_points[k as int]
            &&& old_points[k as int].point_type is Child
        }
}

/// A rebuilt point is a copy of an old point or a new joint with two edges.
pub open spec fn rebuilt_point<V, S>(p: Point<V, S>, old_points: Seq<Point<V, S>>) -> bool {
    ||| exists|x: int| 0 <= x < old_points.len() && #[trigger] old_points[x] == p
    ||| p.point_type matches PointType::Free { neighbors, .. } && neighbors == 2
}

/// Every point from position `from` on is a rebuilt point.
pub open spec fn rebuilt_from<V, S>(points: Seq<Point<V, S>>, from: int, old_points: Seq<Point<V, S>>) -> bool {
    forall|j: int| from <= j < points.len() ==> #[trigger] rebuilt_point(points[j], old_points)
}

/// Both ends of every edge are below `n`.
pub open spec fn ends_below<S>(c: Seq<Edge<S>>, n: nat) -> bool {
    forall|k: int| #![trigger c[k]] 0 <= k < c.len() ==> c[k].i0 < n && c[k].i1 < n
}

/// The number of edges of the first `c` curves.
pub open spec fn edges_upto<S>(curves: Seq<Vec<Edge<S>>>, c: int) -> nat
    decreases c,
{
    if c <= 0 {
        0
    } else {
        edges_upto(curves, c - 1) + curves[c - 1]@.len()
    }
}

/// The number of non-empty curves among the first `c`.
pub open spec fn nonempty_upto<S>(curves: Seq<Vec<Edge<S>>>, c: int) -> nat
    decreases c,
{
    if c <= 0 {
        0
    } else {
        nonempty_upto(curves, c - 1) + if curves[c - 1]@.len() > 0 {
            1nat
        } else {
            0nat
        }
    }
}

/// Point `j` stands for old point `o`: it is a copy of it, or a point whose
/// position `G::same` reported equal to the old one's.
pub open spec fn stands_for<V, S, G: Geometry<V, S>>(
    points: Seq<Point<V, S>>,
    j: int,
    old_points: Seq<Point<V, S>>,
    o: int,
) -> bool {
    &&& 0 <= j < points.len()
    &&& (points[j] == old_points[o] || call_ensures(G::same, (&points[j].pos, &old_points[o].pos), true))
}

/// The end of old edge `i` is a free joint of exactly two edges.
pub open spec fn joint_of_two<V, S>(curve: Seq<Edge<S>>, old_points: Seq<Point<V, S>>, i: int) -> bool {
    old_points[curve[i].i1 as int].point_type matches PointType::Free { neighbors, .. } && neighbors == 2
}

/// Old edge `i` is merged into the next one: it is planned so, it is not the
/// last edge, its end is a free joint of two edges, and the edge before it
/// was not merged.
pub open spec fn merged<V, S>(curve: Seq<Edge<S>>, plan: Seq<EdgePlan<S>>, old_points: Seq<Point<V, S>>, i: int) -> bool
    decreases i + 1,
{
    if i < 0 {
        false
    } else {
        i + 1 < curve.len() && plan[i].merge && joint_of_two(curve, old_points, i) && !merged(
            curve,
            plan,
            old_points,
            i - 1,
        )
    }
}

/// Old edge `i` is split at its midpoint: it is planned so, and neither it
/// nor the edge before it was merged.
pub open spec fn split_at<V, S>(curve: Seq<Edge<S>>, plan: Seq<EdgePlan<S>>, old_points: Seq<Point<V, S>>, i: int) -> bool {
    plan[i].split && !merged(curve, plan, old_points, i - 1) && !merged(curve, plan, old_points, i)
}

/// The number of new edges that the old edges before `k` give: none for a
/// merged edge, two for a split one, one otherwise.
pub open spec fn new_edges<V, S>(curve: Seq<Edge<S>>, plan: Seq<EdgePlan<S>>, old_points: Seq<Point<V, S>>, k: int) -> nat
    decreases k,
{
    if k <= 0 {
        0
    } else {
        new_edges(curve, plan, old_points, k - 1) + if merged(curve, plan, old_points, k - 1) {
            0nat
        } else if split_at(curve, plan, old_points, k - 1) {
            2nat
        } else {
            1nat
        }
    }
}

/// The rest length summed up to old edge `i`: that of edge `i - 1` when it
/// was merged, zero otherwise.
pub open spec fn carried_rest<V, S>(
    curve: Seq<Edge<S>>,
    plan: Seq<EdgePlan<S>>,
    old_points: Seq<Point<V, S>>,
    zero: S,
    acc: Seq<S>,
    i: int,
) -> S {
    if merged(curve, plan, old_points, i - 1) {
        acc[i - 1]
    } else {
        zero
    }
}

/// The new point `j` is the midpoint of old edge `i`: a free joint of two
/// edges at rest (previous position its position, velocity `zero_v`) on
/// `layer`, in the net of the edge's start, at the position
/// `G::midpoint` gave and with half the edge's width as radius.
pub open spec fn midpoint_ok<V, S, G: Geometry<V, S>>(
    points: Seq<Point<V, S>>,
    j: int,
    curve: Seq<Edge<S>>,
    old_points: Seq<Point<V, S>>,
    layer: usize,
    zero_v: V,
    i: int,
) -> bool {
    &&& 0 <= j < points.len()
    &&& points[j].layer == layer
    &&& points[j].net == old_points[curve[i].i0 as int].net
    &&& points[j].point_type == (PointType::Free { pos_prev: points[j].pos, v: zero_v, neighbors: 2 })
    &&& call_ensures(G::midpoint, (&old_points[curve[i].i0 as int].pos, &old_points[curve[i].i1 as int].pos), points[j].pos)
    &&& call_ensures(G::half, (&curve[i].w,), points[j].rad)
}

/// What old edge `i` became among the new edges `new`: nothing when merged;
/// two halves through its midpoint, each with the larger of half the summed
/// rest length and the planned half segment, when split; otherwise one edge
/// with the summed rest length. Its new edges keep its width and end at a
/// point standing for its old end.
pub open spec fn edge_done<V, S, G: Geometry<V, S>>(
    new: Seq<Edge<S>>,
    points: Seq<Point<V, S>>,
    curve: Seq<Edge<S>>,
    plan: Seq<EdgePlan<S>>,
    old_points: Seq<Point<V, S>>,
    acc: Seq<S>,
    layer: usize,
    zero_v: V,
    i: int,
) -> bool {
    let e = new_edges(curve, plan, old_points, i) as int;
    if merged(curve, plan, old_points, i) {
        true
    } else if split_at(curve, plan, old_points, i) {
        &&& new[e].w == curve[i].w
        &&& new[e + 1].w == curve[i].w
        &&& new[e + 1].l0 == new[e].l0
        &&& exists|h: S|
            #![trigger call_ensures(G::half, (&acc[i],), h)]
            call_ensures(G::half, (&acc[i],), h) && call_ensures(G::larger, (&h, &plan[i].half_segment), new[e].l0)
        &&& midpoint_ok::<V, S, G>(points, new[e].i1 as int, curve, old_points, layer, zero_v, i)
        &&& stands_for::<V, S, G>(points, new[e + 1].i1 as int, old_points, curve[i].i1 as int)
    } else {
        &&& new[e].w == curve[i].w
        &&& new[e].l0 == acc[i]
        &&& stands_for::<V, S, G>(points, new[e].i1 as int, old_points, curve[i].i1 as int)
    }
}

/// The old edges before `k` are rebuilt into `new`: `acc` holds the rest
/// lengths summed by `G::sum` along the way, and each old edge became what
/// `edge_done` says.
pub open spec fn resampled_upto<V, S, G: Geometry<V, S>>(
    new: Seq<Edge<S>>,
    points: Seq<Point<V, S>>,
    curve: Seq<Edge<S>>,
    plan: Seq<EdgePlan<S>>,
    old_points: Seq<Point<V, S>>,
    zero: S,
    acc: Seq<S>,
    layer: usize,
    zero_v: V,
    k: int,
) -> bool {
    &&& acc.len() == k
    &&& new.len() == new_edges(curve, plan, old_points, k)
    &&& forall|i: int|
        #![trigger acc[i]]
        0 <= i < k ==> call_ensures(G::sum, (&carried_rest(curve, plan, old_points, zero, acc, i), &curve[i].l0), acc[i])
    &&& forall|i: int|
        0 <= i < k ==> #[trigger] edge_done::<V, S, G>(new, points, curve, plan, old_points, acc, layer, zero_v, i)
}

/// The new curve `new` is the old curve `curve` rebuilt along `plan`: it is
/// not empty, starts and ends at points standing for the old curve's ends,
/// and every old edge became what `edge_done` says.
pub open spec fn resampled<V, S, G: Geometry<V, S>>(
    new: Seq<Edge<S>>,
    points: Seq<Point<V, S>>,
    curve: Seq<Edge<S>>,
    plan: Seq<EdgePlan<S>>,
    old_points: Seq<Point<V, S>>,
    zero: S,
    layer: usize,
    zero_v: V,
) -> bool {
    &&& new.len() > 0
    &&& stands_for::<V, S, G>(points, new[0].i0 as int, old_points, curve[0].i0 as int)
    &&& stands_for::<V, S, G>(points, new.last().i1 as int, old_points, curve.last().i1 as int)
    &&& exists|acc: Seq<S>|
        #![trigger resampled_upto::<V, S, G>(new, points, curve, plan, old_points, zero, acc, layer, zero_v, curve.len() as int)]
        resampled_upto::<V, S, G>(new, points, curve, plan, old_points, zero, acc, layer, zero_v, curve.len() as int)
}

/// The end of old edge `i` is looked up in the tree: it is the last edge, or
/// it ends at a free joint of more than one edge.
pub open spec fn looked_up<V, S>(curve: Seq<Edge<S>>, old_points: Seq<Point<V, S>>, i: int) -> bool {
    ||| i + 1 == curve.len()
    ||| old_points[curve[i].i1 as int].point_type matches PointType::Free { neighbors, .. } && neighbors > 1
}

/// The point where the new edges of old edge `i` end.
pub open spec fn end_of<V, S>(
    new: Seq<Edge<S>>,
    curve: Seq<Edge<S>>,
    plan: Seq<EdgePlan<S>>,
    old_points: Seq<Point<V, S>>,
    i: int,
) -> int {
    new[new_edges(curve, plan, old_points, i) + if split_at(curve, plan, old_points, i) {
        1int
    } else {
        0int
    }].i1 as int
}

/// `end` is what a search of the tree for the position of `old_end` gave:
/// the search ran on a well-formed, connected tree holding at least every
/// point below `n` that `held` holds, over the first `n` points; `end` is the
/// point it found, or, when it found none, the copy of `old_end` appended as
/// point `n`.
pub open spec fn looked_up_end<D, V: Copy, S, G: Geometry<V, S>>(
    points: Seq<Point<V, S>>,
    held: Multiset<usize>,
    old_end: Point<V, S>,
    end: int,
) -> bool {
    exists|tn: Seq<Node<D, V>>, tl: Seq<Idx<Point<V, S>>>, n: int, res: Option<usize>|
        #![trigger search_result::<Point<V, S>, D, V, S, G>(tn, tl, points.take(n), old_end.pos, res)]
        {
            &&& 0 <= n <= points.len()
            &&& tree_wf(tn, tl)
            &&& connected(tn)
            &&& forall|k: usize| k < n && #[trigger] held.count(k) > 0 ==> held_upto(tn, tl, tn.len()).count(k) > 0
            &&& search_result::<Point<V, S>, D, V, S, G>(tn, tl, points.take(n), old_end.pos, res)
            &&& match res {
                Some(j) => end == j,
                None => n < points.len() && end == n && points[n] == old_end,
            }
        }
}

/// Where old edge `i` ends now: a looked-up end is what the search of the
/// tree (holding the points of `held`) found, or a copy when it found none;
/// any other end is a copy of the old end point.
pub open spec fn end_ok<D, V: Copy, S, G: Geometry<V, S>>(
    new: Seq<Edge<S>>,
    points: Seq<Point<V, S>>,
    curve: Seq<Edge<S>>,
    plan: Seq<EdgePlan<S>>,
    old_points: Seq<Point<V, S>>,
    held: Multiset<usize>,
    i: int,
) -> bool {
    let end = end_of(new, curve, plan, old_points, i);
    let old_end = old_points[curve[i].i1 as int];
    if looked_up(curve, old_points, i) {
        looked_up_end::<D, V, S, G>(points, held, old_end, end)
    } else {
        0 <= end < points.len() && points[end] == old_end
    }
}

/// Every old edge before `k` that was not merged ends as `end_ok` says.
pub open spec fn lookups_ok<D, V: Copy, S, G: Geometry<V, S>>(
    new: Seq<Edge<S>>,
    points: Seq<Point<V, S>>,
    curve: Seq<Edge<S>>,
    plan: Seq<EdgePlan<S>>,
    old_points: Seq<Point<V, S>>,
    held: Multiset<usize>,
    k: int,
) -> bool {
    forall|i: int|
        0 <= i < k && !merged(curve, plan, old_points, i) ==> #[trigger] end_ok::<D, V, S, G>(
            new,
            points,
            curve,
            plan,
            old_points,
            held,
            i,
        )
}

/// The new curve `new` has the edges the old edges of `curve` give, and its
/// ends are as `lookups_ok` says, against a tree holding `held`.
pub open spec fn curve_looked_up<D, V: Copy, S, G: Geometry<V, S>>(
    new: Seq<Edge<S>>,
    points: Seq<Point<V, S>>,
    curve: Seq<Edge<S>>,
    plan: Seq<EdgePlan<S>>,
    old_points: Seq<Point<V, S>>,
    held: Multiset<usize>,
) -> bool {
    &&& new.len() == new_edges(curve, plan, old_points, curve.len() as int)
    &&& lookups_ok::<D, V, S, G>(new, points, curve, plan, old_points, held, curve.len() as int)
}

/// For each non-empty old curve before `c`, `curve_looked_up` holds of its
/// new curve, against the tree of its layer.
pub open spec fn curves_looked_up<D, V: Copy, S, G: Geometry<V, S>>(
    new_curves: Seq<Vec<Edge<S>>>,
    points: Seq<Point<V, S>>,
    old_curves: Seq<Vec<Edge<S>>>,
    plans: Seq<Vec<EdgePlan<S>>>,
    old_points: Seq<Point<V, S>>,
    trees: Seq<QuadTree<Point<V, S>, D, V, S>>,
    c: int,
) -> bool {
    forall|c2: int|
        0 <= c2 < c && old_curves[c2]@.len() > 0 ==> #[trigger] curve_looked_up::<D, V, S, G>(
            new_curves[nonempty_upto(old_curves, c2) as int]@,
            points,
            old_curves[c2]@,
            plans[c2]@,
            old_points,
            trees[old_points[old_curves[c2]@[0].i0 as int].layer as int].contents(),
        )
}

/// A search of a tree for the position of `old_end`, over the points
/// `before`, whose outcome is `end` (the point found, or a copy appended as
/// `end`), gives `looked_up_end` against any tree contents that agree with
/// the searched tree below the searched points.
proof fn lemma_looked_up_end_from_search<D, V: Copy, S, G: Geometry<V, S>>(
    points: Seq<Point<V, S>>,
    before: Seq<Point<V, S>>,
    tn: Seq<Node<D, V>>,
    tl: Seq<Idx<Point<V, S>>>,
    held: Multiset<usize>,
    old_end: Point<V, S>,
    end: int,
    res: Option<usize>,
)
    requires
        tree_wf(tn, tl),
        connected(tn),
        forall|k: usize| k < before.len() && #[trigger] held.count(k) > 0 ==> held_upto(tn, tl, tn.len()).count(k) > 0,
        search_result::<Point<V, S>, D, V, S, G>(tn, tl, before, old_end.pos, res),
        match res {
            Some(j) => end == j && points == before,
            None => end == before.len() && points == before.push(old_end),
        },
    ensures
        looked_up_end::<D, V, S, G>(points, held, old_end, end),
{
    let n = before.len() as int;
    assert(points.take(n) =~= before);
}

/// `curves_looked_up` stays true when points are appended and the trees
/// only gain points from there on.
proof fn lemma_curves_looked_up_frame<D, V: Copy, S, G: Geometry<V, S>>(
    new_curves: Seq<Vec<Edge<S>>>,
    p1: Seq<Point<V, S>>,
    p2: Seq<Point<V, S>>,
    old_curves: Seq<Vec<Edge<S>>>,
    plans: Seq<Vec<EdgePlan<S>>>,
    old_points: Seq<Point<V, S>>,
    t1: Seq<QuadTree<Point<V, S>, D, V, S>>,
    t2: Seq<QuadTree<Point<V, S>, D, V, S>>,
    c: int,
)
    requires
        p1.len() <= p2.len(),
        forall|x: int| 0 <= x < p1.len() ==> #[trigger] p2[x] == p1[x],
        t1.len() == t2.len(),
        same_below(t1, t2, p1.len() as int),
        forall|c2: int|
            0 <= c2 < c && old_curves[c2]@.len() > 0 ==> old_points[#[trigger] old_curves[c2]@[0].i0 as int].layer < t1.len(),
        curves_looked_up::<D, V, S, G>(new_curves, p1, old_curves, plans, old_points, t1, c),
    ensures
        curves_looked_up::<D, V, S, G>(new_curves, p2, old_curves, plans, old_points, t2, c),
{
    assert forall|c2: int| 0 <= c2 < c && old_curves[c2]@.len() > 0 implies #[trigger] curve_looked_up::<D, V, S, G>(
        new_curves[nonempty_upto(old_curves, c2) as int]@,
        p2,
        old_curves[c2]@,
        plans[c2]@,
        old_points,
        t2[old_points[old_curves[c2]@[0].i0 as int].layer as int].contents(),
    ) by {
        let l = old_points[old_curves[c2]@[0].i0 as int].layer as int;
        let nc = new_curves[nonempty_upto(old_curves, c2) as int]@;
        assert(curve_looked_up::<D, V, S, G>(nc, p1, old_curves[c2]@, plans[c2]@, old_points, t1[l].contents()));
        assert(old_points[old_curves[c2]@[0].i0 as int].layer < t1.len());
        assert forall|x: usize| x < p1.len() implies #[trigger] t2[l].contents().count(x) == t1[l].contents().count(x) by {}
        lemma_lookups_frame::<D, V, S, G>(
            nc,
            nc,
            p1,
            p2,
            t1[l].contents(),
            t2[l].contents(),
            old_curves[c2]@,
            plans[c2]@,
            old_points,
            old_curves[c2]@.len() as int,
        );
    }
}

/// `curves_looked_up` extends over an empty old curve, or over a non-empty
/// one whose new curve is appended.
proof fn lemma_curves_looked_up_next<D, V: Copy, S, G: Geometry<V, S>>(
    new_curves: Seq<Vec<Edge<S>>>,
    cw: Vec<Edge<S>>,
    points: Seq<Point<V, S>>,
    old_curves: Seq<Vec<Edge<S>>>,
    plans: Seq<Vec<EdgePlan<S>>>,
    old_points: Seq<Point<V, S>>,
    trees: Seq<QuadTree<Point<V, S>, D, V, S>>,
    c: int,
)
    requires
        0 <= c < old_curves.len(),
        new_curves.len() == nonempty_upto(old_curves, c),
        curves_looked_up::<D, V, S, G>(new_curves, points, old_curves, plans, old_points, trees, c),
        old_curves[c]@.len() > 0 ==> curve_looked_up::<D, V, S, G>(
            cw@,
            points,
            old_curves[c]@,
            plans[c]@,
            old_points,
            trees[old_points[old_curves[c]@[0].i0 as int].layer as int].contents(),
        ),
    ensures
        old_curves[c]@.len() == 0 ==> curves_looked_up::<D, V, S, G>(new_curves, points, old_curves, plans, old_points, trees, c + 1),
        old_curves[c]@.len() > 0 ==> curves_looked_up::<D, V, S, G>(
            new_curves.push(cw),
            points,
            old_curves,
            plans,
            old_points,
            trees,
            c + 1,
        ),
{
    let nc = new_curves.push(cw);
    if old_curves[c]@.len() == 0 {
        assert forall|c2: int| 0 <= c2 < c + 1 && old_curves[c2]@.len() > 0 implies #[trigger] curve_looked_up::<D, V, S, G>(
            new_curves[nonempty_upto(old_curves, c2) as int]@,
            points,
            old_curves[c2]@,
            plans[c2]@,
            old_points,
            trees[old_points[old_curves[c2]@[0].i0 as int].layer as int].contents(),
        ) by {
            assert(c2 < c);
        }
    } else {
        assert forall|c2: int| 0 <= c2 < c + 1 && old_curves[c2]@.len() > 0 implies #[trigger] curve_looked_up::<D, V, S, G>(
            nc[nonempty_upto(old_curves, c2) as int]@,
            points,
            old_curves[c2]@,
            plans[c2]@,
            old_points,
            trees[old_points[old_curves[c2]@[0].i0 as int].layer as int].contents(),
        ) by {
            if c2 < c {
                lemma_nonempty_upto_monotone(old_curves, c2 + 1, c);
                assert(nc[nonempty_upto(old_curves, c2) as int] == new_curves[nonempty_upto(old_curves, c2) as int]);
            } else {
                assert(c2 == c);
                assert(nc[nonempty_upto(old_curves, c2) as int] == cw);
            }
        }
    }
}

proof fn lemma_new_edges_monotone<V, S>(
    curve: Seq<Edge<S>>,
    plan: Seq<EdgePlan<S>>,
    old_points: Seq<Point<V, S>>,
    a: int,
    b: int,
)
    requires
        0 <= a <= b,
    ensures
        new_edges(curve, plan, old_points, a) <= new_edges(curve, plan, old_points, b),
    decreases b - a,
{
    if a < b {
        lemma_new_edges_monotone(curve, plan, old_points, a, b - 1);
    }
}

/// What `edge_done` says of old edge `i` stays true when new edges are
/// appended after its own and points after the existing ones.
proof fn lemma_edge_done_frame<V, S, G: Geometry<V, S>>(
    new1: Seq<Edge<S>>,
    new2: Seq<Edge<S>>,
    p1: Seq<Point<V, S>>,
    p2: Seq<Point<V, S>>,
    curve: Seq<Edge<S>>,
    plan: Seq<EdgePlan<S>>,
    old_points: Seq<Point<V, S>>,
    acc1: Seq<S>,
    acc2: Seq<S>,
    layer: usize,
    zero_v: V,
    i: int,
)
    requires
        0 <= i,
        new_edges(curve, plan, old_points, i + 1) <= new1.len() <= new2.len(),
        forall|x: int| 0 <= x < new1.len() ==> #[trigger] new2[x] == new1[x],
        p1.len() <= p2.len(),
        forall|x: int| 0 <= x < p1.len() ==> #[trigger] p2[x] == p1[x],
        i < acc1.len() <= acc2.len(),
        forall|x: int| 0 <= x < acc1.len() ==> #[trigger] acc2[x] == acc1[x],
        edge_done::<V, S, G>(new1, p1, curve, plan, old_points, acc1, layer, zero_v, i),
    ensures
        edge_done::<V, S, G>(new2, p2, curve, plan, old_points, acc2, layer, zero_v, i),
{
    let e = new_edges(curve, plan, old_points, i) as int;
    assert(acc2[i] == acc1[i]);
    if !merged(curve, plan, old_points, i) {
        assert(new2[e] == new1[e]);
        if split_at(curve, plan, old_points, i) {
            assert(new2[e + 1] == new1[e + 1]);
            assert(p2[new1[e].i1 as int] == p1[new1[e].i1 as int]);
            assert(p2[new1[e + 1].i1 as int] == p1[new1[e + 1].i1 as int]);
        } else {
            assert(p2[new1[e].i1 as int] == p1[new1[e].i1 as int]);
        }
    }
}

/// `resampled` stays true when points are appended.
proof fn lemma_resampled_frame<V, S, G: Geometry<V, S>>(
    new: Seq<Edge<S>>,
    p1: Seq<Point<V, S>>,
    p2: Seq<Point<V, S>>,
    curve: Seq<Edge<S>>,
    plan: Seq<EdgePlan<S>>,
    old_points: Seq<Point<V, S>>,
    zero: S,
    layer: usize,
    zero_v: V,
)
    requires
        p1.len() <= p2.len(),
        forall|x: int| 0 <= x < p1.len() ==> #[trigger] p2[x] == p1[x],
        resampled::<V, S, G>(new, p1, curve, plan, old_points, zero, layer, zero_v),
    ensures
        resampled::<V, S, G>(new, p2, curve, plan, old_points, zero, layer, zero_v),
{
    let acc = choose|acc: Seq<S>|
        #![trigger resampled_upto::<V, S, G>(new, p1, curve, plan, old_points, zero, acc, layer, zero_v, curve.len() as int)]
        resampled_upto::<V, S, G>(new, p1, curve, plan, old_points, zero, acc, layer, zero_v, curve.len() as int);
    assert(p2[new[0].i0 as int] == p1[new[0].i0 as int]);
    assert(p2[new.last().i1 as int] == p1[new.last().i1 as int]);
    assert forall|i: int| 0 <= i < curve.len() implies #[trigger] edge_done::<V, S, G>(
        new,
        p2,
        curve,
        plan,
        old_points,
        acc,
        layer,
        zero_v,
        i,
    ) by {
        lemma_new_edges_monotone(curve, plan, old_points, i + 1, curve.len() as int);
        lemma_edge_done_frame::<V, S, G>(new, new, p1, p2, curve, plan, old_points, acc, acc, layer, zero_v, i);
    }
    assert(resampled_upto::<V, S, G>(new, p2, curve, plan, old_points, zero, acc, layer, zero_v, curve.len() as int));
}

proof fn lemma_nonempty_upto_monotone<S>(curves: Seq<Vec<Edge<S>>>, c: int, d: int)
    requires
        0 <= c <= d,
    ensures
        nonempty_upto(curves, c) <= nonempty_upto(curves, d),
    decreases d - c,
{
    if c < d {
        lemma_nonempty_upto_monotone(curves, c, d - 1);
    }
}

/// What `lookups_ok` says stays true when new edges and points are appended
/// and the trees only gain points from there on.
proof fn lemma_lookups_frame<D, V: Copy, S, G: Geometry<V, S>>(
    new1: Seq<Edge<S>>,
    new2: Seq<Edge<S>>,
    p1: Seq<Point<V, S>>,
    p2: Seq<Point<V, S>>,
    held1: Multiset<usize>,
    held2: Multiset<usize>,
    curve: Seq<Edge<S>>,
    plan: Seq<EdgePlan<S>>,
    old_points: Seq<Point<V, S>>,
    k: int,
)
    requires
        0 <= k,
        new_edges(curve, plan, old_points, k) <= new1.len() <= new2.len(),
        forall|x: int| 0 <= x < new1.len() ==> #[trigger] new2[x] == new1[x],
        p1.len() <= p2.len(),
        forall|x: int| 0 <= x < p1.len() ==> #[trigger] p2[x] == p1[x],
        forall|x: usize| x < p1.len() ==> #[trigger] held2.count(x) == held1.count(x),
        lookups_ok::<D, V, S, G>(new1, p1, curve, plan, old_points, held1, k),
    ensures
        lookups_ok::<D, V, S, G>(new2, p2, curve, plan, old_points, held2, k),
{
    assert forall|i: int| 0 <= i < k && !merged(curve, plan, old_points, i) implies #[trigger] end_ok::<D, V, S, G>(
        new2,
        p2,
        curve,
        plan,
        old_points,
        held2,
        i,
    ) by {
        assert(end_ok::<D, V, S, G>(new1, p1, curve, plan, old_points, held1, i));
        lemma_new_edges_monotone(curve, plan, old_points, i + 1, k);
        let e = new_edges(curve, plan, old_points, i) + if split_at(curve, plan, old_points, i) {
            1int
        } else {
            0int
        };
        assert(new2[e] == new1[e]);
        let end = end_of(new1, curve, plan, old_points, i);
        let old_end = old_points[curve[i].i1 as int];
        if looked_up(curve, old_points, i) {
            let (tn, tl, n, res) = choose|tn: Seq<Node<D, V>>, tl: Seq<Idx<Point<V, S>>>, n: int, res: Option<usize>|
                #![trigger search_result::<Point<V, S>, D, V, S, G>(tn, tl, p1.take(n), old_end.pos, res)]
                {
                    &&& 0 <= n <= p1.len()
                    &&& tree_wf(tn, tl)
                    &&& connected(tn)
                    &&& forall|k: usize| k < n && #[trigger] held1.count(k) > 0 ==> held_upto(tn, tl, tn.len()).count(k) > 0
                    &&& search_result::<Point<V, S>, D, V, S, G>(tn, tl, p1.take(n), old_end.pos, res)
                    &&& match res {
                        Some(j) => end == j,
                        None => n < p1.len() && end == n && p1[n] == old_end,
                    }
                };
            assert(p2.take(n) =~= p1.take(n));
            assert forall|x: usize| x < n && #[trigger] held2.count(x) > 0 implies held_upto(tn, tl, tn.len()).count(x) > 0 by {
                assert(held1.count(x) > 0);
            }
            if res is None {
                assert(p2[n] == p1[n]);
            }
        } else {
            assert(p2[end] == p1[end]);
        }
    }
}

proof fn lemma_edges_upto_monotone<S>(curves: Seq<Vec<Edge<S>>>, c: int, d: int)
    requires
        0 <= c <= d,
    ensures
        edges_upto(curves, c) <= edges_upto(curves, d),
    decreases d - c,
{
    if c < d {
        lemma_edges_upto_monotone(curves, c, d - 1);
    }
}

/// Every tree is connected.
pub open spec fn all_connected<T, D, V, S>(trees: Seq<QuadTree<T, D, V, S>>) -> bool {
    forall|l: int| 0 <= l < trees.len() ==> #[trigger] connected(trees[l].nodes@)
}

/// Every tree of `b` holds each index below `n` as often as the same tree of
/// `a` does.
pub open spec fn same_below<T, D, V, S>(a: Seq<QuadTree<T, D, V, S>>, b: Seq<QuadTree<T, D, V, S>>, n: int) -> bool {
    forall|l: int, k: usize|
        0 <= l < a.len() && k < n ==> #[trigger] b[l].contents().count(k) == a[l].contents().count(k)
}

/// Appends `p` and inserts it into the tree of `layer`.
fn push_point<V: Copy, S: Copy, D: QTreeData<Point<V, S>, V>, G: Geometry<V, S>>(
    points: &mut Vec<Point<V, S>>,
    trees: &mut Vec<QuadTree<Point<V, S>, D, V, S>>,
    layer: usize,
    p: Point<V, S>,
) -> (r: usize)
    requires
        layer < old(trees)@.len(),
        old(points)@.len() < usize::MAX,
        trees_ok(old(trees)@, old(points)@.len()),
    ensures
        r == old(points)@.len(),
        final(points)@ == old(points)@.push(p),
        trees_ok(final(trees)@, final(points)@.len()),
        same_squares(old(trees)@, final(trees)@),
        same_below(old(trees)@, final(trees)@, old(points)@.len() as int),
        all_connected(old(trees)@) ==> all_connected(final(trees)@),
{
    let ghost before = trees@;
    points.push(p);
    let k = points.len() - 1;
    proof {
        assert forall|l: int| 0 <= l < trees@.len() implies #[trigger] trees@[l].items_below(points@.len()) by {
            assert(before[l].items_below((points@.len() - 1) as nat));
        }
        assert(before[layer as int].wf());
    }
    trees[layer].insert_item::<G>(None, points, k);
    proof {
        assert forall|l: int| 0 <= l < trees@.len() && l != layer implies #[trigger] trees@[l] == before[l] by {}
        assert forall|l: int| #![trigger trees@[l]] 0 <= l < trees@.len() implies trees@[l].wf() && trees@[l].items_below(points@.len()) by {
            assert(before[l].wf());
            if l != layer {
                assert(before[l].items_below((points@.len() - 1) as nat));
            }
        }
        assert forall|l: int, x: usize| 0 <= l < before.len() && x < k implies #[trigger] trees@[l].contents().count(x)
            == before[l].contents().count(x) by {
            broadcast use vstd::multiset::group_multiset_axioms;

            if l != layer {
                assert(trees@[l] == before[l]);
            }
        }
        if all_connected(before) {
            assert forall|l: int| 0 <= l < trees@.len() implies #[trigger] connected(trees@[l].nodes@) by {
                assert(connected(before[l].nodes@));
                if l != layer {
                    assert(trees@[l] == before[l]);
                }
            }
        }
    }
    k
}

/// The index of a point at `pos` in the tree of `layer`, if the tree finds one.
fn find_point<V: Copy, S: Copy, D: QTreeData<Point<V, S>, V>, G: Geometry<V, S>>(
    points: &Vec<Point<V, S>>,
    trees: &Vec<QuadTree<Point<V, S>, D, V, S>>,
    layer: usize,
    pos: V,
) -> (r: Option<usize>)
    requires
        layer < trees@.len(),
        trees_ok(trees@, points@.len()),
    ensures
        r matches Some(j) ==> j < points@.len() && trees@[layer as int].contents().count(j) > 0,
        search_result::<Point<V, S>, D, V, S, G>(
            trees@[layer as int].nodes@,
            trees@[layer as int].leaf_items@,
            points@,
            pos,
            r,
        ),
{
    assert(trees@[layer as int].wf());
    match trees[layer].find_item::<G>(points, pos) {
        Some(i) => Some(i.as_usize()),
        None => None,
    }
}

/// The index of old point `o` among the rebuilt points: when `look` holds, a
/// point the tree of `layer` finds at its position; otherwise, or when there
/// is none, a copy appended to `points` (recorded in `copies` for a carried
/// point).
fn place_old_point<V: Copy, S: Copy, D: QTreeData<Point<V, S>, V>, G: Geometry<V, S>>(
    points: &mut Vec<Point<V, S>>,
    trees: &mut Vec<QuadTree<Point<V, S>, D, V, S>>,
    layer: usize,
    old_points: &Vec<Point<V, S>>,
    o: usize,
    look: bool,
    copies: &mut HashMap<usize, usize>,
) -> (r: usize)
    requires
        layer < old(trees)@.len(),
        o < old_points@.len(),
        old(points)@.len() < usize::MAX,
        trees_ok(old(trees)@, old(points)@.len()),
        copies_ok(old(copies)@, old(points)@, old_points@),
    ensures
        r < final(points)@.len(),
        final(points)@ == old(points)@ || final(points)@ == old(points)@.push(old_points@[o as int]),
        trees_ok(final(trees)@, final(points)@.len()),
        same_squares(old(trees)@, final(trees)@),
        copies_ok(final(copies)@, final(points)@, old_points@),
        stands_for::<V, S, G>(final(points)@, r as int, old_points@, o as int),
        same_below(old(trees)@, final(trees)@, old(points)@.len() as int),
        all_connected(old(trees)@) ==> all_connected(final(trees)@),
        look ==> exists|res: Option<usize>|
            #![trigger search_result::<Point<V, S>, D, V, S, G>(old(trees)@[layer as int].nodes@, old(trees)@[layer as int].leaf_items@, old(points)@, old_points@[o as int].pos, res)]
            search_result::<Point<V, S>, D, V, S, G>(
                old(trees)@[layer as int].nodes@,
                old(trees)@[layer as int].leaf_items@,
                old(points)@,
                old_points@[o as int].pos,
                res,
            ) && match res {
                Some(j) => r == j && final(points)@ == old(points)@,
                None => r == old(points)@.len() && final(points)@ == old(points)@.push(old_points@[o as int]),
            },
        !look ==> r == old(points)@.len() && final(points)@ == old(points)@.push(old_points@[o as int]),
{
    broadcast use vstd::std_specs::hash::group_hash_axioms;

    let p = old_points[o];
    let found = if look {
        find_point::<V, S, D, G>(points, trees, layer, p.pos)
    } else {
        None
    };
    match found {
        Some(j) => {
            proof {
                let t = trees@[layer as int];
                let path = choose|path: Seq<int>|
                    #![trigger search_path::<D, V, S, G>(t.nodes@, p.pos, path)]
                    search_path::<D, V, S, G>(t.nodes@, p.pos, path) && search_end::<Point<V, S>, D, V, S, G>(
                        t.nodes@,
                        t.leaf_items@,
                        points@,
                        p.pos,
                        path.last(),
                        Some(j),
                    );
                assert(t.nodes@[path.last()].is_leaf);
                assert(scan_result::<Point<V, S>, D, V, S, G>(t.nodes@, t.leaf_items@, points@, p.pos, path.last(), Some(j)));
                assert(reported_same::<Point<V, S>, V, S, G>(points@[j as int], p.pos, true));
                let q = choose|q: V|
                    #![trigger call_ensures(<Point<V, S> as crate::tree::QTreeItem<V>>::get_pos, (&points@[j as int],), q)]
                    call_ensures(<Point<V, S> as crate::tree::QTreeItem<V>>::get_pos, (&points@[j as int],), q)
                        && call_ensures(G::same, (&q, &p.pos), true);
                assert(q == points@[j as int].pos);
            }
            j
        },
        None => {
            let ghost p0 = points@;
            let j = push_point::<V, S, D, G>(points, trees, layer, p);
            proof {
                assert forall|k: usize| #[trigger] copies@.contains_key(k) implies copies@[k] < points@.len()
                    && points@[copies@[k] as int] == old_points@[k as int] by {
                    assert(p0[copies@[k] as int] == old_points@[k as int]);
                }
            }
            if let PointType::Child { .. } = p.point_type {
                copies.insert(o, j);
            }
            j
        },
    }
}

/// Rebuilds the curves from the old points and curves and the plan of every
/// edge. Each non-empty curve gives one curve, in order: its first point is
/// placed (found in the tree of its layer, or copied), then each edge in turn
/// either is merged into the next one (when planned, when it is not the last
/// edge, when its end is a free joint with two edges, and when the edge
/// before was not merged), or is
/// first split at its midpoint (when planned and the edge before was not
/// merged) and then ends at its old end point, found again in the tree (for
/// the last edge or a joint with more than one edge) or copied. Rest lengths
/// add up over merged edges; a split half gets half of the sum, but at least
/// the planned half segment. `points` receives the new points, the trees
/// index them, and `copies` records where each carried point was copied.
/// With connected trees, an end that is looked up is the point the search of
/// the tree of its layer found, and a copy only when it found none
/// (`curves_looked_up`).
#[verifier::spinoff_prover]
pub fn resample_curves<V: Copy, S: Copy, D: QTreeData<Point<V, S>, V>, G: Geometry<V, S>>(
    points: &mut Vec<Point<V, S>>,
    trees: &mut Vec<QuadTree<Point<V, S>, D, V, S>>,
    old_points: &Vec<Point<V, S>>,
    old_curves: &Vec<Vec<Edge<S>>>,
    plans: &Vec<Vec<EdgePlan<S>>>,
    zero_s: S,
    zero_v: V,
    copies: &mut HashMap<usize, usize>,
) -> (curves: Vec<Vec<Edge<S>>>)
    requires
        plans@.len() == old_curves@.len(),
        forall|c: int| 0 <= c < old_curves@.len() ==> #[trigger] plans@[c]@.len() == old_curves@[c]@.len(),
        forall|c: int| 0 <= c < old_curves@.len() ==> ends_below(#[trigger] old_curves@[c]@, old_points@.len()),
        forall|c: int|
            0 <= c < old_curves@.len() && old_curves@[c]@.len() > 0 ==> old_points@[#[trigger] old_curves@[c]@[0].i0 as int].layer
                < old(trees)@.len(),
        old(points)@.len() + 2 * edges_upto(old_curves@, old_curves@.len() as int) + old_curves@.len() < usize::MAX,
        trees_ok(old(trees)@, old(points)@.len()),
        copies_ok(old(copies)@, old(points)@, old_points@),
    ensures
        curves@.len() == nonempty_upto(old_curves@, old_curves@.len() as int),
        forall|c: int| 0 <= c < curves@.len() ==> is_chain(#[trigger] curves@[c]@),
        forall|c: int| 0 <= c < curves@.len() ==> ends_below(#[trigger] curves@[c]@, final(points)@.len()),
        final(points)@.subrange(0, old(points)@.len() as int) == old(points)@,
        rebuilt_from(final(points)@, old(points)@.len() as int, old_points@),
        trees_ok(final(trees)@, final(points)@.len()),
        same_squares(old(trees)@, final(trees)@),
        copies_ok(final(copies)@, final(points)@, old_points@),
        forall|c: int|
            0 <= c < old_curves@.len() && old_curves@[c]@.len() > 0 ==> #[trigger] resampled::<V, S, G>(
                curves@[nonempty_upto(old_curves@, c) as int]@,
                final(points)@,
                old_curves@[c]@,
                plans@[c]@,
                old_points@,
                zero_s,
                old_points@[old_curves@[c]@[0].i0 as int].layer,
                zero_v,
            ),
        all_connected(old(trees)@) ==> curves_looked_up::<D, V, S, G>(
            curves@,
            final(points)@,
            old_curves@,
            plans@,
            old_points@,
            final(trees)@,
            old_curves@.len() as int,
        ),
{
    let ghost n0 = points@.len();
    let ghost p_init = points@;
    let ghost t_init = trees@;
    let ncurves = old_curves.len();
    let mut curves: Vec<Vec<Edge<S>>> = Vec::new();
    let mut c: usize = 0;
    while c < ncurves
        invariant
            ncurves == old_curves@.len(),
            0 <= c <= ncurves,
            plans@.len() == ncurves,
            forall|c2: int| 0 <= c2 < ncurves ==> #[trigger] plans@[c2]@.len() == old_curves@[c2]@.len(),
            forall|c2: int| 0 <= c2 < ncurves ==> ends_below(#[trigger] old_curves@[c2]@, old_points@.len()),
            forall|c2: int|
                0 <= c2 < ncurves && old_curves@[c2]@.len() > 0 ==> old_points@[#[trigger] old_curves@[c2]@[0].i0 as int].layer
                    < trees@.len(),
            n0 + 2 * edges_upto(old_curves@, ncurves as int) + ncurves < usize::MAX,
            points@.len() <= n0 + 2 * edges_upto(old_curves@, c as int) + c,
            points@.subrange(0, n0 as int) == p_init,
            n0 == p_init.len(),
            n0 <= points@.len(),
            rebuilt_from(points@, n0 as int, old_points@),
            trees_ok(trees@, points@.len()),
            same_squares(t_init, trees@),
            t_init == old(trees)@,
            copies_ok(copies@, points@, old_points@),
            curves@.len() == nonempty_upto(old_curves@, c as int),
            forall|k: int| 0 <= k < curves@.len() ==> is_chain(#[trigger] curves@[k]@),
            forall|k: int| 0 <= k < curves@.len() ==> ends_below(#[trigger] curves@[k]@, points@.len()),
            forall|c2: int|
                0 <= c2 < c && old_curves@[c2]@.len() > 0 ==> #[trigger] resampled::<V, S, G>(
                    curves@[nonempty_upto(old_curves@, c2) as int]@,
                    points@,
                    old_curves@[c2]@,
                    plans@[c2]@,
                    old_points@,
                    zero_s,
                    old_points@[old_curves@[c2]@[0].i0 as int].layer,
                    zero_v,
                ),
            all_connected(t_init) ==> all_connected(trees@),
            all_connected(t_init) ==> curves_looked_up::<D, V, S, G>(curves@, points@, old_curves@, plans@, old_points@, trees@, c as int),
        decreases ncurves - c,
    {
        let curve = &old_curves[c];
        let plan = &plans[c];
        let len = curve.len();
        proof {
            lemma_edges_upto_monotone(old_curves@, c as int + 1, ncurves as int);
            assert(edges_upto(old_curves@, c as int + 1) == edges_upto(old_curves@, c as int) + len);
        }
        if len == 0 {
            proof {
                assert forall|c2: int|
                    0 <= c2 < c + 1 && old_curves@[c2]@.len() > 0 implies #[trigger] resampled::<V, S, G>(
                        curves@[nonempty_upto(old_curves@, c2) as int]@,
                        points@,
                        old_curves@[c2]@,
                        plans@[c2]@,
                        old_points@,
                        zero_s,
                        old_points@[old_curves@[c2]@[0].i0 as int].layer,
                        zero_v,
                    ) by {
                    assert(c2 < c);
                }
                if all_connected(t_init) {
                    lemma_curves_looked_up_next::<D, V, S, G>(
                        curves@,
                        old_curves@[c as int],
                        points@,
                        old_curves@,
                        plans@,
                        old_points@,
                        trees@,
                        c as int,
                    );
                }
            }
            c = c + 1;
            continue;
        }
        let first = old_points[curve[0].i0];
        let layer = first.layer;
        let ghost pc = points@;
        let ghost cc = curves@;
        let ghost tb0 = trees@;
        let mut i0 = place_old_point::<V, S, D, G>(points, trees, layer, old_points, curve[0].i0, true, copies);
        proof {
            assert(points@.subrange(0, n0 as int) =~= pc.subrange(0, n0 as int));
            assert forall|j: int| n0 <= j < points@.len() implies #[trigger] rebuilt_point(points@[j], old_points@) by {
                if j < pc.len() {
                    assert(points@[j] == pc[j]);
                } else {
                    assert(old_points@[curve@[0].i0 as int] == points@[j]);
                }
            }
            assert forall|k: int| 0 <= k < curves@.len() implies ends_below(#[trigger] curves@[k]@, points@.len()) by {
                assert(ends_below(curves@[k]@, pc.len()));
            }
        }
        let ghost pc0 = points@;
        let ghost tc0 = trees@;
        proof {
            assert forall|x: int| 0 <= x < pc.len() implies #[trigger] pc0[x] == pc[x] by {}
            if all_connected(t_init) {
                lemma_curves_looked_up_frame::<D, V, S, G>(curves@, pc, pc0, old_curves@, plans@, old_points@, tb0, tc0, c as int);
            }
            assert forall|c2: int|
                0 <= c2 < c && old_curves@[c2]@.len() > 0 implies #[trigger] resampled::<V, S, G>(
                    cc[nonempty_upto(old_curves@, c2) as int]@,
                    pc0,
                    old_curves@[c2]@,
                    plans@[c2]@,
                    old_points@,
                    zero_s,
                    old_points@[old_curves@[c2]@[0].i0 as int].layer,
                    zero_v,
                ) by {
                lemma_resampled_frame::<V, S, G>(
                    cc[nonempty_upto(old_curves@, c2) as int]@,
                    pc,
                    pc0,
                    old_curves@[c2]@,
                    plans@[c2]@,
                    old_points@,
                    zero_s,
                    old_points@[old_curves@[c2]@[0].i0 as int].layer,
                    zero_v,
                );
            }
        }
        let mut curve_write: Vec<Edge<S>> = Vec::new();
        let mut l0 = zero_s;
        let mut unsubdivide = false;
        let ghost mut acc: Seq<S> = Seq::empty();
        let mut i: usize = 0;
        proof {
            assert(resampled_upto::<V, S, G>(curve_write@, points@, curve@, plan@, old_points@, zero_s, acc, layer, zero_v, 0));
        }
        while i < len
            invariant
                all_connected(t_init) ==> all_connected(trees@),
                trees@.len() == tc0.len(),
                same_below(tc0, trees@, pc0.len() as int),
                all_connected(t_init) ==> curves_looked_up::<D, V, S, G>(cc, pc0, old_curves@, plans@, old_points@, tc0, c as int),
                all_connected(t_init) ==> lookups_ok::<D, V, S, G>(
                    curve_write@,
                    points@,
                    curve@,
                    plan@,
                    old_points@,
                    trees@[layer as int].contents(),
                    i as int,
                ),
                pc0.len() <= points@.len(),
                forall|x: int| 0 <= x < pc0.len() ==> #[trigger] points@[x] == pc0[x],
                curves@ == cc,
                forall|c2: int|
                    0 <= c2 < c && old_curves@[c2]@.len() > 0 ==> #[trigger] resampled::<V, S, G>(
                        cc[nonempty_upto(old_curves@, c2) as int]@,
                        pc0,
                        old_curves@[c2]@,
                        plans@[c2]@,
                        old_points@,
                        zero_s,
                        old_points@[old_curves@[c2]@[0].i0 as int].layer,
                        zero_v,
                    ),
                layer == old_points@[curve@[0].i0 as int].layer,
                len > 0,
                resampled_upto::<V, S, G>(curve_write@, points@, curve@, plan@, old_points@, zero_s, acc, layer, zero_v, i as int),
                unsubdivide == merged(curve@, plan@, old_points@, i - 1),
                unsubdivide ==> l0 == acc[i - 1],
                curve_write@.len() == 0 ==> stands_for::<V, S, G>(points@, i0 as int, old_points@, curve@[0].i0 as int),
                curve_write@.len() > 0 ==> stands_for::<V, S, G>(
                    points@,
                    curve_write@[0].i0 as int,
                    old_points@,
                    curve@[0].i0 as int,
                ),
                ncurves == old_curves@.len(),
                0 <= c < ncurves,
                curve == old_curves@[c as int],
                plan == plans@[c as int],
                len == curve@.len(),
                plan@.len() == len,
                0 <= i <= len,
                layer < trees@.len(),
                ends_below(curve@, old_points@.len()),
                n0 + 2 * edges_upto(old_curves@, ncurves as int) + ncurves < usize::MAX,
                edges_upto(old_curves@, c as int + 1) <= edges_upto(old_curves@, ncurves as int),
                edges_upto(old_curves@, c as int + 1) == edges_upto(old_curves@, c as int) + len,
                points@.len() <= n0 + 2 * (edges_upto(old_curves@, c as int) + i) + c + 1,
                points@.subrange(0, n0 as int) == p_init,
                n0 == p_init.len(),
                n0 <= points@.len(),
                rebuilt_from(points@, n0 as int, old_points@),
                trees_ok(trees@, points@.len()),
                same_squares(t_init, trees@),
                copies_ok(copies@, points@, old_points@),
                i0 < points@.len(),
                is_chain(curve_write@),
                ends_below(curve_write@, points@.len()),
                curve_write@.len() > 0 ==> curve_write@.last().i1 == i0,
                curves@.len() == nonempty_upto(old_curves@, c as int),
                forall|k: int| 0 <= k < curves@.len() ==> is_chain(#[trigger] curves@[k]@),
                forall|k: int| 0 <= k < curves@.len() ==> ends_below(#[trigger] curves@[k]@, points@.len()),
            decreases len - i,
        {
            let edge = curve[i];
            let step = plan[i];
            assert(edge.i0 < old_points@.len() && edge.i1 < old_points@.len()) by {
                assert(edge == curve@[i as int]);
            }
            let w = edge.w;
            if !unsubdivide {
                l0 = zero_s;
            }
            let ghost prev_l0 = l0;
            let ghost acc0 = acc;
            let ghost cw0 = curve_write@;
            let ghost ps0 = points@;
            l0 = G::sum(&l0, &edge.l0);
            proof {
                acc = acc.push(l0);
                assert(prev_l0 == carried_rest(curve@, plan@, old_points@, zero_s, acc, i as int));
                assert forall|x: int| 0 <= x < i implies carried_rest(curve@, plan@, old_points@, zero_s, acc, x)
                    == carried_rest(curve@, plan@, old_points@, zero_s, acc0, x) by {}
                assert forall|x: int| 0 <= x < i implies #[trigger] edge_done::<V, S, G>(
                    curve_write@,
                    points@,
                    curve@,
                    plan@,
                    old_points@,
                    acc,
                    layer,
                    zero_v,
                    x,
                ) by {
                    lemma_new_edges_monotone(curve@, plan@, old_points@, x + 1, i as int);
                    lemma_edge_done_frame::<V, S, G>(cw0, cw0, ps0, ps0, curve@, plan@, old_points@, acc0, acc, layer, zero_v, x);
                }
            }
            let end = old_points[edge.i1];
            let (neighbors, carried) = match end.point_type {
                PointType::Free { neighbors, .. } => (neighbors, false),
                PointType::Child { .. } => (0u32, true),
            };
            if step.merge && !unsubdivide && neighbors == 2 && !carried && i + 1 < len {
                proof {
                    assert(curve@[i as int] == edge);
                    assert(plan@[i as int] == step);
                    assert(merged(curve@, plan@, old_points@, i as int));
                    if all_connected(t_init) {
                        assert forall|x: int| 0 <= x < i + 1 && !merged(curve@, plan@, old_points@, x) implies #[trigger] end_ok::<
                            D,
                            V,
                            S,
                            G,
                        >(curve_write@, points@, curve@, plan@, old_points@, trees@[layer as int].contents(), x) by {
                            assert(x < i);
                        }
                    }
                    assert(new_edges(curve@, plan@, old_points@, i + 1) == new_edges(curve@, plan@, old_points@, i as int));
                    assert(edge_done::<V, S, G>(curve_write@, points@, curve@, plan@, old_points@, acc, layer, zero_v, i as int));
                }
                unsubdivide = true;
                i = i + 1;
                continue;
            }
            proof {
                assert(curve@[i as int] == edge);
                assert(plan@[i as int] == step);
                assert(!merged(curve@, plan@, old_points@, i as int));
            }
            let ghost ps = points@;
            let ghost ts = trees@;
            let ghost cw = curve_write@;
            let ghost i0_top = i0;
            let ghost mut mid: int = 0;
            let ghost mut hl: S = l0;
            if step.split && !unsubdivide {
                let p0 = old_points[edge.i0].pos;
                let p1 = end.pos;
                let net = old_points[edge.i0].net;
                let h = G::half(&l0);
                l0 = G::larger(&h, &step.half_segment);
                let mpos = G::midpoint(&p0, &p1);
                let mrad = G::half(&w);
                let mut point = Point::new_free(mpos, mrad, net, layer, zero_v);
                point.set_neighbors(2);
                let i1 = push_point::<V, S, D, G>(points, trees, layer, point);
                curve_write.push(Edge::new(i0, i1, w, l0));
                i0 = i1;
                proof {
                    mid = i1 as int;
                    hl = h;
                    assert(rebuilt_point(point, old_points@));
                    assert forall|j: int| n0 <= j < points@.len() implies #[trigger] rebuilt_point(points@[j], old_points@) by {
                        if j < ps.len() {
                            assert(points@[j] == ps[j]);
                        }
                    }
                    assert(points@.subrange(0, n0 as int) =~= ps.subrange(0, n0 as int));
                    assert forall|k: usize| #[trigger] copies@.contains_key(k) implies copies@[k] < points@.len()
                        && points@[copies@[k] as int] == old_points@[k as int] by {
                        assert(ps[copies@[k] as int] == old_points@[k as int]);
                    }
                    assert forall|k: int| 0 <= k < curves@.len() implies ends_below(#[trigger] curves@[k]@, points@.len()) by {
                        assert(ends_below(curves@[k]@, ps.len()));
                    }
                    assert forall|k: int| 0 <= k < curve_write@.len() implies #[trigger] curve_write@[k].i0 < points@.len()
                        && curve_write@[k].i1 < points@.len() by {
                        if k < cw.len() {
                            assert(curve_write@[k] == cw[k]);
                        }
                    }
                    assert forall|a: int, b: int| 0 <= a && b == a + 1 && b < curve_write@.len() implies #[trigger] curve_write@[a].i1
                        == #[trigger] curve_write@[b].i0 by {
                        if b < cw.len() {
                            assert(curve_write@[a] == cw[a]);
                            assert(curve_write@[b] == cw[b]);
                        }
                    }
                    assert(points@[mid] == point);
                    assert(edge.i0 == curve@[i as int].i0 && edge.i1 == curve@[i as int].i1 && w == curve@[i as int].w);
                    assert(midpoint_ok::<V, S, G>(points@, mid, curve@, old_points@, layer, zero_v, i as int));
                    assert(call_ensures(G::half, (&acc[i as int],), hl));
                }
            }
            let ghost did_split = step.split && !unsubdivide;
            unsubdivide = false;
            let look = i == len - 1 || neighbors > 1;
            let ghost ps2 = points@;
            let ghost tb2 = trees@;
            let ghost cw2 = curve_write@;
            let i1 = place_old_point::<V, S, D, G>(points, trees, layer, old_points, edge.i1, look, copies);
            curve_write.push(Edge::new(i0, i1, w, l0));
            i0 = i1;
            proof {
                assert(points@.subrange(0, n0 as int) =~= ps2.subrange(0, n0 as int));
                assert forall|j: int| n0 <= j < points@.len() implies #[trigger] rebuilt_point(points@[j], old_points@) by {
                    if j < ps2.len() {
                        assert(points@[j] == ps2[j]);
                    } else {
                        assert(old_points@[edge.i1 as int] == points@[j]);
                    }
                }
                assert forall|k: int| 0 <= k < curves@.len() implies ends_below(#[trigger] curves@[k]@, points@.len()) by {
                    assert(ends_below(curves@[k]@, ps2.len()));
                }
                assert forall|k: int| 0 <= k < curve_write@.len() implies #[trigger] curve_write@[k].i0 < points@.len()
                    && curve_write@[k].i1 < points@.len() by {
                    if k < cw2.len() {
                        assert(curve_write@[k] == cw2[k]);
                    }
                }
                assert forall|a: int, b: int| 0 <= a && b == a + 1 && b < curve_write@.len() implies #[trigger] curve_write@[a].i1
                    == #[trigger] curve_write@[b].i0 by {
                    if b < cw2.len() {
                        assert(curve_write@[a] == cw2[a]);
                        assert(curve_write@[b] == cw2[b]);
                    }
                }
                assert forall|x: int| 0 <= x < ps.len() implies #[trigger] points@[x] == ps[x] by {
                    assert(ps2[x] == ps[x]);
                }
                assert forall|x: int| 0 <= x < pc0.len() implies #[trigger] points@[x] == pc0[x] by {
                    assert(ps[x] == pc0[x]);
                }
                assert forall|x: int| 0 <= x < cw.len() implies #[trigger] curve_write@[x] == cw[x] by {
                    assert(cw2[x] == cw[x]);
                }
                let e = new_edges(curve@, plan@, old_points@, i as int) as int;
                assert(cw.len() == e);
                assert(edge.i1 == curve@[i as int].i1 && w == curve@[i as int].w);
                if did_split {
                    assert(split_at(curve@, plan@, old_points@, i as int));
                    assert(new_edges(curve@, plan@, old_points@, i + 1) == e + 2);
                    assert(curve_write@[e].i1 == mid);
                    assert(points@[mid] == ps2[mid]);
                    assert(midpoint_ok::<V, S, G>(points@, mid, curve@, old_points@, layer, zero_v, i as int));
                    assert(call_ensures(G::half, (&acc[i as int],), hl));
                } else {
                    assert(!split_at(curve@, plan@, old_points@, i as int));
                    assert(new_edges(curve@, plan@, old_points@, i + 1) == e + 1);
                }
                assert(edge_done::<V, S, G>(curve_write@, points@, curve@, plan@, old_points@, acc, layer, zero_v, i as int));
                assert forall|x: int| 0 <= x < i + 1 implies #[trigger] edge_done::<V, S, G>(
                    curve_write@,
                    points@,
                    curve@,
                    plan@,
                    old_points@,
                    acc,
                    layer,
                    zero_v,
                    x,
                ) by {
                    if x < i {
                        lemma_new_edges_monotone(curve@, plan@, old_points@, x + 1, i as int);
                        assert(edge_done::<V, S, G>(cw, ps, curve@, plan@, old_points@, acc, layer, zero_v, x));
                        lemma_edge_done_frame::<V, S, G>(cw, curve_write@, ps, points@, curve@, plan@, old_points@, acc, acc, layer, zero_v, x);
                    }
                }
                if cw.len() == 0 {
                    assert(curve_write@[0].i0 == i0_top);
                    assert(points@[i0_top as int] == ps[i0_top as int]);
                } else {
                    assert(curve_write@[0] == cw[0]);
                    assert(points@[cw[0].i0 as int] == ps[cw[0].i0 as int]);
                }
            }
            proof {
                if all_connected(t_init) {
                    let held = trees@[layer as int].contents();
                    let o = curve@[i as int].i1 as int;
                    assert(edge.i1 == curve@[i as int].i1);
                    assert forall|k: usize| k < ps.len() implies #[trigger] held.count(k) == ts[layer as int].contents().count(k) by {
                        assert(tb2[layer as int].contents().count(k) == ts[layer as int].contents().count(k));
                    }
                    assert forall|x: int| 0 <= x < ps.len() implies #[trigger] points@[x] == ps[x] by {
                        assert(ps2[x] == ps[x]);
                    }
                    assert forall|x: int| 0 <= x < cw.len() implies #[trigger] curve_write@[x] == cw[x] by {
                        assert(cw2[x] == cw[x]);
                    }
                    lemma_lookups_frame::<D, V, S, G>(
                        cw,
                        curve_write@,
                        ps,
                        points@,
                        ts[layer as int].contents(),
                        held,
                        curve@,
                        plan@,
                        old_points@,
                        i as int,
                    );
                    let e = cw2.len() as int;
                    assert(e == new_edges(curve@, plan@, old_points@, i as int) + if split_at(curve@, plan@, old_points@, i as int) {
                        1int
                    } else {
                        0int
                    });
                    assert(curve_write@[e].i1 == i1);
                    assert(end_of(curve_write@, curve@, plan@, old_points@, i as int) == i1);
                    if look {
                        assert(looked_up(curve@, old_points@, i as int));
                        let res = choose|res: Option<usize>|
                            #![trigger search_result::<Point<V, S>, D, V, S, G>(tb2[layer as int].nodes@, tb2[layer as int].leaf_items@, ps2, old_points@[o].pos, res)]
                            search_result::<Point<V, S>, D, V, S, G>(
                                tb2[layer as int].nodes@,
                                tb2[layer as int].leaf_items@,
                                ps2,
                                old_points@[o].pos,
                                res,
                            ) && match res {
                                Some(j) => i1 == j && points@ == ps2,
                                None => i1 == ps2.len() && points@ == ps2.push(old_points@[o]),
                            };
                        assert(tb2[layer as int].wf());
                        assert(connected(tb2[layer as int].nodes@));
                        assert forall|k: usize| k < ps2.len() && #[trigger] held.count(k) > 0 implies held_upto(
                            tb2[layer as int].nodes@,
                            tb2[layer as int].leaf_items@,
                            tb2[layer as int].nodes@.len(),
                        ).count(k) > 0 by {
                            assert(held.count(k) == tb2[layer as int].contents().count(k));
                        }
                        lemma_looked_up_end_from_search::<D, V, S, G>(
                            points@,
                            ps2,
                            tb2[layer as int].nodes@,
                            tb2[layer as int].leaf_items@,
                            held,
                            old_points@[o],
                            i1 as int,
                            res,
                        );
                    } else {
                        assert(!looked_up(curve@, old_points@, i as int));
                    }
                    assert(end_ok::<D, V, S, G>(curve_write@, points@, curve@, plan@, old_points@, held, i as int));
                    assert forall|x: int| 0 <= x < i + 1 && !merged(curve@, plan@, old_points@, x) implies #[trigger] end_ok::<
                        D,
                        V,
                        S,
                        G,
                    >(curve_write@, points@, curve@, plan@, old_points@, held, x) by {}
                }
            }
            i = i + 1;
        }
        proof {
            let cl = curve@.len() as int;
            assert(!merged(curve@, plan@, old_points@, cl - 1));
            let e = new_edges(curve@, plan@, old_points@, cl - 1) as int;
            assert(edge_done::<V, S, G>(curve_write@, points@, curve@, plan@, old_points@, acc, layer, zero_v, cl - 1));
            assert(curve_write@.len() > 0);
            assert(resampled::<V, S, G>(curve_write@, points@, curve@, plan@, old_points@, zero_s, layer, zero_v));
        }
        let ghost cc2 = curves@;
        let ghost new_curve = curve_write@;
        curves.push(curve_write);
        proof {
            assert forall|c2: int|
                0 <= c2 < c + 1 && old_curves@[c2]@.len() > 0 implies #[trigger] resampled::<V, S, G>(
                    curves@[nonempty_upto(old_curves@, c2) as int]@,
                    points@,
                    old_curves@[c2]@,
                    plans@[c2]@,
                    old_points@,
                    zero_s,
                    old_points@[old_curves@[c2]@[0].i0 as int].layer,
                    zero_v,
                ) by {
                if c2 < c {
                    lemma_nonempty_upto_monotone(old_curves@, c2 + 1, c as int);
                    assert(curves@[nonempty_upto(old_curves@, c2) as int] == cc[nonempty_upto(old_curves@, c2) as int]);
                    lemma_resampled_frame::<V, S, G>(
                        cc[nonempty_upto(old_curves@, c2) as int]@,
                        pc0,
                        points@,
                        old_curves@[c2]@,
                        plans@[c2]@,
                        old_points@,
                        zero_s,
                        old_points@[old_curves@[c2]@[0].i0 as int].layer,
                        zero_v,
                    );
                } else {
                    assert(curves@[nonempty_upto(old_curves@, c2) as int]@ == new_curve);
                }
            }
            assert forall|k: int| 0 <= k < curves@.len() implies is_chain(#[trigger] curves@[k]@) by {
                if k < cc2.len() {
                    assert(curves@[k] == cc2[k]);
                }
            }
            assert forall|k: int| 0 <= k < curves@.len() implies ends_below(#[trigger] curves@[k]@, points@.len()) by {
                if k < cc2.len() {
                    assert(curves@[k] == cc2[k]);
                }
            }
        }
        proof {
            if all_connected(t_init) {
                lemma_curves_looked_up_frame::<D, V, S, G>(cc, pc0, points@, old_curves@, plans@, old_points@, tc0, trees@, c as int);
                let cwv = curves@.last();
                assert(curves@ =~= cc.push(cwv));
                assert(cwv@.len() == new_edges(curve@, plan@, old_points@, len as int));
                lemma_curves_looked_up_next::<D, V, S, G>(cc, cwv, points@, old_curves@, plans@, old_points@, trees@, c as int);
            }
        }
        c = c + 1;
    }
    curves
}

} // verus!
