//! Whole-board bookkeeping over points, curves, vias, footprints and polygons:
//! edge counts and the reordering of points that keeps every reference intact.
use crate::permute::apply_permutation;
use crate::permute::inverse_permutation;
use crate::permute::is_permutation;
use crate::permute::sorted_by_key;
use crate::permute::sorted_order;
use crate::physics::Edge;
use crate::physics::Footprint;
use crate::physics::Polygon;
use crate::physics::Via;
use crate::tree::Geometry;
use crate::tree::QTreeData;
use crate::tree::QuadTree;
use crate::tree::search_result;
use crate::tree::deep;
use crate::tree::placed;
use crate::tree::summarised_tree;
use crate::tree::positions_fixed;
use crate::tree::lemma_placed_empty;
use crate::tree::lemma_deep_grows;
use crate::tree::lemma_same_shape_grows;
use crate::tree::InsertOutcome;
use crate::physics::Point;
use crate::physics::PointType;
use std::collections::HashMap;
use vstd::multiset::Multiset;
use vstd::prelude::*;

verus! {

/// The endpoints of a list of edges, in order: `i0` then `i1` of each edge.
pub open spec fn edge_endpoints<S>(edges: Seq<Edge<S>>) -> Seq<usize>
    decreases edges.len(),
{
    if edges.len() == 0 {
        Seq::empty()
    } else {
        edge_endpoints(edges.drop_last()).push(edges.last().i0).push(edges.last().i1)
    }
}

/// The endpoints of every edge of every curve, curve after curve.
pub open spec fn curves_endpoints<S>(curves: Seq<Vec<Edge<S>>>) -> Seq<usize>
    decreases curves.len(),
{
    if curves.len() == 0 {
        Seq::empty()
    } else {
        curves_endpoints(curves.drop_last()) + edge_endpoints(curves.last()@)
    }
}

/// How often `x` occurs in `s`.
pub open spec fn occurrences(s: Seq<usize>, x: usize) -> nat
    decreases s.len(),
{
    if s.len() == 0 {
        0
    } else {
        occurrences(s.drop_last(), x) + if s.last() == x {
            1nat
        } else {
            0nat
        }
    }
}

/// The number of edge ends at point `i`, over all curves (an edge from a point
/// to itself counts twice).
pub open spec fn degree<S>(curves: Seq<Vec<Edge<S>>>, i: usize) -> nat {
    occurrences(curves_endpoints(curves), i)
}

/// Every edge of every curve joins two points below `n`.
pub open spec fn curves_in_range<S>(curves: Seq<Vec<Edge<S>>>, n: nat) -> bool {
    forall|c: int, e: int|
        0 <= c < curves.len() && 0 <= e < curves[c]@.len() ==> #[trigger] curves[c]@[e].i0 < n
            && curves[c]@[e].i1 < n
}

/// `p` with `k` more edges counted, if it is a free point.
pub open spec fn with_more_neighbors<V, S>(p: Point<V, S>, k: nat) -> Point<V, S> {
    match p.point_type {
        PointType::Free { pos_prev, v, neighbors } => Point {
            point_type: PointType::Free { pos_prev, v, neighbors: (neighbors + k) as u32 },
            ..p
        },
        PointType::Child { .. } => p,
    }
}

proof fn lemma_occurrences_concat(s: Seq<usize>, t: Seq<usize>, x: usize)
    ensures
        occurrences(s + t, x) == occurrences(s, x) + occurrences(t, x),
    decreases t.len(),
{
    if t.len() == 0 {
        assert(s + t =~= s);
    } else {
        assert((s + t).drop_last() =~= s + t.drop_last());
        lemma_occurrences_concat(s, t.drop_last(), x);
    }
}

proof fn lemma_edge_endpoints_take<S>(es: Seq<Edge<S>>, e: int)
    requires
        0 <= e < es.len(),
    ensures
        edge_endpoints(es.take(e + 1)) == edge_endpoints(es.take(e)).push(es[e].i0).push(es[e].i1),
{
    assert(es.take(e + 1).drop_last() =~= es.take(e));
}

proof fn lemma_edge_endpoints_prefix<S>(es: Seq<Edge<S>>, e: int, x: usize)
    requires
        0 <= e <= es.len(),
    ensures
        occurrences(edge_endpoints(es.take(e)), x) <= occurrences(edge_endpoints(es), x),
    decreases es.len() - e,
{
    if e == es.len() {
        assert(es.take(e) =~= es);
    } else {
        lemma_edge_endpoints_take(es, e);
        let s = edge_endpoints(es.take(e));
        lemma_occurrences_push(s, es[e].i0, x);
        lemma_occurrences_push(s.push(es[e].i0), es[e].i1, x);
        lemma_edge_endpoints_prefix(es, e + 1, x);
    }
}

proof fn lemma_curves_endpoints_take<S>(cs: Seq<Vec<Edge<S>>>, c: int)
    requires
        0 <= c < cs.len(),
    ensures
        curves_endpoints(cs.take(c + 1)) == curves_endpoints(cs.take(c)) + edge_endpoints(cs[c]@),
{
    assert(cs.take(c + 1).drop_last() =~= cs.take(c));
}

proof fn lemma_curves_endpoints_prefix<S>(cs: Seq<Vec<Edge<S>>>, c: int, x: usize)
    requires
        0 <= c <= cs.len(),
    ensures
        occurrences(curves_endpoints(cs.take(c)), x) <= occurrences(curves_endpoints(cs), x),
    decreases cs.len() - c,
{
    if c == cs.len() {
        assert(cs.take(c) =~= cs);
    } else {
        lemma_curves_endpoints_take(cs, c);
        lemma_occurrences_concat(curves_endpoints(cs.take(c)), edge_endpoints(cs[c]@), x);
        lemma_curves_endpoints_prefix(cs, c + 1, x);
    }
}

proof fn lemma_occurrences_push(s: Seq<usize>, a: usize, x: usize)
    ensures
        occurrences(s.push(a), x) == occurrences(s, x) + if a == x {
            1nat
        } else {
            0nat
        },
{
    assert(s.push(a).drop_last() =~= s);
}

proof fn lemma_with_more_step<V, S>(p: Point<V, S>, k: nat)
    requires
        spec_neighbors(p.point_type) + k + 1 <= u32::MAX,
    ensures
        p.point_type is Free ==> spec_neighbors(with_more_neighbors(p, k).point_type)
            == spec_neighbors(p.point_type) + k,
        with_more_neighbors(with_more_neighbors(p, k), 1) == with_more_neighbors(p, k + 1),
{
    match p.point_type {
        PointType::Free { pos_prev, v, neighbors } => {
            assert(((neighbors + k) as u32) as nat == neighbors + k);
        },
        PointType::Child { .. } => {},
    }
}

/// Counts one more edge at a free point.
fn add_neighbor<V, S>(p: &mut Point<V, S>)
    requires
        spec_neighbors(old(p).point_type) < u32::MAX,
    ensures
        *final(p) == with_more_neighbors(*old(p), 1),
{
    if let PointType::Free { ref mut neighbors, .. } = p.point_type {
        *neighbors = *neighbors + 1;
    }
}

/// The edge count of a free point, zero for a carried one.
pub open spec fn spec_neighbors<V>(t: PointType<V>) -> nat {
    match t {
        PointType::Free { neighbors, .. } => neighbors as nat,
        PointType::Child { .. } => 0,
    }
}

/// Adds to the edge count of every free point the number of edge ends at it.
pub fn compute_neighbors<V, S>(points: &mut Vec<Point<V, S>>, curves: &Vec<Vec<Edge<S>>>)
    requires
        curves_in_range(curves@, old(points)@.len()),
        forall|i: int|
            0 <= i < old(points)@.len() ==> spec_neighbors(#[trigger] old(points)@[i].point_type)
                + degree(curves@, i as usize) <= u32::MAX,
    ensures
        final(points)@.len() == old(points)@.len(),
        forall|i: int|
            0 <= i < old(points)@.len() ==> #[trigger] final(points)@[i] == with_more_neighbors(
                old(points)@[i],
                degree(curves@, i as usize),
            ),
{
    let ghost pts0 = points@;
    let npoints = points.len();
    let ncurves = curves.len();
    let mut c: usize = 0;
    while c < ncurves
        invariant
            ncurves == curves@.len(),
            0 <= c <= ncurves,
            points@.len() == pts0.len(),
            npoints == pts0.len(),
            curves_in_range(curves@, pts0.len()),
            forall|i: int|
                0 <= i < pts0.len() ==> spec_neighbors(#[trigger] pts0[i].point_type) + degree(
                    curves@,
                    i as usize,
                ) <= u32::MAX,
            forall|i: int|
                0 <= i < pts0.len() ==> #[trigger] points@[i] == with_more_neighbors(
                    pts0[i],
                    occurrences(curves_endpoints(curves@.take(c as int)), i as usize),
                ),
        decreases ncurves - c,
    {
        let curve = &curves[c];
        let nedges = curve.len();
        let mut e: usize = 0;
        while e < nedges
            invariant
                ncurves == curves@.len(),
                0 <= c < ncurves,
                curve == curves@[c as int],
                nedges == curve@.len(),
                0 <= e <= nedges,
                points@.len() == pts0.len(),
                npoints == pts0.len(),
                curves_in_range(curves@, pts0.len()),
                forall|i: int|
                    0 <= i < pts0.len() ==> spec_neighbors(#[trigger] pts0[i].point_type) + degree(
                        curves@,
                        i as usize,
                    ) <= u32::MAX,
                forall|i: int|
                    0 <= i < pts0.len() ==> #[trigger] points@[i] == with_more_neighbors(
                        pts0[i],
                        occurrences(
                            curves_endpoints(curves@.take(c as int)) + edge_endpoints(
                                curve@.take(e as int),
                            ),
                            i as usize,
                        ),
                    ),
            decreases nedges - e,
        {
            let ghost seen = curves_endpoints(curves@.take(c as int)) + edge_endpoints(
                curve@.take(e as int),
            );
            let ghost next = curves_endpoints(curves@.take(c as int)) + edge_endpoints(
                curve@.take(e + 1),
            );
            let i0 = curve[e].i0;
            let i1 = curve[e].i1;
            assert(curves@[c as int]@[e as int].i0 < pts0.len());
            proof {
                lemma_edge_endpoints_take(curve@, e as int);
                assert(next =~= seen.push(i0).push(i1));
                assert forall|x: usize| #[trigger] occurrences(next, x) <= degree(curves@, x) by {
                    lemma_occurrences_concat(
                        curves_endpoints(curves@.take(c as int)),
                        edge_endpoints(curve@.take(e + 1)),
                        x,
                    );
                    lemma_edge_endpoints_prefix(curve@, e + 1, x);
                    lemma_curves_endpoints_take(curves@, c as int);
                    lemma_occurrences_concat(
                        curves_endpoints(curves@.take(c as int)),
                        edge_endpoints(curve@),
                        x,
                    );
                    lemma_curves_endpoints_prefix(curves@, c + 1, x);
                }
                lemma_occurrences_push(seen, i0, i0);
                lemma_occurrences_push(seen.push(i0), i1, i0);
                assert(occurrences(next, i0) <= degree(curves@, i0));
                lemma_with_more_step(pts0[i0 as int], occurrences(seen, i0));
            }
            let ghost before0 = points@;
            add_neighbor(&mut points[i0]);
            assert forall|i: int| 0 <= i < pts0.len() implies #[trigger] points@[i]
                == with_more_neighbors(pts0[i], occurrences(seen.push(i0), i as usize)) by {
                lemma_occurrences_push(seen, i0, i as usize);
                if i != i0 as int {
                    assert(points@[i] == before0[i]);
                    assert(before0[i] == with_more_neighbors(pts0[i], occurrences(seen, i as usize)));
                    assert((i as usize) as int == i);
                    assert(i as usize != i0);
                } else {
                    assert(before0[i] == with_more_neighbors(pts0[i], occurrences(seen, i as usize)));
                    assert(points@[i] == with_more_neighbors(before0[i], 1));
                    assert(occurrences(seen.push(i0), i as usize) == occurrences(seen, i as usize) + 1);
                    assert(with_more_neighbors(with_more_neighbors(pts0[i], occurrences(seen, i as usize)), 1) == with_more_neighbors(pts0[i], occurrences(seen, i as usize) + 1));
                }
            }
            proof {
                lemma_occurrences_push(seen.push(i0), i1, i1);
                assert(occurrences(next, i1) <= degree(curves@, i1));
                lemma_occurrences_push(seen, i0, i1);
                lemma_with_more_step(pts0[i1 as int], occurrences(seen.push(i0), i1));
            }
            let ghost before1 = points@;
            add_neighbor(&mut points[i1]);
            assert forall|i: int| 0 <= i < pts0.len() implies #[trigger] points@[i]
                == with_more_neighbors(pts0[i], occurrences(next, i as usize)) by {
                lemma_occurrences_push(seen.push(i0), i1, i as usize);
                if i != i1 as int {
                    assert((i as usize) as int == i);
                    assert(points@[i] == before1[i]);
                } else {
                    assert(before1[i] == with_more_neighbors(
                        pts0[i],
                        occurrences(seen.push(i0), i as usize),
                    ));
                }
            }
            e = e + 1;
        }
        proof {
            assert(curve@.take(nedges as int) =~= curve@);
            lemma_curves_endpoints_take(curves@, c as int);
        }
        c = c + 1;
    }
    assert(curves@.take(ncurves as int) =~= curves@);
}

/// `after` designates, under the reordering `order` (new position `k` holds
/// the element from old position `order[k]`), the same elements that `before`
/// designated.
pub open spec fn remapped(order: Seq<usize>, before: Seq<usize>, after: Seq<usize>) -> bool {
    &&& after.len() == before.len()
    &&& forall|k: int|
        0 <= k < before.len() ==> #[trigger] after[k] < order.len() && order[after[k] as int]
            == before[k]
}

/// The edges `after` are the edges `before` with their endpoints remapped.
pub open spec fn edges_remapped<S>(order: Seq<usize>, before: Seq<Edge<S>>, after: Seq<Edge<S>>) -> bool {
    &&& after.len() == before.len()
    &&& forall|k: int|
        0 <= k < before.len() ==> {
            &&& #[trigger] after[k].w == before[k].w
            &&& after[k].l0 == before[k].l0
            &&& after[k].mark == before[k].mark
            &&& after[k].i0 < order.len()
            &&& after[k].i1 < order.len()
            &&& order[after[k].i0 as int] == before[k].i0
            &&& order[after[k].i1 as int] == before[k].i1
        }
}

/// The points `after` are the points `before` reordered by `order`, in
/// non-decreasing key order.
pub open spec fn points_reordered<T>(order: Seq<usize>, before: Seq<T>, after: Seq<T>, keys: Seq<u128>) -> bool {
    &&& is_permutation(order, before.len())
    &&& sorted_by_key(order, keys)
    &&& after.len() == before.len()
    &&& forall|k: int| 0 <= k < before.len() ==> #[trigger] after[k] == before[order[k] as int]
}

/// Every entry of every list in `lists` is below `n`.
pub open spec fn lists_below(lists: Seq<Seq<usize>>, n: nat) -> bool {
    forall|l: int, k: int|
        0 <= l < lists.len() && 0 <= k < lists[l].len() ==> #[trigger] lists[l][k] < n
}

/// The point lists attached to footprints.
pub open spec fn footprint_lists<V, S>(fps: Seq<Footprint<V, S>>) -> Seq<Seq<usize>> {
    Seq::new(fps.len(), |f: int| fps[f].attached_points@)
}

/// The point lists attached to vias.
pub open spec fn via_lists<V>(vias: Seq<Via<V>>) -> Seq<Seq<usize>> {
    Seq::new(vias.len(), |f: int| vias[f].attached_points@)
}

/// The corner lists of polygons.
pub open spec fn polygon_lists<S>(polys: Seq<Polygon<S>>) -> Seq<Seq<usize>> {
    Seq::new(polys.len(), |f: int| polys[f].points@)
}

/// Replaces every entry `x` of `v` by `inverse[x]`.
fn remap_indices(v: &mut Vec<usize>, inverse: &Vec<usize>)
    requires
        forall|k: int| 0 <= k < old(v)@.len() ==> #[trigger] old(v)@[k] < inverse@.len(),
    ensures
        final(v)@.len() == old(v)@.len(),
        forall|k: int| 0 <= k < old(v)@.len() ==> #[trigger] final(v)@[k] == inverse@[old(v)@[k] as int],
{
    let ghost v0 = v@;
    let n = v.len();
    let mut k: usize = 0;
    while k < n
        invariant
            n == v0.len(),
            v@.len() == n,
            0 <= k <= n,
            forall|j: int| 0 <= j < n ==> #[trigger] v0[j] < inverse@.len(),
            forall|j: int| 0 <= j < k ==> #[trigger] v@[j] == inverse@[v0[j] as int],
            forall|j: int| k <= j < n ==> #[trigger] v@[j] == v0[j],
        decreases n - k,
    {
        let x = v[k];
        v.set(k, inverse[x]);
        k = k + 1;
    }
}

/// Replaces both endpoints `x` of every edge by `inverse[x]`.
fn remap_edges<S: Copy>(edges: &mut Vec<Edge<S>>, inverse: &Vec<usize>)
    requires
        forall|k: int|
            0 <= k < old(edges)@.len() ==> #[trigger] old(edges)@[k].i0 < inverse@.len()
                && old(edges)@[k].i1 < inverse@.len(),
    ensures
        final(edges)@.len() == old(edges)@.len(),
        forall|k: int|
            0 <= k < old(edges)@.len() ==> #[trigger] final(edges)@[k] == (Edge {
                i0: inverse@[old(edges)@[k].i0 as int],
                i1: inverse@[old(edges)@[k].i1 as int],
                ..old(edges)@[k]
            }),
{
    let ghost e0 = edges@;
    let n = edges.len();
    let mut k: usize = 0;
    while k < n
        invariant
            n == e0.len(),
            edges@.len() == n,
            0 <= k <= n,
            forall|j: int| 0 <= j < n ==> #[trigger] e0[j].i0 < inverse@.len() && e0[j].i1 < inverse@.len(),
            forall|j: int|
                0 <= j < k ==> #[trigger] edges@[j] == (Edge {
                    i0: inverse@[e0[j].i0 as int],
                    i1: inverse@[e0[j].i1 as int],
                    ..e0[j]
                }),
            forall|j: int| k <= j < n ==> #[trigger] edges@[j] == e0[j],
        decreases n - k,
    {
        let mut e = edges[k];
        e.i0 = inverse[e.i0];
        e.i1 = inverse[e.i1];
        edges.set(k, e);
        k = k + 1;
    }
}

/// Reorders the points by `keys` (one per point: layer, then Morton code) and
/// rewrites every edge, footprint, via and polygon so that each of their
/// references designates the same point as before.
pub fn sort_points<V: Copy, S: Copy>(
    points: &mut Vec<Point<V, S>>,
    curves: &mut Vec<Vec<Edge<S>>>,
    footprints: &mut Vec<Footprint<V, S>>,
    vias: &mut Vec<Via<V>>,
    polygons: &mut Vec<Polygon<S>>,
    keys: &Vec<u128>,
)
    requires
        keys@.len() == old(points)@.len(),
        old(points)@.len() < usize::MAX,
        curves_in_range(old(curves)@, old(points)@.len()),
        lists_below(footprint_lists(old(footprints)@), old(points)@.len()),
        lists_below(via_lists(old(vias)@), old(points)@.len()),
        lists_below(polygon_lists(old(polygons)@), old(points)@.len()),
    ensures
        exists|order: Seq<usize>|
            {
                &&& points_reordered(order, old(points)@, final(points)@, keys@)
                &&& final(curves)@.len() == old(curves)@.len()
                &&& forall|c: int|
                    0 <= c < old(curves)@.len() ==> edges_remapped(
                        order,
                        #[trigger] old(curves)@[c]@,
                        final(curves)@[c]@,
                    )
                &&& final(footprints)@.len() == old(footprints)@.len()
                &&& forall|f: int|
                    0 <= f < old(footprints)@.len() ==> #[trigger] final(footprints)@[f] == (
                    Footprint { attached_points: final(footprints)@[f].attached_points, ..old(footprints)@[f] })
                        && remapped(
                        order,
                        old(footprints)@[f].attached_points@,
                        final(footprints)@[f].attached_points@,
                    )
                &&& final(vias)@.len() == old(vias)@.len()
                &&& forall|f: int|
                    0 <= f < old(vias)@.len() ==> #[trigger] final(vias)@[f] == (Via {
                        attached_points: final(vias)@[f].attached_points,
                        ..old(vias)@[f]
                    }) && remapped(order, old(vias)@[f].attached_points@, final(vias)@[f].attached_points@)
                &&& final(polygons)@.len() == old(polygons)@.len()
                &&& forall|f: int|
                    0 <= f < old(polygons)@.len() ==> #[trigger] final(polygons)@[f] == (Polygon {
                        points: final(polygons)@[f].points,
                        ..old(polygons)@[f]
                    }) && remapped(order, old(polygons)@[f].points@, final(polygons)@[f].points@)
            },
{
    let order = sorted_order(keys);
    let inverse = inverse_permutation(&order);
    let ghost ord = order@;
    let ghost n = points@.len();
    apply_permutation(points, order);

    let ghost curves0 = curves@;
    let ncurves = curves.len();
    let mut c: usize = 0;
    while c < ncurves
        invariant
            ncurves == curves0.len(),
            curves@.len() == ncurves,
            0 <= c <= ncurves,
            inverse@.len() == n,
            is_permutation(ord, n),
            forall|x: int| 0 <= x < n ==> #[trigger] ord[inverse@[x] as int] == x,
            is_permutation(inverse@, n),
            curves_in_range(curves0, n),
            forall|j: int| 0 <= j < c ==> edges_remapped(ord, #[trigger] curves0[j]@, curves@[j]@),
            forall|j: int| c <= j < ncurves ==> #[trigger] curves@[j] == curves0[j],
        decreases ncurves - c,
    {
        assert forall|k: int| 0 <= k < curves@[c as int]@.len() implies #[trigger] curves@[c as int]@[k].i0
            < inverse@.len() && curves@[c as int]@[k].i1 < inverse@.len() by {
            assert(curves0[c as int]@[k].i0 < n);
        }
        let ghost before = curves@;
        remap_edges(&mut curves[c], &inverse);
        assert forall|j: int| 0 <= j < c + 1 implies edges_remapped(ord, #[trigger] curves0[j]@, curves@[j]@) by {
            if j < c {
                assert(curves@[j] == before[j]);
            } else {
                assert forall|k: int| 0 <= k < curves0[j]@.len() implies {
                    &&& #[trigger] curves@[j]@[k].w == curves0[j]@[k].w
                    &&& curves@[j]@[k].l0 == curves0[j]@[k].l0
                    &&& curves@[j]@[k].mark == curves0[j]@[k].mark
                    &&& curves@[j]@[k].i0 < ord.len()
                    &&& curves@[j]@[k].i1 < ord.len()
                    &&& ord[curves@[j]@[k].i0 as int] == curves0[j]@[k].i0
                    &&& ord[curves@[j]@[k].i1 as int] == curves0[j]@[k].i1
                } by {
                    assert(curves0[j]@[k].i0 < n);
                    assert(curves0[j]@[k].i1 < n);
                }
            }
        }
        c = c + 1;
    }

    let ghost fps0 = footprints@;
    let nfps = footprints.len();
    let mut f: usize = 0;
    while f < nfps
        invariant
            nfps == fps0.len(),
            footprints@.len() == nfps,
            0 <= f <= nfps,
            inverse@.len() == n,
            forall|x: int| 0 <= x < n ==> #[trigger] ord[inverse@[x] as int] == x,
            is_permutation(inverse@, n),
            lists_below(footprint_lists(fps0), n),
            is_permutation(ord, n),
            forall|j: int|
                0 <= j < f ==> #[trigger] footprints@[j] == (Footprint {
                    attached_points: footprints@[j].attached_points,
                    ..fps0[j]
                }) && remapped(ord, fps0[j].attached_points@, footprints@[j].attached_points@),
            forall|j: int| f <= j < nfps ==> #[trigger] footprints@[j] == fps0[j],
        decreases nfps - f,
    {
        assert forall|k: int| 0 <= k < footprints@[f as int].attached_points@.len() implies
            #[trigger] footprints@[f as int].attached_points@[k] < inverse@.len() by {
            assert(footprint_lists(fps0)[f as int][k] < n);
        }
        let ghost before = footprints@;
        remap_indices(&mut footprints[f].attached_points, &inverse);
        assert forall|j: int| 0 <= j < f + 1 implies #[trigger] footprints@[j] == (Footprint {
            attached_points: footprints@[j].attached_points,
            ..fps0[j]
        }) && remapped(ord, fps0[j].attached_points@, footprints@[j].attached_points@) by {
            if j < f {
                assert(footprints@[j] == before[j]);
            } else {
                assert forall|k: int| 0 <= k < fps0[j].attached_points@.len() implies
                    #[trigger] footprints@[j].attached_points@[k] < ord.len()
                    && ord[footprints@[j].attached_points@[k] as int] == fps0[j].attached_points@[k] by {
                    assert(footprint_lists(fps0)[j][k] < n);
                }
            }
        }
        f = f + 1;
    }

    let ghost vias0 = vias@;
    let nvias = vias.len();
    let mut f: usize = 0;
    while f < nvias
        invariant
            nvias == vias0.len(),
            vias@.len() == nvias,
            0 <= f <= nvias,
            inverse@.len() == n,
            forall|x: int| 0 <= x < n ==> #[trigger] ord[inverse@[x] as int] == x,
            is_permutation(inverse@, n),
            lists_below(via_lists(vias0), n),
            is_permutation(ord, n),
            forall|j: int|
                0 <= j < f ==> #[trigger] vias@[j] == (Via {
                    attached_points: vias@[j].attached_points,
                    ..vias0[j]
                }) && remapped(ord, vias0[j].attached_points@, vias@[j].attached_points@),
            forall|j: int| f <= j < nvias ==> #[trigger] vias@[j] == vias0[j],
        decreases nvias - f,
    {
        assert forall|k: int| 0 <= k < vias@[f as int].attached_points@.len() implies
            #[trigger] vias@[f as int].attached_points@[k] < inverse@.len() by {
            assert(via_lists(vias0)[f as int][k] < n);
        }
        let ghost before = vias@;
        remap_indices(&mut vias[f].attached_points, &inverse);
        assert forall|j: int| 0 <= j < f + 1 implies #[trigger] vias@[j] == (Via {
            attached_points: vias@[j].attached_points,
            ..vias0[j]
        }) && remapped(ord, vias0[j].attached_points@, vias@[j].attached_points@) by {
            if j < f {
                assert(vias@[j] == before[j]);
            } else {
                assert forall|k: int| 0 <= k < vias0[j].attached_points@.len() implies
                    #[trigger] vias@[j].attached_points@[k] < ord.len()
                    && ord[vias@[j].attached_points@[k] as int] == vias0[j].attached_points@[k] by {
                    assert(via_lists(vias0)[j][k] < n);
                }
            }
        }
        f = f + 1;
    }

    let ghost polys0 = polygons@;
    let npolys = polygons.len();
    let mut f: usize = 0;
    while f < npolys
        invariant
            npolys == polys0.len(),
            polygons@.len() == npolys,
            0 <= f <= npolys,
            inverse@.len() == n,
            forall|x: int| 0 <= x < n ==> #[trigger] ord[inverse@[x] as int] == x,
            is_permutation(inverse@, n),
            lists_below(polygon_lists(polys0), n),
            is_permutation(ord, n),
            forall|j: int|
                0 <= j < f ==> #[trigger] polygons@[j] == (Polygon {
                    points: polygons@[j].points,
                    ..polys0[j]
                }) && remapped(ord, polys0[j].points@, polygons@[j].points@),
            forall|j: int| f <= j < npolys ==> #[trigger] polygons@[j] == polys0[j],
        decreases npolys - f,
    {
        assert forall|k: int| 0 <= k < polygons@[f as int].points@.len() implies
            #[trigger] polygons@[f as int].points@[k] < inverse@.len() by {
            assert(polygon_lists(polys0)[f as int][k] < n);
        }
        let ghost before = polygons@;
        remap_indices(&mut polygons[f].points, &inverse);
        assert forall|j: int| 0 <= j < f + 1 implies #[trigger] polygons@[j] == (Polygon {
            points: polygons@[j].points,
            ..polys0[j]
        }) && remapped(ord, polys0[j].points@, polygons@[j].points@) by {
            if j < f {
                assert(polygons@[j] == before[j]);
            } else {
                assert forall|k: int| 0 <= k < polys0[j].points@.len() implies
                    #[trigger] polygons@[j].points@[k] < ord.len()
                    && ord[polygons@[j].points@[k] as int] == polys0[j].points@[k] by {
                    assert(polygon_lists(polys0)[j][k] < n);
                }
            }
        }
        f = f + 1;
    }
    assert(points_reordered(ord, old(points)@, points@, keys@));
}

/// The tree a point goes to: the tree of its layer when no layer is singled
/// out, otherwise, for a point on that layer, the tree of its net.
pub open spec fn tree_of<V, S>(p: Point<V, S>, only_layer: Option<usize>) -> Option<int> {
    match only_layer {
        None => Some(p.layer as int),
        Some(l) => if p.layer == l {
            Some(p.net as int)
        } else {
            None
        },
    }
}

/// The tree a point goes to, if any, is one of the first `n`.
pub open spec fn tree_in_range<V, S>(p: Point<V, S>, only_layer: Option<usize>, n: nat) -> bool {
    match tree_of(p, only_layer) {
        Some(k) => k < n,
        None => true,
    }
}

/// The tree holds each point index at most once, and only indices below
/// `bound` of points that go to tree `k`.
pub open spec fn holds_layer_below<D, V, S>(
    tree: QuadTree<Point<V, S>, D, V, S>,
    points: Seq<Point<V, S>>,
    only_layer: Option<usize>,
    k: int,
    bound: int,
) -> bool {
    forall|x: usize|
        #[trigger] tree.contents().count(x) > 0 ==> tree.contents().count(x) == 1 && x < bound
            && x < points.len() && tree_of(points[x as int], only_layer) == Some(k)
}

/// Tree `k` is well formed, keeps the root square of `initial`, holds valid
/// point indices, and holds the points going to it below `bound` at most once.
pub open spec fn tree_state_ok<D, V, S>(
    t: QuadTree<Point<V, S>, D, V, S>,
    initial: QuadTree<Point<V, S>, D, V, S>,
    points: Seq<Point<V, S>>,
    only_layer: Option<usize>,
    k: int,
    bound: int,
) -> bool {
    &&& t.wf()
    &&& t.rad == initial.rad
    &&& t.nodes@[0].pos == initial.nodes@[0].pos
    &&& t.items_below(points.len())
    &&& holds_layer_below(t, points, only_layer, k, bound)
}

/// Tree `k` is well formed, keeps the root square of `initial`, holds valid
/// point indices, and holds each point going to it at most once and no other.
pub open spec fn tree_final_ok<D, V, S>(
    t: QuadTree<Point<V, S>, D, V, S>,
    initial: QuadTree<Point<V, S>, D, V, S>,
    points: Seq<Point<V, S>>,
    only_layer: Option<usize>,
    k: int,
) -> bool {
    &&& t.wf()
    &&& t.rad == initial.rad
    &&& t.nodes@[0].pos == initial.nodes@[0].pos
    &&& t.items_below(points.len())
    &&& holds_layer_once(t, points, only_layer, k)
}

/// Each point below `bound` that goes to tree `k` is held by it, unless
/// `G::farther_than` reported its position farther than the radius of
/// `initial` from its root centre, or the tree has a chain from the root
/// deeper than an insertion descends.
pub open spec fn covers_below<V, S, D, G: Geometry<V, S>>(
    t: QuadTree<Point<V, S>, D, V, S>,
    initial: QuadTree<Point<V, S>, D, V, S>,
    points: Seq<Point<V, S>>,
    only_layer: Option<usize>,
    k: int,
    bound: int,
) -> bool {
    ||| deep(t.nodes@)
    ||| forall|x: usize|
        x < bound && tree_of(points[x as int], only_layer) == Some(k) ==> #[trigger] t.contents().count(x) > 0
            || call_ensures(G::farther_than, (&points[x as int].pos, &initial.nodes@[0].pos, &initial.rad), true)
}

/// A point's position is reported as its field `pos`, so as one position.
pub proof fn lemma_point_positions_fixed<V: Copy, S>(points: Seq<Point<V, S>>)
    ensures
        positions_fixed(points),
{
    assert forall|x: int, p: V, q: V|
        0 <= x < points.len() && call_ensures(<Point<V, S> as crate::tree::QTreeItem<V>>::get_pos, (&points[x],), p)
            && call_ensures(<Point<V, S> as crate::tree::QTreeItem<V>>::get_pos, (&points[x],), q) implies p == q by {
        assert(p == points[x].pos);
        assert(q == points[x].pos);
    }
}

/// Every tree satisfies `tree_state_ok`.
pub open spec fn layer_trees_ok<D, V, S>(
    trees: Seq<QuadTree<Point<V, S>, D, V, S>>,
    t0: Seq<QuadTree<Point<V, S>, D, V, S>>,
    points: Seq<Point<V, S>>,
    only_layer: Option<usize>,
    bound: int,
) -> bool {
    &&& trees.len() == t0.len()
    &&& forall|k: int|
        0 <= k < trees.len() ==> #[trigger] tree_state_ok(trees[k], t0[k], points, only_layer, k, bound)
}

/// The tree holds each point index at most once, and only indices of points
/// on layer `layer`.
pub open spec fn holds_layer_once<D, V, S>(
    tree: QuadTree<Point<V, S>, D, V, S>,
    points: Seq<Point<V, S>>,
    only_layer: Option<usize>,
    k: int,
) -> bool {
    forall|x: usize|
        #[trigger] tree.contents().count(x) > 0 ==> tree.contents().count(x) == 1 && x
            < points.len() && tree_of(points[x as int], only_layer) == Some(k)
}

/// Empties every tree and inserts each point into the tree it goes to (see
/// `tree_of`), then recomputes the node summaries bottom-up. A point
/// reported outside the radius of its tree (or too deep to place) is left
/// out.
fn fill_trees<V: Copy, S: Copy, D: QTreeData<Point<V, S>, V>, G: Geometry<V, S>>(
    trees: &mut Vec<QuadTree<Point<V, S>, D, V, S>>,
    points: &Vec<Point<V, S>>,
    only_layer: Option<usize>,
    context: &D::Context,
)
    requires
        forall|l: int| 0 <= l < old(trees)@.len() ==> #[trigger] old(trees)@[l].wf(),
        forall|i: int|
            0 <= i < points@.len() ==> tree_in_range(#[trigger] points@[i], only_layer, old(trees)@.len()),
    ensures
        final(trees)@.len() == old(trees)@.len(),
        forall|l: int|
            0 <= l < final(trees)@.len() ==> #[trigger] tree_final_ok(final(trees)@[l], old(trees)@[l], points@, only_layer, l),
        forall|l: int|
            0 <= l < final(trees)@.len() ==> #[trigger] covers_below::<V, S, D, G>(
                final(trees)@[l],
                old(trees)@[l],
                points@,
                only_layer,
                l,
                points@.len() as int,
            ),
        forall|l: int|
            0 <= l < final(trees)@.len() ==> #[trigger] placed::<Point<V, S>, D, V, S, G>(final(trees)@[l].nodes@, final(trees)@[l].leaf_items@, points@),
        forall|l: int| 0 <= l < final(trees)@.len() ==> #[trigger] summarised_tree(final(trees)@[l], points, context),
{
    proof {
        lemma_point_positions_fixed(points@);
    }
    let ntrees = trees.len();
    let ghost t0 = trees@;
    let mut l: usize = 0;
    while l < ntrees
        invariant
            ntrees == t0.len(),
            trees@.len() == ntrees,
            0 <= l <= ntrees,
            forall|k: int| 0 <= k < ntrees ==> #[trigger] t0[k].wf(),
            forall|k: int|
                0 <= k < ntrees ==> {
                    &&& #[trigger] trees@[k].wf()
                    &&& trees@[k].rad == t0[k].rad
                    &&& trees@[k].nodes@[0].pos == t0[k].nodes@[0].pos
                },
            forall|k: int| 0 <= k < l ==> #[trigger] trees@[k].contents() =~= Multiset::empty(),
            forall|k: int| 0 <= k < l ==> #[trigger] trees@[k].items_below(0),
            forall|k: int| 0 <= k < l ==> #[trigger] placed::<Point<V, S>, D, V, S, G>(trees@[k].nodes@, trees@[k].leaf_items@, points@),
        decreases ntrees - l,
    {
        let ghost before = trees@;
        proof {
            assert(before[l as int].wf());
        }
        trees[l].clear();
        proof {
            lemma_placed_empty::<Point<V, S>, D, V, S, G>(trees@[l as int].nodes@, trees@[l as int].leaf_items@, points@);
            assert forall|k: int| 0 <= k < l + 1 implies #[trigger] placed::<Point<V, S>, D, V, S, G>(trees@[k].nodes@, trees@[k].leaf_items@, points@) by {
                if k != l {
                    assert(trees@[k] == before[k]);
                }
            }
            assert forall|k: int| 0 <= k < ntrees && k != l implies #[trigger] trees@[k] == before[k] by {}
            assert(before[l as int].rad == t0[l as int].rad);
            assert(before[l as int].nodes@[0].pos == t0[l as int].nodes@[0].pos);
            assert forall|k: int| 0 <= k < ntrees implies {
                &&& #[trigger] trees@[k].wf()
                &&& trees@[k].rad == t0[k].rad
                &&& trees@[k].nodes@[0].pos == t0[k].nodes@[0].pos
            } by {
                if k != l {
                    assert(before[k].wf());
                }
            }
            let t = trees@[l as int];
            assert(t.items_below(0)) by {
                assert forall|x: int, k: int|
                    0 <= x < t.nodes@.len() && t.nodes@[x].is_leaf && 0 <= k < t.nodes@[x].nitems implies #[trigger] crate::tree::slot(
                    t.leaf_items@,
                    x,
                    k,
                ) < 0 by {
                    assert(x == 0);
                    assert(t.contents() =~= Multiset::empty());
                    assert(t.nodes@[0].items == 0);
                    assert(crate::tree::bucket(t.nodes@, t.leaf_items@, 0).len() == t.nodes@[0].nitems);
                    assert(crate::tree::held_upto(t.nodes@, t.leaf_items@, 1) =~= crate::tree::held(t.nodes@, t.leaf_items@, 0)) by {
                        broadcast use vstd::multiset::group_multiset_axioms;
                    }
                    assert(crate::tree::bucket(t.nodes@, t.leaf_items@, 0).to_multiset().len() == 0) by {
                        broadcast use vstd::multiset::group_multiset_axioms;
                    }
                    assert(crate::tree::bucket(t.nodes@, t.leaf_items@, 0).len() == 0) by {
                        broadcast use vstd::seq_lib::group_to_multiset_ensures;
                    }
                }
            }
        }
        l = l + 1;
    }
    let npoints = points.len();
    proof {
        assert forall|k: int| 0 <= k < ntrees implies #[trigger] covers_below::<V, S, D, G>(
            trees@[k],
            t0[k],
            points@,
            only_layer,
            k,
            0,
        ) by {
            assert forall|x: usize|
                x < 0 && tree_of(points@[x as int], only_layer) == Some(k) implies #[trigger] trees@[k].contents().count(x) > 0
                    || call_ensures(G::farther_than, (&points@[x as int].pos, &t0[k].nodes@[0].pos, &t0[k].rad), true) by {}
        }
        assert forall|k: int| 0 <= k < ntrees implies #[trigger] tree_state_ok(
            trees@[k],
            t0[k],
            points@,
            only_layer,
            k,
            0,
        ) by {
            broadcast use vstd::multiset::group_multiset_axioms;

            assert(trees@[k].wf());
            assert(trees@[k].items_below(0));
            assert(trees@[k].contents() =~= Multiset::empty());
        }
    }
    let mut i: usize = 0;
    while i < npoints
        invariant
            ntrees == t0.len(),
            trees@.len() == ntrees,
            npoints == points@.len(),
            0 <= i <= npoints,
            forall|j: int|
                0 <= j < npoints ==> tree_in_range(#[trigger] points@[j], only_layer, ntrees as nat),
            layer_trees_ok(trees@, t0, points@, only_layer, i as int),
            forall|k: int|
                0 <= k < ntrees ==> #[trigger] covers_below::<V, S, D, G>(trees@[k], t0[k], points@, only_layer, k, i as int),
            forall|k: int| 0 <= k < ntrees ==> #[trigger] placed::<Point<V, S>, D, V, S, G>(trees@[k].nodes@, trees@[k].leaf_items@, points@),
            positions_fixed(points@),
        decreases npoints - i,
    {
        let target: Option<usize> = match only_layer {
            None => Some(points[i].layer),
            Some(l) => if points[i].layer == l {
                Some(points[i].net)
            } else {
                None
            },
        };
        let ghost before = trees@;
        proof {
            assert(tree_in_range(points@[i as int], only_layer, ntrees as nat));
        }
        if let Some(layer) = target {
            proof {
                assert(tree_of(points@[i as int], only_layer) == Some(layer as int));
                assert(tree_state_ok(trees@[layer as int], t0[layer as int], points@, only_layer, layer as int, i as int));
            }
            let outcome = trees[layer].insert_item::<G>(None, points, i);
            proof {
                broadcast use vstd::multiset::group_multiset_axioms;

                assert forall|k: int| 0 <= k < ntrees implies #[trigger] placed::<Point<V, S>, D, V, S, G>(trees@[k].nodes@, trees@[k].leaf_items@, points@) by {
                    assert(placed::<Point<V, S>, D, V, S, G>(before[k].nodes@, before[k].leaf_items@, points@));
                    if k != layer {
                        assert(trees@[k] == before[k]);
                    }
                }

                assert forall|k: int| 0 <= k < ntrees implies #[trigger] covers_below::<V, S, D, G>(
                    trees@[k],
                    t0[k],
                    points@,
                    only_layer,
                    k,
                    i + 1,
                ) by {
                    assert(covers_below::<V, S, D, G>(before[k], t0[k], points@, only_layer, k, i as int));
                    assert(tree_state_ok(before[k], t0[k], points@, only_layer, k, i as int));
                    if k != layer {
                        assert(trees@[k] == before[k]);
                        if !deep(before[k].nodes@) {
                            assert forall|x: usize|
                                x < i + 1 && tree_of(points@[x as int], only_layer) == Some(k) implies #[trigger] trees@[k].contents().count(x) > 0
                                    || call_ensures(G::farther_than, (&points@[x as int].pos, &t0[k].nodes@[0].pos, &t0[k].rad), true) by {
                                if x < i {
                                    assert(before[k].contents().count(x) > 0
                                        || call_ensures(G::farther_than, (&points@[x as int].pos, &t0[k].nodes@[0].pos, &t0[k].rad), true));
                                }
                            }
                        }
                    } else if deep(before[k].nodes@) {
                        lemma_deep_grows(before[k].nodes@, trees@[k].nodes@);
                    } else if outcome == InsertOutcome::TooDeep {
                        let path = choose|path: Seq<int>|
                            #![trigger crate::tree::is_descent(trees@[k].nodes@, path)]
                            crate::tree::is_descent(trees@[k].nodes@, path) && path.len() > crate::tree::INSERT_LIMIT / 2 && path[0] == 0;
                        assert(deep(trees@[k].nodes@));
                    } else {
                        assert forall|x: usize|
                            x < i + 1 && tree_of(points@[x as int], only_layer) == Some(k) implies #[trigger] trees@[k].contents().count(x) > 0
                                || call_ensures(G::farther_than, (&points@[x as int].pos, &t0[k].nodes@[0].pos, &t0[k].rad), true) by {
                            if x < i {
                                assert(before[k].contents().count(x) > 0
                                    || call_ensures(G::farther_than, (&points@[x as int].pos, &t0[k].nodes@[0].pos, &t0[k].rad), true));
                            } else if outcome == InsertOutcome::Outside {
                                let p = choose|p: V|
                                    #![trigger call_ensures(<Point<V, S> as crate::tree::QTreeItem<V>>::get_pos, (&points@[i as int],), p)]
                                    call_ensures(<Point<V, S> as crate::tree::QTreeItem<V>>::get_pos, (&points@[i as int],), p)
                                        && call_ensures(G::farther_than, (&p, &before[k].nodes@[0].pos, &before[k].rad), true);
                                assert(p == points@[i as int].pos);
                            }
                        }
                    }
                }

                assert forall|k: int| 0 <= k < ntrees implies #[trigger] tree_state_ok(
                    trees@[k],
                    t0[k],
                    points@,
                    only_layer,
                    k,
                    i + 1,
                ) by {
                    assert(tree_state_ok(before[k], t0[k], points@, only_layer, k, i as int));
                    if k != layer {
                        assert(trees@[k] == before[k]);
                    } else {
                        assert forall|x: usize| #[trigger] trees@[k].contents().count(x) > 0 implies trees@[k].contents().count(x)
                            == 1 && x < i + 1 && x < npoints && tree_of(points@[x as int], only_layer) == Some(k) by {
                            if x != i {
                                assert(before[k].contents().count(x) > 0);
                            } else if before[k].contents().count(x) > 0 {
                                assert(x < i);
                            }
                        }
                    }
                }
            }
        } else {
            proof {
                assert forall|k: int| 0 <= k < ntrees implies #[trigger] covers_below::<V, S, D, G>(
                    trees@[k],
                    t0[k],
                    points@,
                    only_layer,
                    k,
                    i + 1,
                ) by {
                    assert(covers_below::<V, S, D, G>(before[k], t0[k], points@, only_layer, k, i as int));
                    if !deep(before[k].nodes@) {
                        assert forall|x: usize|
                            x < i + 1 && tree_of(points@[x as int], only_layer) == Some(k) implies #[trigger] trees@[k].contents().count(x) > 0
                                || call_ensures(G::farther_than, (&points@[x as int].pos, &t0[k].nodes@[0].pos, &t0[k].rad), true) by {
                            if x < i {
                                assert(before[k].contents().count(x) > 0
                                    || call_ensures(G::farther_than, (&points@[x as int].pos, &t0[k].nodes@[0].pos, &t0[k].rad), true));
                            }
                        }
                    }
                }
                assert forall|k: int| 0 <= k < ntrees implies #[trigger] tree_state_ok(
                    trees@[k],
                    t0[k],
                    points@,
                    only_layer,
                    k,
                    i + 1,
                ) by {
                    assert(tree_state_ok(before[k], t0[k], points@, only_layer, k, i as int));
                    assert forall|x: usize| #[trigger] trees@[k].contents().count(x) > 0 implies trees@[k].contents().count(x)
                        == 1 && x < i + 1 && x < npoints && tree_of(points@[x as int], only_layer) == Some(k) by {
                    }
                }
            }
        }
        let ghost prev = i;
        i = i + 1;
        proof {
            assert forall|k: int| 0 <= k < ntrees implies #[trigger] tree_state_ok(trees@[k], t0[k], points@, only_layer, k, i as int) by {
                assert(tree_state_ok(trees@[k], t0[k], points@, only_layer, k, prev + 1));
            }
            assert forall|k: int| 0 <= k < ntrees implies #[trigger] covers_below::<V, S, D, G>(trees@[k], t0[k], points@, only_layer, k, i as int) by {
                assert(covers_below::<V, S, D, G>(trees@[k], t0[k], points@, only_layer, k, prev + 1));
            }
        }
    }
    proof {
        assert forall|k: int| 0 <= k < ntrees implies #[trigger] tree_final_ok(trees@[k], t0[k], points@, only_layer, k) by {
            assert(tree_state_ok(trees@[k], t0[k], points@, only_layer, k, npoints as int));
        }
    }
    let mut l: usize = 0;
    while l < ntrees
        invariant
            ntrees == t0.len(),
            trees@.len() == ntrees,
            npoints == points@.len(),
            0 <= l <= ntrees,
            forall|k: int|
                0 <= k < ntrees ==> #[trigger] tree_final_ok(trees@[k], t0[k], points@, only_layer, k),
            forall|k: int|
                0 <= k < ntrees ==> #[trigger] covers_below::<V, S, D, G>(trees@[k], t0[k], points@, only_layer, k, npoints as int),
            forall|k: int| 0 <= k < ntrees ==> #[trigger] placed::<Point<V, S>, D, V, S, G>(trees@[k].nodes@, trees@[k].leaf_items@, points@),
            forall|k: int| 0 <= k < l ==> #[trigger] summarised_tree(trees@[k], points, context),
        decreases ntrees - l,
    {
        let ghost before = trees@;
        proof {
            assert(tree_final_ok(trees@[l as int], t0[l as int], points@, only_layer, l as int));
        }
        trees[l].update_bottom_up(points, context);
        proof {
            assert(crate::tree::same_shape(before[l as int].nodes@, trees@[l as int].nodes@));
            assert forall|i: int| 0 <= i < before[l as int].nodes@.len() implies #[trigger] crate::tree::summarised(
                before[l as int].nodes@,
                trees@[l as int].nodes@,
                &trees@[l as int].leaf_items,
                points,
                context,
                i,
            ) by {
                assert(crate::tree::summarised(
                    before[l as int].nodes@,
                    trees@[l as int].nodes@,
                    &before[l as int].leaf_items,
                    points,
                    context,
                    i,
                ));
            }
            assert(summarised_tree(trees@[l as int], points, context));
            assert forall|k: int| 0 <= k < l + 1 implies #[trigger] summarised_tree(trees@[k], points, context) by {
                if k != l {
                    assert(trees@[k] == before[k]);
                }
            }
            assert forall|k: int| 0 <= k < ntrees implies #[trigger] placed::<Point<V, S>, D, V, S, G>(trees@[k].nodes@, trees@[k].leaf_items@, points@) by {
                assert(placed::<Point<V, S>, D, V, S, G>(before[k].nodes@, before[k].leaf_items@, points@));
                if k != l {
                    assert(trees@[k] == before[k]);
                } else {
                    let na = before[k].nodes@;
                    let nb = trees@[k].nodes@;
                    lemma_same_shape_grows(na, nb);
                    assert forall|x: int| 0 <= x < na.len() implies #[trigger] nb[x].is_leaf == na[x].is_leaf
                        && nb[x].nitems == na[x].nitems by {
                        assert(nb[x] == (crate::tree::Node { data: nb[x].data, ..na[x] }));
                    }
                    crate::tree::lemma_placed_frame::<Point<V, S>, D, V, S, G>(na, before[k].leaf_items@, nb, trees@[k].leaf_items@, points@);
                }
            }
            assert forall|k: int| 0 <= k < ntrees implies #[trigger] covers_below::<V, S, D, G>(trees@[k], t0[k], points@, only_layer, k, npoints as int) by {
                assert(covers_below::<V, S, D, G>(before[k], t0[k], points@, only_layer, k, npoints as int));
                if k != l {
                    assert(trees@[k] == before[k]);
                } else if deep(before[k].nodes@) {
                    lemma_same_shape_grows(before[k].nodes@, trees@[k].nodes@);
                    lemma_deep_grows(before[k].nodes@, trees@[k].nodes@);
                } else {
                    assert forall|x: usize|
                        x < npoints && tree_of(points@[x as int], only_layer) == Some(k) implies #[trigger] trees@[k].contents().count(x) > 0
                            || call_ensures(G::farther_than, (&points@[x as int].pos, &t0[k].nodes@[0].pos, &t0[k].rad), true) by {
                        assert(before[k].contents().count(x) > 0
                            || call_ensures(G::farther_than, (&points@[x as int].pos, &t0[k].nodes@[0].pos, &t0[k].rad), true));
                    }
                }
            }
            assert forall|k: int| 0 <= k < ntrees implies #[trigger] tree_final_ok(trees@[k], t0[k], points@, only_layer, k) by {
                assert(tree_final_ok(before[k], t0[k], points@, only_layer, k));
                if k != l {
                    assert(trees@[k] == before[k]);
                } else {
                    assert(trees@[k].nodes@[0] == (crate::tree::Node { data: trees@[k].nodes@[0].data, ..before[k].nodes@[0] }));
                }
            }
        }
        l = l + 1;
    }
}

/// Empties every layer tree and inserts each point into the tree of its layer,
/// then recomputes the node summaries bottom-up (`summarised_tree`). Every
/// point is held by its tree,
/// unless it was reported farther than the tree's radius from the root
/// centre, or the tree grew too deep to place it; every point held sits
/// where its insertion from the root leads (see `lemma_held_item_is_found`).
pub fn rebuild_trees<V: Copy, S: Copy, D: QTreeData<Point<V, S>, V>, G: Geometry<V, S>>(
    trees: &mut Vec<QuadTree<Point<V, S>, D, V, S>>,
    points: &Vec<Point<V, S>>,
    context: &D::Context,
)
    requires
        forall|l: int| 0 <= l < old(trees)@.len() ==> #[trigger] old(trees)@[l].wf(),
        forall|i: int| 0 <= i < points@.len() ==> #[trigger] points@[i].layer < old(trees)@.len(),
    ensures
        final(trees)@.len() == old(trees)@.len(),
        forall|l: int|
            0 <= l < final(trees)@.len() ==> #[trigger] tree_final_ok(final(trees)@[l], old(trees)@[l], points@, None, l),
        forall|l: int|
            0 <= l < final(trees)@.len() ==> #[trigger] covers_below::<V, S, D, G>(
                final(trees)@[l],
                old(trees)@[l],
                points@,
                None,
                l,
                points@.len() as int,
            ),
        forall|l: int|
            0 <= l < final(trees)@.len() ==> #[trigger] placed::<Point<V, S>, D, V, S, G>(final(trees)@[l].nodes@, final(trees)@[l].leaf_items@, points@),
        forall|l: int| 0 <= l < final(trees)@.len() ==> #[trigger] summarised_tree(final(trees)@[l], points, context),
{
    assert forall|i: int| 0 <= i < points@.len() implies tree_in_range(#[trigger] points@[i], None, trees@.len()) by {
        assert(points@[i].layer < trees@.len());
    }
    fill_trees::<V, S, D, G>(trees, points, None, context);
}

/// Empties every per-layer, per-net tree and inserts each point into the tree
/// of its layer and net, then recomputes the node summaries bottom-up
/// (`summarised_tree`). Every point is held by its tree, unless it was
/// reported farther than the tree's radius from the root centre, or the tree
/// grew too deep to place it.
pub fn rebuild_net_trees<V: Copy, S: Copy, D: QTreeData<Point<V, S>, V>, G: Geometry<V, S>>(
    net_trees: &mut Vec<Vec<QuadTree<Point<V, S>, D, V, S>>>,
    points: &Vec<Point<V, S>>,
    context: &D::Context,
)
    requires
        forall|l: int, n: int|
            0 <= l < old(net_trees)@.len() && 0 <= n < old(net_trees)@[l]@.len() ==> #[trigger] old(
                net_trees,
            )@[l]@[n].wf(),
        forall|i: int|
            0 <= i < points@.len() ==> #[trigger] points@[i].layer < old(net_trees)@.len()
                && points@[i].net < old(net_trees)@[points@[i].layer as int]@.len(),
    ensures
        final(net_trees)@.len() == old(net_trees)@.len(),
        forall|l: int|
            0 <= l < final(net_trees)@.len() ==> #[trigger] final(net_trees)@[l]@.len() == old(
                net_trees,
            )@[l]@.len(),
        forall|l: int, n: int|
            0 <= l < final(net_trees)@.len() && 0 <= n < final(net_trees)@[l]@.len() ==> #[trigger] tree_final_ok(final(net_trees)@[l]@[n], old(net_trees)@[l]@[n], points@, Some(l as usize), n),
        forall|l: int, n: int|
            0 <= l < final(net_trees)@.len() && 0 <= n < final(net_trees)@[l]@.len() ==> #[trigger] covers_below::<V, S, D, G>(
                final(net_trees)@[l]@[n],
                old(net_trees)@[l]@[n],
                points@,
                Some(l as usize),
                n,
                points@.len() as int,
            ),
        forall|l: int, n: int|
            0 <= l < final(net_trees)@.len() && 0 <= n < final(net_trees)@[l]@.len() ==> #[trigger] placed::<Point<V, S>, D, V, S, G>(
                final(net_trees)@[l]@[n].nodes@,
                final(net_trees)@[l]@[n].leaf_items@,
                points@,
            ),
        forall|l: int, n: int|
            0 <= l < final(net_trees)@.len() && 0 <= n < final(net_trees)@[l]@.len() ==> #[trigger] summarised_tree(
                final(net_trees)@[l]@[n],
                points,
                context,
            ),
{
    let ghost nt0 = net_trees@;
    let nlayers = net_trees.len();
    let mut l: usize = 0;
    while l < nlayers
        invariant
            nlayers == nt0.len(),
            net_trees@.len() == nlayers,
            0 <= l <= nlayers,
            forall|k: int| 0 <= k < nlayers ==> #[trigger] net_trees@[k]@.len() == nt0[k]@.len(),
            forall|a: int, n: int|
                0 <= a < nt0.len() && 0 <= n < nt0[a]@.len() ==> #[trigger] nt0[a]@[n].wf(),
            forall|i: int|
                0 <= i < points@.len() ==> #[trigger] points@[i].layer < nt0.len() && points@[i].net
                    < nt0[points@[i].layer as int]@.len(),
            forall|k: int| l <= k < nlayers ==> #[trigger] net_trees@[k] == nt0[k],
            forall|a: int, n: int|
                0 <= a < l && 0 <= n < net_trees@[a]@.len() ==> #[trigger] tree_final_ok(net_trees@[a]@[n], nt0[a]@[n], points@, Some(a as usize), n),
            forall|a: int, n: int|
                0 <= a < l && 0 <= n < net_trees@[a]@.len() ==> #[trigger] covers_below::<V, S, D, G>(
                    net_trees@[a]@[n],
                    nt0[a]@[n],
                    points@,
                    Some(a as usize),
                    n,
                    points@.len() as int,
                ),
            forall|a: int, n: int|
                0 <= a < l && 0 <= n < net_trees@[a]@.len() ==> #[trigger] placed::<Point<V, S>, D, V, S, G>(
                    net_trees@[a]@[n].nodes@,
                    net_trees@[a]@[n].leaf_items@,
                    points@,
                ),
            forall|a: int, n: int|
                0 <= a < l && 0 <= n < net_trees@[a]@.len() ==> #[trigger] summarised_tree(net_trees@[a]@[n], points, context),
        decreases nlayers - l,
    {
        let ghost before = net_trees@;
        proof {
            assert forall|n: int| 0 <= n < net_trees@[l as int]@.len() implies #[trigger] net_trees@[l as int]@[n].wf() by {
                assert(nt0[l as int]@[n].wf());
            }
            assert forall|i: int| 0 <= i < points@.len() implies tree_in_range(#[trigger] points@[i], Some(l), net_trees@[l as int]@.len()) by {
                assert(points@[i].layer < nt0.len());
            }
        }
        fill_trees::<V, S, D, G>(&mut net_trees[l], points, Some(l), context);
        proof {
            assert forall|k: int| 0 <= k < nlayers && k != l implies #[trigger] net_trees@[k] == before[k] by {}
            assert forall|a: int, n: int|
                0 <= a < l + 1 && 0 <= n < net_trees@[a]@.len() implies #[trigger] tree_final_ok(net_trees@[a]@[n], nt0[a]@[n], points@, Some(a as usize), n) by {
                if a < l {
                    assert(net_trees@[a] == before[a]);
                    assert(tree_final_ok(before[a]@[n], nt0[a]@[n], points@, Some(a as usize), n));
                } else {
                    assert(before[a] == nt0[a]);
                }
            }
            assert forall|a: int, n: int|
                0 <= a < l + 1 && 0 <= n < net_trees@[a]@.len() implies #[trigger] covers_below::<V, S, D, G>(
                    net_trees@[a]@[n],
                    nt0[a]@[n],
                    points@,
                    Some(a as usize),
                    n,
                    points@.len() as int,
                ) by {
                if a < l {
                    assert(net_trees@[a] == before[a]);
                    assert(covers_below::<V, S, D, G>(before[a]@[n], nt0[a]@[n], points@, Some(a as usize), n, points@.len() as int));
                } else {
                    assert(before[a] == nt0[a]);
                }
            }
            assert forall|a: int, n: int|
                0 <= a < l + 1 && 0 <= n < net_trees@[a]@.len() implies #[trigger] placed::<Point<V, S>, D, V, S, G>(
                    net_trees@[a]@[n].nodes@,
                    net_trees@[a]@[n].leaf_items@,
                    points@,
                ) by {
                if a < l {
                    assert(net_trees@[a] == before[a]);
                    assert(placed::<Point<V, S>, D, V, S, G>(before[a]@[n].nodes@, before[a]@[n].leaf_items@, points@));
                }
            }
            assert forall|a: int, n: int|
                0 <= a < l + 1 && 0 <= n < net_trees@[a]@.len() implies #[trigger] summarised_tree(
                    net_trees@[a]@[n],
                    points,
                    context,
                ) by {
                if a < l {
                    assert(net_trees@[a] == before[a]);
                    assert(summarised_tree(before[a]@[n], points, context));
                }
            }
            assert forall|k: int| 0 <= k < nlayers implies #[trigger] net_trees@[k]@.len() == nt0[k]@.len() by {
                if k != l {
                    assert(net_trees@[k] == before[k]);
                }
            }
        }
        l = l + 1;
    }
}

/// Looks in the tree of the layer of `point` for a point at the same position:
/// if there is one, its radius becomes the larger of the two radii and its
/// index is returned; otherwise `point` is appended, inserted into that tree,
/// and its new index is returned.
pub fn find_or_add_point<V: Copy, S: Copy, D: QTreeData<Point<V, S>, V>, G: Geometry<V, S>>(
    points: &mut Vec<Point<V, S>>,
    trees: &mut Vec<QuadTree<Point<V, S>, D, V, S>>,
    point: Point<V, S>,
) -> (r: usize)
    requires
        point.layer < old(trees)@.len(),
        old(points)@.len() < usize::MAX,
        forall|l: int|
            0 <= l < old(trees)@.len() ==> #[trigger] old(trees)@[l].wf() && old(trees)@[l].items_below(
                old(points)@.len(),
            ),
    ensures
        final(trees)@.len() == old(trees)@.len(),
        forall|l: int|
            0 <= l < final(trees)@.len() ==> {
                &&& #[trigger] final(trees)@[l].wf()
                &&& final(trees)@[l].items_below(final(points)@.len())
                &&& final(trees)@[l].rad == old(trees)@[l].rad
                &&& final(trees)@[l].nodes@[0].pos == old(trees)@[l].nodes@[0].pos
            },
        forall|l: int|
            0 <= l < final(trees)@.len() && l != point.layer ==> #[trigger] final(trees)@[l] == old(
                trees,
            )@[l],
        search_result::<Point<V, S>, D, V, S, G>(
            old(trees)@[point.layer as int].nodes@,
            old(trees)@[point.layer as int].leaf_items@,
            old(points)@,
            point.pos,
            if r < old(points)@.len() {
                Some(r)
            } else {
                None
            },
        ),
        r < old(points)@.len() ==> {
            &&& old(trees)@[point.layer as int].contents().count(r) > 0
            &&& final(trees)@[point.layer as int] == old(trees)@[point.layer as int]
            &&& final(points)@ == old(points)@.update(
                r as int,
                Point { rad: final(points)@[r as int].rad, ..old(points)@[r as int] },
            )
            &&& call_ensures(G::larger, (&old(points)@[r as int].rad, &point.rad), final(points)@[r as int].rad)
        },
        r >= old(points)@.len() ==> {
            &&& r == old(points)@.len()
            &&& final(points)@ == old(points)@.push(point)
            &&& (final(trees)@[point.layer as int].contents() =~= old(
                trees,
            )@[point.layer as int].contents().insert(r) || (final(trees)@[point.layer as int].contents()
                =~= old(trees)@[point.layer as int].contents() && (call_ensures(
                G::farther_than,
                (&point.pos, &old(trees)@[point.layer as int].nodes@[0].pos, &old(trees)@[point.layer as int].rad),
                true,
            ) || deep(final(trees)@[point.layer as int].nodes@))))
        },
{
    let layer = point.layer;
    let found = trees[layer].find_item::<G>(points, point.pos);
    match found {
        Some(i) => {
            let k = i.as_usize();
            let rad = G::larger(&points[k].rad, &point.rad);
            let mut p = points[k];
            p.rad = rad;
            points.set(k, p);
            proof {
                assert forall|l: int| 0 <= l < trees@.len() implies {
                    &&& #[trigger] trees@[l].wf()
                    &&& trees@[l].items_below(points@.len())
                } by {
                    assert(old(trees)@[l].wf());
                }
            }
            k
        },
        None => {
            let ghost before = trees@;
            let ghost n0 = points@.len();
            points.push(point);
            let k = points.len() - 1;
            proof {
                assert forall|l: int| 0 <= l < trees@.len() implies #[trigger] trees@[l].items_below(
                    points@.len(),
                ) by {
                    assert(before[l].wf());
                }
                assert(before[layer as int].wf());
            }
            let outcome = trees[layer].insert_item::<G>(None, points, k);
            proof {
                assert forall|l: int| 0 <= l < trees@.len() && l != layer implies #[trigger] trees@[l]
                    == before[l] by {}
                if outcome == InsertOutcome::TooDeep {
                    let path = choose|path: Seq<int>|
                        #![trigger crate::tree::is_descent(trees@[layer as int].nodes@, path)]
                        crate::tree::is_descent(trees@[layer as int].nodes@, path) && path.len() > crate::tree::INSERT_LIMIT / 2 && path[0] == 0;
                    assert(deep(trees@[layer as int].nodes@));
                } else if outcome == InsertOutcome::Outside {
                    let p = choose|p: V|
                        #![trigger call_ensures(<Point<V, S> as crate::tree::QTreeItem<V>>::get_pos, (&points@[k as int],), p)]
                        call_ensures(<Point<V, S> as crate::tree::QTreeItem<V>>::get_pos, (&points@[k as int],), p)
                            && call_ensures(G::farther_than, (&p, &before[layer as int].nodes@[0].pos, &before[layer as int].rad), true);
                    assert(p == point.pos);
                }
                assert forall|l: int| 0 <= l < trees@.len() implies {
                    &&& #[trigger] trees@[l].wf()
                    &&& trees@[l].items_below(points@.len())
                    &&& trees@[l].rad == old(trees)@[l].rad
                    &&& trees@[l].nodes@[0].pos == old(trees)@[l].nodes@[0].pos
                } by {
                    assert(before[l].wf());
                }
            }
            k
        },
    }
}

/// Puts every via at rest where it stands and sets whether it is held in place.
pub fn set_vias_fixed<V: Copy>(vias: &mut Vec<Via<V>>, fixed: bool, zero: V)
    ensures
        final(vias)@.len() == old(vias)@.len(),
        forall|i: int|
            0 <= i < old(vias)@.len() ==> #[trigger] final(vias)@[i] == (Via {
                v: zero,
                pos_prev: old(vias)@[i].pos,
                fixed,
                ..old(vias)@[i]
            }),
{
    let n = vias.len();
    let mut i: usize = 0;
    while i < n
        invariant
            n == old(vias)@.len(),
            vias@.len() == n,
            0 <= i <= n,
            forall|k: int|
                0 <= k < i ==> #[trigger] vias@[k] == (Via {
                    v: zero,
                    pos_prev: old(vias)@[k].pos,
                    fixed,
                    ..old(vias)@[k]
                }),
            forall|k: int| i <= k < n ==> #[trigger] vias@[k] == old(vias)@[k],
        decreases n - i,
    {
        let pos = vias[i].pos;
        vias[i].v = zero;
        vias[i].pos_prev = pos;
        vias[i].fixed = fixed;
        i = i + 1;
    }
}

/// Appends to `points` a copy of each point of `old_points` that `list` names,
/// in order, and makes `list` name the copies.
#[verifier::spinoff_prover]
pub fn copy_to_end<V: Copy, S: Copy>(
    points: &mut Vec<Point<V, S>>,
    old_points: &Vec<Point<V, S>>,
    list: &mut Vec<usize>,
)
    requires
        forall|k: int| 0 <= k < old(list)@.len() ==> #[trigger] old(list)@[k] < old_points@.len(),
        old(points)@.len() + old(list)@.len() <= usize::MAX,
    ensures
        final(list)@.len() == old(list)@.len(),
        final(points)@.len() == old(points)@.len() + old(list)@.len(),
        final(points)@.subrange(0, old(points)@.len() as int) == old(points)@,
        forall|k: int|
            0 <= k < old(list)@.len() ==> {
                &&& #[trigger] final(list)@[k] == old(points)@.len() + k
                &&& final(points)@[old(points)@.len() + k] == old_points@[old(list)@[k] as int]
            },
{
    let n = list.len();
    let base = points.len();
    let mut k: usize = 0;
    while k < n
        invariant
            n == old(list)@.len(),
            list@.len() == n,
            base == old(points)@.len(),
            base + n <= usize::MAX,
            0 <= k <= n,
            points@.len() == base + k,
            points@.subrange(0, base as int) == old(points)@,
            forall|j: int| 0 <= j < n ==> #[trigger] old(list)@[j] < old_points@.len(),
            forall|j: int| k <= j < n ==> #[trigger] list@[j] == old(list)@[j],
            forall|j: int|
                0 <= j < k ==> {
                    &&& #[trigger] list@[j] == base + j
                    &&& points@[base + j] == old_points@[old(list)@[j] as int]
                },
        decreases n - k,
    {
        let pt = list[k];
        let ghost before = points@;
        let ghost lb = list@;
        points.push(old_points[pt]);
        assert(points@.subrange(0, base as int) =~= before.subrange(0, base as int));
        list.set(k, base + k);
        proof {
            assert forall|j: int| 0 <= j < k + 1 implies {
                &&& #[trigger] list@[j] == base + j
                &&& points@[base + j] == old_points@[old(list)@[j] as int]
            } by {
                if j < k {
                    assert(lb[j] == base + j);
                    assert(points@[base + j] == before[base + j]);
                }
            }
        }
        k = k + 1;
    }
    proof {
        assert forall|j: int| 0 <= j < n implies {
            &&& #[trigger] list@[j] == base + j
            &&& points@[base + j] == old_points@[old(list)@[j] as int]
        } by {
            assert(j < k);
        }
    }
}

/// The point list of a via once the points were rebuilt, with the points
/// copied for it: every entry that ends a track is renamed through `ends`, or
/// dropped when `ends` has no entry for it; every other pad point is renamed to
/// a fresh copy, the copies numbered from `base` in order; a free point is kept.
pub open spec fn reattached<V, S>(
    list: Seq<usize>,
    base: nat,
    old_points: Seq<Point<V, S>>,
    ends: Map<usize, usize>,
) -> (Seq<usize>, Seq<Point<V, S>>)
    decreases list.len(),
{
    if list.len() == 0 {
        (Seq::empty(), Seq::empty())
    } else {
        let rest = reattached(list.drop_last(), base, old_points, ends);
        let pt = list.last();
        match old_points[pt as int].point_type {
            PointType::Child { has_edge, .. } => if has_edge {
                if ends.contains_key(pt) {
                    (rest.0.push(ends[pt]), rest.1)
                } else {
                    rest
                }
            } else {
                (rest.0.push((base + rest.1.len()) as usize), rest.1.push(old_points[pt as int]))
            },
            PointType::Free { .. } => (rest.0.push(pt), rest.1),
        }
    }
}

proof fn lemma_reattached_copies<V, S>(
    list: Seq<usize>,
    base: nat,
    old_points: Seq<Point<V, S>>,
    ends: Map<usize, usize>,
)
    ensures
        reattached(list, base, old_points, ends).1.len() <= list.len(),
    decreases list.len(),
{
    if list.len() > 0 {
        lemma_reattached_copies(list.drop_last(), base, old_points, ends);
    }
}

/// Rewrites the point list of a via after the points were rebuilt (see
/// `reattached`); the copies are appended to `points`.
pub fn reattach_via_points<V: Copy, S: Copy>(
    points: &mut Vec<Point<V, S>>,
    old_points: &Vec<Point<V, S>>,
    ends: &HashMap<usize, usize>,
    list: &mut Vec<usize>,
)
    requires
        forall|k: int| 0 <= k < old(list)@.len() ==> #[trigger] old(list)@[k] < old_points@.len(),
        old(points)@.len() + old(list)@.len() <= usize::MAX,
    ensures
        ({
            let (l, added) = reattached(old(list)@, old(points)@.len(), old_points@, ends@);
            &&& final(list)@ == l
            &&& final(points)@ == old(points)@ + added
        }),
{
    broadcast use vstd::std_specs::hash::group_hash_axioms;

    let ghost base = points@.len();
    let ghost l0 = list@;
    let n = list.len();
    let mut out: Vec<usize> = Vec::new();
    let mut i: usize = 0;
    while i < n
        invariant
            n == l0.len(),
            l0 == old(list)@,
            base == old(points)@.len(),
            base + n <= usize::MAX,
            list@ == l0,
            0 <= i <= n,
            forall|k: int| 0 <= k < n ==> #[trigger] l0[k] < old_points@.len(),
            ({
                let (l, added) = reattached(l0.take(i as int), base, old_points@, ends@);
                &&& out@ == l
                &&& points@ == old(points)@ + added
            }),
        decreases n - i,
    {
        let pt = list[i];
        proof {
            assert(l0.take(i + 1).drop_last() =~= l0.take(i as int));
            assert(l0.take(i + 1).last() == pt);
            lemma_reattached_copies(l0.take(i as int), base, old_points@, ends@);
        }
        let ghost prev = reattached(l0.take(i as int), base, old_points@, ends@);
        let ghost p0 = points@;
        match old_points[pt].point_type {
            PointType::Child { has_edge, .. } => {
                if has_edge {
                    match ends.get(&pt) {
                        Some(child) => {
                            out.push(*child);
                        },
                        None => {},
                    }
                } else {
                    let len = points.len();
                    points.push(old_points[pt]);
                    out.push(len);
                    proof {
                        assert(old(points)@ + prev.1.push(old_points@[pt as int]) =~= points@);
                    }
                }
            },
            PointType::Free { .. } => {
                out.push(pt);
            },
        }
        i = i + 1;
    }
    proof {
        assert(l0.take(n as int) =~= l0);
    }
    *list = out;
}

/// Remembers the current position of every free point and every via.
pub fn store_prev_all<V: Copy, S>(points: &mut Vec<Point<V, S>>, vias: &mut Vec<Via<V>>)
    ensures
        final(points)@.len() == old(points)@.len(),
        final(vias)@.len() == old(vias)@.len(),
        forall|i: int|
            0 <= i < old(points)@.len() ==> #[trigger] final(points)@[i] == (match old(points)@[i].point_type {
                PointType::Free { v, neighbors, .. } => Point {
                    point_type: PointType::Free { pos_prev: old(points)@[i].pos, v, neighbors },
                    ..old(points)@[i]
                },
                PointType::Child { .. } => old(points)@[i],
            }),
        forall|i: int|
            0 <= i < old(vias)@.len() ==> #[trigger] final(vias)@[i] == (Via {
                pos_prev: old(vias)@[i].pos,
                ..old(vias)@[i]
            }),
{
    let ghost p0 = points@;
    let n = points.len();
    let mut i: usize = 0;
    while i < n
        invariant
            n == p0.len(),
            points@.len() == n,
            0 <= i <= n,
            forall|j: int|
                0 <= j < i ==> #[trigger] points@[j] == (match p0[j].point_type {
                    PointType::Free { v, neighbors, .. } => Point {
                        point_type: PointType::Free { pos_prev: p0[j].pos, v, neighbors },
                        ..p0[j]
                    },
                    PointType::Child { .. } => p0[j],
                }),
            forall|j: int| i <= j < n ==> #[trigger] points@[j] == p0[j],
        decreases n - i,
    {
        points[i].store_prev();
        i = i + 1;
    }
    let ghost v0 = vias@;
    let m = vias.len();
    let mut i: usize = 0;
    while i < m
        invariant
            m == v0.len(),
            vias@.len() == m,
            0 <= i <= m,
            forall|j: int| 0 <= j < i ==> #[trigger] vias@[j] == (Via { pos_prev: v0[j].pos, ..v0[j] }),
            forall|j: int| i <= j < m ==> #[trigger] vias@[j] == v0[j],
        decreases m - i,
    {
        vias[i].store_prev();
        i = i + 1;
    }
}

/// After a reordering, a remapped list of references designates the same
/// points, in the same order, as before.
pub proof fn law_reordering_keeps_references<T>(
    order: Seq<usize>,
    before: Seq<T>,
    after: Seq<T>,
    keys: Seq<u128>,
    refs_before: Seq<usize>,
    refs_after: Seq<usize>,
)
    requires
        points_reordered(order, before, after, keys),
        remapped(order, refs_before, refs_after),
    ensures
        forall|k: int|
            0 <= k < refs_before.len() ==> #[trigger] after[refs_after[k] as int] == before[refs_before[k] as int],
{
    assert forall|k: int| 0 <= k < refs_before.len() implies #[trigger] after[refs_after[k] as int]
        == before[refs_before[k] as int] by {
        assert(refs_after[k] < order.len());
        assert(after[refs_after[k] as int] == before[order[refs_after[k] as int] as int]);
    }
}

/// After a reordering, every remapped edge joins the same two points as before.
pub proof fn law_reordering_keeps_edges<T, S>(
    order: Seq<usize>,
    before: Seq<T>,
    after: Seq<T>,
    keys: Seq<u128>,
    edges_before: Seq<Edge<S>>,
    edges_after: Seq<Edge<S>>,
)
    requires
        points_reordered(order, before, after, keys),
        edges_remapped(order, edges_before, edges_after),
    ensures
        forall|k: int|
            #![trigger edges_after[k]]
            0 <= k < edges_before.len() ==> after[edges_after[k].i0 as int]
                == before[edges_before[k].i0 as int] && after[edges_after[k].i1 as int]
                == before[edges_before[k].i1 as int],
{
    assert forall|k: int|
        #![trigger edges_after[k]]
        0 <= k < edges_before.len() implies after[edges_after[k].i0 as int]
        == before[edges_before[k].i0 as int] && after[edges_after[k].i1 as int]
        == before[edges_before[k].i1 as int] by {
        assert(edges_after[k].w == edges_before[k].w);
        assert(after[edges_after[k].i0 as int] == before[order[edges_after[k].i0 as int] as int]);
        assert(after[edges_after[k].i1 as int] == before[order[edges_after[k].i1 as int] as int]);
    }
}

/// After a reordering the points come in non-decreasing key order: the new
/// point at `i` has a key no greater than the new point at `j > i`.
pub proof fn law_reordering_sorts<T>(
    order: Seq<usize>,
    before: Seq<T>,
    after: Seq<T>,
    keys: Seq<u128>,
    i: int,
    j: int,
)
    requires
        points_reordered(order, before, after, keys),
        0 <= i < j < after.len(),
    ensures
        after[i] == before[order[i] as int],
        after[j] == before[order[j] as int],
        keys[order[i] as int] <= keys[order[j] as int],
{
}

/// When each key is a layer followed by a 64-bit code (see `point_sort_key`),
/// the reordered points come layer by layer: no point follows a point of a
/// higher layer.
pub proof fn law_sorted_by_layer<V, S>(
    order: Seq<usize>,
    before: Seq<Point<V, S>>,
    after: Seq<Point<V, S>>,
    keys: Seq<u128>,
    codes: Seq<u64>,
    i: int,
    j: int,
)
    requires
        points_reordered(order, before, after, keys),
        keys.len() == before.len(),
        codes.len() == before.len(),
        forall|k: int|
            0 <= k < keys.len() ==> #[trigger] keys[k] == before[k].layer as int * 0x1_0000_0000_0000_0000int
                + codes[k] as int,
        0 <= i < j < after.len(),
    ensures
        after[i].layer <= after[j].layer,
{
    let a = order[i] as int;
    let b = order[j] as int;
    assert(keys[a] <= keys[b]);
    let la = before[a].layer as int;
    let lb = before[b].layer as int;
    let ca = codes[a] as int;
    let cb = codes[b] as int;
    assert(keys[a] == la * 0x1_0000_0000_0000_0000int + ca);
    assert(keys[b] == lb * 0x1_0000_0000_0000_0000int + cb);
    assert(la <= lb) by (nonlinear_arith)
        requires
            la * 0x1_0000_0000_0000_0000int + ca <= lb * 0x1_0000_0000_0000_0000int + cb,
            0 <= ca < 0x1_0000_0000_0000_0000int,
            0 <= cb < 0x1_0000_0000_0000_0000int,
    ;
}

/// `m` with each layer id of `ids` mapped to its position in `ids`, in order
/// (a repeated id ends up mapped to its last position).
pub open spec fn with_layer_indices(m: Map<i32, usize>, ids: Seq<i32>) -> Map<i32, usize>
    decreases ids.len(),
{
    if ids.len() == 0 {
        m
    } else {
        with_layer_indices(m, ids.drop_last()).insert(ids.last(), (ids.len() - 1) as usize)
    }
}

/// Numbers the copper layers of the board stackup: the `n`-th copper layer id
/// is mapped to `n`.
pub fn index_copper_layers(layer_map: &mut HashMap<i32, usize>, copper_ids: &Vec<i32>)
    ensures
        final(layer_map)@ == with_layer_indices(old(layer_map)@, copper_ids@),
{
    broadcast use vstd::std_specs::hash::group_hash_axioms;

    let n = copper_ids.len();
    let mut k: usize = 0;
    while k < n
        invariant
            n == copper_ids@.len(),
            0 <= k <= n,
            layer_map@ == with_layer_indices(old(layer_map)@, copper_ids@.take(k as int)),
        decreases n - k,
    {
        layer_map.insert(copper_ids[k], k);
        assert(copper_ids@.take(k + 1).drop_last() =~= copper_ids@.take(k as int));
        k = k + 1;
    }
    assert(copper_ids@.take(n as int) =~= copper_ids@);
}

/// After numbering distinct copper layer ids, each id is mapped to its position.
pub proof fn law_layer_indices_distinct(m: Map<i32, usize>, ids: Seq<i32>, k: int)
    requires
        0 <= k < ids.len(),
        ids.len() <= usize::MAX,
        forall|a: int, b: int| 0 <= a < b < ids.len() ==> ids[a] != ids[b],
    ensures
        with_layer_indices(m, ids).contains_key(ids[k]),
        with_layer_indices(m, ids)[ids[k]] == k,
    decreases ids.len(),
{
    let rest = with_layer_indices(m, ids.drop_last());
    assert(with_layer_indices(m, ids) == rest.insert(ids.last(), (ids.len() - 1) as usize));
    if k < ids.len() - 1 {
        assert(ids.drop_last()[k] == ids[k]);
        assert(ids[k] != ids[ids.len() - 1]);
        law_layer_indices_distinct(m, ids.drop_last(), k);
    }
}

} // verus!
