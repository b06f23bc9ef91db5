//! Chaining loose segments: track segments into curves, in which every edge
//! starts where the previous one ends, and courtyard segments into outlines.
use crate::permute::is_permutation;
use crate::physics::CourtyardSegment;
use crate::physics::Edge;
use crate::physics::Outline;
use crate::physics::OutlinePoint;
use crate::tree::Geometry;
use vstd::multiset::Multiset;
use vstd::prelude::*;
use vstd::seq_lib::group_to_multiset_ensures;
use vstd::seq_lib::lemma_multiset_commutative;

verus! {

/// An edge with its endpoints in increasing order: edges equal up to direction
/// have the same unoriented form.
pub open spec fn unoriented<S>(e: Edge<S>) -> Edge<S> {
    if e.i0 <= e.i1 {
        e
    } else {
        Edge { i0: e.i1, i1: e.i0, ..e }
    }
}

/// The multiset of the unoriented forms of a list of edges.
pub open spec fn edge_multiset<S>(s: Seq<Edge<S>>) -> Multiset<Edge<S>> {
    s.map_values(|e: Edge<S>| unoriented(e)).to_multiset()
}

/// All edges of all curves, curve after curve.
pub open spec fn flatten_curves<S>(curves: Seq<Vec<Edge<S>>>) -> Seq<Edge<S>>
    decreases curves.len(),
{
    if curves.len() == 0 {
        Seq::empty()
    } else {
        flatten_curves(curves.drop_last()) + curves.last()@
    }
}

/// Every edge of `c` starts where the previous one ends.
pub open spec fn is_chain<S>(c: Seq<Edge<S>>) -> bool {
    forall|j: int, k: int| 0 <= j && k == j + 1 && k < c.len() ==> #[trigger] c[j].i1 == #[trigger] c[k].i0
}

/// Every edge of `c` ends where the previous one starts.
pub open spec fn is_reverse_chain<S>(c: Seq<Edge<S>>) -> bool {
    forall|j: int, k: int| 0 <= j && k == j + 1 && k < c.len() ==> #[trigger] c[k].i1 == #[trigger] c[j].i0
}

/// Whether edge `e` has `p` as an endpoint.
pub open spec fn touches<S>(e: Edge<S>, p: usize) -> bool {
    e.i0 == p || e.i1 == p
}

proof fn lemma_edge_multiset_empty<S>()
    ensures
        edge_multiset(Seq::<Edge<S>>::empty()) =~= Multiset::empty(),
{
    broadcast use group_to_multiset_ensures;

    let f = |e: Edge<S>| unoriented(e);
    assert(Seq::<Edge<S>>::empty().map_values(f) =~= Seq::<Edge<S>>::empty());
    assert(Seq::<Edge<S>>::empty().to_multiset().len() == 0);
}

proof fn lemma_edge_multiset_concat<S>(a: Seq<Edge<S>>, b: Seq<Edge<S>>)
    ensures
        edge_multiset(a + b) =~= edge_multiset(a).add(edge_multiset(b)),
{
    let f = |e: Edge<S>| unoriented(e);
    assert((a + b).map_values(f) =~= a.map_values(f) + b.map_values(f));
    lemma_multiset_commutative(a.map_values(f), b.map_values(f));
}

proof fn lemma_edge_multiset_push<S>(a: Seq<Edge<S>>, e: Edge<S>)
    ensures
        edge_multiset(a.push(e)) =~= edge_multiset(a).insert(unoriented(e)),
{
    broadcast use group_to_multiset_ensures;

    let f = |e: Edge<S>| unoriented(e);
    assert(a.push(e).map_values(f) =~= a.map_values(f).push(unoriented(e)));
}

proof fn lemma_edge_multiset_swap_remove<S>(a: Seq<Edge<S>>, i: int)
    requires
        0 <= i < a.len(),
    ensures
        edge_multiset(a) =~= edge_multiset(a.update(i, a.last()).drop_last()).insert(unoriented(a[i])),
{
    broadcast use group_to_multiset_ensures;
    broadcast use vstd::multiset::group_multiset_axioms;

    let f = |e: Edge<S>| unoriented(e);
    let m = a.map_values(f);
    let r = a.update(i, a.last()).drop_last();
    if i == a.len() - 1 {
        assert(r =~= a.drop_last());
        assert(a =~= a.drop_last().push(a[i]));
        lemma_edge_multiset_push(a.drop_last(), a[i]);
    } else {
        // r = a with a[i] replaced by the last element, and the last dropped.
        let pre = a.subrange(0, i);
        let mid = a.subrange(i + 1, a.len() - 1);
        let last = a.last();
        assert(a =~= pre.push(a[i]) + mid.push(last));
        assert(r =~= pre.push(last) + mid);
        lemma_edge_multiset_concat(pre.push(a[i]), mid.push(last));
        lemma_edge_multiset_concat(pre.push(last), mid);
        lemma_edge_multiset_push(pre, a[i]);
        lemma_edge_multiset_push(pre, last);
        lemma_edge_multiset_push(mid, last);
    }
}

proof fn lemma_flatten_push<S>(curves: Seq<Vec<Edge<S>>>, c: Vec<Edge<S>>)
    ensures
        flatten_curves(curves.push(c)) == flatten_curves(curves) + c@,
{
    assert(curves.push(c).drop_last() =~= curves);
}

/// The index of the first edge of `pool` touching `p`, if any.
pub open spec fn first_touch<S>(pool: Seq<Edge<S>>, p: usize) -> Option<int> {
    if exists|i: int|
        0 <= i < pool.len() && touches(#[trigger] pool[i], p) && forall|k: int|
            0 <= k < i ==> !touches(#[trigger] pool[k], p) {
        Some(
            choose|i: int|
                0 <= i < pool.len() && touches(#[trigger] pool[i], p) && forall|k: int|
                    0 <= k < i ==> !touches(#[trigger] pool[k], p),
        )
    } else {
        None
    }
}

/// `e` run the other way.
pub open spec fn reversed<S>(e: Edge<S>) -> Edge<S> {
    Edge { i0: e.i1, i1: e.i0, ..e }
}

/// `pool` once its edge `i` is taken out, the last edge taking its place.
pub open spec fn pool_without<S>(pool: Seq<Edge<S>>, i: int) -> Seq<Edge<S>> {
    pool.update(i, pool.last()).drop_last()
}

/// The curves that chaining gives from a state of the walk: the curves
/// `done`, the curve being built `current`, the edges met walking backwards
/// (`stack`, the latest last), the edge in hand and the edges left in
/// `pool`. Walking backwards, the first edge of the pool touching the start
/// of the edge in hand is stacked in its place, turned to end there; then
/// the edge in hand joins the curve, and the stack is unwound; after that,
/// the first edge of the pool touching the curve's end continues it, turned
/// to start there; when none does, the curve is done and the first edge of
/// the pool starts a new one.
pub open spec fn walk<S>(
    done: Seq<Seq<Edge<S>>>,
    current: Seq<Edge<S>>,
    stack: Seq<Edge<S>>,
    edge: Edge<S>,
    pool: Seq<Edge<S>>,
    backwards: bool,
) -> Seq<Seq<Edge<S>>>
    decreases 2 * pool.len() + stack.len(),
{
    if pool.len() == 0 && stack.len() == 0 {
        done.push(current.push(edge))
    } else if backwards && pool.len() > 0 && first_touch(pool, edge.i0) is Some {
        let i = first_touch(pool, edge.i0)->0;
        let taken = pool[i];
        walk(
            done,
            current,
            stack.push(edge),
            if taken.i0 == edge.i0 {
                reversed(taken)
            } else {
                taken
            },
            pool_without(pool, i),
            true,
        )
    } else {
        let cur = current.push(edge);
        if stack.len() > 0 {
            let rest = stack.drop_last();
            if pool.len() == 0 && rest.len() == 0 {
                done.push(cur.push(stack.last()))
            } else {
                walk(done, cur, rest, stack.last(), pool, false)
            }
        } else if pool.len() > 0 && first_touch(pool, edge.i1) is Some {
            let i = first_touch(pool, edge.i1)->0;
            let taken = pool[i];
            walk(
                done,
                cur,
                stack,
                if taken.i0 == edge.i1 {
                    taken
                } else {
                    reversed(taken)
                },
                pool_without(pool, i),
                false,
            )
        } else {
            let rest = pool_without(pool, 0);
            if rest.len() == 0 {
                done.push(cur).push(seq![pool[0]])
            } else {
                walk(done.push(cur), Seq::empty(), stack, pool[0], rest, true)
            }
        }
    }
}

/// The curves that chaining a non-empty list of edges gives: the walk starts
/// from its first edge, walking backwards.
pub open spec fn chained_curves<S>(edges: Seq<Edge<S>>) -> Seq<Seq<Edge<S>>> {
    walk(Seq::empty(), Seq::empty(), Seq::empty(), edges[0], pool_without(edges, 0), true)
}

/// The curves as sequences of edges.
pub open spec fn curve_views<S>(curves: Seq<Vec<Edge<S>>>) -> Seq<Seq<Edge<S>>> {
    curves.map_values(|c: Vec<Edge<S>>| c@)
}

proof fn lemma_first_touch<S>(pool: Seq<Edge<S>>, p: usize, r: Option<(usize, bool)>)
    requires
        match r {
            Some((i, starts)) => {
                &&& i < pool.len()
                &&& touches(pool[i as int], p)
                &&& forall|k: int| 0 <= k < i ==> !touches(#[trigger] pool[k], p)
            },
            None => forall|k: int| 0 <= k < pool.len() ==> !touches(#[trigger] pool[k], p),
        },
    ensures
        match r {
            Some((i, _)) => first_touch(pool, p) == Some(i as int),
            None => first_touch(pool, p) is None,
        },
{
    if let Some((i, _)) = r {
        assert(touches(pool[i as int], p));
        let j = choose|j: int|
            0 <= j < pool.len() && touches(#[trigger] pool[j], p) && forall|k: int|
                0 <= k < j ==> !touches(#[trigger] pool[k], p);
        if j < i {
            assert(!touches(pool[j], p));
        }
        if i < j {
            assert(!touches(pool[i as int], p));
        }
    }
}

/// The first edge touching point `p`, with whether it starts there.
fn find_touching<S: Copy>(edges: &Vec<Edge<S>>, p: usize) -> (r: Option<(usize, bool)>)
    ensures
        match r {
            Some((i, starts)) => {
                &&& i < edges@.len()
                &&& touches(edges@[i as int], p)
                &&& starts == (edges@[i as int].i0 == p)
                &&& forall|k: int| 0 <= k < i ==> !touches(#[trigger] edges@[k], p)
            },
            None => forall|k: int| 0 <= k < edges@.len() ==> !touches(#[trigger] edges@[k], p),
        },
{
    let n = edges.len();
    let mut i: usize = 0;
    while i < n
        invariant
            n == edges@.len(),
            0 <= i <= n,
            forall|k: int| 0 <= k < i ==> !touches(#[trigger] edges@[k], p),
        decreases n - i,
    {
        let e = edges[i];
        if e.i0 == p {
            return Some((i, true));
        } else if e.i1 == p {
            return Some((i, false));
        }
        i = i + 1;
    }
    None
}

/// The multiset holding just the unoriented form of `e`, or nothing.
pub open spec fn held_edge<S>(e: Edge<S>, holding: bool) -> Multiset<Edge<S>> {
    if holding {
        Multiset::singleton(unoriented(e))
    } else {
        Multiset::empty()
    }
}

proof fn lemma_unoriented_swap<S>(e: Edge<S>)
    ensures
        unoriented(Edge { i0: e.i1, i1: e.i0, ..e }) == unoriented(e),
{
}

/// Edge `e` has no end at the start of the first edge or at the end of the
/// last edge of any curve of `closed`.
pub open spec fn apart<S>(closed: Seq<Vec<Edge<S>>>, e: Edge<S>) -> bool {
    forall|c: int|
        #![trigger closed[c]]
        0 <= c < closed.len() ==> !touches(e, closed[c]@[0].i0) && !touches(e, closed[c]@.last().i1)
}

/// Every edge of `es` is apart from the curves of `closed`.
pub open spec fn all_apart<S>(closed: Seq<Vec<Edge<S>>>, es: Seq<Edge<S>>) -> bool {
    forall|k: int| 0 <= k < es.len() ==> apart(closed, #[trigger] es[k])
}

/// No edge of a curve touches the start of the first edge or the end of the
/// last edge of an earlier curve: each curve was extended as far as it goes.
pub open spec fn curves_maximal<S>(curves: Seq<Vec<Edge<S>>>) -> bool {
    forall|d: int| 0 <= d < curves.len() ==> all_apart(curves.take(d), #[trigger] curves[d]@)
}

/// No edge of `es` touches point `p`.
pub open spec fn none_touch<S>(es: Seq<Edge<S>>, p: usize) -> bool {
    forall|k: int| 0 <= k < es.len() ==> !touches(#[trigger] es[k], p)
}

proof fn lemma_forall_swap_remove<S>(es: Seq<Edge<S>>, i: int, f: spec_fn(Edge<S>) -> bool)
    requires
        0 <= i < es.len(),
        forall|k: int| 0 <= k < es.len() ==> #[trigger] f(es[k]),
    ensures
        forall|k: int| 0 <= k < es.len() - 1 ==> #[trigger] f(es.update(i, es.last()).drop_last()[k]),
{
    assert forall|k: int| 0 <= k < es.len() - 1 implies #[trigger] f(es.update(i, es.last()).drop_last()[k]) by {
        if k == i {
            assert(es.update(i, es.last()).drop_last()[k] == es[es.len() - 1]);
        } else {
            assert(es.update(i, es.last()).drop_last()[k] == es[k]);
        }
    }
}

proof fn lemma_all_apart_swap_remove<S>(closed: Seq<Vec<Edge<S>>>, es: Seq<Edge<S>>, i: int)
    requires
        0 <= i < es.len(),
        all_apart(closed, es),
    ensures
        all_apart(closed, es.update(i, es.last()).drop_last()),
        apart(closed, es[i]),
{
    let f = |e: Edge<S>| apart(closed, e);
    assert forall|k: int| 0 <= k < es.len() implies #[trigger] f(es[k]) by {}
    lemma_forall_swap_remove(es, i, f);
    let r = es.update(i, es.last()).drop_last();
    assert forall|k: int| 0 <= k < r.len() implies apart(closed, #[trigger] r[k]) by {
        assert(f(r[k]));
    }
}

proof fn lemma_none_touch_swap_remove<S>(es: Seq<Edge<S>>, i: int, p: usize)
    requires
        0 <= i < es.len(),
        none_touch(es, p),
    ensures
        none_touch(es.update(i, es.last()).drop_last(), p),
{
    let f = |e: Edge<S>| !touches(e, p);
    assert forall|k: int| 0 <= k < es.len() implies #[trigger] f(es[k]) by {}
    lemma_forall_swap_remove(es, i, f);
    let r = es.update(i, es.last()).drop_last();
    assert forall|k: int| 0 <= k < r.len() implies !touches(#[trigger] r[k], p) by {
        assert(f(r[k]));
    }
}

proof fn lemma_apart_swap<S>(closed: Seq<Vec<Edge<S>>>, e: Edge<S>)
    requires
        apart(closed, e),
    ensures
        apart(closed, Edge { i0: e.i1, i1: e.i0, ..e }),
{
    assert forall|c: int| #![trigger closed[c]] 0 <= c < closed.len() implies !touches(Edge { i0: e.i1, i1: e.i0, ..e }, closed[c]@[0].i0)
        && !touches(Edge { i0: e.i1, i1: e.i0, ..e }, closed[c]@.last().i1) by {
        assert(!touches(e, closed[c]@[0].i0) && !touches(e, closed[c]@.last().i1));
    }
}

proof fn lemma_all_apart_push<S>(closed: Seq<Vec<Edge<S>>>, es: Seq<Edge<S>>, e: Edge<S>)
    requires
        all_apart(closed, es),
        apart(closed, e),
    ensures
        all_apart(closed, es.push(e)),
{
    assert forall|k: int| 0 <= k < es.push(e).len() implies apart(closed, #[trigger] es.push(e)[k]) by {
        if k < es.len() {
            assert(es.push(e)[k] == es[k]);
        }
    }
}

proof fn lemma_all_apart_prefix<S>(closed: Seq<Vec<Edge<S>>>, es: Seq<Edge<S>>, n: int)
    requires
        all_apart(closed, es),
        0 <= n <= es.len(),
    ensures
        all_apart(closed, es.take(n)),
{
    assert forall|k: int| 0 <= k < es.take(n).len() implies apart(closed, #[trigger] es.take(n)[k]) by {
        assert(es.take(n)[k] == es[k]);
    }
}

/// Closing a curve `cur` keeps apart every edge that touches neither its
/// first start nor its last end.
proof fn lemma_all_apart_close<S>(closed: Seq<Vec<Edge<S>>>, cur: Vec<Edge<S>>, es: Seq<Edge<S>>)
    requires
        cur@.len() > 0,
        all_apart(closed, es),
        none_touch(es, cur@[0].i0),
        none_touch(es, cur@.last().i1),
    ensures
        all_apart(closed.push(cur), es),
{
    let cl = closed.push(cur);
    assert forall|k: int| 0 <= k < es.len() implies apart(cl, #[trigger] es[k]) by {
        assert(apart(closed, es[k]));
        assert(!touches(es[k], cur@[0].i0));
        assert(!touches(es[k], cur@.last().i1));
        assert forall|c: int| #![trigger cl[c]] 0 <= c < cl.len() implies !touches(es[k], cl[c]@[0].i0)
            && !touches(es[k], cl[c]@.last().i1) by {
            if c < closed.len() {
                assert(cl[c] == closed[c]);
            }
        }
    }
}

proof fn lemma_maximal_push<S>(curves: Seq<Vec<Edge<S>>>, c: Vec<Edge<S>>)
    requires
        curves_maximal(curves),
        all_apart(curves, c@),
    ensures
        curves_maximal(curves.push(c)),
{
    let cs = curves.push(c);
    assert forall|d: int| 0 <= d < cs.len() implies all_apart(cs.take(d), #[trigger] cs[d]@) by {
        if d < curves.len() {
            assert(cs.take(d) =~= curves.take(d));
            assert(cs[d] == curves[d]);
        } else {
            assert(cs.take(d) =~= curves);
        }
    }
}

/// Chains edges into curves. Starting from an edge, it first walks backwards
/// through edges that share its start point, then emits the walk in order and
/// continues forwards through edges that share the end point; when no edge
/// continues the curve, a new curve starts with the first remaining edge.
/// Edges are reversed as needed so that each curve is a chain. This goes on
/// until all edges are exhausted: every edge is placed in exactly one curve.
/// At a junction the first touching edge left in the pool (taken edges
/// leave their slot to the last one) continues the curve, and each curve
/// runs the way its first edge did: the result is `chained_curves`.
pub fn build_curves<S: Copy>(edges_flat: Vec<Edge<S>>) -> (curves: Vec<Vec<Edge<S>>>)
    requires
        edges_flat@.len() > 0,
    ensures
        curves@.len() >= 1,
        forall|c: int| 0 <= c < curves@.len() ==> is_chain(#[trigger] curves@[c]@),
        forall|c: int| 0 <= c < curves@.len() ==> #[trigger] curves@[c]@.len() > 0,
        edge_multiset(flatten_curves(curves@)) =~= edge_multiset(edges_flat@),
        curves_maximal(curves@),
        curve_views(curves@) == chained_curves(edges_flat@),
{
    broadcast use group_to_multiset_ensures;
    broadcast use vstd::multiset::group_multiset_axioms;

    let ghost input = edges_flat@;
    let mut edges = edges_flat;
    let mut curves: Vec<Vec<Edge<S>>> = Vec::new();
    let mut current: Vec<Edge<S>> = Vec::new();
    let mut backwards = true;
    let mut tmp: Vec<Edge<S>> = Vec::new();
    let ghost e0 = edges@;
    let mut edge = edges.swap_remove(0);
    let mut holding = true;
    let ghost single = input.len() == 1;
    proof {
        lemma_edge_multiset_swap_remove(e0, 0);
        assert(flatten_curves(curves@) =~= Seq::<Edge<S>>::empty());
        assert(current@ =~= Seq::<Edge<S>>::empty());
        assert(tmp@ =~= Seq::<Edge<S>>::empty());
        lemma_edge_multiset_empty::<S>();
    }
    let ghost result = chained_curves(input);
    proof {
        assert(curve_views(curves@) =~= Seq::<Seq<Edge<S>>>::empty());
        assert(walk(curve_views(curves@), current@, tmp@, edge, edges@, backwards) == result);
    }
    while edges.len() > 0 || tmp.len() > 0
        invariant_except_break
            walk(curve_views(curves@), current@, tmp@, edge, edges@, backwards) == result,
            current@.len() > 0 ==> current@.last().i1 == edge.i0,
            backwards ==> current@.len() == 0,
            tmp@.len() > 0 ==> edge.i1 == tmp@.last().i0,
            holding,
            current@.len() == 0 && !single ==> (edges@.len() > 0 || tmp@.len() > 0),
            single ==> edges@.len() == 0 && tmp@.len() == 0,
        invariant
            edge_multiset(flatten_curves(curves@)).add(edge_multiset(current@)).add(
                edge_multiset(tmp@),
            ).add(held_edge(edge, holding)).add(edge_multiset(edges@)) =~= edge_multiset(input),
            forall|c: int| 0 <= c < curves@.len() ==> is_chain(#[trigger] curves@[c]@),
            forall|c: int| 0 <= c < curves@.len() ==> #[trigger] curves@[c]@.len() > 0,
            is_chain(current@),
            is_reverse_chain(tmp@),
            single == (input.len() == 1),
            single ==> current@.len() == 0 && curves@.len() == 0,
            single ==> holding,
            !single ==> current@.len() > 0 || (holding && (edges@.len() > 0 || tmp@.len() > 0)) || (
            holding && backwards),
            curves_maximal(curves@),
            all_apart(curves@, edges@),
            all_apart(curves@, current@),
            all_apart(curves@, tmp@),
            holding ==> apart(curves@, edge),
            !backwards ==> current@.len() > 0 && none_touch(edges@, current@[0].i0),
            result == chained_curves(input),
        ensures
            holding ==> curve_views(curves@).push(current@.push(edge)) == result,
            !holding ==> curve_views(curves@).push(current@) == result,
            edge_multiset(flatten_curves(curves@)).add(edge_multiset(current@)).add(
                edge_multiset(tmp@),
            ).add(held_edge(edge, holding)).add(edge_multiset(edges@)) =~= edge_multiset(input),
            edges@.len() == 0,
            tmp@.len() == 0,
            forall|c: int| 0 <= c < curves@.len() ==> is_chain(#[trigger] curves@[c]@),
            forall|c: int| 0 <= c < curves@.len() ==> #[trigger] curves@[c]@.len() > 0,
            is_chain(current@),
            single ==> current@.len() == 0 && curves@.len() == 0,
            !single ==> current@.len() > 0,
            single ==> holding,
            holding ==> (current@.len() > 0 ==> current@.last().i1 == edge.i0),
            curves_maximal(curves@),
            all_apart(curves@, current@),
            holding ==> apart(curves@, edge),
        decreases 2 * edges@.len() + tmp@.len(),
    {
        let ghost sd = curve_views(curves@);
        let ghost sc = current@;
        let ghost st = tmp@;
        let ghost se = edge;
        let ghost sp = edges@;
        let ghost sb = backwards;
        if backwards {
            let found = find_touching(&edges, edge.i0);
            if let Some((index, swap)) = found {
                let ghost before = edges@;
                let ghost tmp0 = tmp@;
                let ghost old_edge = edge;
                tmp.push(edge);
                edge = edges.swap_remove(index);
                let ghost taken = edge;
                if swap {
                    edge.swap();
                }
                proof {
                    lemma_first_touch(before, old_edge.i0, found);
                    assert(walk(sd, sc, st, se, sp, sb) == walk(curve_views(curves@), current@, tmp@, edge, edges@, backwards));
                    lemma_edge_multiset_swap_remove(before, index as int);
                    lemma_edge_multiset_push(tmp0, old_edge);
                    lemma_unoriented_swap(taken);
                    assert(unoriented(edge) == unoriented(taken));
                    assert(edge.i1 == old_edge.i0);
                    assert forall|j: int, k: int| 0 <= j && k == j + 1 && k < tmp@.len() implies #[trigger] tmp@[k].i1
                        == #[trigger] tmp@[j].i0 by {
                        if k < tmp0.len() {
                            assert(tmp@[k] == tmp0[k] && tmp@[j] == tmp0[j]);
                        }
                    }
                }
                continue;
            }
            proof {
                lemma_first_touch(edges@, edge.i0, found);
            }
        }
        backwards = false;
        let i1 = edge.i1;
        let ghost cur0 = current@;
        let ghost pushed = edge;
        current.push(edge);
        proof {
            lemma_edge_multiset_push(cur0, pushed);
            assert forall|j: int, k: int| 0 <= j && k == j + 1 && k < current@.len() implies #[trigger] current@[j].i1
                == #[trigger] current@[k].i0 by {
                if k < cur0.len() {
                    assert(current@[k] == cur0[k] && current@[j] == cur0[j]);
                }
            }
        }
        if tmp.len() > 0 {
            let ghost tmp0 = tmp@;
            let next = tmp.pop().unwrap();
            edge = next;
            proof {
                assert(tmp0 =~= tmp@.push(next));
                lemma_edge_multiset_push(tmp@, next);
                assert forall|j: int, k: int| 0 <= j && k == j + 1 && k < tmp@.len() implies #[trigger] tmp@[k].i1
                    == #[trigger] tmp@[j].i0 by {
                    assert(tmp@[k] == tmp0[k] && tmp@[j] == tmp0[j]);
                }
                if tmp@.len() > 0 {
                    let last = tmp0.len() - 1;
                    let prev = tmp0.len() - 2;
                    assert(tmp0[last].i1 == tmp0[prev].i0);
                }
            }
            if edges.len() == 0 && tmp.len() == 0 {
                let ghost cur1 = current@;
                current.push(edge);
                holding = false;
                proof {
                    assert(walk(sd, sc, st, se, sp, sb) == sd.push(current@));
                    lemma_edge_multiset_push(cur1, next);
                    assert forall|j: int, k: int| 0 <= j && k == j + 1 && k < current@.len() implies #[trigger] current@[j].i1
                        == #[trigger] current@[k].i0 by {
                        if k < cur1.len() {
                            assert(current@[k] == cur1[k] && current@[j] == cur1[j]);
                        }
                    }
                }
                break;
            }
            proof {
                assert(walk(sd, sc, st, se, sp, sb) == walk(curve_views(curves@), current@, tmp@, edge, edges@, backwards));
            }
            continue;
        }
        let found = find_touching(&edges, i1);
        if let Some((index, starts)) = found {
            let ghost before = edges@;
            edge = edges.swap_remove(index);
            let ghost taken = edge;
            if !starts {
                edge.swap();
            }
            proof {
                lemma_first_touch(before, i1, found);
                assert(walk(sd, sc, st, se, sp, sb) == walk(curve_views(curves@), current@, tmp@, edge, edges@, backwards));
                lemma_edge_multiset_swap_remove(before, index as int);
                lemma_unoriented_swap(taken);
                assert(unoriented(edge) == unoriented(taken));
            }
            continue;
        }
        proof {
            lemma_first_touch(edges@, i1, found);
        }
        backwards = true;
        let ghost curves0 = curves@;
        let ghost finished = current@;
        let ghost finished_vec = current;
        proof {
            assert(current@.last() == pushed);
            lemma_maximal_push(curves0, finished_vec);
            lemma_all_apart_close(curves0, finished_vec, edges@);
        }
        curves.push(current);
        current = Vec::new();
        let ghost before = edges@;
        edge = edges.swap_remove(0);
        proof {
            lemma_flatten_push(curves0, curves@.last());
            lemma_edge_multiset_concat(flatten_curves(curves0), finished);
            lemma_edge_multiset_swap_remove(before, 0);
            assert(current@ =~= Seq::<Edge<S>>::empty());
            lemma_edge_multiset_empty::<S>();
            assert forall|c: int| 0 <= c < curves@.len() implies is_chain(#[trigger] curves@[c]@) by {
                if c < curves0.len() {
                    assert(curves@[c] == curves0[c]);
                }
            }
            assert forall|c: int| 0 <= c < curves@.len() implies #[trigger] curves@[c]@.len() > 0 by {
                if c < curves0.len() {
                    assert(curves@[c] == curves0[c]);
                }
            }
        }
        proof {
            assert(curve_views(curves@) =~= sd.push(sc.push(se)));
        }
        if edges.len() == 0 && tmp.len() == 0 {
            let ghost cur1 = current@;
            current.push(edge);
            holding = false;
            proof {
                lemma_edge_multiset_push(cur1, edge);
                assert(current@.len() == 1);
                assert(current@ =~= seq![edge]);
                assert(walk(sd, sc, st, se, sp, sb) == curve_views(curves@).push(current@));
            }
            break;
        }
        proof {
            assert(walk(sd, sc, st, se, sp, sb) == walk(curve_views(curves@), current@, tmp@, edge, edges@, backwards));
        }
    }
    if holding {
        let ghost cur1 = current@;
        current.push(edge);
        holding = false;
        proof {
            lemma_edge_multiset_push(cur1, edge);
            assert forall|j: int, k: int| 0 <= j && k == j + 1 && k < current@.len() implies #[trigger] current@[j].i1
                == #[trigger] current@[k].i0 by {
                if k < cur1.len() {
                    assert(current@[k] == cur1[k] && current@[j] == cur1[j]);
                }
            }
        }
    }
    let ghost curves0 = curves@;
    let ghost last = current@;
    proof {
        lemma_maximal_push(curves0, current);
    }
    curves.push(current);
    proof {
        assert(curve_views(curves@) =~= curve_views(curves0).push(last));
        lemma_flatten_push(curves0, curves@.last());
        lemma_edge_multiset_concat(flatten_curves(curves0), last);
        lemma_edge_multiset_empty::<S>();
        assert(held_edge(edge, holding) =~= Multiset::empty());
        assert(edge_multiset(flatten_curves(curves@)) =~= edge_multiset(input));
        assert forall|c: int| 0 <= c < curves@.len() implies is_chain(#[trigger] curves@[c]@) by {
            if c < curves0.len() {
                assert(curves@[c] == curves0[c]);
            }
        }
        assert forall|c: int| 0 <= c < curves@.len() implies #[trigger] curves@[c]@.len() > 0 by {
            if c < curves0.len() {
                assert(curves@[c] == curves0[c]);
            }
        }
    }
    curves
}


/// The points of all outlines, outline after outline.
pub open spec fn outline_points<V, S>(outlines: Seq<Outline<V, S>>) -> Seq<OutlinePoint<V, S>>
    decreases outlines.len(),
{
    if outlines.len() == 0 {
        Seq::empty()
    } else {
        outline_points(outlines.drop_last()) + outlines.last().points@
    }
}

/// Outline point `p` comes from segment `s`: it is one of its ends, with its width.
pub open spec fn from_segment<V, S>(p: OutlinePoint<V, S>, s: CourtyardSegment<V, S>) -> bool {
    p.w == s.w && (p.pos == s.start || p.pos == s.end)
}

/// Outline `o` starts at the start of segment `s` and lies on its side.
pub open spec fn starts_with<V, S>(o: Outline<V, S>, s: CourtyardSegment<V, S>) -> bool {
    &&& o.points@.len() > 0
    &&& o.points@[0] == (OutlinePoint { pos: s.start, w: s.w })
    &&& o.layer == s.front
}

/// Outline `o` starts at the start of one of the segments `segs`, on its side.
pub open spec fn starts_at_some<V, S>(o: Outline<V, S>, segs: Seq<CourtyardSegment<V, S>>) -> bool {
    exists|s: int| 0 <= s < segs.len() && #[trigger] starts_with(o, segs[s])
}

/// The number of entries still false.
pub open spec fn count_open(done: Seq<bool>) -> nat
    decreases done.len(),
{
    if done.len() == 0 {
        0
    } else {
        count_open(done.drop_last()) + if done.last() {
            0nat
        } else {
            1nat
        }
    }
}

proof fn lemma_count_open_close(done: Seq<bool>, i: int)
    requires
        0 <= i < done.len(),
        !done[i],
    ensures
        count_open(done.update(i, true)) + 1 == count_open(done),
    decreases done.len(),
{
    if i == done.len() - 1 {
        assert(done.update(i, true).drop_last() =~= done.drop_last());
    } else {
        assert(done.update(i, true).drop_last() =~= done.drop_last().update(i, true));
        lemma_count_open_close(done.drop_last(), i);
    }
}

proof fn lemma_count_open_all_closed(done: Seq<bool>)
    requires
        forall|k: int| 0 <= k < done.len() ==> #[trigger] done[k],
    ensures
        count_open(done) == 0,
    decreases done.len(),
{
    if done.len() > 0 {
        lemma_count_open_all_closed(done.drop_last());
    }
}

proof fn lemma_outline_points_push<V, S>(outlines: Seq<Outline<V, S>>, o: Outline<V, S>)
    ensures
        outline_points(outlines.push(o)) == outline_points(outlines) + o.points@,
{
    assert(outlines.push(o).drop_last() =~= outlines);
}

/// The sources of all outlines, outline after outline.
pub open spec fn concat_sources(srcs: Seq<Seq<usize>>) -> Seq<usize>
    decreases srcs.len(),
{
    if srcs.len() == 0 {
        Seq::empty()
    } else {
        concat_sources(srcs.drop_last()) + srcs.last()
    }
}

/// Point `p` continues an outline at `at` through segment `s`: `G::same`
/// reported the start of `s` at `at` and `p` is its end, or reported its start
/// elsewhere and its end at `at`, and `p` is its start.
pub open spec fn continues<V, S, G: Geometry<V, S>>(s: CourtyardSegment<V, S>, at: V, p: OutlinePoint<V, S>) -> bool {
    ||| call_ensures(G::same, (&s.start, &at), true) && p == (OutlinePoint { pos: s.end, w: s.w })
    ||| call_ensures(G::same, (&s.start, &at), false) && call_ensures(G::same, (&s.end, &at), true) && p == (
    OutlinePoint { pos: s.start, w: s.w })
}

/// `G::same` reported both ends of segment `s` away from `at`.
pub open spec fn reported_apart<V, S, G: Geometry<V, S>>(s: CourtyardSegment<V, S>, at: V) -> bool {
    call_ensures(G::same, (&s.start, &at), false) && call_ensures(G::same, (&s.end, &at), false)
}

/// Outline `o` was chained from the segments `src`: it starts at the start of
/// the first, and each later point continues the point before it.
pub open spec fn outline_follows<V, S, G: Geometry<V, S>>(
    segs: Seq<CourtyardSegment<V, S>>,
    o: Outline<V, S>,
    src: Seq<usize>,
) -> bool {
    &&& src.len() == o.points@.len()
    &&& src.len() > 0
    &&& forall|k: int| 0 <= k < src.len() ==> #[trigger] src[k] < segs.len()
    &&& starts_with(o, segs[src[0] as int])
    &&& forall|k: int|
        1 <= k < src.len() ==> #[trigger] continues::<V, S, G>(segs[src[k] as int], o.points@[k - 1].pos, o.points@[k])
}

/// An outline ending at `last` stopped because every segment not in `taken`
/// was reported away from `last`.
pub open spec fn outline_closed<V, S, G: Geometry<V, S>>(
    segs: Seq<CourtyardSegment<V, S>>,
    taken: Seq<usize>,
    last: V,
) -> bool {
    forall|x: int| 0 <= x < segs.len() && !taken.contains(x as usize) ==> #[trigger] reported_apart::<V, S, G>(segs[x], last)
}

/// Every outline was chained from its sources `srcs[o]` and stopped only when
/// no segment left (not in the sources of it and of the outlines before) was
/// reported touching its last point.
pub open spec fn chained_outlines<V, S, G: Geometry<V, S>>(
    segs: Seq<CourtyardSegment<V, S>>,
    outlines: Seq<Outline<V, S>>,
    srcs: Seq<Seq<usize>>,
) -> bool {
    &&& srcs.len() == outlines.len()
    &&& forall|o: int| 0 <= o < outlines.len() ==> #[trigger] outline_follows::<V, S, G>(segs, outlines[o], srcs[o])
    &&& forall|o: int|
        #![trigger outlines[o]]
        0 <= o < outlines.len() ==> outline_closed::<V, S, G>(
            segs,
            concat_sources(srcs.take(o + 1)),
            outlines[o].points@.last().pos,
        )
}

/// The state of the chaining: `used` lists the segments taken so far, in the
/// order of the points they gave (`flat`), and `done` marks exactly them.
spec fn chain_state<V, S>(
    segments: Seq<CourtyardSegment<V, S>>,
    done: Seq<bool>,
    used: Seq<usize>,
    flat: Seq<OutlinePoint<V, S>>,
) -> bool {
    &&& done.len() == segments.len()
    &&& used.len() + count_open(done) == segments.len()
    &&& flat.len() == used.len()
    &&& forall|k: int| 0 <= k < used.len() ==> #[trigger] used[k] < segments.len()
    &&& forall|k: int, l: int| 0 <= k < used.len() && 0 <= l < used.len() && k != l ==> used[k] != used[l]
    &&& forall|x: usize| x < segments.len() ==> (done[x as int] <==> #[trigger] used.contains(x))
    &&& forall|k: int| 0 <= k < used.len() ==> #[trigger] from_segment(flat[k], segments[used[k] as int])
}

/// Chains courtyard segments into outlines. An outline starts at the start of
/// the first segment not yet taken; then, as long as a segment not yet taken
/// has an end at the last point (the first such segment, its start tested
/// before its end), its other end is appended. Every segment gives exactly
/// one point (the first segment of an outline its start, the others the end
/// that continues the outline).
pub fn chain_outlines<V: Copy, S: Copy, G: Geometry<V, S>>(segments: &Vec<CourtyardSegment<V, S>>) -> (r: Vec<Outline<V, S>>)
    ensures
        forall|o: int| 0 <= o < r@.len() ==> starts_at_some(#[trigger] r@[o], segments@),
        exists|src: Seq<usize>|
            {
                &&& is_permutation(src, segments@.len())
                &&& outline_points(r@).len() == segments@.len()
                &&& forall|k: int|
                    0 <= k < segments@.len() ==> #[trigger] from_segment(outline_points(r@)[k], segments@[src[k] as int])
            },
        exists|srcs: Seq<Seq<usize>>|
            {
                &&& chained_outlines::<V, S, G>(segments@, r@, srcs)
                &&& is_permutation(concat_sources(srcs), segments@.len())
            },
{
    let n = segments.len();
    let mut done: Vec<bool> = Vec::new();
    let mut k: usize = 0;
    while k < n
        invariant
            0 <= k <= n,
            done@.len() == k,
            count_open(done@) == k,
            forall|j: int| 0 <= j < k ==> !#[trigger] done@[j],
        decreases n - k,
    {
        let ghost before = done@;
        done.push(false);
        assert(done@.drop_last() =~= before);
        k = k + 1;
    }
    let mut outlines: Vec<Outline<V, S>> = Vec::new();
    let ghost mut used: Seq<usize> = Seq::empty();
    let ghost mut srcs: Seq<Seq<usize>> = Seq::empty();
    proof {
        assert(outline_points(outlines@) =~= Seq::<OutlinePoint<V, S>>::empty());
    }
    loop
        invariant
            n == segments@.len(),
            chain_state(segments@, done@, used, outline_points(outlines@)),
            forall|o: int| 0 <= o < outlines@.len() ==> starts_at_some(#[trigger] outlines@[o], segments@),
            chained_outlines::<V, S, G>(segments@, outlines@, srcs),
            used == concat_sources(srcs),
        ensures
            forall|x: int| 0 <= x < n ==> #[trigger] done@[x],
            chain_state(segments@, done@, used, outline_points(outlines@)),
            forall|o: int| 0 <= o < outlines@.len() ==> starts_at_some(#[trigger] outlines@[o], segments@),
            chained_outlines::<V, S, G>(segments@, outlines@, srcs),
            used == concat_sources(srcs),
        decreases count_open(done@),
    {
        let mut i: usize = 0;
        while i < n && done[i]
            invariant
                0 <= i <= n,
                n == done@.len(),
                forall|j: int| 0 <= j < i ==> #[trigger] done@[j],
            decreases n - i,
        {
            i = i + 1;
        }
        if i == n {
            break;
        }
        let first = segments[i];
        let mut current = OutlinePoint { pos: first.start, w: first.w };
        let mut points: Vec<OutlinePoint<V, S>> = Vec::new();
        points.push(current);
        proof {
            lemma_count_open_close(done@, i as int);
            assert(!used.contains(i));
            assert(from_segment(current, segments@[i as int]));
            let flat0 = outline_points(outlines@);
            let used1 = used.push(i);
            assert forall|x: usize| x < n implies (done@.update(i as int, true)[x as int] <==> #[trigger] used1.contains(x)) by {
                if x == i {
                    assert(used1[used.len() as int] == i);
                } else {
                    if used.contains(x) {
                        let w = choose|w: int| 0 <= w < used.len() && used[w] == x;
                        assert(used1[w] == x);
                    }
                    if used1.contains(x) {
                        let w = choose|w: int| 0 <= w < used1.len() && used1[w] == x;
                        assert(w < used.len());
                        assert(used[w] == x);
                    }
                }
            }
            assert forall|a: int, b: int| 0 <= a < used1.len() && 0 <= b < used1.len() && a != b implies used1[a] != used1[b] by {
                if a == used.len() && b < used.len() {
                    assert(used.contains(used[b]));
                    assert(done@[used[b] as int]);
                } else if b == used.len() && a < used.len() {
                    assert(used.contains(used[a]));
                    assert(done@[used[a] as int]);
                }
            }
            assert forall|k: int| 0 <= k < used1.len() implies #[trigger] from_segment((flat0 + points@)[k], segments@[used1[k] as int]) by {
                if k < used.len() {
                    assert((flat0 + points@)[k] == flat0[k]);
                } else {
                    assert((flat0 + points@)[k] == current);
                }
            }
            used = used1;
        }
        let ghost mut cur_src: Seq<usize> = seq![i];
        proof {
            assert(used == concat_sources(srcs) + cur_src);
        }
        done.set(i, true);
        loop
            invariant
                n == segments@.len(),
                0 <= i < n,
                first == segments@[i as int],
                chain_state(segments@, done@, used, outline_points(outlines@) + points@),
                points@.len() > 0,
                points@[0] == (OutlinePoint { pos: first.start, w: first.w }),
                forall|o: int| 0 <= o < outlines@.len() ==> starts_at_some(#[trigger] outlines@[o], segments@),
                chained_outlines::<V, S, G>(segments@, outlines@, srcs),
                used == concat_sources(srcs) + cur_src,
                cur_src.len() == points@.len(),
                cur_src[0] == i,
                forall|k: int| 0 <= k < cur_src.len() ==> #[trigger] cur_src[k] < n,
                forall|k: int|
                    1 <= k < cur_src.len() ==> #[trigger] continues::<V, S, G>(
                        segments@[cur_src[k] as int],
                        points@[k - 1].pos,
                        points@[k],
                    ),
                current == points@.last(),
            ensures
                n == segments@.len(),
                0 <= i < n,
                first == segments@[i as int],
                chain_state(segments@, done@, used, outline_points(outlines@) + points@),
                points@.len() > 0,
                points@[0] == (OutlinePoint { pos: first.start, w: first.w }),
                forall|o: int| 0 <= o < outlines@.len() ==> starts_at_some(#[trigger] outlines@[o], segments@),
                chained_outlines::<V, S, G>(segments@, outlines@, srcs),
                used == concat_sources(srcs) + cur_src,
                cur_src.len() == points@.len(),
                cur_src[0] == i,
                forall|k: int| 0 <= k < cur_src.len() ==> #[trigger] cur_src[k] < n,
                forall|k: int|
                    1 <= k < cur_src.len() ==> #[trigger] continues::<V, S, G>(
                        segments@[cur_src[k] as int],
                        points@[k - 1].pos,
                        points@[k],
                    ),
                current == points@.last(),
                outline_closed::<V, S, G>(segments@, used, current.pos),
            decreases count_open(done@),
        {
            let mut j: usize = 0;
            let mut found: Option<(usize, OutlinePoint<V, S>)> = None;
            while j < n && found.is_none()
                invariant
                    0 <= j <= n,
                    n == segments@.len(),
                    n == done@.len(),
                    found matches Some((f, p)) ==> f < n && !done@[f as int] && from_segment(p, segments@[f as int])
                        && continues::<V, S, G>(segments@[f as int], current.pos, p),
                    found is None ==> forall|x: int|
                        0 <= x < j ==> done@[x] || #[trigger] reported_apart::<V, S, G>(segments@[x], current.pos),
                decreases n - j + if found.is_none() { 1int } else { 0int },
            {
                if !done[j] {
                    let s = segments[j];
                    let at_start = G::same(&s.start, &current.pos);
                    if at_start {
                        found = Some((j, OutlinePoint { pos: s.end, w: s.w }));
                    } else {
                        let at_end = G::same(&s.end, &current.pos);
                        if at_end {
                            found = Some((j, OutlinePoint { pos: s.start, w: s.w }));
                        } else {
                            proof {
                                assert(reported_apart::<V, S, G>(segments@[j as int], current.pos));
                            }
                        }
                    }
                }
                j = j + 1;
            }
            match found {
                None => {
                    proof {
                        assert forall|x: int| 0 <= x < n && !used.contains(x as usize) implies #[trigger] reported_apart::<V, S, G>(
                            segments@[x],
                            current.pos,
                        ) by {
                            assert(!done@[x]);
                        }
                    }
                    break;
                },
                Some((f, next)) => {
                    current = next;
                    let ghost flat0 = outline_points(outlines@) + points@;
                    let ghost p0 = points@;
                    points.push(current);
                    proof {
                        lemma_count_open_close(done@, f as int);
                        assert(!used.contains(f));
                        let used1 = used.push(f);
                        let flat1 = outline_points(outlines@) + points@;
                        assert(flat1 =~= flat0.push(current));
                        assert forall|x: usize| x < n implies (done@.update(f as int, true)[x as int] <==> #[trigger] used1.contains(x)) by {
                            if x == f {
                                assert(used1[used.len() as int] == f);
                            } else {
                                if used.contains(x) {
                                    let w = choose|w: int| 0 <= w < used.len() && used[w] == x;
                                    assert(used1[w] == x);
                                }
                                if used1.contains(x) {
                                    let w = choose|w: int| 0 <= w < used1.len() && used1[w] == x;
                                    assert(w < used.len());
                                    assert(used[w] == x);
                                }
                            }
                        }
                        assert forall|a: int, b: int| 0 <= a < used1.len() && 0 <= b < used1.len() && a != b implies used1[a] != used1[b] by {
                            if a == used.len() && b < used.len() {
                                assert(used.contains(used[b]));
                                assert(done@[used[b] as int]);
                            } else if b == used.len() && a < used.len() {
                                assert(used.contains(used[a]));
                                assert(done@[used[a] as int]);
                            }
                        }
                        assert forall|k: int| 0 <= k < used1.len() implies #[trigger] from_segment(flat1[k], segments@[used1[k] as int]) by {
                            if k < used.len() {
                                assert(flat1[k] == flat0[k]);
                            }
                        }
                        assert(points@[0] == p0[0]);
                        let cs1 = cur_src.push(f);
                        assert(used1 == concat_sources(srcs) + cs1);
                        assert forall|k: int| 1 <= k < cs1.len() implies #[trigger] continues::<V, S, G>(
                            segments@[cs1[k] as int],
                            points@[k - 1].pos,
                            points@[k],
                        ) by {
                            if k < cur_src.len() {
                                assert(cs1[k] == cur_src[k]);
                                assert(points@[k] == p0[k] && points@[k - 1] == p0[k - 1]);
                            } else {
                                assert(points@[k - 1] == p0.last());
                            }
                        }
                        used = used1;
                        cur_src = cs1;
                    }
                    done.set(f, true);
                },
            }
        }
        let outline = Outline { points, layer: first.front };
        let ghost o0 = outlines@;
        let ghost s0 = srcs;
        outlines.push(outline);
        proof {
            let s1 = s0.push(cur_src);
            assert(s1.drop_last() =~= s0);
            assert(concat_sources(s1) == used);
            assert(outline_follows::<V, S, G>(segments@, outline, cur_src));
            assert forall|o: int| 0 <= o < outlines@.len() implies #[trigger] outline_follows::<V, S, G>(segments@, outlines@[o], s1[o]) by {
                if o < o0.len() {
                    assert(outlines@[o] == o0[o]);
                    assert(s1[o] == s0[o]);
                }
            }
            assert forall|o: int| #![trigger outlines@[o]] 0 <= o < outlines@.len() implies outline_closed::<V, S, G>(
                segments@,
                concat_sources(s1.take(o + 1)),
                outlines@[o].points@.last().pos,
            ) by {
                if o < o0.len() {
                    assert(outlines@[o] == o0[o]);
                    assert(s1.take(o + 1) =~= s0.take(o + 1));
                } else {
                    assert(s1.take(o + 1) =~= s1);
                }
            }
            srcs = s1;
            lemma_outline_points_push(o0, outline);
            assert(starts_with(outline, segments@[i as int]));
            assert forall|o: int| 0 <= o < outlines@.len() implies starts_at_some(#[trigger] outlines@[o], segments@) by {
                if o < o0.len() {
                    assert(outlines@[o] == o0[o]);
                } else {
                    assert(outlines@[o] == outline);
                    assert(starts_with(outlines@[o], segments@[i as int]));
                }
            }
        }
    }
    proof {
        lemma_count_open_all_closed(done@);
        assert(is_permutation(used, n as nat));
        assert(chained_outlines::<V, S, G>(segments@, outlines@, srcs));
    }
    outlines
}

} // verus!
