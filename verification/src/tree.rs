//! A bucketed quadtree over item indices. Node `i` owns the slots
//! `BUCKET_SIZE * i .. BUCKET_SIZE * (i + 1)` of `leaf_items`; a leaf stores
//! up to `BUCKET_SIZE` item indices there and splits into quadrant children
//! when full. Geometry (comparisons and centres of child squares) is supplied
//! by a `Geometry` implementation; this module only manages indices.
use crate::typed_idx::idx;
use crate::typed_idx::Idx;
use vstd::multiset::Multiset;
use vstd::prelude::*;
use vstd::seq_lib::group_to_multiset_ensures;

verus! {

/// Capacity of a leaf.
pub const BUCKET_SIZE: usize = 32;

/// Largest number of descent steps an insertion may take.
pub const INSERT_LIMIT: usize = 100;

/// Something stored in a quadtree: it has a position.
pub trait QTreeItem<V> {
    fn get_pos(&self) -> V;
}

/// The planar operations the quadtree needs on positions `V` and radii `S`.
pub trait Geometry<V, S> {
    /// Whether `p` lies at greater `x` than `c`.
    fn greater_x(p: &V, c: &V) -> bool;

    /// Whether `p` lies at greater `y` than `c`.
    fn greater_y(p: &V, c: &V) -> bool;

    /// Whether `p` lies at smaller `x` than `c`.
    fn less_x(p: &V, c: &V) -> bool;

    /// Whether `p` lies at smaller `y` than `c`.
    fn less_y(p: &V, c: &V) -> bool;

    /// The centre of quadrant `q` (bit 1: greater `x`, bit 0: greater `y`)
    /// of the square of half-size `rad` centred at `c`.
    fn child_center(c: &V, rad: &S, q: usize) -> V;

    /// Half of a radius.
    fn half(rad: &S) -> S;

    /// Whether `p` is farther than `rad` from `c`.
    fn farther_than(p: &V, c: &V, rad: &S) -> bool;

    /// Whether two positions are equal.
    fn same(a: &V, b: &V) -> bool;

    /// The larger of two radii.
    fn larger(a: &S, b: &S) -> S;

    /// The sum of two lengths.
    fn sum(a: &S, b: &S) -> S;

    /// The point halfway between `a` and `b`.
    fn midpoint(a: &V, b: &V) -> V;
}

/// Per-node summary data, computed leaves first and then parents.
pub trait QTreeData<T, V>: Sized {
    /// What the leaf summary reads besides the items.
    type Context;

    /// The summary of an empty node.
    fn new() -> Self;

    /// The summary of leaf `self_idx`, from the items in its bucket.
    fn update_leaf(
        self_idx: Idx<Node<Self, V>>,
        nodes: &Vec<Node<Self, V>>,
        leaf_items: &Vec<Idx<T>>,
        items: &Vec<T>,
        context: &Self::Context,
    ) -> Self;

    /// The summary of internal node `self_idx`, from its children.
    fn update_internal(self_idx: Idx<Node<Self, V>>, nodes: &Vec<Node<Self, V>>) -> Self;
}

/// A node: a square centred at `pos`, a leaf with a bucket of items or an
/// internal node with up to four children (a zero index means no child).
#[derive(Clone, Debug)]
pub struct Node<D, V> {
    pub is_leaf: bool,
    pub pos: V,
    pub data: D,
    pub nitems: usize,
    pub items: usize,
    pub children: [Idx<Node<D, V>>; 4],
}

/// The quadtree: nodes, the item buckets, the root (always node 0) and the
/// half-size of the root square.
#[derive(Clone, Debug)]
pub struct QuadTree<T, D, V, S> {
    pub nodes: Vec<Node<D, V>>,
    pub leaf_items: Vec<Idx<T>>,
    pub root: Idx<Node<D, V>>,
    pub rad: S,
}

/// How an insertion ended.
#[derive(Clone, Copy, Debug, PartialEq, Eq)]
pub enum InsertOutcome {
    /// The item was added to a leaf bucket.
    Inserted,
    /// The item was reported farther than the radius from the root centre and
    /// was not added.
    Outside,
    /// The descent took `INSERT_LIMIT` steps without placing the item (items
    /// sharing one position would split without end); the item was not added.
    TooDeep,
}

/// The item index in slot `k` of the bucket of node `i`.
pub open spec fn slot<T>(leaf: Seq<Idx<T>>, i: int, k: int) -> usize {
    leaf[BUCKET_SIZE * i + k]@
}

/// The item indices stored in the bucket of node `i`.
pub open spec fn bucket<T, D, V>(nodes: Seq<Node<D, V>>, leaf: Seq<Idx<T>>, i: int) -> Seq<usize> {
    Seq::new(nodes[i].nitems as nat, |k: int| slot(leaf, i, k))
}

/// The items held by node `i`: its bucket if it is a leaf, nothing otherwise.
pub open spec fn held<T, D, V>(nodes: Seq<Node<D, V>>, leaf: Seq<Idx<T>>, i: int) -> Multiset<usize> {
    if nodes[i].is_leaf {
        bucket(nodes, leaf, i).to_multiset()
    } else {
        Multiset::empty()
    }
}

/// The items held by the nodes below `k`.
pub open spec fn held_upto<T, D, V>(nodes: Seq<Node<D, V>>, leaf: Seq<Idx<T>>, k: nat) -> Multiset<usize>
    decreases k,
{
    if k == 0 {
        Multiset::empty()
    } else {
        held_upto(nodes, leaf, (k - 1) as nat).add(held(nodes, leaf, k - 1))
    }
}

/// The structural invariant of the node and bucket arrays.
pub open spec fn tree_wf<T, D, V>(nodes: Seq<Node<D, V>>, leaf: Seq<Idx<T>>) -> bool {
    &&& nodes.len() >= 1
    &&& leaf.len() == BUCKET_SIZE * nodes.len()
    &&& forall|i: int|
        0 <= i < nodes.len() ==> #[trigger] nodes[i].items == BUCKET_SIZE * i && nodes[i].nitems
            <= BUCKET_SIZE
    &&& forall|i: int, q: int|
        0 <= i < nodes.len() && 0 <= q < 4 ==> #[trigger] nodes[i].children[q]@ == 0 || (i
            < nodes[i].children[q]@ < nodes.len())
    &&& forall|i: int, q: int|
        0 <= i < nodes.len() && 0 <= q < 4 && nodes[i].is_leaf ==> #[trigger] nodes[i].children[q]@
            == 0
}

/// Every item held by a leaf is below `n`.
pub open spec fn leaves_below<T, D, V>(nodes: Seq<Node<D, V>>, leaf: Seq<Idx<T>>, n: nat) -> bool {
    forall|i: int, k: int|
        0 <= i < nodes.len() && nodes[i].is_leaf && 0 <= k < nodes[i].nitems ==> #[trigger] slot(
            leaf,
            i,
            k,
        ) < n
}

/// `a` and `b` differ at most in the summary data of their nodes.
pub open spec fn same_shape<D, V>(a: Seq<Node<D, V>>, b: Seq<Node<D, V>>) -> bool {
    &&& a.len() == b.len()
    &&& forall|i: int|
        0 <= i < a.len() ==> #[trigger] b[i] == (Node { data: b[i].data, ..a[i] })
}

/// The item's position, as `get_pos` reported it, was reported by `G::same`
/// as equal to `pos` (`b` true) or not (`b` false).
pub open spec fn reported_same<T: QTreeItem<V>, V, S, G: Geometry<V, S>>(item: T, pos: V, b: bool) -> bool {
    exists|p: V|
        #![trigger call_ensures(T::get_pos, (&item,), p)]
        call_ensures(T::get_pos, (&item,), p) && call_ensures(G::same, (&p, &pos), b)
}

/// The item's position, as `get_pos` reported it, was reported by
/// `G::farther_than` as farther than `rad` from `c` (`b` true) or not.
pub open spec fn reported_far<T: QTreeItem<V>, V, S, G: Geometry<V, S>>(item: T, c: V, rad: S, b: bool) -> bool {
    exists|p: V|
        #![trigger call_ensures(T::get_pos, (&item,), p)]
        call_ensures(T::get_pos, (&item,), p) && call_ensures(G::farther_than, (&p, &c, &rad), b)
}

/// `b` keeps the centre of every node of `a`, every internal node of `a`
/// internal and every child link of `a`.
pub open spec fn grows<D, V>(a: Seq<Node<D, V>>, b: Seq<Node<D, V>>) -> bool {
    &&& a.len() <= b.len()
    &&& forall|x: int| 0 <= x < a.len() ==> #[trigger] b[x].pos == a[x].pos
    &&& forall|x: int| 0 <= x < a.len() && !a[x].is_leaf ==> !#[trigger] b[x].is_leaf
    &&& forall|x: int, q: int|
        0 <= x < a.len() && 0 <= q < 4 && a[x].children[q]@ != 0 ==> #[trigger] b[x].children[q] == a[x].children[q]
}

/// `path` runs down the tree: each of its nodes but the last is internal and
/// has the next one as a child.
pub open spec fn is_descent<D, V>(nodes: Seq<Node<D, V>>, path: Seq<int>) -> bool {
    &&& path.len() > 0
    &&& forall|t: int| 0 <= t < path.len() ==> 0 <= #[trigger] path[t] < nodes.len()
    &&& forall|t: int|
        #![trigger path[t]]
        0 <= t < path.len() - 1 ==> !nodes[path[t]].is_leaf && exists|q: int|
            0 <= q < 4 && #[trigger] nodes[path[t]].children[q]@ == path[t + 1] && path[t + 1] != 0
}

/// The tree has a chain from the root of more than `INSERT_LIMIT / 2` nodes.
pub open spec fn deep<D, V>(nodes: Seq<Node<D, V>>) -> bool {
    exists|path: Seq<int>|
        #![trigger is_descent(nodes, path)]
        is_descent(nodes, path) && path.len() > INSERT_LIMIT / 2 && path[0] == 0
}

/// At internal node `a`, the quadrant that `G::greater_x` and `G::greater_y`
/// reported for `pos` holds child `b`: the step an insertion of an item at
/// `pos` takes.
pub open spec fn steps_to<D, V, S, G: Geometry<V, S>>(nodes: Seq<Node<D, V>>, pos: V, a: int, b: int) -> bool {
    &&& !nodes[a].is_leaf
    &&& b != 0
    &&& exists|gx: bool, gy: bool|
        #![trigger call_ensures(G::greater_x, (&pos, &nodes[a].pos), gx), call_ensures(G::greater_y, (&pos, &nodes[a].pos), gy)]
        call_ensures(G::greater_x, (&pos, &nodes[a].pos), gx) && call_ensures(G::greater_y, (&pos, &nodes[a].pos), gy)
            && nodes[a].children[quadrant_of(!gx, !gy)]@ == b
}

/// `path` is the way an insertion of an item at `pos` goes down from the
/// root.
pub open spec fn insert_path<D, V, S, G: Geometry<V, S>>(nodes: Seq<Node<D, V>>, pos: V, path: Seq<int>) -> bool {
    &&& path.len() > 0
    &&& path[0] == 0
    &&& forall|t: int| 0 <= t < path.len() ==> 0 <= #[trigger] path[t] < nodes.len()
    &&& forall|t: int| #![trigger path[t]] 0 <= t < path.len() - 1 ==> steps_to::<D, V, S, G>(nodes, pos, path[t], path[t + 1])
}

/// An insertion path stays one while the tree grows.
pub proof fn lemma_insert_path_grows<D, V, S, G: Geometry<V, S>>(a: Seq<Node<D, V>>, b: Seq<Node<D, V>>, pos: V, path: Seq<int>)
    requires
        grows(a, b),
        insert_path::<D, V, S, G>(a, pos, path),
    ensures
        insert_path::<D, V, S, G>(b, pos, path),
{
    assert forall|t: int| #![trigger path[t]] 0 <= t < path.len() - 1 implies steps_to::<D, V, S, G>(b, pos, path[t], path[t + 1]) by {
        let x = path[t];
        assert(0 <= x < a.len());
        assert(steps_to::<D, V, S, G>(a, pos, x, path[t + 1]));
        let (gx, gy) = choose|gx: bool, gy: bool|
            #![trigger call_ensures(G::greater_x, (&pos, &a[x].pos), gx), call_ensures(G::greater_y, (&pos, &a[x].pos), gy)]
            call_ensures(G::greater_x, (&pos, &a[x].pos), gx) && call_ensures(G::greater_y, (&pos, &a[x].pos), gy)
                && a[x].children[quadrant_of(!gx, !gy)]@ == path[t + 1];
        assert(b[x].pos == a[x].pos);
        assert(b[x].children[quadrant_of(!gx, !gy)] == a[x].children[quadrant_of(!gx, !gy)]);
        assert(!b[x].is_leaf);
    }
}

/// Every position `get_pos` reports for `item` is led by an insertion from
/// the root to node `x`.
pub open spec fn reaches<T: QTreeItem<V>, D, V, S, G: Geometry<V, S>>(nodes: Seq<Node<D, V>>, item: T, x: int) -> bool {
    forall|p: V|
        #[trigger] call_ensures(T::get_pos, (&item,), p) ==> exists|path: Seq<int>|
            #![trigger insert_path::<D, V, S, G>(nodes, p, path)]
            insert_path::<D, V, S, G>(nodes, p, path) && path.last() == x
}

/// Every item held in a leaf is where its insertion from the root leads.
pub open spec fn placed<T: QTreeItem<V>, D, V, S, G: Geometry<V, S>>(
    nodes: Seq<Node<D, V>>,
    leaf: Seq<Idx<T>>,
    items: Seq<T>,
) -> bool {
    forall|x: int, k: int|
        0 <= x < nodes.len() && nodes[x].is_leaf && 0 <= k < nodes[x].nitems ==> #[trigger] reaches::<T, D, V, S, G>(
            nodes,
            items[slot(leaf, x, k) as int],
            x,
        )
}

/// `get_pos` reports one position for each item.
pub open spec fn positions_fixed<T: QTreeItem<V>, V>(items: Seq<T>) -> bool {
    forall|x: int, p: V, q: V|
        #![trigger call_ensures(T::get_pos, (&items[x],), p), call_ensures(T::get_pos, (&items[x],), q)]
        0 <= x < items.len() && call_ensures(T::get_pos, (&items[x],), p) && call_ensures(T::get_pos, (&items[x],), q)
            ==> p == q
}

/// Where an item's insertion leads stays so while the tree grows.
pub proof fn lemma_reaches_grows<T: QTreeItem<V>, D, V, S, G: Geometry<V, S>>(
    a: Seq<Node<D, V>>,
    b: Seq<Node<D, V>>,
    item: T,
    x: int,
)
    requires
        grows(a, b),
        reaches::<T, D, V, S, G>(a, item, x),
    ensures
        reaches::<T, D, V, S, G>(b, item, x),
{
    assert forall|p: V| #[trigger] call_ensures(T::get_pos, (&item,), p) implies exists|path: Seq<int>|
        #![trigger insert_path::<D, V, S, G>(b, p, path)]
        insert_path::<D, V, S, G>(b, p, path) && path.last() == x by {
        let path = choose|path: Seq<int>|
            #![trigger insert_path::<D, V, S, G>(a, p, path)]
            insert_path::<D, V, S, G>(a, p, path) && path.last() == x;
        lemma_insert_path_grows::<D, V, S, G>(a, b, p, path);
    }
}

/// With one position per item, a path for the reported one is where the
/// item's insertion leads.
proof fn lemma_reaches_from_path<T: QTreeItem<V>, D, V, S, G: Geometry<V, S>>(
    nodes: Seq<Node<D, V>>,
    items: Seq<T>,
    i: int,
    p: V,
    path: Seq<int>,
)
    requires
        positions_fixed(items),
        0 <= i < items.len(),
        call_ensures(T::get_pos, (&items[i],), p),
        insert_path::<D, V, S, G>(nodes, p, path),
    ensures
        reaches::<T, D, V, S, G>(nodes, items[i], path.last()),
{
    assert forall|q: V| #[trigger] call_ensures(T::get_pos, (&items[i],), q) implies exists|path2: Seq<int>|
        #![trigger insert_path::<D, V, S, G>(nodes, q, path2)]
        insert_path::<D, V, S, G>(nodes, q, path2) && path2.last() == path.last() by {
        assert(q == p);
    }
}

/// Items stay where their insertion leads when the tree grows, no leaf
/// changes its bucket and the new nodes are empty.
pub proof fn lemma_placed_frame<T: QTreeItem<V>, D, V, S, G: Geometry<V, S>>(
    na: Seq<Node<D, V>>,
    la: Seq<Idx<T>>,
    nb: Seq<Node<D, V>>,
    lb: Seq<Idx<T>>,
    items: Seq<T>,
)
    requires
        tree_wf(na, la),
        grows(na, nb),
        la.len() <= lb.len(),
        forall|x: int| 0 <= x < na.len() ==> #[trigger] nb[x].is_leaf == na[x].is_leaf && nb[x].nitems == na[x].nitems,
        forall|x: int| na.len() <= x < nb.len() ==> #[trigger] nb[x].nitems == 0,
        forall|k: int| 0 <= k < la.len() ==> #[trigger] lb[k] == la[k],
        placed::<T, D, V, S, G>(na, la, items),
    ensures
        placed::<T, D, V, S, G>(nb, lb, items),
{
    assert forall|x: int, k: int|
        0 <= x < nb.len() && nb[x].is_leaf && 0 <= k < nb[x].nitems implies #[trigger] reaches::<T, D, V, S, G>(
        nb,
        items[slot(lb, x, k) as int],
        x,
    ) by {
        if x >= na.len() {
            assert(nb[x].nitems == 0);
        } else {
            assert(na[x].nitems == nb[x].nitems && na[x].is_leaf);
            assert(na[x].items == BUCKET_SIZE * x);
            assert(BUCKET_SIZE * x + k < BUCKET_SIZE * na.len()) by (nonlinear_arith)
                requires
                    0 <= k < BUCKET_SIZE,
                    0 <= x < na.len(),
            ;
            assert(slot(lb, x, k) == slot(la, x, k));
            assert(reaches::<T, D, V, S, G>(na, items[slot(la, x, k) as int], x));
            lemma_reaches_grows::<T, D, V, S, G>(na, nb, items[slot(la, x, k) as int], x);
        }
    }
}

/// At every node an insertion of an item at `pos` passes on `path`, the
/// comparisons a search makes are reported only as the opposite of those the
/// insertion was answered: the item lies on no dividing line.
pub open spec fn answers_agree<D, V, S, G: Geometry<V, S>>(nodes: Seq<Node<D, V>>, pos: V, path: Seq<int>) -> bool {
    forall|t: int, g: bool, l: bool|
        #![trigger path[t], call_ensures(G::greater_x, (&pos, &nodes[path[t]].pos), g), call_ensures(G::less_x, (&pos, &nodes[path[t]].pos), l)]
        #![trigger path[t], call_ensures(G::greater_y, (&pos, &nodes[path[t]].pos), g), call_ensures(G::less_y, (&pos, &nodes[path[t]].pos), l)]
        0 <= t < path.len() - 1 ==> (call_ensures(G::greater_x, (&pos, &nodes[path[t]].pos), g) && call_ensures(
            G::less_x,
            (&pos, &nodes[path[t]].pos),
            l,
        ) ==> l == !g) && (call_ensures(G::greater_y, (&pos, &nodes[path[t]].pos), g) && call_ensures(
            G::less_y,
            (&pos, &nodes[path[t]].pos),
            l,
        ) ==> l == !g)
}

proof fn lemma_paths_agree<D, V, S, G: Geometry<V, S>>(
    nodes: Seq<Node<D, V>>,
    pos: V,
    path: Seq<int>,
    spath: Seq<int>,
    t: int,
)
    requires
        insert_path::<D, V, S, G>(nodes, pos, path),
        search_path::<D, V, S, G>(nodes, pos, spath),
        answers_agree::<D, V, S, G>(nodes, pos, path),
        0 <= t < path.len(),
        t < spath.len(),
    ensures
        spath[t] == path[t],
    decreases t,
{
    if t > 0 {
        lemma_paths_agree::<D, V, S, G>(nodes, pos, path, spath, t - 1);
        let a = path[t - 1];
        assert(steps_to::<D, V, S, G>(nodes, pos, a, path[t]));
        let (gx, gy) = choose|gx: bool, gy: bool|
            #![trigger call_ensures(G::greater_x, (&pos, &nodes[a].pos), gx), call_ensures(G::greater_y, (&pos, &nodes[a].pos), gy)]
            call_ensures(G::greater_x, (&pos, &nodes[a].pos), gx) && call_ensures(G::greater_y, (&pos, &nodes[a].pos), gy)
                && nodes[a].children[quadrant_of(!gx, !gy)]@ == path[t];
        assert(spath[t - 1] == a);
        assert(descends_to::<D, V, S, G>(nodes, pos, spath[t - 1], spath[t]));
        let q = choose|q: int|
            0 <= q < 4 && #[trigger] points_to::<D, V, S, G>(nodes, pos, a, q) && nodes[a].children[q]@ == spath[t] && spath[t] != 0;
        let (lx, ly) = choose|lx: bool, ly: bool|
            #![trigger call_ensures(G::less_x, (&pos, &nodes[a].pos), lx), call_ensures(G::less_y, (&pos, &nodes[a].pos), ly)]
            call_ensures(G::less_x, (&pos, &nodes[a].pos), lx) && call_ensures(G::less_y, (&pos, &nodes[a].pos), ly)
                && q == quadrant_of(lx, ly);
        assert(lx == !gx);
        assert(ly == !gy);
    }
}

/// A tree of one empty leaf holds every item where its insertion leads.
pub proof fn lemma_placed_empty<T: QTreeItem<V>, D, V, S, G: Geometry<V, S>>(
    nodes: Seq<Node<D, V>>,
    leaf: Seq<Idx<T>>,
    items: Seq<T>,
)
    requires
        nodes.len() == 1,
        nodes[0].nitems == 0,
    ensures
        placed::<T, D, V, S, G>(nodes, leaf, items),
{
}

/// Every item held is found: in a tree where every item held sits where its
/// insertion from the root leads (as insertions from the root keep it, see
/// `insert_item`), a search for the position of a held item finds an item,
/// provided `get_pos` reports that one position for it, `G::same` reports
/// the position equal to itself only as true, and at every node the search
/// comparisons for it are reported only as the opposite of the insertion
/// ones (it lies on no dividing line).
pub proof fn lemma_held_item_is_found<T: QTreeItem<V>, D, V, S, G: Geometry<V, S>>(
    nodes: Seq<Node<D, V>>,
    leaf: Seq<Idx<T>>,
    items: Seq<T>,
    x: int,
    k: int,
    pos: V,
    r: Option<usize>,
)
    requires
        placed::<T, D, V, S, G>(nodes, leaf, items),
        0 <= x < nodes.len(),
        nodes[x].is_leaf,
        0 <= k < nodes[x].nitems,
        slot(leaf, x, k) < items.len(),
        call_ensures(T::get_pos, (&items[slot(leaf, x, k) as int],), pos),
        forall|q: V| #[trigger] call_ensures(T::get_pos, (&items[slot(leaf, x, k) as int],), q) ==> q == pos,
        forall|b: bool| #[trigger] call_ensures(G::same, (&pos, &pos), b) ==> b,
        forall|a: int, g: bool, l: bool|
            #![trigger call_ensures(G::greater_x, (&pos, &nodes[a].pos), g), call_ensures(G::less_x, (&pos, &nodes[a].pos), l)]
            0 <= a < nodes.len() && call_ensures(G::greater_x, (&pos, &nodes[a].pos), g) && call_ensures(
                G::less_x,
                (&pos, &nodes[a].pos),
                l,
            ) ==> l == !g,
        forall|a: int, g: bool, l: bool|
            #![trigger call_ensures(G::greater_y, (&pos, &nodes[a].pos), g), call_ensures(G::less_y, (&pos, &nodes[a].pos), l)]
            0 <= a < nodes.len() && call_ensures(G::greater_y, (&pos, &nodes[a].pos), g) && call_ensures(
                G::less_y,
                (&pos, &nodes[a].pos),
                l,
            ) ==> l == !g,
        search_result::<T, D, V, S, G>(nodes, leaf, items, pos, r),
    ensures
        r is Some,
{
    assert(reaches::<T, D, V, S, G>(nodes, items[slot(leaf, x, k) as int], x));
    let path = choose|path: Seq<int>|
        #![trigger insert_path::<D, V, S, G>(nodes, pos, path)]
        insert_path::<D, V, S, G>(nodes, pos, path) && path.last() == x;
    assert(answers_agree::<D, V, S, G>(nodes, pos, path)) by {
        assert forall|t: int, g: bool, l: bool|
            0 <= t < path.len() - 1 implies (call_ensures(G::greater_x, (&pos, &nodes[path[t]].pos), g) && call_ensures(
            G::less_x,
            (&pos, &nodes[path[t]].pos),
            l,
        ) ==> l == !g) && (call_ensures(G::greater_y, (&pos, &nodes[path[t]].pos), g) && call_ensures(
            G::less_y,
            (&pos, &nodes[path[t]].pos),
            l,
        ) ==> l == !g) by {
            assert(0 <= path[t] < nodes.len());
        }
    }
    lemma_find_after_insert::<T, D, V, S, G>(nodes, leaf, items, pos, path, k, r);
}

/// Find after insert: when an item sits in the leaf its insertion path from
/// the root ends at, its position was reported as `pos` (and only as `pos`),
/// `G::same` reports `pos` equal to itself only as true, and the search
/// comparisons along the path are reported only as the opposite of the
/// insertion ones, then a search for `pos` finds an item.
pub proof fn lemma_find_after_insert<T: QTreeItem<V>, D, V, S, G: Geometry<V, S>>(
    nodes: Seq<Node<D, V>>,
    leaf: Seq<Idx<T>>,
    items: Seq<T>,
    pos: V,
    path: Seq<int>,
    k: int,
    r: Option<usize>,
)
    requires
        insert_path::<D, V, S, G>(nodes, pos, path),
        nodes[path.last()].is_leaf,
        0 <= k < nodes[path.last()].nitems,
        slot(leaf, path.last(), k) < items.len(),
        forall|q: V| #[trigger] call_ensures(T::get_pos, (&items[slot(leaf, path.last(), k) as int],), q) ==> q == pos,
        forall|b: bool| #[trigger] call_ensures(G::same, (&pos, &pos), b) ==> b,
        answers_agree::<D, V, S, G>(nodes, pos, path),
        search_result::<T, D, V, S, G>(nodes, leaf, items, pos, r),
    ensures
        r is Some,
{
    let spath = choose|spath: Seq<int>|
        #![trigger search_path::<D, V, S, G>(nodes, pos, spath)]
        search_path::<D, V, S, G>(nodes, pos, spath) && search_end::<T, D, V, S, G>(nodes, leaf, items, pos, spath.last(), r);
    let n = path.len() - 1;
    if spath.len() < path.len() {
        let m = spath.len() - 1;
        lemma_paths_agree::<D, V, S, G>(nodes, pos, path, spath, m);
        let a = path[m];
        assert(steps_to::<D, V, S, G>(nodes, pos, a, path[m + 1]));
        assert(!nodes[a].is_leaf);
        let (gx, gy) = choose|gx: bool, gy: bool|
            #![trigger call_ensures(G::greater_x, (&pos, &nodes[a].pos), gx), call_ensures(G::greater_y, (&pos, &nodes[a].pos), gy)]
            call_ensures(G::greater_x, (&pos, &nodes[a].pos), gx) && call_ensures(G::greater_y, (&pos, &nodes[a].pos), gy)
                && nodes[a].children[quadrant_of(!gx, !gy)]@ == path[m + 1];
        let q = choose|q: int| 0 <= q < 4 && #[trigger] points_to::<D, V, S, G>(nodes, pos, a, q) && nodes[a].children[q]@ == 0;
        let (lx, ly) = choose|lx: bool, ly: bool|
            #![trigger call_ensures(G::less_x, (&pos, &nodes[a].pos), lx), call_ensures(G::less_y, (&pos, &nodes[a].pos), ly)]
            call_ensures(G::less_x, (&pos, &nodes[a].pos), lx) && call_ensures(G::less_y, (&pos, &nodes[a].pos), ly)
                && q == quadrant_of(lx, ly);
        assert(lx == !gx);
        assert(ly == !gy);
        assert(false);
    } else if spath.len() > path.len() {
        lemma_paths_agree::<D, V, S, G>(nodes, pos, path, spath, n);
        assert(descends_to::<D, V, S, G>(nodes, pos, spath[n], spath[n + 1]));
        assert(false);
    } else {
        lemma_paths_agree::<D, V, S, G>(nodes, pos, path, spath, n);
        assert(spath.last() == path.last());
        if r is None {
            let x = slot(leaf, path.last(), k);
            assert(reported_same::<T, V, S, G>(items[x as int], pos, false));
            let q = choose|q: V|
                #![trigger call_ensures(T::get_pos, (&items[x as int],), q)]
                call_ensures(T::get_pos, (&items[x as int],), q) && call_ensures(G::same, (&q, &pos), false);
            assert(q == pos);
            assert(false);
        }
    }
}

/// `item`, at a position `get_pos` reported for it, steps from node `a` to
/// node `b`.
pub open spec fn stepped<T: QTreeItem<V>, D, V, S, G: Geometry<V, S>>(nodes: Seq<Node<D, V>>, item: T, a: int, b: int) -> bool {
    exists|p: V|
        #![trigger call_ensures(T::get_pos, (&item,), p)]
        call_ensures(T::get_pos, (&item,), p) && steps_to::<D, V, S, G>(nodes, p, a, b)
}

/// A step stays one while the tree grows.
pub proof fn lemma_steps_to_grows<D, V, S, G: Geometry<V, S>>(
    a: Seq<Node<D, V>>,
    b: Seq<Node<D, V>>,
    pos: V,
    x: int,
    y: int,
)
    requires
        grows(a, b),
        0 <= x < a.len(),
        steps_to::<D, V, S, G>(a, pos, x, y),
    ensures
        steps_to::<D, V, S, G>(b, pos, x, y),
{
    let (gx, gy) = choose|gx: bool, gy: bool|
        #![trigger call_ensures(G::greater_x, (&pos, &a[x].pos), gx), call_ensures(G::greater_y, (&pos, &a[x].pos), gy)]
        call_ensures(G::greater_x, (&pos, &a[x].pos), gx) && call_ensures(G::greater_y, (&pos, &a[x].pos), gy)
            && a[x].children[quadrant_of(!gx, !gy)]@ == y;
    assert(b[x].pos == a[x].pos);
    assert(b[x].children[quadrant_of(!gx, !gy)] == a[x].children[quadrant_of(!gx, !gy)]);
}

/// A stepped item stays so while the tree grows.
pub proof fn lemma_stepped_grows<T: QTreeItem<V>, D, V, S, G: Geometry<V, S>>(
    a: Seq<Node<D, V>>,
    b: Seq<Node<D, V>>,
    item: T,
    x: int,
    y: int,
)
    requires
        grows(a, b),
        0 <= x < a.len(),
        stepped::<T, D, V, S, G>(a, item, x, y),
    ensures
        stepped::<T, D, V, S, G>(b, item, x, y),
{
    let p = choose|p: V|
        #![trigger call_ensures(T::get_pos, (&item,), p)]
        call_ensures(T::get_pos, (&item,), p) && steps_to::<D, V, S, G>(a, p, x, y);
    lemma_steps_to_grows::<D, V, S, G>(a, b, p, x, y);
}

/// A multiset within another of the same size is that multiset.
pub proof fn lemma_subset_same_len<A>(m1: Multiset<A>, m2: Multiset<A>)
    requires
        m1.subset_of(m2),
        m1.len() == m2.len(),
    ensures
        m1 =~= m2,
{
    broadcast use vstd::multiset::group_multiset_axioms;

    let d = m2.sub(m1);
    assert(m1.add(d) =~= m2);
    assert(d.len() == 0);
    vstd::multiset::lemma_multiset_empty_len(d);
    assert(m1.add(d) =~= m1);
}

/// Child `c` of node `j` is a leaf whose bucket lies within `from` and whose
/// items all step from `j` to `c`.
pub open spec fn child_ok<T: QTreeItem<V>, D, V, S, G: Geometry<V, S>>(
    nodes: Seq<Node<D, V>>,
    leaf: Seq<Idx<T>>,
    items: Seq<T>,
    j: int,
    c: int,
    from: Multiset<usize>,
) -> bool {
    &&& nodes[c].is_leaf
    &&& bucket(nodes, leaf, c).to_multiset().subset_of(from)
    &&& forall|x: int|
        0 <= x < nodes[c].nitems ==> #[trigger] stepped::<T, D, V, S, G>(nodes, items[slot(leaf, c, x) as int], j, c)
}

/// The stored items `group` and `item` step together down `gpath`: at each
/// of its first `upto` nodes, each of them was reported in the quadrant of
/// the next node.
pub open spec fn step_together<T: QTreeItem<V>, D, V, S, G: Geometry<V, S>>(
    nodes: Seq<Node<D, V>>,
    items: Seq<T>,
    group: Seq<usize>,
    item: T,
    gpath: Seq<int>,
    upto: int,
) -> bool {
    &&& forall|t: int|
        0 <= t < upto ==> #[trigger] stepped::<T, D, V, S, G>(nodes, item, gpath[t], gpath[t + 1])
    &&& forall|t: int, k: int|
        0 <= t < upto && 0 <= k < group.len() ==> #[trigger] stepped::<T, D, V, S, G>(
            nodes,
            items[group[k] as int],
            gpath[t],
            gpath[t + 1],
        )
}

proof fn lemma_step_together_grows<T: QTreeItem<V>, D, V, S, G: Geometry<V, S>>(
    a: Seq<Node<D, V>>,
    b: Seq<Node<D, V>>,
    items: Seq<T>,
    group: Seq<usize>,
    item: T,
    gpath: Seq<int>,
    upto: int,
)
    requires
        grows(a, b),
        upto < gpath.len(),
        forall|t: int| 0 <= t < gpath.len() ==> 0 <= #[trigger] gpath[t] < a.len(),
        step_together::<T, D, V, S, G>(a, items, group, item, gpath, upto),
    ensures
        step_together::<T, D, V, S, G>(b, items, group, item, gpath, upto),
{
    assert forall|t: int| 0 <= t < upto implies #[trigger] stepped::<T, D, V, S, G>(b, item, gpath[t], gpath[t + 1]) by {
        assert(stepped::<T, D, V, S, G>(a, item, gpath[t], gpath[t + 1]));
        assert(0 <= gpath[t] < a.len());
        lemma_stepped_grows::<T, D, V, S, G>(a, b, item, gpath[t], gpath[t + 1]);
    }
    assert forall|t: int, k: int| 0 <= t < upto && 0 <= k < group.len() implies #[trigger] stepped::<T, D, V, S, G>(
        b,
        items[group[k] as int],
        gpath[t],
        gpath[t + 1],
    ) by {
        assert(stepped::<T, D, V, S, G>(a, items[group[k] as int], gpath[t], gpath[t + 1]));
        assert(0 <= gpath[t] < a.len());
        lemma_stepped_grows::<T, D, V, S, G>(a, b, items[group[k] as int], gpath[t], gpath[t + 1]);
    }
}

/// When the descent from a node just split goes on to a child holding as many
/// items as the split bucket, the whole group of split items went there too,
/// together with the item being inserted.
proof fn lemma_group_descends<T: QTreeItem<V>, D, V, S, G: Geometry<V, S>>(
    na: Seq<Node<D, V>>,
    la: Seq<Idx<T>>,
    nb: Seq<Node<D, V>>,
    lb: Seq<Idx<T>>,
    items: Seq<T>,
    group: Seq<usize>,
    item: T,
    item_pos: V,
    gpath: Seq<int>,
    c: int,
)
    requires
        grows(na, nb),
        gpath.len() >= 1,
        forall|t: int| 0 <= t < gpath.len() ==> 0 <= #[trigger] gpath[t] < na.len(),
        !na[gpath.last()].is_leaf,
        step_together::<T, D, V, S, G>(na, items, group, item, gpath, gpath.len() - 1),
        forall|q: int|
            0 <= q < 4 && #[trigger] na[gpath.last()].children[q]@ != 0 ==> child_ok::<T, D, V, S, G>(
                na,
                la,
                items,
                gpath.last(),
                na[gpath.last()].children[q]@ as int,
                group.to_multiset(),
            ),
        group.len() == BUCKET_SIZE,
        steps_to::<D, V, S, G>(nb, item_pos, gpath.last(), c),
        call_ensures(T::get_pos, (&item,), item_pos),
        0 <= c < nb.len(),
        nb[c].is_leaf,
        (exists|q: int| 0 <= q < 4 && na[gpath.last()].children[q]@ == c && nb == na && lb == la) || nb[c].nitems == 0,
    ensures
        step_together::<T, D, V, S, G>(nb, items, group, item, gpath.push(c), gpath.len() - 1),
        nb[c].nitems == BUCKET_SIZE ==> step_together::<T, D, V, S, G>(nb, items, group, item, gpath.push(c), gpath.len() as int) && bucket(
            nb,
            lb,
            c,
        ).to_multiset() =~= group.to_multiset(),
{
    let n = gpath.last();
    let g2 = gpath.push(c);
    lemma_step_together_grows::<T, D, V, S, G>(na, nb, items, group, item, gpath, gpath.len() - 1);
    assert forall|t: int| 0 <= t < gpath.len() - 1 implies #[trigger] stepped::<T, D, V, S, G>(nb, item, g2[t], g2[t + 1]) by {
        assert(g2[t] == gpath[t] && g2[t + 1] == gpath[t + 1]);
        assert(stepped::<T, D, V, S, G>(nb, item, gpath[t], gpath[t + 1]));
    }
    assert forall|t: int, k: int| 0 <= t < gpath.len() - 1 && 0 <= k < group.len() implies #[trigger] stepped::<T, D, V, S, G>(
        nb,
        items[group[k] as int],
        g2[t],
        g2[t + 1],
    ) by {
        assert(g2[t] == gpath[t] && g2[t + 1] == gpath[t + 1]);
        assert(stepped::<T, D, V, S, G>(nb, items[group[k] as int], gpath[t], gpath[t + 1]));
    }
    if nb[c].nitems == BUCKET_SIZE {
        broadcast use group_to_multiset_ensures;

        let q = choose|q: int| 0 <= q < 4 && na[n].children[q]@ == c && nb == na && lb == la;
        assert(child_ok::<T, D, V, S, G>(na, la, items, n, c, group.to_multiset()));
        let bc = bucket(nb, lb, c);
        assert(bc.to_multiset().len() == BUCKET_SIZE);
        assert(group.to_multiset().len() == BUCKET_SIZE);
        lemma_subset_same_len(bc.to_multiset(), group.to_multiset());
        assert(g2[gpath.len() - 1] == n && g2[gpath.len() as int] == c);
        assert(stepped::<T, D, V, S, G>(nb, item, n, c));
        assert forall|t: int| 0 <= t < gpath.len() implies #[trigger] stepped::<T, D, V, S, G>(nb, item, g2[t], g2[t + 1]) by {
            if t < gpath.len() - 1 {
                assert(g2[t] == gpath[t] && g2[t + 1] == gpath[t + 1]);
                assert(stepped::<T, D, V, S, G>(nb, item, gpath[t], gpath[t + 1]));
            }
        }
        assert forall|t: int, k: int| 0 <= t < gpath.len() && 0 <= k < group.len() implies #[trigger] stepped::<T, D, V, S, G>(
            nb,
            items[group[k] as int],
            g2[t],
            g2[t + 1],
        ) by {
            if t < gpath.len() - 1 {
                assert(g2[t] == gpath[t] && g2[t + 1] == gpath[t + 1]);
                assert(stepped::<T, D, V, S, G>(nb, items[group[k] as int], gpath[t], gpath[t + 1]));
            } else {
                assert(group.to_multiset().count(group[k]) > 0);
                assert(bc.to_multiset().count(group[k]) > 0);
                assert(bc.contains(group[k]));
                let x = choose|x: int| 0 <= x < bc.len() && bc[x] == group[k];
                assert(slot(lb, c, x) == group[k]);
                assert(stepped::<T, D, V, S, G>(na, items[slot(la, c, x) as int], n, c));
            }
        }
    }
}

/// What a descent that gave up after `INSERT_LIMIT` steps leaves: a chain
/// of nodes that were already in the tree, or a group of stored items that
/// stepped together with the item down a long chain.
proof fn lemma_too_deep<T: QTreeItem<V>, D, V, S, G: Geometry<V, S>>(
    nodes: Seq<Node<D, V>>,
    path: Seq<int>,
    n0: int,
    start: int,
    split_seen: bool,
    a: int,
    count: int,
    gpath: Seq<int>,
    group: Seq<usize>,
    items: Seq<T>,
    index: int,
    c0: Multiset<usize>,
)
    requires
        is_descent(nodes, path),
        path[0] == start,
        count == INSERT_LIMIT,
        !split_seen ==> count == path.len() - 1,
        !split_seen ==> forall|t: int| 0 <= t < path.len() - 1 ==> #[trigger] path[t] < n0,
        split_seen ==> 0 <= a < path.len() && forall|t: int| 0 <= t <= a ==> #[trigger] path[t] < n0,
        split_seen ==> count <= a + 2 * (gpath.len() - 1) + 1,
        split_seen ==> gpath.len() >= 1,
        split_seen ==> group.len() == BUCKET_SIZE && forall|k: int| 0 <= k < group.len() ==> #[trigger] c0.count(group[k]) > 0,
        split_seen ==> step_together::<T, D, V, S, G>(nodes, items, group, items[index], gpath, gpath.len() - 2),
    ensures
        (exists|p: Seq<int>|
            #![trigger is_descent(nodes, p)]
            is_descent(nodes, p) && p.len() > INSERT_LIMIT / 4 && p[0] == start && forall|t: int|
                0 <= t < p.len() ==> #[trigger] p[t] < n0) || (exists|g: Seq<usize>, gp: Seq<int>|
            #![trigger step_together::<T, D, V, S, G>(nodes, items, g, items[index], gp, gp.len() - 1)]
            g.len() == BUCKET_SIZE && (forall|k: int| 0 <= k < g.len() ==> #[trigger] c0.count(g[k]) > 0) && gp.len()
                > INSERT_LIMIT / 4 && step_together::<T, D, V, S, G>(nodes, items, g, items[index], gp, gp.len() - 1)),
{
    if !split_seen {
        let sub = path.take(path.len() - 1);
        lemma_descent_prefix(nodes, path, path.len() - 1);
        assert forall|t: int| 0 <= t < sub.len() implies #[trigger] sub[t] < n0 by {
            assert(sub[t] == path[t]);
        }
        assert(sub[0] == start);
        assert(is_descent(nodes, sub));
    } else if a >= INSERT_LIMIT / 4 {
        let sub = path.take(a + 1);
        lemma_descent_prefix(nodes, path, a + 1);
        assert forall|t: int| 0 <= t < sub.len() implies #[trigger] sub[t] < n0 by {
            assert(sub[t] == path[t]);
        }
        assert(sub[0] == start);
        assert(is_descent(nodes, sub));
    } else {
        let gp = gpath.drop_last();
        assert(gp.len() > INSERT_LIMIT / 4);
        assert forall|t: int| 0 <= t < gp.len() - 1 implies #[trigger] stepped::<T, D, V, S, G>(
            nodes,
            items[index],
            gp[t],
            gp[t + 1],
        ) by {
            assert(gp[t] == gpath[t] && gp[t + 1] == gpath[t + 1]);
            assert(stepped::<T, D, V, S, G>(nodes, items[index], gpath[t], gpath[t + 1]));
        }
        assert forall|t: int, k: int| 0 <= t < gp.len() - 1 && 0 <= k < group.len() implies #[trigger] stepped::<T, D, V, S, G>(
            nodes,
            items[group[k] as int],
            gp[t],
            gp[t + 1],
        ) by {
            assert(gp[t] == gpath[t] && gp[t + 1] == gpath[t + 1]);
            assert(stepped::<T, D, V, S, G>(nodes, items[group[k] as int], gpath[t], gpath[t + 1]));
        }
        assert(step_together::<T, D, V, S, G>(nodes, items, group, items[index], gp, gp.len() - 1));
    }
}

/// A prefix of a descent is a descent.
proof fn lemma_descent_prefix<D, V>(nodes: Seq<Node<D, V>>, path: Seq<int>, n: int)
    requires
        is_descent(nodes, path),
        1 <= n <= path.len(),
    ensures
        is_descent(nodes, path.take(n)),
{
    let p = path.take(n);
    assert forall|t: int| 0 <= t < p.len() implies 0 <= #[trigger] p[t] < nodes.len() by {
        assert(p[t] == path[t]);
    }
    assert forall|t: int| #![trigger p[t]] 0 <= t < p.len() - 1 implies !nodes[p[t]].is_leaf && exists|q: int|
        0 <= q < 4 && #[trigger] nodes[p[t]].children[q]@ == p[t + 1] && p[t + 1] != 0 by {
        assert(p[t] == path[t]);
        assert(p[t + 1] == path[t + 1]);
        assert(path[t] == p[t]);
    }
}

/// `sizes` gives every node a half-size such that each child `c` of a node
/// `a`, in quadrant `q`, has as half-size what `G::half` gave for the
/// half-size of `a`, and as centre what `G::child_center` gave for the
/// centre and half-size of `a` and quadrant `q`.
pub open spec fn sized<D, V, S, G: Geometry<V, S>>(nodes: Seq<Node<D, V>>, sizes: Seq<S>) -> bool {
    &&& sizes.len() == nodes.len()
    &&& forall|a: int, q: int|
        0 <= a < nodes.len() && 0 <= q < 4 && #[trigger] nodes[a].children[q]@ != 0 ==> {
            &&& call_ensures(G::half, (&sizes[a],), sizes[nodes[a].children[q]@ as int])
            &&& call_ensures(
                G::child_center,
                (&nodes[a].pos, &sizes[a], q as usize),
                nodes[nodes[a].children[q]@ as int].pos,
            )
        }
}

/// The nodes are laid out from a root square of half-size `rad`: every node
/// below the root is centred in its quadrant of its parent, and its
/// half-size is the root's halved once per level.
pub open spec fn centred<D, V, S, G: Geometry<V, S>>(nodes: Seq<Node<D, V>>, rad: S) -> bool {
    exists|sizes: Seq<S>| #![trigger sized::<D, V, S, G>(nodes, sizes)] sized::<D, V, S, G>(nodes, sizes) && sizes[0] == rad
}

/// `G::half` gives one result for each half-size.
pub open spec fn halving_fixed<V, S, G: Geometry<V, S>>() -> bool {
    forall|r: S, a: S, b: S|
        #![trigger call_ensures(G::half, (&r,), a), call_ensures(G::half, (&r,), b)]
        call_ensures(G::half, (&r,), a) && call_ensures(G::half, (&r,), b) ==> a == b
}

/// `sizes` followed by `h` for every node from its length up to `n`.
pub open spec fn extend_sizes<S>(sizes: Seq<S>, n: int, h: S) -> Seq<S> {
    Seq::new(n as nat, |x: int| if x < sizes.len() { sizes[x] } else { h })
}

/// A tree of one node is laid out from its root square.
pub proof fn lemma_centred_root<D, V, S, G: Geometry<V, S>>(nodes: Seq<Node<D, V>>, rad: S)
    requires
        nodes.len() == 1,
        forall|q: int| 0 <= q < 4 ==> #[trigger] nodes[0].children[q]@ == 0,
    ensures
        centred::<D, V, S, G>(nodes, rad),
{
    let sizes = seq![rad];
    assert(sized::<D, V, S, G>(nodes, sizes));
}

/// The layout stays when only leaf flags and buckets change.
proof fn lemma_sized_links<D, V, S, G: Geometry<V, S>>(a: Seq<Node<D, V>>, b: Seq<Node<D, V>>, sizes: Seq<S>)
    requires
        sized::<D, V, S, G>(a, sizes),
        a.len() == b.len(),
        forall|x: int| 0 <= x < a.len() ==> #[trigger] b[x].pos == a[x].pos,
        forall|x: int, q: int| 0 <= x < a.len() && 0 <= q < 4 ==> #[trigger] b[x].children[q] == a[x].children[q],
        forall|x: int, q: int| 0 <= x < a.len() && 0 <= q < 4 ==> #[trigger] a[x].children[q]@ < a.len(),
    ensures
        sized::<D, V, S, G>(b, sizes),
{
    assert forall|x: int, q: int| 0 <= x < b.len() && 0 <= q < 4 && #[trigger] b[x].children[q]@ != 0 implies {
        &&& call_ensures(G::half, (&sizes[x],), sizes[b[x].children[q]@ as int])
        &&& call_ensures(G::child_center, (&b[x].pos, &sizes[x], q as usize), b[b[x].children[q]@ as int].pos)
    } by {
        assert(b[x].children[q] == a[x].children[q]);
        assert(a[x].children[q]@ != 0);
        assert(a[x].children[q]@ < a.len());
        let c = a[x].children[q]@ as int;
        assert(b[x].pos == a[x].pos);
        assert(b[c].pos == a[c].pos);
    }
}

/// One step of a split keeps the layout: the child found or made by the
/// descent, then the item put into it.
proof fn lemma_sized_split_step<T, D, V, S, G: Geometry<V, S>>(
    n0: Seq<Node<D, V>>,
    na: Seq<Node<D, V>>,
    nb: Seq<Node<D, V>>,
    lb: Seq<Idx<T>>,
    nc: Seq<Node<D, V>>,
    j: int,
    rad: S,
)
    requires
        0 <= j < n0.len(),
        n0.len() <= na.len(),
        tree_wf(nb, lb),
        nc.len() == nb.len(),
        forall|x: int| 0 <= x < nb.len() ==> #[trigger] nc[x].pos == nb[x].pos,
        forall|x: int, q: int| 0 <= x < nb.len() && 0 <= q < 4 ==> #[trigger] nc[x].children[q] == nb[x].children[q],
        forall|sizes: Seq<S>, h: S|
            sized::<D, V, S, G>(n0, sizes) && sizes[j] == rad && call_ensures(G::half, (&rad,), h)
                ==> #[trigger] sized::<D, V, S, G>(na, extend_sizes(sizes, na.len() as int, h)),
        forall|sizes: Seq<S>, h: S|
            sized::<D, V, S, G>(na, sizes) && sizes[j] == rad && call_ensures(G::half, (&rad,), h)
                ==> #[trigger] sized::<D, V, S, G>(nb, extend_sizes(sizes, nb.len() as int, h)),
    ensures
        forall|sizes: Seq<S>, h: S|
            sized::<D, V, S, G>(n0, sizes) && sizes[j] == rad && call_ensures(G::half, (&rad,), h)
                ==> #[trigger] sized::<D, V, S, G>(nc, extend_sizes(sizes, nc.len() as int, h)),
{
    assert forall|sizes: Seq<S>, h: S|
        sized::<D, V, S, G>(n0, sizes) && sizes[j] == rad && call_ensures(G::half, (&rad,), h)
            implies #[trigger] sized::<D, V, S, G>(nc, extend_sizes(sizes, nc.len() as int, h)) by {
        let sa = extend_sizes(sizes, na.len() as int, h);
        assert(sizes.len() == n0.len());
        assert(sized::<D, V, S, G>(na, sa));
        assert(sa[j] == sizes[j]);
        assert(sized::<D, V, S, G>(nb, extend_sizes(sa, nb.len() as int, h)));
        assert(extend_sizes(sa, nb.len() as int, h) =~= extend_sizes(sizes, nb.len() as int, h));
        assert forall|x: int, q: int| 0 <= x < nb.len() && 0 <= q < 4 implies #[trigger] nb[x].children[q]@ < nb.len() by {
            assert(nb[x].children[q]@ == 0 || (x < nb[x].children[q]@ < nb.len()));
        }
        lemma_sized_links::<D, V, S, G>(nb, nc, extend_sizes(sizes, nb.len() as int, h));
        assert(extend_sizes(sizes, nb.len() as int, h) =~= extend_sizes(sizes, nc.len() as int, h));
    }
}

/// Putting an item with a valid index into a leaf keeps every held index
/// valid.
proof fn lemma_leaf_insert_below<T, D, V>(
    nb: Seq<Node<D, V>>,
    lb: Seq<Idx<T>>,
    nc: Seq<Node<D, V>>,
    lc: Seq<Idx<T>>,
    j: int,
    len: int,
    item: Idx<T>,
    n: nat,
)
    requires
        tree_wf(nb, lb),
        0 <= j < nb.len(),
        nb[j].is_leaf,
        len == nb[j].nitems,
        len < BUCKET_SIZE,
        nc == nb.update(j, Node { nitems: (len + 1) as usize, ..nb[j] }),
        lc == lb.update(BUCKET_SIZE * j + len, item),
        item@ < n,
        leaves_below(nb, lb, n),
    ensures
        leaves_below(nc, lc, n),
{
    assert forall|x: int, k: int| 0 <= x < nc.len() && nc[x].is_leaf && 0 <= k < nc[x].nitems implies #[trigger] slot(
        lc,
        x,
        k,
    ) < n by {
        assert(nb[x].items == BUCKET_SIZE * x);
        if x == j && k == len {
            assert(slot(lc, x, k) == item@);
        } else {
            assert(nb[x].is_leaf && k < nb[x].nitems);
            assert(slot(lb, x, k) < n);
            assert(BUCKET_SIZE * x + k != BUCKET_SIZE * j + len) by (nonlinear_arith)
                requires
                    0 <= k < BUCKET_SIZE,
                    0 <= len < BUCKET_SIZE,
                    x != j || k != len,
                    0 <= x,
                    0 <= j,
            ;
        }
    }
}

/// Putting an item into the leaf its insertion path ends at keeps every
/// item where its insertion leads.
proof fn lemma_leaf_insert_placed<T: QTreeItem<V>, D, V, S, G: Geometry<V, S>>(
    nb: Seq<Node<D, V>>,
    lb: Seq<Idx<T>>,
    nc: Seq<Node<D, V>>,
    lc: Seq<Idx<T>>,
    items: Seq<T>,
    j: int,
    len: int,
    item: Idx<T>,
    item_pos: V,
    path: Seq<int>,
)
    requires
        tree_wf(nb, lb),
        0 <= j < nb.len(),
        nb[j].is_leaf,
        len == nb[j].nitems,
        len < BUCKET_SIZE,
        nc == nb.update(j, Node { nitems: (len + 1) as usize, ..nb[j] }),
        lc == lb.update(BUCKET_SIZE * j + len, item),
        grows(nb, nc),
        positions_fixed(items),
        item@ < items.len(),
        call_ensures(T::get_pos, (&items[item@ as int],), item_pos),
        insert_path::<D, V, S, G>(nc, item_pos, path),
        path.last() == j,
        placed::<T, D, V, S, G>(nb, lb, items),
    ensures
        placed::<T, D, V, S, G>(nc, lc, items),
{
    lemma_reaches_from_path::<T, D, V, S, G>(nc, items, item@ as int, item_pos, path);
    assert forall|x: int, k: int| 0 <= x < nc.len() && nc[x].is_leaf && 0 <= k < nc[x].nitems implies #[trigger] reaches::<
        T,
        D,
        V,
        S,
        G,
    >(nc, items[slot(lc, x, k) as int], x) by {
        if x == j && k == len {
            assert(slot(lc, x, k) == item@);
        } else {
            assert(nb[x].items == BUCKET_SIZE * x);
            assert(nb[x].is_leaf && k < nb[x].nitems);
            assert(BUCKET_SIZE * x + k != BUCKET_SIZE * j + len) by (nonlinear_arith)
                requires
                    0 <= k < BUCKET_SIZE,
                    0 <= len < BUCKET_SIZE,
                    x != j || k != len,
                    0 <= x,
                    0 <= j,
            ;
            assert(slot(lc, x, k) == slot(lb, x, k));
            assert(reaches::<T, D, V, S, G>(nb, items[slot(lb, x, k) as int], x));
            lemma_reaches_grows::<T, D, V, S, G>(nb, nc, items[slot(lb, x, k) as int], x);
        }
    }
}

/// Putting an item into a leaf keeps the layout.
proof fn lemma_sized_insert<T, D, V, S, G: Geometry<V, S>>(
    nb: Seq<Node<D, V>>,
    lb: Seq<Idx<T>>,
    nc: Seq<Node<D, V>>,
    sz: Seq<S>,
)
    requires
        tree_wf(nb, lb),
        sized::<D, V, S, G>(nb, sz),
        nc.len() == nb.len(),
        forall|x: int| 0 <= x < nb.len() ==> #[trigger] nc[x].pos == nb[x].pos,
        forall|x: int, q: int| 0 <= x < nb.len() && 0 <= q < 4 ==> #[trigger] nc[x].children[q] == nb[x].children[q],
    ensures
        sized::<D, V, S, G>(nc, sz),
{
    assert forall|x: int, q: int| 0 <= x < nb.len() && 0 <= q < 4 implies #[trigger] nb[x].children[q]@ < nb.len() by {
        assert(nb[x].children[q]@ == 0 || (x < nb[x].children[q]@ < nb.len()));
    }
    lemma_sized_links::<D, V, S, G>(nb, nc, sz);
}

/// A descent keeps the layout, and the node it reaches has as half-size the
/// half of the one it left.
proof fn lemma_sized_descend<D, V, S, G: Geometry<V, S>>(
    na: Seq<Node<D, V>>,
    nb: Seq<Node<D, V>>,
    sz: Seq<S>,
    from: int,
    c: int,
    r0: S,
    r1: S,
)
    requires
        sized::<D, V, S, G>(na, sz),
        0 <= from < na.len(),
        sz[from] == r0,
        halving_fixed::<V, S, G>(),
        call_ensures(G::half, (&r0,), r1),
        forall|sizes: Seq<S>, h: S|
            sized::<D, V, S, G>(na, sizes) && sizes[from] == r0 && call_ensures(G::half, (&r0,), h)
                ==> #[trigger] sized::<D, V, S, G>(nb, extend_sizes(sizes, nb.len() as int, h)),
        exists|q: int| 0 <= q < 4 && #[trigger] nb[from].children[q]@ == c,
        0 < c < nb.len(),
        from < nb.len(),
    ensures
        sized::<D, V, S, G>(nb, extend_sizes(sz, nb.len() as int, r1)),
        extend_sizes(sz, nb.len() as int, r1)[c] == r1,
{
    let es = extend_sizes(sz, nb.len() as int, r1);
    assert(sized::<D, V, S, G>(nb, es));
    let q = choose|q: int| 0 <= q < 4 && #[trigger] nb[from].children[q]@ == c;
    assert(nb[from].children[q]@ != 0);
    assert(call_ensures(G::half, (&es[from],), es[c]));
    assert(es[from] == sz[from]);
}

/// Node `k` is a child of some node.
pub open spec fn has_parent<D, V>(nodes: Seq<Node<D, V>>, k: int) -> bool {
    exists|a: int, q: int| 0 <= a < nodes.len() && 0 <= q < 4 && #[trigger] nodes[a].children[q]@ == k
}

/// Every node but the root is a child of some node.
pub open spec fn connected<D, V>(nodes: Seq<Node<D, V>>) -> bool {
    forall|k: int| 0 < k < nodes.len() ==> #[trigger] has_parent(nodes, k)
}

/// A connected tree that grows by children stays connected.
proof fn lemma_connected_grows<D, V>(a: Seq<Node<D, V>>, b: Seq<Node<D, V>>)
    requires
        connected(a),
        grows(a, b),
        forall|k: int| a.len() <= k < b.len() ==> #[trigger] has_parent(b, k),
    ensures
        connected(b),
{
    assert forall|k: int| 0 < k < b.len() implies #[trigger] has_parent(b, k) by {
        if k < a.len() {
            assert(has_parent(a, k));
            let (x, q) = choose|x: int, q: int| 0 <= x < a.len() && 0 <= q < 4 && #[trigger] a[x].children[q]@ == k;
            assert(b[x].children[q] == a[x].children[q]);
        }
    }
}

/// A tree that grows from a deep one is deep.
pub proof fn lemma_deep_grows<D, V>(a: Seq<Node<D, V>>, b: Seq<Node<D, V>>)
    requires
        grows(a, b),
        deep(a),
    ensures
        deep(b),
{
    let path = choose|path: Seq<int>| #![trigger is_descent(a, path)] is_descent(a, path) && path.len() > INSERT_LIMIT / 2 && path[0] == 0;
    lemma_chain_grows(a, b, path);
}

/// Nodes that differ only in their summary data grow from each other.
pub proof fn lemma_same_shape_grows<D, V>(a: Seq<Node<D, V>>, b: Seq<Node<D, V>>)
    requires
        same_shape(a, b),
    ensures
        grows(a, b),
{
    assert forall|x: int| 0 <= x < a.len() implies #[trigger] b[x].pos == a[x].pos by {
        assert(b[x] == (Node { data: b[x].data, ..a[x] }));
    }
    assert forall|x: int| 0 <= x < a.len() && !a[x].is_leaf implies !#[trigger] b[x].is_leaf by {
        assert(b[x] == (Node { data: b[x].data, ..a[x] }));
    }
    assert forall|x: int, q: int|
        0 <= x < a.len() && 0 <= q < 4 && a[x].children[q]@ != 0 implies #[trigger] b[x].children[q]
        == a[x].children[q] by {
        assert(b[x] == (Node { data: b[x].data, ..a[x] }));
    }
}

pub proof fn lemma_grows_trans<D, V>(a: Seq<Node<D, V>>, b: Seq<Node<D, V>>, c: Seq<Node<D, V>>)
    requires
        grows(a, b),
        grows(b, c),
    ensures
        grows(a, c),
{
    assert forall|x: int| 0 <= x < a.len() implies #[trigger] c[x].pos == a[x].pos by {
        assert(b[x].pos == a[x].pos);
    }
    assert forall|x: int| 0 <= x < a.len() && !a[x].is_leaf implies !#[trigger] c[x].is_leaf by {
        assert(!b[x].is_leaf);
    }
    assert forall|x: int, q: int|
        0 <= x < a.len() && 0 <= q < 4 && a[x].children[q]@ != 0 implies #[trigger] c[x].children[q]
        == a[x].children[q] by {
        assert(b[x].children[q] == a[x].children[q]);
    }
}

pub proof fn lemma_chain_grows<D, V>(a: Seq<Node<D, V>>, b: Seq<Node<D, V>>, path: Seq<int>)
    requires
        grows(a, b),
        is_descent(a, path),
    ensures
        is_descent(b, path),
{
    assert forall|t: int| #![trigger path[t]] 0 <= t < path.len() - 1 implies !b[path[t]].is_leaf && exists|q: int|
        0 <= q < 4 && #[trigger] b[path[t]].children[q]@ == path[t + 1] && path[t + 1] != 0 by {
        assert(0 <= path[t] < a.len());
        let q = choose|q: int| 0 <= q < 4 && #[trigger] a[path[t]].children[q]@ == path[t + 1] && path[t + 1] != 0;
        assert(b[path[t]].children[q] == a[path[t]].children[q]);
    }
}

/// The quadrant below a point: bit 1 clear for smaller `x`, bit 0 clear for
/// smaller `y`.
pub open spec fn quadrant_of(smaller_x: bool, smaller_y: bool) -> int {
    if smaller_x {
        if smaller_y {
            0
        } else {
            1
        }
    } else {
        if smaller_y {
            2
        } else {
            3
        }
    }
}

/// At internal node `a`, the comparisons of `pos` with its centre, as `G`
/// reported them, point to quadrant `q`.
pub open spec fn points_to<D, V, S, G: Geometry<V, S>>(nodes: Seq<Node<D, V>>, pos: V, a: int, q: int) -> bool {
    &&& !nodes[a].is_leaf
    &&& exists|lx: bool, ly: bool|
        #![trigger call_ensures(G::less_x, (&pos, &nodes[a].pos), lx), call_ensures(G::less_y, (&pos, &nodes[a].pos), ly)]
        call_ensures(G::less_x, (&pos, &nodes[a].pos), lx) && call_ensures(G::less_y, (&pos, &nodes[a].pos), ly)
            && q == quadrant_of(lx, ly)
}

/// The search for `pos` goes from node `a` down to its child `b`.
pub open spec fn descends_to<D, V, S, G: Geometry<V, S>>(nodes: Seq<Node<D, V>>, pos: V, a: int, b: int) -> bool {
    exists|q: int|
        0 <= q < 4 && #[trigger] points_to::<D, V, S, G>(nodes, pos, a, q) && nodes[a].children[q]@ == b && b != 0
}

/// `path` is the way of the search for `pos` from the root.
pub open spec fn search_path<D, V, S, G: Geometry<V, S>>(nodes: Seq<Node<D, V>>, pos: V, path: Seq<int>) -> bool {
    &&& path.len() > 0
    &&& path[0] == 0
    &&& forall|t: int| #![trigger path[t]] 0 <= t < path.len() - 1 ==> descends_to::<D, V, S, G>(nodes, pos, path[t], path[t + 1])
}

/// What the scan of the bucket of leaf `j` gives: the last item reported at
/// `pos`, or none when every item was reported elsewhere.
pub open spec fn scan_result<T: QTreeItem<V>, D, V, S, G: Geometry<V, S>>(
    nodes: Seq<Node<D, V>>,
    leaf: Seq<Idx<T>>,
    items: Seq<T>,
    pos: V,
    j: int,
    r: Option<usize>,
) -> bool {
    match r {
        None => forall|k: int|
            0 <= k < nodes[j].nitems ==> #[trigger] reported_same::<T, V, S, G>(items[slot(leaf, j, k) as int], pos, false),
        Some(x) => exists|k: int|
            #![trigger slot(leaf, j, k)]
            0 <= k < nodes[j].nitems && slot(leaf, j, k) == x && reported_same::<T, V, S, G>(items[x as int], pos, true)
                && forall|k2: int|
                k < k2 < nodes[j].nitems ==> #[trigger] reported_same::<T, V, S, G>(
                    items[slot(leaf, j, k2) as int],
                    pos,
                    false,
                ),
    }
}

/// The search for `pos` ends at node `end`: at a leaf it gives what the scan
/// of its bucket gives; at an internal node whose quadrant for `pos` has no
/// child it gives nothing.
pub open spec fn search_end<T: QTreeItem<V>, D, V, S, G: Geometry<V, S>>(
    nodes: Seq<Node<D, V>>,
    leaf: Seq<Idx<T>>,
    items: Seq<T>,
    pos: V,
    end: int,
    r: Option<usize>,
) -> bool {
    if nodes[end].is_leaf {
        scan_result::<T, D, V, S, G>(nodes, leaf, items, pos, end, r)
    } else {
        &&& r is None
        &&& exists|q: int| 0 <= q < 4 && #[trigger] points_to::<D, V, S, G>(nodes, pos, end, q) && nodes[end].children[q]@ == 0
    }
}

/// The result of the search for `pos`: the search path from the root ends
/// at a node whose outcome is `r`.
pub open spec fn search_result<T: QTreeItem<V>, D, V, S, G: Geometry<V, S>>(
    nodes: Seq<Node<D, V>>,
    leaf: Seq<Idx<T>>,
    items: Seq<T>,
    pos: V,
    r: Option<usize>,
) -> bool {
    exists|path: Seq<int>|
        #![trigger search_path::<D, V, S, G>(nodes, pos, path)]
        search_path::<D, V, S, G>(nodes, pos, path) && search_end::<T, D, V, S, G>(nodes, leaf, items, pos, path.last(), r)
}

/// An optional index, as a plain number.
pub open spec fn index_of<T>(r: Option<Idx<T>>) -> Option<usize> {
    match r {
        Some(x) => Some(x@),
        None => None,
    }
}

/// The nodes as a bottom-up pass sees them when it reaches node `i`: the nodes
/// after `i` already carry their new data (`after`), node `i` and those
/// before it still carry their data of before the pass (`before`).
pub open spec fn nodes_at_step<D, V>(before: Seq<Node<D, V>>, after: Seq<Node<D, V>>, i: int) -> Seq<Node<D, V>> {
    Seq::new(before.len(), |y: int| if y > i { after[y] } else { before[y] })
}

/// Leaf `i` got as data what the summary of leaves returned for it, called on
/// the nodes as the pass saw them, the buckets, the items and the context.
pub open spec fn leaf_summarised<T, D: QTreeData<T, V>, V>(
    before: Seq<Node<D, V>>,
    after: Seq<Node<D, V>>,
    leaf_items: &Vec<Idx<T>>,
    items: &Vec<T>,
    context: &D::Context,
    i: int,
) -> bool {
    exists|id: Idx<Node<D, V>>, seen: Vec<Node<D, V>>|
        #![trigger call_ensures(D::update_leaf, (id, &seen, leaf_items, items, context), after[i].data)]
        id@ == i && seen@ == nodes_at_step(before, after, i) && call_ensures(
            D::update_leaf,
            (id, &seen, leaf_items, items, context),
            after[i].data,
        )
}

/// Internal node `i` got as data what the summary of internal nodes returned
/// for it, called on the nodes as the pass saw them.
pub open spec fn internal_summarised<T, D: QTreeData<T, V>, V>(
    before: Seq<Node<D, V>>,
    after: Seq<Node<D, V>>,
    i: int,
) -> bool {
    exists|id: Idx<Node<D, V>>, seen: Vec<Node<D, V>>|
        #![trigger call_ensures(D::update_internal, (id, &seen), after[i].data)]
        id@ == i && seen@ == nodes_at_step(before, after, i) && call_ensures(
            D::update_internal,
            (id, &seen),
            after[i].data,
        )
}

/// Node `i` carries the summary computed for it by the bottom-up pass.
pub open spec fn summarised<T, D: QTreeData<T, V>, V>(
    before: Seq<Node<D, V>>,
    after: Seq<Node<D, V>>,
    leaf_items: &Vec<Idx<T>>,
    items: &Vec<T>,
    context: &D::Context,
    i: int,
) -> bool {
    if before[i].is_leaf {
        leaf_summarised(before, after, leaf_items, items, context, i)
    } else {
        internal_summarised::<T, D, V>(before, after, i)
    }
}

/// The node data of `t` is what a bottom-up pass of summaries gives: from
/// nodes of the same shape, every node was summarised over the buckets of
/// `t`, `items` and `context`.
pub open spec fn summarised_tree<T, D: QTreeData<T, V>, V, S>(
    t: QuadTree<T, D, V, S>,
    items: &Vec<T>,
    context: &D::Context,
) -> bool {
    exists|b: Seq<Node<D, V>>|
        #![trigger same_shape(b, t.nodes@)]
        same_shape(b, t.nodes@) && forall|i: int|
            0 <= i < b.len() ==> #[trigger] summarised(b, t.nodes@, &t.leaf_items, items, context, i)
}

impl<T, D, V, S> QuadTree<T, D, V, S> {
    /// The tree is well formed and rooted at node 0.
    pub open spec fn wf(&self) -> bool {
        &&& tree_wf(self.nodes@, self.leaf_items@)
        &&& self.root@ == 0
    }

    /// The multiset of item indices held by the leaves.
    pub open spec fn contents(&self) -> Multiset<usize> {
        held_upto(self.nodes@, self.leaf_items@, self.nodes@.len())
    }

    /// Every item held by a leaf is an index below `n`.
    pub open spec fn items_below(&self, n: nat) -> bool {
        leaves_below(self.nodes@, self.leaf_items@, n)
    }
}

/// `held_upto` only depends on the nodes below `k`.
proof fn lemma_held_upto_frame<T, D, V>(
    n1: Seq<Node<D, V>>,
    l1: Seq<Idx<T>>,
    n2: Seq<Node<D, V>>,
    l2: Seq<Idx<T>>,
    k: nat,
)
    requires
        k <= n1.len(),
        k <= n2.len(),
        forall|i: int| 0 <= i < k ==> #[trigger] held(n1, l1, i) == held(n2, l2, i),
    ensures
        held_upto(n1, l1, k) == held_upto(n2, l2, k),
    decreases k,
{
    if k > 0 {
        lemma_held_upto_frame(n1, l1, n2, l2, (k - 1) as nat);
    }
}

/// Changing what node `j` holds changes `held_upto` by exactly that.
proof fn lemma_held_upto_change<T, D, V>(
    n1: Seq<Node<D, V>>,
    l1: Seq<Idx<T>>,
    n2: Seq<Node<D, V>>,
    l2: Seq<Idx<T>>,
    j: int,
    k: nat,
)
    requires
        k <= n1.len(),
        k <= n2.len(),
        0 <= j,
        forall|i: int| 0 <= i < k && i != j ==> #[trigger] held(n1, l1, i) == held(n2, l2, i),
    ensures
        j < k ==> held_upto(n1, l1, k).add(held(n2, l2, j)) =~= held_upto(n2, l2, k).add(
            held(n1, l1, j),
        ),
        j >= k ==> held_upto(n1, l1, k) == held_upto(n2, l2, k),
    decreases k,
{
    broadcast use vstd::multiset::group_multiset_axioms;

    if k > 0 {
        let k1 = (k - 1) as nat;
        lemma_held_upto_change(n1, l1, n2, l2, j, k1);
        let a1 = held_upto(n1, l1, k1);
        let a2 = held_upto(n2, l2, k1);
        assert(held_upto(n1, l1, k) == a1.add(held(n1, l1, k1 as int)));
        assert(held_upto(n2, l2, k) == a2.add(held(n2, l2, k1 as int)));
        if j < k1 {
            assert(held(n1, l1, k1 as int) == held(n2, l2, k1 as int));
            assert(a1.add(held(n2, l2, j)) =~= a2.add(held(n1, l1, j)));
            assert forall|v: usize| #[trigger] held_upto(n1, l1, k).add(held(n2, l2, j)).count(v)
                == held_upto(n2, l2, k).add(held(n1, l1, j)).count(v) by {
                assert(a1.add(held(n2, l2, j)).count(v) == a2.add(held(n1, l1, j)).count(v));
            }
        } else if j == k1 {
            assert(a1 == a2);
        }
    }
}

/// The buckets of two well-formed trees agree on node `i` when its record
/// and its slots agree.
proof fn lemma_held_same<T, D, V>(
    n1: Seq<Node<D, V>>,
    l1: Seq<Idx<T>>,
    n2: Seq<Node<D, V>>,
    l2: Seq<Idx<T>>,
    i: int,
)
    requires
        0 <= i < n1.len(),
        0 <= i < n2.len(),
        n1[i].is_leaf == n2[i].is_leaf,
        n1[i].nitems == n2[i].nitems,
        forall|k: int| 0 <= k < n1[i].nitems ==> #[trigger] slot(l1, i, k) == slot(l2, i, k),
    ensures
        held(n1, l1, i) == held(n2, l2, i),
{
    assert(bucket(n1, l1, i) =~= bucket(n2, l2, i));
}

/// Appending an empty leaf as child `q` of internal node `j` keeps the tree
/// well formed.
proof fn lemma_grow_wf<T, D, V>(
    n0: Seq<Node<D, V>>,
    l0: Seq<Idx<T>>,
    n1: Seq<Node<D, V>>,
    l1: Seq<Idx<T>>,
    j: int,
    q: int,
)
    requires
        tree_wf(n0, l0),
        0 <= j < n0.len(),
        0 <= q < 4,
        !n0[j].is_leaf,
        n1.len() == n0.len() + 1,
        l1.len() == l0.len() + BUCKET_SIZE,
        forall|x: int| 0 <= x < n0.len() && x != j ==> #[trigger] n1[x] == n0[x],
        n1[j].is_leaf == n0[j].is_leaf,
        n1[j].items == n0[j].items,
        n1[j].nitems == n0[j].nitems,
        n1[j].children[q]@ == n0.len(),
        forall|q2: int| 0 <= q2 < 4 && q2 != q ==> #[trigger] n1[j].children[q2] == n0[j].children[q2],
        n1[n0.len() as int].is_leaf,
        n1[n0.len() as int].nitems == 0,
        n1[n0.len() as int].items == l0.len(),
        forall|q2: int| 0 <= q2 < 4 ==> #[trigger] n1[n0.len() as int].children[q2]@ == 0,
    ensures
        tree_wf(n1, l1),
{
    assert forall|x: int| 0 <= x < n1.len() implies #[trigger] n1[x].items == BUCKET_SIZE * x
        && n1[x].nitems <= BUCKET_SIZE by {
        if x < n0.len() {
            assert(n0[x].items == BUCKET_SIZE * x);
        }
    }
    assert forall|x: int, c: int|
        0 <= x < n1.len() && 0 <= c < 4 implies #[trigger] n1[x].children[c]@ == 0 || (x
        < n1[x].children[c]@ < n1.len()) by {
        if x < n0.len() && !(x == j && c == q) {
            assert(n0[x].children[c]@ == 0 || (x < n0[x].children[c]@ < n0.len()));
            if x == j {
                assert(n1[x].children[c] == n0[x].children[c]);
            }
        }
    }
    assert forall|x: int, c: int|
        0 <= x < n1.len() && 0 <= c < 4 && n1[x].is_leaf implies #[trigger] n1[x].children[c]@
        == 0 by {
        if x < n0.len() && x != j {
            assert(n0[x].is_leaf ==> n0[x].children[c]@ == 0);
        }
    }
}

/// Replaces the summary data of a node.
fn set_data<D, V>(node: &mut Node<D, V>, data: D)
    ensures
        *final(node) == (Node { data, ..*old(node) }),
{
    node.data = data;
}

/// Counts one more item in a leaf.
fn bump_nitems<D, V>(node: &mut Node<D, V>)
    requires
        old(node).nitems < BUCKET_SIZE,
    ensures
        *final(node) == (Node { nitems: (old(node).nitems + 1) as usize, ..*old(node) }),
{
    node.nitems = node.nitems + 1;
}

/// Turns a leaf into an internal node.
fn mark_internal<D, V>(node: &mut Node<D, V>)
    ensures
        *final(node) == (Node { is_leaf: false, ..*old(node) }),
{
    node.is_leaf = false;
}

/// Links child `c` into quadrant `q`.
fn set_child<D, V>(node: &mut Node<D, V>, q: usize, c: Idx<Node<D, V>>)
    requires
        q < 4,
    ensures
        final(node).is_leaf == old(node).is_leaf,
        final(node).pos == old(node).pos,
        final(node).data == old(node).data,
        final(node).nitems == old(node).nitems,
        final(node).items == old(node).items,
        final(node).children@ == old(node).children@.update(q as int, c),
{
    node.children[q] = c;
}

impl<T: QTreeItem<V>, D: QTreeData<T, V>, V: Copy, S: Copy> QuadTree<T, D, V, S> {
    /// An empty tree whose root square is centred at `pos` with half-size `rad`.
    pub fn new(pos: V, rad: S) -> (r: Self)
        ensures
            r.wf(),
            r.contents() =~= Multiset::empty(),
            r.nodes@.len() == 1,
            r.nodes@[0].pos == pos,
            r.nodes@[0].is_leaf,
            r.nodes@[0].nitems == 0,
            r.rad == rad,
    {
        let mut leaf_items: Vec<Idx<T>> = Vec::new();
        let mut k: usize = 0;
        while k < BUCKET_SIZE
            invariant
                0 <= k <= BUCKET_SIZE,
                leaf_items@.len() == k,
            decreases BUCKET_SIZE - k,
        {
            leaf_items.push(Idx::zero());
            k = k + 1;
        }
        let z: Idx<Node<D, V>> = Idx::zero();
        let root_node = Node::<D, V> {
            is_leaf: true,
            pos,
            data: D::new(),
            nitems: 0usize,
            items: 0usize,
            children: [z, z, z, z],
        };
        let root = idx::<Node<D, V>>(0usize);
        let mut nodes: Vec<Node<D, V>> = Vec::new();
        nodes.push(root_node);
        let r = Self { nodes, leaf_items, root, rad };
        proof {
            assert(r.nodes@[0].children@ =~= seq![z, z, z, z]);
            assert(bucket(r.nodes@, r.leaf_items@, 0) =~= Seq::<usize>::empty());
            assert(held_upto(r.nodes@, r.leaf_items@, 0) =~= Multiset::empty());
            assert(Seq::<usize>::empty().to_multiset() =~= Multiset::empty()) by {
                broadcast use group_to_multiset_ensures;
            }
        }
        r
    }

    /// A fresh empty leaf centred at `pos`, with a new bucket appended.
    fn new_node(&mut self, pos: V) -> (r: Node<D, V>)
        ensures
            final(self).nodes == old(self).nodes,
            final(self).root == old(self).root,
            final(self).rad == old(self).rad,
            final(self).leaf_items@.len() == old(self).leaf_items@.len() + BUCKET_SIZE,
            forall|k: int|
                0 <= k < old(self).leaf_items@.len() ==> #[trigger] final(self).leaf_items@[k]
                    == old(self).leaf_items@[k],
            r.is_leaf,
            r.pos == pos,
            r.nitems == 0,
            r.items == old(self).leaf_items@.len(),
            forall|q: int| 0 <= q < 4 ==> #[trigger] r.children@[q]@ == 0,
    {
        let items = self.leaf_items.len();
        let mut k: usize = 0;
        while k < BUCKET_SIZE
            invariant
                0 <= k <= BUCKET_SIZE,
                self.nodes == old(self).nodes,
                self.root == old(self).root,
                self.rad == old(self).rad,
                items == old(self).leaf_items@.len(),
                self.leaf_items@.len() == items + k,
                forall|j: int| 0 <= j < items ==> #[trigger] self.leaf_items@[j]
                    == old(self).leaf_items@[j],
            decreases BUCKET_SIZE - k,
        {
            self.leaf_items.push(Idx::zero());
            k = k + 1;
        }
        let z: Idx<Node<D, V>> = Idx::zero();
        let r = Node::<D, V> {
            is_leaf: true,
            pos,
            data: D::new(),
            nitems: 0usize,
            items,
            children: [z, z, z, z],
        };
        assert(r.children@ =~= seq![z, z, z, z]);
        r
    }

    /// Appends `item` to the bucket of leaf `node`; returns its slot in the bucket.
    fn insert_into_leaf(&mut self, node: Idx<Node<D, V>>, item: Idx<T>) -> (r: usize)
        requires
            old(self).wf(),
            node@ < old(self).nodes@.len(),
            old(self).nodes@[node@ as int].is_leaf,
            old(self).nodes@[node@ as int].nitems < BUCKET_SIZE,
        ensures
            final(self).wf(),
            r == old(self).nodes@[node@ as int].nitems,
            final(self).root == old(self).root,
            final(self).rad == old(self).rad,
            final(self).nodes@ == old(self).nodes@.update(
                node@ as int,
                Node { nitems: (r + 1) as usize, ..old(self).nodes@[node@ as int] },
            ),
            final(self).leaf_items@ == old(self).leaf_items@.update(BUCKET_SIZE * node@ + r, item),
            final(self).contents() =~= old(self).contents().insert(item@),
            grows(old(self).nodes@, final(self).nodes@),
    {
        let j = node.as_usize();
        let i = self.nodes[j].nitems;
        let ghost n0 = self.nodes@;
        let ghost l0 = self.leaf_items@;
        bump_nitems(&mut self.nodes[j]);
        let at = self.nodes[j].items + i;
        self.leaf_items.set(at, item);
        proof {
            broadcast use group_to_multiset_ensures;
            broadcast use vstd::multiset::group_multiset_axioms;

            let n1 = self.nodes@;
            let l1 = self.leaf_items@;
            assert forall|x: int| 0 <= x < n1.len() && x != j implies #[trigger] held(n0, l0, x)
                == held(n1, l1, x) by {
                assert(n0[x].items == BUCKET_SIZE * x);
                assert forall|k: int| 0 <= k < n0[x].nitems implies #[trigger] slot(l0, x, k)
                    == slot(l1, x, k) by {
                    assert(BUCKET_SIZE * x + k != BUCKET_SIZE * j + i) by (nonlinear_arith)
                        requires
                            x != j,
                            0 <= k < BUCKET_SIZE,
                            0 <= i < BUCKET_SIZE,
                            0 <= x,
                            0 <= j,
                    ;
                }
                lemma_held_same(n0, l0, n1, l1, x);
            }
            assert(bucket(n1, l1, j as int) =~= bucket(n0, l0, j as int).push(item@));
            bucket(n0, l0, j as int).to_multiset_ensures();
            assert(held(n1, l1, j as int) =~= held(n0, l0, j as int).insert(item@));
            lemma_held_upto_change(n0, l0, n1, l1, j as int, n0.len());
            let c0 = held_upto(n0, l0, n0.len());
            let c1 = held_upto(n1, l1, n1.len());
            assert forall|v: usize| #[trigger] c1.count(v) == c0.insert(item@).count(v) by {
                assert(c0.add(held(n1, l1, j as int)).count(v) == c1.add(held(n0, l0, j as int)).count(v));
            }
            assert(c1 =~= c0.insert(item@));
            assert(tree_wf(n1, l1)) by {
                assert forall|x: int, q: int|
                    0 <= x < n1.len() && 0 <= q < 4 implies #[trigger] n1[x].children[q]@ == 0 || (x
                    < n1[x].children[q]@ < n1.len()) by {
                    assert(n0[x].children[q]@ == 0 || (x < n0[x].children[q]@ < n0.len()));
                }
                assert forall|x: int, q: int|
                    0 <= x < n1.len() && 0 <= q < 4 && n1[x].is_leaf implies #[trigger] n1[x].children[q]@
                    == 0 by {
                    assert(n0[x].is_leaf ==> n0[x].children[q]@ == 0);
                }
            }
        }
        i
    }

    /// The centre of the root square.
    pub fn get_pos(&self) -> (r: V)
        requires
            self.wf(),
        ensures
            r == self.nodes@[0].pos,
    {
        self.nodes[self.root.as_usize()].pos
    }

    /// The half-size of the root square.
    pub fn get_rad(&self) -> (r: S)
        ensures
            r == self.rad,
    {
        self.rad
    }

    /// Empties the tree, keeping the root square.
    pub fn clear(&mut self)
        requires
            old(self).wf(),
        ensures
            final(self).wf(),
            final(self).contents() =~= Multiset::empty(),
            final(self).nodes@.len() == 1,
            final(self).nodes@[0].pos == old(self).nodes@[0].pos,
            final(self).nodes@[0].is_leaf,
            final(self).nodes@[0].nitems == 0,
            final(self).rad == old(self).rad,
    {
        self.leaf_items.clear();
        let pos = self.nodes[self.root.as_usize()].pos;
        let root_node = self.new_node(pos);
        self.nodes.clear();
        self.nodes.push(root_node);
        proof {
            broadcast use group_to_multiset_ensures;

            let n1 = self.nodes@;
            let l1 = self.leaf_items@;
            assert(bucket(n1, l1, 0) =~= Seq::<usize>::empty());
            assert(Seq::<usize>::empty().to_multiset() =~= Multiset::empty());
            assert(held_upto(n1, l1, 0) =~= Multiset::empty());
        }
    }

    /// The child of internal node `node_index` in the quadrant of `item_pos`,
    /// created as an empty leaf if the quadrant has none yet.
    fn descend<G: Geometry<V, S>>(&mut self, rad: &S, node_index: Idx<Node<D, V>>, item_pos: &V) -> (r: Idx<Node<D, V>>)
        requires
            old(self).wf(),
            node_index@ < old(self).nodes@.len(),
            !old(self).nodes@[node_index@ as int].is_leaf,
        ensures
            final(self).wf(),
            final(self).root == old(self).root,
            final(self).rad == old(self).rad,
            final(self).contents() =~= old(self).contents(),
            final(self).nodes@[0].pos == old(self).nodes@[0].pos,
            node_index@ < r@ < final(self).nodes@.len(),
            old(self).nodes@.len() <= final(self).nodes@.len(),
            forall|n: nat| #[trigger] old(self).items_below(n) ==> final(self).items_below(n),
            grows(old(self).nodes@, final(self).nodes@),
            steps_to::<D, V, S, G>(final(self).nodes@, *item_pos, node_index@ as int, r@ as int),
            connected(old(self).nodes@) ==> connected(final(self).nodes@),
            forall|sizes: Seq<S>, h: S|
                sized::<D, V, S, G>(old(self).nodes@, sizes) && sizes[node_index@ as int] == *rad && call_ensures(
                    G::half,
                    (rad,),
                    h,
                ) ==> #[trigger] sized::<D, V, S, G>(
                    final(self).nodes@,
                    extend_sizes(sizes, final(self).nodes@.len() as int, h),
                ),
            forall|x: int|
                0 <= x < old(self).nodes@.len() ==> #[trigger] final(self).nodes@[x].is_leaf == old(self).nodes@[x].is_leaf
                    && final(self).nodes@[x].nitems == old(self).nodes@[x].nitems,
            forall|x: int|
                old(self).nodes@.len() <= x < final(self).nodes@.len() ==> #[trigger] final(self).nodes@[x].nitems == 0
                    && final(self).nodes@[x].is_leaf,
            forall|k: int| 0 <= k < old(self).leaf_items@.len() ==> #[trigger] final(self).leaf_items@[k] == old(self).leaf_items@[k],
            exists|q: int|
                0 <= q < 4 && #[trigger] final(self).nodes@[node_index@ as int].children[q] == r && ((
                old(self).nodes@[node_index@ as int].children[q]@ != 0 && final(self).nodes@
                == old(self).nodes@ && final(self).leaf_items@ == old(self).leaf_items@) || (old(
                self).nodes@[node_index@ as int].children[q]@ == 0 && r@ == old(self).nodes@.len()
                && final(self).nodes@.len() == old(self).nodes@.len() + 1 && final(self).nodes@[r@ as int].is_leaf
                && final(self).nodes@[r@ as int].nitems == 0 && (forall|x: int|
                0 <= x < old(self).nodes@.len() && x != node_index@ ==> #[trigger] final(self).nodes@[x]
                == old(self).nodes@[x]) && final(self).nodes@[node_index@ as int] == (Node {
                children: final(self).nodes@[node_index@ as int].children,
                ..old(self).nodes@[node_index@ as int]
            }) && (forall|q2: int|
                0 <= q2 < 4 && q2 != q ==> #[trigger] final(self).nodes@[node_index@ as int].children[q2]
                == old(self).nodes@[node_index@ as int].children[q2]) && (forall|k: int|
                0 <= k < old(self).leaf_items@.len() ==> #[trigger] final(self).leaf_items@[k]
                == old(self).leaf_items@[k]))),
    {
        let j = node_index.as_usize();
        let node_pos = self.nodes[j].pos;
        let gx = G::greater_x(item_pos, &node_pos);
        let gy = G::greater_y(item_pos, &node_pos);
        let quadrant: usize = (if gx {
            2usize
        } else {
            0usize
        }) + (if gy {
            1usize
        } else {
            0usize
        });
        assert(quadrant == quadrant_of(!gx, !gy));
        let child = self.nodes[j].children[quadrant];
        if !child.is_zero() {
            proof {
                assert forall|sizes: Seq<S>, h: S|
                    sized::<D, V, S, G>(self.nodes@, sizes) implies #[trigger] sized::<D, V, S, G>(
                    self.nodes@,
                    extend_sizes(sizes, self.nodes@.len() as int, h),
                ) by {
                    assert(extend_sizes(sizes, self.nodes@.len() as int, h) =~= sizes);
                }
                assert(self.nodes@[j as int].children[quadrant as int]@ == 0 || (j
                    < self.nodes@[j as int].children[quadrant as int]@ < self.nodes@.len()));
            }
            child
        } else {
            let ghost n0 = self.nodes@;
            let ghost l0 = self.leaf_items@;
            let new_node_pos = G::child_center(&node_pos, rad, quadrant);
            let new_node = self.new_node(new_node_pos);
            let new_index = idx::<Node<D, V>>(self.nodes.len());
            self.nodes.push(new_node);
            set_child(&mut self.nodes[j], quadrant, new_index);
            proof {
                broadcast use group_to_multiset_ensures;
                broadcast use vstd::multiset::group_multiset_axioms;

                let n1 = self.nodes@;
                let l1 = self.leaf_items@;
                assert(n1[j as int].children[quadrant as int] == new_index);
                assert forall|x: int| 0 <= x < n0.len() && x != j implies #[trigger] n1[x] == n0[x] by {}
                assert forall|q2: int| 0 <= q2 < 4 && q2 != quadrant implies #[trigger] n1[j as int].children[q2]
                    == n0[j as int].children[q2] by {}
                lemma_grow_wf(n0, l0, n1, l1, j as int, quadrant as int);
                if connected(n0) {
                    assert(n1[j as int].children[quadrant as int]@ == n0.len());
                    assert(has_parent(n1, n0.len() as int));
                    lemma_connected_grows(n0, n1);
                }
                assert forall|sizes: Seq<S>, h: S|
                    sized::<D, V, S, G>(n0, sizes) && sizes[j as int] == *rad && call_ensures(G::half, (rad,), h)
                        implies #[trigger] sized::<D, V, S, G>(n1, extend_sizes(sizes, n1.len() as int, h)) by {
                    let es = extend_sizes(sizes, n1.len() as int, h);
                    assert forall|a: int, q: int| 0 <= a < n1.len() && 0 <= q < 4 && #[trigger] n1[a].children[q]@ != 0 implies {
                        &&& call_ensures(G::half, (&es[a],), es[n1[a].children[q]@ as int])
                        &&& call_ensures(G::child_center, (&n1[a].pos, &es[a], q as usize), n1[n1[a].children[q]@ as int].pos)
                    } by {
                        if a == n0.len() {
                            assert(n1[a].is_leaf);
                            assert(n1[a].children[q]@ == 0);
                        } else if a == j && q == quadrant {
                            assert(n1[a].children[q]@ == n0.len());
                            assert(es[a] == sizes[a]);
                            assert(es[n0.len() as int] == h);
                        } else {
                            if a == j {
                                assert(n1[a].children[q] == n0[a].children[q]);
                            } else {
                                assert(n1[a] == n0[a]);
                            }
                            let c = n0[a].children[q]@ as int;
                            assert(n0[a].children[q]@ != 0);
                            assert(a < c < n0.len());
                            assert(n1[c] == n0[c] || c == j);
                            assert(n1[c].pos == n0[c].pos);
                            assert(es[a] == sizes[a] && es[c] == sizes[c]);
                        }
                    }
                }
                assert forall|x: int| 0 <= x < n0.len() implies #[trigger] held(n0, l0, x) == held(n1, l1, x) by {
                    assert(n0[x].items == BUCKET_SIZE * x);
                    assert forall|k: int| 0 <= k < n0[x].nitems implies #[trigger] slot(l0, x, k)
                        == slot(l1, x, k) by {
                        assert(BUCKET_SIZE * x + k < BUCKET_SIZE * n0.len()) by (nonlinear_arith)
                            requires
                                0 <= k < BUCKET_SIZE,
                                0 <= x < n0.len(),
                        ;
                    }
                    lemma_held_same(n0, l0, n1, l1, x);
                }
                lemma_held_upto_frame(n0, l0, n1, l1, n0.len());
                assert(bucket(n1, l1, n0.len() as int) =~= Seq::<usize>::empty());
                assert(held(n1, l1, n0.len() as int) =~= Multiset::empty());
                assert(held_upto(n1, l1, n1.len()) =~= held_upto(n1, l1, n0.len()));
                assert forall|nn: nat| #[trigger] leaves_below(n0, l0, nn) implies leaves_below(n1, l1, nn) by {
                    assert forall|x: int, k: int|
                        0 <= x < n1.len() && n1[x].is_leaf && 0 <= k < n1[x].nitems implies #[trigger] slot(
                        l1,
                        x,
                        k,
                    ) < nn by {
                        assert(x < n0.len());
                        assert(n0[x].items == BUCKET_SIZE * x);
                        assert(n0[x].is_leaf && n0[x].nitems == n1[x].nitems);
                        assert(slot(l0, x, k) < nn);
                        assert(BUCKET_SIZE * x + k < BUCKET_SIZE * n0.len()) by (nonlinear_arith)
                            requires
                                0 <= k < BUCKET_SIZE,
                                0 <= x < n0.len(),
                        ;
                    }
                }
            }
            new_index
        }
    }

    /// Splits the full leaf `node`: it becomes internal and its items move to
    /// the children of their quadrants.
    #[verifier::spinoff_prover]
    fn split<G: Geometry<V, S>>(&mut self, node: Idx<Node<D, V>>, rad: &S, items: &Vec<T>)
        requires
            old(self).wf(),
            node@ < old(self).nodes@.len(),
            old(self).nodes@[node@ as int].is_leaf,
            old(self).nodes@[node@ as int].nitems == BUCKET_SIZE,
            old(self).items_below(items@.len()),
        ensures
            final(self).wf(),
            final(self).root == old(self).root,
            final(self).rad == old(self).rad,
            final(self).contents() =~= old(self).contents(),
            final(self).items_below(items@.len()),
            final(self).nodes@[0].pos == old(self).nodes@[0].pos,
            node@ < final(self).nodes@.len(),
            !final(self).nodes@[node@ as int].is_leaf,
            grows(old(self).nodes@, final(self).nodes@),
            connected(old(self).nodes@) ==> connected(final(self).nodes@),
            positions_fixed(items@) && placed::<T, D, V, S, G>(old(self).nodes@, old(self).leaf_items@, items@)
                ==> placed::<T, D, V, S, G>(final(self).nodes@, final(self).leaf_items@, items@),
            forall|sizes: Seq<S>, h: S|
                sized::<D, V, S, G>(old(self).nodes@, sizes) && sizes[node@ as int] == *rad && call_ensures(G::half, (rad,), h)
                    ==> #[trigger] sized::<D, V, S, G>(final(self).nodes@, extend_sizes(sizes, final(self).nodes@.len() as int, h)),
            forall|q: int|
                0 <= q < 4 && #[trigger] final(self).nodes@[node@ as int].children[q]@ != 0 ==> child_ok::<T, D, V, S, G>(
                    final(self).nodes@,
                    final(self).leaf_items@,
                    items@,
                    node@ as int,
                    final(self).nodes@[node@ as int].children[q]@ as int,
                    bucket(old(self).nodes@, old(self).leaf_items@, node@ as int).to_multiset(),
                ),
    {
        let j = node.as_usize();
        let ghost n0 = self.nodes@;
        let ghost l0 = self.leaf_items@;
        let ghost track = positions_fixed(items@) && placed::<T, D, V, S, G>(n0, l0, items@);
        let ghost c0 = self.contents();
        let ghost b = bucket(n0, l0, j as int);
        let ghost first = n0.len();
        proof {
            assert forall|k: int| 0 <= k < BUCKET_SIZE implies #[trigger] b[k] < items@.len() by {
                assert(slot(l0, j as int, k) < items@.len());
            }
        }
        mark_internal(&mut self.nodes[j]);
        proof {
            assert(grows(n0, self.nodes@));
            if connected(n0) {
                lemma_connected_grows(n0, self.nodes@);
            }
            assert forall|sizes: Seq<S>, h: S|
                sized::<D, V, S, G>(n0, sizes) && sizes[j as int] == *rad && call_ensures(G::half, (rad,), h)
                    implies #[trigger] sized::<D, V, S, G>(self.nodes@, extend_sizes(sizes, self.nodes@.len() as int, h)) by {
                assert(extend_sizes(sizes, self.nodes@.len() as int, h) =~= sizes);
                assert forall|x: int, q: int| 0 <= x < n0.len() && 0 <= q < 4 implies #[trigger] n0[x].children[q]@ < n0.len() by {
                    assert(n0[x].children[q]@ == 0 || (x < n0[x].children[q]@ < n0.len()));
                }
                lemma_sized_links::<D, V, S, G>(n0, self.nodes@, sizes);
            }
            if track {
                let n1 = self.nodes@;
                assert forall|x: int, k: int|
                    0 <= x < n1.len() && n1[x].is_leaf && 0 <= k < n1[x].nitems implies #[trigger] reaches::<T, D, V, S, G>(
                    n1,
                    items@[slot(l0, x, k) as int],
                    x,
                ) by {
                    assert(n0[x] == n1[x]);
                    assert(reaches::<T, D, V, S, G>(n0, items@[slot(l0, x, k) as int], x));
                    lemma_reaches_grows::<T, D, V, S, G>(n0, n1, items@[slot(l0, x, k) as int], x);
                }
                assert forall|k: int| 0 <= k < BUCKET_SIZE implies #[trigger] reaches::<T, D, V, S, G>(
                    n1,
                    items@[b[k] as int],
                    j as int,
                ) by {
                    assert(reaches::<T, D, V, S, G>(n0, items@[slot(l0, j as int, k) as int], j as int));
                    lemma_reaches_grows::<T, D, V, S, G>(n0, n1, items@[slot(l0, j as int, k) as int], j as int);
                }
            }
            broadcast use group_to_multiset_ensures;
            broadcast use vstd::multiset::group_multiset_axioms;

            let n1 = self.nodes@;
            let l1 = self.leaf_items@;
            assert forall|x: int| 0 <= x < n1.len() && x != j implies #[trigger] held(n0, l0, x)
                == held(n1, l1, x) by {
                lemma_held_same(n0, l0, n1, l1, x);
            }
            lemma_held_upto_change(n0, l0, n1, l1, j as int, n0.len());
            assert(b.subrange(0, BUCKET_SIZE as int) =~= b);
            assert(held(n1, l1, j as int) =~= Multiset::empty());
            assert(self.contents().add(b.subrange(0, BUCKET_SIZE as int).to_multiset()) =~= c0);
            assert(tree_wf(n1, l1)) by {
                assert forall|x: int, q: int|
                    0 <= x < n1.len() && 0 <= q < 4 implies #[trigger] n1[x].children[q]@ == 0 || (x
                    < n1[x].children[q]@ < n1.len()) by {
                    assert(n0[x].children[q]@ == 0 || (x < n0[x].children[q]@ < n0.len()));
                }
                assert forall|x: int, q: int|
                    0 <= x < n1.len() && 0 <= q < 4 && n1[x].is_leaf implies #[trigger] n1[x].children[q]@
                    == 0 by {
                    assert(n0[x].is_leaf ==> n0[x].children[q]@ == 0);
                }
            }
            assert forall|q: int| 0 <= q < 4 implies #[trigger] n1[j as int].children[q]@ == 0 by {
                assert(n0[j as int].is_leaf ==> n0[j as int].children[q]@ == 0);
            }
            assert(leaves_below(n1, l1, items@.len())) by {
                assert forall|x: int, k: int|
                    0 <= x < n1.len() && n1[x].is_leaf && 0 <= k < n1[x].nitems implies #[trigger] slot(
                    l1,
                    x,
                    k,
                ) < items@.len() by {
                    assert(n0[x].is_leaf);
                }
            }
        }
        let mut i: usize = 0;
        while i < BUCKET_SIZE
            invariant
                self.wf(),
                self.root == old(self).root,
                self.rad == old(self).rad,
                self.nodes@[0].pos == old(self).nodes@[0].pos,
                0 <= i <= BUCKET_SIZE,
                j < self.nodes@.len(),
                first <= self.nodes@.len(),
                j == node@,
                j < n0.len(),
                connected(n0) ==> connected(self.nodes@),
                !self.nodes@[j as int].is_leaf,
                b.len() == BUCKET_SIZE,
                forall|k: int| 0 <= k < BUCKET_SIZE ==> #[trigger] slot(self.leaf_items@, j as int, k) == b[k],
                forall|k: int| 0 <= k < BUCKET_SIZE ==> #[trigger] b[k] < items@.len(),
                forall|q: int|
                    0 <= q < 4 ==> #[trigger] self.nodes@[j as int].children[q]@ == 0 || (first
                        <= self.nodes@[j as int].children[q]@ < self.nodes@.len() && self.nodes@[self.nodes@[j as int].children[q]@ as int].is_leaf
                        && self.nodes@[self.nodes@[j as int].children[q]@ as int].nitems <= i),
                self.contents().add(b.subrange(i as int, BUCKET_SIZE as int).to_multiset()) =~= c0,
                self.items_below(items@.len()),
                grows(n0, self.nodes@),
                track ==> placed::<T, D, V, S, G>(self.nodes@, self.leaf_items@, items@),
                track ==> forall|k: int|
                    i <= k < BUCKET_SIZE ==> #[trigger] reaches::<T, D, V, S, G>(self.nodes@, items@[b[k] as int], j as int),
                track == (positions_fixed(items@) && placed::<T, D, V, S, G>(n0, l0, items@)),
                forall|sizes: Seq<S>, h: S|
                sized::<D, V, S, G>(n0, sizes) && sizes[j as int] == *rad && call_ensures(G::half, (rad,), h)
                    ==> #[trigger] sized::<D, V, S, G>(self.nodes@, extend_sizes(sizes, self.nodes@.len() as int, h)),
                forall|q: int|
                    0 <= q < 4 && #[trigger] self.nodes@[j as int].children[q]@ != 0 ==> child_ok::<T, D, V, S, G>(
                        self.nodes@,
                        self.leaf_items@,
                        items@,
                        j as int,
                        self.nodes@[j as int].children[q]@ as int,
                        b.take(i as int).to_multiset(),
                    ),
            decreases BUCKET_SIZE - i,
        {
            let ghost na = self.nodes@;
            let ghost la = self.leaf_items@;
            let ghost ca = self.contents();
            let at = self.nodes[j].items + i;
            let item_idx = self.leaf_items[at];
            assert(item_idx@ == b[i as int]) by {
                assert(slot(la, j as int, i as int) == b[i as int]);
            }
            let item_pos = items[item_idx.as_usize()].get_pos();
            let child = self.descend::<G>(rad, node, &item_pos);
            let ghost nb = self.nodes@;
            let ghost lb = self.leaf_items@;
            let ghost qsel = choose|q: int|
                0 <= q < 4 && #[trigger] nb[j as int].children[q] == child && ((na[j as int].children[q]@
                    != 0 && nb == na && lb == la) || (na[j as int].children[q]@ == 0 && child@
                    == na.len() && nb.len() == na.len() + 1 && nb[child@ as int].is_leaf
                    && nb[child@ as int].nitems == 0 && (forall|x: int|
                    0 <= x < na.len() && x != j ==> #[trigger] nb[x] == na[x]) && nb[j as int] == (Node {
                    children: nb[j as int].children,
                    ..na[j as int]
                }) && (forall|q2: int|
                    0 <= q2 < 4 && q2 != q ==> #[trigger] nb[j as int].children[q2]
                    == na[j as int].children[q2]) && (forall|k: int|
                    0 <= k < la.len() ==> #[trigger] lb[k] == la[k])));
            proof {
                assert(na[j as int].children[qsel]@ == 0 || (first <= na[j as int].children[qsel]@ < na.len()
                    && na[na[j as int].children[qsel]@ as int].is_leaf
                    && na[na[j as int].children[qsel]@ as int].nitems <= i));
                assert(nb[child@ as int].is_leaf && nb[child@ as int].nitems <= i);
                assert forall|k: int| 0 <= k < BUCKET_SIZE implies #[trigger] slot(lb, j as int, k) == b[k] by {
                    assert(slot(la, j as int, k) == b[k]);
                    assert(BUCKET_SIZE * j + k < BUCKET_SIZE * na.len()) by (nonlinear_arith)
                        requires
                            0 <= k < BUCKET_SIZE,
                            0 <= j < na.len(),
                    ;
                }
                assert forall|q: int|
                    0 <= q < 4 implies #[trigger] nb[j as int].children[q]@ == 0 || (first
                        <= nb[j as int].children[q]@ < nb.len() && nb[nb[j as int].children[q]@ as int].is_leaf
                        && nb[nb[j as int].children[q]@ as int].nitems <= i) by {
                    assert(na[j as int].children[q]@ == 0 || (first <= na[j as int].children[q]@ < na.len()
                        && na[na[j as int].children[q]@ as int].is_leaf
                        && na[na[j as int].children[q]@ as int].nitems <= i));
                    if nb[j as int].children[q]@ != 0 && q != qsel && nb != na {
                        assert(nb[j as int].children[q] == na[j as int].children[q]);
                        assert(na[j as int].children[q]@ != j);
                    }
                }
            }
            proof {
                if track {
                    lemma_placed_frame::<T, D, V, S, G>(na, la, nb, lb, items@);
                }
                let bt = b.take(i as int).to_multiset();
                assert forall|q: int|
                    0 <= q < 4 && #[trigger] nb[j as int].children[q]@ != 0 implies child_ok::<T, D, V, S, G>(
                    nb,
                    lb,
                    items@,
                    j as int,
                    nb[j as int].children[q]@ as int,
                    bt,
                ) by {
                    let c = nb[j as int].children[q]@ as int;
                    if na[j as int].children[q]@ != 0 {
                        assert(nb[j as int].children[q] == na[j as int].children[q]);
                        assert(child_ok::<T, D, V, S, G>(na, la, items@, j as int, c, bt));
                        assert(c < na.len() && c != j);
                        assert(nb[c] == na[c]);
                        assert(na[c].items == BUCKET_SIZE * c);
                        assert forall|x: int| 0 <= x < na[c].nitems implies slot(lb, c, x) == slot(la, c, x) by {
                            assert(BUCKET_SIZE * c + x < BUCKET_SIZE * na.len()) by (nonlinear_arith)
                                requires
                                    0 <= x < BUCKET_SIZE,
                                    0 <= c < na.len(),
                            ;
                        }
                        assert(bucket(nb, lb, c) =~= bucket(na, la, c));
                        assert forall|x: int| 0 <= x < nb[c].nitems implies #[trigger] stepped::<T, D, V, S, G>(
                            nb,
                            items@[slot(lb, c, x) as int],
                            j as int,
                            c,
                        ) by {
                            assert(stepped::<T, D, V, S, G>(na, items@[slot(la, c, x) as int], j as int, c));
                            lemma_stepped_grows::<T, D, V, S, G>(na, nb, items@[slot(la, c, x) as int], j as int, c);
                        }
                    } else {
                        assert(q == qsel);
                        assert(nb[c].nitems == 0);
                        assert(bucket(nb, lb, c) =~= Seq::<usize>::empty());
                        assert(Seq::<usize>::empty().to_multiset() =~= Multiset::empty()) by {
                            broadcast use group_to_multiset_ensures;
                        }
                        assert(Multiset::<usize>::empty().subset_of(bt)) by {
                            broadcast use vstd::multiset::group_multiset_axioms;
                        }
                    }
                }
            }
            self.insert_into_leaf(child, item_idx);
            proof {
                lemma_grows_trans(n0, na, nb);
                lemma_grows_trans(n0, nb, self.nodes@);
                lemma_sized_split_step::<T, D, V, S, G>(n0, na, nb, lb, self.nodes@, j as int, *rad);
                if connected(n0) {
                    lemma_connected_grows(nb, self.nodes@);
                }
                {
                    broadcast use group_to_multiset_ensures;
                    broadcast use vstd::multiset::group_multiset_axioms;

                    let nc = self.nodes@;
                    let lc = self.leaf_items@;
                    let m = nb[child@ as int].nitems as int;
                    let bt = b.take(i as int).to_multiset();
                    let bt1 = b.take(i + 1).to_multiset();
                    assert(b.take(i + 1) =~= b.take(i as int).push(b[i as int]));
                    assert(bt1 =~= bt.insert(b[i as int]));
                    assert forall|q: int|
                        0 <= q < 4 && #[trigger] nc[j as int].children[q]@ != 0 implies child_ok::<T, D, V, S, G>(
                        nc,
                        lc,
                        items@,
                        j as int,
                        nc[j as int].children[q]@ as int,
                        bt1,
                    ) by {
                        let c = nc[j as int].children[q]@ as int;
                        assert(nc[j as int] == nb[j as int]);
                        assert(child_ok::<T, D, V, S, G>(nb, lb, items@, j as int, c, bt));
                        assert(nb[c].items == BUCKET_SIZE * c);
                        if c == child@ {
                            assert forall|x: int| 0 <= x < m implies slot(lc, c, x) == slot(lb, c, x) by {
                                assert(BUCKET_SIZE * c + x != BUCKET_SIZE * c + m);
                            }
                            assert(slot(lc, c, m) == b[i as int]);
                            assert(bucket(nc, lc, c) =~= bucket(nb, lb, c).push(b[i as int]));
                            assert forall|x: int| 0 <= x < nc[c].nitems implies #[trigger] stepped::<T, D, V, S, G>(
                                nc,
                                items@[slot(lc, c, x) as int],
                                j as int,
                                c,
                            ) by {
                                if x < m {
                                    assert(stepped::<T, D, V, S, G>(nb, items@[slot(lb, c, x) as int], j as int, c));
                                    lemma_stepped_grows::<T, D, V, S, G>(nb, nc, items@[slot(lb, c, x) as int], j as int, c);
                                } else {
                                    assert(x == m);
                                    lemma_steps_to_grows::<D, V, S, G>(nb, nc, item_pos, j as int, c);
                                    assert(call_ensures(T::get_pos, (&items@[slot(lc, c, x) as int],), item_pos));
                                }
                            }
                        } else {
                            assert(nc[c] == nb[c]);
                            assert forall|x: int| 0 <= x < nb[c].nitems implies slot(lc, c, x) == slot(lb, c, x) by {
                                assert(BUCKET_SIZE * c + x != BUCKET_SIZE * child@ + m) by (nonlinear_arith)
                                    requires
                                        0 <= x < BUCKET_SIZE,
                                        0 <= m < BUCKET_SIZE,
                                        c != child@,
                                        0 <= c,
                                        0 <= child@,
                                ;
                            }
                            assert(bucket(nc, lc, c) =~= bucket(nb, lb, c));
                            assert forall|x: int| 0 <= x < nc[c].nitems implies #[trigger] stepped::<T, D, V, S, G>(
                                nc,
                                items@[slot(lc, c, x) as int],
                                j as int,
                                c,
                            ) by {
                                assert(stepped::<T, D, V, S, G>(nb, items@[slot(lb, c, x) as int], j as int, c));
                                lemma_stepped_grows::<T, D, V, S, G>(nb, nc, items@[slot(lb, c, x) as int], j as int, c);
                            }
                        }
                    }
                }
                if track {
                    let nc = self.nodes@;
                    let lc = self.leaf_items@;
                    let m = nb[child@ as int].nitems as int;
                    let bi = b[i as int];
                    assert(reaches::<T, D, V, S, G>(na, items@[bi as int], j as int));
                    let path = choose|path: Seq<int>|
                        #![trigger insert_path::<D, V, S, G>(na, item_pos, path)]
                        insert_path::<D, V, S, G>(na, item_pos, path) && path.last() == j;
                    lemma_insert_path_grows::<D, V, S, G>(na, nb, item_pos, path);
                    let path2 = path.push(child@ as int);
                    assert(insert_path::<D, V, S, G>(nb, item_pos, path2)) by {
                        assert forall|t: int| 0 <= t < path2.len() implies 0 <= #[trigger] path2[t] < nb.len() by {
                            if t < path.len() {
                                assert(path2[t] == path[t]);
                            }
                        }
                        assert forall|t: int| #![trigger path2[t]] 0 <= t < path2.len() - 1 implies steps_to::<D, V, S, G>(
                            nb,
                            item_pos,
                            path2[t],
                            path2[t + 1],
                        ) by {
                            assert(path2[t] == path[t]);
                            if t < path.len() - 1 {
                                assert(path[t] == path2[t]);
                                assert(path2[t + 1] == path[t + 1]);
                            }
                        }
                    }
                    lemma_insert_path_grows::<D, V, S, G>(nb, nc, item_pos, path2);
                    lemma_reaches_from_path::<T, D, V, S, G>(nc, items@, bi as int, item_pos, path2);
                    assert forall|x: int, k: int|
                        0 <= x < nc.len() && nc[x].is_leaf && 0 <= k < nc[x].nitems implies #[trigger] reaches::<T, D, V, S, G>(
                        nc,
                        items@[slot(lc, x, k) as int],
                        x,
                    ) by {
                        if x == child@ && k == m {
                            assert(slot(lc, x, k) == bi);
                        } else {
                            assert(nc[x].items == BUCKET_SIZE * x);
                            assert(nb[x].is_leaf && k < nb[x].nitems);
                            assert(BUCKET_SIZE * x + k != BUCKET_SIZE * child@ + m) by (nonlinear_arith)
                                requires
                                    0 <= k < BUCKET_SIZE,
                                    0 <= m < BUCKET_SIZE,
                                    x != child@ || k != m,
                                    0 <= x,
                                    0 <= child@,
                            ;
                            assert(slot(lc, x, k) == slot(lb, x, k));
                            assert(reaches::<T, D, V, S, G>(nb, items@[slot(lb, x, k) as int], x));
                            lemma_reaches_grows::<T, D, V, S, G>(nb, nc, items@[slot(lb, x, k) as int], x);
                        }
                    }
                    assert forall|k: int| i + 1 <= k < BUCKET_SIZE implies #[trigger] reaches::<T, D, V, S, G>(
                        nc,
                        items@[b[k] as int],
                        j as int,
                    ) by {
                        lemma_reaches_grows::<T, D, V, S, G>(na, nc, items@[b[k] as int], j as int);
                    }
                }
                broadcast use group_to_multiset_ensures;
                broadcast use vstd::multiset::group_multiset_axioms;

                let nc = self.nodes@;
                let lc = self.leaf_items@;
                assert(child@ != j);
                assert forall|k: int| 0 <= k < BUCKET_SIZE implies #[trigger] slot(lc, j as int, k) == b[k] by {
                    assert(slot(lb, j as int, k) == b[k]);
                    assert(BUCKET_SIZE * j + k != BUCKET_SIZE * child@ + nb[child@ as int].nitems) by (nonlinear_arith)
                        requires
                            0 <= k < BUCKET_SIZE,
                            0 <= nb[child@ as int].nitems < BUCKET_SIZE,
                            j != child@,
                            0 <= j,
                            0 <= child@,
                    ;
                }
                assert forall|q: int|
                    0 <= q < 4 implies #[trigger] nc[j as int].children[q]@ == 0 || (first
                        <= nc[j as int].children[q]@ < nc.len() && nc[nc[j as int].children[q]@ as int].is_leaf
                        && nc[nc[j as int].children[q]@ as int].nitems <= i + 1) by {
                    assert(nb[j as int].children[q]@ == 0 || (first <= nb[j as int].children[q]@ < nb.len()
                        && nb[nb[j as int].children[q]@ as int].is_leaf
                        && nb[nb[j as int].children[q]@ as int].nitems <= i));
                }
                assert(b.subrange(i as int, BUCKET_SIZE as int) =~= b.subrange(i + 1, BUCKET_SIZE as int).insert(0, b[i as int]));
                assert(seq![b[i as int]] + b.subrange(i + 1, BUCKET_SIZE as int) =~= b.subrange(i as int, BUCKET_SIZE as int));
                vstd::seq_lib::lemma_multiset_commutative(seq![b[i as int]], b.subrange(i + 1, BUCKET_SIZE as int));
                assert(seq![b[i as int]] =~= Seq::<usize>::empty().push(b[i as int]));
                Seq::<usize>::empty().to_multiset_ensures();
                assert(seq![b[i as int]].to_multiset() =~= Multiset::singleton(b[i as int]));
                assert(self.contents().add(b.subrange(i + 1, BUCKET_SIZE as int).to_multiset()) =~= c0);
                assert(leaves_below(nc, lc, items@.len())) by {
                    assert forall|x: int, k: int|
                        0 <= x < nc.len() && nc[x].is_leaf && 0 <= k < nc[x].nitems implies #[trigger] slot(
                        lc,
                        x,
                        k,
                    ) < items@.len() by {
                        if x == child@ && k == nb[child@ as int].nitems {
                            assert(slot(lc, x, k) == item_idx@);
                        } else {
                            assert(nc[x].items == BUCKET_SIZE * x);
                            assert(nb[x].is_leaf && k < nb[x].nitems);
                            assert(slot(lb, x, k) < items@.len());
                            assert(BUCKET_SIZE * x + k != BUCKET_SIZE * child@ + nb[child@ as int].nitems) by (nonlinear_arith)
                                requires
                                    0 <= k < BUCKET_SIZE,
                                    0 <= nb[child@ as int].nitems < BUCKET_SIZE,
                                    x != child@ || k != nb[child@ as int].nitems,
                                    0 <= x,
                                    0 <= child@,
                            ;
                        }
                    }
                }
            }
            i = i + 1;
        }
        proof {
            assert(b.subrange(BUCKET_SIZE as int, BUCKET_SIZE as int) =~= Seq::<usize>::empty());
            assert(Seq::<usize>::empty().to_multiset() =~= Multiset::empty()) by {
                broadcast use group_to_multiset_ensures;
            }
            assert(self.contents().add(Multiset::empty()) =~= self.contents()) by {
                broadcast use vstd::multiset::group_multiset_axioms;
            }
        }
    }

    /// Inserts item `index` (its position read from `items`), starting the
    /// descent at `node_index`, or at the root when none is given; in that
    /// case an item reported farther than the tree's radius from the root
    /// centre is not inserted (`Outside`). A descent that has not placed the
    /// item after `INSERT_LIMIT` steps stops with `TooDeep`, leaving the item
    /// out, where splitting would otherwise go on without end: by then the
    /// tree has a chain of more than `INSERT_LIMIT / 2` nodes below the
    /// start, and either more than `INSERT_LIMIT / 4` of them were already in
    /// the tree, or `BUCKET_SIZE` stored items were reported, together with
    /// the new one, in the same quadrant at each of more than
    /// `INSERT_LIMIT / 4` successive nodes (as items at one position are). An insertion from the root that was placed lands
    /// at the end of its insertion path, and insertions from the root keep
    /// every held item where its insertion leads (`placed`). Each node the
    /// descent creates is centred by `G::child_center` in its quadrant of its
    /// parent, whose half-size is the root's halved once per level
    /// (`centred`, when `G::half` gives one result per input).
    #[verifier::spinoff_prover]
    #[verifier::rlimit(50)]
    pub fn insert_item<G: Geometry<V, S>>(
        &mut self,
        node_index: Option<Idx<Node<D, V>>>,
        items: &Vec<T>,
        index: usize,
    ) -> (r: InsertOutcome)
        requires
            old(self).wf(),
            old(self).items_below(items@.len()),
            index < items@.len(),
            node_index matches Some(x) ==> x@ < old(self).nodes@.len(),
        ensures
            final(self).wf(),
            final(self).items_below(items@.len()),
            final(self).rad == old(self).rad,
            final(self).nodes@[0].pos == old(self).nodes@[0].pos,
            r == InsertOutcome::Inserted ==> final(self).contents() =~= old(self).contents().insert(index),
            r != InsertOutcome::Inserted ==> final(self).contents() =~= old(self).contents(),
            r == InsertOutcome::Outside ==> node_index is None && final(self).nodes@ == old(self).nodes@
                && final(self).leaf_items@ == old(self).leaf_items@,
            r == InsertOutcome::Outside ==> reported_far::<T, V, S, G>(
                items@[index as int],
                old(self).nodes@[0].pos,
                old(self).rad,
                true,
            ),
            node_index is None && r != InsertOutcome::Outside ==> reported_far::<T, V, S, G>(
                items@[index as int],
                old(self).nodes@[0].pos,
                old(self).rad,
                false,
            ),
            grows(old(self).nodes@, final(self).nodes@),
            connected(old(self).nodes@) ==> connected(final(self).nodes@),
            node_index is None && halving_fixed::<V, S, G>() && centred::<D, V, S, G>(old(self).nodes@, old(self).rad)
                ==> centred::<D, V, S, G>(final(self).nodes@, final(self).rad),
            node_index is None && positions_fixed(items@) && placed::<T, D, V, S, G>(
                old(self).nodes@,
                old(self).leaf_items@,
                items@,
            ) ==> placed::<T, D, V, S, G>(final(self).nodes@, final(self).leaf_items@, items@),
            node_index is None && r == InsertOutcome::Inserted ==> exists|p: V, path: Seq<int>|
                #![trigger call_ensures(T::get_pos, (&items@[index as int],), p), insert_path::<D, V, S, G>(final(self).nodes@, p, path)]
                call_ensures(T::get_pos, (&items@[index as int],), p) && insert_path::<D, V, S, G>(final(self).nodes@, p, path)
                    && final(self).nodes@[path.last()].is_leaf && slot(
                    final(self).leaf_items@,
                    path.last(),
                    final(self).nodes@[path.last()].nitems - 1,
                ) == index,
            r == InsertOutcome::TooDeep ==> exists|path: Seq<int>|
                #![trigger is_descent(final(self).nodes@, path)]
                is_descent(final(self).nodes@, path) && path.len() > INSERT_LIMIT / 2 && path[0] == match node_index {
                    Some(x) => x@ as int,
                    None => 0,
                },
            r == InsertOutcome::TooDeep ==> (exists|path: Seq<int>|
                #![trigger is_descent(final(self).nodes@, path)]
                is_descent(final(self).nodes@, path) && path.len() > INSERT_LIMIT / 4 && path[0] == (match node_index {
                    Some(x) => x@ as int,
                    None => 0,
                }) && forall|t: int| 0 <= t < path.len() ==> #[trigger] path[t] < old(self).nodes@.len()) || (exists|
                group: Seq<usize>,
                gpath: Seq<int>,
            |
                #![trigger step_together::<T, D, V, S, G>(final(self).nodes@, items@, group, items@[index as int], gpath, gpath.len() - 1)]
                group.len() == BUCKET_SIZE && (forall|k: int|
                    0 <= k < group.len() ==> #[trigger] old(self).contents().count(group[k]) > 0) && gpath.len()
                    > INSERT_LIMIT / 4 && step_together::<T, D, V, S, G>(final(self).nodes@, items@, group, items@[index as int], gpath, gpath.len() - 1)),
            ({
                let start = match node_index {
                    Some(x) => x@ as int,
                    None => 0,
                };
                old(self).nodes@[start].is_leaf && old(self).nodes@[start].nitems < BUCKET_SIZE
            }) ==> r == InsertOutcome::Inserted || (node_index is None && r == InsertOutcome::Outside),
    {
        let item = idx::<T>(index);
        let item_pos = items[index].get_pos();
        let mut node = match node_index {
            Some(x) => x,
            None => {
                let center = self.get_pos();
                if G::farther_than(&item_pos, &center, &self.rad) {
                    return InsertOutcome::Outside;
                }
                assert(reported_far::<T, V, S, G>(items@[index as int], old(self).nodes@[0].pos, old(self).rad, false));
                self.root
            },
        };
        let mut rad = self.rad;
        let ghost laid = node_index is None && halving_fixed::<V, S, G>() && centred::<D, V, S, G>(self.nodes@, self.rad);
        let ghost mut sz: Seq<S> = if laid {
            choose|sizes: Seq<S>| #![trigger sized::<D, V, S, G>(self.nodes@, sizes)] sized::<D, V, S, G>(self.nodes@, sizes) && sizes[0] == self.rad
        } else {
            Seq::empty()
        };
        let mut count: usize = 0;
        let ghost c0 = self.contents();
        let ghost pos0 = self.nodes@[0].pos;
        let ghost start = node@;
        let ghost nodes0 = self.nodes@;
        let ghost mut path: Seq<int> = seq![start as int];
        let ghost mut split_seen = false;
        let ghost mut a: int = 0;
        let ghost mut group: Seq<usize> = Seq::empty();
        let ghost mut gpath: Seq<int> = Seq::empty();
        let ghost track = node_index is None && positions_fixed(items@) && placed::<T, D, V, S, G>(
            nodes0,
            self.leaf_items@,
            items@,
        );
        assert(start == match node_index {
            Some(x) => x@,
            None => 0,
        });
        loop
            invariant
                node_index is None ==> reported_far::<T, V, S, G>(
                    items@[index as int],
                    old(self).nodes@[0].pos,
                    old(self).rad,
                    false,
                ),
                is_descent(self.nodes@, path),
                connected(nodes0) ==> connected(self.nodes@),
                laid ==> halving_fixed::<V, S, G>() && sized::<D, V, S, G>(self.nodes@, sz) && sz[node@ as int] == rad
                    && sz[0] == old(self).rad,
                laid == (node_index is None && halving_fixed::<V, S, G>() && centred::<D, V, S, G>(
                    old(self).nodes@,
                    old(self).rad,
                )),
                node_index is None ==> insert_path::<D, V, S, G>(self.nodes@, item_pos, path),
                track ==> node_index is None && positions_fixed(items@),
                track ==> placed::<T, D, V, S, G>(self.nodes@, self.leaf_items@, items@),
                (node_index is None && positions_fixed(items@) && placed::<T, D, V, S, G>(
                    old(self).nodes@,
                    old(self).leaf_items@,
                    items@,
                )) ==> track,
                call_ensures(T::get_pos, (&items@[index as int],), item_pos),
                grows(nodes0, self.nodes@),
                path[0] == start,
                path.last() == node@,
                count <= 2 * (path.len() - 1) + (if self.nodes@[node@ as int].is_leaf {
                    0int
                } else {
                    1int
                }),
                self.wf(),
                self.items_below(items@.len()),
                self.rad == old(self).rad,
                self.nodes@[0].pos == pos0,
                pos0 == old(self).nodes@[0].pos,
                self.contents() =~= c0,
                c0 == old(self).contents(),
                index < items@.len(),
                item@ == index,
                node@ < self.nodes@.len(),
                count <= INSERT_LIMIT,
                nodes0 == old(self).nodes@,
                start == match node_index {
                    Some(x) => x@,
                    None => 0,
                },
                count == 0 ==> node@ == start && self.nodes@ == nodes0,
                count > 0 ==> !(nodes0[start as int].is_leaf && nodes0[start as int].nitems < BUCKET_SIZE),
                !split_seen ==> count == path.len() - 1,
                !split_seen ==> forall|t: int| 0 <= t < path.len() - 1 ==> #[trigger] path[t] < nodes0.len(),
                !split_seen ==> forall|x: int|
                    nodes0.len() <= x < self.nodes@.len() ==> #[trigger] self.nodes@[x].nitems == 0
                        && self.nodes@[x].is_leaf,
                split_seen ==> 0 <= a < path.len() && forall|t: int| 0 <= t <= a ==> #[trigger] path[t] < nodes0.len(),
                split_seen ==> count <= a + 2 * (gpath.len() - 1) + (if self.nodes@[node@ as int].is_leaf {
                    0int
                } else {
                    1int
                }),
                split_seen ==> gpath.len() >= 1 && gpath.last() == node@ && forall|t: int|
                    0 <= t < gpath.len() ==> 0 <= #[trigger] gpath[t] < self.nodes@.len(),
                split_seen ==> group.len() == BUCKET_SIZE && forall|k: int| 0 <= k < group.len() ==> #[trigger] c0.count(group[k]) > 0,
                split_seen ==> step_together::<T, D, V, S, G>(self.nodes@, items@, group, items@[index as int], gpath, gpath.len() - 2),
                split_seen && !(self.nodes@[node@ as int].is_leaf && self.nodes@[node@ as int].nitems < BUCKET_SIZE)
                    ==> step_together::<T, D, V, S, G>(self.nodes@, items@, group, items@[index as int], gpath, gpath.len() - 1),
                split_seen && self.nodes@[node@ as int].is_leaf && self.nodes@[node@ as int].nitems == BUCKET_SIZE
                    ==> bucket(self.nodes@, self.leaf_items@, node@ as int).to_multiset() =~= group.to_multiset(),
                split_seen && !self.nodes@[node@ as int].is_leaf ==> forall|q: int|
                    0 <= q < 4 && #[trigger] self.nodes@[node@ as int].children[q]@ != 0 ==> child_ok::<T, D, V, S, G>(
                        self.nodes@,
                        self.leaf_items@,
                        items@,
                        node@ as int,
                        self.nodes@[node@ as int].children[q]@ as int,
                        group.to_multiset(),
                    ),
            decreases INSERT_LIMIT - count,
        {
            if count >= INSERT_LIMIT {
                assert(path.len() > INSERT_LIMIT / 2);
                proof {
                    lemma_too_deep::<T, D, V, S, G>(
                        self.nodes@,
                        path,
                        nodes0.len() as int,
                        start as int,
                        split_seen,
                        a,
                        count as int,
                        gpath,
                        group,
                        items@,
                        index as int,
                        c0,
                    );
                }
                return InsertOutcome::TooDeep;
            }
            count = count + 1;
            let j = node.as_usize();
            let is_leaf = self.nodes[j].is_leaf;
            if is_leaf {
                let len = self.nodes[j].nitems;
                assert(self.nodes@[j as int].items == BUCKET_SIZE * j);
                if len < BUCKET_SIZE {
                    let ghost nb = self.nodes@;
                    let ghost lb = self.leaf_items@;
                    self.insert_into_leaf(node, item);
                    proof {
                        if laid {
                            lemma_sized_insert::<T, D, V, S, G>(nb, lb, self.nodes@, sz);
                        }
                        if connected(nodes0) {
                            lemma_connected_grows(nb, self.nodes@);
                        }
                        lemma_grows_trans(nodes0, nb, self.nodes@);
                        if node_index is None {
                            lemma_insert_path_grows::<D, V, S, G>(nb, self.nodes@, item_pos, path);
                            assert(self.nodes@[j as int].nitems == len + 1);
                            assert(slot(self.leaf_items@, j as int, len as int) == index);
                        }
                        if track {
                            lemma_leaf_insert_placed::<T, D, V, S, G>(
                                nb,
                                lb,
                                self.nodes@,
                                self.leaf_items@,
                                items@,
                                j as int,
                                len as int,
                                item,
                                item_pos,
                                path,
                            );
                        }
                        if j == 0 {
                            assert(self.nodes@[0].pos == pos0);
                        }
                        lemma_leaf_insert_below(nb, lb, self.nodes@, self.leaf_items@, j as int, len as int, item, items@.len());
                    }
                    return InsertOutcome::Inserted;
                } else {
                    let ghost na = self.nodes@;
                    let ghost la_s = self.leaf_items@;
                    // the half-size of the children the split creates
                    let child_rad = G::half(&rad);
                    self.split::<G>(node, &rad, items);
                    proof {
                        if laid {
                            assert(sized::<D, V, S, G>(self.nodes@, extend_sizes(sz, self.nodes@.len() as int, child_rad)));
                            sz = extend_sizes(sz, self.nodes@.len() as int, child_rad);
                        }
                        if !split_seen {
                            let bk = bucket(na, la_s, j as int);
                            assert forall|k: int| 0 <= k < bk.len() implies #[trigger] c0.count(bk[k]) > 0 by {
                                lemma_bucket_in_contents(na, la_s, j as int, k);
                            }
                            assert(node@ < nodes0.len());
                            a = path.len() - 1;
                            group = bk;
                            gpath = seq![j as int];
                            split_seen = true;
                        } else {
                            lemma_step_together_grows::<T, D, V, S, G>(
                                na,
                                self.nodes@,
                                items@,
                                group,
                                items@[index as int],
                                gpath,
                                gpath.len() - 1,
                            );
                            lemma_step_together_grows::<T, D, V, S, G>(
                                na,
                                self.nodes@,
                                items@,
                                group,
                                items@[index as int],
                                gpath,
                                gpath.len() - 2,
                            );
                        }
                        if node_index is None {
                            lemma_insert_path_grows::<D, V, S, G>(na, self.nodes@, item_pos, path);
                        }
                        lemma_chain_grows(na, self.nodes@, path);
                        lemma_grows_trans(nodes0, na, self.nodes@);
                    }
                }
            }
            if !is_leaf {
                let ghost na = self.nodes@;
                let ghost la = self.leaf_items@;
                let ghost from = node@ as int;
                node = self.descend::<G>(&rad, node, &item_pos);
                proof {
                    if split_seen {
                        lemma_group_descends::<T, D, V, S, G>(
                            na,
                            la,
                            self.nodes@,
                            self.leaf_items@,
                            items@,
                            group,
                            items@[index as int],
                            item_pos,
                            gpath,
                            node@ as int,
                        );
                        gpath = gpath.push(node@ as int);
                        assert(self.nodes@[node@ as int].items == BUCKET_SIZE * node@);
                    }
                    if track {
                        lemma_placed_frame::<T, D, V, S, G>(na, la, self.nodes@, self.leaf_items@, items@);
                    }
                    lemma_chain_grows(na, self.nodes@, path);
                    lemma_grows_trans(nodes0, na, self.nodes@);
                    let p2 = path.push(node@ as int);
                    if node_index is None {
                        lemma_insert_path_grows::<D, V, S, G>(na, self.nodes@, item_pos, path);
                        assert(insert_path::<D, V, S, G>(self.nodes@, item_pos, p2)) by {
                            assert forall|t: int| 0 <= t < p2.len() implies 0 <= #[trigger] p2[t] < self.nodes@.len() by {
                                if t < path.len() {
                                    assert(p2[t] == path[t]);
                                }
                            }
                            assert forall|t: int| #![trigger p2[t]] 0 <= t < p2.len() - 1 implies steps_to::<D, V, S, G>(
                                self.nodes@,
                                item_pos,
                                p2[t],
                                p2[t + 1],
                            ) by {
                                assert(p2[t] == path[t]);
                                if t < path.len() - 1 {
                                    assert(path[t] == p2[t]);
                                    assert(p2[t + 1] == path[t + 1]);
                                } else {
                                    assert(p2[t] == from);
                                }
                            }
                        }
                    }
                    assert(is_descent(self.nodes@, p2)) by {
                        assert forall|t: int| 0 <= t < p2.len() implies 0 <= #[trigger] p2[t] < self.nodes@.len() by {
                            if t < path.len() {
                                assert(p2[t] == path[t]);
                            }
                        }
                        assert forall|t: int| #![trigger p2[t]] 0 <= t < p2.len() - 1 implies !self.nodes@[p2[t]].is_leaf
                            && exists|q: int|
                            0 <= q < 4 && #[trigger] self.nodes@[p2[t]].children[q]@ == p2[t + 1] && p2[t + 1] != 0 by {
                            assert(p2[t] == path[t]);
                            if t < path.len() - 1 {
                                assert(path[t] == p2[t]);
                                assert(p2[t + 1] == path[t + 1]);
                            } else {
                                assert(p2[t] == from);
                                assert(!na[from].is_leaf);
                                assert(!self.nodes@[from].is_leaf);
                            }
                        }
                    }
                    path = p2;
                }
                let ghost r0 = rad;
                rad = G::half(&rad);
                proof {
                    if laid {
                        lemma_sized_descend::<D, V, S, G>(na, self.nodes@, sz, from, node@ as int, r0, rad);
                        sz = extend_sizes(sz, self.nodes@.len() as int, rad);
                    }
                }
            }
        }
    }

    /// Looks for an item at exactly `pos`, descending by quadrant (points on a
    /// dividing line go to the greater side) and scanning the leaf reached;
    /// returns the last match in that leaf's bucket.
    pub fn find_item<G: Geometry<V, S>>(&self, items: &Vec<T>, pos: V) -> (r: Option<Idx<T>>)
        requires
            self.wf(),
            self.items_below(items@.len()),
        ensures
            r matches Some(x) ==> x@ < items@.len() && self.contents().count(x@) > 0,
            search_result::<T, D, V, S, G>(self.nodes@, self.leaf_items@, items@, pos, index_of(r)),
    {
        let mut node = self.root;
        let mut x: Option<Idx<T>> = None;
        let ghost mut path: Seq<int> = seq![0int];
        loop
            invariant_except_break
                x is None,
            invariant
                self.wf(),
                self.items_below(items@.len()),
                node@ < self.nodes@.len(),
                search_path::<D, V, S, G>(self.nodes@, pos, path),
                path.last() == node@,
            ensures
                x matches Some(y) ==> y@ < items@.len() && self.contents().count(y@) > 0,
                search_path::<D, V, S, G>(self.nodes@, pos, path),
                path.last() == node@,
                node@ < self.nodes@.len(),
                search_end::<T, D, V, S, G>(self.nodes@, self.leaf_items@, items@, pos, node@ as int, index_of(x)),
            decreases self.nodes@.len() - node@,
        {
            let j = node.as_usize();
            let is_leaf = self.nodes[j].is_leaf;
            if is_leaf {
                let nitems = self.nodes[j].nitems;
                let start = self.nodes[j].items;
                let mut i: usize = 0;
                let ghost mut last: int = 0;
                while i < nitems
                    invariant
                        self.wf(),
                        self.items_below(items@.len()),
                        j < self.nodes@.len(),
                        self.nodes@[j as int].is_leaf,
                        nitems == self.nodes@[j as int].nitems,
                        start == BUCKET_SIZE * j,
                        0 <= i <= nitems,
                        x matches Some(y) ==> y@ < items@.len() && self.contents().count(y@) > 0,
                        x matches Some(y) ==> {
                            &&& 0 <= last < i
                            &&& slot(self.leaf_items@, j as int, last) == y@
                            &&& reported_same::<T, V, S, G>(items@[y@ as int], pos, true)
                            &&& forall|k2: int|
                                last < k2 < i ==> #[trigger] reported_same::<T, V, S, G>(
                                    items@[slot(self.leaf_items@, j as int, k2) as int],
                                    pos,
                                    false,
                                )
                        },
                        x is None ==> forall|k: int|
                            0 <= k < i ==> #[trigger] reported_same::<T, V, S, G>(
                                items@[slot(self.leaf_items@, j as int, k) as int],
                                pos,
                                false,
                            ),
                    decreases nitems - i,
                {
                    assert(self.nodes@[j as int].items == BUCKET_SIZE * j);
                    assert(start + i < self.leaf_items@.len()) by (nonlinear_arith)
                        requires
                            start == BUCKET_SIZE * j,
                            i < nitems <= BUCKET_SIZE,
                            j < self.nodes@.len(),
                            self.leaf_items@.len() == BUCKET_SIZE * self.nodes@.len(),
                    ;
                    let id = self.leaf_items[start + i];
                    proof {
                        assert(slot(self.leaf_items@, j as int, i as int) == id@);
                        assert(id@ < items@.len());
                        lemma_bucket_in_contents(self.nodes@, self.leaf_items@, j as int, i as int);
                    }
                    let p = items[id.as_usize()].get_pos();
                    let same = G::same(&p, &pos);
                    proof {
                        assert(reported_same::<T, V, S, G>(items@[id@ as int], pos, same));
                    }
                    if same {
                        x = Some(id);
                        proof {
                            last = i as int;
                        }
                    }
                    i = i + 1;
                }
                proof {
                    let leaf = self.leaf_items@;
                    match x {
                        Some(y) => {
                            assert(slot(leaf, j as int, last) == y@);
                            assert(scan_result::<T, D, V, S, G>(self.nodes@, leaf, items@, pos, j as int, index_of(x)));
                        },
                        None => {},
                    }
                }
                break;
            } else {
                let node_pos = self.nodes[j].pos;
                let lx = G::less_x(&pos, &node_pos);
                let ly = G::less_y(&pos, &node_pos);
                let quadrant: usize = if lx {
                    if ly {
                        0
                    } else {
                        1
                    }
                } else {
                    if ly {
                        2
                    } else {
                        3
                    }
                };
                proof {
                    assert(points_to::<D, V, S, G>(self.nodes@, pos, j as int, quadrant as int));
                }
                let child = self.nodes[j].children[quadrant];
                if !child.is_zero() {
                    assert(self.nodes@[j as int].children[quadrant as int]@ == 0 || (j
                        < self.nodes@[j as int].children[quadrant as int]@ < self.nodes@.len()));
                    proof {
                        let p0 = path;
                        path = path.push(child@ as int);
                        assert(descends_to::<D, V, S, G>(self.nodes@, pos, j as int, child@ as int));
                        assert forall|t: int| #![trigger path[t]] 0 <= t < path.len() - 1 implies descends_to::<D, V, S, G>(
                            self.nodes@,
                            pos,
                            path[t],
                            path[t + 1],
                        ) by {
                            if t < p0.len() - 1 {
                                assert(path[t] == p0[t]);
                                assert(path[t + 1] == p0[t + 1]);
                            }
                        }
                    }
                    node = child;
                } else {
                    break;
                }
            }
        }
        proof {
            assert(search_path::<D, V, S, G>(self.nodes@, pos, path));
        }
        x
    }

    /// Recomputes the summary data of every node, from the last node to the
    /// first: since every child comes after its parent, children are always
    /// summarised before their parent.
    pub fn update_bottom_up(&mut self, items: &Vec<T>, context: &D::Context)
        requires
            old(self).wf(),
        ensures
            final(self).wf(),
            same_shape(old(self).nodes@, final(self).nodes@),
            final(self).leaf_items == old(self).leaf_items,
            final(self).root == old(self).root,
            final(self).rad == old(self).rad,
            final(self).contents() =~= old(self).contents(),
            forall|m: nat| #[trigger] old(self).items_below(m) ==> final(self).items_below(m),
            forall|i: int|
                0 <= i < old(self).nodes@.len() ==> #[trigger] summarised(
                    old(self).nodes@,
                    final(self).nodes@,
                    &old(self).leaf_items,
                    items,
                    context,
                    i,
                ),
    {
        let n = self.nodes.len();
        let ghost n0 = self.nodes@;
        let mut i = n;
        while i > 0
            invariant
                0 <= i <= n,
                n == old(self).nodes@.len(),
                n0 == old(self).nodes@,
                same_shape(old(self).nodes@, self.nodes@),
                self.leaf_items == old(self).leaf_items,
                self.root == old(self).root,
                self.rad == old(self).rad,
                forall|y: int| 0 <= y < i ==> #[trigger] self.nodes@[y] == n0[y],
                forall|x: int|
                    i <= x < n ==> #[trigger] summarised(
                        n0,
                        self.nodes@,
                        &old(self).leaf_items,
                        items,
                        context,
                        x,
                    ),
            decreases i,
        {
            i = i - 1;
            let node_idx = idx::<Node<D, V>>(i);
            let ghost seen = self.nodes;
            proof {
                assert(self.nodes@ =~= nodes_at_step(n0, self.nodes@, i as int));
            }
            let value = if self.nodes[i].is_leaf {
                D::update_leaf(node_idx, &self.nodes, &self.leaf_items, items, context)
            } else {
                D::update_internal(node_idx, &self.nodes)
            };
            let ghost before = self.nodes@;
            set_data(&mut self.nodes[i], value);
            assert forall|x: int| 0 <= x < n implies #[trigger] self.nodes@[x] == (Node {
                data: self.nodes@[x].data,
                ..old(self).nodes@[x]
            }) by {
                if x != i {
                    assert(self.nodes@[x] == before[x]);
                }
            }
            proof {
                let cur = self.nodes@;
                assert(nodes_at_step(n0, cur, i as int) =~= seen@);
                assert(cur[i as int].data == value);
                if n0[i as int].is_leaf {
                    assert(call_ensures(D::update_leaf, (node_idx, &seen, &old(self).leaf_items, items, context), cur[i as int].data));
                    assert(leaf_summarised(n0, cur, &old(self).leaf_items, items, context, i as int));
                } else {
                    assert(call_ensures(D::update_internal, (node_idx, &seen), cur[i as int].data));
                    assert(internal_summarised::<T, D, V>(n0, cur, i as int));
                }
                assert forall|x: int| i < x < n implies #[trigger] summarised(
                    n0,
                    cur,
                    &old(self).leaf_items,
                    items,
                    context,
                    x,
                ) by {
                    assert(summarised(n0, before, &old(self).leaf_items, items, context, x));
                    assert(nodes_at_step(n0, cur, x) =~= nodes_at_step(n0, before, x));
                    assert(cur[x] == before[x]);
                }
                assert forall|y: int| 0 <= y < i implies #[trigger] self.nodes@[y] == n0[y] by {
                    assert(self.nodes@[y] == before[y]);
                }
            }
        }
        proof {
            let n0 = old(self).nodes@;
            let n1 = self.nodes@;
            let l = self.leaf_items@;
            assert forall|x: int| 0 <= x < n implies #[trigger] held(n0, l, x) == held(n1, l, x) by {
                assert(n1[x] == (Node { data: n1[x].data, ..n0[x] }));
                assert(bucket(n0, l, x) =~= bucket(n1, l, x));
            }
            lemma_held_upto_frame(n0, l, n1, l, n as nat);
            assert forall|m: nat| #[trigger] leaves_below(n0, l, m) implies leaves_below(n1, l, m) by {
                assert forall|x: int, k: int|
                    0 <= x < n1.len() && n1[x].is_leaf && 0 <= k < n1[x].nitems implies #[trigger] slot(
                    l,
                    x,
                    k,
                ) < m by {
                    assert(n1[x] == (Node { data: n1[x].data, ..n0[x] }));
                }
            }
            assert(tree_wf(n1, l)) by {
                assert forall|x: int| 0 <= x < n1.len() implies #[trigger] n1[x].items == BUCKET_SIZE
                    * x && n1[x].nitems <= BUCKET_SIZE by {
                    assert(n1[x] == (Node { data: n1[x].data, ..n0[x] }));
                    assert(n0[x].items == BUCKET_SIZE * x);
                }
                assert forall|x: int, q: int|
                    0 <= x < n1.len() && 0 <= q < 4 implies #[trigger] n1[x].children[q]@ == 0 || (x
                    < n1[x].children[q]@ < n1.len()) by {
                    assert(n1[x] == (Node { data: n1[x].data, ..n0[x] }));
                    assert(n0[x].children[q]@ == 0 || (x < n0[x].children[q]@ < n0.len()));
                }
                assert forall|x: int, q: int|
                    0 <= x < n1.len() && 0 <= q < 4 && n1[x].is_leaf implies #[trigger] n1[x].children[q]@
                    == 0 by {
                    assert(n1[x] == (Node { data: n1[x].data, ..n0[x] }));
                    assert(n0[x].is_leaf ==> n0[x].children[q]@ == 0);
                }
            }
        }
    }
}

/// An item in the bucket of a leaf is held by the tree.
proof fn lemma_bucket_in_contents<T, D, V>(nodes: Seq<Node<D, V>>, leaf: Seq<Idx<T>>, j: int, i: int)
    requires
        0 <= j < nodes.len(),
        nodes[j].is_leaf,
        0 <= i < nodes[j].nitems,
    ensures
        held_upto(nodes, leaf, nodes.len()).count(slot(leaf, j, i)) > 0,
{
    broadcast use group_to_multiset_ensures;

    assert(bucket(nodes, leaf, j)[i] == slot(leaf, j, i));
    assert(bucket(nodes, leaf, j).contains(slot(leaf, j, i)));
    lemma_held_upto_grows(nodes, leaf, j, slot(leaf, j, i), nodes.len());
}

/// What a node below `k` holds is held by the nodes below `k`.
proof fn lemma_held_upto_grows<T, D, V>(nodes: Seq<Node<D, V>>, leaf: Seq<Idx<T>>, j: int, v: usize, k: nat)
    requires
        0 <= j < k <= nodes.len(),
        held(nodes, leaf, j).count(v) > 0,
    ensures
        held_upto(nodes, leaf, k).count(v) > 0,
    decreases k,
{
    broadcast use vstd::multiset::group_multiset_axioms;

    if j < k - 1 {
        lemma_held_upto_grows(nodes, leaf, j, v, (k - 1) as nat);
    }
}

/// In a well-formed tree every child comes after its parent, so a pass from
/// the last node to the first meets every child before its parent.
pub proof fn law_children_after_parent<T, D, V>(nodes: Seq<Node<D, V>>, leaf: Seq<Idx<T>>, i: int, q: int)
    requires
        tree_wf(nodes, leaf),
        0 <= i < nodes.len(),
        0 <= q < 4,
        nodes[i].children[q]@ != 0,
    ensures
        i < nodes[i].children[q]@ < nodes.len(),
{
}

} // verus!
