//! The topology of the simulated board: points (free track joints or points
//! owned by a via, footprint or polygon), edges between points, polygons, vias
//! and footprints. Positions and lengths are type parameters (`V` a vector, `S`
//! a scalar): this module reads and rewires indices and never computes with them.
use crate::tree::QTreeItem;
use vstd::prelude::*;

verus! {

/// What owns a point that moves with something else.
#[derive(Clone, Copy, Debug, PartialEq, Eq)]
pub enum ParentIndex {
    Via(usize),
    Footprint(usize),
    Polygon(usize),
}

/// A point either moves on its own (a track joint) or is carried by a parent.
#[derive(Clone, Copy, Debug)]
pub enum PointType<V> {
    Free { pos_prev: V, v: V, neighbors: u32 },
    Child { local_pos: V, parent: ParentIndex, has_edge: bool },
}

/// A point of the simulation.
#[derive(Clone, Copy, Debug)]
pub struct Point<V, S> {
    pub pos: V,
    pub rad: S,
    pub net: usize,
    pub layer: usize,
    pub point_type: PointType<V>,
}

/// Whether two parents are the same.
pub fn same_parent(a: ParentIndex, b: ParentIndex) -> (r: bool)
    ensures
        r == (a == b),
{
    match (a, b) {
        (ParentIndex::Via(x), ParentIndex::Via(y)) => x == y,
        (ParentIndex::Footprint(x), ParentIndex::Footprint(y)) => x == y,
        (ParentIndex::Polygon(x), ParentIndex::Polygon(y)) => x == y,
        _ => false,
    }
}

/// The parent that carries `p`, or `default` when it moves on its own.
pub open spec fn parent_or<V, S>(p: Point<V, S>, default: ParentIndex) -> ParentIndex {
    match p.point_type {
        PointType::Child { parent, .. } => parent,
        PointType::Free { .. } => default,
    }
}

/// `q` is carried by `parent`.
pub open spec fn carried_by<V, S>(q: Point<V, S>, parent: ParentIndex) -> bool {
    match q.point_type {
        PointType::Child { parent: p, .. } => p == parent,
        PointType::Free { .. } => false,
    }
}

/// The edge-collision filter: point `j` is a candidate against the edge
/// from `i0` to `i1` when it is neither end, is not carried by the parent of
/// an end (an end that moves on its own counts as carried by the via, resp.
/// the footprint, of index `usize::MAX`), and is on another net than the
/// edge's start or, with self collision on, as wide as the edge.
pub open spec fn spec_edge_candidate<V, S>(
    points: Seq<Point<V, S>>,
    i0: int,
    i1: int,
    j: int,
    same_width: bool,
    self_collision: bool,
) -> bool {
    &&& j != i0
    &&& j != i1
    &&& !carried_by(points[j], parent_or(points[i0], ParentIndex::Via(usize::MAX)))
    &&& !carried_by(points[j], parent_or(points[i1], ParentIndex::Footprint(usize::MAX)))
    &&& (points[j].net != points[i0].net || (same_width && self_collision))
}

/// Whether point `j` is a collision candidate against the edge from `i0` to
/// `i1` (see `spec_edge_candidate`); `same_width` tells whether the point's
/// radius equals half the edge's width.
pub fn edge_candidate<V, S>(
    points: &Vec<Point<V, S>>,
    i0: usize,
    i1: usize,
    j: usize,
    same_width: bool,
    self_collision: bool,
) -> (r: bool)
    requires
        i0 < points@.len(),
        i1 < points@.len(),
        j < points@.len(),
    ensures
        r == spec_edge_candidate(points@, i0 as int, i1 as int, j as int, same_width, self_collision),
{
    if j == i0 || j == i1 {
        return false;
    }
    let parent0 = match points[i0].point_type {
        PointType::Child { parent, .. } => parent,
        PointType::Free { .. } => ParentIndex::Via(usize::MAX),
    };
    let parent1 = match points[i1].point_type {
        PointType::Child { parent, .. } => parent,
        PointType::Free { .. } => ParentIndex::Footprint(usize::MAX),
    };
    if let PointType::Child { parent, .. } = points[j].point_type {
        if same_parent(parent, parent0) || same_parent(parent, parent1) {
            return false;
        }
    }
    points[j].net != points[i0].net || (same_width && self_collision)
}

/// The via-collision filter: an attached point is tested unless it is a
/// carried point that has an edge; point `j` is a candidate against attached
/// point `i` of via `via` (on net `net`) when it is not `i`, is not carried
/// by the via, and is on another net or self collision is on.
pub open spec fn spec_via_candidate<V, S>(
    points: Seq<Point<V, S>>,
    i: int,
    j: int,
    via: usize,
    net: usize,
    self_collision: bool,
) -> bool {
    &&& spec_via_point_tested(points[i])
    &&& j != i
    &&& !carried_by(points[j], ParentIndex::Via(via))
    &&& (points[j].net != net || self_collision)
}

/// A point attached to a via is tested for collisions unless it is a
/// carried point that has an edge.
pub open spec fn spec_via_point_tested<V, S>(p: Point<V, S>) -> bool {
    !(p.point_type matches PointType::Child { has_edge, .. } && has_edge)
}

/// Whether a point attached to a via is tested for collisions.
pub fn via_point_tested<V, S>(p: &Point<V, S>) -> (r: bool)
    ensures
        r == spec_via_point_tested(*p),
{
    match p.point_type {
        PointType::Child { has_edge, .. } => !has_edge,
        PointType::Free { .. } => true,
    }
}

/// Whether point `j` is a collision candidate against point `i` attached to
/// via `via` (see `spec_via_candidate`).
pub fn via_candidate<V, S>(
    points: &Vec<Point<V, S>>,
    i: usize,
    j: usize,
    via: usize,
    net: usize,
    self_collision: bool,
) -> (r: bool)
    requires
        i < points@.len(),
        j < points@.len(),
    ensures
        r == spec_via_candidate(points@, i as int, j as int, via, net, self_collision),
{
    if !via_point_tested(&points[i]) {
        return false;
    }
    if j == i {
        return false;
    }
    if let PointType::Child { parent, .. } = points[j].point_type {
        if same_parent(parent, ParentIndex::Via(via)) {
            return false;
        }
    }
    points[j].net != net || self_collision
}

/// The edge-collision filter over all inputs: point `j` is a candidate
/// against the edge from `i0` to `i1` exactly when it is neither end, it is
/// free or carried by a parent other than the parents of both ends (a free
/// start counting as the via `usize::MAX`, a free end as the footprint
/// `usize::MAX`), and it is on another net than the start or, with self
/// collision on, as wide as the edge.
pub proof fn law_edge_candidate<V, S>(
    points: Vec<Point<V, S>>,
    i0: usize,
    i1: usize,
    j: usize,
    same_width: bool,
    self_collision: bool,
    r: bool,
)
    requires
        i0 < points@.len(),
        i1 < points@.len(),
        j < points@.len(),
        call_ensures(edge_candidate::<V, S>, (&points, i0, i1, j, same_width, self_collision), r),
    ensures
        r <==> {
            &&& j != i0
            &&& j != i1
            &&& match points@[j as int].point_type {
                PointType::Child { parent, .. } => {
                    &&& parent != match points@[i0 as int].point_type {
                        PointType::Child { parent: p0, .. } => p0,
                        PointType::Free { .. } => ParentIndex::Via(usize::MAX),
                    }
                    &&& parent != match points@[i1 as int].point_type {
                        PointType::Child { parent: p1, .. } => p1,
                        PointType::Free { .. } => ParentIndex::Footprint(usize::MAX),
                    }
                },
                PointType::Free { .. } => true,
            }
            &&& (points@[j as int].net != points@[i0 as int].net || (same_width && self_collision))
        },
{
}

/// The via-collision filter over all inputs: against attached point `i` of
/// via `via` on net `net`, point `j` is a candidate exactly when `i` is not
/// a carried point with an edge, `j` is not `i`, `j` is free or carried by
/// anything but this via, and `j` is on another net or self collision is on.
pub proof fn law_via_candidate<V, S>(
    points: Vec<Point<V, S>>,
    i: usize,
    j: usize,
    via: usize,
    net: usize,
    self_collision: bool,
    r: bool,
)
    requires
        i < points@.len(),
        j < points@.len(),
        call_ensures(via_candidate::<V, S>, (&points, i, j, via, net, self_collision), r),
    ensures
        r <==> {
            &&& match points@[i as int].point_type {
                PointType::Child { has_edge, .. } => !has_edge,
                PointType::Free { .. } => true,
            }
            &&& j != i
            &&& match points@[j as int].point_type {
                PointType::Child { parent, .. } => parent != ParentIndex::Via(via),
                PointType::Free { .. } => true,
            }
            &&& (points@[j as int].net != net || self_collision)
        },
{
}

/// A point is held in place unless it is a free point with at least two edges.
pub open spec fn spec_is_fixed<V>(t: PointType<V>) -> bool {
    match t {
        PointType::Free { neighbors, .. } => neighbors < 2,
        PointType::Child { .. } => true,
    }
}

impl<V, S> Point<V, S> {
    /// Whether the point is held in place.
    pub fn is_fixed(&self) -> (r: bool)
        ensures
            r == spec_is_fixed(self.point_type),
    {
        match self.point_type {
            PointType::Free { neighbors, .. } => neighbors < 2,
            PointType::Child { .. } => true,
        }
    }

    /// A free point at `pos`, at rest (`zero` is the null vector), with no edges yet.
    pub fn new_free(pos: V, rad: S, net: usize, layer: usize, zero: V) -> (r: Self) where
        V: Copy,

        ensures
            r.pos == pos,
            r.rad == rad,
            r.net == net,
            r.layer == layer,
            r.point_type == (PointType::Free { pos_prev: pos, v: zero, neighbors: 0 }),
    {
        Self { pos, rad, net, layer, point_type: PointType::Free { pos_prev: pos, v: zero, neighbors: 0 } }
    }

    /// A point carried by `parent` at offset `local_pos`; its position starts
    /// at `origin` until the parent places it.
    pub fn new_child(
        local_pos: V,
        rad: S,
        net: usize,
        layer: usize,
        parent: ParentIndex,
        origin: V,
    ) -> (r: Self)
        ensures
            r.pos == origin,
            r.rad == rad,
            r.net == net,
            r.layer == layer,
            r.point_type == (PointType::Child { local_pos, parent, has_edge: false }),
    {
        Self { pos: origin, rad, net, layer, point_type: PointType::Child { local_pos, parent, has_edge: false } }
    }

    /// Sets the edge count of a free point; a carried point is left as it is.
    pub fn set_neighbors(&mut self, new_neighbors: u32)
        ensures
            final(self).pos == old(self).pos,
            final(self).rad == old(self).rad,
            final(self).net == old(self).net,
            final(self).layer == old(self).layer,
            final(self).point_type == (match old(self).point_type {
                PointType::Free { pos_prev, v, .. } => PointType::Free {
                    pos_prev,
                    v,
                    neighbors: new_neighbors,
                },
                PointType::Child { .. } => old(self).point_type,
            }),
    {
        if let PointType::Free { ref mut neighbors, .. } = self.point_type {
            *neighbors = new_neighbors;
        }
    }

    /// Remembers the current position of a free point as its previous one.
    pub fn store_prev(&mut self) where V: Copy
        ensures
            final(self).pos == old(self).pos,
            final(self).rad == old(self).rad,
            final(self).net == old(self).net,
            final(self).layer == old(self).layer,
            final(self).point_type == (match old(self).point_type {
                PointType::Free { v, neighbors, .. } => PointType::Free {
                    pos_prev: old(self).pos,
                    v,
                    neighbors,
                },
                PointType::Child { .. } => old(self).point_type,
            }),
    {
        let pos = self.pos;
        if let PointType::Free { ref mut pos_prev, .. } = self.point_type {
            *pos_prev = pos;
        }
    }
}

impl<V: Copy, S> QTreeItem<V> for Point<V, S> {
    fn get_pos(&self) -> (r: V)
        ensures
            r == self.pos,
    {
        self.pos
    }
}

/// A track segment between two points, of width `w` and rest length `l0`.
#[derive(Clone, Copy, Debug)]
pub struct Edge<S> {
    pub i0: usize,
    pub i1: usize,
    pub w: S,
    pub l0: S,
    pub mark: bool,
}

impl<S> Edge<S> {
    /// An unmarked edge from `i0` to `i1`.
    pub fn new(i0: usize, i1: usize, w: S, l0: S) -> (r: Self)
        ensures
            r == (Edge { i0, i1, w, l0, mark: false }),
    {
        Self { i0, i1, w, l0, mark: false }
    }

    /// Reverses the direction of the edge.
    pub fn swap(&mut self)
        ensures
            *final(self) == (Edge { i0: old(self).i1, i1: old(self).i0, ..*old(self) }),
    {
        let t = self.i0;
        self.i0 = self.i1;
        self.i1 = t;
    }
}

/// Reversing an edge twice gives the edge back.
pub proof fn law_swap_twice<S>(e: Edge<S>, once: Edge<S>, twice: Edge<S>)
    requires
        once == (Edge { i0: e.i1, i1: e.i0, ..e }),
        twice == (Edge { i0: once.i1, i1: once.i0, ..once }),
    ensures
        twice == e,
{
}

/// A filled polygon whose corners are points, with its fan triangulation.
#[derive(Clone, Debug)]
pub struct Polygon<S> {
    pub points: Vec<usize>,
    pub rad: S,
    pub mass: S,
    pub net: usize,
    pub layer: usize,
    pub parent_index: ParentIndex,
    pub triangulation: Vec<[usize; 3]>,
}

/// `tris` is the fan of `n` corners around the first corner: the triangles
/// `[0, k+1, k+2]` for `k` from 0 to `n - 3`.
pub open spec fn is_fan(tris: Seq<[usize; 3]>, n: nat) -> bool {
    &&& tris.len() == (if n >= 2 { (n - 2) as nat } else { 0 })
    &&& forall|k: int| 0 <= k < tris.len() ==> is_fan_triangle(#[trigger] tris[k], k)
}

/// The `k`-th triangle of a fan: the first corner and corners `k+1`, `k+2`.
pub open spec fn is_fan_triangle(t: [usize; 3], k: int) -> bool {
    t[0] == 0 && t[1] == k + 1 && t[2] == k + 2
}

impl<S> Polygon<S> {
    /// Replaces the triangulation by the fan around the first corner (exact
    /// for convex polygons). The point list is not read beyond its length.
    pub fn triangulate<P>(&mut self, points: &[P])
        ensures
            final(self).points == old(self).points,
            final(self).rad == old(self).rad,
            final(self).mass == old(self).mass,
            final(self).net == old(self).net,
            final(self).layer == old(self).layer,
            final(self).parent_index == old(self).parent_index,
            is_fan(final(self).triangulation@, old(self).points@.len()),
    {
        self.triangulation.clear();
        let npoints = self.points.len();
        let pivot = 0usize;
        let mut p1 = 1usize;
        let mut p2 = 2usize;
        while p2 < npoints
            invariant
                pivot == 0,
                npoints >= 2 ==> p2 <= npoints,
                npoints < 2 ==> p2 == 2,
                p1 + 1 == p2,
                2 <= p2,
                npoints == self.points@.len(),
                self.points == old(self).points,
                self.rad == old(self).rad,
                self.mass == old(self).mass,
                self.net == old(self).net,
                self.layer == old(self).layer,
                self.parent_index == old(self).parent_index,
                self.triangulation@.len() == p2 - 2,
                forall|k: int|
                    0 <= k < p2 - 2 ==> is_fan_triangle(#[trigger] self.triangulation@[k], k),
            decreases npoints - p2,
        {
            let tri: [usize; 3] = [pivot, p1, p2];
            assert(tri[0] == pivot && tri[1] == p1 && tri[2] == p2);
            let ghost before = self.triangulation@;
            self.triangulation.push(tri);
            assert forall|k: int| 0 <= k < p2 - 1 implies is_fan_triangle(
                #[trigger] self.triangulation@[k],
                k,
            ) by {
                if k < p2 - 2 {
                    assert(self.triangulation@[k] == before[k]);
                } else {
                    assert(self.triangulation@[k] == tri);
                }
            }
            p1 = p2;
            p2 += 1;
        }
    }
}

/// Every triangle of a fan names three distinct corners of the polygon.
pub proof fn law_fan_corners_valid(tris: Seq<[usize; 3]>, n: nat, k: int)
    requires
        is_fan(tris, n),
        0 <= k < tris.len(),
    ensures
        tris[k][0] < tris[k][1] < tris[k][2] < n,
{
    assert(is_fan_triangle(tris[k], k));
}

/// A corner of a courtyard outline, with the stroke width that reaches it.
#[derive(Clone, Copy, Debug)]
pub struct OutlinePoint<V, S> {
    pub pos: V,
    pub w: S,
}

/// A straight courtyard segment of a footprint, with its stroke width; `front`
/// is true on the front side.
#[derive(Clone, Copy, Debug)]
pub struct CourtyardSegment<V, S> {
    pub start: V,
    pub end: V,
    pub w: S,
    pub front: bool,
}

/// A courtyard outline of a footprint: `layer` is true on the front side.
#[derive(Clone, Debug)]
pub struct Outline<V, S> {
    pub points: Vec<OutlinePoint<V, S>>,
    pub layer: bool,
}

/// A footprint: a rigid body carrying pad points and pad polygons.
#[derive(Clone, Debug)]
pub struct Footprint<V, S> {
    pub id: String,
    pub pos: V,
    pub rot: S,
    pub v: V,
    pub angular_v: S,
    pub outlines: Vec<Outline<V, S>>,
    pub polygons: Vec<usize>,
    pub attached_points: Vec<usize>,
}

/// A via: a rigid body carrying the points of its pads and the track ends it holds.
#[derive(Clone, Debug)]
pub struct Via<V> {
    pub id: String,
    pub pos: V,
    pub pos_prev: V,
    pub v: V,
    pub net: usize,
    pub attached_points: Vec<usize>,
    pub fixed: bool,
}

impl<V> Via<V> {
    /// Remembers the current position as the previous one.
    pub fn store_prev(&mut self) where V: Copy
        ensures
            final(self).pos_prev == old(self).pos,
            final(self).pos == old(self).pos,
            final(self).v == old(self).v,
            final(self).net == old(self).net,
            final(self).attached_points == old(self).attached_points,
            final(self).fixed == old(self).fixed,
            final(self).id == old(self).id,
    {
        self.pos_prev = self.pos;
    }
}

} // verus!
