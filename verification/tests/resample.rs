use kicad_spaghetti::physics::Edge;
use kicad_spaghetti::physics::ParentIndex;
use kicad_spaghetti::physics::Point;
use kicad_spaghetti::physics::PointType;
use kicad_spaghetti::resample::resample_curves;
use kicad_spaghetti::resample::EdgePlan;
use kicad_spaghetti::tree::Geometry;
use kicad_spaghetti::tree::Node;
use kicad_spaghetti::tree::QTreeData;
use kicad_spaghetti::tree::QuadTree;
use kicad_spaghetti::tree::BUCKET_SIZE;
use kicad_spaghetti::typed_idx::Idx;
use std::collections::HashMap;

type V = (f32, f32);
type P = Point<V, f32>;

struct Plane;

const CORNERS: [V; 4] = [(-1.0, -1.0), (-1.0, 1.0), (1.0, -1.0), (1.0, 1.0)];

impl Geometry<V, f32> for Plane {
    fn greater_x(p: &V, c: &V) -> bool {
        p.0 > c.0
    }
    fn greater_y(p: &V, c: &V) -> bool {
        p.1 > c.1
    }
    fn less_x(p: &V, c: &V) -> bool {
        p.0 < c.0
    }
    fn less_y(p: &V, c: &V) -> bool {
        p.1 < c.1
    }
    fn child_center(c: &V, rad: &f32, q: usize) -> V {
        (c.0 + 0.5 * rad * CORNERS[q].0, c.1 + 0.5 * rad * CORNERS[q].1)
    }
    fn half(rad: &f32) -> f32 {
        0.5 * rad
    }
    fn farther_than(p: &V, c: &V, rad: &f32) -> bool {
        ((p.0 - c.0).powi(2) + (p.1 - c.1).powi(2)).sqrt() > *rad
    }
    fn same(a: &V, b: &V) -> bool {
        a == b
    }
    fn larger(a: &f32, b: &f32) -> f32 {
        a.max(*b)
    }
    fn sum(a: &f32, b: &f32) -> f32 {
        a + b
    }
    fn midpoint(a: &V, b: &V) -> V {
        (0.5 * (a.0 + b.0), 0.5 * (a.1 + b.1))
    }
}

#[derive(Clone, Copy, Debug, PartialEq)]
struct Count(usize);

impl QTreeData<P, V> for Count {
    type Context = ();
    fn new() -> Self {
        Count(0)
    }
    fn update_leaf(
        self_idx: Idx<Node<Self, V>>,
        nodes: &Vec<Node<Self, V>>,
        _leaf_items: &Vec<Idx<P>>,
        _items: &Vec<P>,
        _context: &(),
    ) -> Self {
        Count(nodes[self_idx.as_usize()].nitems)
    }
    fn update_internal(self_idx: Idx<Node<Self, V>>, nodes: &Vec<Node<Self, V>>) -> Self {
        let node = &nodes[self_idx.as_usize()];
        Count(node.children.iter().filter(|c| !c.is_zero()).map(|c| nodes[c.as_usize()].data.0).sum())
    }
}

type Tree = QuadTree<P, Count, V, f32>;

fn held(tree: &Tree) -> Vec<usize> {
    let mut out = Vec::new();
    for (i, n) in tree.nodes.iter().enumerate() {
        if n.is_leaf {
            for k in 0..n.nitems {
                out.push(tree.leaf_items[BUCKET_SIZE * i + k].as_usize());
            }
        }
    }
    out.sort();
    out
}

fn free(x: f32, y: f32, net: usize, layer: usize) -> P {
    Point::new_free((x, y), 0.1, net, layer, (0.0, 0.0))
}


fn joint(x: f32, neighbors: u32) -> P {
    let mut p = free(x, 0.0, 0, 0);
    p.set_neighbors(neighbors);
    p
}

fn keep() -> EdgePlan<f32> {
    EdgePlan { merge: false, split: false, half_segment: 0.1 }
}

fn pairs(curves: &[Vec<Edge<f32>>]) -> Vec<Vec<(usize, usize)>> {
    curves.iter().map(|c| c.iter().map(|e| (e.i0, e.i1)).collect()).collect()
}

struct Run {
    points: Vec<P>,
    trees: Vec<Tree>,
    copies: HashMap<usize, usize>,
    curves: Vec<Vec<Edge<f32>>>,
}

fn run(old_points: &Vec<P>, old_curves: &Vec<Vec<Edge<f32>>>, plans: &Vec<Vec<EdgePlan<f32>>>) -> Run {
    let mut points: Vec<P> = Vec::new();
    let mut trees: Vec<Tree> = vec![QuadTree::new((0.0, 0.0), 10.0)];
    let mut copies: HashMap<usize, usize> = HashMap::new();
    let curves = resample_curves::<V, f32, Count, Plane>(
        &mut points,
        &mut trees,
        old_points,
        old_curves,
        plans,
        0.0,
        (0.0, 0.0),
        &mut copies,
    );
    Run { points, trees, copies, curves }
}

#[test]
fn unchanged_curve_is_rebuilt_point_by_point() {
    let old_points = vec![joint(0.0, 1), joint(1.0, 2), joint(2.0, 1)];
    let old_curves = vec![vec![Edge::new(0, 1, 0.2, 1.0), Edge::new(1, 2, 0.2, 1.0)]];
    let r = run(&old_points, &old_curves, &vec![vec![keep(), keep()]]);
    assert_eq!(pairs(&r.curves), vec![vec![(0, 1), (1, 2)]]);
    let xs: Vec<f32> = r.points.iter().map(|p| p.pos.0).collect();
    assert_eq!(xs, vec![0.0, 1.0, 2.0]);
    assert_eq!(held(&r.trees[0]), vec![0, 1, 2]);
    assert!(r.copies.is_empty());
}

#[test]
fn merged_edge_adds_its_rest_length_to_the_next() {
    let old_points = vec![joint(0.0, 1), joint(1.0, 2), joint(2.0, 1)];
    let old_curves = vec![vec![Edge::new(0, 1, 0.2, 1.0), Edge::new(1, 2, 0.2, 1.5)]];
    let plans = vec![vec![EdgePlan { merge: true, split: false, half_segment: 0.1 }, keep()]];
    let r = run(&old_points, &old_curves, &plans);
    assert_eq!(pairs(&r.curves), vec![vec![(0, 1)]]);
    assert_eq!(r.curves[0][0].l0, 2.5);
    assert_eq!(r.points[1].pos, (2.0, 0.0));
}

#[test]
fn merge_needs_a_free_joint_with_two_edges() {
    let old_points = vec![joint(0.0, 1), joint(1.0, 3), joint(2.0, 1)];
    let old_curves = vec![vec![Edge::new(0, 1, 0.2, 1.0), Edge::new(1, 2, 0.2, 1.5)]];
    let plans = vec![vec![EdgePlan { merge: true, split: false, half_segment: 0.1 }, keep()]];
    let r = run(&old_points, &old_curves, &plans);
    assert_eq!(pairs(&r.curves), vec![vec![(0, 1), (1, 2)]]);
}

#[test]
fn long_edge_is_split_at_its_midpoint() {
    let old_points = vec![joint(0.0, 1), joint(4.0, 1)];
    let old_curves = vec![vec![Edge::new(0, 1, 0.2, 4.0)]];
    let plans = vec![vec![EdgePlan { merge: false, split: true, half_segment: 0.5 }]];
    let r = run(&old_points, &old_curves, &plans);
    assert_eq!(pairs(&r.curves), vec![vec![(0, 1), (1, 2)]]);
    assert_eq!(r.points[1].pos, (2.0, 0.0));
    assert_eq!(r.points[1].rad, 0.1);
    assert!(matches!(r.points[1].point_type, PointType::Free { neighbors: 2, .. }));
    assert_eq!(r.curves[0][0].l0, 2.0);
    assert_eq!(r.curves[0][1].l0, 2.0);
    // a split half keeps at least the half segment
    let plans = vec![vec![EdgePlan { merge: false, split: true, half_segment: 3.0 }]];
    let r = run(&old_points, &old_curves, &plans);
    assert_eq!(r.curves[0][0].l0, 3.0);
}

#[test]
fn shared_end_points_are_found_again() {
    let old_points = vec![joint(0.0, 1), joint(1.0, 3), joint(2.0, 1)];
    let old_curves = vec![vec![Edge::new(0, 1, 0.2, 1.0)], Vec::new(), vec![Edge::new(1, 2, 0.2, 1.0)]];
    let plans = vec![vec![keep()], Vec::new(), vec![keep()]];
    let r = run(&old_points, &old_curves, &plans);
    assert_eq!(pairs(&r.curves), vec![vec![(0, 1)], vec![(1, 2)]]);
    assert_eq!(r.points.len(), 3);
}

#[test]
fn carried_points_are_copied_and_recorded() {
    let pad = Point::new_child((0.0, 0.0), 0.3, 0, 0, ParentIndex::Via(0), (2.0, 0.0));
    let old_points = vec![joint(0.0, 1), joint(1.0, 2), pad];
    let old_curves = vec![vec![Edge::new(0, 1, 0.2, 1.0), Edge::new(1, 2, 0.2, 1.0)]];
    let r = run(&old_points, &old_curves, &vec![vec![keep(), keep()]]);
    assert_eq!(pairs(&r.curves), vec![vec![(0, 1), (1, 2)]]);
    assert_eq!(r.copies.get(&2), Some(&2));
    assert!(matches!(r.points[2].point_type, PointType::Child { .. }));
}

#[test]
fn last_edge_is_never_merged() {
    let old_points = vec![joint(0.0, 1), joint(1.0, 2), joint(2.0, 2)];
    let old_curves = vec![vec![Edge::new(0, 1, 0.2, 1.0), Edge::new(1, 2, 0.2, 1.5)]];
    let merge = EdgePlan { merge: true, split: false, half_segment: 0.1 };
    let r = run(&old_points, &old_curves, &vec![vec![keep(), merge]]);
    assert_eq!(pairs(&r.curves), vec![vec![(0, 1), (1, 2)]]);
    assert_eq!(r.curves[0][1].l0, 1.5);
}

#[test]
fn edge_after_a_merge_is_neither_merged_nor_split() {
    let old_points = vec![joint(0.0, 1), joint(1.0, 2), joint(2.0, 2), joint(3.0, 1)];
    let old_curves = vec![vec![
        Edge::new(0, 1, 0.2, 1.0),
        Edge::new(1, 2, 0.2, 1.0),
        Edge::new(2, 3, 0.2, 1.0),
    ]];
    let both = EdgePlan { merge: true, split: true, half_segment: 0.1 };
    let merge = EdgePlan { merge: true, split: false, half_segment: 0.1 };
    let r = run(&old_points, &old_curves, &vec![vec![merge, both, keep()]]);
    assert_eq!(pairs(&r.curves), vec![vec![(0, 1), (1, 2)]]);
    assert_eq!(r.curves[0][0].l0, 2.0);
    assert_eq!(r.curves[0][1].l0, 1.0);
    assert_eq!(r.points[1].pos, (2.0, 0.0));
}
