use kicad_spaghetti::board::compute_neighbors;
use kicad_spaghetti::board::copy_to_end;
use kicad_spaghetti::board::find_or_add_point;
use kicad_spaghetti::board::reattach_via_points;
use kicad_spaghetti::board::set_vias_fixed;
use kicad_spaghetti::board::index_copper_layers;
use kicad_spaghetti::board::rebuild_net_trees;
use kicad_spaghetti::board::rebuild_trees;
use kicad_spaghetti::board::sort_points;
use kicad_spaghetti::board::store_prev_all;
use kicad_spaghetti::morton::morton_code;
use kicad_spaghetti::morton::point_sort_key;
use kicad_spaghetti::physics::Edge;
use kicad_spaghetti::physics::Footprint;
use kicad_spaghetti::physics::ParentIndex;
use kicad_spaghetti::physics::Point;
use kicad_spaghetti::physics::PointType;
use kicad_spaghetti::physics::Polygon;
use kicad_spaghetti::physics::Via;
use kicad_spaghetti::tree::Geometry;
use kicad_spaghetti::tree::Node;
use kicad_spaghetti::tree::QTreeData;
use kicad_spaghetti::tree::QuadTree;
use kicad_spaghetti::tree::BUCKET_SIZE;
use kicad_spaghetti::typed_idx::Idx;
use std::collections::HashMap;

type V = (f32, f32);
type P = Point<V, f32>;

struct Plane;

const CORNERS: [V; 4] = [(-1.0, -1.0), (-1.0, 1.0), (1.0, -1.0), (1.0, 1.0)];

impl Geometry<V, f32> for Plane {
    fn greater_x(p: &V, c: &V) -> bool {
        p.0 > c.0
    }
    fn greater_y(p: &V, c: &V) -> bool {
        p.1 > c.1
    }
    fn less_x(p: &V, c: &V) -> bool {
        p.0 < c.0
    }
    fn less_y(p: &V, c: &V) -> bool {
        p.1 < c.1
    }
    fn child_center(c: &V, rad: &f32, q: usize) -> V {
        (c.0 + 0.5 * rad * CORNERS[q].0, c.1 + 0.5 * rad * CORNERS[q].1)
    }
    fn half(rad: &f32) -> f32 {
        0.5 * rad
    }
    fn farther_than(p: &V, c: &V, rad: &f32) -> bool {
        ((p.0 - c.0).powi(2) + (p.1 - c.1).powi(2)).sqrt() > *rad
    }
    fn same(a: &V, b: &V) -> bool {
        a == b
    }
    fn larger(a: &f32, b: &f32) -> f32 {
        a.max(*b)
    }
    fn sum(a: &f32, b: &f32) -> f32 {
        a + b
    }
    fn midpoint(a: &V, b: &V) -> V {
        (0.5 * (a.0 + b.0), 0.5 * (a.1 + b.1))
    }
}

#[derive(Clone, Copy, Debug, PartialEq)]
struct Count(usize);

impl QTreeData<P, V> for Count {
    type Context = ();
    fn new() -> Self {
        Count(0)
    }
    fn update_leaf(
        self_idx: Idx<Node<Self, V>>,
        nodes: &Vec<Node<Self, V>>,
        _leaf_items: &Vec<Idx<P>>,
        _items: &Vec<P>,
        _context: &(),
    ) -> Self {
        Count(nodes[self_idx.as_usize()].nitems)
    }
    fn update_internal(self_idx: Idx<Node<Self, V>>, nodes: &Vec<Node<Self, V>>) -> Self {
        let node = &nodes[self_idx.as_usize()];
        Count(node.children.iter().filter(|c| !c.is_zero()).map(|c| nodes[c.as_usize()].data.0).sum())
    }
}

type Tree = QuadTree<P, Count, V, f32>;

fn held(tree: &Tree) -> Vec<usize> {
    let mut out = Vec::new();
    for (i, n) in tree.nodes.iter().enumerate() {
        if n.is_leaf {
            for k in 0..n.nitems {
                out.push(tree.leaf_items[BUCKET_SIZE * i + k].as_usize());
            }
        }
    }
    out.sort();
    out
}

fn free(x: f32, y: f32, net: usize, layer: usize) -> P {
    Point::new_free((x, y), 0.1, net, layer, (0.0, 0.0))
}

fn neighbors(p: &P) -> Option<u32> {
    match p.point_type {
        PointType::Free { neighbors, .. } => Some(neighbors),
        PointType::Child { .. } => None,
    }
}

fn pairs(curves: &[Vec<Edge<f32>>]) -> Vec<Vec<(usize, usize)>> {
    curves.iter().map(|c| c.iter().map(|e| (e.i0, e.i1)).collect()).collect()
}

#[test]
fn neighbors_count_edge_ends() {
    let mut points = vec![free(0.0, 0.0, 0, 0), free(1.0, 0.0, 0, 0), free(2.0, 0.0, 0, 0), free(3.0, 0.0, 0, 0)];
    points.push(Point::new_child((0.0, 0.0), 0.2, 0, 0, ParentIndex::Via(0), (4.0, 0.0)));
    let curves = vec![
        vec![Edge::new(0, 1, 0.2, 1.0), Edge::new(1, 2, 0.2, 1.0)],
        vec![Edge::new(2, 3, 0.2, 1.0), Edge::new(3, 4, 0.2, 1.0)],
    ];
    compute_neighbors(&mut points, &curves);
    let n: Vec<Option<u32>> = points.iter().map(neighbors).collect();
    assert_eq!(n, vec![Some(1), Some(2), Some(2), Some(2), None]);
    assert!(points[0].is_fixed());
    assert!(!points[1].is_fixed());
}

fn footprint(attached: Vec<usize>) -> Footprint<V, f32> {
    Footprint {
        id: String::from("U1"),
        pos: (0.0, 0.0),
        rot: 0.0,
        v: (0.0, 0.0),
        angular_v: 0.0,
        outlines: Vec::new(),
        polygons: Vec::new(),
        attached_points: attached,
    }
}

fn via(attached: Vec<usize>) -> Via<V> {
    Via {
        id: String::from("V1"),
        pos: (0.0, 0.0),
        pos_prev: (0.0, 0.0),
        v: (0.0, 0.0),
        net: 0,
        attached_points: attached,
        fixed: true,
    }
}

fn polygon(corners: Vec<usize>) -> Polygon<f32> {
    Polygon {
        points: corners,
        rad: 0.1,
        mass: 1.0,
        net: 0,
        layer: 0,
        parent_index: ParentIndex::Polygon(0),
        triangulation: Vec::new(),
    }
}

#[test]
fn sorting_points_rewrites_every_reference() {
    let mut points = vec![free(0.0, 0.0, 0, 0), free(1.0, 0.0, 1, 0), free(2.0, 0.0, 2, 0)];
    let before = points.clone();
    let mut curves = vec![vec![Edge::new(0, 1, 0.2, 1.0), Edge::new(1, 2, 0.2, 1.0)]];
    let mut fps = vec![footprint(vec![2])];
    let mut vias = vec![via(vec![0, 1])];
    let mut polys = vec![polygon(vec![1, 2, 0])];
    let keys: Vec<u128> = vec![30, 10, 20];
    sort_points(&mut points, &mut curves, &mut fps, &mut vias, &mut polys, &keys);
    let nets: Vec<usize> = points.iter().map(|p| p.net).collect();
    assert_eq!(nets, vec![1, 2, 0]);
    assert_eq!(pairs(&curves), vec![vec![(2, 0), (0, 1)]]);
    assert_eq!(fps[0].attached_points, vec![1]);
    assert_eq!(vias[0].attached_points, vec![2, 0]);
    assert_eq!(polys[0].points, vec![0, 1, 2]);
    // every reference still designates the same point
    assert_eq!(points[curves[0][0].i0].pos, before[0].pos);
    assert_eq!(points[curves[0][1].i1].pos, before[2].pos);
    assert_eq!(points[fps[0].attached_points[0]].pos, before[2].pos);
}

#[test]
fn sorting_by_layer_then_morton_code() {
    let pts = vec![free(0.0, 0.0, 0, 1), free(5.0, 5.0, 1, 0), free(-5.0, -5.0, 2, 0)];
    let keys: Vec<u128> = pts
        .iter()
        .map(|p| point_sort_key(p.layer, morton_code(p.pos.0.to_bits(), p.pos.1.to_bits())))
        .collect();
    let mut points = pts.clone();
    let mut curves = vec![vec![Edge::new(0, 1, 0.2, 1.0)]];
    let mut fps: Vec<Footprint<V, f32>> = Vec::new();
    let mut vias: Vec<Via<V>> = Vec::new();
    let mut polys: Vec<Polygon<f32>> = Vec::new();
    sort_points(&mut points, &mut curves, &mut fps, &mut vias, &mut polys, &keys);
    let nets: Vec<usize> = points.iter().map(|p| p.net).collect();
    assert_eq!(nets, vec![2, 1, 0]);
    assert_eq!(pairs(&curves), vec![vec![(2, 1)]]);
}

#[test]
fn layer_trees_hold_the_points_of_their_layer() {
    let points = vec![
        free(1.0, 1.0, 0, 0),
        free(-2.0, 3.0, 0, 1),
        free(2.0, -1.0, 1, 0),
        free(50.0, 0.0, 1, 0),
        free(0.5, 0.5, 1, 1),
    ];
    let mut trees: Vec<Tree> = vec![QuadTree::new((0.0, 0.0), 10.0), QuadTree::new((0.0, 0.0), 10.0)];
    rebuild_trees::<V, f32, Count, Plane>(&mut trees, &points, &());
    assert_eq!(held(&trees[0]), vec![0, 2]);
    assert_eq!(held(&trees[1]), vec![1, 4]);
    assert_eq!(trees[0].nodes[0].data, Count(2));
    // rebuilding again gives the same contents
    rebuild_trees::<V, f32, Count, Plane>(&mut trees, &points, &());
    assert_eq!(held(&trees[0]), vec![0, 2]);
    assert_eq!(trees[0].get_pos(), (0.0, 0.0));
}

#[test]
fn net_trees_hold_the_points_of_their_layer_and_net() {
    let points = vec![
        free(1.0, 1.0, 0, 0),
        free(-2.0, 3.0, 1, 0),
        free(2.0, -1.0, 1, 0),
        free(0.5, 0.5, 0, 1),
    ];
    let mut net_trees: Vec<Vec<Tree>> = (0..2)
        .map(|_| vec![QuadTree::new((0.0, 0.0), 10.0), QuadTree::new((0.0, 0.0), 10.0)])
        .collect();
    rebuild_net_trees::<V, f32, Count, Plane>(&mut net_trees, &points, &());
    assert_eq!(held(&net_trees[0][0]), vec![0]);
    assert_eq!(held(&net_trees[0][1]), vec![1, 2]);
    assert_eq!(held(&net_trees[1][0]), vec![3]);
    assert!(held(&net_trees[1][1]).is_empty());
}

#[test]
fn store_prev_all_remembers_positions() {
    let mut points = vec![free(0.0, 0.0, 0, 0)];
    points.push(Point::new_child((0.0, 0.0), 0.2, 0, 0, ParentIndex::Via(0), (4.0, 0.0)));
    points[0].pos = (1.0, 2.0);
    let mut vias = vec![via(vec![1])];
    vias[0].pos = (3.0, 3.0);
    store_prev_all(&mut points, &mut vias);
    match points[0].point_type {
        PointType::Free { pos_prev, .. } => assert_eq!(pos_prev, (1.0, 2.0)),
        PointType::Child { .. } => panic!("expected a free point"),
    }
    assert!(matches!(points[1].point_type, PointType::Child { .. }));
    assert_eq!(vias[0].pos_prev, (3.0, 3.0));
}

#[test]
fn copper_layers_are_numbered_in_order() {
    let mut map: HashMap<i32, usize> = HashMap::new();
    map.insert(-1, 99);
    index_copper_layers(&mut map, &vec![3, 7, 11]);
    assert_eq!(map.get(&3), Some(&0));
    assert_eq!(map.get(&7), Some(&1));
    assert_eq!(map.get(&11), Some(&2));
    assert_eq!(map.get(&-1), Some(&99));
    assert_eq!(map.len(), 4);
}

#[test]
fn duplicate_endpoints_are_merged() {
    let mut points: Vec<P> = Vec::new();
    let mut trees: Vec<Tree> = vec![QuadTree::new((0.0, 0.0), 10.0), QuadTree::new((0.0, 0.0), 10.0)];
    let a = find_or_add_point::<V, f32, Count, Plane>(&mut points, &mut trees, free(1.0, 1.0, 0, 0));
    assert_eq!(a, 0);
    let mut wide = free(1.0, 1.0, 0, 0);
    wide.rad = 0.4;
    let b = find_or_add_point::<V, f32, Count, Plane>(&mut points, &mut trees, wide);
    assert_eq!(b, 0);
    assert_eq!(points.len(), 1);
    assert_eq!(points[0].rad, 0.4);
    let c = find_or_add_point::<V, f32, Count, Plane>(&mut points, &mut trees, free(1.0, 1.0, 0, 1));
    assert_eq!(c, 1);
    let d = find_or_add_point::<V, f32, Count, Plane>(&mut points, &mut trees, free(2.0, 2.0, 0, 0));
    assert_eq!(d, 2);
    assert_eq!(held(&trees[0]), vec![0, 2]);
    assert_eq!(held(&trees[1]), vec![1]);
}

#[test]
fn releasing_vias_puts_them_at_rest() {
    let mut vias = vec![via(vec![0]), via(vec![1, 2])];
    vias[0].pos = (1.0, 2.0);
    vias[0].v = (0.5, 0.5);
    set_vias_fixed(&mut vias, false, (0.0, 0.0));
    assert_eq!(vias[0].v, (0.0, 0.0));
    assert_eq!(vias[0].pos_prev, (1.0, 2.0));
    assert!(!vias[0].fixed && !vias[1].fixed);
    assert_eq!(vias[1].attached_points, vec![1, 2]);
}

#[test]
fn copies_go_to_the_end() {
    let old_points = vec![free(0.0, 0.0, 0, 0), free(1.0, 0.0, 1, 0), free(2.0, 0.0, 2, 0)];
    let mut points = vec![free(9.0, 9.0, 9, 0)];
    let mut list = vec![2, 0];
    copy_to_end(&mut points, &old_points, &mut list);
    assert_eq!(list, vec![1, 2]);
    let nets: Vec<usize> = points.iter().map(|p| p.net).collect();
    assert_eq!(nets, vec![9, 2, 0]);
}

#[test]
fn via_points_are_redirected_copied_or_dropped() {
    let child = |has_edge: bool, net: usize| {
        let mut p: P = Point::new_child((0.0, 0.0), 0.2, net, 0, ParentIndex::Via(0), (0.0, 0.0));
        if let PointType::Child { has_edge: ref mut h, .. } = p.point_type {
            *h = has_edge;
        }
        p
    };
    let old_points = vec![child(true, 0), child(false, 1), free(0.0, 0.0, 2, 0), child(true, 3), child(false, 4)];
    let mut points: Vec<P> = (0..5).map(|i| free(i as f32, 0.0, 100 + i, 0)).collect();
    let mut ends: HashMap<usize, usize> = HashMap::new();
    ends.insert(0, 10);
    let mut list = vec![0, 1, 2, 3, 4];
    reattach_via_points(&mut points, &old_points, &ends, &mut list);
    // 0 is redirected, 1 is copied to index 5, 2 is kept, 3 has no new
    // place and is dropped, and 4 is copied to index 6
    assert_eq!(list, vec![10, 5, 2, 6]);
    assert_eq!(points.len(), 7);
    assert_eq!(points[5].net, 1);
    assert_eq!(points[6].net, 4);
}
