use kicad_spaghetti::physics::Edge;
use kicad_spaghetti::physics::edge_candidate;
use kicad_spaghetti::physics::via_candidate;
use kicad_spaghetti::physics::via_point_tested;
use kicad_spaghetti::physics::ParentIndex;
use kicad_spaghetti::physics::Point;
use kicad_spaghetti::physics::PointType;
use kicad_spaghetti::physics::Polygon;
use kicad_spaghetti::physics::Via;

type P = Point<(f32, f32), f32>;

fn neighbors_of(p: &P) -> Option<u32> {
    match p.point_type {
        PointType::Free { neighbors, .. } => Some(neighbors),
        PointType::Child { .. } => None,
    }
}

#[test]
fn free_point_starts_at_rest_without_edges() {
    let p: P = Point::new_free((1.0, 2.0), 0.5, 3, 1, (0.0, 0.0));
    assert_eq!(p.pos, (1.0, 2.0));
    assert_eq!(p.rad, 0.5);
    assert_eq!((p.net, p.layer), (3, 1));
    match p.point_type {
        PointType::Free { pos_prev, v, neighbors } => {
            assert_eq!(pos_prev, (1.0, 2.0));
            assert_eq!(v, (0.0, 0.0));
            assert_eq!(neighbors, 0);
        }
        PointType::Child { .. } => panic!("expected a free point"),
    }
    assert!(p.is_fixed());
}

#[test]
fn free_point_with_two_edges_moves() {
    let mut p: P = Point::new_free((0.0, 0.0), 0.5, 0, 0, (0.0, 0.0));
    p.set_neighbors(1);
    assert!(p.is_fixed());
    p.set_neighbors(2);
    assert!(!p.is_fixed());
    assert_eq!(neighbors_of(&p), Some(2));
}

#[test]
fn child_point_is_fixed_and_ignores_neighbor_count() {
    let mut c: P = Point::new_child((0.5, 0.0), 0.3, 2, 0, ParentIndex::Via(4), (0.0, 0.0));
    assert_eq!(c.pos, (0.0, 0.0));
    assert!(c.is_fixed());
    c.set_neighbors(5);
    assert_eq!(neighbors_of(&c), None);
    match c.point_type {
        PointType::Child { local_pos, parent, has_edge } => {
            assert_eq!(local_pos, (0.5, 0.0));
            assert_eq!(parent, ParentIndex::Via(4));
            assert!(!has_edge);
        }
        PointType::Free { .. } => panic!("expected a child point"),
    }
}

#[test]
fn store_prev_remembers_position() {
    let mut p: P = Point::new_free((0.0, 0.0), 0.5, 0, 0, (0.0, 0.0));
    p.pos = (3.0, 4.0);
    p.store_prev();
    match p.point_type {
        PointType::Free { pos_prev, .. } => assert_eq!(pos_prev, (3.0, 4.0)),
        PointType::Child { .. } => panic!("expected a free point"),
    }
    let mut v = Via {
        id: String::from("v1"),
        pos: (1.0, 1.0),
        pos_prev: (0.0, 0.0),
        v: (0.0, 0.0),
        net: 0,
        attached_points: vec![0],
        fixed: true,
    };
    v.store_prev();
    assert_eq!(v.pos_prev, (1.0, 1.0));
}

#[test]
fn edge_swap_reverses_and_twice_restores() {
    let mut e = Edge::new(3usize, 7usize, 0.25f32, 1.5f32);
    assert!(!e.mark);
    e.swap();
    assert_eq!((e.i0, e.i1), (7, 3));
    assert_eq!((e.w, e.l0), (0.25, 1.5));
    e.swap();
    assert_eq!((e.i0, e.i1), (3, 7));
}

fn polygon(n: usize) -> Polygon<f32> {
    Polygon {
        points: (10..10 + n).collect(),
        rad: 0.1,
        mass: 1.0,
        net: 0,
        layer: 0,
        parent_index: ParentIndex::Polygon(0),
        triangulation: vec![[9, 9, 9]],
    }
}

#[test]
fn triangulation_is_a_fan_around_the_first_corner() {
    let mut poly = polygon(5);
    let pts: Vec<u8> = Vec::new();
    poly.triangulate(&pts);
    assert_eq!(poly.triangulation, vec![[0, 1, 2], [0, 2, 3], [0, 3, 4]]);
    for t in &poly.triangulation {
        assert!(t[0] < t[1] && t[1] < t[2] && t[2] < 5);
    }
}

#[test]
fn degenerate_polygons_have_no_triangles() {
    for n in 0..3 {
        let mut poly = polygon(n);
        poly.triangulate::<u8>(&[]);
        assert!(poly.triangulation.is_empty());
    }
}

fn child(net: usize, parent: ParentIndex) -> P {
    Point::new_child((0.0, 0.0), 0.1, net, 0, parent, (0.0, 0.0))
}

#[test]
fn edge_candidates_skip_ends_siblings_and_own_net() {
    let points: Vec<P> = vec![
        child(1, ParentIndex::Footprint(2)),            // edge start, carried
        Point::new_free((1.0, 0.0), 0.1, 1, 0, (0.0, 0.0)), // edge end, free
        child(5, ParentIndex::Footprint(2)),            // same parent as the start
        Point::new_free((2.0, 0.0), 0.1, 1, 0, (0.0, 0.0)), // same net
        Point::new_free((3.0, 0.0), 0.1, 4, 0, (0.0, 0.0)), // other net
        child(5, ParentIndex::Footprint(usize::MAX)),   // "parent" of the free end
    ];
    assert!(!edge_candidate(&points, 0, 1, 0, false, false));
    assert!(!edge_candidate(&points, 0, 1, 1, false, false));
    assert!(!edge_candidate(&points, 0, 1, 2, false, false));
    assert!(!edge_candidate(&points, 0, 1, 3, false, false));
    assert!(!edge_candidate(&points, 0, 1, 3, true, false));
    assert!(!edge_candidate(&points, 0, 1, 3, false, true));
    assert!(edge_candidate(&points, 0, 1, 3, true, true));
    assert!(edge_candidate(&points, 0, 1, 4, false, false));
    assert!(!edge_candidate(&points, 0, 1, 5, false, false));
}

#[test]
fn via_candidates_skip_the_via_and_own_net() {
    let mut with_edge = child(1, ParentIndex::Via(0));
    if let PointType::Child { ref mut has_edge, .. } = with_edge.point_type {
        *has_edge = true;
    }
    let points: Vec<P> = vec![
        child(1, ParentIndex::Via(0)),
        child(1, ParentIndex::Via(0)),
        Point::new_free((1.0, 0.0), 0.1, 1, 0, (0.0, 0.0)),
        Point::new_free((2.0, 0.0), 0.1, 3, 0, (0.0, 0.0)),
        with_edge,
    ];
    assert!(via_point_tested(&points[0]));
    assert!(!via_point_tested(&points[4]));
    assert!(!via_candidate(&points, 0, 0, 0, 1, true));
    assert!(!via_candidate(&points, 0, 1, 0, 1, true));
    assert!(!via_candidate(&points, 0, 2, 0, 1, false));
    assert!(via_candidate(&points, 0, 2, 0, 1, true));
    assert!(via_candidate(&points, 0, 3, 0, 1, false));
    assert!(!via_candidate(&points, 4, 3, 0, 1, false));
}
