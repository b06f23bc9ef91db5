use kicad_spaghetti::curves::build_curves;
use kicad_spaghetti::physics::Edge;

fn edges(pairs: &[(usize, usize)]) -> Vec<Edge<f32>> {
    pairs.iter().map(|&(a, b)| Edge::new(a, b, 0.25, 1.0)).collect()
}

fn shape(curves: &[Vec<Edge<f32>>]) -> Vec<Vec<(usize, usize)>> {
    curves.iter().map(|c| c.iter().map(|e| (e.i0, e.i1)).collect()).collect()
}

fn assert_chains(curves: &[Vec<Edge<f32>>]) {
    for c in curves {
        for w in c.windows(2) {
            assert_eq!(w[0].i1, w[1].i0);
        }
    }
}

#[test]
fn single_edge_gives_one_curve() {
    let c = build_curves(edges(&[(0, 1)]));
    assert_eq!(shape(&c), vec![vec![(0, 1)]]);
}

#[test]
fn shuffled_chain_is_walked_back_then_forward() {
    let c = build_curves(edges(&[(1, 2), (0, 1)]));
    assert_eq!(shape(&c), vec![vec![(0, 1), (1, 2)]]);
    assert_chains(&c);
}

#[test]
fn two_separate_tracks_give_two_curves() {
    let c = build_curves(edges(&[(0, 1), (2, 3)]));
    assert_eq!(shape(&c), vec![vec![(0, 1)], vec![(2, 3)]]);
    let c = build_curves(edges(&[(0, 1), (5, 6), (1, 2), (6, 7)]));
    assert_eq!(shape(&c), vec![vec![(0, 1), (1, 2)], vec![(5, 6), (6, 7)]]);
    assert_chains(&c);
}

#[test]
fn at_a_junction_the_first_edge_left_in_the_pool_continues() {
    // after the first edge is taken, the last edge fills its slot in the pool
    let c = build_curves(edges(&[(0, 1), (1, 2), (1, 3)]));
    assert_eq!(shape(&c), vec![vec![(0, 1), (1, 3)], vec![(1, 2)]]);
    let c = build_curves(edges(&[(0, 1), (1, 3), (1, 2)]));
    assert_eq!(shape(&c), vec![vec![(0, 1), (1, 2)], vec![(1, 3)]]);
}

#[test]
fn a_curve_runs_the_way_its_first_edge_does() {
    let c = build_curves(edges(&[(1, 0), (1, 2)]));
    assert_eq!(shape(&c), vec![vec![(2, 1), (1, 0)]]);
    let c = build_curves(edges(&[(0, 1), (2, 1)]));
    assert_eq!(shape(&c), vec![vec![(0, 1), (1, 2)]]);
}

#[test]
fn edges_are_reversed_to_form_a_chain() {
    let c = build_curves(edges(&[(2, 1), (0, 1), (3, 2)]));
    assert_eq!(shape(&c), vec![vec![(3, 2), (2, 1), (1, 0)]]);
    assert_chains(&c);
}

#[test]
fn closed_loop_keeps_every_edge() {
    let c = build_curves(edges(&[(0, 1), (1, 2), (2, 0)]));
    assert_eq!(shape(&c), vec![vec![(1, 2), (2, 0), (0, 1)]]);
    assert_chains(&c);
}

#[test]
fn final_forward_step_is_kept() {
    let c = build_curves(edges(&[(0, 1), (1, 2)]));
    assert_eq!(shape(&c), vec![vec![(0, 1), (1, 2)]]);
    let c = build_curves(edges(&[(1, 2), (0, 1), (2, 3)]));
    assert_eq!(shape(&c), vec![vec![(0, 1), (1, 2), (2, 3)]]);
}

#[test]
fn every_edge_is_placed_once() {
    let input = [(4, 5), (0, 1), (9, 8), (1, 2), (5, 6), (2, 3), (7, 8)];
    let c = build_curves(edges(&input));
    assert_chains(&c);
    let total: usize = c.iter().map(|x| x.len()).sum();
    assert_eq!(total, input.len());
    // no edge of a later curve touches the ends of an earlier one
    for (a, ca) in c.iter().enumerate() {
        let (s, e) = (ca[0].i0, ca[ca.len() - 1].i1);
        for cb in &c[a + 1..] {
            for x in cb {
                assert!(x.i0 != s && x.i1 != s && x.i0 != e && x.i1 != e);
            }
        }
    }
    for curve in &c {
        for e in curve {
            let (a, b) = (e.i0.min(e.i1), e.i0.max(e.i1));
            assert!(input.iter().any(|&(x, y)| (x.min(y), x.max(y)) == (a, b)));
        }
    }
}

use kicad_spaghetti::curves::chain_outlines;
use kicad_spaghetti::physics::CourtyardSegment;
use kicad_spaghetti::tree::Geometry;

type V = (f32, f32);

struct Plane;

impl Geometry<V, f32> for Plane {
    fn greater_x(p: &V, c: &V) -> bool {
        p.0 > c.0
    }
    fn greater_y(p: &V, c: &V) -> bool {
        p.1 > c.1
    }
    fn less_x(p: &V, c: &V) -> bool {
        p.0 < c.0
    }
    fn less_y(p: &V, c: &V) -> bool {
        p.1 < c.1
    }
    fn child_center(c: &V, rad: &f32, q: usize) -> V {
        let s = [(-1.0, -1.0), (-1.0, 1.0), (1.0, -1.0), (1.0, 1.0)][q];
        (c.0 + 0.5 * rad * s.0, c.1 + 0.5 * rad * s.1)
    }
    fn half(rad: &f32) -> f32 {
        0.5 * rad
    }
    fn farther_than(p: &V, c: &V, rad: &f32) -> bool {
        ((p.0 - c.0).powi(2) + (p.1 - c.1).powi(2)).sqrt() > *rad
    }
    fn same(a: &V, b: &V) -> bool {
        a == b
    }
    fn larger(a: &f32, b: &f32) -> f32 {
        a.max(*b)
    }
    fn sum(a: &f32, b: &f32) -> f32 {
        a + b
    }
    fn midpoint(a: &V, b: &V) -> V {
        (0.5 * (a.0 + b.0), 0.5 * (a.1 + b.1))
    }
}

fn seg(a: V, b: V, front: bool) -> CourtyardSegment<V, f32> {
    CourtyardSegment { start: a, end: b, w: 0.05, front }
}

fn outline_shape(outlines: &[kicad_spaghetti::physics::Outline<V, f32>]) -> Vec<(Vec<V>, bool)> {
    outlines.iter().map(|o| (o.points.iter().map(|p| p.pos).collect(), o.layer)).collect()
}

#[test]
fn outlines_follow_connected_segments() {
    let segs = vec![
        seg((0.0, 0.0), (1.0, 0.0), true),
        seg((1.0, 1.0), (0.0, 1.0), true),
        seg((0.0, 1.0), (0.0, 0.0), true),
    ];
    let o = chain_outlines::<V, f32, Plane>(&segs);
    // from the start of the first segment the walk goes through the third
    // segment (matched by its end) and then the second one (matched by its end)
    assert_eq!(
        outline_shape(&o),
        vec![(vec![(0.0, 0.0), (0.0, 1.0), (1.0, 1.0)], true)]
    );
}

#[test]
fn each_segment_gives_exactly_one_point() {
    let segs = vec![
        seg((0.0, 0.0), (1.0, 0.0), true),
        seg((1.0, 0.0), (1.0, 1.0), false),
        seg((0.0, 0.0), (0.0, 1.0), true),
        seg((5.0, 5.0), (6.0, 5.0), false),
    ];
    let o = chain_outlines::<V, f32, Plane>(&segs);
    assert_eq!(
        outline_shape(&o),
        vec![
            (vec![(0.0, 0.0), (0.0, 1.0)], true),
            (vec![(1.0, 0.0)], false),
            (vec![(5.0, 5.0)], false),
        ]
    );
    let total: usize = o.iter().map(|x| x.points.len()).sum();
    assert_eq!(total, segs.len());
    assert!(chain_outlines::<V, f32, Plane>(&Vec::new()).is_empty());
}
