use kicad_spaghetti::tree::Geometry;
use kicad_spaghetti::tree::InsertOutcome;
use kicad_spaghetti::tree::Node;
use kicad_spaghetti::tree::QTreeData;
use kicad_spaghetti::tree::QTreeItem;
use kicad_spaghetti::tree::QuadTree;
use kicad_spaghetti::tree::BUCKET_SIZE;
use kicad_spaghetti::tree::INSERT_LIMIT;
use kicad_spaghetti::typed_idx::Idx;

type V = (f32, f32);

struct Plane;

const CORNERS: [V; 4] = [(-1.0, -1.0), (-1.0, 1.0), (1.0, -1.0), (1.0, 1.0)];

impl Geometry<V, f32> for Plane {
    fn greater_x(p: &V, c: &V) -> bool {
        p.0 > c.0
    }
    fn greater_y(p: &V, c: &V) -> bool {
        p.1 > c.1
    }
    fn less_x(p: &V, c: &V) -> bool {
        p.0 < c.0
    }
    fn less_y(p: &V, c: &V) -> bool {
        p.1 < c.1
    }
    fn child_center(c: &V, rad: &f32, q: usize) -> V {
        (c.0 + 0.5 * rad * CORNERS[q].0, c.1 + 0.5 * rad * CORNERS[q].1)
    }
    fn half(rad: &f32) -> f32 {
        0.5 * rad
    }
    fn farther_than(p: &V, c: &V, rad: &f32) -> bool {
        ((p.0 - c.0).powi(2) + (p.1 - c.1).powi(2)).sqrt() > *rad
    }
    fn same(a: &V, b: &V) -> bool {
        a == b
    }
    fn larger(a: &f32, b: &f32) -> f32 {
        a.max(*b)
    }
    fn sum(a: &f32, b: &f32) -> f32 {
        a + b
    }
    fn midpoint(a: &V, b: &V) -> V {
        (0.5 * (a.0 + b.0), 0.5 * (a.1 + b.1))
    }
}

#[derive(Clone, Copy, Debug)]
struct Item(V);

impl QTreeItem<V> for Item {
    fn get_pos(&self) -> V {
        self.0
    }
}

#[derive(Clone, Copy, Debug, PartialEq)]
struct Count(usize);

impl<T> QTreeData<T, V> for Count {
    type Context = ();
    fn new() -> Self {
        Count(0)
    }
    fn update_leaf(
        self_idx: Idx<Node<Self, V>>,
        nodes: &Vec<Node<Self, V>>,
        _leaf_items: &Vec<Idx<T>>,
        _items: &Vec<T>,
        _context: &(),
    ) -> Self {
        Count(nodes[self_idx.as_usize()].nitems)
    }
    fn update_internal(self_idx: Idx<Node<Self, V>>, nodes: &Vec<Node<Self, V>>) -> Self {
        let node = &nodes[self_idx.as_usize()];
        Count(node.children.iter().filter(|c| !c.is_zero()).map(|c| nodes[c.as_usize()].data.0).sum())
    }
}

type Tree = QuadTree<Item, Count, V, f32>;

fn held(tree: &Tree) -> Vec<usize> {
    let mut out = Vec::new();
    for (i, n) in tree.nodes.iter().enumerate() {
        if n.is_leaf {
            for k in 0..n.nitems {
                out.push(tree.leaf_items[BUCKET_SIZE * i + k].as_usize());
            }
        }
    }
    out.sort();
    out
}

fn grid(n: usize) -> Vec<Item> {
    (0..n).map(|i| Item(((i % 7) as f32 - 2.7, (i / 7) as f32 - 2.7))).collect()
}

#[test]
fn new_tree_is_one_empty_leaf() {
    let t: Tree = QuadTree::new((1.0, 2.0), 10.0);
    assert_eq!(t.nodes.len(), 1);
    assert!(t.nodes[0].is_leaf);
    assert_eq!(t.get_pos(), (1.0, 2.0));
    assert_eq!(t.get_rad(), 10.0);
    assert_eq!(t.leaf_items.len(), BUCKET_SIZE);
    assert!(held(&t).is_empty());
}

#[test]
fn inserted_items_are_found_at_their_positions() {
    let items = vec![Item((1.0, 1.0)), Item((-2.0, 3.0)), Item((4.0, -4.0))];
    let mut t: Tree = QuadTree::new((0.0, 0.0), 10.0);
    for i in 0..items.len() {
        assert_eq!(t.insert_item::<Plane>(None, &items, i), InsertOutcome::Inserted);
    }
    assert_eq!(held(&t), vec![0, 1, 2]);
    for i in 0..items.len() {
        let found = t.find_item::<Plane>(&items, items[i].0).map(|x| x.as_usize());
        assert_eq!(found, Some(i));
    }
    assert!(t.find_item::<Plane>(&items, (9.0, 9.0)).is_none());
}

#[test]
fn full_leaf_splits_and_keeps_every_item() {
    let items = grid(45);
    let mut t: Tree = QuadTree::new((0.0, 0.0), 10.0);
    for i in 0..items.len() {
        assert_eq!(t.insert_item::<Plane>(None, &items, i), InsertOutcome::Inserted);
    }
    assert!(!t.nodes[0].is_leaf);
    assert!(t.nodes.len() > 1);
    assert_eq!(held(&t), (0..45).collect::<Vec<_>>());
    for (i, n) in t.nodes.iter().enumerate() {
        assert!(n.nitems <= BUCKET_SIZE);
        for c in n.children.iter().filter(|c| !c.is_zero()) {
            assert!(i < c.as_usize() && c.as_usize() < t.nodes.len());
        }
    }
    for i in 0..items.len() {
        let found = t.find_item::<Plane>(&items, items[i].0).map(|x| x.as_usize());
        assert_eq!(found, Some(i));
    }
}

#[test]
fn item_outside_root_square_is_not_inserted() {
    let items = vec![Item((100.0, 0.0)), Item((1.0, 0.0))];
    let mut t: Tree = QuadTree::new((0.0, 0.0), 10.0);
    assert_eq!(t.insert_item::<Plane>(None, &items, 0), InsertOutcome::Outside);
    assert!(held(&t).is_empty());
    assert_eq!(t.nodes.len(), 1);
    assert_eq!(t.insert_item::<Plane>(None, &items, 1), InsertOutcome::Inserted);
    assert_eq!(held(&t), vec![1]);
}

#[test]
fn too_many_items_at_one_spot_stop_the_descent() {
    let items = vec![Item((1.0, 1.0)); BUCKET_SIZE + 1];
    let mut t: Tree = QuadTree::new((0.0, 0.0), 10.0);
    for i in 0..BUCKET_SIZE {
        assert_eq!(t.insert_item::<Plane>(None, &items, i), InsertOutcome::Inserted);
    }
    assert_eq!(t.insert_item::<Plane>(None, &items, BUCKET_SIZE), InsertOutcome::TooDeep);
    assert_eq!(held(&t), (0..BUCKET_SIZE).collect::<Vec<_>>());
    // the descent gave up only below a chain deeper than half the limit
    assert!(t.nodes.len() > INSERT_LIMIT / 2);
}

#[test]
fn item_on_the_root_circle_is_inserted() {
    let items = vec![Item((10.0, 0.0)), Item((7.5, 7.5))];
    let mut t: Tree = QuadTree::new((0.0, 0.0), 10.0);
    assert_eq!(t.insert_item::<Plane>(None, &items, 0), InsertOutcome::Inserted);
    // inside the root square but farther than the radius from the centre
    assert_eq!(t.insert_item::<Plane>(None, &items, 1), InsertOutcome::Outside);
    assert_eq!(held(&t), vec![0]);
}

#[test]
fn insertion_can_start_below_the_root() {
    let items = vec![Item((50.0, 50.0))];
    let mut t: Tree = QuadTree::new((0.0, 0.0), 10.0);
    let root = t.root;
    assert_eq!(t.insert_item::<Plane>(Some(root), &items, 0), InsertOutcome::Inserted);
    assert_eq!(held(&t), vec![0]);
}

#[test]
fn summaries_are_computed_bottom_up() {
    let items = grid(40);
    let mut t: Tree = QuadTree::new((0.0, 0.0), 10.0);
    for i in 0..items.len() {
        t.insert_item::<Plane>(None, &items, i);
    }
    let before = held(&t);
    let n = t.nodes.len();
    t.update_bottom_up(&items, &());
    assert_eq!(t.nodes[0].data, Count(40));
    assert_eq!(held(&t), before);
    assert_eq!(t.nodes.len(), n);
}

#[test]
fn clear_keeps_only_the_root_square() {
    let items = grid(40);
    let mut t: Tree = QuadTree::new((0.5, -0.5), 10.0);
    for i in 0..items.len() {
        t.insert_item::<Plane>(None, &items, i);
    }
    t.clear();
    assert_eq!(t.nodes.len(), 1);
    assert!(t.nodes[0].is_leaf);
    assert_eq!(t.get_pos(), (0.5, -0.5));
    assert_eq!(t.get_rad(), 10.0);
    assert!(held(&t).is_empty());
    assert_eq!(t.insert_item::<Plane>(None, &items, 3), InsertOutcome::Inserted);
}
