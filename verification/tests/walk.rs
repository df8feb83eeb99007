use nbody::geometry::PointKey;
use nbody::quad_tree::QuadTree;
use nbody::quad_tree::Quadrant;
use nbody::quad_tree::Site;
use nbody::walk::Walk;

const LOW: Quadrant = Quadrant { high_x: false, high_y: false };
const EAST: Quadrant = Quadrant { high_x: true, high_y: false };
const NORTH: Quadrant = Quadrant { high_x: false, high_y: true };
const FAR: Quadrant = Quadrant { high_x: true, high_y: true };

fn site(tag: u64, path: &[Quadrant]) -> Site {
    Site { point: PointKey { x: tag, y: tag, mass: tag }, path: path.to_vec() }
}

fn cluster() -> QuadTree {
    let mut tree = QuadTree::new(3);
    tree.insert(0, site(1, &[LOW, LOW, LOW]));
    tree.insert(0, site(2, &[LOW, LOW, EAST]));
    tree.insert(0, site(3, &[LOW, LOW, NORTH]));
    tree.insert(0, site(4, &[LOW, LOW, FAR]));
    tree.insert(0, site(5, &[FAR, FAR, FAR]));
    tree
}

fn bodies_seen(tree: &QuadTree, open_all: bool) -> Vec<u64> {
    let mut walk = Walk::new(tree, tree.root());
    let mut seen = Vec::new();
    while let Some(node) = walk.next(tree) {
        match tree.point(node) {
            Some(point) => seen.push(point.x),
            None => {
                if open_all {
                    walk.open(tree);
                }
            }
        }
    }
    assert!(walk.is_done());
    seen
}

#[test]
fn walk_of_a_single_leaf_visits_it_once() {
    let mut tree = QuadTree::new(2);
    tree.insert(0, site(7, &[LOW, LOW]));
    let mut walk = Walk::new(&tree, 0);
    assert!(!walk.is_done());
    assert_eq!(walk.next(&tree), Some(0));
    walk.open(&tree);
    assert_eq!(walk.next(&tree), None);
    assert!(walk.is_done());
}

#[test]
fn opening_every_square_visits_every_body_once() {
    let tree = cluster();
    let mut seen = bodies_seen(&tree, true);
    seen.sort();
    assert_eq!(seen, vec![1, 2, 3, 4, 5]);
}

#[test]
fn a_square_that_is_not_opened_hides_its_bodies() {
    let tree = cluster();
    assert_eq!(bodies_seen(&tree, false), Vec::<u64>::new());
    let mut walk = Walk::new(&tree, 0);
    assert_eq!(walk.next(&tree), Some(0));
    walk.open(&tree);
    let mut taken = Vec::new();
    while let Some(node) = walk.next(&tree) {
        taken.push(node);
    }
    assert_eq!(taken, vec![1, 2, 3, 4]);
    assert_eq!(tree.point(4), Some(PointKey { x: 5, y: 5, mass: 5 }));
    assert_eq!(tree.point(1), None);
}

#[test]
fn children_are_visited_in_quadrant_order() {
    let tree = cluster();
    let mut walk = Walk::new(&tree, 0);
    let mut order = Vec::new();
    while let Some(node) = walk.next(&tree) {
        order.push(node);
        walk.open(&tree);
    }
    assert_eq!(order[0], 0);
    assert_eq!(order[1], tree.child(0, LOW).unwrap());
    let mut sorted = order.clone();
    sorted.sort();
    sorted.dedup();
    assert_eq!(sorted.len(), order.len());
    assert_eq!(order.len(), tree.len());
}

#[test]
fn opening_twice_changes_nothing() {
    let tree = cluster();
    let mut walk = Walk::new(&tree, 0);
    walk.open(&tree);
    assert_eq!(walk.next(&tree), Some(0));
    walk.open(&tree);
    walk.open(&tree);
    let mut count = 0;
    while walk.next(&tree).is_some() {
        count += 1;
    }
    assert_eq!(count, 4);
}

#[test]
fn walk_may_begin_below_the_root() {
    let tree = cluster();
    let start = tree.child(0, LOW).unwrap();
    let mut walk = Walk::new(&tree, start);
    let mut leaves = 0;
    while let Some(node) = walk.next(&tree) {
        if tree.point(node).is_some() {
            leaves += 1;
        }
        walk.open(&tree);
    }
    assert_eq!(leaves, 4);
}
