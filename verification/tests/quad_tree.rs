use nbody::quad_tree::QuadTree;
use nbody::quad_tree::Quadrant;
use nbody::quad_tree::Site;
use nbody::geometry::PointKey;

const LOW: Quadrant = Quadrant { high_x: false, high_y: false };
const EAST: Quadrant = Quadrant { high_x: true, high_y: false };
const NORTH: Quadrant = Quadrant { high_x: false, high_y: true };
const FAR: Quadrant = Quadrant { high_x: true, high_y: true };

fn point(tag: u64) -> PointKey {
    PointKey { x: tag, y: tag + 1, mass: tag + 2 }
}

fn site(tag: u64, path: &[Quadrant]) -> Site {
    Site { point: point(tag), path: path.to_vec() }
}

#[test]
fn quadrants_are_numbered_by_their_bits() {
    assert_eq!(LOW.index(), 0);
    assert_eq!(EAST.index(), 1);
    assert_eq!(NORTH.index(), 2);
    assert_eq!(FAR.index(), 3);
}

#[test]
fn new_tree_is_one_empty_leaf() {
    let tree = QuadTree::new(5);
    assert_eq!(tree.len(), 1);
    assert_eq!(tree.levels(), 5);
    assert_eq!(tree.root(), 0);
    assert_eq!(tree.depth(0), 0);
    assert_eq!(tree.point(0), None);
    assert_eq!(tree.child(0, LOW), None);
}

#[test]
fn first_body_takes_the_root() {
    let mut tree = QuadTree::new(2);
    let leaf = tree.insert(0, site(10, &[LOW, LOW]));
    assert_eq!(leaf, 0);
    assert_eq!(tree.len(), 1);
    assert_eq!(tree.point(0), Some(point(10)));
}

#[test]
fn second_body_divides_the_leaf() {
    let mut tree = QuadTree::new(2);
    tree.insert(0, site(10, &[LOW, LOW]));
    let leaf = tree.insert(0, site(20, &[FAR, LOW]));
    assert_eq!(leaf, 4);
    assert_eq!(tree.len(), 5);
    assert_eq!(tree.point(0), None);
    assert_eq!(tree.child(0, LOW), Some(1));
    assert_eq!(tree.child(0, EAST), Some(2));
    assert_eq!(tree.child(0, NORTH), Some(3));
    assert_eq!(tree.child(0, FAR), Some(4));
    assert_eq!(tree.point(1), Some(point(10)));
    assert_eq!(tree.point(2), None);
    assert_eq!(tree.point(3), None);
    assert_eq!(tree.point(4), Some(point(20)));
    assert_eq!(tree.depth(4), 1);
}

#[test]
fn bodies_are_divided_until_they_part() {
    let mut tree = QuadTree::new(3);
    tree.insert(0, site(10, &[EAST, NORTH, LOW]));
    let leaf = tree.insert(0, site(20, &[EAST, NORTH, FAR]));
    assert_eq!(tree.len(), 13);
    assert_eq!(tree.depth(leaf), 3);
    assert_eq!(tree.point(leaf), Some(point(20)));
    let other = tree.locate(&vec![EAST, NORTH, LOW]);
    assert_eq!(tree.point(other), Some(point(10)));
    assert_eq!(tree.depth(other), 3);
    assert!(other != leaf);
}

#[test]
fn lookup_returns_the_handle_of_the_insertion() {
    let mut tree = QuadTree::new(3);
    let paths = [
        [LOW, LOW, LOW],
        [LOW, LOW, FAR],
        [FAR, EAST, NORTH],
        [LOW, EAST, NORTH],
        [FAR, EAST, LOW],
    ];
    for (tag, path) in paths.iter().enumerate() {
        let leaf = tree.insert(0, site(tag as u64, path));
        assert_eq!(tree.locate(&path.to_vec()), leaf);
        assert_eq!(tree.point(leaf), Some(point(tag as u64)));
    }
    for (tag, path) in paths.iter().enumerate() {
        let leaf = tree.locate(&path.to_vec());
        assert_eq!(tree.point(leaf), Some(point(tag as u64)));
    }
}

#[test]
fn no_leaf_above_the_floor_loses_its_body() {
    let mut tree = QuadTree::new(2);
    let mut paths = Vec::new();
    for a in [LOW, EAST, NORTH, FAR] {
        for b in [LOW, EAST, NORTH, FAR] {
            paths.push(vec![a, b]);
        }
    }
    for (tag, path) in paths.iter().enumerate() {
        tree.insert(0, site(tag as u64, path));
    }
    let mut leaves = Vec::new();
    for (tag, path) in paths.iter().enumerate() {
        let leaf = tree.locate(path);
        assert_eq!(tree.point(leaf), Some(point(tag as u64)));
        assert!(!leaves.contains(&leaf));
        leaves.push(leaf);
    }
}

#[test]
fn body_at_the_floor_is_replaced() {
    let mut tree = QuadTree::new(2);
    tree.insert(0, site(10, &[LOW, LOW]));
    tree.insert(0, site(20, &[LOW, EAST]));
    let before = tree.len();
    let old = tree.locate(&vec![LOW, LOW]);
    assert_eq!(tree.depth(old), 2);
    let leaf = tree.insert(0, site(30, &[LOW, LOW]));
    assert_eq!(leaf, old);
    assert_eq!(tree.len(), before);
    assert_eq!(tree.point(leaf), Some(point(30)));
    let kept = tree.locate(&vec![LOW, EAST]);
    assert_eq!(tree.point(kept), Some(point(20)));
}

#[test]
fn same_path_divides_down_to_the_floor() {
    let mut tree = QuadTree::new(2);
    tree.insert(0, site(10, &[EAST, LOW]));
    let leaf = tree.insert(0, site(11, &[EAST, LOW]));
    assert_eq!(tree.len(), 9);
    assert_eq!(tree.depth(leaf), 2);
    assert_eq!(tree.point(leaf), Some(point(11)));
}

#[test]
fn tree_without_levels_keeps_the_last_body() {
    let mut tree = QuadTree::new(0);
    assert_eq!(tree.insert(0, site(1, &[])), 0);
    assert_eq!(tree.insert(0, site(2, &[])), 0);
    assert_eq!(tree.len(), 1);
    assert_eq!(tree.point(0), Some(point(2)));
}

#[test]
fn insertion_may_start_at_any_node_around_the_body() {
    let mut tree = QuadTree::new(3);
    tree.insert(0, site(1, &[FAR, FAR, FAR]));
    tree.insert(0, site(2, &[LOW, LOW, LOW]));
    let start = tree.child(0, LOW).unwrap();
    let leaf = tree.insert(start, site(3, &[LOW, FAR, LOW]));
    assert_eq!(tree.locate(&vec![LOW, FAR, LOW]), leaf);
    assert_eq!(tree.depth(leaf), 2);
}

#[test]
fn covers_follows_the_path_from_the_root() {
    let mut tree = QuadTree::new(2);
    tree.insert(0, site(1, &[LOW, LOW]));
    tree.insert(0, site(2, &[FAR, LOW]));
    assert!(tree.covers(0, &vec![EAST, EAST]));
    assert!(tree.covers(1, &vec![LOW, FAR]));
    assert!(!tree.covers(1, &vec![FAR, LOW]));
    assert!(tree.covers(4, &vec![FAR, LOW]));
    assert!(!tree.covers(4, &vec![NORTH, LOW]));
    assert!(!tree.covers(99, &vec![LOW, LOW]));
    assert!(!tree.covers(1, &vec![]));
}

#[test]
fn make_ready_twice_gives_the_same_handle() {
    let mut tree = QuadTree::new(3);
    let cached = tree.insert(0, site(1, &[NORTH, EAST, LOW]));
    tree.insert(0, site(2, &[NORTH, LOW, LOW]));
    let first = tree.make_ready(site(1, &[NORTH, EAST, LOW]), cached);
    let nodes = tree.len();
    let second = tree.make_ready(site(1, &[NORTH, EAST, LOW]), first);
    assert_eq!(second, first);
    assert_eq!(tree.len(), nodes);
    assert_eq!(tree.depth(first), 3);
    assert_eq!(tree.point(first), Some(point(1)));
    let third = tree.make_ready(site(1, &[NORTH, EAST, LOW]), cached);
    assert_eq!(third, first);
}

#[test]
fn make_ready_into_an_empty_leaf_is_not_yet_at_rest() {
    let mut tree = QuadTree::new(2);
    let first = tree.make_ready(site(1, &[LOW, LOW]), 0);
    assert_eq!(first, 0);
    let second = tree.make_ready(site(1, &[LOW, LOW]), first);
    assert!(second != first);
    assert_eq!(tree.depth(second), 2);
    let third = tree.make_ready(site(1, &[LOW, LOW]), second);
    assert_eq!(third, second);
}

#[test]
fn make_ready_falls_back_to_the_root() {
    let mut tree = QuadTree::new(2);
    tree.insert(0, site(1, &[LOW, LOW]));
    let stale = tree.insert(0, site(2, &[FAR, FAR]));
    let leaf = tree.make_ready(site(2, &[EAST, NORTH]), stale);
    assert_eq!(tree.locate(&vec![EAST, NORTH]), leaf);
    assert_eq!(tree.point(leaf), Some(point(2)));
    let beyond = tree.make_ready(site(3, &[NORTH, NORTH]), 1000);
    assert_eq!(tree.locate(&vec![NORTH, NORTH]), beyond);
}

#[test]
fn old_handles_stay_on_their_path() {
    let mut tree = QuadTree::new(3);
    let first = tree.insert(0, site(1, &[EAST, EAST, EAST]));
    for (tag, path) in [[EAST, EAST, LOW], [EAST, LOW, LOW], [LOW, LOW, LOW]].iter().enumerate() {
        tree.insert(0, site(10 + tag as u64, path));
        assert!(tree.covers(first, &vec![EAST, EAST, EAST]));
    }
    let leaf = tree.make_ready(site(1, &[EAST, EAST, EAST]), first);
    assert_eq!(tree.point(leaf), Some(point(1)));
}
