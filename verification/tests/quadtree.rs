use ecosystem::quadtree::{QuadTree, Route, MAX_OBJECTS};

fn route(qs: &[u8]) -> Route {
    Route::from_quadrants(qs).expect("valid route")
}

fn retrieve(tree: &QuadTree<u32>, qs: &[u8]) -> Vec<u32> {
    let mut out = Vec::new();
    tree.retrieve(&mut out, &route(qs));
    out
}

#[test]
fn route_accepts_valid_quadrants() {
    let r = route(&[0, 3, 2]);
    assert_eq!(r.quadrant(0), Some(0));
    assert_eq!(r.quadrant(1), Some(3));
    assert_eq!(r.quadrant(2), Some(2));
    assert_eq!(r.quadrant(3), None);
    assert_eq!(route(&[]).quadrant(0), None);
}

#[test]
fn route_rejects_bad_quadrant_or_length() {
    assert!(Route::from_quadrants(&[0, 4]).is_none());
    assert!(Route::from_quadrants(&[0, 1, 2, 3, 0, 1]).is_none());
    assert!(Route::from_quadrants(&[3, 3, 3, 3, 3]).is_some());
}

#[test]
fn empty_tree_returns_nothing() {
    let tree: QuadTree<u32> = QuadTree::new(0);
    assert_eq!(retrieve(&tree, &[]), Vec::<u32>::new());
    assert_eq!(retrieve(&tree, &[1, 2]), Vec::<u32>::new());
}

#[test]
fn retrieve_appends_to_existing_results() {
    let mut tree = QuadTree::new(0);
    tree.insert(&7u32, &route(&[1]));
    let mut out = vec![99u32];
    tree.retrieve(&mut out, &route(&[0]));
    assert_eq!(out, vec![99, 7]);
}

#[test]
fn small_tree_returns_everything_in_insertion_order() {
    let mut tree = QuadTree::new(0);
    for (v, qs) in [(1u32, vec![0u8]), (2, vec![]), (3, vec![2, 1]), (4, vec![3])] {
        tree.insert(&v, &route(&qs));
    }
    assert_eq!(retrieve(&tree, &[0]), vec![1, 2, 3, 4]);
    assert_eq!(retrieve(&tree, &[]), vec![1, 2, 3, 4]);
}

#[test]
fn eleventh_object_splits_the_root() {
    let mut tree = QuadTree::new(0);
    // Ten objects: still a single leaf.
    for v in 0..10u32 {
        let q = (v % 4) as u8;
        tree.insert(&v, &route(&[q]));
    }
    assert_eq!(retrieve(&tree, &[1]), (0..10).collect::<Vec<u32>>());
    // The eleventh overflows the leaf: objects move into their quadrants.
    tree.insert(&10u32, &route(&[]));
    assert_eq!(retrieve(&tree, &[0]), vec![0, 4, 8, 10]);
    assert_eq!(retrieve(&tree, &[1]), vec![1, 5, 9, 10]);
    assert_eq!(retrieve(&tree, &[2]), vec![2, 6, 10]);
    assert_eq!(retrieve(&tree, &[3]), vec![3, 7, 10]);
    assert_eq!(retrieve(&tree, &[]), vec![10]);
}

#[test]
fn objects_descend_into_existing_quadrants() {
    let mut tree = QuadTree::new(0);
    for v in 0..11u32 {
        tree.insert(&v, &route(&[0]));
    }
    // All eleven went to quadrant 0, which holds them as a leaf at level 1.
    assert_eq!(retrieve(&tree, &[0]), (0..11).collect::<Vec<u32>>());
    assert_eq!(retrieve(&tree, &[1]), Vec::<u32>::new());
    tree.insert(&20u32, &route(&[1, 2]));
    assert_eq!(retrieve(&tree, &[1, 2]), vec![20]);
    assert_eq!(retrieve(&tree, &[2]), Vec::<u32>::new());
}

#[test]
fn split_cascades_into_crowded_quadrant() {
    let mut tree = QuadTree::new(0);
    // Eleven objects deep inside quadrant 3 then 1: the root splits and
    // quadrant 3 receives all eleven, so it splits as well.
    for v in 0..11u32 {
        tree.insert(&v, &route(&[3, 1]));
    }
    tree.insert(&100u32, &route(&[3]));
    assert_eq!(retrieve(&tree, &[3, 1]), {
        let mut e: Vec<u32> = (0..11).collect();
        e.push(100);
        e
    });
    // A query straddling inside quadrant 3 sees only what quadrant 3 holds.
    assert_eq!(retrieve(&tree, &[3]), vec![100]);
    assert_eq!(retrieve(&tree, &[3, 0]), vec![100]);
}

#[test]
fn deepest_objects_come_first() {
    let mut tree = QuadTree::new(0);
    for v in 0..11u32 {
        tree.insert(&v, &route(&[2]));
    }
    for v in 50..52u32 {
        tree.insert(&v, &route(&[]));
    }
    assert_eq!(retrieve(&tree, &[2]), {
        let mut e: Vec<u32> = (0..11).collect();
        e.extend([50, 51]);
        e
    });
}

#[test]
fn leaf_at_max_level_never_splits() {
    let mut tree = QuadTree::new(5);
    for v in 0..(MAX_OBJECTS as u32 + 5) {
        tree.insert(&v, &route(&[0, 0]));
    }
    assert_eq!(retrieve(&tree, &[1]), (0..15).collect::<Vec<u32>>());
}

#[test]
fn clear_keeps_quadrants_and_drops_objects() {
    let mut tree = QuadTree::new(0);
    for v in 0..11u32 {
        tree.insert(&v, &route(&[1]));
    }
    tree.clear();
    assert_eq!(retrieve(&tree, &[1]), Vec::<u32>::new());
    assert_eq!(retrieve(&tree, &[]), Vec::<u32>::new());
    // The root kept its quadrants: a single object goes straight down.
    tree.insert(&42u32, &route(&[2]));
    assert_eq!(retrieve(&tree, &[2]), vec![42]);
    assert_eq!(retrieve(&tree, &[1]), Vec::<u32>::new());
}

#[test]
fn inserted_object_is_found_along_its_route() {
    let mut tree = QuadTree::new(0);
    for v in 0..30u32 {
        let qs = [(v % 4) as u8, ((v / 4) % 4) as u8];
        tree.insert(&v, &route(&qs));
    }
    for v in 0..30u32 {
        let qs = [(v % 4) as u8, ((v / 4) % 4) as u8];
        assert!(retrieve(&tree, &qs).contains(&v));
    }
}

#[test]
fn each_stored_copy_is_returned_once() {
    let mut tree = QuadTree::new(0);
    for _ in 0..12 {
        tree.insert(&7u32, &route(&[0, 1]));
    }
    tree.insert(&8u32, &route(&[]));
    let out = retrieve(&tree, &[0, 1]);
    assert_eq!(out.iter().filter(|v| **v == 7).count(), 12);
    assert_eq!(out.iter().filter(|v| **v == 8).count(), 1);
    assert_eq!(out.len(), 13);
}
