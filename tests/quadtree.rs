use rectutils::quadtree::{
    BoundedStorage, BoundsProvider, Entry, QuadTree, QuadTreeBuildError, QuadTreeNode,
    QueryStorage,
};
use rectutils::{Rect, Vec2};

struct TestObject {
    bounds: Rect,
    id: usize,
}

impl BoundsProvider for TestObject {
    type Id = usize;

    fn spec_bounds(&self) -> Rect {
        self.bounds
    }

    fn spec_id(&self) -> Self::Id {
        self.id
    }

    fn bounds(&self) -> Rect {
        self.bounds
    }

    fn id(&self) -> Self::Id {
        self.id
    }
}

fn query(tree: &QuadTree<usize>, x: i32, y: i32) -> Vec<usize> {
    let mut s = Vec::new();
    tree.point_query(Vec2::new(x, y), &mut s);
    s
}

#[test]
fn test_quad_tree() {
    let root_bounds = Rect::new(0, 0, 200, 200);
    let objects = vec![
        TestObject {
            bounds: Rect::new(10, 10, 10, 10),
            id: 0,
        },
        TestObject {
            bounds: Rect::new(10, 10, 10, 10),
            id: 1,
        },
    ];
    // Infinite recursion prevention check (when there are multiple objects share same location).
    assert!(QuadTree::new(root_bounds, &objects[..], 1).is_err());

    let objects = vec![
        TestObject {
            bounds: Rect::new(10, 10, 10, 10),
            id: 0,
        },
        TestObject {
            bounds: Rect::new(20, 20, 10, 10),
            id: 1,
        },
    ];
    assert!(QuadTree::new(root_bounds, &objects[..], 1).is_ok());
}

#[test]
fn build_error_is_recursion_limit() {
    let entries = vec![
        Entry { id: 0usize, bounds: Rect::new(10, 10, 10, 10) },
        Entry { id: 1usize, bounds: Rect::new(10, 10, 10, 10) },
    ];
    let r = QuadTree::from_entries(Rect::new(0, 0, 200, 200), &entries, 1);
    assert_eq!(r.err(), Some(QuadTreeBuildError::ReachedRecursionLimit));
    // A threshold that admits both objects needs no split at all.
    assert!(QuadTree::from_entries(Rect::new(0, 0, 200, 200), &entries, 2).is_ok());
}

#[test]
fn default_for_quad_tree() {
    let tree = QuadTree::<u32>::default();

    assert_eq!(tree.split_threshold, 16);
    assert_eq!(tree.root, 0);
}

#[test]
fn quad_tree_point_query() {
    // empty
    let tree = QuadTree::<f32>::default();
    let mut s = Vec::<f32>::new();

    tree.point_query(Vec2::new(0, 0), &mut s);
    assert_eq!(s, vec![]);

    let root_bounds = Rect::new(0, 0, 200, 200);

    // leaf
    let mut s = Vec::<usize>::new();
    let mut pool = Vec::new();
    pool.push(QuadTreeNode::Leaf {
        bounds: root_bounds,
        ids: vec![0, 1],
    });

    let tree = QuadTree {
        root: 0,
        nodes: pool,
        ..Default::default()
    };

    tree.point_query(Vec2::new(10, 10), &mut s);
    assert_eq!(s, vec![0, 1]);

    // branch
    let mut s = Vec::<usize>::new();
    let mut pool = Vec::new();
    let a = 0;
    pool.push(QuadTreeNode::Leaf {
        bounds: root_bounds,
        ids: vec![0, 1],
    });
    let b = 1;
    pool.push(QuadTreeNode::Branch {
        bounds: root_bounds,
        leaves: [a, a, a, a],
    });

    let tree = QuadTree {
        root: b,
        nodes: pool,
        ..Default::default()
    };

    tree.point_query(Vec2::new(10, 10), &mut s);
    assert_eq!(s, vec![0, 1, 0, 1, 0, 1, 0, 1]);
}

#[test]
fn quad_tree_split_threshold() {
    let tree = QuadTree::<u32>::default();

    assert_eq!(tree.split_threshold(), tree.split_threshold);
}

#[test]
fn split_threshold_is_kept() {
    let objects = vec![TestObject { bounds: Rect::new(1, 1, 2, 2), id: 7 }];
    let tree = QuadTree::new(Rect::new(0, 0, 10, 10), &objects[..], 3).ok().unwrap();
    assert_eq!(tree.split_threshold(), 3);
}

#[test]
fn query_storage_for_vec() {
    let mut s = vec![1];

    let res = QueryStorage::try_push(&mut s, 2);
    assert!(res);
    assert_eq!(s, vec![1, 2]);

    QueryStorage::clear(&mut s);
    assert!(s.is_empty());
}

#[test]
fn query_storage_for_array_vec() {
    let mut s = BoundedStorage::<i32, 3>::new();

    let res = QueryStorage::try_push(&mut s, 1);
    assert!(res);
    assert!(!s.is_empty());

    QueryStorage::clear(&mut s);
    assert!(s.is_empty());
}

#[test]
fn bounded_storage_refuses_when_full() {
    let mut s = BoundedStorage::<i32, 2>::new();
    assert!(s.try_push(1));
    assert!(s.try_push(2));
    assert!(s.is_full());
    assert!(!s.try_push(3));
    assert_eq!(s.as_slice(), &[1, 2]);
    assert_eq!(s.len(), 2);
    s.clear();
    assert_eq!(s.len(), 0);
    assert!(s.try_push(4));
    assert_eq!(s.as_slice(), &[4]);
}

#[test]
fn few_entries_build_a_single_leaf() {
    let objects = vec![
        TestObject { bounds: Rect::new(10, 10, 10, 10), id: 0 },
        TestObject { bounds: Rect::new(500, 500, 10, 10), id: 1 },
        TestObject { bounds: Rect::new(20, 20, 10, 10), id: 2 },
    ];
    let root_bounds = Rect::new(0, 0, 200, 200);
    let tree = QuadTree::new(root_bounds, &objects[..], 2).ok().unwrap();
    assert_eq!(tree.nodes.len(), 1);
    assert_eq!(tree.root, 0);
    match &tree.nodes[0] {
        QuadTreeNode::Leaf { bounds, ids } => {
            assert_eq!(*bounds, root_bounds);
            assert_eq!(ids, &vec![0, 2]);
        }
        QuadTreeNode::Branch { .. } => panic!("expected a leaf"),
    }
}

#[test]
fn leaf_ids_overlap_their_leaf() {
    let objects = vec![
        TestObject { bounds: Rect::new(10, 10, 10, 10), id: 0 },
        TestObject { bounds: Rect::new(150, 150, 10, 10), id: 1 },
        TestObject { bounds: Rect::new(90, 90, 20, 20), id: 2 },
        TestObject { bounds: Rect::new(300, 300, 5, 5), id: 3 },
    ];
    let tree = QuadTree::new(Rect::new(0, 0, 200, 200), &objects[..], 1).ok().unwrap();
    assert_eq!(tree.nodes.len(), 13);
    assert_eq!(tree.root, 12);
    let mut leaves = 0;
    for (index, node) in tree.nodes.iter().enumerate() {
        match node {
            QuadTreeNode::Leaf { bounds, ids } => {
                leaves += 1;
                for id in ids {
                    assert!(*id != 3);
                    assert!(bounds.intersects(objects[*id].bounds));
                }
            }
            QuadTreeNode::Branch { leaves: children, .. } => {
                for &c in children {
                    assert!(c < index);
                }
            }
        }
    }
    assert_eq!(leaves, 10);
}

#[test]
fn query_strictly_inside_a_leaf() {
    let objects = vec![
        TestObject { bounds: Rect::new(10, 10, 10, 10), id: 0 },
        TestObject { bounds: Rect::new(150, 150, 10, 10), id: 1 },
        TestObject { bounds: Rect::new(90, 90, 20, 20), id: 2 },
        TestObject { bounds: Rect::new(300, 300, 5, 5), id: 3 },
    ];
    let tree = QuadTree::new(Rect::new(0, 0, 200, 200), &objects[..], 1).ok().unwrap();
    assert_eq!(query(&tree, 15, 15), vec![0]);
    assert_eq!(query(&tree, 155, 155), vec![1]);
    assert_eq!(query(&tree, 50, 150), vec![2]);
    // Outside the root bounds nothing is found, and objects outside them were dropped.
    assert_eq!(query(&tree, 302, 302), Vec::<usize>::new());
}

#[test]
fn query_on_split_lines_reports_duplicates() {
    let objects = vec![
        TestObject { bounds: Rect::new(10, 10, 10, 10), id: 0 },
        TestObject { bounds: Rect::new(150, 150, 10, 10), id: 1 },
        TestObject { bounds: Rect::new(90, 90, 20, 20), id: 2 },
    ];
    let tree = QuadTree::new(Rect::new(0, 0, 200, 200), &objects[..], 1).ok().unwrap();
    // The center lies on the edge of all four quadrants.
    assert_eq!(query(&tree, 100, 100), vec![2, 2, 2, 2]);
    assert_eq!(query(&tree, 100, 50), vec![2, 2]);
}

#[test]
fn touching_entries_build_and_query() {
    let objects = vec![
        TestObject { bounds: Rect::new(10, 10, 10, 10), id: 0 },
        TestObject { bounds: Rect::new(20, 20, 10, 10), id: 1 },
    ];
    let tree = QuadTree::new(Rect::new(0, 0, 200, 200), &objects[..], 1).ok().unwrap();
    assert_eq!(tree.nodes.len(), 29);
    assert_eq!(query(&tree, 15, 15), vec![0]);
    assert_eq!(query(&tree, 100, 100), Vec::<usize>::new());
}

#[test]
fn from_entries_matches_new() {
    let objects = vec![
        TestObject { bounds: Rect::new(10, 10, 10, 10), id: 0 },
        TestObject { bounds: Rect::new(150, 150, 10, 10), id: 1 },
    ];
    let entries: Vec<Entry<usize>> = objects
        .iter()
        .map(|o| Entry { id: o.id, bounds: o.bounds })
        .collect();
    let root_bounds = Rect::new(0, 0, 200, 200);
    let a = QuadTree::new(root_bounds, &objects[..], 1).ok().unwrap();
    let b = QuadTree::from_entries(root_bounds, &entries, 1).ok().unwrap();
    assert_eq!(a.nodes.len(), b.nodes.len());
    assert_eq!(a.root, b.root);
    assert_eq!(query(&a, 155, 155), query(&b, 155, 155));
}

#[test]
fn default_tree_query_leaves_storage_unchanged() {
    let tree = QuadTree::<usize>::default();
    let mut s = vec![9, 8];
    tree.point_query(Vec2::new(-5, 1000), &mut s);
    assert_eq!(s, vec![9, 8]);
    let mut b = BoundedStorage::<usize, 2>::new();
    tree.point_query(Vec2::new(0, 0), &mut b);
    assert!(b.is_empty());
}

#[test]
fn bounded_storage_fills_mid_leaf() {
    let root_bounds = Rect::new(0, 0, 200, 200);
    let tree = QuadTree {
        root: 0,
        nodes: vec![QuadTreeNode::Leaf {
            bounds: root_bounds,
            ids: vec![0, 1, 2, 3, 4],
        }],
        ..Default::default()
    };
    let mut s = BoundedStorage::<usize, 3>::new();
    tree.point_query(Vec2::new(10, 10), &mut s);
    assert_eq!(s.as_slice(), &[0, 1, 2]);

    let tree = QuadTree {
        root: 1,
        nodes: vec![
            QuadTreeNode::Leaf {
                bounds: root_bounds,
                ids: vec![0, 1],
            },
            QuadTreeNode::Branch {
                bounds: root_bounds,
                leaves: [0, 0, 0, 0],
            },
        ],
        ..Default::default()
    };
    let mut s = BoundedStorage::<usize, 3>::new();
    tree.point_query(Vec2::new(10, 10), &mut s);
    assert_eq!(s.as_slice(), &[0, 1, 0]);
}

#[test]
fn point_outside_root_finds_nothing() {
    let root_bounds = Rect::new(0, 0, 200, 200);
    let tree = QuadTree {
        root: 0,
        nodes: vec![QuadTreeNode::Leaf {
            bounds: root_bounds,
            ids: vec![0usize, 1],
        }],
        ..Default::default()
    };
    assert_eq!(query(&tree, 201, 10), Vec::<usize>::new());
    assert_eq!(query(&tree, 200, 200), vec![0, 1]);
}

fn node_bounds(node: &QuadTreeNode<usize>) -> Rect {
    match node {
        QuadTreeNode::Leaf { bounds, .. } => *bounds,
        QuadTreeNode::Branch { bounds, .. } => *bounds,
    }
}

#[test]
fn built_tree_is_well_shaped() {
    let objects = vec![
        TestObject { bounds: Rect::new(10, 10, 10, 10), id: 0 },
        TestObject { bounds: Rect::new(150, 150, 10, 10), id: 1 },
        TestObject { bounds: Rect::new(90, 90, 20, 20), id: 2 },
        TestObject { bounds: Rect::new(20, 20, 10, 10), id: 3 },
    ];
    let tree = QuadTree::new(Rect::new(0, 0, 200, 200), &objects[..], 1).ok().unwrap();
    assert_eq!(node_bounds(&tree.nodes[tree.root]), Rect::new(0, 0, 200, 200));
    let mut reached = vec![false; tree.nodes.len()];
    let mut pending = vec![tree.root];
    while let Some(i) = pending.pop() {
        reached[i] = true;
        match &tree.nodes[i] {
            QuadTreeNode::Leaf { ids, .. } => assert!(ids.len() <= 1),
            QuadTreeNode::Branch { bounds, leaves } => {
                let (x, y) = (bounds.x(), bounds.y());
                let (hw, hh) = (bounds.w() / 2, bounds.h() / 2);
                let quadrants = [
                    Rect::new(x, y, hw, hh),
                    Rect::new(x + hw, y, hw, hh),
                    Rect::new(x + hw, y + hh, hw, hh),
                    Rect::new(x, y + hh, hw, hh),
                ];
                for c in 0..4 {
                    assert_eq!(node_bounds(&tree.nodes[leaves[c]]), quadrants[c]);
                    pending.push(leaves[c]);
                }
            }
        }
    }
    assert!(reached.iter().all(|&r| r));
}

#[test]
fn query_ids_overlap_root_and_leaf() {
    let objects = vec![
        TestObject { bounds: Rect::new(10, 10, 10, 10), id: 0 },
        TestObject { bounds: Rect::new(95, 5, 10, 10), id: 1 },
        TestObject { bounds: Rect::new(-50, -50, 10, 10), id: 2 },
    ];
    let root_bounds = Rect::new(0, 0, 200, 200);
    let tree = QuadTree::new(root_bounds, &objects[..], 1).ok().unwrap();
    let found = query(&tree, 100, 10);
    assert_eq!(found, vec![1, 1]);
    for id in found {
        assert!(root_bounds.intersects(objects[id].bounds));
    }
}

#[test]
fn entries_are_bounds_providers() {
    let entries = vec![
        Entry { id: 4usize, bounds: Rect::new(10, 10, 10, 10) },
        Entry { id: 5usize, bounds: Rect::new(150, 150, 10, 10) },
    ];
    assert_eq!(entries[0].id(), 4);
    assert_eq!(entries[1].bounds(), Rect::new(150, 150, 10, 10));
    let tree = QuadTree::new(Rect::new(0, 0, 200, 200), &entries[..], 1).ok().unwrap();
    assert_eq!(query(&tree, 155, 155), vec![5]);
}
