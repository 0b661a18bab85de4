use mannequin::{
    BaseDirectionIterable, DepthFirstIterable, DirectionIterable, NodeLike, OptimizedDirectionIterable,
};
use mannequin::{ArenaIndex, DepthFirstArenaTree, DirectedArenaTree, MannequinError};

// Layout of the tree (such that optimization will enforce reordering)
//     0
//    / \
//  1    5
// | \   |
// 2  4  6
// |
// 3
fn build_sample() -> (DirectedArenaTree<usize>, String, String) {
    let mut tree = DirectedArenaTree::<usize>::new();
    let root = tree.set_root(0, "root".to_string());
    let first = tree.add(1, "first".to_string(), &root).unwrap();
    let second = tree.add(5, "second".to_string(), &root).unwrap();
    let third = tree.add(2, "third".to_string(), &first).unwrap();
    tree.add(4, "fourth".to_string(), &first).unwrap();
    tree.add(3, "fifth".to_string(), &third).unwrap();
    tree.add(6, "sixth".to_string(), &second).unwrap();
    (tree, first, second)
}

fn check_adding_iteration() {
    let (tree, first, second) = build_sample();

    // storage is in insertion order
    let loads: Vec<usize> = tree.nodes().iter().map(|n| n.load).collect();
    assert_eq!(loads, &[0, 1, 5, 2, 4, 3, 6]);
    let ids: Vec<&String> = tree.nodes().iter().map(|n| &n.id).collect();
    assert_eq!(ids, &["root", "first", "second", "third", "fourth", "fifth", "sixth"]);

    // depth-first traversal of the unoptimized tree
    let result: Vec<usize> = tree.iter_depth().iter().map(|n| *n.get()).collect();
    assert_eq!(result, &[0, 1, 2, 3, 4, 5, 6]);
    let result: Vec<&String> = tree.iter_depth().iter().map(|n| n.id()).collect();
    assert_eq!(result, &["root", "first", "third", "fifth", "fourth", "second", "sixth"]);

    assert_eq!(tree.nodes()[0].children, &[ArenaIndex(1), ArenaIndex(2)]);
    assert_eq!(tree.nodes()[1].children, &[ArenaIndex(3), ArenaIndex(4)]);
    assert_eq!(tree.nodes()[2].children, &[ArenaIndex(6)]);
    assert_eq!(tree.nodes()[3].children, &[ArenaIndex(5)]);

    let tree: DepthFirstArenaTree<usize> = tree.depth_first();

    assert_eq!(tree.iter()[0].children, &[ArenaIndex(1), ArenaIndex(5)]);
    assert_eq!(tree.iter()[1].children, &[ArenaIndex(2), ArenaIndex(4)]);
    assert_eq!(tree.iter()[2].children, &[ArenaIndex(3)]);
    assert_eq!(tree.iter()[5].children, &[ArenaIndex(6)]);

    let loads: Vec<usize> = tree.iter().iter().map(|n| n.load).collect();
    assert_eq!(loads, &[0, 1, 2, 3, 4, 5, 6]);

    let indices: Vec<ArenaIndex> = tree.iter().iter().map(|n| n.index).collect();
    assert_eq!(
        indices,
        &[
            ArenaIndex(0),
            ArenaIndex(1),
            ArenaIndex(2),
            ArenaIndex(3),
            ArenaIndex(4),
            ArenaIndex(5),
            ArenaIndex(6)
        ]
    );

    let ids: Vec<&String> = tree.iter().iter().map(|n| &n.id).collect();
    assert_eq!(ids, &["root", "first", "third", "fifth", "fourth", "second", "sixth"]);

    let widths: Vec<usize> = tree.iter().iter().map(|n| n.width).collect();
    assert_eq!(widths, &[7, 4, 2, 1, 1, 2, 1]);

    let first_node = tree.node_by_id(&first).unwrap();
    let result: Vec<usize> = tree.iter_sub(first_node).iter().map(|n| *n.get()).collect();
    assert_eq!(result, &[1, 2, 3, 4]);

    let second_node = tree.node_by_id(&second).unwrap();
    let result: Vec<usize> = tree.iter_sub(second_node).iter().map(|n| *n.get()).collect();
    assert_eq!(result, &[5, 6]);
    assert_eq!(second_node.width(), 2);
    let children = tree.children(second_node).unwrap();
    assert_eq!(children.len(), 1);
    assert_eq!(children[0].id(), "sixth");
}

#[test]
fn depth_test_adding_iteration() {
    check_adding_iteration();
}

#[test]
fn arena_tree_test_adding_iteration() {
    check_adding_iteration();
}

fn check_iter_mut() {
    let (tree, _, _) = build_sample();
    let mut tree = tree.depth_first();
    for i in 0..tree.len() {
        let doubled = *tree.node(i).get() * 2;
        tree.set_load(i, doubled);
    }
    let loads: Vec<usize> = tree.iter().iter().map(|n| n.load).collect();
    assert_eq!(loads, &[0, 2, 4, 6, 8, 10, 12]);
    let widths: Vec<usize> = tree.iter().iter().map(|n| n.width).collect();
    assert_eq!(widths, &[7, 4, 2, 1, 1, 2, 1]);
}

#[test]
fn arena_tree_test_iter_mut() {
    check_iter_mut();
}

#[test]
fn depth_test_iter_mut() {
    check_iter_mut();
}

#[test]
fn hash_tuple() {
    let mut hs = std::collections::HashSet::<(String, usize)>::new();
    hs.insert(("Shoulder".to_string(), 1));
    assert!(hs.contains(&("Shoulder".to_string(), 1)));
}

#[test]
fn add_rejects_unknown_parent() {
    let (mut tree, _, _) = build_sample();
    let before: Vec<usize> = tree.nodes().iter().map(|n| n.width).collect();
    let r = tree.add(9, "ninth".to_string(), &"nowhere".to_string());
    assert_eq!(r, Err(MannequinError::UnknownNode("nowhere".to_string())));
    let after: Vec<usize> = tree.nodes().iter().map(|n| n.width).collect();
    assert_eq!(before, after);
    assert_eq!(tree.len(), 7);
}

#[test]
fn add_rejects_duplicate_id() {
    let (mut tree, first, _) = build_sample();
    let r = tree.add(9, "third".to_string(), &first);
    assert_eq!(r, Err(MannequinError::NotUnique("third".to_string())));
    assert_eq!(tree.len(), 7);
    assert_eq!(tree.nodes()[1].width, 4);
}

#[test]
fn add_on_empty_tree_reports_unknown_parent() {
    let mut tree = DirectedArenaTree::<usize>::with_capacity(4);
    assert!(tree.is_empty());
    let r = tree.add(1, "a".to_string(), &"root".to_string());
    assert_eq!(r, Err(MannequinError::UnknownNode("root".to_string())));
}

#[test]
fn root_of_empty_tree_is_not_set() {
    let tree = DirectedArenaTree::<usize>::new();
    assert!(matches!(tree.root(), Err(MannequinError::RootNotSet)));
    let compact = tree.depth_first();
    assert!(compact.is_empty());
    assert!(matches!(compact.root(), Err(MannequinError::RootNotSet)));
}

#[test]
fn set_root_clears_previous_nodes() {
    let (mut tree, _, _) = build_sample();
    let id = tree.set_root(42, "new_root".to_string());
    assert_eq!(id, "new_root");
    assert_eq!(tree.len(), 1);
    assert_eq!(tree.root().unwrap().width(), 1);
    assert_eq!(tree.root().unwrap().depth(), 0);
    assert!(tree.node_by_id(&"first".to_string()).is_none());
}

fn check_depths_and_widths(tree: &DirectedArenaTree<usize>) {
    let nodes = tree.nodes();
    assert_eq!(nodes[0].depth, 0);
    assert!(nodes[0].parent_ref.is_none());
    for (i, node) in nodes.iter().enumerate().skip(1) {
        let p = node.parent_ref.unwrap().0;
        assert!(p < i);
        assert_eq!(node.depth, nodes[p].depth + 1);
    }
    for a in 0..nodes.len() {
        let mut count = 0;
        for j in 0..nodes.len() {
            let mut k = j;
            loop {
                if k == a {
                    count += 1;
                    break;
                }
                match nodes[k].parent_ref {
                    Some(p) => k = p.0,
                    None => break,
                }
            }
        }
        assert_eq!(nodes[a].width, count);
    }
}

#[test]
fn depths_and_widths_hold_after_every_insert() {
    let mut tree = DirectedArenaTree::<usize>::new();
    tree.set_root(0, "n0".to_string());
    check_depths_and_widths(&tree);
    // parents chosen to mix deep chains and branching
    let parents = [0, 0, 1, 1, 3, 2, 5, 5, 7, 0, 4, 10];
    for (k, p) in parents.iter().enumerate() {
        let id = format!("n{}", k + 1);
        let parent = format!("n{}", p);
        tree.add(k + 1, id, &parent).unwrap();
        check_depths_and_widths(&tree);
    }
}

#[test]
fn subtrees_are_contiguous_after_optimization() {
    let mut tree = DirectedArenaTree::<usize>::new();
    tree.set_root(0, "n0".to_string());
    let parents = [0, 0, 1, 1, 3, 2, 5, 5, 7, 0, 4, 10, 2, 13, 6];
    for (k, p) in parents.iter().enumerate() {
        tree.add(k + 1, format!("n{}", k + 1), &format!("n{}", p)).unwrap();
    }
    let tree = tree.depth_first();
    let nodes = tree.iter();
    for a in 0..nodes.len() {
        assert_eq!(nodes[a].index, ArenaIndex(a));
        for j in 0..nodes.len() {
            let mut k = j;
            let mut below = false;
            loop {
                if k == a {
                    below = true;
                    break;
                }
                match nodes[k].parent_ref {
                    Some(p) => k = p.0,
                    None => break,
                }
            }
            let in_range = a <= j && j < a + nodes[a].width;
            assert_eq!(below, in_range, "node {} position {}", a, j);
        }
    }
}

#[test]
fn node_by_load_finds_first_match() {
    let (tree, _, _) = build_sample();
    assert_eq!(tree.node_by_load(&4).unwrap().id(), "fourth");
    assert!(tree.node_by_load(&99).is_none());
    let compact = tree.depth_first();
    assert_eq!(compact.node_by_load(&3).unwrap().index(), ArenaIndex(3));
}

#[test]
fn children_of_unknown_node_is_an_error() {
    let (tree, _, _) = build_sample();
    let mut other = DirectedArenaTree::<usize>::new();
    other.set_root(0, "stranger".to_string());
    let stranger = other.root().unwrap();
    assert_eq!(
        tree.children(stranger).err(),
        Some(MannequinError::UnknownNode("stranger".to_string()))
    );
    let root = tree.root().unwrap();
    let kids: Vec<usize> = tree.children(root).unwrap().iter().map(|n| n.load).collect();
    assert_eq!(kids, &[1, 5]);
}

#[test]
fn single_node_tree_optimizes() {
    let mut tree = DirectedArenaTree::<usize>::new();
    tree.set_root(7, "only".to_string());
    let tree = tree.depth_first();
    assert_eq!(tree.len(), 1);
    let root = tree.root().unwrap();
    assert!(root.is_leaf());
    let sub: Vec<usize> = tree.iter_sub(root).iter().map(|n| n.load).collect();
    assert_eq!(sub, &[7]);
}

#[test]
fn node_at_is_bounds_checked() {
    let (tree, _, _) = build_sample();
    assert_eq!(tree.node_at(ArenaIndex(2)).unwrap().id(), "second");
    assert_eq!(tree.node_at(ArenaIndex(7)).err(), Some(MannequinError::ReferenceOutOfBound(7)));
    let compact = tree.depth_first();
    assert_eq!(compact.node_at(ArenaIndex(2)).unwrap().id(), "third");
    assert_eq!(compact.node_at(ArenaIndex(99)).err(), Some(MannequinError::ReferenceOutOfBound(99)));
}

#[test]
fn depth_first_walk_of_a_subtree() {
    let (tree, first, _) = build_sample();
    let first_node = tree.node_by_id(&first).unwrap();
    let loads: Vec<usize> = tree.iter_depth_sub(first_node).iter().map(|n| n.load).collect();
    assert_eq!(loads, &[1, 2, 3, 4]);
}

#[test]
fn width_is_one_plus_children_widths() {
    let (tree, _, _) = build_sample();
    let tree = tree.depth_first();
    let nodes = tree.iter();
    for node in nodes {
        let sum: usize = node.children.iter().map(|c| nodes[c.0].width).sum();
        assert_eq!(node.width, 1 + sum);
    }
}
