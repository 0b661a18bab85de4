use mannequin::{
    BaseDirectionIterable, DepthFirstIterable, DirectionIterable, NodeLike, OptimizedDirectionIterable,
};
use mannequin::{
    accumulate, next_step, Mode, TransformationAccumulation, path_sums, sort_by_indices, ArenaIndex, ArenaNode, ComputeSelection,
    DepthFirstArenaTree, DifferentiableModel, DirectedArenaTree, SolverStep,
};

/// A permutation of `0..n` drawn from a fixed-seed linear congruential generator.
fn shuffled(n: usize, seed: u64) -> Vec<usize> {
    let mut p: Vec<usize> = (0..n).collect();
    let mut state = seed;
    for i in (1..n).rev() {
        state = state.wrapping_mul(6364136223846793005).wrapping_add(1442695040888963407);
        let j = (state >> 33) as usize % (i + 1);
        p.swap(i, j);
    }
    p
}

fn check_against_copy(n: usize, seed: u64) {
    let order = shuffled(n, seed);
    let data: Vec<String> = (0..n).map(|i| format!("item{}", i)).collect();
    let expected: Vec<String> = order.iter().map(|&k| data[k].clone()).collect();
    let mut in_place = data.clone();
    sort_by_indices(&mut in_place, order.iter().map(|&k| ArenaIndex(k)).collect());
    assert_eq!(in_place, expected);
}

#[test]
fn permutation_matches_copy_on_empty() {
    check_against_copy(0, 1);
}

#[test]
fn permutation_matches_copy_on_one() {
    check_against_copy(1, 2);
}

#[test]
fn permutation_matches_copy_on_two() {
    check_against_copy(2, 3);
    let mut data = vec!['a', 'b'];
    sort_by_indices(&mut data, vec![ArenaIndex(1), ArenaIndex(0)]);
    assert_eq!(data, vec!['b', 'a']);
}

#[test]
fn permutation_matches_copy_on_thousand() {
    check_against_copy(1000, 4);
    check_against_copy(1000, 5);
}

#[test]
fn permutation_with_fixed_points_and_cycles() {
    let mut data = vec![10, 11, 12, 13, 14, 15];
    // cycles (0 3 1) and (2 5), with 4 fixed
    sort_by_indices(&mut data, vec![ArenaIndex(3), ArenaIndex(0), ArenaIndex(5), ArenaIndex(1), ArenaIndex(4), ArenaIndex(2)]);
    assert_eq!(data, vec![13, 10, 15, 11, 14, 12]);
}

fn compact_from_parents(parents: &[usize]) -> DepthFirstArenaTree<usize> {
    let mut tree = DirectedArenaTree::<usize>::new();
    tree.set_root(0, "n0".to_string());
    for (k, p) in parents.iter().enumerate() {
        tree.add(k + 1, format!("n{}", k + 1), &format!("n{}", p)).unwrap();
    }
    tree.depth_first()
}

fn walk_sum(nodes: &[ArenaNode<usize>], values: &[u64], j: usize) -> u64 {
    let mut sum: u64 = 0;
    let mut k = j;
    loop {
        sum = sum.wrapping_add(values[k]);
        match nodes[k].parent_ref {
            Some(p) => k = p.0,
            None => return sum,
        }
    }
}

fn check_path_sums(tree: &DepthFirstArenaTree<usize>) {
    let values: Vec<u64> = (0..tree.len() as u64).map(|i| i * 7 + 3).collect();
    let sums = path_sums(tree, &values);
    assert_eq!(sums.len(), tree.len());
    for j in 0..tree.len() {
        assert_eq!(sums[j], walk_sum(tree.iter(), &values, j));
    }
}

#[test]
fn path_sums_on_single_node() {
    let tree = compact_from_parents(&[]);
    let sums = path_sums(&tree, &vec![5]);
    assert_eq!(sums, vec![5]);
}

#[test]
fn path_sums_on_skewed_chain() {
    let parents: Vec<usize> = (0..200).collect();
    let tree = compact_from_parents(&parents);
    check_path_sums(&tree);
    let values: Vec<u64> = vec![1; tree.len()];
    let sums = path_sums(&tree, &values);
    assert_eq!(sums[200], 201);
}

#[test]
fn path_sums_on_branchy_tree() {
    let tree = compact_from_parents(&[0, 0, 1, 1, 3, 2, 5, 5, 7, 0, 4, 10, 2, 13, 6]);
    check_path_sums(&tree);
}

#[test]
fn path_sums_wrap_around() {
    let tree = compact_from_parents(&[0]);
    let sums = path_sums(&tree, &vec![u64::MAX, 2]);
    assert_eq!(sums, vec![u64::MAX, 1]);
}

#[test]
fn accumulate_builds_root_paths() {
    let mut tree = DirectedArenaTree::<char>::new();
    tree.set_root('r', "r".to_string());
    tree.add('a', "a".to_string(), &"r".to_string()).unwrap();
    tree.add('b', "b".to_string(), &"r".to_string()).unwrap();
    tree.add('c', "c".to_string(), &"a".to_string()).unwrap();
    let tree = tree.depth_first();
    let paths = accumulate(&tree, &String::new(), |node: &ArenaNode<char>, parent: &String| {
        let mut s = parent.clone();
        s.push(node.load);
        s
    });
    assert_eq!(paths, vec!["r".to_string(), "ra".to_string(), "rac".to_string(), "rb".to_string()]);
}

fn five_links() -> DepthFirstArenaTree<usize> {
    let mut tree = DirectedArenaTree::<usize>::new();
    let ref1 = tree.set_root(1, "link1".to_string());
    tree.add(2, "link2".to_string(), &ref1).unwrap();
    let ref3 = tree.add(3, "link3".to_string(), &ref1).unwrap();
    let ref4 = tree.add(4, "link4".to_string(), &ref3).unwrap();
    tree.add(5, "link5".to_string(), &ref4).unwrap();
    tree.depth_first()
}

fn ids(names: &[&str]) -> Vec<String> {
    names.iter().map(|s| s.to_string()).collect()
}

#[test]
fn jacobian_layout_for_two_effectors() {
    let tree = five_links();
    let mut model = DifferentiableModel::new();
    model.setup(
        &tree,
        &ids(&["link1", "link2", "link3", "link4"]),
        &ids(&["link2", "link4"]),
        &vec![0, 3, 0, 3, 3],
    );
    assert_eq!(model.shape(), (6, 4));
    assert_eq!(model.rows(), 6);
    assert_eq!(model.cols(), 4);
    assert_eq!(model.active(), &vec![true, true, true, true, false]);
    assert_eq!(model.effector_selection(), &vec![false, true, false, true, false]);
    assert_eq!(model.offsets(), &vec![0, 0, 3, 3, 6]);
    assert_eq!(model.sizes(), &vec![0, 3, 0, 3, 3]);
    assert_eq!(model.joint_columns(), vec![0, 1, 2, 3]);
    assert_eq!(model.column_effectors(&tree, 0), vec![1, 3]);
    assert_eq!(model.column_effectors(&tree, 1), vec![1]);
    assert_eq!(model.column_effectors(&tree, 2), vec![3]);
    assert_eq!(model.column_effectors(&tree, 3), vec![3]);
    assert_eq!(model.column_effectors(&tree, 4), Vec::<usize>::new());
}

#[test]
fn empty_joint_selection_selects_every_joint() {
    let tree = five_links();
    let mut model = DifferentiableModel::new();
    model.setup(&tree, &vec![], &ids(&["link5", "nowhere"]), &vec![3, 3, 3, 3, 3]);
    assert_eq!(model.shape(), (3, 5));
    assert_eq!(model.active(), &vec![true; 5]);
    assert_eq!(model.offsets(), &vec![0, 0, 0, 0, 0]);
    assert_eq!(model.joint_columns(), vec![0, 1, 2, 3, 4]);
    assert_eq!(model.column_effectors(&tree, 2), vec![4]);
}

#[test]
fn fresh_model_is_empty() {
    let model = DifferentiableModel::new();
    assert_eq!(model.shape(), (0, 0));
    assert!(model.joint_columns().is_empty());
}

#[test]
fn compute_selection_flags() {
    assert!(ComputeSelection::EffectorsOnly.effectors());
    assert!(!ComputeSelection::EffectorsOnly.jacobian());
    assert!(!ComputeSelection::JacobianOnly.effectors());
    assert!(ComputeSelection::JacobianOnly.jacobian());
    assert!(ComputeSelection::All.effectors() && ComputeSelection::All.jacobian());
}

#[test]
fn solver_steps() {
    assert_eq!(next_step(3, true, 10), SolverStep::Converged(3));
    assert_eq!(next_step(3, false, 10), SolverStep::Continue(4));
    assert_eq!(next_step(9, false, 10), SolverStep::MaxIterationsReached(10));
    assert_eq!(next_step(0, false, 0), SolverStep::MaxIterationsReached(1));
    assert!(next_step(9, false, 10).is_terminal());
    assert!(!next_step(1, false, 10).is_terminal());
    assert_eq!(next_step(9, false, 10).iterations(), 10);
}

#[test]
fn solver_loop_runs_to_the_cap() {
    let mut counter = 0;
    let mut runs = 0;
    loop {
        runs += 1;
        match next_step(counter, false, 13) {
            SolverStep::Continue(c) => counter = c,
            other => {
                assert_eq!(other, SolverStep::MaxIterationsReached(13));
                break;
            }
        }
    }
    assert_eq!(runs, 13);
}

#[test]
fn depth_first_order_of_storage() {
    let mut tree = DirectedArenaTree::<usize>::new();
    tree.set_root(0, "root".to_string());
    tree.add(1, "a".to_string(), &"root".to_string()).unwrap();
    tree.add(2, "b".to_string(), &"root".to_string()).unwrap();
    tree.add(3, "c".to_string(), &"a".to_string()).unwrap();
    let order: Vec<usize> = tree.iter_depth().iter().map(|n| n.index().0).collect();
    assert_eq!(order, vec![0, 1, 3, 2]);
}

#[test]
fn accumulation_through_the_tree_trait() {
    let tree = compact_from_parents(&[0, 1, 0]);
    let depths = tree.accumulate(&0usize, |_node: &ArenaNode<usize>, parent: &usize| parent + 1);
    let stored: Vec<usize> = tree.iter().iter().map(|n| n.depth + 1).collect();
    assert_eq!(depths, stored);
    assert_eq!(depths, vec![1, 2, 3, 2]);
}

#[test]
fn effector_mode_dimensions() {
    assert_eq!(Mode::Position.dim(), 3);
    assert_eq!(Mode::Pose.dim(), 6);
}

#[test]
fn depth_first_iterator_walks_a_subtree() {
    let mut tree = DirectedArenaTree::<usize>::new();
    tree.set_root(0, "root".to_string());
    tree.add(1, "a".to_string(), &"root".to_string()).unwrap();
    tree.add(2, "b".to_string(), &"root".to_string()).unwrap();
    tree.add(3, "c".to_string(), &"a".to_string()).unwrap();
    tree.add(4, "d".to_string(), &"a".to_string()).unwrap();
    let mut walk = mannequin::DepthFirstIterator::new(&tree, ArenaIndex(1));
    let mut seen = Vec::new();
    while let Some(node) = walk.next() {
        seen.push(node.load);
    }
    assert_eq!(seen, vec![1, 3, 4]);
    assert!(walk.next().is_none());
    let order = mannequin::depth_first_order(&tree, 0);
    assert_eq!(order, vec![0, 1, 3, 4, 2]);
}
