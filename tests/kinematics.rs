use mannequin::{
    next_step, ArenaNode, DepthFirstArenaTree, DifferentiableModel, DirectedArenaTree, DirectionIterable,
    OptimizedDirectionIterable, SolverStep, TransformationAccumulation,
};

type Mat4 = [[f64; 4]; 4];

fn identity() -> Mat4 {
    let mut m = [[0.0; 4]; 4];
    for (i, row) in m.iter_mut().enumerate() {
        row[i] = 1.0;
    }
    m
}

fn translation(x: f64, y: f64, z: f64) -> Mat4 {
    let mut m = identity();
    m[0][3] = x;
    m[1][3] = y;
    m[2][3] = z;
    m
}

fn rotation_z(a: f64) -> Mat4 {
    let (s, c) = a.sin_cos();
    [[c, -s, 0.0, 0.0], [s, c, 0.0, 0.0], [0.0, 0.0, 1.0, 0.0], [0.0, 0.0, 0.0, 1.0]]
}

fn mul(a: &Mat4, b: &Mat4) -> Mat4 {
    let mut m = [[0.0; 4]; 4];
    for i in 0..4 {
        for j in 0..4 {
            m[i][j] = (0..4).map(|k| a[i][k] * b[k][j]).sum();
        }
    }
    m
}

/// A segment offset from its parent by `link`, then turned about its own Z axis.
#[derive(Debug, Clone, PartialEq)]
struct Link {
    link: Mat4,
    effector: Option<Mat4>,
}

fn effector_position(node: &Link, pose: &Mat4) -> [f64; 3] {
    let p = mul(pose, node.effector.as_ref().unwrap());
    [p[0][3], p[1][3], p[2][3]]
}

fn poses(tree: &DepthFirstArenaTree<Link>, params: &[f64]) -> Vec<Mat4> {
    tree.accumulate(&identity(), |node: &ArenaNode<Link>, parent: &Mat4| {
        mul(parent, &mul(&node.load.link, &rotation_z(params[node.index.0])))
    })
}

fn sizes(tree: &DepthFirstArenaTree<Link>) -> Vec<usize> {
    tree.iter().iter().map(|n| if n.load.effector.is_some() { 3 } else { 0 }).collect()
}

fn effectors(tree: &DepthFirstArenaTree<Link>, model: &DifferentiableModel, poses: &[Mat4]) -> Vec<f64> {
    let mut out = vec![0.0; model.rows()];
    let nodes = tree.iter();
    for (i, selected) in model.effector_selection().iter().enumerate() {
        if *selected {
            let p = effector_position(&nodes[i].load, &poses[i]);
            out[model.offsets()[i]..model.offsets()[i] + 3].copy_from_slice(&p);
        }
    }
    out
}

/// Column-major Jacobian: for a Z-axis joint, axis x (effector - pivot).
fn jacobian(tree: &DepthFirstArenaTree<Link>, model: &DifferentiableModel, poses: &[Mat4]) -> Vec<f64> {
    let rows = model.rows();
    let mut m = vec![0.0; rows * model.cols()];
    let nodes = tree.iter();
    for (col, joint) in model.joint_columns().into_iter().enumerate() {
        let jp = &poses[joint];
        let axis = [jp[0][2], jp[1][2], jp[2][2]];
        for e in model.column_effectors(tree, joint) {
            let p = effector_position(&nodes[e].load, &poses[e]);
            let lever = [p[0] - jp[0][3], p[1] - jp[1][3], p[2] - jp[2][3]];
            let d = [
                axis[1] * lever[2] - axis[2] * lever[1],
                axis[2] * lever[0] - axis[0] * lever[2],
                axis[0] * lever[1] - axis[1] * lever[0],
            ];
            let start = col * rows + model.offsets()[e];
            m[start..start + 3].copy_from_slice(&d);
        }
    }
    m
}

fn offset() -> Mat4 {
    translation(10.0, 0.0, 0.0)
}

fn names(ids: &[&str]) -> Vec<String> {
    ids.iter().map(|s| s.to_string()).collect()
}

#[test]
fn differentiable_test_jacobian() {
    let mut tree = DirectedArenaTree::<Link>::new();
    let trafo = offset();
    let ref1 = tree.set_root(Link { link: trafo, effector: None }, "link1".to_string());
    tree.add(Link { link: trafo, effector: Some(trafo) }, "link2".to_string(), &ref1).unwrap();
    let ref3 = tree.add(Link { link: trafo, effector: None }, "link3".to_string(), &ref1).unwrap();
    let ref4 = tree.add(Link { link: trafo, effector: Some(trafo) }, "link4".to_string(), &ref3).unwrap();
    tree.add(Link { link: trafo, effector: Some(trafo) }, "link5".to_string(), &ref4).unwrap();
    let tree = tree.depth_first();

    let mut model = DifferentiableModel::new();
    model.setup(
        &tree,
        &names(&["link1", "link2", "link3", "link4"]),
        &names(&["link2", "link4"]),
        &sizes(&tree),
    );
    let half_pi = std::f64::consts::FRAC_PI_2;
    let poses = poses(&tree, &[0.0, 0.0, half_pi, half_pi, 0.0]);
    let result = jacobian(&tree, &model, &poses);

    let target = [
        [0.0, 0.0, 0.0, 0.0],
        [20.0, 10.0, 0.0, 0.0],
        [0.0, 0.0, 0.0, 0.0],
        [-10.0, 0.0, -10.0, 0.0],
        [0.0, 0.0, -10.0, -10.0],
        [0.0, 0.0, 0.0, 0.0],
    ];
    assert_eq!(model.shape(), (6, 4));
    for (r, row) in target.iter().enumerate() {
        for (c, expected) in row.iter().enumerate() {
            assert!((result[c * 6 + r] - expected).abs() < 1e-6, "row {} col {}", r, c);
        }
    }
}

fn four_segment_chain(effectors_everywhere: bool) -> DepthFirstArenaTree<Link> {
    let mut tree = DirectedArenaTree::<Link>::new();
    let trafo = offset();
    let last = Some(offset());
    let mid = if effectors_everywhere { last } else { None };
    let ref1 = tree.set_root(Link { link: trafo, effector: None }, "link1".to_string());
    let ref2 = tree.add(Link { link: trafo, effector: mid }, "link2".to_string(), &ref1).unwrap();
    let ref3 = tree.add(Link { link: trafo, effector: mid }, "link3".to_string(), &ref2).unwrap();
    tree.add(Link { link: trafo, effector: last }, "link4".to_string(), &ref3).unwrap();
    tree.depth_first()
}

#[test]
fn forward_test_fk() {
    let mut tree = DirectedArenaTree::<Link>::new();
    let trafo = offset();
    let neutral = Some(identity());
    let ref1 = tree.set_root(Link { link: trafo, effector: None }, "link1".to_string());
    let ref2 = tree.add(Link { link: trafo, effector: neutral }, "link2".to_string(), &ref1).unwrap();
    let ref3 = tree.add(Link { link: trafo, effector: neutral }, "link3".to_string(), &ref1).unwrap();
    let ref4 = tree.add(Link { link: trafo, effector: neutral }, "link4".to_string(), &ref3).unwrap();
    let tree = tree.depth_first();

    let mut model = DifferentiableModel::new();
    model.setup(&tree, &vec![], &vec![ref2, ref3, ref4], &sizes(&tree));
    let poses = poses(&tree, &[0.0, 0.0, std::f64::consts::FRAC_PI_2, 0.0]);
    let flat = effectors(&tree, &model, &poses);
    let expected = [20.0, 0.0, 0.0, 20.0, 0.0, 0.0, 20.0, 10.0, 0.0];
    assert_eq!(flat.len(), expected.len());
    for (got, want) in flat.iter().zip(expected.iter()) {
        assert!((got - want).abs() < 1e-9);
    }
}

#[test]
fn planar_chain_terminal_effector_and_jacobian() {
    let tree = four_segment_chain(false);
    let mut model = DifferentiableModel::new();
    model.setup(&tree, &vec![], &names(&["link4"]), &sizes(&tree));
    let half_pi = std::f64::consts::FRAC_PI_2;
    let poses = poses(&tree, &[0.0, 0.0, half_pi, half_pi]);
    let flat = effectors(&tree, &model, &poses);
    // joints sit at (10,0), (20,0), (30,0) turned up, (30,10) turned back; the
    // effector is one more offset further
    let expected = [20.0, 10.0, 0.0];
    for (got, want) in flat.iter().zip(expected.iter()) {
        assert!((got - want).abs() < 1e-6);
    }
    let j = jacobian(&tree, &model, &poses);
    // pivots at (10,0), (20,0), (30,0), (30,10); z x (effector - pivot)
    let columns = [[-10.0, 10.0, 0.0], [-10.0, 0.0, 0.0], [-10.0, -10.0, 0.0], [0.0, -10.0, 0.0]];
    assert_eq!(model.shape(), (3, 4));
    for (c, col) in columns.iter().enumerate() {
        for (r, want) in col.iter().enumerate() {
            assert!((j[c * 3 + r] - want).abs() < 1e-6, "row {} col {}", r, c);
        }
    }
}

/// Regularised least squares (J^T J + 1e-5 I) x = J^T v by Gaussian elimination.
fn solve(j: &[f64], rows: usize, cols: usize, v: &[f64]) -> Vec<f64> {
    let at = |r: usize, c: usize| j[c * rows + r];
    let mut a = vec![vec![0.0; cols + 1]; cols];
    for i in 0..cols {
        for k in 0..cols {
            a[i][k] = (0..rows).map(|r| at(r, i) * at(r, k)).sum::<f64>() + if i == k { 1e-5 } else { 0.0 };
        }
        a[i][cols] = (0..rows).map(|r| at(r, i) * v[r]).sum();
    }
    for k in 0..cols {
        let pivot = (k..cols).max_by(|x, y| a[*x][k].abs().total_cmp(&a[*y][k].abs())).unwrap();
        a.swap(k, pivot);
        for i in k + 1..cols {
            let f = a[i][k] / a[k][k];
            for c in k..=cols {
                a[i][c] -= f * a[k][c];
            }
        }
    }
    let mut x = vec![0.0; cols];
    for k in (0..cols).rev() {
        let s: f64 = (k + 1..cols).map(|c| a[k][c] * x[c]).sum();
        x[k] = (a[k][cols] - s) / a[k][k];
    }
    x
}

/// Runs the differential solver; returns the final step and the squared error of
/// every iteration.
fn run_solver(target: [f64; 3], max_iterations: usize, tolerance: f64, step_limit: f64) -> (SolverStep, Vec<f64>) {
    let tree = four_segment_chain(false);
    let mut model = DifferentiableModel::new();
    model.setup(&tree, &vec![], &names(&["link4"]), &sizes(&tree));
    let mut params = vec![0.1, 0.2, 0.3, 0.4];
    let columns = model.joint_columns();
    let mut errors = Vec::new();
    let mut counter = 0;
    loop {
        let p = poses(&tree, &params);
        let y = effectors(&tree, &model, &p);
        let diff: Vec<f64> = target.iter().zip(y.iter()).map(|(t, y)| t - y).collect();
        let error: f64 = diff.iter().map(|d| d * d).sum();
        errors.push(error);
        let j = jacobian(&tree, &model, &p);
        let mut update = solve(&j, model.rows(), model.cols(), &diff);
        let norm = update.iter().map(|u| u * u).sum::<f64>().sqrt();
        if norm > step_limit {
            update.iter_mut().for_each(|u| *u *= step_limit / norm);
        }
        // halve the step until it does not raise the error
        for _ in 0..30 {
            let mut trial = params.clone();
            for (k, joint) in columns.iter().enumerate() {
                trial[*joint] += update[k];
            }
            let y = effectors(&tree, &model, &poses(&tree, &trial));
            let e: f64 = target.iter().zip(y.iter()).map(|(t, y)| (t - y) * (t - y)).sum();
            if e <= error {
                params = trial;
                break;
            }
            update.iter_mut().for_each(|u| *u *= 0.5);
        }
        match next_step(counter, error < tolerance, max_iterations) {
            SolverStep::Continue(c) => counter = c,
            other => return (other, errors),
        }
    }
}

#[test]
fn solver_converges_on_reachable_target() {
    let (step, errors) = run_solver([20.0, 20.0, 0.0], 50, 1e-6, 0.5);
    assert!(matches!(step, SolverStep::Converged(_)), "{:?}", step);
    assert!(step.iterations() < 50);
    assert!(*errors.last().unwrap() < 1e-6);
}

#[test]
fn solver_stops_at_cap_on_unreachable_target() {
    let (step, errors) = run_solver([100.0, 0.0, 0.0], 30, 1e-6, 0.5);
    assert_eq!(step, SolverStep::MaxIterationsReached(30));
    assert_eq!(errors.len(), 30);
    for pair in errors.windows(2) {
        assert!(pair[1] <= pair[0] + 1e-9, "{} then {}", pair[0], pair[1]);
    }
    // the chain reaches 40 units from its first joint at (10,0), so it stays
    // at least 50 short of the target
    assert!(errors.iter().all(|e| *e >= 2500.0 - 1e-6));
    assert!(errors.last().unwrap() < errors.first().unwrap());
}
