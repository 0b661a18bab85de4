//! The index bookkeeping of Jacobian assembly: which nodes are selected
//! joints (columns) and selected effectors (rows), where each effector's rows
//! start, and which effectors each joint column has to visit.
use vstd::prelude::*;

use crate::depth::{compact_links_wf, compact_node_wf, DepthFirstArenaTree};
use crate::iterables::{BaseDirectionIterable, OptimizedDirectionIterable};

verus! {

/// Which of the shared results a computation should produce.
#[derive(Debug, Clone, Copy, PartialEq, Eq, Structural)]
pub enum ComputeSelection {
    /// Only the effector configuration.
    EffectorsOnly,
    /// Only the partial derivatives.
    JacobianOnly,
    /// Both.
    All,
}

impl ComputeSelection {
    /// Whether the effector configuration is to be computed.
    pub fn effectors(&self) -> (r: bool)
        ensures
            r == !(*self is JacobianOnly),
    {
        !matches!(self, ComputeSelection::JacobianOnly)
    }

    /// Whether the partial derivatives are to be computed.
    pub fn jacobian(&self) -> (r: bool)
        ensures
            r == !(*self is EffectorsOnly),
    {
        !matches!(self, ComputeSelection::EffectorsOnly)
    }
}

/// What an effector reports.
#[derive(Debug, Clone, Copy, PartialEq, Eq, Structural)]
pub enum Mode {
    /// Its position: three values.
    Position,
    /// Its position and orientation: six values.
    Pose,
}

impl Mode {
    /// Number of values an effector reports in this mode.
    pub fn dim(&self) -> (r: usize)
        ensures
            r == match *self {
                Mode::Position => 3usize,
                Mode::Pose => 6usize,
            },
    {
        match self {
            Mode::Position => 3,
            Mode::Pose => 6,
        }
    }
}

/// Some entry of `ids` equals `id`.
pub open spec fn id_listed(ids: Seq<String>, id: Seq<char>) -> bool {
    exists|k: int| 0 <= k < ids.len() && #[trigger] ids[k]@ == id
}

/// Sum of `sizes[i]` over the positions `i < m` that `sel` selects.
pub open spec fn selected_total(sel: Seq<bool>, sizes: Seq<usize>, m: int) -> nat
    decreases m,
{
    if m <= 0 {
        0
    } else {
        selected_total(sel, sizes, m - 1) + if sel[m - 1] {
            sizes[m - 1] as nat
        } else {
            0nat
        }
    }
}

/// Sum of `sizes[i]` over all positions `i < m`.
pub open spec fn size_total(sizes: Seq<usize>, m: int) -> nat
    decreases m,
{
    if m <= 0 {
        0
    } else {
        size_total(sizes, m - 1) + sizes[m - 1] as nat
    }
}

/// Number of positions `i < m` that `sel` selects.
pub open spec fn count_selected(sel: Seq<bool>, m: int) -> nat
    decreases m,
{
    if m <= 0 {
        0
    } else {
        count_selected(sel, m - 1) + if sel[m - 1] {
            1nat
        } else {
            0nat
        }
    }
}

/// The positions in `[lo, hi)` that `sel` selects, in increasing order.
pub open spec fn selected_in(sel: Seq<bool>, lo: int, hi: int) -> Seq<usize>
    decreases hi - lo,
{
    if hi <= lo {
        seq![]
    } else {
        selected_in(sel, lo, hi - 1) + if sel[hi - 1] {
            seq![(hi - 1) as usize]
        } else {
            seq![]
        }
    }
}

proof fn lemma_selected_total_bound(sel: Seq<bool>, sizes: Seq<usize>, m: int)
    ensures
        selected_total(sel, sizes, m) <= size_total(sizes, m),
    decreases m,
{
    if m > 0 {
        lemma_selected_total_bound(sel, sizes, m - 1);
    }
}

proof fn lemma_size_total_mono(sizes: Seq<usize>, m: int, k: int)
    requires
        m <= k,
    ensures
        size_total(sizes, m) <= size_total(sizes, k),
    decreases k - m,
{
    if m < k {
        lemma_size_total_mono(sizes, m, k - 1);
    }
}

proof fn lemma_count_bound(sel: Seq<bool>, m: int)
    ensures
        count_selected(sel, m) <= if m < 0 {
            0
        } else {
            m
        },
    decreases m,
{
    if m > 0 {
        lemma_count_bound(sel, m - 1);
    }
}

/// Whether `id` equals some entry of `ids`.
fn listed(ids: &Vec<String>, id: &String) -> (r: bool)
    ensures
        r == id_listed(ids@, id@),
{
    let mut k: usize = 0;
    while k < ids.len()
        invariant
            k <= ids@.len(),
            forall|j: int| 0 <= j < k ==> #[trigger] ids@[j]@ != id@,
        decreases ids@.len() - k,
    {
        if ids[k] == *id {
            return true;
        }
        k += 1;
    }
    false
}

/// The layout of a Jacobian over a depth-first-ordered tree: one column per
/// selected joint and, for each selected effector, a block of rows whose
/// start is the running total of the sizes of the selected effectors stored
/// before it.
pub struct DifferentiableModel {
    rows: usize,
    cols: usize,
    offsets: Vec<usize>,
    sizes: Vec<usize>,
    selected_joints: Vec<bool>,
    selected_effectors: Vec<bool>,
}

impl DifferentiableModel {
    /// Number of rows.
    pub closed spec fn spec_rows(&self) -> nat {
        self.rows as nat
    }

    /// Number of columns.
    pub closed spec fn spec_cols(&self) -> nat {
        self.cols as nat
    }

    /// Row at which each node's effector block starts.
    pub closed spec fn spec_offsets(&self) -> Seq<usize> {
        self.offsets@
    }

    /// Effector size of each node.
    pub closed spec fn spec_sizes(&self) -> Seq<usize> {
        self.sizes@
    }

    /// Whether each node's joint is a column.
    pub closed spec fn spec_joints(&self) -> Seq<bool> {
        self.selected_joints@
    }

    /// Whether each node's effector is a row block.
    pub closed spec fn spec_effectors(&self) -> Seq<bool> {
        self.selected_effectors@
    }

    /// The layout is consistent for a tree of `n` nodes.
    pub open spec fn wf(&self, n: nat) -> bool {
        &&& self.spec_offsets().len() == n
        &&& self.spec_sizes().len() == n
        &&& self.spec_joints().len() == n
        &&& self.spec_effectors().len() == n
        &&& forall|i: int|
            0 <= i < n ==> #[trigger] self.spec_offsets()[i] == selected_total(
                self.spec_effectors(),
                self.spec_sizes(),
                i,
            )
        &&& self.spec_rows() == selected_total(self.spec_effectors(), self.spec_sizes(), n as int)
        &&& self.spec_cols() == count_selected(self.spec_joints(), n as int)
    }

    /// A model laid out for the empty tree.
    pub fn new() -> (r: Self)
        ensures
            r.wf(0),
    {
        DifferentiableModel {
            rows: 0,
            cols: 0,
            offsets: Vec::new(),
            sizes: Vec::new(),
            selected_joints: Vec::new(),
            selected_effectors: Vec::new(),
        }
    }

    /// Lays out the Jacobian for `tree`. A node's effector is a row block when
    /// its identifier is among `selected_effectors`, with `effector_sizes[i]`
    /// rows for the node at position `i`; a node's joint is a column when its
    /// identifier is among `selected_joints`, or for every node when
    /// `selected_joints` is empty. Identifiers that name no node are ignored.
    pub fn setup<Load>(
        &mut self,
        tree: &DepthFirstArenaTree<Load>,
        selected_joints: &Vec<String>,
        selected_effectors: &Vec<String>,
        effector_sizes: &Vec<usize>,
    )
        requires
            effector_sizes@.len() == tree@.len(),
            size_total(effector_sizes@, tree@.len() as int) <= usize::MAX,
        ensures
            final(self).wf(tree@.len()),
            final(self).spec_sizes() == effector_sizes@,
            forall|i: int|
                0 <= i < tree@.len() ==> #[trigger] final(self).spec_effectors()[i] == id_listed(
                    selected_effectors@,
                    tree@[i].id@,
                ),
            forall|i: int|
                0 <= i < tree@.len() ==> #[trigger] final(self).spec_joints()[i] == (
                selected_joints@.len() == 0 || id_listed(selected_joints@, tree@[i].id@)),
    {
        let nodes = tree.iter();
        let n = nodes.len();
        let mut effs: Vec<bool> = Vec::with_capacity(n);
        let mut joints: Vec<bool> = Vec::with_capacity(n);
        let mut offsets: Vec<usize> = Vec::with_capacity(n);
        let mut sizes: Vec<usize> = Vec::with_capacity(n);
        let mut rows: usize = 0;
        let mut cols: usize = 0;
        let all_joints = selected_joints.len() == 0;
        let mut i: usize = 0;
        while i < n
            invariant
                nodes@ == tree@,
                n == nodes@.len(),
                effector_sizes@.len() == n,
                size_total(effector_sizes@, n as int) <= usize::MAX,
                all_joints == (selected_joints@.len() == 0),
                i <= n,
                effs@.len() == i,
                joints@.len() == i,
                offsets@.len() == i,
                sizes@ == effector_sizes@.subrange(0, i as int),
                forall|j: int|
                    0 <= j < i ==> #[trigger] effs@[j] == id_listed(selected_effectors@, tree@[j].id@),
                forall|j: int|
                    0 <= j < i ==> #[trigger] joints@[j] == (all_joints || id_listed(
                        selected_joints@,
                        tree@[j].id@,
                    )),
                forall|j: int| 0 <= j < i ==> #[trigger] offsets@[j] == selected_total(effs@, sizes@, j),
                rows == selected_total(effs@, sizes@, i as int),
                cols == count_selected(joints@, i as int),
            decreases n - i,
        {
            let size = effector_sizes[i];
            let eff = listed(selected_effectors, &nodes[i].id);
            let joint = all_joints || listed(selected_joints, &nodes[i].id);
            let ghost effs0 = effs@;
            let ghost sizes0 = sizes@;
            let ghost joints0 = joints@;
            proof {
                lemma_selected_total_bound(effs0, sizes0, i as int);
                assert(sizes0 =~= effector_sizes@.subrange(0, i as int));
                assert forall|m: int| 0 <= m <= i implies size_total(sizes0, m) == size_total(
                    effector_sizes@,
                    m,
                ) by {
                    lemma_size_total_prefix(sizes0, effector_sizes@, m);
                }
                lemma_size_total_mono(effector_sizes@, i as int + 1, n as int);
                lemma_count_bound(joints0, i as int);
            }
            offsets.push(rows);
            effs.push(eff);
            sizes.push(size);
            joints.push(joint);
            proof {
                assert(sizes@ =~= effector_sizes@.subrange(0, i + 1));
                lemma_selected_total_prefix(effs0, sizes0, effs@, sizes@, i as int);
                lemma_count_prefix(joints0, joints@, i as int);
                assert forall|j: int| 0 <= j < i + 1 implies #[trigger] offsets@[j] == selected_total(
                    effs@,
                    sizes@,
                    j,
                ) by {
                    lemma_selected_total_prefix(effs0, sizes0, effs@, sizes@, j);
                }
            }
            if eff {
                rows = rows + size;
            }
            if joint {
                cols = cols + 1;
            }
            i += 1;
        }
        proof {
            assert(sizes@ =~= effector_sizes@.subrange(0, n as int));
            assert(effector_sizes@.subrange(0, n as int) =~= effector_sizes@);
        }
        self.rows = rows;
        self.cols = cols;
        self.offsets = offsets;
        self.sizes = sizes;
        self.selected_joints = joints;
        self.selected_effectors = effs;
    }

    /// Number of rows of the Jacobian.
    pub fn rows(&self) -> (r: usize)
        ensures
            r == self.spec_rows(),
    {
        self.rows
    }

    /// Number of columns of the Jacobian.
    pub fn cols(&self) -> (r: usize)
        ensures
            r == self.spec_cols(),
    {
        self.cols
    }

    /// Rows and columns of the Jacobian.
    pub fn shape(&self) -> (r: (usize, usize))
        ensures
            r == (self.spec_rows() as usize, self.spec_cols() as usize),
    {
        (self.rows, self.cols)
    }

    /// For each node, whether its joint is a column.
    pub fn active(&self) -> (r: &Vec<bool>)
        ensures
            r@ == self.spec_joints(),
    {
        &self.selected_joints
    }

    /// For each node, whether its effector is a row block.
    pub fn effector_selection(&self) -> (r: &Vec<bool>)
        ensures
            r@ == self.spec_effectors(),
    {
        &self.selected_effectors
    }

    /// For each node, the row at which its effector block starts.
    pub fn offsets(&self) -> (r: &Vec<usize>)
        ensures
            r@ == self.spec_offsets(),
    {
        &self.offsets
    }

    /// For each node, the number of rows of its effector block.
    pub fn sizes(&self) -> (r: &Vec<usize>)
        ensures
            r@ == self.spec_sizes(),
    {
        &self.sizes
    }

    /// The positions of the selected joints in stored order: column `k` of the
    /// Jacobian belongs to the joint at the `k`-th returned position.
    pub fn joint_columns(&self) -> (r: Vec<usize>)
        ensures
            r@ == selected_in(self.spec_joints(), 0, self.spec_joints().len() as int),
    {
        selected_positions(&self.selected_joints, 0, self.selected_joints.len())
    }

    /// The selected effectors that the column of the joint at position `joint`
    /// has to visit: those of the joint's own subtree, which in a depth-first
    /// layout are the positions `joint .. joint + width`.
    pub fn column_effectors<Load>(&self, tree: &DepthFirstArenaTree<Load>, joint: usize) -> (r: Vec<usize>)
        requires
            tree.wf(),
            self.wf(tree@.len()),
            joint < tree@.len(),
        ensures
            r@ == selected_in(self.spec_effectors(), joint as int, joint + tree@[joint as int].width),
    {
        let node = tree.node(joint);
        let n = tree.len();
        proof {
            assert(compact_node_wf(tree@, joint as int));
            assert(compact_links_wf(tree@, joint as int));
        }
        selected_positions(&self.selected_effectors, joint, joint + node.width)
    }
}

proof fn lemma_size_total_prefix(a: Seq<usize>, b: Seq<usize>, m: int)
    requires
        m <= a.len(),
        m <= b.len(),
        forall|k: int| 0 <= k < m ==> a[k] == b[k],
    ensures
        size_total(a, m) == size_total(b, m),
    decreases m,
{
    if m > 0 {
        lemma_size_total_prefix(a, b, m - 1);
    }
}

proof fn lemma_selected_total_prefix(s1: Seq<bool>, z1: Seq<usize>, s2: Seq<bool>, z2: Seq<usize>, m: int)
    requires
        m <= s1.len(),
        m <= s2.len(),
        m <= z1.len(),
        m <= z2.len(),
        forall|k: int| 0 <= k < m ==> s1[k] == s2[k] && z1[k] == z2[k],
    ensures
        selected_total(s1, z1, m) == selected_total(s2, z2, m),
    decreases m,
{
    if m > 0 {
        lemma_selected_total_prefix(s1, z1, s2, z2, m - 1);
    }
}

proof fn lemma_count_prefix(s1: Seq<bool>, s2: Seq<bool>, m: int)
    requires
        m <= s1.len(),
        m <= s2.len(),
        forall|k: int| 0 <= k < m ==> s1[k] == s2[k],
    ensures
        count_selected(s1, m) == count_selected(s2, m),
    decreases m,
{
    if m > 0 {
        lemma_count_prefix(s1, s2, m - 1);
    }
}

/// The positions in `[lo, hi)` that `sel` selects, in increasing order.
pub fn selected_positions(sel: &Vec<bool>, lo: usize, hi: usize) -> (r: Vec<usize>)
    requires
        lo <= hi <= sel@.len(),
    ensures
        r@ == selected_in(sel@, lo as int, hi as int),
{
    let mut r: Vec<usize> = Vec::new();
    let mut k: usize = lo;
    while k < hi
        invariant
            lo <= k <= hi,
            hi <= sel@.len(),
            r@ == selected_in(sel@, lo as int, k as int),
        decreases hi - k,
    {
        if sel[k] {
            r.push(k);
        }
        proof {
            assert(selected_in(sel@, lo as int, k + 1) == selected_in(sel@, lo as int, k as int) + if sel@[k as int] {
                seq![k]
            } else {
                Seq::<usize>::empty()
            });
            if !sel@[k as int] {
                assert(r@ =~= selected_in(sel@, lo as int, k + 1));
            }
        }
        k += 1;
    }
    r
}

} // verus!
