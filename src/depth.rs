//! Depth-first capture of an insertion-ordered tree, and the depth-first-ordered
//! tree it converts into.
use vstd::prelude::*;
use vstd::std_specs::cmp::PartialEqSpec;

use std::collections::HashMap;

use crate::directed::{has_id, id_position, index_ids, lookup_id, DirectedArenaTree};
use crate::errors::MannequinError;
use crate::iterables::{BaseDirectionIterable, DepthFirstIterable, OptimizedDirectionIterable};
use crate::node::{
    arena_wf, children_of, find_load, ids_unique, is_ancestor_or_self, lemma_ancestor_trans, node_wf,
    ArenaIndex, ArenaNode,
};
use crate::layout::{lemma_cover, lemma_relaid_node, lemma_root_preorder_is_permutation, relaid};
use crate::utils::{is_permutation, reordered, sort_by_indices};

verus! {

/// Pre-order of the subtree rooted at position `a`: the node, then the
/// pre-orders of its children in the order they are listed.
pub open spec fn preorder<L>(nodes: Seq<ArenaNode<L>>, a: usize) -> Seq<usize>
    decreases nodes.len() - a + 1, 0int,
{
    if a < nodes.len() {
        seq![a] + forest(nodes, child_positions(nodes, a), a)
    } else {
        seq![]
    }
}

/// The pre-orders of the subtrees rooted at `cs`, one after the other. Each
/// position of `cs` must lie after `bound`; the walk stops at the first that
/// does not.
pub open spec fn forest<L>(nodes: Seq<ArenaNode<L>>, cs: Seq<usize>, bound: usize) -> Seq<usize>
    decreases nodes.len() - bound, cs.len(),
{
    if cs.len() == 0 {
        seq![]
    } else if bound < cs[0] < nodes.len() {
        preorder(nodes, cs[0]) + forest(nodes, cs.drop_first(), bound)
    } else {
        seq![]
    }
}

/// The child positions of node `a`.
pub open spec fn child_positions<L>(nodes: Seq<ArenaNode<L>>, a: usize) -> Seq<usize> {
    nodes[a as int].children@.map_values(|c: ArenaIndex| c.0)
}

/// What a depth-first walk still has to emit when its stack holds `stack`:
/// for each frame, from the top down, the subtrees of the children that the
/// frame has not entered yet.
pub open spec fn pending<L>(nodes: Seq<ArenaNode<L>>, stack: Seq<(usize, usize)>) -> Seq<usize>
    decreases stack.len(),
{
    if stack.len() == 0 {
        seq![]
    } else {
        let (node, next) = stack.last();
        let cs = child_positions(nodes, node);
        forest(nodes, cs.subrange(next as int, cs.len() as int), node) + pending(nodes, stack.drop_last())
    }
}

/// Every position in a pre-order is a position of the arena.
pub proof fn lemma_preorder_in_range<L>(nodes: Seq<ArenaNode<L>>, a: usize)
    ensures
        forall|k: int| 0 <= k < preorder(nodes, a).len() ==> #[trigger] preorder(nodes, a)[k] < nodes.len(),
    decreases nodes.len() - a + 1, 0int,
{
    if a < nodes.len() {
        let f = forest(nodes, child_positions(nodes, a), a);
        lemma_forest_in_range(nodes, child_positions(nodes, a), a);
        let p = preorder(nodes, a);
        assert forall|k: int| 0 <= k < p.len() implies #[trigger] p[k] < nodes.len() by {
            if k > 0 {
                assert(p[k] == f[k - 1]);
            }
        }
    }
}

/// Every position in a forest's pre-order is a position of the arena.
pub proof fn lemma_forest_in_range<L>(nodes: Seq<ArenaNode<L>>, cs: Seq<usize>, bound: usize)
    ensures
        forall|k: int| 0 <= k < forest(nodes, cs, bound).len() ==> #[trigger] forest(nodes, cs, bound)[k] < nodes.len(),
    decreases nodes.len() - bound, cs.len(),
{
    if cs.len() > 0 && bound < cs[0] < nodes.len() {
        lemma_preorder_in_range(nodes, cs[0]);
        lemma_forest_in_range(nodes, cs.drop_first(), bound);
        let f = forest(nodes, cs, bound);
        let p = preorder(nodes, cs[0]);
        let g = forest(nodes, cs.drop_first(), bound);
        assert forall|k: int| 0 <= k < f.len() implies #[trigger] f[k] < nodes.len() by {
            if k < p.len() {
                assert(f[k] == p[k]);
            } else {
                assert(f[k] == g[k - p.len()]);
            }
        }
    }
}

/// Depth-first (pre-order) iterator over a subtree of an insertion-ordered
/// tree. It keeps an explicit stack with one frame per level of the current
/// path, each frame holding the next child to enter, so its extra memory is
/// bounded by the depth of the tree rather than by the call stack.
pub struct DepthFirstIterator<'a, Load> {
    nodes: &'a Vec<ArenaNode<Load>>,
    stack: Vec<(usize, usize)>,
    root: Option<usize>,
}

impl<'a, Load> DepthFirstIterator<'a, Load> {
    /// The arena being walked.
    pub closed spec fn arena(&self) -> Seq<ArenaNode<Load>> {
        self.nodes@
    }

    /// The positions still to be visited, in order.
    pub closed spec fn remaining(&self) -> Seq<usize> {
        match self.root {
            Some(r) => preorder(self.nodes@, r),
            None => pending(self.nodes@, self.stack@),
        }
    }

    /// The iterator's internal consistency.
    pub closed spec fn inv(&self) -> bool {
        &&& arena_wf(self.nodes@)
        &&& forall|k: int|
            0 <= k < self.stack@.len() ==> {
                &&& (#[trigger] self.stack@[k]).0 < self.nodes@.len()
                &&& self.stack@[k].1 <= self.nodes@[self.stack@[k].0 as int].children@.len()
            }
        &&& self.root matches Some(r) ==> r < self.nodes@.len() && self.stack@.len() == 0
    }

    /// An iterator over the subtree rooted at `root`.
    pub fn new(tree: &'a DirectedArenaTree<Load>, root: ArenaIndex) -> (r: Self)
        requires
            tree.wf(),
            root.0 < tree@.len(),
        ensures
            r.inv(),
            r.arena() == tree@,
            r.remaining() == preorder(tree@, root.0),
    {
        DepthFirstIterator { nodes: tree.storage(), stack: Vec::new(), root: Some(root.0) }
    }

    /// The next node in pre-order, or `None` when the subtree is exhausted.
    pub fn next(&mut self) -> (r: Option<&'a ArenaNode<Load>>)
        requires
            old(self).inv(),
        ensures
            final(self).inv(),
            final(self).arena() == old(self).arena(),
            old(self).remaining().len() == 0 ==> r is None && final(self).remaining().len() == 0,
            old(self).remaining().len() > 0 ==> (r matches Some(n) && *n == old(self).arena()[old(
                self,
            ).remaining()[0] as int] && final(self).remaining() == old(self).remaining().drop_first()),
    {
        let ghost before = self.remaining();
        assert(before == old(self).remaining());
        if let Some(root) = self.root {
            self.root = None;
            self.stack.push((root, 0));
            proof {
                let nodes = self.nodes@;
                let cs = child_positions(nodes, root);
                assert(cs.subrange(0, cs.len() as int) =~= cs);
                assert(self.stack@.drop_last() =~= Seq::<(usize, usize)>::empty());
                assert(self.stack@.last() == (root, 0usize));
                assert(pending(nodes, Seq::<(usize, usize)>::empty()) == Seq::<usize>::empty());
                assert(pending(nodes, self.stack@) == forest(nodes, cs.subrange(0, cs.len() as int), root)
                    + pending(nodes, self.stack@.drop_last()));
                assert(pending(nodes, self.stack@) =~= forest(nodes, cs, root));
                assert(before =~= seq![root] + pending(nodes, self.stack@));
                assert(before.drop_first() =~= self.remaining());
            }
            return Some(&self.nodes[root]);
        }
        while self.stack.len() > 0
            invariant
                before == old(self).remaining(),
                self.root is None,
                self.inv(),
                self.arena() == old(self).arena(),
                self.remaining() == before,
            decreases self.stack@.len(),
        {
            let top = self.stack.len() - 1;
            let (node, next) = self.stack[top];
            let nodes = self.nodes;
            proof {
                assert(self.stack@[top as int] == self.stack@.last());
                assert(node_wf(nodes@, node as int));
            }
            if next < nodes[node].children.len() {
                let c = nodes[node].children[next].0;
                let ghost old_stack = self.stack@;
                let ghost cs = child_positions(nodes@, node);
                self.stack.set(top, (node, next + 1));
                self.stack.push((c, 0));
                proof {
                    let stack = self.stack@;
                    assert(cs[next as int] == c);
                    assert(node < c < nodes@.len());
                    let rest = cs.subrange(next as int, cs.len() as int);
                    assert(rest[0] == c);
                    assert(rest.drop_first() =~= cs.subrange(next + 1, cs.len() as int));
                    assert(forest(nodes@, rest, node) == preorder(nodes@, c) + forest(
                        nodes@,
                        cs.subrange(next + 1, cs.len() as int),
                        node,
                    ));
                    let ccs = child_positions(nodes@, c);
                    assert(ccs.subrange(0, ccs.len() as int) =~= ccs);
                    assert(stack.drop_last().drop_last() =~= old_stack.drop_last());
                    assert(stack.drop_last().last() == (node, (next + 1) as usize));
                    assert(stack.last() == (c, 0usize));
                    assert(pending(nodes@, stack.drop_last()) == forest(
                        nodes@,
                        cs.subrange(next + 1, cs.len() as int),
                        node,
                    ) + pending(nodes@, old_stack.drop_last()));
                    assert(pending(nodes@, stack) == forest(nodes@, ccs.subrange(0, ccs.len() as int), c)
                        + pending(nodes@, stack.drop_last()));
                    assert(pending(nodes@, old_stack) =~= forest(nodes@, rest, node) + pending(
                        nodes@,
                        old_stack.drop_last(),
                    ));
                    assert(before =~= seq![c] + pending(nodes@, stack));
                    assert(before.drop_first() =~= self.remaining());
                    assert forall|k: int| 0 <= k < stack.len() implies {
                        &&& (#[trigger] stack[k]).0 < nodes@.len()
                        &&& stack[k].1 <= nodes@[stack[k].0 as int].children@.len()
                    } by {
                        if k < top {
                            assert(stack[k] == old_stack[k]);
                        }
                    }
                }
                return Some(&nodes[c]);
            } else {
                let ghost old_stack = self.stack@;
                self.stack.pop();
                proof {
                    let cs = child_positions(nodes@, node);
                    assert(cs.subrange(next as int, cs.len() as int) =~= Seq::<usize>::empty());
                    assert(self.stack@ =~= old_stack.drop_last());
                    assert(pending(nodes@, old_stack) =~= pending(nodes@, self.stack@));
                }
            }
        }
        proof {
            assert(self.stack@.len() == 0);
            assert(self.remaining() =~= Seq::<usize>::empty());
        }
        None
    }
}

/// Visits the subtree rooted at `root` depth-first and returns the positions
/// in the order visited.
pub fn depth_first_order<Load>(tree: &DirectedArenaTree<Load>, root: usize) -> (r: Vec<usize>)
    requires
        tree.wf(),
        root < tree@.len(),
    ensures
        r@ == preorder(tree@, root),
{
    let mut order: Vec<usize> = Vec::new();
    let mut walk = DepthFirstIterator::new(tree, ArenaIndex(root));
    proof {
        lemma_preorder_in_range(tree@, root);
    }
    loop
        invariant
            forall|k: int|
                0 <= k < preorder(tree@, root).len() ==> #[trigger] preorder(tree@, root)[k] < tree@.len(),
            tree.wf(),
            walk.inv(),
            walk.arena() == tree@,
            order@ + walk.remaining() == preorder(tree@, root),
        ensures
            order@ == preorder(tree@, root),
        decreases walk.remaining().len(),
    {
        let ghost before = walk.remaining();
        match walk.next() {
            Some(node) => {
                proof {
                    assert(before[0] == preorder(tree@, root)[order@.len() as int]);
                    assert(node_wf(tree@, before[0] as int));
                }
                order.push(node.index.0);
                proof {
                    assert(order@ + walk.remaining() =~= preorder(tree@, root));
                }
            },
            None => {
                proof {
                    assert(order@ =~= preorder(tree@, root));
                }
                break;
            },
        }
    }
    order
}


/// Layout conditions of the node at position `i` of a depth-first-ordered
/// arena. Its subtree occupies `[i, i + width)`; that range lies inside its
/// parent's; its children are listed in order and tile `[i + 1, i + width)`,
/// the first starting right after the node and each next one where the
/// previous one's subtree ends.
pub open spec fn compact_node_wf<L>(nodes: Seq<ArenaNode<L>>, i: int) -> bool {
    &&& compact_links_wf(nodes, i)
    &&& compact_children_wf(nodes, i)
}

/// The node's own position, its range and its parent link.
pub open spec fn compact_links_wf<L>(nodes: Seq<ArenaNode<L>>, i: int) -> bool {
    let w = nodes[i].width as int;
    &&& nodes[i].index.0 == i
    &&& 1 <= w && i + w <= nodes.len()
    &&& if i == 0 {
        nodes[i].parent_ref is None && nodes[i].depth == 0
    } else {
        &&& nodes[i].parent_ref is Some
        &&& nodes[i].parent_ref.unwrap().0 < i
        &&& nodes[i].depth == nodes[nodes[i].parent_ref.unwrap().0 as int].depth + 1
        &&& i + w <= nodes[i].parent_ref.unwrap().0 + nodes[nodes[i].parent_ref.unwrap().0 as int].width
    }
}

/// The node's children point back to it and tile the rest of its range.
pub open spec fn compact_children_wf<L>(nodes: Seq<ArenaNode<L>>, i: int) -> bool {
    let w = nodes[i].width as int;
    let cs = nodes[i].children@;
    &&& forall|k: int|
        #![trigger cs[k]]
        0 <= k < cs.len() ==> cs[k].0 < nodes.len() && nodes[cs[k].0 as int].parent_ref == Some(
            ArenaIndex(i as usize),
        )
    &&& cs.len() == 0 ==> w == 1
    &&& cs.len() > 0 ==> cs[0].0 == i + 1 && cs.last().0 + nodes[cs.last().0 as int].width == i + w
    &&& forall|k: int|
        #![trigger cs[k + 1]]
        0 <= k < cs.len() - 1 ==> cs[k + 1].0 == cs[k].0 + nodes[cs[k].0 as int].width
}

/// Well-formedness of a depth-first-ordered arena: every node satisfies the
/// layout conditions and identifiers are unique.
pub open spec fn compact_wf<L>(nodes: Seq<ArenaNode<L>>) -> bool {
    &&& forall|i: int| 0 <= i < nodes.len() ==> #[trigger] compact_node_wf(nodes, i)
    &&& ids_unique(nodes)
}

/// For a permutation `order`, the table that sends each old position to the
/// position where `order` places it.
fn inverse_positions(order: &Vec<ArenaIndex>) -> (pos: Vec<usize>)
    requires
        is_permutation(order@),
    ensures
        pos@.len() == order@.len(),
        forall|k: int| 0 <= k < order@.len() ==> pos@[#[trigger] order@[k].0 as int] == k,
{
    let n = order.len();
    let mut pos: Vec<usize> = vec![0; n];
    let mut k: usize = 0;
    while k < n
        invariant
            n == order@.len(),
            n == pos@.len(),
            k <= n,
            is_permutation(order@),
            forall|j: int| 0 <= j < k ==> pos@[#[trigger] order@[j].0 as int] == j,
        decreases n - k,
    {
        let x = order[k].0;
        pos.set(x, k);
        proof {
            assert forall|j: int| 0 <= j < k + 1 implies pos@[#[trigger] order@[j].0 as int] == j by {
                if j < k {
                    assert(order@[j] != order@[k as int]);
                }
            }
        }
        k += 1;
    }
    pos
}

/// `c` sent through the position table `pos`.
pub open spec fn relabel(pos: Seq<usize>, c: ArenaIndex) -> ArenaIndex {
    ArenaIndex(pos[c.0 as int])
}

/// Rewrites every stored position (each node's own, its parent's and its
/// children's) through the table `pos`, leaving the nodes where they are.
pub fn update_child_indices<Load>(nodes: &mut Vec<ArenaNode<Load>>, pos: &Vec<usize>)
    requires
        pos@.len() == old(nodes)@.len(),
        forall|i: int|
            #![trigger old(nodes)@[i]]
            0 <= i < old(nodes)@.len() ==> {
                &&& old(nodes)@[i].index.0 < pos@.len()
                &&& (old(nodes)@[i].parent_ref matches Some(q) ==> q.0 < pos@.len())
                &&& forall|k: int|
                    0 <= k < old(nodes)@[i].children@.len() ==> (#[trigger] old(nodes)@[i].children@[k]).0
                        < pos@.len()
            },
    ensures
        final(nodes)@.len() == old(nodes)@.len(),
        forall|i: int|
            #![trigger final(nodes)@[i]]
            0 <= i < old(nodes)@.len() ==> {
                let a = old(nodes)@[i];
                let b = final(nodes)@[i];
                &&& b.load == a.load
                &&& b.id == a.id
                &&& b.width == a.width
                &&& b.depth == a.depth
                &&& b.index == relabel(pos@, a.index)
                &&& b.parent_ref == match a.parent_ref {
                    Some(q) => Some(relabel(pos@, q)),
                    None => None,
                }
                &&& b.children@ == a.children@.map_values(|c: ArenaIndex| relabel(pos@, c))
            },
{
    let n = nodes.len();
    let mut i: usize = 0;
    while i < n
        invariant
            n == nodes@.len(),
            n == old(nodes)@.len(),
            pos@.len() == n,
            i <= n,
            forall|j: int|
                #![trigger old(nodes)@[j]]
                0 <= j < n ==> {
                    &&& old(nodes)@[j].index.0 < pos@.len()
                    &&& (old(nodes)@[j].parent_ref matches Some(q) ==> q.0 < pos@.len())
                    &&& forall|k: int|
                        0 <= k < old(nodes)@[j].children@.len() ==> (#[trigger] old(nodes)@[j].children@[k]).0
                            < pos@.len()
                },
            forall|j: int| i <= j < n ==> #[trigger] nodes@[j] == old(nodes)@[j],
            forall|j: int|
                #![trigger nodes@[j]]
                0 <= j < i ==> {
                    let a = old(nodes)@[j];
                    let b = nodes@[j];
                    &&& b.load == a.load
                    &&& b.id == a.id
                    &&& b.width == a.width
                    &&& b.depth == a.depth
                    &&& b.index == relabel(pos@, a.index)
                    &&& b.parent_ref == match a.parent_ref {
                        Some(q) => Some(relabel(pos@, q)),
                        None => None,
                    }
                    &&& b.children@ == a.children@.map_values(|c: ArenaIndex| relabel(pos@, c))
                },
        decreases n - i,
    {
        assert(nodes@[i as int] == old(nodes)@[i as int]);
        let m = nodes[i].children.len();
        let mut children: Vec<ArenaIndex> = Vec::with_capacity(m);
        let mut k: usize = 0;
        while k < m
            invariant
                n == nodes@.len(),
                i < n,
                pos@.len() == n,
                m == nodes@[i as int].children@.len(),
                k <= m,
                forall|k2: int|
                    0 <= k2 < nodes@[i as int].children@.len() ==> (#[trigger] nodes@[i as int].children@[k2]).0
                        < pos@.len(),
                children@ =~= nodes@[i as int].children@.subrange(0, k as int).map_values(
                    |c: ArenaIndex| relabel(pos@, c),
                ),
            decreases m - k,
        {
            let c = nodes[i].children[k].0;
            children.push(ArenaIndex(pos[c]));
            k += 1;
        }
        let idx = nodes[i].index.0;
        let ghost before = nodes@;
        nodes[i].index = ArenaIndex(pos[idx]);
        match nodes[i].parent_ref {
            Some(q) => {
                nodes[i].parent_ref = Some(ArenaIndex(pos[q.0]));
            },
            None => {},
        }
        proof {
            assert(nodes@[i as int].children@.subrange(0, m as int) =~= nodes@[i as int].children@);
        }
        nodes[i].children = children;
        proof {
            assert forall|j: int| 0 <= j < n && j != i implies #[trigger] nodes@[j] == before[j] by {}
        }
        i += 1;
    }
}

/// A tree stored in depth-first (pre-order) layout: every subtree occupies
/// the contiguous range of positions that starts at its root and spans its
/// width. It is obtained from a `DirectedArenaTree` and offers no structural
/// change, only access to payloads.
pub struct DepthFirstArenaTree<Load> {
    nodes: Vec<ArenaNode<Load>>,
    lookup: HashMap<String, usize>,
}

impl<Load> View for DepthFirstArenaTree<Load> {
    type V = Seq<ArenaNode<Load>>;

    closed spec fn view(&self) -> Seq<ArenaNode<Load>> {
        self.nodes@
    }
}

impl<Load> DepthFirstArenaTree<Load> {
    /// Well-formedness: see `compact_wf`.
    pub open spec fn wf(&self) -> bool {
        compact_wf(self@)
    }

    /// Converts `tree` into depth-first layout. The nodes are visited
    /// depth-first from the root and the k-th node visited moves to position
    /// k: every stored position (own, parent, children) is rewritten to the
    /// new numbering first, then the storage is permuted in place. The result
    /// satisfies the depth-first layout conditions, so every subtree is a
    /// contiguous range.
    pub fn from_directed(tree: DirectedArenaTree<Load>) -> (r: Self)
        requires
            tree.wf(),
        ensures
            r.wf(),
            r@.len() == tree@.len(),
            forall|k: int|
                #![trigger r@[k]]
                0 <= k < r@.len() ==> {
                    let old = tree@[preorder(tree@, 0)[k] as int];
                    &&& preorder(tree@, 0).len() == tree@.len()
                    &&& r@[k].load == old.load
                    &&& r@[k].id == old.id
                    &&& r@[k].width == old.width
                    &&& r@[k].depth == old.depth
                },
    {
        let ghost old_nodes = tree@;
        if tree.len() == 0 {
            return DepthFirstArenaTree { nodes: tree.into_nodes(), lookup: HashMap::new() };
        }
        let visit = depth_first_order(&tree, 0);
        let mut nodes = tree.into_nodes();
        let n = nodes.len();
        let mut order: Vec<ArenaIndex> = Vec::with_capacity(visit.len());
        let mut k: usize = 0;
        while k < visit.len()
            invariant
                k <= visit@.len(),
                order@ =~= visit@.subrange(0, k as int).map_values(|x: usize| ArenaIndex(x)),
            decreases visit@.len() - k,
        {
            order.push(ArenaIndex(visit[k]));
            k += 1;
        }
        let ghost ord = visit@;
        proof {
            assert(visit@.subrange(0, visit@.len() as int) =~= visit@);
            assert forall|i: int| 0 <= i < n implies #[trigger] node_wf(nodes@, i) by {}
            lemma_root_preorder_is_permutation(old_nodes);
            assert forall|i: int| 0 <= i < order@.len() implies #[trigger] order@[i].0 == ord[i] by {}
            assert(is_permutation(order@)) by {
                assert forall|i: int| 0 <= i < order@.len() implies #[trigger] order@[i].0 < order@.len() by {
                    assert(order@[i].0 == ord[i]);
                }
                assert forall|i: int, j: int|
                    0 <= i < order@.len() && 0 <= j < order@.len() && i != j implies #[trigger] order@[i]
                    != #[trigger] order@[j] by {
                    assert(order@[i].0 == ord[i] && order@[j].0 == ord[j]);
                }
            }
        }
        let pos = inverse_positions(&order);
        proof {
            assert forall|i: int|
                #![trigger nodes@[i]]
                0 <= i < nodes@.len() implies {
                    &&& nodes@[i].index.0 < pos@.len()
                    &&& (nodes@[i].parent_ref matches Some(q) ==> q.0 < pos@.len())
                    &&& forall|k: int|
                        0 <= k < nodes@[i].children@.len() ==> (#[trigger] nodes@[i].children@[k]).0
                            < pos@.len()
                } by {
                assert(node_wf(nodes@, i));
            }
        }
        update_child_indices(&mut nodes, &pos);
        let ghost relabelled = nodes@;
        sort_by_indices(nodes.as_mut_slice(), order);
        proof {
            assert(nodes@ == reordered(relabelled, order@));
            assert forall|k: int| 0 <= k < n implies #[trigger] nodes@[k] == relabelled[ord[k] as int] by {
                assert(order@[k].0 == ord[k]);
            }
            assert forall|k: int| 0 <= k < n implies #[trigger] ord[k] < n && pos@[ord[k] as int] == k by {
                assert(order@[k].0 == ord[k]);
            }
            assert forall|y: int| 0 <= y < n implies #[trigger] pos@[y] < n && ord[pos@[y] as int] == y by {
                crate::node::lemma_root_ancestor(old_nodes, y);
                let k = lemma_cover(old_nodes, 0, y);
                assert(order@[k].0 == ord[k]);
            }
            assert(relaid(old_nodes, ord, pos@, nodes@)) by {
                assert forall|k: int|
                    #![trigger nodes@[k]]
                    0 <= k < n implies {
                        let a = old_nodes[ord[k] as int];
                        let b = nodes@[k];
                        &&& b.width == a.width
                        &&& b.depth == a.depth
                        &&& b.index == relabel(pos@, a.index)
                        &&& b.parent_ref == match a.parent_ref {
                            Some(q) => Some(relabel(pos@, q)),
                            None => None,
                        }
                        &&& b.children@ == a.children@.map_values(|c: ArenaIndex| relabel(pos@, c))
                    } by {
                    assert(nodes@[k] == relabelled[ord[k] as int]);
                }
            }
            assert forall|k: int| 0 <= k < n implies #[trigger] compact_node_wf(nodes@, k) by {
                lemma_relaid_node(old_nodes, ord, pos@, nodes@, k);
            }
            assert forall|i: int, j: int|
                0 <= i < n && 0 <= j < n && i != j implies #[trigger] nodes@[i].id@ != #[trigger] nodes@[j].id@ by {
                assert(nodes@[i] == relabelled[ord[i] as int]);
                assert(nodes@[j] == relabelled[ord[j] as int]);
                assert(order@[i] != order@[j]);
                assert(order@[i].0 == ord[i] && order@[j].0 == ord[j]);
                assert(old_nodes[ord[i] as int].id == relabelled[ord[i] as int].id);
                assert(old_nodes[ord[j] as int].id == relabelled[ord[j] as int].id);
            }
            assert forall|k: int| 0 <= k < n implies {
                &&& #[trigger] nodes@[k].load == old_nodes[ord[k] as int].load
                &&& nodes@[k].id == old_nodes[ord[k] as int].id
                &&& nodes@[k].width == old_nodes[ord[k] as int].width
                &&& nodes@[k].depth == old_nodes[ord[k] as int].depth
            } by {
                assert(nodes@[k] == relabelled[ord[k] as int]);
            }
        }
        let lookup = index_ids(&nodes);
        DepthFirstArenaTree { nodes, lookup }
    }
}

impl<Load> BaseDirectionIterable<Load> for DepthFirstArenaTree<Load> {
    open spec fn arena(&self) -> Seq<ArenaNode<Load>> {
        self@
    }

    open spec fn well_formed(&self) -> bool {
        self.wf()
    }

    /// Number of nodes.
    fn len(&self) -> (r: usize)
        ensures
            r == self@.len(),
    {
        self.nodes.len()
    }

    /// Whether the tree holds no node.
    fn is_empty(&self) -> (r: bool)
        ensures
            r == (self@.len() == 0),
    {
        self.nodes.len() == 0
    }

    /// The root node, or `RootNotSet` on an empty tree.
    fn root(&self) -> (r: Result<&ArenaNode<Load>, MannequinError>)
        ensures
            self@.len() == 0 ==> r == Err::<&ArenaNode<Load>, MannequinError>(
                MannequinError::RootNotSet,
            ),
            self@.len() > 0 ==> (r matches Ok(n) && *n == self@[0]),
    {
        if self.nodes.len() == 0 {
            Err(MannequinError::RootNotSet)
        } else {
            Ok(&self.nodes[0])
        }
    }

    /// The node that carries `id`, if any.
    fn node_by_id(&self, id: &String) -> (r: Option<&ArenaNode<Load>>)
        ensures
            r is None <==> !has_id(self@, id@),
            r matches Some(n) ==> *n == self@[id_position(self@, id@)],
    {
        match lookup_id(&self.lookup, &self.nodes, id) {
            Some(i) => {
                proof {
                    let j = id_position(self@, id@);
                    assert(self@[j].id@ == id@);
                }
                Some(&self.nodes[i])
            },
            None => None,
        }
    }

    /// The first node, in stored order, whose payload equals `load`.
    fn node_by_load(&self, load: &Load) -> (r: Option<&ArenaNode<Load>>)
        where
            Load: PartialEq,
        ensures
            Load::obeys_eq_spec() ==> match r {
                Some(n) => exists|i: int|
                    0 <= i < self@.len() && *n == self@[i] && n.load.eq_spec(load) && forall|j: int|
                        0 <= j < i ==> !(#[trigger] self@[j].load).eq_spec(load),
                None => forall|j: int| 0 <= j < self@.len() ==> !(#[trigger] self@[j].load).eq_spec(load),
            },
    {
        match find_load(&self.nodes, load) {
            Some(i) => Some(&self.nodes[i]),
            None => None,
        }
    }

    /// The nodes listed as children of the tree's node that carries `node`'s
    /// identifier, or `UnknownNode` when no node carries it.
    fn children(&self, node: &ArenaNode<Load>) -> (r: Result<Vec<&ArenaNode<Load>>, MannequinError>)
        ensures
            !has_id(self@, node.id@) ==> r == Err::<Vec<&ArenaNode<Load>>, MannequinError>(
                MannequinError::UnknownNode(node.id),
            ),
            has_id(self@, node.id@) ==> (r matches Ok(v) && {
                let p = self@[id_position(self@, node.id@)];
                &&& v@.len() == p.children@.len()
                &&& forall|k: int| 0 <= k < v@.len() ==> *(#[trigger] v@[k]) == self@[p.children@[k].0 as int]
            }),
    {
        match lookup_id(&self.lookup, &self.nodes, &node.id) {
            None => Err(MannequinError::UnknownNode(node.id.clone())),
            Some(i) => {
                proof {
                    let j = id_position(self@, node.id@);
                    assert(self@[j].id@ == node.id@);
                    assert forall|a: int, k: int|
                        0 <= a < self@.len() && 0 <= k < self@[a].children@.len() implies (
                        #[trigger] self@[a].children@[k]).0 < self@.len() by {
                        assert(compact_node_wf(self@, a));
                    }
                }
                Ok(children_of(&self.nodes, i))
            },
        }
    }
}

impl<Load> OptimizedDirectionIterable<Load> for DepthFirstArenaTree<Load> {
    /// All nodes in stored order, which is depth-first order.
    fn iter(&self) -> (r: &[ArenaNode<Load>])
        ensures
            r@ == self@,
    {
        self.nodes.as_slice()
    }
}

impl<Load> DepthFirstIterable<Load> for DepthFirstArenaTree<Load> {
    /// The subtree of `root`: the nodes stored at positions
    /// `root.index .. root.index + root.width`, in depth-first order.
    fn iter_sub(&self, root: &ArenaNode<Load>) -> (r: &[ArenaNode<Load>])
        ensures
            r@ == self@.subrange(root.index.0 as int, root.index.0 + root.width),
    {
        let start = root.index.0;
        let n = self.nodes.len();
        proof {
            assert(compact_node_wf(self@, start as int));
            assert(compact_links_wf(self@, start as int));
        }
        let slice = self.nodes.as_slice();
        &slice[start..start + root.width]
    }
}

impl<Load> DepthFirstArenaTree<Load> {



    /// The node stored at `index`, or `ReferenceOutOfBound` past the end.
    pub fn node_at(&self, index: ArenaIndex) -> (r: Result<&ArenaNode<Load>, MannequinError>)
        ensures
            index.0 < self@.len() ==> (r matches Ok(n) && *n == self@[index.0 as int]),
            index.0 >= self@.len() ==> r == Err::<&ArenaNode<Load>, MannequinError>(
                MannequinError::ReferenceOutOfBound(index.0),
            ),
    {
        if index.0 < self.nodes.len() {
            Ok(&self.nodes[index.0])
        } else {
            Err(MannequinError::ReferenceOutOfBound(index.0))
        }
    }

    /// The node at position `i`.
    pub fn node(&self, i: usize) -> (r: &ArenaNode<Load>)
        requires
            i < self@.len(),
        ensures
            *r == self@[i as int],
    {
        &self.nodes[i]
    }






    /// Replaces the payload of the node at position `i` and returns the tree's
    /// structure untouched.
    pub fn set_load(&mut self, i: usize, load: Load)
        requires
            old(self).wf(),
            i < old(self)@.len(),
        ensures
            final(self).wf(),
            final(self)@.len() == old(self)@.len(),
            final(self)@[i as int].load == load,
            forall|j: int|
                0 <= j < old(self)@.len() && j != i ==> #[trigger] final(self)@[j] == old(self)@[j],
            forall|j: int|
                #![trigger final(self)@[j]]
                0 <= j < old(self)@.len() ==> {
                    &&& final(self)@[j].id == old(self)@[j].id
                    &&& final(self)@[j].index == old(self)@[j].index
                    &&& final(self)@[j].width == old(self)@[j].width
                    &&& final(self)@[j].depth == old(self)@[j].depth
                    &&& final(self)@[j].parent_ref == old(self)@[j].parent_ref
                    &&& final(self)@[j].children == old(self)@[j].children
                },
    {
        let ghost before = self.nodes@;
        self.nodes[i].load = load;
        proof {
            let s = self.nodes@;
            assert forall|j: int| 0 <= j < s.len() && j != i implies #[trigger] s[j] == before[j] by {}
            assert forall|j: int| 0 <= j < s.len() implies #[trigger] compact_node_wf(s, j) by {
                assert(compact_node_wf(before, j));
                if j != 0 {
                    let q = before[j].parent_ref.unwrap().0 as int;
                    assert(s[q].width == before[q].width && s[q].depth == before[q].depth);
                }
                let cs = before[j].children@;
                assert forall|k: int| #![trigger cs[k]] 0 <= k < cs.len() implies {
                    let c = cs[k].0 as int;
                    &&& s[c].parent_ref == before[c].parent_ref
                    &&& s[c].width == before[c].width
                } by {}
            }
            assert forall|a: int, b: int|
                0 <= a < s.len() && 0 <= b < s.len() && a != b implies #[trigger] s[a].id@ != #[trigger] s[b].id@ by {
                assert(s[a].id == before[a].id && s[b].id == before[b].id);
            }
        }
    }
}



/// In a depth-first layout a descendant's range lies inside its ancestor's.
proof fn lemma_descendant_inside<L>(nodes: Seq<ArenaNode<L>>, a: int, j: int)
    requires
        compact_wf(nodes),
        0 <= a < nodes.len(),
        0 <= j < nodes.len(),
        is_ancestor_or_self(nodes, a, j),
    ensures
        a <= j,
        j + nodes[j].width <= a + nodes[a].width,
    decreases j,
{
    assert(compact_node_wf(nodes, j));
    assert(compact_links_wf(nodes, j));
    if a != j {
        let p = nodes[j].parent_ref.unwrap().0 as int;
        lemma_descendant_inside(nodes, a, p);
    }
}

/// The child of `a` whose range holds position `j`, searching from the
/// `m`-th child on.
proof fn lemma_find_child<L>(nodes: Seq<ArenaNode<L>>, a: int, j: int, m: int) -> (k: int)
    requires
        compact_wf(nodes),
        0 <= a < nodes.len(),
        0 <= m < nodes[a].children@.len(),
        nodes[a].children@[m].0 <= j < a + nodes[a].width,
    ensures
        m <= k < nodes[a].children@.len(),
        nodes[a].children@[k].0 <= j < nodes[a].children@[k].0 + nodes[nodes[a].children@[k].0 as int].width,
    decreases nodes[a].children@.len() - m,
{
    let cs = nodes[a].children@;
    assert(compact_node_wf(nodes, a));
    assert(compact_children_wf(nodes, a));
    if j < cs[m].0 + nodes[cs[m].0 as int].width {
        m
    } else {
        if m == cs.len() - 1 {
            assert(cs.last() == cs[m]);
        }
        assert(cs[m + 1].0 == cs[m].0 + nodes[cs[m].0 as int].width);
        lemma_find_child(nodes, a, j, m + 1)
    }
}

/// In a depth-first layout every position inside a node's range lies in
/// its subtree.
proof fn lemma_inside_descendant<L>(nodes: Seq<ArenaNode<L>>, a: int, j: int)
    requires
        compact_wf(nodes),
        0 <= a < nodes.len(),
        a <= j < a + nodes[a].width,
    ensures
        is_ancestor_or_self(nodes, a, j),
    decreases nodes[a].width,
{
    assert(compact_node_wf(nodes, a));
    assert(compact_links_wf(nodes, a));
    assert(compact_children_wf(nodes, a));
    if j != a {
        let cs = nodes[a].children@;
        let k = lemma_find_child(nodes, a, j, 0);
        let c = cs[k].0 as int;
        assert(nodes[c].parent_ref == Some(ArenaIndex(a as usize)));
        assert(compact_node_wf(nodes, c));
        assert(compact_links_wf(nodes, c));
        assert(is_ancestor_or_self(nodes, a, a));
        assert(is_ancestor_or_self(nodes, a, c));
        lemma_descendant_inside(nodes, a, c);
        lemma_inside_descendant(nodes, c, j);
        lemma_ancestor_trans(nodes, a, c, j);
    }
}

/// In a depth-first-ordered tree the subtree of every node is exactly the
/// contiguous range of positions `[a, a + width)`: a position lies in that
/// range if and only if its node descends from `a` (or is `a`).
pub proof fn lemma_subtree_contiguous<L>(nodes: Seq<ArenaNode<L>>, a: int, j: int)
    requires
        compact_wf(nodes),
        0 <= a < nodes.len(),
        0 <= j < nodes.len(),
    ensures
        is_ancestor_or_self(nodes, a, j) <==> (a <= j < a + nodes[a].width),
{
    if is_ancestor_or_self(nodes, a, j) {
        lemma_descendant_inside(nodes, a, j);
        assert(compact_node_wf(nodes, j));
        assert(compact_links_wf(nodes, j));
    }
    if a <= j < a + nodes[a].width {
        lemma_inside_descendant(nodes, a, j);
    }
}


/// Sum of the widths of the first `m` children listed in `cs`.
pub open spec fn children_width<L>(nodes: Seq<ArenaNode<L>>, cs: Seq<ArenaIndex>, m: int) -> int
    decreases m,
{
    if m <= 0 {
        0
    } else {
        children_width(nodes, cs, m - 1) + nodes[cs[m - 1].0 as int].width
    }
}

/// In a depth-first-ordered tree a node's width is one more than the sum of
/// its children's widths.
pub proof fn lemma_width_is_one_plus_children<L>(nodes: Seq<ArenaNode<L>>, a: int)
    requires
        compact_wf(nodes),
        0 <= a < nodes.len(),
    ensures
        nodes[a].width == 1 + children_width(nodes, nodes[a].children@, nodes[a].children@.len() as int),
{
    assert(compact_node_wf(nodes, a));
    assert(compact_children_wf(nodes, a));
    let cs = nodes[a].children@;
    if cs.len() > 0 {
        assert forall|k: int| 0 <= k < cs.len() implies #[trigger] cs[k].0 == a + 1 + children_width(nodes, cs, k) by {
            lemma_child_start(nodes, a, k);
        }
        assert(cs.last() == cs[cs.len() - 1]);
    }
}

proof fn lemma_child_start<L>(nodes: Seq<ArenaNode<L>>, a: int, k: int)
    requires
        compact_node_wf(nodes, a),
        0 <= k < nodes[a].children@.len(),
    ensures
        nodes[a].children@[k].0 == a + 1 + children_width(nodes, nodes[a].children@, k),
    decreases k,
{
    assert(compact_children_wf(nodes, a));
    if k > 0 {
        lemma_child_start(nodes, a, k - 1);
        let j = k - 1;
        let cs = nodes[a].children@;
        assert(cs[j + 1].0 == cs[j].0 + nodes[cs[j].0 as int].width);
    }
}

} // verus!
