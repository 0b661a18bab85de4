//! The mutable, insertion-ordered arena tree: nodes are appended under a known
//! parent, and depth and subtree width are kept up to date as they arrive.
use vstd::prelude::*;
use vstd::std_specs::cmp::PartialEqSpec;

use std::collections::HashMap;

use crate::depth::{depth_first_order, lemma_preorder_in_range, preorder, DepthFirstArenaTree};
use crate::errors::MannequinError;
use crate::iterables::{BaseDirectionIterable, DirectionIterable};
use crate::node::{
    arena_wf, children_of, count_in_subtree, find_load, is_ancestor_or_self, lemma_ancestor_not_after,
    lemma_ancestor_trans, lemma_ancestry_frame, lemma_count_before, lemma_count_bound, lemma_count_frame,
    lemma_root_ancestor, lemma_root_ancestors, listed_as_child, node_wf, ArenaIndex, ArenaNode,
};

verus! {

/// Whether some node of `nodes` carries the identifier `id`.
pub open spec fn has_id<L>(nodes: Seq<ArenaNode<L>>, id: Seq<char>) -> bool {
    exists|i: int| 0 <= i < nodes.len() && #[trigger] nodes[i].id@ == id
}

/// The position of the node that carries `id` (meaningful when `has_id`).
pub open spec fn id_position<L>(nodes: Seq<ArenaNode<L>>, id: Seq<char>) -> int {
    choose|i: int| 0 <= i < nodes.len() && #[trigger] nodes[i].id@ == id
}

/// A tree stored in insertion order in one flat arena. Nodes are added under a
/// parent that is already present; the depth of each node and the width of
/// each subtree are maintained on every insertion.
pub struct DirectedArenaTree<Load> {
    nodes: Vec<ArenaNode<Load>>,
    lookup: HashMap<String, usize>,
}

impl<Load> View for DirectedArenaTree<Load> {
    type V = Seq<ArenaNode<Load>>;

    closed spec fn view(&self) -> Seq<ArenaNode<Load>> {
        self.nodes@
    }
}

/// Finds the identifier `id` through the index `lookup`, whose answer is
/// accepted once the node at that position is seen to carry `id`; when the
/// index has no valid answer the storage is searched.
pub(crate) fn lookup_id<Load>(lookup: &HashMap<String, usize>, nodes: &Vec<ArenaNode<Load>>, id: &String) -> (r:
    Option<usize>)
    ensures
        r is None <==> !has_id(nodes@, id@),
        r matches Some(i) ==> (i < nodes@.len() && nodes@[i as int].id@ == id@),
{
    if let Some(i) = lookup.get(id) {
        let i = *i;
        if i < nodes.len() && nodes[i].id == *id {
            return Some(i);
        }
    }
    find_id(nodes, id)
}

/// An index from each node's identifier to its position.
pub(crate) fn index_ids<Load>(nodes: &Vec<ArenaNode<Load>>) -> HashMap<String, usize> {
    let mut lookup: HashMap<String, usize> = HashMap::with_capacity(nodes.len());
    let mut i: usize = 0;
    while i < nodes.len()
        invariant
            i <= nodes@.len(),
        decreases nodes@.len() - i,
    {
        lookup.insert(nodes[i].id.clone(), i);
        i += 1;
    }
    lookup
}

/// Searches `nodes` for the identifier `id`.
pub(crate) fn find_id<Load>(nodes: &Vec<ArenaNode<Load>>, id: &String) -> (r: Option<usize>)
    ensures
        r is None <==> !has_id(nodes@, id@),
        r matches Some(i) ==> (i < nodes@.len() && nodes@[i as int].id@ == id@),
{
    let mut i: usize = 0;
    while i < nodes.len()
        invariant
            i <= nodes@.len(),
            forall|k: int| 0 <= k < i ==> #[trigger] nodes@[k].id@ != id@,
        decreases nodes@.len() - i,
    {
        if nodes[i].id == *id {
            return Some(i);
        }
        i += 1;
    }
    None
}

impl<Load> DirectedArenaTree<Load> {
    /// Well-formedness: see `arena_wf`.
    pub open spec fn wf(&self) -> bool {
        arena_wf(self@)
    }

    /// An empty tree.
    pub fn new() -> (r: Self)
        ensures
            r.wf(),
            r@.len() == 0,
    {
        DirectedArenaTree { nodes: Vec::new(), lookup: HashMap::new() }
    }

    /// An empty tree whose storage is reserved for `capacity` nodes.
    pub fn with_capacity(capacity: usize) -> (r: Self)
        ensures
            r.wf(),
            r@.len() == 0,
    {
        DirectedArenaTree { nodes: Vec::with_capacity(capacity), lookup: HashMap::with_capacity(capacity) }
    }

    /// Gives up the tree and hands over its storage.
    pub(crate) fn into_nodes(self) -> (r: Vec<ArenaNode<Load>>)
        ensures
            r@ == self@,
    {
        self.nodes
    }

    /// The node stored at `index`, or `ReferenceOutOfBound` past the end.
    pub fn node_at(&self, index: ArenaIndex) -> (r: Result<&ArenaNode<Load>, MannequinError>)
        ensures
            index.0 < self@.len() ==> (r matches Ok(n) && *n == self@[index.0 as int]),
            index.0 >= self@.len() ==> r == Err::<&ArenaNode<Load>, MannequinError>(
                MannequinError::ReferenceOutOfBound(index.0),
            ),
    {
        if index.0 < self.nodes.len() {
            Ok(&self.nodes[index.0])
        } else {
            Err(MannequinError::ReferenceOutOfBound(index.0))
        }
    }

    /// The storage, for the traversals of this crate.
    pub(crate) fn storage(&self) -> (r: &Vec<ArenaNode<Load>>)
        ensures
            r@ == self@,
    {
        &self.nodes
    }



    /// All nodes, in storage order.
    pub fn nodes(&self) -> (r: &[ArenaNode<Load>])
        ensures
            r@ == self@,
    {
        self.nodes.as_slice()
    }






}

impl<Load> BaseDirectionIterable<Load> for DirectedArenaTree<Load> {
    open spec fn arena(&self) -> Seq<ArenaNode<Load>> {
        self@
    }

    open spec fn well_formed(&self) -> bool {
        self.wf()
    }

    /// Number of nodes.
    fn len(&self) -> (r: usize)
        ensures
            r == self@.len(),
    {
        self.nodes.len()
    }

    /// Whether the tree holds no node.
    fn is_empty(&self) -> (r: bool)
        ensures
            r == (self@.len() == 0),
    {
        self.nodes.len() == 0
    }

    /// The root node, or `RootNotSet` on an empty tree.
    fn root(&self) -> (r: Result<&ArenaNode<Load>, MannequinError>)
        ensures
            self@.len() == 0 ==> r == Err::<&ArenaNode<Load>, MannequinError>(
                MannequinError::RootNotSet,
            ),
            self@.len() > 0 ==> (r matches Ok(n) && *n == self@[0]),
    {
        if self.nodes.len() == 0 {
            Err(MannequinError::RootNotSet)
        } else {
            Ok(&self.nodes[0])
        }
    }

    /// The node that carries `id`, if any.
    fn node_by_id(&self, id: &String) -> (r: Option<&ArenaNode<Load>>)
        ensures
            r is None <==> !has_id(self@, id@),
            r matches Some(n) ==> *n == self@[id_position(self@, id@)],
    {
        match lookup_id(&self.lookup, &self.nodes, id) {
            Some(i) => {
                proof {
                    let j = id_position(self@, id@);
                    assert(self@[j].id@ == id@);
                }
                Some(&self.nodes[i])
            },
            None => None,
        }
    }

    /// The nodes listed as children of the tree's node that carries `node`'s
    /// identifier, or `UnknownNode` when no node carries it.
    fn children(&self, node: &ArenaNode<Load>) -> (r: Result<Vec<&ArenaNode<Load>>, MannequinError>)
        ensures
            !has_id(self@, node.id@) ==> r == Err::<Vec<&ArenaNode<Load>>, MannequinError>(
                MannequinError::UnknownNode(node.id),
            ),
            has_id(self@, node.id@) ==> (r matches Ok(v) && {
                let p = self@[id_position(self@, node.id@)];
                &&& v@.len() == p.children@.len()
                &&& forall|k: int| 0 <= k < v@.len() ==> *(#[trigger] v@[k]) == self@[p.children@[k].0 as int]
            }),
    {
        match lookup_id(&self.lookup, &self.nodes, &node.id) {
            None => Err(MannequinError::UnknownNode(node.id.clone())),
            Some(i) => {
                proof {
                    let j = id_position(self@, node.id@);
                    assert(self@[j].id@ == node.id@);
                    assert forall|a: int, k: int|
                        0 <= a < self@.len() && 0 <= k < self@[a].children@.len() implies (
                        #[trigger] self@[a].children@[k]).0 < self@.len() by {
                        assert(node_wf(self@, a));
                    }
                }
                Ok(children_of(&self.nodes, i))
            },
        }
    }

    /// The first node, in storage order, whose payload equals `load`.
    fn node_by_load(&self, load: &Load) -> (r: Option<&ArenaNode<Load>>)
        where
            Load: PartialEq,
        ensures
            Load::obeys_eq_spec() ==> match r {
                Some(n) => exists|i: int|
                    0 <= i < self@.len() && *n == self@[i] && n.load.eq_spec(load) && forall|j: int|
                        0 <= j < i ==> !(#[trigger] self@[j].load).eq_spec(load),
                None => forall|j: int| 0 <= j < self@.len() ==> !(#[trigger] self@[j].load).eq_spec(load),
            },
    {
        match find_load(&self.nodes, load) {
            Some(i) => Some(&self.nodes[i]),
            None => None,
        }
    }
}

impl<Load> DirectionIterable<Load> for DirectedArenaTree<Load> {
    /// The nodes in depth-first (pre-order) order from the root.
    fn iter_depth(&self) -> (r: Vec<&ArenaNode<Load>>)
        ensures
            r@.len() == self@.len(),
            self@.len() > 0 ==> r@.len() == preorder(self@, 0).len() && forall|k: int|
                0 <= k < r@.len() ==> *(#[trigger] r@[k]) == self@[preorder(self@, 0)[k] as int],
    {
        let mut r: Vec<&ArenaNode<Load>> = Vec::new();
        let nodes = self.storage();
        if nodes.len() == 0 {
            return r;
        }
        let order = depth_first_order(self, 0);
        proof {
            lemma_preorder_in_range(self@, 0);
            crate::layout::lemma_root_preorder_is_permutation(self@);
        }
        let mut k: usize = 0;
        while k < order.len()
            invariant
                order@ == preorder(self@, 0),
                nodes@ == self@,
                forall|j: int| 0 <= j < order@.len() ==> #[trigger] order@[j] < self@.len(),
                k <= order@.len(),
                r@.len() == k,
                forall|j: int| 0 <= j < k ==> *(#[trigger] r@[j]) == self@[order@[j] as int],
            decreases order@.len() - k,
        {
            let x = order[k];
            r.push(&nodes[x]);
            k += 1;
        }
        r
    }

    /// Converts the tree into depth-first layout; see
    /// `DepthFirstArenaTree::from_directed`.
    fn iter_depth_sub(&self, root: &ArenaNode<Load>) -> (r: Vec<&ArenaNode<Load>>)
        ensures
            r@.len() == preorder(self@, root.index.0).len(),
            forall|k: int|
                0 <= k < r@.len() ==> *(#[trigger] r@[k]) == self@[preorder(self@, root.index.0)[k] as int],
    {
        let nodes = self.storage();
        let order = depth_first_order(self, root.index.0);
        proof {
            lemma_preorder_in_range(self@, root.index.0);
        }
        let mut r: Vec<&ArenaNode<Load>> = Vec::new();
        let mut k: usize = 0;
        while k < order.len()
            invariant
                order@ == preorder(self@, root.index.0),
                nodes@ == self@,
                forall|j: int| 0 <= j < order@.len() ==> #[trigger] order@[j] < self@.len(),
                k <= order@.len(),
                r@.len() == k,
                forall|j: int| 0 <= j < k ==> *(#[trigger] r@[j]) == self@[order@[j] as int],
            decreases order@.len() - k,
        {
            r.push(&nodes[order[k]]);
            k += 1;
        }
        r
    }

    fn depth_first(self) -> (r: DepthFirstArenaTree<Load>)
        ensures
            r.wf(),
            r@.len() == self@.len(),
            forall|k: int|
                #![trigger r@[k]]
                0 <= k < r@.len() ==> {
                    let old = self@[preorder(self@, 0)[k] as int];
                    &&& preorder(self@, 0).len() == self@.len()
                    &&& r@[k].load == old.load
                    &&& r@[k].id == old.id
                    &&& r@[k].width == old.width
                    &&& r@[k].depth == old.depth
                },
    {
        DepthFirstArenaTree::from_directed(self)
    }

    /// Appends a node with payload `load` and identifier `node_id` as the last
    /// child of the node identified by `parent`, and returns `node_id`. Fails with
    /// `UnknownNode(parent)` when no node carries `parent`, otherwise with
    /// `NotUnique(node_id)` when the identifier is taken; a failure leaves the
    /// tree unchanged. On success the new node sits at the next free position
    /// with depth one more than its parent's and width 1, and every ancestor of
    /// the new node, from the parent up to the root, has its width raised by one.
    #[verifier::spinoff_prover]
    fn add(&mut self, load: Load, node_id: String, parent: &String) -> (r: Result<
        String,
        MannequinError,
    >)
        ensures
            final(self).wf(),
            !has_id(old(self)@, parent@) ==> r == Err::<String, MannequinError>(
                MannequinError::UnknownNode(*parent),
            ) && final(self)@ == old(self)@,
            has_id(old(self)@, parent@) && has_id(old(self)@, node_id@) ==> r == Err::<
                String,
                MannequinError,
            >(MannequinError::NotUnique(node_id)) && final(self)@ == old(self)@,
            has_id(old(self)@, parent@) && !has_id(old(self)@, node_id@) ==> ({
                let n = old(self)@.len() as int;
                let p = id_position(old(self)@, parent@);
                &&& r == Ok::<String, MannequinError>(node_id)
                &&& final(self)@.len() == n + 1
                &&& final(self)@[n].load == load
                &&& final(self)@[n].id == node_id
                &&& final(self)@[n].depth == old(self)@[p].depth + 1
                &&& final(self)@[n].width == 1
                &&& final(self)@[n].children@.len() == 0
                &&& final(self)@[n].parent_ref == Some(ArenaIndex(p as usize))
                &&& final(self)@[p].children@ == old(self)@[p].children@.push(ArenaIndex(n as usize))
                &&& forall|a: int|
                    0 <= a < n ==> {
                        &&& #[trigger] final(self)@[a].load == old(self)@[a].load
                        &&& final(self)@[a].id == old(self)@[a].id
                        &&& final(self)@[a].depth == old(self)@[a].depth
                        &&& final(self)@[a].parent_ref == old(self)@[a].parent_ref
                        &&& final(self)@[a].index == old(self)@[a].index
                        &&& a != p ==> final(self)@[a].children == old(self)@[a].children
                        &&& final(self)@[a].width == old(self)@[a].width + if is_ancestor_or_self(
                            old(self)@,
                            a,
                            p,
                        ) {
                            1int
                        } else {
                            0int
                        }
                    }
            }),
    {
        let pi = match lookup_id(&self.lookup, &self.nodes, parent) {
            Some(i) => i,
            None => {
                return Err(MannequinError::UnknownNode(parent.clone()));
            },
        };
        if lookup_id(&self.lookup, &self.nodes, &node_id).is_some() {
            return Err(MannequinError::NotUnique(node_id));
        }
        let ghost old_nodes = self.nodes@;
        let n = self.nodes.len();
        proof {
            let j = id_position(old_nodes, parent@);
            assert(old_nodes[j].id@ == parent@);
            assert(old_nodes[pi as int].id@ == parent@);
            assert(j == pi);
            assert(node_wf(old_nodes, pi as int));
        }
        let depth = self.nodes[pi].depth + 1;
        self.nodes[pi].children.push(ArenaIndex(n));
        let mut cur: usize = pi;
        loop
            invariant_except_break
                forall|a: int|
                    0 <= a < n ==> {
                        &&& #[trigger] self.nodes@[a].load == old_nodes[a].load
                        &&& self.nodes@[a].id == old_nodes[a].id
                        &&& self.nodes@[a].depth == old_nodes[a].depth
                        &&& self.nodes@[a].parent_ref == old_nodes[a].parent_ref
                        &&& self.nodes@[a].index == old_nodes[a].index
                        &&& a != pi ==> self.nodes@[a].children == old_nodes[a].children
                        &&& self.nodes@[a].width == old_nodes[a].width + if is_ancestor_or_self(
                            old_nodes,
                            a,
                            pi as int,
                        ) && !is_ancestor_or_self(old_nodes, a, cur as int) {
                            1int
                        } else {
                            0int
                        }
                    },
            invariant
                self.nodes@.len() == n,
                n == old_nodes.len(),
                n < usize::MAX,
                arena_wf(old_nodes),
                pi < n,
                cur < n,
                is_ancestor_or_self(old_nodes, cur as int, pi as int),
                self.nodes@[pi as int].children@ == old_nodes[pi as int].children@.push(
                    ArenaIndex(n),
                ),
            ensures
                self.nodes@.len() == n,
                self.nodes@[pi as int].children@ == old_nodes[pi as int].children@.push(
                    ArenaIndex(n),
                ),
                forall|a: int|
                    0 <= a < n ==> {
                        &&& #[trigger] self.nodes@[a].load == old_nodes[a].load
                        &&& self.nodes@[a].id == old_nodes[a].id
                        &&& self.nodes@[a].depth == old_nodes[a].depth
                        &&& self.nodes@[a].parent_ref == old_nodes[a].parent_ref
                        &&& self.nodes@[a].index == old_nodes[a].index
                        &&& a != pi ==> self.nodes@[a].children == old_nodes[a].children
                        &&& self.nodes@[a].width == old_nodes[a].width + if is_ancestor_or_self(
                            old_nodes,
                            a,
                            pi as int,
                        ) {
                            1int
                        } else {
                            0int
                        }
                    },
            decreases cur,
        {
            proof {
                assert(node_wf(old_nodes, cur as int));
                lemma_count_bound(old_nodes, cur as int, n as int);
                assert(self.nodes@[cur as int].load == old_nodes[cur as int].load);
            }
            let ghost prev = self.nodes@;
            let w = self.nodes[cur].width;
            self.nodes[cur].width = w + 1;
            proof {
                assert forall|a: int| 0 <= a < n && a != cur implies #[trigger] self.nodes@[a] == prev[a] by {}
                assert(self.nodes@[cur as int].parent_ref == prev[cur as int].parent_ref);
                assert(self.nodes@[cur as int].width == prev[cur as int].width + 1);
                assert(self.nodes@[cur as int].load == prev[cur as int].load);
                assert(self.nodes@[cur as int].children == prev[cur as int].children);
                assert(self.nodes@[cur as int].id == prev[cur as int].id);
                assert(self.nodes@[cur as int].depth == prev[cur as int].depth);
                assert(self.nodes@[cur as int].index == prev[cur as int].index);
            }
            match self.nodes[cur].parent_ref {
                Some(p) => {
                    proof {
                        let q = p.0 as int;
                        assert(cur != 0);
                        assert(q < cur);
                        assert(is_ancestor_or_self(old_nodes, q, q));
                        assert(is_ancestor_or_self(old_nodes, q, cur as int));
                        lemma_ancestor_trans(old_nodes, q, cur as int, pi as int);
                        assert forall|a: int| 0 <= a < n implies (is_ancestor_or_self(old_nodes, a, cur as int)
                            <==> (a == cur || is_ancestor_or_self(old_nodes, a, q))) by {
                            if a == cur && is_ancestor_or_self(old_nodes, a, q) {
                                lemma_ancestor_not_after(old_nodes, a, q);
                            }
                        }
                        assert forall|a: int| 0 <= a < n implies {
                            &&& #[trigger] self.nodes@[a].load == old_nodes[a].load
                            &&& self.nodes@[a].id == old_nodes[a].id
                            &&& self.nodes@[a].depth == old_nodes[a].depth
                            &&& self.nodes@[a].parent_ref == old_nodes[a].parent_ref
                            &&& self.nodes@[a].index == old_nodes[a].index
                            &&& a != pi ==> self.nodes@[a].children == old_nodes[a].children
                            &&& self.nodes@[a].width == old_nodes[a].width + if is_ancestor_or_self(
                                old_nodes,
                                a,
                                pi as int,
                            ) && !is_ancestor_or_self(old_nodes, a, q) {
                                1int
                            } else {
                                0int
                            }
                        } by {
                            assert(prev[a].load == old_nodes[a].load);
                            if a == cur {
                                if is_ancestor_or_self(old_nodes, a, q) {
                                    lemma_ancestor_not_after(old_nodes, a, q);
                                }
                                assert(is_ancestor_or_self(old_nodes, a, cur as int));
                            } else {
                                assert(self.nodes@[a] == prev[a]);
                                assert(is_ancestor_or_self(old_nodes, a, cur as int) == is_ancestor_or_self(old_nodes, a, q));
                            }
                        }
                    }
                    cur = p.0;
                },
                None => {
                    proof {
                        assert(cur == 0);
                        lemma_root_ancestor(old_nodes, pi as int);
                        assert forall|a: int| 0 <= a < n implies (is_ancestor_or_self(old_nodes, a, 0)
                            <==> a == 0) by {
                            lemma_root_ancestors(old_nodes, a);
                        }
                        assert forall|a: int| 0 <= a < n implies {
                            &&& #[trigger] self.nodes@[a].load == old_nodes[a].load
                            &&& self.nodes@[a].id == old_nodes[a].id
                            &&& self.nodes@[a].depth == old_nodes[a].depth
                            &&& self.nodes@[a].parent_ref == old_nodes[a].parent_ref
                            &&& self.nodes@[a].index == old_nodes[a].index
                            &&& a != pi ==> self.nodes@[a].children == old_nodes[a].children
                            &&& self.nodes@[a].width == old_nodes[a].width + if is_ancestor_or_self(
                                old_nodes,
                                a,
                                pi as int,
                            ) {
                                1int
                            } else {
                                0int
                            }
                        } by {
                            assert(prev[a].load == old_nodes[a].load);
                            lemma_root_ancestors(old_nodes, a);
                            if a != cur {
                                assert(self.nodes@[a] == prev[a]);
                            }
                        }
                    }
                    break;
                },
            }
        }
        let ghost mid = self.nodes@;
        self.lookup.insert(node_id.clone(), n);
        self.nodes.push(ArenaNode::new(load, node_id.clone(), ArenaIndex(n), 1, Vec::new(), depth, Some(ArenaIndex(pi))));
        proof {
            let s = self.nodes@;
            assert forall|k: int| 0 <= k < n implies {
                &&& #[trigger] s[k] == mid[k]
                &&& mid[k].load == old_nodes[k].load
                &&& s[k].parent_ref == old_nodes[k].parent_ref
                &&& s[k].id == old_nodes[k].id
                &&& s[k].depth == old_nodes[k].depth
                &&& s[k].index == old_nodes[k].index
            } by {
                assert(mid[k].load == old_nodes[k].load);
            }
            assert forall|k: int| 0 <= k < n implies #[trigger] s[k].parent_ref == old_nodes[k].parent_ref by {
                assert(s[k] == mid[k]);
            }
            assert forall|a: int| 0 <= a < n + 1 implies #[trigger] count_in_subtree(s, a, n + 1) == count_in_subtree(
                old_nodes,
                a,
                n as int,
            ) + if a == n || is_ancestor_or_self(old_nodes, a, pi as int) {
                1int
            } else {
                0int
            } by {
                lemma_count_frame(s, old_nodes, a, n as int, n as int);
                if a != n {
                    lemma_ancestry_frame(s, old_nodes, a, pi as int, n as int);
                    assert(is_ancestor_or_self(s, a, n as int) == is_ancestor_or_self(s, a, pi as int));
                }
            }
            lemma_count_before(old_nodes, n as int, n as int);
            assert forall|i: int| 0 <= i < s.len() implies #[trigger] node_wf(s, i) by {
                if i < n {
                    assert(node_wf(old_nodes, i));
                    assert(s[i] == mid[i]);
                    assert(mid[i].load == old_nodes[i].load);
                    if i != 0 {
                        let q = old_nodes[i].parent_ref.unwrap().0 as int;
                        assert(s[q] == mid[q]);
                    }
                    assert forall|k: int|
                        #![trigger s[i].children@[k]]
                        0 <= k < s[i].children@.len() implies {
                        let c = s[i].children@[k].0 as int;
                        &&& i < c < s.len()
                        &&& s[c].parent_ref == Some(ArenaIndex(i as usize))
                    } by {
                        if i == pi && k == s[i].children@.len() - 1 {
                        } else {
                            assert(old_nodes[i].children@[k] == s[i].children@[k]);
                            let c = s[i].children@[k].0 as int;
                            assert(s[c] == mid[c]);
                            assert(mid[c].load == old_nodes[c].load);
                        }
                    }
                    assert forall|k1: int, k2: int|
                        0 <= k1 < k2 < s[i].children@.len() implies (#[trigger] s[i].children@[k1]).0
                        < (#[trigger] s[i].children@[k2]).0 by {
                        if i == pi && k2 == s[i].children@.len() - 1 {
                            assert(old_nodes[i].children@[k1] == s[i].children@[k1]);
                        } else {
                            assert(old_nodes[i].children@[k1] == s[i].children@[k1]);
                            assert(old_nodes[i].children@[k2] == s[i].children@[k2]);
                        }
                    }
                    if i != 0 {
                        let q = old_nodes[i].parent_ref.unwrap().0 as int;
                        assert(listed_as_child(old_nodes, i));
                        let k = choose|k: int|
                            0 <= k < old_nodes[q].children@.len() && #[trigger] old_nodes[q].children@[k].0 == i;
                        assert(s[q] == mid[q]);
                        assert(mid[q].load == old_nodes[q].load);
                        assert(s[q].children@[k] == old_nodes[q].children@[k]);
                        assert(listed_as_child(s, i));
                    }
                } else {
                    assert(s[pi as int] == mid[pi as int]);
                    assert(node_wf(old_nodes, pi as int));
                    assert(count_in_subtree(s, i, n + 1) == 1);
                    let last = s[pi as int].children@.len() - 1;
                    assert(s[pi as int].children@[last].0 == n);
                    assert(listed_as_child(s, i));
                }
            }
            assert forall|i: int, j: int|
                0 <= i < s.len() && 0 <= j < s.len() && i != j implies #[trigger] s[i].id@
                != #[trigger] s[j].id@ by {
                if i < n {
                    assert(s[i] == mid[i]);
                }
                if j < n {
                    assert(s[j] == mid[j]);
                }
                if i == n {
                    assert(old_nodes[j].id@ != node_id@);
                }
                if j == n {
                    assert(old_nodes[i].id@ != node_id@);
                }
            }
        }
        Ok(node_id)
    }

    /// Clears the tree and makes a single root node of `root_load`; returns its identifier.
    fn set_root(&mut self, root_load: Load, root_ref: String) -> (r: String)
        ensures
            final(self).wf(),
            final(self)@.len() == 1,
            final(self)@[0].load == root_load,
            final(self)@[0].id == root_ref,
            final(self)@[0].depth == 0,
            final(self)@[0].width == 1,
            final(self)@[0].children@.len() == 0,
            final(self)@[0].parent_ref is None,
            r == root_ref,
    {
        self.nodes.clear();
        self.lookup.clear();
        self.lookup.insert(root_ref.clone(), 0);
        let r = root_ref.clone();
        let root = ArenaNode::new(root_load, root_ref, ArenaIndex(0), 1, Vec::new(), 0, None);
        self.nodes.push(root);
        proof {
            let s = self.nodes@;
            assert(is_ancestor_or_self(s, 0, 0));
            assert(count_in_subtree(s, 0, 0) == 0);
            assert(count_in_subtree(s, 0, 1) == 1);
            assert(node_wf(s, 0));
        }
        r
    }
}

/// Depth law of a tree built by `set_root` and `add`: the root has depth 0
/// and no parent, and every other node has a parent stored before it and lies
/// exactly one level below that parent.
pub proof fn lemma_depth_law<L>(tree: &DirectedArenaTree<L>)
    requires
        tree.wf(),
    ensures
        tree@.len() > 0 ==> tree@[0].depth == 0 && tree@[0].parent_ref is None,
        forall|i: int|
            #![trigger tree@[i]]
            0 < i < tree@.len() ==> {
                &&& tree@[i].parent_ref is Some
                &&& tree@[i].parent_ref.unwrap().0 < i
                &&& tree@[i].depth == tree@[tree@[i].parent_ref.unwrap().0 as int].depth + 1
            },
{
    if tree@.len() > 0 {
        assert(node_wf(tree@, 0));
    }
    assert forall|i: int| #![trigger tree@[i]] 0 < i < tree@.len() implies {
        &&& tree@[i].parent_ref is Some
        &&& tree@[i].parent_ref.unwrap().0 < i
        &&& tree@[i].depth == tree@[tree@[i].parent_ref.unwrap().0 as int].depth + 1
    } by {
        assert(node_wf(tree@, i));
    }
}

/// Width law of a tree built by `set_root` and `add`: the width of every node
/// is the number of nodes of which it is an ancestor or which it is itself.
pub proof fn lemma_width_law<L>(tree: &DirectedArenaTree<L>)
    requires
        tree.wf(),
    ensures
        forall|a: int|
            0 <= a < tree@.len() ==> #[trigger] tree@[a].width == count_in_subtree(tree@, a, tree@.len() as int),
{
    assert forall|a: int| 0 <= a < tree@.len() implies #[trigger] tree@[a].width == count_in_subtree(
        tree@,
        a,
        tree@.len() as int,
    ) by {
        assert(node_wf(tree@, a));
    }
}

} // verus!
