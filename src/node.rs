//! Arena nodes and the structural model of a tree stored in an arena: parent
//! chains, ancestry and subtree sizes.
use vstd::prelude::*;
use vstd::std_specs::cmp::PartialEqSpec;

use crate::iterables::NodeLike;

verus! {

/// Position of a node in the arena storage.
#[derive(Debug, Clone, Copy, PartialEq, Eq, Structural)]
pub struct ArenaIndex(pub usize);

/// A node of an arena tree: the caller's payload plus the bookkeeping that
/// makes lookups and subtree traversal cheap.
#[derive(Debug)]
pub struct ArenaNode<Load> {
    /// The payload owned by the node.
    pub load: Load,
    /// The node's own position in the arena.
    pub index: ArenaIndex,
    /// The caller-chosen identifier, unique within a tree.
    pub id: String,
    /// Positions of the direct children, in the order they were attached.
    pub children: Vec<ArenaIndex>,
    /// Number of nodes in the subtree rooted here, the node included.
    pub width: usize,
    /// Distance to the root.
    pub depth: usize,
    /// Position of the parent; `None` only for the root.
    pub parent_ref: Option<ArenaIndex>,
}

impl<Load> ArenaNode<Load> {
    pub(crate) fn new(
        load: Load,
        id: String,
        index: ArenaIndex,
        width: usize,
        children: Vec<ArenaIndex>,
        depth: usize,
        parent_ref: Option<ArenaIndex>,
    ) -> (r: Self)
        ensures
            r.load == load,
            r.id == id,
            r.index == index,
            r.width == width,
            r.children == children,
            r.depth == depth,
            r.parent_ref == parent_ref,
    {
        ArenaNode { load, index, id, children, width, depth, parent_ref }
    }



    /// The payload, for modification.
    pub fn get_mut(&mut self) -> (r: &mut Load)
        ensures
            *r == old(self).load,
            final(self).load == *final(r),
            final(self).index == old(self).index,
            final(self).id == old(self).id,
            final(self).children == old(self).children,
            final(self).width == old(self).width,
            final(self).depth == old(self).depth,
            final(self).parent_ref == old(self).parent_ref,
    {
        &mut self.load
    }



    /// Position in the arena.
    pub fn index(&self) -> (r: ArenaIndex)
        ensures
            r == self.index,
    {
        self.index
    }

    /// Number of nodes in the subtree rooted here, the node included.
    pub fn width(&self) -> (r: usize)
        ensures
            r == self.width,
    {
        self.width
    }

    /// Positions of the direct children.
    pub fn children(&self) -> (r: &Vec<ArenaIndex>)
        ensures
            *r == self.children,
    {
        &self.children
    }

    /// Position of the parent, `None` for the root.
    pub fn parent(&self) -> (r: Option<ArenaIndex>)
        ensures
            r == self.parent_ref,
    {
        self.parent_ref
    }
}

impl<Load> NodeLike<Load> for ArenaNode<Load> {
    /// Whether the node has no children.
    fn is_leaf(&self) -> (r: bool)
        ensures
            r == (self.children@.len() == 0),
    {
        self.children.len() == 0
    }

    /// The payload.
    fn get(&self) -> (r: &Load)
        ensures
            *r == self.load,
    {
        &self.load
    }

    /// The identifier.
    fn id(&self) -> (r: &String)
        ensures
            *r == self.id,
    {
        &self.id
    }

    /// Distance to the root.
    fn depth(&self) -> (r: usize)
        ensures
            r == self.depth,
    {
        self.depth
    }
}

/// `a` is `j` itself or lies on the chain of parents from `j` up to the root.
pub open spec fn is_ancestor_or_self<L>(nodes: Seq<ArenaNode<L>>, a: int, j: int) -> bool
    decreases j,
{
    if a == j {
        true
    } else if 0 <= j < nodes.len() {
        match nodes[j].parent_ref {
            Some(p) => if 0 <= p.0 < j {
                is_ancestor_or_self(nodes, a, p.0 as int)
            } else {
                false
            },
            None => false,
        }
    } else {
        false
    }
}

/// Number of positions below `n` whose node lies in the subtree of `a`.
pub open spec fn count_in_subtree<L>(nodes: Seq<ArenaNode<L>>, a: int, n: int) -> nat
    decreases n,
{
    if n <= 0 {
        0
    } else {
        count_in_subtree(nodes, a, n - 1) + if is_ancestor_or_self(nodes, a, n - 1) {
            1nat
        } else {
            0nat
        }
    }
}

/// Local well-formedness of the node at position `i` of an insertion-ordered
/// arena: its own index, its parent link and depth, its child links and its
/// subtree width.
pub open spec fn node_wf<L>(nodes: Seq<ArenaNode<L>>, i: int) -> bool {
    &&& nodes[i].index.0 == i
    &&& nodes[i].depth <= i
    &&& if i == 0 {
        nodes[i].parent_ref is None && nodes[i].depth == 0
    } else {
        &&& nodes[i].parent_ref is Some
        &&& nodes[i].parent_ref.unwrap().0 < i
        &&& nodes[i].depth == nodes[nodes[i].parent_ref.unwrap().0 as int].depth + 1
    }
    &&& forall|k: int|
        #![trigger nodes[i].children@[k]]
        0 <= k < nodes[i].children@.len() ==> {
            let c = nodes[i].children@[k].0 as int;
            &&& i < c < nodes.len()
            &&& nodes[c].parent_ref == Some(ArenaIndex(i as usize))
        }
    &&& forall|k1: int, k2: int|
        0 <= k1 < k2 < nodes[i].children@.len() ==> (#[trigger] nodes[i].children@[k1]).0
            < (#[trigger] nodes[i].children@[k2]).0
    &&& i != 0 ==> listed_as_child(nodes, i)
    &&& nodes[i].width == count_in_subtree(nodes, i, nodes.len() as int)
}

/// Node `i` appears in its parent's list of children.
pub open spec fn listed_as_child<L>(nodes: Seq<ArenaNode<L>>, i: int) -> bool {
    let p = nodes[i].parent_ref.unwrap().0 as int;
    exists|k: int| 0 <= k < nodes[p].children@.len() && #[trigger] nodes[p].children@[k].0 == i
}

/// Identifiers are pairwise distinct.
pub open spec fn ids_unique<L>(nodes: Seq<ArenaNode<L>>) -> bool {
    forall|i: int, j: int|
        0 <= i < nodes.len() && 0 <= j < nodes.len() && i != j ==> #[trigger] nodes[i].id@
            != #[trigger] nodes[j].id@
}

/// Well-formedness of an insertion-ordered arena tree: every node is locally
/// well formed and identifiers are unique. An empty arena is well formed.
pub open spec fn arena_wf<L>(nodes: Seq<ArenaNode<L>>) -> bool {
    &&& forall|i: int| 0 <= i < nodes.len() ==> #[trigger] node_wf(nodes, i)
    &&& ids_unique(nodes)
}

/// Ancestry only looks at the parent links at or below `j`.
pub proof fn lemma_ancestry_frame<L>(s1: Seq<ArenaNode<L>>, s2: Seq<ArenaNode<L>>, a: int, j: int, m: int)
    requires
        0 <= j < m,
        m <= s1.len(),
        m <= s2.len(),
        forall|k: int| 0 <= k < m ==> #[trigger] s1[k].parent_ref == s2[k].parent_ref,
    ensures
        is_ancestor_or_self(s1, a, j) == is_ancestor_or_self(s2, a, j),
    decreases j,
{
    if a != j {
        match s1[j].parent_ref {
            Some(p) => {
                if 0 <= p.0 < j {
                    lemma_ancestry_frame(s1, s2, a, p.0 as int, m);
                }
            },
            None => {},
        }
    }
}

/// Subtree counts only look at the parent links below `n`.
pub proof fn lemma_count_frame<L>(s1: Seq<ArenaNode<L>>, s2: Seq<ArenaNode<L>>, a: int, n: int, m: int)
    requires
        n <= m,
        m <= s1.len(),
        m <= s2.len(),
        forall|k: int| 0 <= k < m ==> #[trigger] s1[k].parent_ref == s2[k].parent_ref,
    ensures
        count_in_subtree(s1, a, n) == count_in_subtree(s2, a, n),
    decreases n,
{
    if n > 0 {
        lemma_count_frame(s1, s2, a, n - 1, m);
        lemma_ancestry_frame(s1, s2, a, n - 1, m);
    }
}

/// A subtree count below `n` is at most `n`.
pub proof fn lemma_count_bound<L>(nodes: Seq<ArenaNode<L>>, a: int, n: int)
    ensures
        count_in_subtree(nodes, a, n) <= if n < 0 {
            0
        } else {
            n
        },
    decreases n,
{
    if n > 0 {
        lemma_count_bound(nodes, a, n - 1);
    }
}

/// An ancestor never lies after its descendant.
pub proof fn lemma_ancestor_not_after<L>(nodes: Seq<ArenaNode<L>>, a: int, j: int)
    requires
        is_ancestor_or_self(nodes, a, j),
    ensures
        a <= j,
    decreases j,
{
    if a != j {
        let p = nodes[j].parent_ref.unwrap().0 as int;
        lemma_ancestor_not_after(nodes, a, p);
    }
}

/// Ancestry is transitive.
pub proof fn lemma_ancestor_trans<L>(nodes: Seq<ArenaNode<L>>, x: int, y: int, z: int)
    requires
        is_ancestor_or_self(nodes, x, y),
        is_ancestor_or_self(nodes, y, z),
    ensures
        is_ancestor_or_self(nodes, x, z),
    decreases z,
{
    if y != z {
        let p = nodes[z].parent_ref.unwrap().0 as int;
        lemma_ancestor_trans(nodes, x, y, p);
    }
}

/// No position below `a` lies in the subtree of `a`.
pub proof fn lemma_count_before<L>(nodes: Seq<ArenaNode<L>>, a: int, n: int)
    requires
        n <= a,
    ensures
        count_in_subtree(nodes, a, n) == 0,
    decreases n,
{
    if n > 0 {
        lemma_count_before(nodes, a, n - 1);
        if is_ancestor_or_self(nodes, a, n - 1) {
            lemma_ancestor_not_after(nodes, a, n - 1);
        }
    }
}

/// In a well-formed arena the root is an ancestor of every node.
pub proof fn lemma_root_ancestor<L>(nodes: Seq<ArenaNode<L>>, j: int)
    requires
        arena_wf(nodes),
        0 <= j < nodes.len(),
    ensures
        is_ancestor_or_self(nodes, 0, j),
    decreases j,
{
    if j != 0 {
        assert(node_wf(nodes, j));
        lemma_root_ancestor(nodes, nodes[j].parent_ref.unwrap().0 as int);
    }
}

/// The only ancestor-or-self of the root is the root.
pub proof fn lemma_root_ancestors<L>(nodes: Seq<ArenaNode<L>>, a: int)
    requires
        arena_wf(nodes),
        nodes.len() > 0,
    ensures
        is_ancestor_or_self(nodes, a, 0) <==> a == 0,
{
    assert(node_wf(nodes, 0));
}

} // verus!

verus! {

/// Every child position stored in `nodes` is a position of `nodes`.
pub open spec fn children_in_range<L>(nodes: Seq<ArenaNode<L>>) -> bool {
    forall|i: int, k: int|
        0 <= i < nodes.len() && 0 <= k < nodes[i].children@.len() ==> (#[trigger] nodes[i].children@[k]).0
            < nodes.len()
}

/// The nodes listed as children of `nodes[i]`, in their listed order.
pub(crate) fn children_of<Load>(nodes: &Vec<ArenaNode<Load>>, i: usize) -> (r: Vec<&ArenaNode<Load>>)
    requires
        i < nodes@.len(),
        children_in_range(nodes@),
    ensures
        r@.len() == nodes@[i as int].children@.len(),
        forall|k: int|
            0 <= k < r@.len() ==> *(#[trigger] r@[k]) == nodes@[nodes@[i as int].children@[k].0 as int],
{
    let cs = &nodes[i].children;
    let mut r: Vec<&ArenaNode<Load>> = Vec::new();
    let mut k: usize = 0;
    while k < cs.len()
        invariant
            *cs == nodes@[i as int].children,
            i < nodes@.len(),
            children_in_range(nodes@),
            k <= cs@.len(),
            r@.len() == k,
            forall|j: int| 0 <= j < k ==> *(#[trigger] r@[j]) == nodes@[cs@[j].0 as int],
        decreases cs@.len() - k,
    {
        let c = cs[k].0;
        assert(cs@[k as int] == nodes@[i as int].children@[k as int]);
        r.push(&nodes[c]);
        k += 1;
    }
    r
}

/// Position of the first node whose payload equals `load`.
pub(crate) fn find_load<Load: PartialEq>(nodes: &Vec<ArenaNode<Load>>, load: &Load) -> (r: Option<usize>)
    ensures
        r matches Some(i) ==> i < nodes@.len(),
        Load::obeys_eq_spec() ==> match r {
            Some(i) => i < nodes@.len() && nodes@[i as int].load.eq_spec(load) && forall|j: int|
                0 <= j < i ==> !(#[trigger] nodes@[j].load).eq_spec(load),
            None => forall|j: int| 0 <= j < nodes@.len() ==> !(#[trigger] nodes@[j].load).eq_spec(load),
        },
{
    let mut i: usize = 0;
    while i < nodes.len()
        invariant
            i <= nodes@.len(),
            Load::obeys_eq_spec() ==> forall|j: int| 0 <= j < i ==> !(#[trigger] nodes@[j].load).eq_spec(load),
        decreases nodes@.len() - i,
    {
        if nodes[i].load.eq(load) {
            return Some(i);
        }
        i += 1;
    }
    None
}

} // verus!
