//! Root-path accumulation over a depth-first-ordered tree: for every node, the
//! value obtained by combining along the unique path from the root, computed
//! in one pass with a stack bounded by the depth of the tree.
use vstd::prelude::*;

use crate::depth::{compact_links_wf, compact_node_wf, compact_wf, lemma_subtree_contiguous, DepthFirstArenaTree};
use crate::node::{is_ancestor_or_self, ArenaNode};
use crate::iterables::{BaseDirectionIterable, DepthFirstIterable, OptimizedDirectionIterable};

verus! {

/// The parent position of node `j` (meaningful for a non-root node).
pub open spec fn parent_of<L>(nodes: Seq<ArenaNode<L>>, j: int) -> int {
    nodes[j].parent_ref.unwrap().0 as int
}

/// `stack` lists the path from the root to its last entry: it starts at the
/// root, each entry is the parent of the next, and entry `k` has depth `k`.
spec fn is_root_path<L>(nodes: Seq<ArenaNode<L>>, stack: Seq<usize>) -> bool {
    &&& stack.len() > 0
    &&& stack[0] == 0
    &&& forall|k: int| 0 <= k < stack.len() ==> (#[trigger] stack[k]) < nodes.len() && nodes[stack[k] as int].depth == k
    &&& forall|k: int|
        #![trigger stack[k]]
        1 <= k < stack.len() ==> {
            &&& nodes[stack[k] as int].parent_ref is Some
            &&& nodes[stack[k] as int].parent_ref.unwrap().0 == stack[k - 1]
        }
}

/// Every ancestor of the end of a root path stands on the path, at the
/// position given by its depth.
proof fn lemma_root_path_holds_ancestors<L>(nodes: Seq<ArenaNode<L>>, stack: Seq<usize>, a: int)
    requires
        compact_wf(nodes),
        is_root_path(nodes, stack),
        0 <= a,
        is_ancestor_or_self(nodes, a, stack.last() as int),
    ensures
        nodes[a].depth < stack.len(),
        stack[nodes[a].depth as int] == a,
    decreases stack.len(),
{
    let j = stack.last() as int;
    assert(stack[stack.len() - 1] == j);
    if a != j {
        assert(stack.len() > 1) by {
            if stack.len() == 1 {
                assert(compact_node_wf(nodes, 0));
                assert(compact_links_wf(nodes, 0));
            }
        }
        let rest = stack.drop_last();
        assert(rest.last() == stack[stack.len() - 2]);
        assert(is_root_path(nodes, rest)) by {
            assert forall|k: int| 0 <= k < rest.len() implies #[trigger] rest[k] == stack[k] by {}
        }
        lemma_root_path_holds_ancestors(nodes, rest, a);
    }
}

/// Combines along root paths: entry `i` of the result is
/// `combine(node i, entry of i's parent)`, and `combine(root, identity)` for
/// the root. Nodes are taken in stored (depth-first) order; a stack holds the
/// positions of the current root path and is cut back to the node's depth
/// before each step, so no ancestor is walked twice.
pub fn accumulate<Load, A, F>(tree: &DepthFirstArenaTree<Load>, identity: &A, combine: F) -> (r: Vec<A>)
    where
        F: Fn(&ArenaNode<Load>, &A) -> A,
    requires
        tree.wf(),
        forall|i: int, a: &A| 0 <= i < tree@.len() ==> combine.requires((&tree@[i], a)),
    ensures
        r@.len() == tree@.len(),
        tree@.len() > 0 ==> combine.ensures((&tree@[0], identity), r@[0]),
        forall|i: int|
            0 < i < tree@.len() ==> combine.ensures(
                (&tree@[i], &r@[parent_of(tree@, i)]),
                #[trigger] r@[i],
            ),
{
    let nodes = tree.iter();
    let n = nodes.len();
    let mut out: Vec<A> = Vec::new();
    let mut stack: Vec<usize> = Vec::new();
    let mut i: usize = 0;
    while i < n
        invariant
            nodes@ == tree@,
            n == nodes@.len(),
            compact_wf(nodes@),
            forall|i: int, a: &A| 0 <= i < tree@.len() ==> combine.requires((&tree@[i], a)),
            i <= n,
            out@.len() == i,
            i == 0 ==> stack@.len() == 0,
            i > 0 ==> is_root_path(nodes@, stack@) && stack@.last() == i - 1,
            i > 0 ==> combine.ensures((&tree@[0], identity), out@[0]),
            forall|j: int|
                0 < j < i ==> combine.ensures((&tree@[j], &out@[parent_of(tree@, j)]), #[trigger] out@[j]),
        decreases n - i,
    {
        let node = &nodes[i];
        let d = node.depth;
        proof {
            assert(compact_node_wf(nodes@, i as int));
            assert(compact_links_wf(nodes@, i as int));
            if i > 0 {
                let p = parent_of(nodes@, i as int);
                assert(compact_node_wf(nodes@, p));
                assert(compact_links_wf(nodes@, p));
                lemma_subtree_contiguous(nodes@, p, i - 1);
                lemma_root_path_holds_ancestors(nodes@, stack@, p);
            }
        }
        let ghost path = stack@;
        while stack.len() > d
            invariant
                i > 0 ==> path.len() >= d,
                stack@.len() >= d,
                stack@.len() <= path.len(),
                stack@ == path.subrange(0, stack@.len() as int),
            decreases stack@.len(),
        {
            stack.pop();
        }
        let acc = if stack.len() == 0 {
            proof {
                if i > 0 {
                    assert(d >= 1);
                }
            }
            combine(node, identity)
        } else {
            let top = stack[stack.len() - 1];
            proof {
                assert(top == path[d - 1]);
                assert(top == parent_of(nodes@, i as int));
                assert(i > 0);
            }
            combine(node, &out[top])
        };
        let ghost out_before = out@;
        out.push(acc);
        let ghost trimmed = stack@;
        stack.push(i);
        proof {
            assert forall|k: int| 0 <= k < i implies #[trigger] out@[k] == out_before[k] by {}
            if i > 0 {
                assert(stack@.len() == d + 1);
                assert forall|k: int| 0 <= k < d implies #[trigger] stack@[k] == path[k] by {}
            }
            assert(is_root_path(nodes@, stack@));
            assert forall|j: int| 0 < j < i + 1 implies combine.ensures(
                (&tree@[j], &out@[parent_of(tree@, j)]),
                #[trigger] out@[j],
            ) by {
                assert(compact_node_wf(nodes@, j));
                assert(compact_links_wf(nodes@, j));
                if j < i {
                    assert(out@[j] == out_before[j]);
                    assert(out@[parent_of(tree@, j)] == out_before[parent_of(tree@, j)]);
                }
            }
        }
        i += 1;
    }
    out
}


/// Sum of `values` over node `j` and all its ancestors, read off by walking
/// the parent links from `j` up to the root.
pub open spec fn ancestor_walk_sum<L>(nodes: Seq<ArenaNode<L>>, values: Seq<u64>, j: int) -> int
    decreases j,
{
    if 0 <= j < nodes.len() {
        values[j] + match nodes[j].parent_ref {
            Some(p) => if p.0 < j {
                ancestor_walk_sum(nodes, values, p.0 as int)
            } else {
                0
            },
            None => 0,
        }
    } else {
        0
    }
}

/// Modulus of `u64` arithmetic.
pub open spec fn u64_modulus() -> int {
    0x1_0000_0000_0000_0000
}

proof fn lemma_sums_follow_walk<L>(nodes: Seq<ArenaNode<L>>, values: Seq<u64>, r: Seq<u64>, j: int)
    requires
        compact_wf(nodes),
        values.len() == nodes.len(),
        r.len() == nodes.len(),
        nodes.len() > 0 ==> r[0] == values[0],
        forall|i: int|
            0 < i < nodes.len() ==> #[trigger] r[i] as int == (r[parent_of(nodes, i)] + values[i]) % u64_modulus(),
        0 <= j < nodes.len(),
    ensures
        r[j] as int == ancestor_walk_sum(nodes, values, j) % u64_modulus(),
    decreases j,
{
    assert(compact_node_wf(nodes, j));
    assert(compact_links_wf(nodes, j));
    if j == 0 {
        assert(values[0] as int % u64_modulus() == values[0]);
    } else {
        let p = parent_of(nodes, j);
        lemma_sums_follow_walk(nodes, values, r, p);
        let w = ancestor_walk_sum(nodes, values, p);
        assert(ancestor_walk_sum(nodes, values, j) == values[j] + w);
        vstd::arithmetic::div_mod::lemma_add_mod_noop(w, values[j] as int, u64_modulus());
        assert((values[j] as int) % u64_modulus() == values[j]);
        assert((r[p] as int) % u64_modulus() == r[p]);
        assert(r[p] as int == w % u64_modulus());
        vstd::arithmetic::div_mod::lemma_mod_twice(w, u64_modulus());
    }
}

/// For every node, the sum (wrapping at 2^64) of `values` over the path from
/// the root to that node; `values[i]` belongs to the node at position `i`.
/// Computed by `accumulate` with an additive combine, it equals for every node
/// what a walk up its parent links adds up.
pub fn path_sums<Load>(tree: &DepthFirstArenaTree<Load>, values: &Vec<u64>) -> (r: Vec<u64>)
    requires
        tree.wf(),
        values@.len() == tree@.len(),
    ensures
        r@.len() == tree@.len(),
        forall|j: int|
            0 <= j < tree@.len() ==> #[trigger] r@[j] as int == ancestor_walk_sum(tree@, values@, j)
                % u64_modulus(),
{
    let combine = |node: &ArenaNode<Load>, acc: &u64| -> (s: u64)
        requires
            node.index.0 < values@.len(),
        ensures
            s as int == (*acc + values@[node.index.0 as int]) % u64_modulus(),
        {
            let v = values[node.index.0];
            let s = acc.wrapping_add(v);
            assert(s as int == (*acc + v) % u64_modulus()) by {
                if *acc + v > u64::MAX {
                    vstd::arithmetic::div_mod::lemma_fundamental_div_mod_converse(
                        *acc + v,
                        u64_modulus(),
                        1,
                        *acc + v - u64_modulus(),
                    );
                } else {
                    vstd::arithmetic::div_mod::lemma_small_mod((*acc + v) as nat, u64_modulus() as nat);
                }
            }
            s
        };
    proof {
        assert forall|i: int, a: &u64| 0 <= i < tree@.len() implies combine.requires((&tree@[i], a)) by {
            assert(compact_node_wf(tree@, i));
            assert(compact_links_wf(tree@, i));
        }
    }
    let zero: u64 = 0;
    let r = accumulate(tree, &zero, combine);
    proof {
        let nodes = tree@;
        if nodes.len() > 0 {
            assert(compact_node_wf(nodes, 0));
            assert(compact_links_wf(nodes, 0));
            vstd::arithmetic::div_mod::lemma_small_mod(values@[0] as nat, u64_modulus() as nat);
        }
        assert forall|i: int| 0 < i < nodes.len() implies #[trigger] r@[i] as int == (r@[parent_of(nodes, i)]
            + values@[i]) % u64_modulus() by {
            assert(compact_node_wf(nodes, i));
            assert(compact_links_wf(nodes, i));
            assert(combine.ensures((&tree@[i], &r@[parent_of(tree@, i)]), r@[i]));
        }
        assert forall|j: int| 0 <= j < nodes.len() implies #[trigger] r@[j] as int == ancestor_walk_sum(
            nodes,
            values@,
            j,
        ) % u64_modulus() by {
            lemma_sums_follow_walk(nodes, values@, r@, j);
        }
    }
    r
}

/// Root-path accumulation offered by a depth-first-ordered tree; see
/// `accumulate`. With transformation concatenation as the combine, it yields
/// every node's pose in the root frame.
pub trait TransformationAccumulation<Load>: DepthFirstIterable<Load> {
    /// For every node in stored order, `combine` applied along its root path.
    fn accumulate<A, F>(&self, identity: &A, combine: F) -> (r: Vec<A>)
        where
            F: Fn(&ArenaNode<Load>, &A) -> A,
        requires
            self.well_formed(),
            forall|i: int, a: &A| 0 <= i < self.arena().len() ==> combine.requires((&self.arena()[i], a)),
        ensures
            r@.len() == self.arena().len(),
    ;
}

impl<Load> TransformationAccumulation<Load> for DepthFirstArenaTree<Load> {
    fn accumulate<A, F>(&self, identity: &A, combine: F) -> (r: Vec<A>)
        where
            F: Fn(&ArenaNode<Load>, &A) -> A,
        ensures
            self@.len() > 0 ==> combine.ensures((&self@[0], identity), r@[0]),
            forall|i: int|
                0 < i < self@.len() ==> combine.ensures(
                    (&self@[i], &r@[parent_of(self@, i)]),
                    #[trigger] r@[i],
                ),
    {
        proof {
            assert(self.arena() == self@);
            assert forall|i: int, a: &A| 0 <= i < self@.len() implies combine.requires((&self@[i], a)) by {
                assert(combine.requires((&self.arena()[i], a)));
            }
        }
        accumulate(self, identity, combine)
    }
}

} // verus!
