//! Properties of the pre-order of an insertion-ordered tree: it lists each
//! node of a subtree exactly once, every subtree's pre-order is a contiguous
//! block of it, and the length of that block is the subtree width. They show
//! that the depth-first conversion always succeeds.
use vstd::prelude::*;

use crate::depth::{
    child_positions, compact_children_wf, compact_links_wf, compact_node_wf, forest, preorder, relabel,
};
use crate::node::{
    arena_wf, count_in_subtree, is_ancestor_or_self, lemma_ancestor_not_after, lemma_ancestor_trans,
    listed_as_child, node_wf, ArenaIndex, ArenaNode,
};

verus! {

/// `cs` is a strictly increasing list of children of `b`.
pub open spec fn sibling_list<L>(nodes: Seq<ArenaNode<L>>, cs: Seq<usize>, b: usize) -> bool {
    &&& forall|i: int|
        0 <= i < cs.len() ==> b < #[trigger] cs[i] < nodes.len() && nodes[cs[i] as int].parent_ref == Some(
            ArenaIndex(b),
        )
    &&& forall|i: int, j: int| 0 <= i < j < cs.len() ==> #[trigger] cs[i] < #[trigger] cs[j]
}

/// `y` lies in the subtree of one of `cs`.
pub open spec fn below_one_of<L>(nodes: Seq<ArenaNode<L>>, cs: Seq<usize>, y: usize) -> bool {
    exists|i: int| 0 <= i < cs.len() && is_ancestor_or_self(nodes, #[trigger] cs[i] as int, y as int)
}

pub proof fn lemma_children_are_siblings<L>(nodes: Seq<ArenaNode<L>>, a: usize)
    requires
        arena_wf(nodes),
        a < nodes.len(),
    ensures
        sibling_list(nodes, child_positions(nodes, a), a),
{
    assert(node_wf(nodes, a as int));
    let cs = child_positions(nodes, a);
    assert forall|i: int| 0 <= i < cs.len() implies a < #[trigger] cs[i] < nodes.len() && nodes[cs[i] as int].parent_ref
        == Some(ArenaIndex(a)) by {
        assert(cs[i] == nodes[a as int].children@[i].0);
    }
    assert forall|i: int, j: int| 0 <= i < j < cs.len() implies #[trigger] cs[i] < #[trigger] cs[j] by {
        assert(cs[i] == nodes[a as int].children@[i].0);
        assert(cs[j] == nodes[a as int].children@[j].0);
    }
}

/// A node's parent is its ancestor.
pub proof fn lemma_parent_is_ancestor<L>(nodes: Seq<ArenaNode<L>>, c: int)
    requires
        arena_wf(nodes),
        0 < c < nodes.len(),
    ensures
        is_ancestor_or_self(nodes, nodes[c].parent_ref.unwrap().0 as int, c),
{
    assert(node_wf(nodes, c));
    let p = nodes[c].parent_ref.unwrap().0 as int;
    assert(is_ancestor_or_self(nodes, p, p));
}

/// A strict ancestor lies at a smaller depth.
pub proof fn lemma_depth_below<L>(nodes: Seq<ArenaNode<L>>, u: int, y: int)
    requires
        arena_wf(nodes),
        0 <= y < nodes.len(),
        is_ancestor_or_self(nodes, u, y),
        u != y,
    ensures
        0 <= u,
        nodes[u].depth < nodes[y].depth,
    decreases y,
{
    assert(node_wf(nodes, y));
    let p = nodes[y].parent_ref.unwrap().0 as int;
    assert(node_wf(nodes, p));
    if u != p {
        lemma_depth_below(nodes, u, p);
    }
}

/// A node has at most one ancestor at each depth.
pub proof fn lemma_unique_at_depth<L>(nodes: Seq<ArenaNode<L>>, u: int, v: int, y: int)
    requires
        arena_wf(nodes),
        0 <= y < nodes.len(),
        is_ancestor_or_self(nodes, u, y),
        is_ancestor_or_self(nodes, v, y),
        nodes[u].depth == nodes[v].depth,
    ensures
        u == v,
    decreases y,
{
    if u == y {
        if v != y {
            lemma_depth_below(nodes, v, y);
        }
    } else if v == y {
        lemma_depth_below(nodes, u, y);
    } else {
        assert(node_wf(nodes, y));
        let p = nodes[y].parent_ref.unwrap().0 as int;
        lemma_unique_at_depth(nodes, u, v, p);
    }
}

/// Every entry of a pre-order descends from its root.
pub proof fn lemma_preorder_desc<L>(nodes: Seq<ArenaNode<L>>, a: usize)
    requires
        arena_wf(nodes),
    ensures
        forall|k: int|
            0 <= k < preorder(nodes, a).len() ==> is_ancestor_or_self(nodes, a as int, #[trigger] preorder(nodes, a)[k] as int),
    decreases nodes.len() - a + 1, 0int,
{
    if a < nodes.len() {
        let cs = child_positions(nodes, a);
        let f = forest(nodes, cs, a);
        let p = preorder(nodes, a);
        lemma_children_are_siblings(nodes, a);
        lemma_forest_desc(nodes, cs, a);
        assert forall|k: int| 0 <= k < p.len() implies is_ancestor_or_self(nodes, a as int, #[trigger] p[k] as int) by {
            if k > 0 {
                assert(p[k] == f[k - 1]);
                assert(below_one_of(nodes, cs, f[k - 1]));
                let i = choose|i: int| 0 <= i < cs.len() && is_ancestor_or_self(nodes, #[trigger] cs[i] as int, f[k - 1] as int);
                lemma_parent_is_ancestor(nodes, cs[i] as int);
                lemma_ancestor_trans(nodes, a as int, cs[i] as int, p[k] as int);
            }
        }
    }
}

/// Every entry of a forest's pre-order descends from one of its roots.
pub proof fn lemma_forest_desc<L>(nodes: Seq<ArenaNode<L>>, cs: Seq<usize>, b: usize)
    requires
        arena_wf(nodes),
        sibling_list(nodes, cs, b),
    ensures
        forall|k: int| 0 <= k < forest(nodes, cs, b).len() ==> below_one_of(nodes, cs, #[trigger] forest(nodes, cs, b)[k]),
    decreases nodes.len() - b, cs.len(),
{
    if cs.len() > 0 {
        assert(b < cs[0] < nodes.len());
        let rest = cs.drop_first();
        let front = preorder(nodes, cs[0]);
        let r = forest(nodes, rest, b);
        let f = forest(nodes, cs, b);
        assert(f == front + r);
        lemma_preorder_desc(nodes, cs[0]);
        assert(sibling_list(nodes, rest, b)) by {
            assert forall|i: int| 0 <= i < rest.len() implies #[trigger] rest[i] == cs[i + 1] by {}
            assert forall|i: int, j: int| 0 <= i < j < rest.len() implies #[trigger] rest[i] < #[trigger] rest[j] by {
                assert(rest[i] == cs[i + 1] && rest[j] == cs[j + 1]);
            }
        }
        lemma_forest_desc(nodes, rest, b);
        assert forall|k: int| 0 <= k < f.len() implies below_one_of(nodes, cs, #[trigger] f[k]) by {
            if k < front.len() {
                assert(f[k] == front[k]);
                assert(is_ancestor_or_self(nodes, cs[0] as int, front[k] as int));
            } else {
                assert(f[k] == r[k - front.len()]);
                assert(below_one_of(nodes, rest, r[k - front.len()]));
                let i = choose|i: int| 0 <= i < rest.len() && is_ancestor_or_self(nodes, #[trigger] rest[i] as int, r[k - front.len()] as int);
                assert(rest[i] == cs[i + 1]);
            }
        }
    }
}


proof fn lemma_rest_siblings<L>(nodes: Seq<ArenaNode<L>>, cs: Seq<usize>, b: usize)
    requires
        sibling_list(nodes, cs, b),
        cs.len() > 0,
    ensures
        sibling_list(nodes, cs.drop_first(), b),
{
    let rest = cs.drop_first();
    assert forall|i: int| 0 <= i < rest.len() implies #[trigger] rest[i] == cs[i + 1] by {}
    assert forall|i: int, j: int| 0 <= i < j < rest.len() implies #[trigger] rest[i] < #[trigger] rest[j] by {
        assert(rest[i] == cs[i + 1] && rest[j] == cs[j + 1]);
    }
}

/// The pre-order of every entry of a pre-order is the block of it that
/// starts at that entry.
pub proof fn lemma_preorder_block<L>(nodes: Seq<ArenaNode<L>>, a: usize, k: int)
    requires
        arena_wf(nodes),
        0 <= k < preorder(nodes, a).len(),
    ensures
        k + preorder(nodes, preorder(nodes, a)[k]).len() <= preorder(nodes, a).len(),
        preorder(nodes, a).subrange(k, k + preorder(nodes, preorder(nodes, a)[k]).len()) == preorder(
            nodes,
            preorder(nodes, a)[k],
        ),
    decreases nodes.len() - a + 1, 0int,
{
    let p = preorder(nodes, a);
    let cs = child_positions(nodes, a);
    let f = forest(nodes, cs, a);
    assert(a < nodes.len());
    if k == 0 {
        assert(p.subrange(0, p.len() as int) =~= p);
    } else {
        lemma_children_are_siblings(nodes, a);
        lemma_forest_block(nodes, cs, a, k - 1);
        let y = p[k];
        assert(y == f[k - 1]);
        assert(p.subrange(k, k + preorder(nodes, y).len()) =~= f.subrange(k - 1, k - 1 + preorder(nodes, y).len()));
    }
}

/// The pre-order of every entry of a forest's pre-order is the block of it
/// that starts at that entry.
pub proof fn lemma_forest_block<L>(nodes: Seq<ArenaNode<L>>, cs: Seq<usize>, b: usize, k: int)
    requires
        arena_wf(nodes),
        sibling_list(nodes, cs, b),
        0 <= k < forest(nodes, cs, b).len(),
    ensures
        k + preorder(nodes, forest(nodes, cs, b)[k]).len() <= forest(nodes, cs, b).len(),
        forest(nodes, cs, b).subrange(k, k + preorder(nodes, forest(nodes, cs, b)[k]).len()) == preorder(
            nodes,
            forest(nodes, cs, b)[k],
        ),
    decreases nodes.len() - b, cs.len(),
{
    assert(cs.len() > 0);
    assert(b < cs[0] < nodes.len());
    let rest = cs.drop_first();
    let front = preorder(nodes, cs[0]);
    let r = forest(nodes, rest, b);
    let f = forest(nodes, cs, b);
    assert(f == front + r);
    let y = f[k];
    if k < front.len() {
        lemma_preorder_block(nodes, cs[0], k);
        assert(y == front[k]);
        assert(f.subrange(k, k + preorder(nodes, y).len()) =~= front.subrange(k, k + preorder(nodes, y).len()));
    } else {
        lemma_rest_siblings(nodes, cs, b);
        lemma_forest_block(nodes, rest, b, k - front.len());
        assert(y == r[k - front.len()]);
        assert(f.subrange(k, k + preorder(nodes, y).len()) =~= r.subrange(
            k - front.len(),
            k - front.len() + preorder(nodes, y).len(),
        ));
    }
}

/// Where the `m`-th root of a forest starts in the forest's pre-order: after
/// the pre-orders of the roots before it.
pub proof fn lemma_forest_member<L>(nodes: Seq<ArenaNode<L>>, cs: Seq<usize>, b: usize, m: int)
    requires
        arena_wf(nodes),
        sibling_list(nodes, cs, b),
        0 <= m < cs.len(),
    ensures
        forest(nodes, cs, b) == forest(nodes, cs.subrange(0, m), b) + forest(nodes, cs.subrange(m, cs.len() as int), b),
        forest(nodes, cs.subrange(m, cs.len() as int), b)[0] == cs[m],
        forest(nodes, cs.subrange(m, cs.len() as int), b).len() > 0,
    decreases m,
{
    let tail = cs.subrange(m, cs.len() as int);
    assert(tail[0] == cs[m]);
    assert(b < tail[0] < nodes.len());
    assert(preorder(nodes, cs[m])[0] == cs[m]);
    if m == 0 {
        assert(cs.subrange(0, 0) =~= Seq::<usize>::empty());
        assert(tail =~= cs);
        assert(forest(nodes, cs, b) =~= forest(nodes, cs.subrange(0, 0), b) + forest(nodes, tail, b));
    } else {
        let rest = cs.drop_first();
        lemma_rest_siblings(nodes, cs, b);
        lemma_forest_member(nodes, rest, b, m - 1);
        assert(rest.subrange(m - 1, rest.len() as int) =~= tail);
        let head = cs.subrange(0, m);
        assert(head[0] == cs[0]);
        assert(head.drop_first() =~= rest.subrange(0, m - 1));
        assert(b < head[0] < nodes.len());
        assert(forest(nodes, head, b) == preorder(nodes, cs[0]) + forest(nodes, rest.subrange(0, m - 1), b));
        assert(forest(nodes, cs, b) =~= forest(nodes, head, b) + forest(nodes, tail, b));
    }
}

/// Every descendant of `a` appears in the pre-order of `a`.
pub proof fn lemma_cover<L>(nodes: Seq<ArenaNode<L>>, a: usize, j: int) -> (k: int)
    requires
        arena_wf(nodes),
        a < nodes.len(),
        0 <= j < nodes.len(),
        is_ancestor_or_self(nodes, a as int, j),
    ensures
        0 <= k < preorder(nodes, a).len(),
        preorder(nodes, a)[k] == j,
    decreases j,
{
    if j == a {
        0
    } else {
        assert(node_wf(nodes, j));
        let p = nodes[j].parent_ref.unwrap().0;
        let kp = lemma_cover(nodes, a, p as int);
        lemma_preorder_block(nodes, a, kp);
        let pa = preorder(nodes, a);
        let pp = preorder(nodes, p);
        assert(pa[kp] == p);
        assert(listed_as_child(nodes, j));
        let cs = child_positions(nodes, p);
        let m = choose|m: int| 0 <= m < nodes[p as int].children@.len() && #[trigger] nodes[p as int].children@[m].0 == j;
        assert(cs[m] == j);
        lemma_children_are_siblings(nodes, p);
        lemma_forest_member(nodes, cs, p, m);
        let f = forest(nodes, cs, p);
        let before = forest(nodes, cs.subrange(0, m), p);
        assert(f[before.len() as int] == j);
        let t = 1 + before.len() as int;
        assert(pp[t] == j);
        assert(pa.subrange(kp, kp + pp.len()) == pp);
        assert(pa[kp + t] == pp[t]);
        kp + t
    }
}

/// A pre-order lists no position twice.
pub proof fn lemma_preorder_unique<L>(nodes: Seq<ArenaNode<L>>, a: usize)
    requires
        arena_wf(nodes),
    ensures
        preorder(nodes, a).no_duplicates(),
    decreases nodes.len() - a + 1, 0int,
{
    if a < nodes.len() {
        let cs = child_positions(nodes, a);
        let f = forest(nodes, cs, a);
        lemma_children_are_siblings(nodes, a);
        lemma_forest_unique(nodes, cs, a);
        lemma_forest_desc(nodes, cs, a);
        assert forall|i: int, j: int| 0 <= i < 1 && 0 <= j < f.len() implies seq![a][i] != f[j] by {
            assert(below_one_of(nodes, cs, f[j]));
            let m = choose|m: int| 0 <= m < cs.len() && is_ancestor_or_self(nodes, #[trigger] cs[m] as int, f[j] as int);
            lemma_ancestor_not_after(nodes, cs[m] as int, f[j] as int);
        }
        vstd::seq_lib::lemma_no_dup_in_concat(seq![a], f);
    }
}

/// A forest's pre-order lists no position twice.
pub proof fn lemma_forest_unique<L>(nodes: Seq<ArenaNode<L>>, cs: Seq<usize>, b: usize)
    requires
        arena_wf(nodes),
        sibling_list(nodes, cs, b),
    ensures
        forest(nodes, cs, b).no_duplicates(),
    decreases nodes.len() - b, cs.len(),
{
    if cs.len() > 0 {
        assert(b < cs[0] < nodes.len());
        let rest = cs.drop_first();
        let front = preorder(nodes, cs[0]);
        let r = forest(nodes, rest, b);
        assert(forest(nodes, cs, b) == front + r);
        lemma_preorder_unique(nodes, cs[0]);
        lemma_rest_siblings(nodes, cs, b);
        lemma_forest_unique(nodes, rest, b);
        lemma_preorder_desc(nodes, cs[0]);
        lemma_forest_desc(nodes, rest, b);
        assert forall|i: int, j: int| 0 <= i < front.len() && 0 <= j < r.len() implies front[i] != r[j] by {
            if front[i] == r[j] {
                let y = r[j];
                assert(is_ancestor_or_self(nodes, cs[0] as int, front[i] as int));
                assert(below_one_of(nodes, rest, y));
                let m = choose|m: int| 0 <= m < rest.len() && is_ancestor_or_self(nodes, #[trigger] rest[m] as int, y as int);
                assert(rest[m] == cs[m + 1]);
                let c0 = cs[0] as int;
                let c1 = cs[m + 1] as int;
                assert(node_wf(nodes, c0));
                assert(node_wf(nodes, c1));
                lemma_preorder_in_range_entry(nodes, cs[0], i);
                lemma_unique_at_depth(nodes, c0, c1, y as int);
            }
        }
        vstd::seq_lib::lemma_no_dup_in_concat(front, r);
    }
}

proof fn lemma_preorder_in_range_entry<L>(nodes: Seq<ArenaNode<L>>, a: usize, k: int)
    requires
        0 <= k < preorder(nodes, a).len(),
    ensures
        preorder(nodes, a)[k] < nodes.len(),
{
    crate::depth::lemma_preorder_in_range(nodes, a);
}


/// The positions below `n` that lie in the subtree of `x`.
pub open spec fn subtree_set<L>(nodes: Seq<ArenaNode<L>>, x: int, n: int) -> Set<usize> {
    Set::new(|y: usize| (y as int) < n && is_ancestor_or_self(nodes, x, y as int))
}

proof fn lemma_subtree_set_len<L>(nodes: Seq<ArenaNode<L>>, x: int, n: int)
    requires
        0 <= n <= usize::MAX,
    ensures
        subtree_set(nodes, x, n).finite(),
        subtree_set(nodes, x, n).len() == count_in_subtree(nodes, x, n),
    decreases n,
{
    if n == 0 {
        assert(subtree_set(nodes, x, n) =~= Set::<usize>::empty());
    } else {
        lemma_subtree_set_len(nodes, x, n - 1);
        let prev = subtree_set(nodes, x, n - 1);
        let y = (n - 1) as usize;
        if is_ancestor_or_self(nodes, x, n - 1) {
            assert(subtree_set(nodes, x, n) =~= prev.insert(y));
            assert(!prev.contains(y));
        } else {
            assert(subtree_set(nodes, x, n) =~= prev);
        }
    }
}

proof fn lemma_root_count<L>(nodes: Seq<ArenaNode<L>>, n: int)
    requires
        arena_wf(nodes),
        0 <= n <= nodes.len(),
    ensures
        count_in_subtree(nodes, 0, n) == n,
    decreases n,
{
    if n > 0 {
        lemma_root_count(nodes, n - 1);
        crate::node::lemma_root_ancestor(nodes, n - 1);
    }
}

/// The pre-order of a node is as long as the node's subtree is wide.
pub proof fn lemma_preorder_len<L>(nodes: Seq<ArenaNode<L>>, x: usize)
    requires
        arena_wf(nodes),
        x < nodes.len(),
        nodes.len() <= usize::MAX,
    ensures
        preorder(nodes, x).len() == nodes[x as int].width,
        preorder(nodes, x).len() >= 1,
{
    let p = preorder(nodes, x);
    let n = nodes.len() as int;
    crate::depth::lemma_preorder_in_range(nodes, x);
    lemma_preorder_desc(nodes, x);
    lemma_preorder_unique(nodes, x);
    assert(p.to_set() =~= subtree_set(nodes, x as int, n)) by {
        assert forall|y: usize| p.to_set().contains(y) implies subtree_set(nodes, x as int, n).contains(y) by {
            let k = choose|k: int| 0 <= k < p.len() && p[k] == y;
            assert(p[k] < n);
        }
        assert forall|y: usize| subtree_set(nodes, x as int, n).contains(y) implies p.to_set().contains(y) by {
            let k = lemma_cover(nodes, x, y as int);
            assert(p[k] == y);
        }
    }
    p.unique_seq_to_set();
    lemma_subtree_set_len(nodes, x as int, n);
    assert(node_wf(nodes, x as int));
    assert(p[0] == x);
}

/// The pre-order of the root lists every position exactly once.
pub proof fn lemma_root_preorder_is_permutation<L>(nodes: Seq<ArenaNode<L>>)
    requires
        arena_wf(nodes),
        0 < nodes.len() <= usize::MAX,
    ensures
        preorder(nodes, 0).len() == nodes.len(),
        preorder(nodes, 0).no_duplicates(),
        forall|k: int| 0 <= k < nodes.len() ==> #[trigger] preorder(nodes, 0)[k] < nodes.len(),
{
    lemma_preorder_len(nodes, 0);
    assert(node_wf(nodes, 0));
    lemma_root_count(nodes, nodes.len() as int);
    lemma_preorder_unique(nodes, 0);
    crate::depth::lemma_preorder_in_range(nodes, 0);
}


/// `new` holds at position `k` the node that `order` puts there, with every
/// stored position sent through `pos`; `pos` and `order` are inverse.
pub open spec fn relaid<L>(old: Seq<ArenaNode<L>>, order: Seq<usize>, pos: Seq<usize>, new: Seq<ArenaNode<L>>) -> bool {
    &&& order.len() == old.len()
    &&& pos.len() == old.len()
    &&& new.len() == old.len()
    &&& forall|k: int| 0 <= k < order.len() ==> #[trigger] order[k] < old.len() && pos[order[k] as int] == k
    &&& forall|y: int| 0 <= y < old.len() ==> #[trigger] pos[y] < old.len() && order[pos[y] as int] == y
    &&& forall|k: int|
        #![trigger new[k]]
        0 <= k < new.len() ==> {
            let a = old[order[k] as int];
            let b = new[k];
            &&& b.width == a.width
            &&& b.depth == a.depth
            &&& b.index == relabel(pos, a.index)
            &&& b.parent_ref == match a.parent_ref {
                Some(q) => Some(relabel(pos, q)),
                None => None,
            }
            &&& b.children@ == a.children@.map_values(|c: ArenaIndex| relabel(pos, c))
        }
}

/// The forest of a prefix one longer: the shorter prefix's forest, then the
/// pre-order of the added root.
proof fn lemma_forest_prefix_step<L>(nodes: Seq<ArenaNode<L>>, cs: Seq<usize>, b: usize, i: int)
    requires
        arena_wf(nodes),
        sibling_list(nodes, cs, b),
        0 <= i < cs.len(),
    ensures
        forest(nodes, cs.subrange(0, i + 1), b) == forest(nodes, cs.subrange(0, i), b) + preorder(nodes, cs[i]),
{
    let pre = cs.subrange(0, i + 1);
    assert(sibling_list(nodes, pre, b)) by {
        assert forall|a: int| 0 <= a < pre.len() implies #[trigger] pre[a] == cs[a] by {}
        assert forall|a: int, c: int| 0 <= a < c < pre.len() implies #[trigger] pre[a] < #[trigger] pre[c] by {
            assert(pre[a] == cs[a] && pre[c] == cs[c]);
        }
    }
    lemma_forest_member(nodes, pre, b, i);
    assert(pre.subrange(0, i) =~= cs.subrange(0, i));
    let last = pre.subrange(i, pre.len() as int);
    assert(last.len() == 1);
    assert(last[0] == cs[i]);
    assert(b < last[0] < nodes.len());
    assert(last.drop_first() =~= Seq::<usize>::empty());
    assert(forest(nodes, last, b) == preorder(nodes, cs[i]) + forest(nodes, last.drop_first(), b));
    assert(forest(nodes, last, b) =~= preorder(nodes, cs[i]));
}

/// A node of the re-laid arena satisfies the depth-first layout conditions.
pub proof fn lemma_relaid_node<L>(
    old: Seq<ArenaNode<L>>,
    order: Seq<usize>,
    pos: Seq<usize>,
    new: Seq<ArenaNode<L>>,
    k: int,
)
    requires
        arena_wf(old),
        0 < old.len() <= usize::MAX,
        order == preorder(old, 0),
        relaid(old, order, pos, new),
        0 <= k < old.len(),
    ensures
        compact_node_wf(new, k),
{
    let n = old.len() as int;
    let x = order[k];
    let ox = old[x as int];
    let nk = new[k];
    assert(node_wf(old, x as int));
    lemma_preorder_len(old, x);
    lemma_preorder_block(old, 0, k);
    lemma_preorder_unique(old, 0);
    let px = preorder(old, x);
    let w = ox.width as int;
    assert(order.subrange(k, k + w) == px);
    // own position and range
    assert(nk.index == relabel(pos, ox.index));
    assert(nk.index.0 == k);
    assert(1 <= nk.width && k + nk.width <= n);
    // parent
    if k == 0 {
        assert(order[0] == 0);
        assert(node_wf(old, 0));
    } else {
        if x == 0 {
            assert(order[0] == 0);
            assert(false);
        }
        let p = ox.parent_ref.unwrap().0;
        let kp = pos[p as int] as int;
        assert(order[kp] == p);
        assert(node_wf(old, p as int));
        assert(new[kp].depth == old[p as int].depth && new[kp].width == old[p as int].width);
        lemma_parent_is_ancestor(old, x as int);
        let t = lemma_cover(old, p, x as int);
        lemma_preorder_len(old, p);
        lemma_preorder_block(old, 0, kp);
        lemma_preorder_block(old, p, t);
        let pp = preorder(old, p);
        assert(pp[0] == p);
        assert(t != 0);
        assert(order.subrange(kp, kp + pp.len()) == pp);
        assert(order[kp + t] == pp[t]);
        assert(pos[order[kp + t] as int] == kp + t);
        assert(kp + t == k);
        assert(preorder(old, pp[t]) == px);
    }
    assert(compact_links_wf(new, k));
    // children
    let cs = child_positions(old, x);
    let ncs = nk.children@;
    lemma_children_are_siblings(old, x);
    let f = forest(old, cs, x);
    assert(px == seq![x] + f);
    assert(ncs.len() == cs.len());
    assert forall|i: int| 0 <= i < cs.len() implies (#[trigger] ncs[i]).0 == pos[cs[i] as int] by {
        assert(cs[i] == ox.children@[i].0);
    }
    assert forall|i: int| 0 <= i < cs.len() implies pos[cs[i] as int] == k + 1 + forest(
        old,
        cs.subrange(0, i),
        x,
    ).len() by {
        lemma_forest_member(old, cs, x, i);
        let before = forest(old, cs.subrange(0, i), x);
        let idx = 1 + before.len() as int;
        assert(f[before.len() as int] == cs[i]);
        assert(px[idx] == cs[i]);
        assert(order[k + idx] == cs[i]);
        assert(pos[order[k + idx] as int] == k + idx);
    }
    assert forall|i: int|
        #![trigger ncs[i]]
        0 <= i < ncs.len() implies ncs[i].0 < new.len() && new[ncs[i].0 as int].parent_ref == Some(
        ArenaIndex(k as usize),
    ) by {
        let c = cs[i];
        let kc = pos[c as int] as int;
        assert(order[kc] == c);
        assert(old[c as int].parent_ref == Some(ArenaIndex(x)));
        assert(new[kc].parent_ref == Some(relabel(pos, ArenaIndex(x))));
        assert(pos[x as int] == k);
    }
    if cs.len() == 0 {
        assert(f =~= Seq::<usize>::empty());
    } else {
        assert(cs.subrange(0, 0) =~= Seq::<usize>::empty());
        assert forall|i: int|
            #![trigger ncs[i + 1]]
            0 <= i < ncs.len() - 1 implies ncs[i + 1].0 == ncs[i].0 + new[ncs[i].0 as int].width by {
            lemma_forest_prefix_step(old, cs, x, i);
            let c = cs[i];
            lemma_preorder_len(old, c);
            let kc = pos[c as int] as int;
            assert(order[kc] == c);
        }
        let m = cs.len() - 1;
        lemma_forest_prefix_step(old, cs, x, m);
        assert(cs.subrange(0, m + 1) =~= cs);
        let c = cs[m];
        lemma_preorder_len(old, c);
        let kc = pos[c as int] as int;
        assert(order[kc] == c);
        assert(ncs.last() == ncs[m]);
    }
    assert(compact_children_wf(new, k));
}

} // verus!
