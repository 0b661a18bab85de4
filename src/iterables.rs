//! The traits of the tree types: node access, lookups common to both
//! layouts, construction and traversal of the insertion-ordered tree, and
//! stored-order and subtree traversal of the depth-first-ordered one.
use vstd::prelude::*;

use crate::depth::DepthFirstArenaTree;
use crate::directed::has_id;
use crate::errors::MannequinError;
use crate::node::ArenaNode;

verus! {

/// A tree node that owns a payload.
pub trait NodeLike<Load> {
    /// Whether the node has no children.
    fn is_leaf(&self) -> bool;

    /// The payload.
    fn get(&self) -> &Load;

    /// The identifier.
    fn id(&self) -> &String;

    /// Distance to the root.
    fn depth(&self) -> usize;
}

/// Lookups shared by both tree layouts.
pub trait BaseDirectionIterable<Load>: Sized {
    /// The nodes, in storage order.
    spec fn arena(&self) -> Seq<ArenaNode<Load>>;

    /// The tree's structural invariant.
    spec fn well_formed(&self) -> bool;

    /// The root node, or `RootNotSet` on an empty tree.
    fn root(&self) -> (r: Result<&ArenaNode<Load>, MannequinError>)
        ensures
            r is Err <==> self.arena().len() == 0,
    ;

    /// The children of the tree's node that carries `node`'s identifier.
    fn children(&self, node: &ArenaNode<Load>) -> (r: Result<Vec<&ArenaNode<Load>>, MannequinError>)
        requires
            self.well_formed(),
        ensures
            r is Err <==> !has_id(self.arena(), node.id@),
    ;

    /// The first node whose payload equals `load`.
    fn node_by_load(&self, load: &Load) -> (r: Option<&ArenaNode<Load>>)
        where
            Load: PartialEq,
    ;

    /// The node that carries `node_id`.
    fn node_by_id(&self, node_id: &String) -> (r: Option<&ArenaNode<Load>>)
        requires
            self.well_formed(),
        ensures
            r is None <==> !has_id(self.arena(), node_id@),
    ;

    /// Number of nodes.
    fn len(&self) -> (r: usize)
        ensures
            r == self.arena().len(),
    ;

    /// Whether the tree holds no node.
    fn is_empty(&self) -> (r: bool)
        ensures
            r == (self.arena().len() == 0),
    ;
}

/// A tree that grows by insertion and can be walked depth-first, then
/// converted into depth-first layout.
pub trait DirectionIterable<Load>: BaseDirectionIterable<Load> {
    /// The nodes in depth-first order from the root.
    fn iter_depth(&self) -> (r: Vec<&ArenaNode<Load>>)
        requires
            self.well_formed(),
        ensures
            r@.len() == self.arena().len(),
    ;

    /// The nodes of the subtree of `root` in depth-first order.
    fn iter_depth_sub(&self, root: &ArenaNode<Load>) -> (r: Vec<&ArenaNode<Load>>)
        requires
            self.well_formed(),
            root.index.0 < self.arena().len(),
    ;

    /// Adds a node under the node identified by `parent`.
    fn add(&mut self, load: Load, node_id: String, parent: &String) -> (r: Result<String, MannequinError>)
        requires
            old(self).well_formed(),
            old(self).arena().len() < usize::MAX,
        ensures
            final(self).well_formed(),
            r is Ok <==> has_id(old(self).arena(), parent@) && !has_id(old(self).arena(), node_id@),
            r is Ok ==> final(self).arena().len() == old(self).arena().len() + 1,
            r is Err ==> final(self).arena() == old(self).arena(),
    ;

    /// Clears the tree and sets a single root node.
    fn set_root(&mut self, root_load: Load, root_ref: String) -> (r: String)
        ensures
            final(self).well_formed(),
            final(self).arena().len() == 1,
            r == root_ref,
    ;

    /// Converts the tree into depth-first layout.
    fn depth_first(self) -> (r: DepthFirstArenaTree<Load>)
        requires
            self.well_formed(),
        ensures
            r.wf(),
            r@.len() == self.arena().len(),
    ;
}

/// A tree whose stored order is a traversal order.
pub trait OptimizedDirectionIterable<Load>: BaseDirectionIterable<Load> {
    /// All nodes in stored order.
    fn iter(&self) -> (r: &[ArenaNode<Load>])
        ensures
            r@ == self.arena(),
    ;
}

/// A tree stored in depth-first order, where every subtree is a contiguous
/// range of positions.
pub trait DepthFirstIterable<Load>: OptimizedDirectionIterable<Load> {
    /// The subtree of `root`, in depth-first order.
    fn iter_sub(&self, root: &ArenaNode<Load>) -> (r: &[ArenaNode<Load>])
        requires
            self.well_formed(),
            root.index.0 < self.arena().len(),
            root.width == self.arena()[root.index.0 as int].width,
        ensures
            r@ == self.arena().subrange(root.index.0 as int, root.index.0 + root.width),
    ;
}

} // verus!
