//! Arena-allocated kinematic trees: incremental construction, a depth-first
//! layout optimisation that makes every subtree a contiguous slice, root-path
//! accumulation, and the index bookkeeping of Jacobian assembly and of the
//! differential inverse-kinematics loop.
use vstd::prelude::*;

pub mod accumulate;
pub mod depth;
pub mod differentiable;
pub mod directed;
pub mod errors;
pub mod inverse;
pub mod iterables;
pub mod layout;
pub mod node;
pub mod utils;

pub use accumulate::{accumulate, path_sums, TransformationAccumulation};
pub use depth::{depth_first_order, update_child_indices, DepthFirstArenaTree, DepthFirstIterator};
pub use differentiable::{selected_positions, ComputeSelection, DifferentiableModel, Mode};
pub use directed::DirectedArenaTree;
pub use errors::MannequinError;
pub use inverse::{next_step, SolverStep};
pub use iterables::{
    BaseDirectionIterable, DepthFirstIterable, DirectionIterable, NodeLike, OptimizedDirectionIterable,
};
pub use node::{ArenaIndex, ArenaNode};
pub use utils::sort_by_indices;

verus! {

} // verus!
