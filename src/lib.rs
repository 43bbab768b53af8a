//! Two small binary-tree structures, a tree whose node values are summed and
//! a set container backed by an unbalanced binary search tree, and the
//! integer bookkeeping of a patient's doctor visits.

use vstd::prelude::*;

pub mod search_tree;
pub mod sum_tree;
pub mod visits;

pub use search_tree::BinaryTree;
pub use sum_tree::{tree_sum, tree_sum_recur, TreeNode, TreeNodeRef};
pub use visits::VisitHistory;

verus! {

} // verus!
