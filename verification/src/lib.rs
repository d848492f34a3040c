//! A dynamic two-dimensional index that answers nearest-dominator queries:
//! among the cataloged points that lie strictly further along axis 0 and
//! strictly lower on axis 1 than a query, the one nearest to it.
//!
//! The index is built in one go from named points, searched from the root
//! with a pruning rule that follows the dominance relation, and shrunk leaf
//! by leaf by promoting the sibling of the leaf that leaves.
//!
//! Coordinates are integers on a grid that the caller chooses, so every
//! comparison the index makes (dominance, squared distance, distance to a
//! divider) is exact. Dividers are kept doubled for the same reason.
//!
//! Beside the index stands the cleaning of the raw catalog records from
//! which its points are prepared.

pub mod clean_up;
pub mod error;
pub mod growth;
pub mod input;
pub mod kd_tree;
pub mod keys;
pub mod node;
pub mod point;
pub mod search;
pub mod shape;
pub mod sorting;

pub use error::KdError;
pub use kd_tree::KdTree;
pub use node::{InternalNode, Node};
pub use point::{LeafNode, Point};
