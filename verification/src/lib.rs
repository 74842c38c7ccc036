//! An in-memory R-tree over axis-aligned bounding rectangles.
//!
//! Data nodes carry an object and its rectangle; the tree answers which
//! live data nodes intersect an area. It grows by insertion, is built at
//! once from all its data by recursive partitioning, and takes insertions
//! after that. Data nodes are removed by parking them in a freelist; a
//! compacted copy of the space leaves the parked ones out.
//!
//! The contracts speak of the tree through its model, `model::TreeView`.

pub mod builder;
pub mod fixup;
pub mod groups;
pub mod insert;
pub mod laws;
pub mod levels;
pub mod mbr;
pub mod model;
pub mod node;
pub mod obj_space;
pub mod partial;
pub mod ranges;
pub mod search;
pub mod sorting;
pub mod split;
pub mod text;
pub mod tree;
pub mod tree_builder;
pub mod walk;
pub mod wellformed;

pub use crate::mbr::{Bounds, MBR};
pub use crate::node::{DataNode, InternalNode, Node, NodeId, RecordId, RecordIdKind};
pub use crate::obj_space::{InternalNodeTrait, ObjSpace};
pub use crate::tree::{InsertHandler, LRTree, Visitor};
pub use crate::tree_builder::LRTreeBuilder;
