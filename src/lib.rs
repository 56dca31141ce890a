//! Flow construction: turns a styled document tree into a tree of layout boxes
//! ("flows"), bottom-up, one node at a time.
//!
//! - `style`, `dom`: the computed style values and the document nodes read.
//! - `fragment`: leaf content and runs of inline fragments, with white-space
//!   stripping at the edges of a run.
//! - `flow`: boxes, the structural rules on which children a box takes, and
//!   the anonymous boxes synthesized where it refuses one.
//! - `result`, `store`: what construction makes of a node, and the table of
//!   each node's latest result.
//! - `construct`: the builders, the dispatch on `display`, `float` and
//!   `position`, and the postorder traversal.
//! - `ftl`: the visiting orders of attribute passes over a finished box tree.

pub mod style;
pub mod dom;
pub mod fragment;
pub mod flow;
pub mod result;
pub mod store;
pub mod construct;
pub mod ftl;
