//! Turn a small textual description of a labeled tree into a two-dimensional
//! diagram: one box per node, arrows connecting each child to its parent,
//! anchored at specific box edges.
//!
//! The pipeline is strictly one-way: text is parsed into a tree model, the
//! layout engine assigns every node a position, the connector binds parent
//! and child boxes with arrows, and the resulting typed records are handed
//! to an external document sink for serialization.

pub mod connector;
pub mod document;
pub mod layout;
pub mod parser;
pub mod render;
pub mod text;
