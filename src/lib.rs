//! A reverse-mode automatic-differentiation engine over scalar values.
//!
//! The computation graph is an arena of nodes addressed by index: every
//! operator appends a new node whose operands are nodes already in the arena,
//! so the graph is acyclic by construction. This crate holds the structural
//! half of the engine (the graph, its topological ordering, and the schedule
//! of gradient contributions that the chain rule prescribes); the numeric
//! values that flow along that schedule are kept by the caller.

pub mod backward;
pub mod graph;
pub mod layers;

pub use backward::{Rule, Step};
pub use graph::{Graph, Node, NodeView, Op};
pub use layers::{LayerShape, layer_shapes};
