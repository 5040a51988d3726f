//! Reverse-mode automatic differentiation over a graph of scalar integer
//! expressions.
//!
//! Nodes live in a `Graph` arena and refer to their operands by index, so a
//! sub-expression used twice is one node with two consumers. A gradient pass
//! visits the nodes reachable from a root once each, in reverse topological
//! order, and accumulates each node's share into its operands.
pub mod engine;
pub mod graph;
pub mod laws;
pub mod operands;
pub mod viz;

pub use graph::{Graph, GraphError, Op, Unit};
pub use viz::{connection_ports, draw_ascii, stroke, symbol, trace, Link, Stroke};
