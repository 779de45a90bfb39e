use vstd::prelude::*;

pub mod backward;
pub mod graph;
pub mod laws;
pub mod nn;
pub mod node;
pub mod topo;

pub use backward::{Rule, Step};
pub use graph::Graph;
pub use node::{BinaryOp, Op, UnaryOp, ValueId, Value_};

verus! {

} // verus!
