use crate::syntax::{Instruction, Node};
use vstd::prelude::*;

pub mod peephole;
pub mod shape;
pub mod soundness;

verus! {

/// A rewrite of a program into one that runs alike.
pub trait OptimizationPass {
    /// What the pass makes of `nodes`.
    spec fn optimized(&self, nodes: Seq<Node>) -> Seq<Node>;

    /// Rewrites `nodes`.
    fn optimize(&self, nodes: Vec<Instruction>) -> (result: Vec<Instruction>)
        ensures
            result.deep_view() == self.optimized(nodes.deep_view()),
    ;
}

} // verus!
