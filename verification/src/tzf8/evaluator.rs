//! Leaf evaluators for 2048 search.
use vstd::prelude::*;

verus! {

/// Uniform priors over the legal moves and zero values.
#[derive(Debug, Clone, Copy, Default)]
pub struct UniformEvaluator;

/// Values estimated by random playouts.
#[derive(Debug, Clone, Copy)]
pub struct RolloutEvaluator {
    /// Playouts per evaluation.
    pub num_rollouts: usize,
    /// Moves per playout at most.
    pub max_depth: usize,
}

impl RolloutEvaluator {
    /// An evaluator with the given playout count and depth.
    pub fn new(num_rollouts: usize, max_depth: usize) -> (e: Self)
        ensures
            e.num_rollouts == num_rollouts,
            e.max_depth == max_depth,
    {
        RolloutEvaluator { num_rollouts, max_depth }
    }
}

impl Default for RolloutEvaluator {
    fn default() -> (e: Self)
        ensures
            e.num_rollouts == 5,
            e.max_depth == 25,
    {
        Self::new(5, 25)
    }
}

} // verus!
