//! Leaf evaluators for Connect 4 search.
use vstd::prelude::*;

verus! {

/// Uniform priors over the open columns and zero values.
#[derive(Debug, Clone, Copy, Default)]
pub struct UniformEvaluator;

/// Values estimated by random playouts.
pub struct RolloutEvaluator<const R: usize, const C: usize> {
    /// Playouts per evaluation.
    pub num_rollouts: usize,
    /// Moves per playout at most.
    pub max_depth: usize,
}

impl<const R: usize, const C: usize> RolloutEvaluator<R, C> {
    /// An evaluator with the given playout count and depth.
    pub fn new(num_rollouts: usize, max_depth: usize) -> (e: Self)
        ensures
            e.num_rollouts == num_rollouts,
            e.max_depth == max_depth,
    {
        RolloutEvaluator { num_rollouts, max_depth }
    }
}

impl<const R: usize, const C: usize> Default for RolloutEvaluator<R, C> {
    fn default() -> (e: Self)
        ensures
            e.num_rollouts == 5,
            e.max_depth == 20,
    {
        Self::new(5, 20)
    }
}

} // verus!
