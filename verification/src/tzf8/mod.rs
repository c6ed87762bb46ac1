pub mod evaluator;
pub mod render;
