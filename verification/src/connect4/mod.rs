pub mod agent;
pub mod dynamics;
pub mod evaluator;
pub mod game;
pub mod render;
pub mod tournament;
pub mod world;
