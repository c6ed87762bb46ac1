pub mod agent;
pub mod dynamics;
pub mod evaluator;
pub mod game;
pub mod pieces;
pub mod render;
pub mod tournament;
pub mod world;
