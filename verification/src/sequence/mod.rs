pub mod agent;
pub mod board;
pub mod dynamics;
pub mod evaluator;
pub mod game;
pub mod render;
pub mod scan;
pub mod world;
