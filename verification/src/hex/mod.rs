pub mod agent;
pub mod connect;
pub mod dsu;
pub mod evaluator;
pub mod game;
pub mod outcome;
pub mod paths;
pub mod render;
pub mod world;
