//! Connect four on a board of bit sets, one per colour.
pub mod connect4;
pub mod util;
