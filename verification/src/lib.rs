pub mod blokus;
pub mod connect4;
pub mod connection;
pub mod hex;
pub mod random;
pub mod text;
pub mod numeral;
pub mod sequence;
pub mod sat;
pub mod tzf8;
