pub mod counting;
pub mod gameboard;
pub mod grid;
mod rng;
pub mod tile;
