pub mod tile;
pub mod arena;
pub mod board;
pub mod game;
