pub mod board;
pub mod cell;
pub mod fill;
pub mod grid;
pub mod render;

