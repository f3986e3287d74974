//! Grid-maze generation, expansion and the integer core of a first-person raycaster.

pub mod collision;
pub mod connectivity;
pub mod generate;
pub mod grid;
pub mod maze;
pub mod random;
pub mod raycast;
pub mod screen;
mod spanning;

pub use generate::{generate_maze, generate_maze_seeded};
pub use grid::maze_to_grid;
pub use maze::Cell;
