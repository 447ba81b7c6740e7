//! The logic of a terminal maze game: a seeded generator carves a maze by randomized
//! depth-first backtracking, a selector marks the start and the farthest goal, and a
//! movement controller walks the player through it.

pub mod carve;
pub mod game;
pub mod goal;
pub mod grid;
pub mod movement;
pub mod rng;
