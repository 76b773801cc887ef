//! Solves a maze given as a grid of passable and blocked cells: the cells that
//! can be reached from the start are laid out as a tree with one child slot per
//! compass direction, and the tree is searched for the way to the end.

mod arena;
pub mod direction;
pub mod maze;
pub mod maze_to_tree;
pub mod maze_tree;
pub mod path_to_end;
pub mod render;
mod search;
pub mod tree;
pub mod walk;
