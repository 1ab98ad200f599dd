//! Grid pathfinding: a 2-D grid of cells whose edges open and close at run
//! time, shortcut links between distant cells, an A* search over both, and a
//! compact binary form of the grid.

pub mod coordinates;
pub mod node;
pub mod matrix;
pub mod movement;
pub mod path_node;
pub mod partial_paths;
pub mod astar;
pub mod encoded_matrix;
pub mod planner;
