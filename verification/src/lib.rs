//! Game rules of a small isometric dungeon crawler: the tile grid, breadth-first
//! path finding on it, and the turn logic of the knight, the goblins and the gold.

pub mod grid;
pub mod pathfind;
pub mod game;
pub mod laws;
