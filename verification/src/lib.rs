//! A procedural dungeon core: a seeded generator that places rooms and
//! corridors on a tile grid, an undirected connectivity graph over grid
//! coordinates, an A* path search over that graph, and a solver queue that
//! resolves path requests for a surrounding interactive program.

pub mod connect;
pub mod dungeon;
pub mod generator;
pub mod graph;
pub mod rng;
pub mod search;
pub mod solver;
pub mod sprite_data;
pub mod util;
