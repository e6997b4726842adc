//! Navigation for agents in 2D platformer levels: a graph of walkable points
//! joined by walk, jump and drop connections, an A* search over it, and the
//! controller that turns a path into steering and jump decisions.
//!
//! Lengths are integers in milli-units of the world (see `geometry::UNIT`) and
//! time is counted in simulation ticks, so every geometric test is exact.
pub mod geometry;
pub mod level;
pub mod graph;
pub mod a_star;
pub mod trajectory;
pub mod builder;
pub mod platformer_ai;
pub mod pursue_ai;
