//! Shortest paths on two-dimensional navigation graphs with the A* algorithm,
//! and a generator of geometrically well-formed random graphs.
//!
//! Positions are points of an integer grid: see [`vector`].
pub mod vector;
pub mod a_star;
pub mod line;
pub mod graph_constructor;
pub mod interaction;
