//! Grid route planning for a ground rover: an occupancy grid, a best-first
//! shortest-route search over it, and the small pieces of rover state that
//! need no floating point.

pub mod comm;
pub mod command;
pub mod frontier;
pub mod grid;
pub mod planner;
pub mod route;
pub mod sensors;
pub mod table;
pub mod terrain;
pub mod text;
