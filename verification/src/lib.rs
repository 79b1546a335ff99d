//! A bot for a grid arena game: board scoring, target selection and
//! jump-based A* path finding.
pub mod astar;
pub mod grid;
pub mod helper;
pub mod protocol;
pub mod bot;
pub mod archive;
pub mod laws;
