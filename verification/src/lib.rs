//! Shortest-path solver for sliding-actor puzzles.
//!
//! A puzzle is a grid of passable and impassable cells, a list of coloured
//! goal cells and a handful of coloured actors that all move at once when a
//! direction is commanded. The crate models one move of the whole group and
//! searches for a shortest command sequence that covers every goal.

pub mod actors;
pub mod canonical;
pub mod collide;
pub mod direction;
pub mod estimate;
pub mod format;
pub mod frontier;
pub mod model;
pub mod moves;
pub mod parse;
pub mod puzzle;
pub mod render;
pub mod rounds;
pub mod scan_order;
pub mod search;
pub mod solve;
pub mod text;
pub mod universe;
pub mod vec2;
pub mod visited;

pub use direction::{Direction, ParseDirectionError};
pub use model::{Actor, Board, Color, Goal, Tile, MAX_ACTORS, UNREACHABLE};
pub use parse::ParseError;
pub use puzzle::{Data, State, Transition};
pub use solve::solve;
pub use vec2::Vec2;
