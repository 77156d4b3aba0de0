//! Engine for a two-player territory-capture board game.
//!
//! Two players take turns picking a color; all cells reachable from a
//! player's territory through same-colored unowned neighbors are annexed.
//! The crate covers the grid data model, initial board generation under
//! adjacency constraints, the queue-based capture flood fill, scoring, and
//! win/draw detection.  Rendering and input belong to the surrounding
//! application, which drives the engine through [`game::Game`].

pub mod capture;
pub mod game;
pub mod grid;
mod rng;
