//! A two-player connection game on a fixed 6 x 7 vertical grid, together with
//! a Monte Carlo move recommender.
//!
//! The board keeps a cell matrix plus one fill cursor per column; pieces are
//! gravity-packed. The win detector scans horizontal, vertical and both
//! diagonal directions for a run of four equal marks. The engine plays random
//! continuations of a position and ranks candidate moves by their estimated
//! win ratio.

pub mod codec;

pub mod connect4board;

pub mod engine;

pub mod util;

pub mod wins;
