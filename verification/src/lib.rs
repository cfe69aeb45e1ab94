//! Monte Carlo tree search for two-player, perfect-information games, with the
//! game rules, the statistics tables and the search strategies verified.

pub mod counting;
pub mod game;
pub mod rng;
pub mod stats;
pub mod strategies;
pub mod table;
pub mod text;
