//! Decision core of a snake agent for a multi-snake grid game: geometry,
//! a one-tick simulator, flood-fill analysis and a fixed-depth search.

pub mod agents;
pub mod env;
pub mod game;
