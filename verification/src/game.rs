//! The game: its state, the rules of one tick and what follows from them.

pub mod flood;
pub mod laws;
pub mod request;
pub mod search;
pub mod simulator;
pub mod state;
