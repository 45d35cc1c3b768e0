//! Agents and the board helpers they share.

use crate::env::{GameRequest, MoveResponse};
use vstd::prelude::*;

pub mod chance;
pub mod flood;
pub mod path;
pub mod queue;
pub mod reach;
pub mod tree;
pub mod util;

verus! {

/// What answers turn requests: a move for each turn within the given number of
/// milliseconds, and a last word when the game is over.
pub trait Agent {
    fn step(&mut self, request: &GameRequest, ms: u64) -> MoveResponse;

    fn end(&mut self, request: &GameRequest);
}

/// The kinds of agent that can be configured.
#[derive(Clone, Copy, Debug, PartialEq, Eq, Structural)]
pub enum AgentKind {
    Mobility,
    Tree,
    Random,
    Flood,
}

/// The largest width and height of a board that the configured agent plays on.
pub const MAX_BOARD_SIDE: usize = 19;

/// The kind of agent that answers for a board of this size: the configured one, or
/// the random one where the board is wider or higher than `MAX_BOARD_SIDE`.
pub fn agent_for(configured: AgentKind, width: usize, height: usize) -> (kind: AgentKind)
    ensures
        kind == if width > MAX_BOARD_SIDE || height > MAX_BOARD_SIDE {
            AgentKind::Random
        } else {
            configured
        },
{
    if width > MAX_BOARD_SIDE || height > MAX_BOARD_SIDE {
        AgentKind::Random
    } else {
        configured
    }
}

} // verus!
