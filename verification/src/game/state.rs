//! The mathematical model of a game and the rules of one tick.

use crate::env::{Direction, Vec2D};
use vstd::prelude::*;

verus! {

/// Health of a snake that has just eaten.
pub const FULL_HEALTH: u8 = 100;

/// The largest width or height of a board.
pub const MAX_SIDE: usize = 32767;

/// The largest number of snakes in a game.
pub const MAX_SNAKES: usize = 255;

/// A snake: its id, its health and its body cells from head to tail.
/// A snake with health 0 is dead.
pub struct SnakeState {
    pub id: u8,
    pub health: u8,
    pub body: Seq<Vec2D>,
}

impl SnakeState {
    pub open spec fn alive(self) -> bool {
        self.health > 0
    }

    pub open spec fn head(self) -> Vec2D {
        self.body[0]
    }

    /// Whether `p` is a body cell other than the last.
    pub open spec fn blocks(self, p: Vec2D) -> bool {
        exists|k: int| 0 <= k < self.body.len() - 1 && #[trigger] self.body[k] == p
    }
}

/// How a game stands: in progress, won by the snake with the given id, or drawn.
#[derive(Clone, Copy, Debug, PartialEq, Eq, Structural)]
pub enum Outcome {
    InProgress,
    Winner(u8),
    Match,
}

/// Health that is left of `health` after `damage`.
pub open spec fn damaged(health: u8, damage: int) -> u8 {
    if health > damage {
        (health - damage) as u8
    } else {
        0
    }
}

/// The number of live snakes among the first `n` of `snakes`.
pub open spec fn live_among(snakes: Seq<SnakeState>, n: int) -> nat
    decreases n,
{
    if n <= 0 {
        0
    } else {
        live_among(snakes, n - 1) + if snakes[n - 1].alive() {
            1nat
        } else {
            0nat
        }
    }
}

/// Whether the head of snake `i` of `moved` lies on a body cell behind the head of a
/// snake that `live` marks, its own body included.
pub open spec fn hits_body(live: Seq<bool>, moved: Seq<SnakeState>, i: int) -> bool {
    exists|j: int, k: int|
        0 <= j < moved.len() && live[j] && 1 <= k < moved[j].body.len()
            && #[trigger] moved[j].body[k] == moved[i].body[0]
}

/// Whether snake `i` of `moved` shares its head cell with another snake that `live`
/// marks and that is at least as long.
pub open spec fn loses_head_on(live: Seq<bool>, moved: Seq<SnakeState>, i: int) -> bool {
    exists|j: int|
        0 <= j < moved.len() && j != i && live[j] && (#[trigger] moved[j]).body[0]
            == moved[i].body[0] && moved[j].body.len() >= moved[i].body.len()
}

/// Whether one of the snakes that `live` marks has its head on `p`.
pub open spec fn eaten(live: Seq<bool>, moved: Seq<SnakeState>, p: Vec2D) -> bool {
    exists|j: int| 0 <= j < moved.len() && live[j] && (#[trigger] moved[j]).body[0] == p
}

/// The cells of `food` on which no snake that `live` marks has its head, in their order.
pub open spec fn uneaten(live: Seq<bool>, moved: Seq<SnakeState>, food: Seq<Vec2D>) -> Seq<Vec2D> {
    food.filter(|p: Vec2D| !eaten(live, moved, p))
}

/// For each of `snakes` whether it is alive.
pub open spec fn live_flags(snakes: Seq<SnakeState>) -> Seq<bool> {
    Seq::new(snakes.len(), |i: int| snakes[i].alive())
}

/// The whole state of a game.
pub struct GameState {
    pub width: usize,
    pub height: usize,
    pub snakes: Seq<SnakeState>,
    pub food: Seq<Vec2D>,
    pub hazards: Seq<Vec2D>,
    pub turn: usize,
    pub hazard_damage: u8,
}

impl GameState {
    /// Whether `p` lies on the board.
    pub open spec fn has(self, p: Vec2D) -> bool {
        0 <= p.x < self.width && 0 <= p.y < self.height
    }

    /// Validity: the board is not too large, each snake stands at the position of its
    /// id, has a body and at most full health, and the live ones have their heads on
    /// the board.
    pub open spec fn wf(self) -> bool {
        &&& self.width <= MAX_SIDE
        &&& self.height <= MAX_SIDE
        &&& self.snakes.len() <= MAX_SNAKES
        &&& forall|i: int|
            0 <= i < self.snakes.len() ==> {
                &&& (#[trigger] self.snakes[i]).id == i
                &&& self.snakes[i].body.len() > 0
                &&& self.snakes[i].health <= FULL_HEALTH
                &&& self.snakes[i].alive() ==> self.has(self.snakes[i].head())
            }
    }

    /// The number of live snakes.
    pub open spec fn live_count(self) -> nat {
        live_among(self.snakes, self.snakes.len() as int)
    }

    /// The direction that `moves` holds for snake `i`: the live snakes take the
    /// entries of `moves` in the order of their ids.
    pub open spec fn intent(self, moves: Seq<Direction>, i: int) -> Direction {
        moves[live_among(self.snakes, i) as int]
    }

    /// Whether moving snake `i` in direction `d` would put its head on its neck.
    pub open spec fn into_neck(self, i: int, d: Direction) -> bool {
        self.snakes[i].body.len() >= 2 && self.snakes[i].head().neighbour(d)
            == self.snakes[i].body[1]
    }

    /// The direction in which snake `i` moves: as it intends, or straight on where
    /// it intends to move onto its neck.
    pub open spec fn heading(self, moves: Seq<Direction>, i: int) -> Direction {
        let d = self.intent(moves, i);
        if self.into_neck(i, d) {
            d.inverse()
        } else {
            d
        }
    }

    /// The cell that the head of snake `i` moves to.
    pub open spec fn next_head(self, moves: Seq<Direction>, i: int) -> Vec2D {
        self.snakes[i].head().neighbour(self.heading(moves, i))
    }

    /// Whether snake `i` moves its head onto food.
    pub open spec fn eats(self, moves: Seq<Direction>, i: int) -> bool {
        self.food.contains(self.next_head(moves, i))
    }

    /// The health that one tick takes at the cell `p`.
    pub open spec fn toll(self, p: Vec2D) -> int {
        if self.hazards.contains(p) {
            1 + self.hazard_damage
        } else {
            1
        }
    }

    /// Snake `i` after it has moved, before collisions are settled. A dead snake
    /// stays as it is. A live one gets its new head; where that is on food its health
    /// is full and it keeps its tail, else it pays the toll and loses its last cell.
    pub open spec fn moved(self, moves: Seq<Direction>, i: int) -> SnakeState {
        let s = self.snakes[i];
        if !s.alive() {
            s
        } else {
            let h = self.next_head(moves, i);
            if self.eats(moves, i) {
                SnakeState { id: s.id, health: FULL_HEALTH, body: seq![h] + s.body }
            } else {
                SnakeState {
                    id: s.id,
                    health: damaged(s.health, self.toll(h)),
                    body: seq![h] + s.body.drop_last(),
                }
            }
        }
    }

    /// All snakes after they have moved, before collisions are settled.
    pub open spec fn moved_all(self, moves: Seq<Direction>) -> Seq<SnakeState> {
        Seq::new(self.snakes.len(), |i: int| self.moved(moves, i))
    }

    /// Whether the live snake `i` dies in this tick: its head leaves the board, its
    /// health is used up, its head lies on a body cell behind a head, or it meets
    /// head on a snake that is not shorter.
    pub open spec fn dies(self, moves: Seq<Direction>, i: int) -> bool {
        let m = self.moved_all(moves);
        ||| !self.has(m[i].body[0])
        ||| m[i].health == 0
        ||| hits_body(live_flags(self.snakes), m, i)
        ||| loses_head_on(live_flags(self.snakes), m, i)
    }

    /// Snake `i` at the end of the tick.
    pub open spec fn settled(self, moves: Seq<Direction>, i: int) -> SnakeState {
        let m = self.moved(moves, i);
        if self.snakes[i].alive() && self.dies(moves, i) {
            SnakeState { id: m.id, health: 0, body: m.body }
        } else {
            m
        }
    }

    /// The game one tick later.
    pub open spec fn step(self, moves: Seq<Direction>) -> GameState {
        GameState {
            width: self.width,
            height: self.height,
            snakes: Seq::new(self.snakes.len(), |i: int| self.settled(moves, i)),
            food: uneaten(live_flags(self.snakes), self.moved_all(moves), self.food),
            hazards: self.hazards,
            turn: (self.turn + 1) as usize,
            hazard_damage: self.hazard_damage,
        }
    }

    /// Whether the cell `p` is deadly whatever else happens: it is off the board or
    /// a body cell, other than the last, of a live snake.
    pub open spec fn lethal(self, p: Vec2D) -> bool {
        !self.has(p) || exists|j: int|
            0 <= j < self.snakes.len() && (#[trigger] self.snakes[j]).alive()
                && self.snakes[j].blocks(p)
    }

    /// Whether `d` is a move that the live snake `i` may safely consider: it does not
    /// lead onto the neck nor to a cell that is lethal.
    pub open spec fn open_move(self, i: int, d: Direction) -> bool {
        self.snakes[i].alive() && !self.into_neck(i, d) && !self.lethal(
            self.snakes[i].head().neighbour(d),
        )
    }

    /// The moves that snake `i` may safely consider, in the order of the directions.
    pub open spec fn valid_moves(self, i: int) -> Seq<Direction> {
        Direction::every().filter(|d: Direction| self.open_move(i, d))
    }

    /// How the game stands: drawn when no snake is alive, won when exactly one is,
    /// else in progress.
    pub open spec fn outcome(self) -> Outcome {
        if self.live_count() == 0 {
            Outcome::Match
        } else if self.live_count() == 1 {
            Outcome::Winner(
                choose|id: u8| id < self.snakes.len() && (#[trigger] self.snakes[id as int]).alive(),
            )
        } else {
            Outcome::InProgress
        }
    }
}

} // verus!
