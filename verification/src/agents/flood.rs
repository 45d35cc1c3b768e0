//! The flood agent's score: the space that snake 0 controls, with a bonus for the
//! food in it.

use crate::agents::tree::{heuristic, is_open, owned_food, Leaf};
use crate::env::Vec2D;
use crate::game::flood::{
    cell_slot, count_label, lemma_cell_slot, lemma_fill_unique, settled, FloodFill, FloodState,
    Owner, WallModel,
};
use crate::game::search::Evaluator;
use crate::game::simulator::Game;
use crate::game::state::{GameState, Outcome};
use vstd::prelude::*;

verus! {

/// What the flood agent can be told: the worth of a food cell in cells.
#[derive(Clone, Copy, Debug, PartialEq, Eq, Structural)]
pub struct FloodConfig {
    pub food_bonus: u32,
}

/// The score of a game that is won.
pub const WON: i64 = 0x7fff_ffff_ffff_ffff;

/// The score of a game that is lost.
pub const LOST: i64 = -0x8000_0000_0000_0000;

/// The greatest score of a game that is in progress.
pub const BEST_OPEN: i64 = 0x7fff_ffff_ffff_fffe;

/// Scores a game by the space that snake 0 controls.
#[derive(Clone, Copy, Debug)]
pub struct FloodEvaluator {
    pub config: FloodConfig,
}

/// The fill of the board of `g` with static walls.
pub open spec fn fill_of(g: GameState) -> FloodState {
    choose|f: FloodState| settled(g, WallModel::Static, f)
}

/// The cells that snake 0 owns in the fill `f` and `bonus` more for each entry of
/// the food of `g` on one of them, but no more than `BEST_OPEN`.
pub open spec fn space_score(g: GameState, f: FloodState, bonus: u32) -> i64 {
    let raw = count_label(f.owner, Owner::Snake(0)) + bonus * owned_food(
        g,
        f,
        g.food,
        g.food.len() as int,
    );
    if raw > BEST_OPEN {
        BEST_OPEN
    } else {
        raw as i64
    }
}

/// The score of the game `g` for snake 0.
pub open spec fn flood_value(g: GameState, bonus: u32) -> i64 {
    if g.outcome() is Match {
        0
    } else if g.outcome() == Outcome::Winner(0) {
        WON
    } else if !g.snakes[0].alive() {
        LOST
    } else {
        space_score(g, fill_of(g), bonus)
    }
}

/// Every position below the number of cells is the position of a cell of the board.
proof fn lemma_cell_of_slot(g: GameState, i: int) -> (p: Vec2D)
    requires
        g.wf(),
        0 <= i < g.width * g.height,
    ensures
        g.has(p),
        cell_slot(g.width, p) == i,
{
    let w = g.width as int;
    let h = g.height as int;
    assert(w > 0) by (nonlinear_arith)
        requires
            0 <= i < w * h,
            w >= 0,
            h >= 0,
    ;
    vstd::arithmetic::div_mod::lemma_fundamental_div_mod(i, w);
    vstd::arithmetic::div_mod::lemma_mod_bound(i, w);
    let x = i % w;
    let y = i / w;
    assert(0 <= y < h) by (nonlinear_arith)
        requires
            0 <= i < w * h,
            i == w * y + x,
            0 <= x < w,
            h >= 0,
    ;
    assert(y * w + x == i) by (nonlinear_arith)
        requires
            i == w * y + x,
    ;
    Vec2D { x: x as i16, y: y as i16 }
}

/// Two fills of one game have the same labels.
pub proof fn lemma_fill_labels(g: GameState, model: WallModel, f1: FloodState, f2: FloodState)
    requires
        g.wf(),
        settled(g, model, f1),
        settled(g, model, f2),
    ensures
        f1.owner == f2.owner,
{
    assert forall|i: int| 0 <= i < f1.owner.len() implies f1.owner[i] == f2.owner[i] by {
        let p = lemma_cell_of_slot(g, i);
        lemma_fill_unique(g, model, f1, f2, p);
    }
    assert(f1.owner =~= f2.owner);
}

/// The food on the cells of snake 0 is counted by the labels alone.
proof fn lemma_owned_food_labels(g: GameState, f1: FloodState, f2: FloodState, food: Seq<Vec2D>, n: int)
    requires
        f1.owner == f2.owner,
    ensures
        owned_food(g, f1, food, n) == owned_food(g, f2, food, n),
    decreases n,
{
    if n > 0 {
        lemma_owned_food_labels(g, f1, f2, food, n - 1);
    }
}

impl FloodEvaluator {
    pub fn new(config: FloodConfig) -> (e: FloodEvaluator)
        ensures
            e.config == config,
    {
        FloodEvaluator { config }
    }
}

impl Evaluator<i64> for FloodEvaluator {
    open spec fn value(&self, g: GameState) -> i64 {
        flood_value(g, self.config.food_bonus)
    }

    /// Nothing for a draw, `WON` and `LOST` for a game that is won or lost, and else
    /// the number of cells that snake 0 owns after the fill with static walls, with
    /// the food bonus for each food cell among them.
    fn evaluate(&self, game: &Game) -> (t: i64) {
        let ghost g = game@;
        let mut flood = FloodFill::new(game.width, game.height);
        let leaf = heuristic(game.food.as_slice(), &mut flood, game);
        match leaf {
            Leaf::Draw => 0,
            Leaf::Win => WON,
            Leaf::Loss => LOST,
            Leaf::Open(found) => {
                proof {
                    let f = flood@;
                    assert(settled(g, WallModel::Static, f));
                    lemma_fill_labels(g, WallModel::Static, f, fill_of(g));
                    lemma_owned_food_labels(g, f, fill_of(g), g.food, g.food.len() as int);
                    assert(found.space == count_label(f.owner, Owner::Snake(0)));
                    assert(found.owned_food == owned_food(g, f, g.food, g.food.len() as int));
                }
                assert(self.config.food_bonus * found.owned_food <= 0xffff_ffff
                    * 0xffff_ffff_ffff_ffff) by (nonlinear_arith)
                    requires
                        0 <= self.config.food_bonus <= 0xffff_ffff,
                        0 <= found.owned_food <= 0xffff_ffff_ffff_ffff,
                ;
                let bonus: u128 = self.config.food_bonus as u128 * found.owned_food as u128;
                let raw: u128 = found.space as u128 + bonus;
                assert(raw == found.space + self.config.food_bonus * found.owned_food);
                if raw > BEST_OPEN as u128 {
                    BEST_OPEN
                } else {
                    raw as i64
                }
            },
        }
    }
}

} // verus!
