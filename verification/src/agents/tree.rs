//! The tree agent: what it reads off a leaf of the search, how it picks a move from
//! the scores, and when it stops searching deeper.

use crate::agents::chance::draw_index;
use crate::env::{Direction, Vec2D};
use crate::game::flood::{cell_slot, count_label, settled, FloodFill, FloodState, Owner};
use crate::game::search::{max_n, max_n_spec, scorer, Comparable, Evaluator};
use crate::game::simulator::Game;
use crate::game::state::{GameState, Outcome};
use vstd::prelude::*;

verus! {

/// What the tree agent weighs at a leaf where the game is in progress and snake 0
/// is alive, as whole numbers.
#[derive(Clone, Copy, Debug, PartialEq, Eq, Structural)]
pub struct TreeFeatures {
    /// The number of cells that snake 0 owns after the fill.
    pub space: usize,
    /// The number of cells of the board.
    pub cells: usize,
    /// The health of snake 0.
    pub health: u8,
    /// The length of snake 0.
    pub own_len: usize,
    /// The length of the longest live enemy, or 1 where there is none.
    pub max_enemy_len: usize,
    /// The number of entries of the food list that lie on cells that snake 0 owns.
    pub owned_food: usize,
    /// The width of the board.
    pub width: usize,
    /// The manhattan distance of the head of snake 0 from the middle of the board.
    pub center_distance: u32,
}

/// A leaf of the search as the tree agent sees it.
#[derive(Clone, Copy, Debug, PartialEq, Eq, Structural)]
pub enum Leaf {
    /// No snake is left.
    Draw,
    /// Snake 0 alone is left.
    Win,
    /// Snake 0 is dead and another snake lives.
    Loss,
    /// The game goes on with snake 0 in it.
    Open(TreeFeatures),
}

/// The number of the first `n` entries of `food` that lie on cells of snake 0.
pub open spec fn owned_food(g: GameState, f: FloodState, food: Seq<Vec2D>, n: int) -> nat
    decreases n,
{
    if n <= 0 {
        0
    } else {
        owned_food(g, f, food, n - 1) + if g.has(food[n - 1]) && f.owner[cell_slot(
            g.width,
            food[n - 1],
        )] == Owner::Snake(0) {
            1nat
        } else {
            0nat
        }
    }
}

/// The length of the longest live snake among those with the ids from 1 up to and
/// not including `n`; 0 where there is none.
pub open spec fn longest_enemy(g: GameState, n: int) -> nat
    decreases n,
{
    if n <= 1 {
        0
    } else {
        let rest = longest_enemy(g, n - 1);
        if g.snakes[n - 1].alive() && g.snakes[n - 1].body.len() > rest {
            g.snakes[n - 1].body.len()
        } else {
            rest
        }
    }
}

/// The manhattan distance of `p` from the middle of a board of this size.
pub open spec fn center_distance(width: usize, height: usize, p: Vec2D) -> int {
    let dx = p.x - width / 2;
    let dy = p.y - height / 2;
    (if dx < 0 {
        -dx
    } else {
        dx
    }) + (if dy < 0 {
        -dy
    } else {
        dy
    })
}

/// What the tree agent weighs in the game `g` with the fill `f`.
pub open spec fn features(g: GameState, f: FloodState, food: Seq<Vec2D>) -> TreeFeatures {
    TreeFeatures {
        space: count_label(f.owner, Owner::Snake(0)) as usize,
        cells: (g.width * g.height) as usize,
        health: g.snakes[0].health,
        own_len: g.snakes[0].body.len() as usize,
        max_enemy_len: if longest_enemy(g, g.snakes.len() as int) == 0 {
            1
        } else {
            longest_enemy(g, g.snakes.len() as int) as usize
        },
        owned_food: owned_food(g, f, food, food.len() as int) as usize,
        width: g.width,
        center_distance: center_distance(g.width, g.height, g.snakes[0].head()) as u32,
    }
}

/// Whether the game is one that the tree agent scores by its features.
pub open spec fn is_open(g: GameState) -> bool {
    g.outcome() == Outcome::InProgress && g.snakes[0].alive()
}

/// What the tree agent reads off the leaf `game`: a draw where no snake is left, a
/// win where snake 0 alone is left, a loss where snake 0 is dead, and else the
/// features of the game, for which the board is filled. `food` is the list of food
/// cells that counts as owned food.
pub fn heuristic(food: &[Vec2D], flood_fill: &mut FloodFill, game: &Game) -> (leaf: Leaf)
    requires
        game@.wf(),
        game@.snakes.len() > 0,
    ensures
        leaf is Draw <==> game@.outcome() is Match,
        leaf is Win <==> game@.outcome() == Outcome::Winner(0),
        leaf is Loss <==> !(game@.outcome() is Match) && !game@.snakes[0].alive(),
        leaf is Open <==> is_open(game@),
        !is_open(game@) ==> *final(flood_fill) == *old(flood_fill),
        is_open(game@) ==> settled(game@, old(flood_fill).spec_model(), final(flood_fill)@)
            && leaf == Leaf::Open(features(game@, final(flood_fill)@, food@)),
        leaf matches Leaf::Open(found) ==> {
            &&& found.space == count_label(final(flood_fill)@.owner, Owner::Snake(0))
            &&& found.cells == game@.width * game@.height
            &&& found.own_len == game@.snakes[0].body.len()
            &&& found.max_enemy_len >= longest_enemy(game@, game@.snakes.len() as int)
            &&& found.owned_food == owned_food(
                game@,
                final(flood_fill)@,
                food@,
                food@.len() as int,
            )
            &&& found.center_distance == center_distance(
                game@.width,
                game@.height,
                game@.snakes[0].head(),
            )
        },
{
    let ghost g = game@;
    assert(g.snakes[0] == game.snakes@[0]@);
    match game.outcome() {
        Outcome::Match => Leaf::Draw,
        Outcome::Winner(id) => {
            if id == 0 {
                Leaf::Win
            } else {
                proof {
                    if g.snakes[0].alive() {
                        crate::game::laws::lemma_single_live(
                            g.snakes,
                            g.snakes.len() as int,
                            0,
                            id as int,
                        );
                    }
                }
                Leaf::Loss
            }
        },
        Outcome::InProgress => {
            if !game.snakes[0].alive() {
                Leaf::Loss
            } else {
                flood_fill.flood_snakes(game, 0);
                let ghost f = flood_fill@;
                let space = flood_fill.count_space(0);
                let mut longest: usize = 0;
                let mut i: usize = 1;
                while i < game.snakes.len()
                    invariant
                        g == game@,
                        1 <= i <= g.snakes.len(),
                        longest == longest_enemy(g, i as int),
                    decreases g.snakes.len() - i,
                {
                    assert(g.snakes[i as int] == game.snakes@[i as int]@);
                    if game.snakes[i].alive() && game.snakes[i].body.len() > longest {
                        longest = game.snakes[i].body.len();
                    }
                    i = i + 1;
                }
                let mut owned: usize = 0;
                let mut k: usize = 0;
                while k < food.len()
                    invariant
                        g == game@,
                        g.wf(),
                        f == flood_fill@,
                        flood_fill.wf(),
                        flood_fill.spec_width() == game.width,
                        flood_fill.spec_height() == game.height,
                        flood_fill.spec_you() == 0,
                        k <= food@.len(),
                        owned <= k,
                        owned == owned_food(g, f, food@, k as int),
                    decreases food@.len() - k,
                {
                    let p = food[k];
                    if game.has(p) && flood_fill.is_you(p) {
                        owned = owned + 1;
                    }
                    k = k + 1;
                }
                let head = game.snakes[0].head();
                let cx: i32 = (game.width / 2) as i32;
                let cy: i32 = (game.height / 2) as i32;
                let dx: i32 = head.x as i32 - cx;
                let dy: i32 = head.y as i32 - cy;
                let ax: u32 = if dx < 0 {
                    (-dx) as u32
                } else {
                    dx as u32
                };
                let ay: u32 = if dy < 0 {
                    (-dy) as u32
                } else {
                    dy as u32
                };
                assert(game.width * game.height <= 1073676289) by (nonlinear_arith)
                    requires
                        game.width <= 32767,
                        game.height <= 32767,
                ;
                Leaf::Open(
                    TreeFeatures {
                        space,
                        cells: game.width * game.height,
                        health: game.snakes[0].health,
                        own_len: game.snakes[0].body.len(),
                        max_enemy_len: if longest == 0 {
                            1
                        } else {
                            longest
                        },
                        owned_food: owned,
                        width: game.width,
                        center_distance: ax + ay,
                    },
                )
            }
        },
    }
}

/// The position of the first of the greatest among the first `k` scores.
pub open spec fn argmax<T: Comparable>(scores: Seq<T>, k: int) -> int
    decreases k,
{
    if k <= 1 {
        0
    } else {
        let b = argmax(scores, k - 1);
        if scores[b].below(scores[k - 1]) {
            k - 1
        } else {
            b
        }
    }
}

/// The move that the scores speak for: the direction with the greatest score, the
/// lowest of several, unless that score is below `floor`.
pub open spec fn choice<T: Comparable>(scores: Seq<T>, floor: T) -> Option<Direction> {
    if scores[argmax(scores, 4)].below(floor) {
        None
    } else {
        Direction::of_code(argmax(scores, 4))
    }
}

/// The direction with the greatest of the four scores, the lowest direction of
/// several, or `None` where even that score is below `floor`.
pub fn best_direction<T: Comparable>(scores: &[T; 4], floor: T) -> (d: Option<Direction>)
    ensures
        d == choice(scores@, floor),
{
    let mut b: usize = 0;
    let mut k: usize = 1;
    while k < 4
        invariant
            1 <= k <= 4,
            b < k,
            b == argmax(scores@, k as int),
        decreases 4 - k,
    {
        if scores[b].less(&scores[k]) {
            b = k;
        }
        k = k + 1;
    }
    if scores[b].less(&floor) {
        None
    } else {
        Direction::from_index(b)
    }
}

/// The move of snake 0 that a search to this depth speaks for, or `None` where no
/// move has a score of `floor` or more.
pub fn next_move<T: Comparable, E: Evaluator<T>>(
    game: &Game,
    depth: usize,
    evaluator: &E,
    floor: T,
) -> (d: Option<Direction>)
    requires
        game@.wf(),
        game@.snakes.len() > 0,
        game.turn + depth < usize::MAX,
    ensures
        d == choice(max_n_spec(game@, depth as nat, scorer(evaluator)), floor),
{
    let evaluation = max_n(game, depth, evaluator);
    best_direction(&evaluation, floor)
}

/// The first depth of the search.
pub const FIRST_DEPTH: usize = 1;

/// The depth below which the search stays.
pub const DEPTH_LIMIT: usize = 20;

/// What to do after a depth is done.
#[derive(Clone, Copy, Debug, PartialEq, Eq, Structural)]
pub enum Step {
    /// Search to this depth next.
    Search(usize),
    /// Search no further.
    Stop,
}

/// The time that is left of `budget_ms` after `elapsed_ms`.
pub open spec fn time_left(budget_ms: u64, elapsed_ms: u64) -> int {
    if elapsed_ms < budget_ms {
        budget_ms - elapsed_ms
    } else {
        0
    }
}

/// The search under a deadline, as far as it has come: the budget, the number of
/// live snakes, the depth that is searched now and the best move found so far.
#[derive(Clone, Copy, Debug)]
pub struct Deepening {
    pub budget_ms: u64,
    pub live_snakes: u32,
    pub depth: usize,
    pub best: Option<Direction>,
    pub stopped: bool,
}

impl Deepening {
    /// Whether the depth is one that the search goes to.
    pub open spec fn wf(self) -> bool {
        FIRST_DEPTH <= self.depth < DEPTH_LIMIT
    }

    /// Whether the search must stop after the depth that took `move_ms` and ended
    /// `elapsed_ms` after the start with `result`: it found no move, or the depth
    /// was the last, or three times the time of the depth for each live snake is
    /// more than the time that is left.
    pub open spec fn must_stop(self, result: Option<Direction>, move_ms: u64, elapsed_ms: u64) -> bool {
        ||| result is None
        ||| self.depth + 1 >= DEPTH_LIMIT
        ||| move_ms * 3 * self.live_snakes > time_left(self.budget_ms, elapsed_ms)
    }

    /// A search that is about to begin at the first depth.
    pub fn new(budget_ms: u64, live_snakes: u32) -> (s: Deepening)
        ensures
            s.wf(),
            s.budget_ms == budget_ms,
            s.live_snakes == live_snakes,
            s.depth == FIRST_DEPTH,
            s.best is None,
            !s.stopped,
    {
        Deepening { budget_ms, live_snakes, depth: FIRST_DEPTH, best: None, stopped: false }
    }

    /// The time that is left of the budget after `elapsed_ms`.
    pub fn remaining(&self, elapsed_ms: u64) -> (left: u64)
        ensures
            left == time_left(self.budget_ms, elapsed_ms),
    {
        if elapsed_ms < self.budget_ms {
            self.budget_ms - elapsed_ms
        } else {
            0
        }
    }

    /// Takes note of the result of the depth that was searched and says what to do
    /// next. A move that was found replaces the best so far. Once stopped, the
    /// search stays stopped and keeps its best move.
    pub fn record(&mut self, result: Option<Direction>, move_ms: u64, elapsed_ms: u64) -> (next: Step)
        requires
            old(self).wf(),
        ensures
            final(self).wf(),
            final(self).budget_ms == old(self).budget_ms,
            final(self).live_snakes == old(self).live_snakes,
            old(self).stopped ==> next == Step::Stop && *final(self) == *old(self),
            !old(self).stopped ==> {
                &&& final(self).best == if result is Some {
                    result
                } else {
                    old(self).best
                }
                &&& final(self).stopped == old(self).must_stop(result, move_ms, elapsed_ms)
                &&& final(self).stopped ==> next == Step::Stop && final(self).depth == old(
                    self,
                ).depth
                &&& !final(self).stopped ==> next == Step::Search((old(self).depth + 1) as usize)
                    && final(self).depth == old(self).depth + 1
            },
    {
        if self.stopped {
            return Step::Stop;
        }
        if result.is_some() {
            self.best = result;
        }
        let left = self.remaining(elapsed_ms);
        let tripled: u128 = move_ms as u128 * 3;
        assert(tripled * self.live_snakes <= 0x3_0000_0000_0000_0000 * 0x1_0000_0000) by (nonlinear_arith)
            requires
                0 <= tripled <= 0x3_0000_0000_0000_0000,
                0 <= self.live_snakes <= 0x1_0000_0000,
        ;
        let needed: u128 = tripled * self.live_snakes as u128;
        if result.is_none() || self.depth + 1 >= DEPTH_LIMIT || needed > left as u128 {
            self.stopped = true;
            Step::Stop
        } else {
            self.depth = self.depth + 1;
            Step::Search(self.depth)
        }
    }

    /// The move to answer with: the best that the search has found, else the valid
    /// move at the position `draw`, else `Up`.
    pub fn answer(&self, valid: &Vec<Direction>, draw: Option<usize>) -> (d: Direction)
        ensures
            d == fallback(self.best, valid@, draw),
    {
        match self.best {
            Some(d) => d,
            None => move_for_draw(valid, draw),
        }
    }
}

/// The valid move at the position `draw`, or `Up` where there is none.
pub open spec fn drawn(valid: Seq<Direction>, draw: Option<usize>) -> Direction {
    match draw {
        Some(i) => if i < valid.len() {
            valid[i as int]
        } else {
            Direction::Up
        },
        None => Direction::Up,
    }
}

/// The move to answer with: `best` where there is one, else the valid move drawn.
pub open spec fn fallback(best: Option<Direction>, valid: Seq<Direction>, draw: Option<usize>) -> Direction {
    match best {
        Some(d) => d,
        None => drawn(valid, draw),
    }
}

/// The valid move at the position `draw`, or `Up` where `draw` names none.
pub fn move_for_draw(valid: &Vec<Direction>, draw: Option<usize>) -> (d: Direction)
    ensures
        d == drawn(valid@, draw),
        valid@.len() == 0 ==> d == Direction::Up,
        draw matches Some(i) && i < valid@.len() ==> valid@.contains(d),
{
    match draw {
        Some(i) => {
            if i < valid.len() {
                valid[i]
            } else {
                Direction::Up
            }
        },
        None => Direction::Up,
    }
}

/// A move drawn at random from `valid`, or `Up` where `valid` is empty.
pub fn random_move(valid: &Vec<Direction>) -> (d: Direction)
    ensures
        valid@.len() == 0 ==> d == Direction::Up,
        valid@.len() > 0 ==> valid@.contains(d),
{
    let draw = draw_index(valid.len());
    move_for_draw(valid, draw)
}

} // verus!
