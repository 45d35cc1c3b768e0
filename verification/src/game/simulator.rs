//! The executable game and its one-tick advance.

use crate::env::{Direction, Vec2D};
use crate::game::laws::{
    lemma_live_among_bound, lemma_live_among_monotone, lemma_live_among_witness,
    lemma_single_live, lemma_step_wf,
};
use crate::game::state::{
    eaten, hits_body, live_among, live_flags, loses_head_on, uneaten, GameState, Outcome,
    SnakeState, FULL_HEALTH, MAX_SIDE, MAX_SNAKES,
};
use vstd::prelude::*;

verus! {

/// A snake of the game.
pub struct Snake {
    pub id: u8,
    pub body: Vec<Vec2D>,
    pub health: u8,
}

impl View for Snake {
    type V = SnakeState;

    open spec fn view(&self) -> SnakeState {
        SnakeState { id: self.id, health: self.health, body: self.body@ }
    }
}

impl Snake {
    pub fn new(id: u8, body: Vec<Vec2D>, health: u8) -> (s: Snake)
        ensures
            s@ == (SnakeState { id, health, body: body@ }),
    {
        Snake { id, body, health }
    }

    /// Whether the snake is alive: a dead snake has no health left.
    pub fn alive(&self) -> (b: bool)
        ensures
            b == self@.alive(),
    {
        self.health > 0
    }

    /// The first cell of the body.
    pub fn head(&self) -> (p: Vec2D)
        requires
            self@.body.len() > 0,
        ensures
            p == self@.head(),
    {
        self.body[0]
    }
}

/// The snakes of a vector as the model sees them.
pub open spec fn snakes_view(snakes: Seq<Snake>) -> Seq<SnakeState> {
    Seq::new(snakes.len(), |i: int| snakes[i]@)
}

/// Whether `p` is one of `cells`.
pub fn contains_cell(cells: &Vec<Vec2D>, p: Vec2D) -> (b: bool)
    ensures
        b == cells@.contains(p),
{
    let mut k: usize = 0;
    while k < cells.len()
        invariant
            k <= cells@.len(),
            forall|j: int| 0 <= j < k ==> cells@[j] != p,
        decreases cells@.len() - k,
    {
        if cells[k] == p {
            return true;
        }
        k = k + 1;
    }
    false
}


/// A copy of `cells`.
pub fn clone_cells(cells: &Vec<Vec2D>) -> (copy: Vec<Vec2D>)
    ensures
        copy@ == cells@,
{
    let mut copy: Vec<Vec2D> = Vec::with_capacity(cells.len());
    let mut k: usize = 0;
    while k < cells.len()
        invariant
            k <= cells@.len(),
            copy@ == cells@.take(k as int),
        decreases cells@.len() - k,
    {
        copy.push(cells[k]);
        assert(copy@ =~= cells@.take(k + 1));
        k = k + 1;
    }
    assert(cells@.take(cells@.len() as int) =~= cells@);
    copy
}

impl Clone for Snake {
    fn clone(&self) -> (s: Snake)
        ensures
            s@ == self@,
    {
        Snake { id: self.id, body: clone_cells(&self.body), health: self.health }
    }
}

/// Damage that a hazard adds to the toll of a tick unless a game is told otherwise.
pub const DEFAULT_HAZARD_DAMAGE: u8 = 15;

/// The game: the board's size, the snakes at the positions of their ids, food,
/// hazards and the number of ticks played.
pub struct Game {
    pub width: usize,
    pub height: usize,
    pub snakes: Vec<Snake>,
    pub food: Vec<Vec2D>,
    pub hazards: Vec<Vec2D>,
    pub turn: usize,
    pub hazard_damage: u8,
}

impl View for Game {
    type V = GameState;

    open spec fn view(&self) -> GameState {
        GameState {
            width: self.width,
            height: self.height,
            snakes: snakes_view(self.snakes@),
            food: self.food@,
            hazards: self.hazards@,
            turn: self.turn,
            hazard_damage: self.hazard_damage,
        }
    }
}

impl Clone for Game {
    fn clone(&self) -> (g: Game)
        ensures
            g@ == self@,
    {
        let mut snakes: Vec<Snake> = Vec::with_capacity(self.snakes.len());
        let mut i: usize = 0;
        while i < self.snakes.len()
            invariant
                i <= self.snakes@.len(),
                snakes@.len() == i,
                forall|j: int| 0 <= j < i ==> (#[trigger] snakes@[j])@ == self.snakes@[j]@,
            decreases self.snakes@.len() - i,
        {
            snakes.push(self.snakes[i].clone());
            i = i + 1;
        }
        assert(snakes_view(snakes@) =~= snakes_view(self.snakes@));
        Game {
            width: self.width,
            height: self.height,
            snakes,
            food: clone_cells(&self.food),
            hazards: clone_cells(&self.hazards),
            turn: self.turn,
            hazard_damage: self.hazard_damage,
        }
    }
}

/// Whether the head of snake `i` lies on a body cell behind the head of a snake
/// that `live` marks.
fn hits_body_exec(live: &Vec<bool>, snakes: &Vec<Snake>, i: usize) -> (b: bool)
    requires
        live@.len() == snakes@.len(),
        i < snakes@.len(),
        snakes@[i as int].body@.len() > 0,
    ensures
        b == hits_body(live@, snakes_view(snakes@), i as int),
{
    let ghost m = snakes_view(snakes@);
    let p = snakes[i].body[0];
    let mut j: usize = 0;
    while j < snakes.len()
        invariant
            j <= snakes@.len(),
            live@.len() == snakes@.len(),
            i < snakes@.len(),
            snakes@[i as int].body@.len() > 0,
            m == snakes_view(snakes@),
            p == m[i as int].body[0],
            forall|a: int, k: int|
                0 <= a < j && live@[a] && 1 <= k < m[a].body.len() ==> #[trigger] m[a].body[k] != p,
        decreases snakes@.len() - j,
    {
        if live[j] {
            let body = &snakes[j].body;
            let mut k: usize = 1;
            while k < body.len()
                invariant
                    1 <= k,
                    j < snakes@.len(),
                    i < snakes@.len(),
                    live@.len() == snakes@.len(),
                    live@[j as int],
                    snakes@[i as int].body@.len() > 0,
                    *body == snakes@[j as int].body,
                    m == snakes_view(snakes@),
                    p == m[i as int].body[0],
                    forall|c: int| 1 <= c < k && c < body@.len() ==> body@[c] != p,
                decreases body@.len() - k,
            {
                if body[k] == p {
                    assert(m[j as int].body[k as int] == m[i as int].body[0]);
                    return true;
                }
                k = k + 1;
            }
        }
        j = j + 1;
    }
    false
}

/// Whether snake `i` shares its head cell with another snake that `live` marks and
/// that is at least as long.
fn loses_head_exec(live: &Vec<bool>, snakes: &Vec<Snake>, i: usize) -> (b: bool)
    requires
        live@.len() == snakes@.len(),
        i < snakes@.len(),
        forall|j: int| 0 <= j < snakes@.len() ==> (#[trigger] snakes@[j]).body@.len() > 0,
    ensures
        b == loses_head_on(live@, snakes_view(snakes@), i as int),
{
    let ghost m = snakes_view(snakes@);
    let p = snakes[i].body[0];
    let len = snakes[i].body.len();
    let mut j: usize = 0;
    while j < snakes.len()
        invariant
            j <= snakes@.len(),
            live@.len() == snakes@.len(),
            i < snakes@.len(),
            m == snakes_view(snakes@),
            p == m[i as int].body[0],
            len == m[i as int].body.len(),
            forall|a: int| 0 <= a < snakes@.len() ==> (#[trigger] snakes@[a]).body@.len() > 0,
            forall|a: int|
                0 <= a < j && a != i && live@[a] ==> !((#[trigger] m[a]).body[0] == p
                    && m[a].body.len() >= len),
        decreases snakes@.len() - j,
    {
        if j != i && live[j] {
            assert(snakes@[j as int].body@.len() > 0);
            if snakes[j].body[0] == p && snakes[j].body.len() >= len {
                assert(m[j as int].body[0] == m[i as int].body[0]);
                return true;
            }
        }
        j = j + 1;
    }
    false
}

/// Whether one of the snakes that `live` marks has its head on `p`.
fn eaten_exec(live: &Vec<bool>, snakes: &Vec<Snake>, p: Vec2D) -> (b: bool)
    requires
        live@.len() == snakes@.len(),
        forall|j: int| 0 <= j < snakes@.len() ==> (#[trigger] snakes@[j]).body@.len() > 0,
    ensures
        b == eaten(live@, snakes_view(snakes@), p),
{
    let ghost m = snakes_view(snakes@);
    let mut j: usize = 0;
    while j < snakes.len()
        invariant
            j <= snakes@.len(),
            live@.len() == snakes@.len(),
            m == snakes_view(snakes@),
            forall|a: int| 0 <= a < snakes@.len() ==> (#[trigger] snakes@[a]).body@.len() > 0,
            forall|a: int| 0 <= a < j && live@[a] ==> (#[trigger] m[a]).body[0] != p,
        decreases snakes@.len() - j,
    {
        if live[j] {
            assert(snakes@[j as int].body@.len() > 0);
            if snakes[j].body[0] == p {
                assert(m[j as int].body[0] == p);
                return true;
            }
        }
        j = j + 1;
    }
    false
}

/// The cells of `food` on which no snake that `live` marks has its head.
fn uneaten_exec(live: &Vec<bool>, snakes: &Vec<Snake>, food: &Vec<Vec2D>) -> (left: Vec<Vec2D>)
    requires
        live@.len() == snakes@.len(),
        forall|j: int| 0 <= j < snakes@.len() ==> (#[trigger] snakes@[j]).body@.len() > 0,
    ensures
        left@ == uneaten(live@, snakes_view(snakes@), food@),
{
    let ghost m = snakes_view(snakes@);
    let mut left: Vec<Vec2D> = Vec::new();
    let mut k: usize = 0;
    assert(food@.take(0) =~= Seq::<Vec2D>::empty());
    assert(uneaten(live@, m, food@.take(0)) =~= Seq::<Vec2D>::empty()) by {
        reveal_with_fuel(Seq::filter, 1);
    }
    while k < food.len()
        invariant
            k <= food@.len(),
            live@.len() == snakes@.len(),
            m == snakes_view(snakes@),
            forall|a: int| 0 <= a < snakes@.len() ==> (#[trigger] snakes@[a]).body@.len() > 0,
            left@ == uneaten(live@, m, food@.take(k as int)),
        decreases food@.len() - k,
    {
        let p = food[k];
        proof {
            reveal_with_fuel(Seq::filter, 2);
            assert(food@.take(k + 1).drop_last() =~= food@.take(k as int));
        }
        if !eaten_exec(live, snakes, p) {
            left.push(p);
        }
        k = k + 1;
    }
    assert(food@.take(food@.len() as int) =~= food@);
    left
}

impl Game {
    /// A game at turn 0 with the default hazard damage.
    pub fn new(
        width: usize,
        height: usize,
        snakes: Vec<Snake>,
        food: Vec<Vec2D>,
        hazards: Vec<Vec2D>,
    ) -> (g: Game)
        requires
            (GameState {
                width,
                height,
                snakes: snakes_view(snakes@),
                food: food@,
                hazards: hazards@,
                turn: 0,
                hazard_damage: DEFAULT_HAZARD_DAMAGE,
            }).wf(),
        ensures
            g@ == (GameState {
                width,
                height,
                snakes: snakes_view(snakes@),
                food: food@,
                hazards: hazards@,
                turn: 0,
                hazard_damage: DEFAULT_HAZARD_DAMAGE,
            }),
            g@.wf(),
    {
        Game { width, height, snakes, food, hazards, turn: 0, hazard_damage: DEFAULT_HAZARD_DAMAGE }
    }

    /// Whether the game is valid: the board is not too large, each snake stands at
    /// the position of its id, has a body and at most full health, and the live
    /// ones have their heads on the board.
    pub fn is_valid(&self) -> (b: bool)
        ensures
            b == self@.wf(),
    {
        if self.width > MAX_SIDE || self.height > MAX_SIDE || self.snakes.len() > MAX_SNAKES {
            return false;
        }
        let mut i: usize = 0;
        while i < self.snakes.len()
            invariant
                i <= self.snakes@.len(),
                self.width <= MAX_SIDE,
                self.height <= MAX_SIDE,
                self.snakes@.len() <= MAX_SNAKES,
                forall|j: int|
                    0 <= j < i ==> {
                        &&& (#[trigger] self@.snakes[j]).id == j
                        &&& self@.snakes[j].body.len() > 0
                        &&& self@.snakes[j].health <= FULL_HEALTH
                        &&& self@.snakes[j].alive() ==> self@.has(self@.snakes[j].head())
                    },
            decreases self.snakes@.len() - i,
        {
            let snake = &self.snakes[i];
            assert(self@.snakes[i as int] == snake@);
            if snake.id as usize != i || snake.body.len() == 0 || snake.health > FULL_HEALTH {
                return false;
            }
            if snake.alive() && !self.has(snake.head()) {
                return false;
            }
            i = i + 1;
        }
        true
    }

    /// Whether `p` lies on the board.
    pub fn has(&self, p: Vec2D) -> (b: bool)
        ensures
            b == self@.has(p),
    {
        0 <= p.x && (p.x as usize) < self.width && 0 <= p.y && (p.y as usize) < self.height
    }

    /// Whether the snake with this id is alive. An id that no snake has is not alive.
    pub fn snake_is_alive(&self, id: u8) -> (b: bool)
        ensures
            b == (id < self@.snakes.len() && self@.snakes[id as int].alive()),
    {
        (id as usize) < self.snakes.len() && self.snakes[id as usize].alive()
    }

    /// The number of live snakes.
    pub fn live_count(&self) -> (n: usize)
        ensures
            n == self@.live_count(),
    {
        let mut n: usize = 0;
        let mut i: usize = 0;
        while i < self.snakes.len()
            invariant
                i <= self.snakes@.len(),
                n <= i,
                n == live_among(self@.snakes, i as int),
            decreases self.snakes@.len() - i,
        {
            if self.snakes[i].alive() {
                n = n + 1;
            }
            i = i + 1;
        }
        n
    }
}

impl Game {
    /// Whether `p` is a body cell, other than the last, of snake `j`.
    fn blocks(&self, j: usize, p: Vec2D) -> (b: bool)
        requires
            j < self@.snakes.len(),
            self@.snakes[j as int].body.len() > 0,
        ensures
            b == self@.snakes[j as int].blocks(p),
    {
        let body = &self.snakes[j].body;
        let mut k: usize = 0;
        while k < body.len() - 1
            invariant
                body@.len() > 0,
                *body == self.snakes@[j as int].body,
                j < self.snakes@.len(),
                forall|c: int| 0 <= c < k && c < body@.len() - 1 ==> body@[c] != p,
            decreases body@.len() - k,
        {
            if body[k] == p {
                assert(self@.snakes[j as int].body[k as int] == p);
                return true;
            }
            k = k + 1;
        }
        false
    }

    /// Whether the cell `p` is off the board or a body cell, other than the last, of a
    /// live snake.
    pub fn lethal(&self, p: Vec2D) -> (b: bool)
        requires
            self@.wf(),
        ensures
            b == self@.lethal(p),
    {
        if !self.has(p) {
            return true;
        }
        let mut j: usize = 0;
        while j < self.snakes.len()
            invariant
                self@.wf(),
                j <= self.snakes@.len(),
                forall|a: int|
                    0 <= a < j ==> !((#[trigger] self@.snakes[a]).alive() && self@.snakes[a].blocks(
                        p,
                    )),
            decreases self.snakes@.len() - j,
        {
            assert(self@.snakes[j as int].body.len() > 0);
            if self.snakes[j].alive() && self.blocks(j, p) {
                assert(self@.snakes[j as int].alive() && self@.snakes[j as int].blocks(p));
                return true;
            }
            j = j + 1;
        }
        false
    }

    /// The moves that the snake `id` may safely consider, in the order of the
    /// directions: those that lead neither onto its neck, nor off the board, nor onto
    /// a body cell of a live snake other than a last cell. A dead snake has none.
    pub fn valid_moves(&self, id: u8) -> (ms: Vec<Direction>)
        requires
            self@.wf(),
            id < self@.snakes.len(),
        ensures
            ms@ == self@.valid_moves(id as int),
            forall|k: int| 0 <= k < ms@.len() ==> self@.open_move(id as int, #[trigger] ms@[k]),
    {
        let i = id as usize;
        let dirs = Direction::all();
        let ghost every = Direction::every();
        let ghost pred = |d: Direction| self@.open_move(id as int, d);
        let mut ms: Vec<Direction> = Vec::new();
        let mut k: usize = 0;
        assert(every.take(0) =~= Seq::<Direction>::empty());
        assert(every.take(0).filter(pred) =~= Seq::<Direction>::empty()) by {
            reveal_with_fuel(Seq::filter, 1);
        }
        assert(self@.snakes[i as int].body.len() > 0);
        while k < 4
            invariant
                self@.wf(),
                i == id,
                i < self@.snakes.len(),
                k <= 4,
                dirs@ == every,
                every == Direction::every(),
                pred == |d: Direction| self@.open_move(id as int, d),
                ms@ == every.take(k as int).filter(pred),
                forall|c: int| 0 <= c < ms@.len() ==> self@.open_move(id as int, #[trigger] ms@[c]),
            decreases 4 - k,
        {
            let d = dirs[k];
            proof {
                reveal_with_fuel(Seq::filter, 2);
                assert(every.take(k + 1).drop_last() =~= every.take(k as int));
                assert(every.take(k + 1).last() == d);
            }
            assert(self@.snakes[i as int].body.len() > 0);
            if self.snakes[i].alive() {
                let head = self.snakes[i].head();
                assert(self@.has(head));
                let target = head.apply(d);
                let into_neck = self.snakes[i].body.len() >= 2 && target == self.snakes[i].body[1];
                if !into_neck && !self.lethal(target) {
                    let ghost before = ms@;
                    ms.push(d);
                    assert forall|c: int| 0 <= c < ms@.len() implies self@.open_move(
                        id as int,
                        #[trigger] ms@[c],
                    ) by {
                        if c < before.len() {
                            assert(ms@[c] == before[c]);
                        }
                    }
                }
            }
            k = k + 1;
        }
        assert(every.take(4) =~= every);
        ms
    }

    /// How the game stands: drawn when no snake is alive, won by the one snake that
    /// is alive when there is exactly one, else in progress.
    pub fn outcome(&self) -> (o: Outcome)
        requires
            self@.wf(),
        ensures
            o == self@.outcome(),
            o is Match <==> self@.live_count() == 0,
            o is InProgress <==> self@.live_count() >= 2,
            o matches Outcome::Winner(id) ==> self@.live_count() == 1 && id < self@.snakes.len()
                && self@.snakes[id as int].alive(),
    {
        let mut count: usize = 0;
        let mut last: u8 = 0;
        let mut i: usize = 0;
        while i < self.snakes.len()
            invariant
                self@.wf(),
                i <= self.snakes@.len(),
                count <= i,
                count == live_among(self@.snakes, i as int),
                count > 0 ==> last < i && self@.snakes[last as int].alive(),
            decreases self.snakes@.len() - i,
        {
            if self.snakes[i].alive() {
                count = count + 1;
                last = i as u8;
            }
            i = i + 1;
        }
        if count == 0 {
            Outcome::Match
        } else if count == 1 {
            proof {
                let n = self@.snakes.len() as int;
                let picked = choose|id: u8|
                    id < self@.snakes.len() && (#[trigger] self@.snakes[id as int]).alive();
                assert(self@.snakes[last as int].alive());
                lemma_single_live(self@.snakes, n, picked as int, last as int);
            }
            Outcome::Winner(last)
        } else {
            Outcome::InProgress
        }
    }

    /// Advances the game by one tick. The live snakes take the entries of `moves` in
    /// the order of their ids, and all of them move at once.
    ///
    /// A snake that would move onto its neck moves straight on instead. Each gets its
    /// new head. On food its health is full and it grows by one cell, else it loses 1
    /// health, and the hazard damage too where the head is on a hazard, and its last
    /// cell. Then a snake dies whose head is off the board, whose health is used up,
    /// whose head lies on a body cell behind a head, or who meets head on a snake that
    /// is not shorter. Food under a head is gone, and the turn is counted.
    pub fn step(&mut self, moves: &[Direction])
        requires
            old(self)@.wf(),
            moves@.len() == old(self)@.live_count(),
            old(self).turn < usize::MAX,
        ensures
            final(self)@ == old(self)@.step(moves@),
            final(self)@.wf(),
    {
        let ghost pre = self@;
        let n = self.snakes.len();
        let mut live: Vec<bool> = Vec::new();
        let mut cursor: usize = 0;
        let mut i: usize = 0;
        assert(live@ =~= live_flags(pre.snakes).take(0));
        while i < n
            invariant
                pre.wf(),
                moves@.len() == pre.live_count(),
                n == pre.snakes.len(),
                self.snakes@.len() == n,
                i <= n,
                cursor == live_among(pre.snakes, i as int),
                live@ == live_flags(pre.snakes).take(i as int),
                forall|j: int| 0 <= j < i ==> (#[trigger] self.snakes@[j])@ == pre.moved(moves@, j),
                forall|j: int| i <= j < n ==> (#[trigger] self.snakes@[j])@ == pre.snakes[j],
                self.food@ == pre.food,
                self.hazards@ == pre.hazards,
                self.width == pre.width,
                self.height == pre.height,
                self.turn == pre.turn,
                self.hazard_damage == pre.hazard_damage,
            decreases n - i,
        {
            let ghost snakes0 = self.snakes@;
            assert(self.snakes@[i as int]@ == pre.snakes[i as int]);
            let alive = self.snakes[i].alive();
            live.push(alive);
            assert(live@ =~= live_flags(pre.snakes).take(i + 1));
            if alive {
                proof {
                    lemma_live_among_monotone(pre.snakes, i + 1, n as int);
                }
                let intent = moves[cursor];
                let head = self.snakes[i].head();
                assert(pre.has(head));
                let into_neck = self.snakes[i].body.len() >= 2 && head.apply(intent)
                    == self.snakes[i].body[1];
                let d = if into_neck {
                    intent.invert()
                } else {
                    intent
                };
                let h = head.apply(d);
                assert(h == pre.next_head(moves@, i as int));
                let eats = contains_cell(&self.food, h);
                if eats {
                    self.snakes[i].health = FULL_HEALTH;
                    self.snakes[i].body.insert(0, h);
                } else {
                    let toll: u16 = if contains_cell(&self.hazards, h) {
                        1 + self.hazard_damage as u16
                    } else {
                        1
                    };
                    let health = self.snakes[i].health;
                    self.snakes[i].health = if health as u16 > toll {
                        (health as u16 - toll) as u8
                    } else {
                        0
                    };
                    self.snakes[i].body.insert(0, h);
                    self.snakes[i].body.pop();
                }
                proof {
                    assert(self.snakes@[i as int]@.body =~= pre.moved(moves@, i as int).body);
                    assert(self.snakes@[i as int]@ == pre.moved(moves@, i as int));
                    assert forall|j: int| 0 <= j < n && j != i implies self.snakes@[j]
                        == snakes0[j] by {}
                }
                cursor = cursor + 1;
            }
            i = i + 1;
        }
        let ghost m = pre.moved_all(moves@);
        assert(snakes_view(self.snakes@) =~= m);
        assert(live@ =~= live_flags(pre.snakes));
        assert forall|j: int| 0 <= j < n implies (#[trigger] self.snakes@[j]).body@.len() > 0 by {
            assert(self.snakes@[j]@ == pre.moved(moves@, j));
        }
        let mut dead: Vec<bool> = Vec::new();
        let mut i: usize = 0;
        while i < n
            invariant
                i <= n,
                n == self.snakes@.len(),
                n == pre.snakes.len(),
                self.width == pre.width,
                self.height == pre.height,
                snakes_view(self.snakes@) == m,
                m == pre.moved_all(moves@),
                live@ == live_flags(pre.snakes),
                forall|j: int| 0 <= j < n ==> (#[trigger] self.snakes@[j]).body@.len() > 0,
                dead@.len() == i,
                forall|j: int|
                    0 <= j < i ==> #[trigger] dead@[j] == (pre.snakes[j].alive() && pre.dies(
                        moves@,
                        j,
                    )),
            decreases n - i,
        {
            assert(self.snakes@[i as int].body@.len() > 0);
            assert(self.snakes@[i as int]@ == m[i as int]);
            let d = live[i] && (!self.has(self.snakes[i].head()) || self.snakes[i].health == 0
                || hits_body_exec(&live, &self.snakes, i) || loses_head_exec(
                &live,
                &self.snakes,
                i,
            ));
            dead.push(d);
            i = i + 1;
        }
        let food = uneaten_exec(&live, &self.snakes, &self.food);
        let mut i: usize = 0;
        while i < n
            invariant
                i <= n,
                n == self.snakes@.len(),
                n == pre.snakes.len(),
                m == pre.moved_all(moves@),
                dead@.len() == n,
                forall|j: int|
                    0 <= j < n ==> #[trigger] dead@[j] == (pre.snakes[j].alive() && pre.dies(
                        moves@,
                        j,
                    )),
                forall|j: int| 0 <= j < i ==> (#[trigger] self.snakes@[j])@ == pre.settled(moves@, j),
                forall|j: int| i <= j < n ==> (#[trigger] self.snakes@[j])@ == m[j],
                self.food@ == pre.food,
                self.hazards@ == pre.hazards,
                self.width == pre.width,
                self.height == pre.height,
                self.turn == pre.turn,
                self.hazard_damage == pre.hazard_damage,
            decreases n - i,
        {
            let ghost snakes0 = self.snakes@;
            assert(self.snakes@[i as int]@ == m[i as int]);
            if dead[i] {
                self.snakes[i].health = 0;
                assert forall|j: int| 0 <= j < n && j != i implies self.snakes@[j] == snakes0[j] by {}
            }
            assert(self.snakes@[i as int]@ == pre.settled(moves@, i as int));
            i = i + 1;
        }
        self.food = food;
        self.turn = self.turn + 1;
        proof {
            assert(self@.snakes =~= pre.step(moves@).snakes);
            assert(self@ == pre.step(moves@));
            lemma_step_wf(pre, moves@);
        }
    }
}

} // verus!
