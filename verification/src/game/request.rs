//! From a turn request to a game.

use crate::env::{GameRequest, SnakeData, Vec2D};
use crate::game::simulator::{clone_cells, snakes_view, Game, Snake, DEFAULT_HAZARD_DAMAGE};
use crate::game::state::{GameState, SnakeState, FULL_HEALTH, MAX_SIDE, MAX_SNAKES};
use vstd::prelude::*;

verus! {

/// Why a turn request describes no game.
#[derive(Clone, Copy, Debug, PartialEq, Eq, Structural)]
pub enum ParseError {
    /// The board is too large, there are too many snakes, a snake has more than
    /// full health, or a live snake has its head off the board.
    OutOfRange,
    /// A snake has no body.
    EmptyBody,
    /// Two snakes have the same id.
    DuplicateSnake,
    /// The snake to move is not among the snakes of the board.
    MissingYou,
}

/// Whether a snake of the board has no body.
pub open spec fn has_empty_body(snakes: Seq<SnakeData>) -> bool {
    exists|i: int| 0 <= i < snakes.len() && (#[trigger] snakes[i]).body@.len() == 0
}

/// Whether two snakes of the board have the same id.
pub open spec fn has_duplicate(snakes: Seq<SnakeData>) -> bool {
    exists|i: int, j: int|
        0 <= i < j < snakes.len() && (#[trigger] snakes[i]).id@ == (#[trigger] snakes[j]).id@
}

/// Whether snake `i` of the board has the id `id`.
pub open spec fn is_named(snakes: Seq<SnakeData>, id: Seq<char>, i: int) -> bool {
    0 <= i < snakes.len() && snakes[i].id@ == id
}

/// Whether a snake has more than full health or is alive with its head off the board.
pub open spec fn has_misfit(request: GameRequest) -> bool {
    exists|i: int|
        0 <= i < request.board.snakes@.len() && misfit(request, #[trigger] request.board.snakes@[i])
}

/// Whether `snake` has more than full health or is alive with its head off the board.
pub open spec fn misfit(request: GameRequest, snake: SnakeData) -> bool {
    snake.health > FULL_HEALTH || (snake.health > 0 && !(0 <= snake.body@[0].x
        < request.board.width && 0 <= snake.body@[0].y < request.board.height))
}

/// What is wrong with the request, if anything; of several faults the first in the
/// order of these tests.
pub open spec fn request_error(request: GameRequest) -> Option<ParseError> {
    let snakes = request.board.snakes@;
    if request.board.width > MAX_SIDE || request.board.height > MAX_SIDE || snakes.len()
        > MAX_SNAKES {
        Some(ParseError::OutOfRange)
    } else if has_empty_body(snakes) {
        Some(ParseError::EmptyBody)
    } else if has_duplicate(snakes) {
        Some(ParseError::DuplicateSnake)
    } else if !exists|i: int| is_named(snakes, request.you.id@, i) {
        Some(ParseError::MissingYou)
    } else if has_misfit(request) {
        Some(ParseError::OutOfRange)
    } else {
        None
    }
}

/// The snake of the board that becomes snake `k` of the game, when the snake to
/// move is snake `you` of the board: that one first, then the others in their order.
pub open spec fn source(you: int, k: int) -> int {
    if k == 0 {
        you
    } else if k <= you {
        k - 1
    } else {
        k
    }
}

/// The game that the request describes: the snake to move is snake 0, the others
/// follow in the order of the board, and each has its position as its id.
pub open spec fn parsed(request: GameRequest) -> GameState {
    let snakes = request.board.snakes@;
    let you = choose|i: int| is_named(snakes, request.you.id@, i);
    GameState {
        width: request.board.width,
        height: request.board.height,
        snakes: Seq::new(
            snakes.len(),
            |k: int|
                SnakeState {
                    id: k as u8,
                    health: snakes[source(you, k)].health,
                    body: snakes[source(you, k)].body@,
                },
        ),
        food: request.board.food@,
        hazards: request.board.hazards@,
        turn: request.turn,
        hazard_damage: DEFAULT_HAZARD_DAMAGE,
    }
}

impl Game {
    /// The game that a turn request describes, with the snake to move as snake 0,
    /// or what is wrong with the request.
    pub fn from_request(request: &GameRequest) -> (r: Result<Game, ParseError>)
        ensures
            match r {
                Ok(game) => request_error(*request) is None && game@ == parsed(*request)
                    && game@.wf(),
                Err(e) => request_error(*request) == Some(e),
            },
    {
        let entries = &request.board.snakes;
        let ghost snakes = request.board.snakes@;
        let n = entries.len();
        if request.board.width > MAX_SIDE || request.board.height > MAX_SIDE || n > MAX_SNAKES {
            return Err(ParseError::OutOfRange);
        }
        let mut i: usize = 0;
        while i < n
            invariant
                i <= n,
                n == snakes.len(),
                n <= MAX_SNAKES,
                request.board.width <= MAX_SIDE,
                request.board.height <= MAX_SIDE,
                *entries == request.board.snakes,
                snakes == request.board.snakes@,
                forall|j: int| 0 <= j < i ==> (#[trigger] snakes[j]).body@.len() > 0,
            decreases n - i,
        {
            if entries[i].body.len() == 0 {
                assert(snakes[i as int].body@.len() == 0);
                return Err(ParseError::EmptyBody);
            }
            i = i + 1;
        }
        let mut i: usize = 0;
        while i < n
            invariant
                i <= n,
                n == snakes.len(),
                n <= MAX_SNAKES,
                request.board.width <= MAX_SIDE,
                request.board.height <= MAX_SIDE,
                *entries == request.board.snakes,
                snakes == request.board.snakes@,
                !has_empty_body(snakes),
                forall|a: int, b: int|
                    0 <= a < b < n && a < i ==> (#[trigger] snakes[a]).id@ != (
                    #[trigger] snakes[b]).id@,
            decreases n - i,
        {
            let mut j: usize = i + 1;
            while j < n
                invariant
                    i < j <= n,
                    n == snakes.len(),
                    n <= MAX_SNAKES,
                    request.board.width <= MAX_SIDE,
                    request.board.height <= MAX_SIDE,
                    *entries == request.board.snakes,
                    snakes == request.board.snakes@,
                    !has_empty_body(snakes),
                    forall|a: int, b: int|
                        0 <= a < b < n && a < i ==> (#[trigger] snakes[a]).id@ != (
                        #[trigger] snakes[b]).id@,
                    forall|b: int| i < b < j ==> snakes[i as int].id@ != (#[trigger] snakes[b]).id@,
                decreases n - j,
            {
                if entries[i].id == entries[j].id {
                    assert(snakes[i as int].id@ == snakes[j as int].id@);
                    return Err(ParseError::DuplicateSnake);
                }
                j = j + 1;
            }
            i = i + 1;
        }
        assert(!has_duplicate(snakes));
        let mut you: usize = 0;
        let mut found = false;
        while you < n && !found
            invariant
                you <= n,
                n == snakes.len(),
                *entries == request.board.snakes,
                snakes == request.board.snakes@,
                found ==> you < n && is_named(snakes, request.you.id@, you as int),
                !found ==> forall|j: int| 0 <= j < you ==> !is_named(snakes, request.you.id@, j),
            decreases n - you + if found { 0int } else { 1int },
        {
            if entries[you].id == request.you.id {
                found = true;
            } else {
                you = you + 1;
            }
        }
        if !found {
            return Err(ParseError::MissingYou);
        }
        let ghost picked = choose|i: int| is_named(snakes, request.you.id@, i);
        assert(picked == you) by {
            assert(is_named(snakes, request.you.id@, you as int));
            if picked < you {
                assert(snakes[picked].id@ == snakes[you as int].id@);
            } else if picked > you {
                assert(snakes[you as int].id@ == snakes[picked].id@);
            }
        }
        let mut i: usize = 0;
        while i < n
            invariant
                i <= n,
                you < n,
                n == snakes.len(),
                n <= MAX_SNAKES,
                request.board.width <= MAX_SIDE,
                request.board.height <= MAX_SIDE,
                *entries == request.board.snakes,
                snakes == request.board.snakes@,
                !has_empty_body(snakes),
                !has_duplicate(snakes),
                is_named(snakes, request.you.id@, you as int),
                forall|j: int| 0 <= j < i ==> !misfit(*request, #[trigger] snakes[j]),
            decreases n - i,
        {
            let entry = &entries[i];
            assert(snakes[i as int].body@.len() > 0);
            let head = entry.body[0];
            let on_board = 0 <= head.x && (head.x as usize) < request.board.width && 0 <= head.y
                && (head.y as usize) < request.board.height;
            if entry.health > FULL_HEALTH || (entry.health > 0 && !on_board) {
                assert(misfit(*request, snakes[i as int]));
                return Err(ParseError::OutOfRange);
            }
            i = i + 1;
        }
        assert(!has_misfit(*request));
        let mut list: Vec<Snake> = Vec::with_capacity(n);
        let mut k: usize = 0;
        while k < n
            invariant
                k <= n,
                you < n,
                n == snakes.len(),
                n <= MAX_SNAKES,
                *entries == request.board.snakes,
                snakes == request.board.snakes@,
                list@.len() == k,
                forall|m: int|
                    0 <= m < k ==> (#[trigger] list@[m])@ == (SnakeState {
                        id: m as u8,
                        health: snakes[source(you as int, m)].health,
                        body: snakes[source(you as int, m)].body@,
                    }),
            decreases n - k,
        {
            let from = if k == 0 {
                you
            } else if k <= you {
                k - 1
            } else {
                k
            };
            let entry = &entries[from];
            list.push(Snake::new(k as u8, clone_cells(&entry.body), entry.health));
            k = k + 1;
        }
        let game = Game {
            width: request.board.width,
            height: request.board.height,
            snakes: list,
            food: clone_cells(&request.board.food),
            hazards: clone_cells(&request.board.hazards),
            turn: request.turn,
            hazard_damage: DEFAULT_HAZARD_DAMAGE,
        };
        proof {
            let want = parsed(*request);
            assert(game@.snakes =~= want.snakes);
            assert(game@ == want);
            assert forall|m: int| 0 <= m < game@.snakes.len() implies {
                &&& (#[trigger] game@.snakes[m]).id == m
                &&& game@.snakes[m].body.len() > 0
                &&& game@.snakes[m].health <= FULL_HEALTH
                &&& game@.snakes[m].alive() ==> game@.has(game@.snakes[m].head())
            } by {
                let from = source(you as int, m);
                assert(snakes[from].body@.len() > 0);
                assert(!misfit(*request, snakes[from]));
            }
        }
        Ok(game)
    }
}

} // verus!
