//! Coordinates and directions on the board.

use vstd::prelude::*;

verus! {

/// One of the four moves a snake can make. `Up` increases `y`, `Right` increases `x`.
#[derive(Clone, Copy, Debug, PartialEq, Eq, Hash, Structural)]
pub enum Direction {
    Up,
    Down,
    Left,
    Right,
}

impl Direction {
    /// The number of this direction: `Up` 0, `Down` 1, `Left` 2, `Right` 3.
    pub open spec fn code(self) -> int {
        match self {
            Direction::Up => 0,
            Direction::Down => 1,
            Direction::Left => 2,
            Direction::Right => 3,
        }
    }

    /// The direction with the given number; numbers of 4 and above have none.
    pub open spec fn of_code(i: int) -> Option<Direction> {
        if i == 0 {
            Some(Direction::Up)
        } else if i == 1 {
            Some(Direction::Down)
        } else if i == 2 {
            Some(Direction::Left)
        } else if i == 3 {
            Some(Direction::Right)
        } else {
            None
        }
    }

    /// Change of `x` when moving one cell in this direction.
    pub open spec fn dx(self) -> int {
        match self {
            Direction::Up => 0,
            Direction::Down => 0,
            Direction::Left => -1,
            Direction::Right => 1,
        }
    }

    /// Change of `y` when moving one cell in this direction.
    pub open spec fn dy(self) -> int {
        match self {
            Direction::Up => 1,
            Direction::Down => -1,
            Direction::Left => 0,
            Direction::Right => 0,
        }
    }

    /// The opposite direction.
    pub open spec fn inverse(self) -> Direction {
        match self {
            Direction::Up => Direction::Down,
            Direction::Down => Direction::Up,
            Direction::Left => Direction::Right,
            Direction::Right => Direction::Left,
        }
    }

    /// The four directions in the order of their numbers.
    pub open spec fn every() -> Seq<Direction> {
        seq![Direction::Up, Direction::Down, Direction::Left, Direction::Right]
    }

    /// The position of this direction in fixed arrays of four.
    pub fn index(self) -> (i: usize)
        ensures
            i == self.code(),
            i < 4,
    {
        match self {
            Direction::Up => 0,
            Direction::Down => 1,
            Direction::Left => 2,
            Direction::Right => 3,
        }
    }

    /// The direction at position `i` of a fixed array of four, if `i < 4`.
    pub fn from_index(i: usize) -> (d: Option<Direction>)
        ensures
            d == Direction::of_code(i as int),
            i < 4 <==> d is Some,
            d matches Some(dir) ==> dir.code() == i,
    {
        if i == 0 {
            Some(Direction::Up)
        } else if i == 1 {
            Some(Direction::Down)
        } else if i == 2 {
            Some(Direction::Left)
        } else if i == 3 {
            Some(Direction::Right)
        } else {
            None
        }
    }

    /// The opposite direction: `Up` and `Down` swap, `Left` and `Right` swap.
    pub fn invert(self) -> (d: Direction)
        ensures
            d == self.inverse(),
    {
        match self {
            Direction::Up => Direction::Down,
            Direction::Down => Direction::Up,
            Direction::Left => Direction::Right,
            Direction::Right => Direction::Left,
        }
    }

    /// All four directions, each at the position of its number.
    pub fn all() -> (ds: [Direction; 4])
        ensures
            ds@ == Direction::every(),
    {
        let ds = [Direction::Up, Direction::Down, Direction::Left, Direction::Right];
        assert(ds@ =~= Direction::every());
        ds
    }
}

/// A signed coordinate on (or off) the board.
#[derive(Clone, Copy, Debug, PartialEq, Eq, Hash, Structural)]
pub struct Vec2D {
    pub x: i16,
    pub y: i16,
}

impl Vec2D {
    /// The neighbour of `self` in direction `d`.
    pub open spec fn neighbour(self, d: Direction) -> Vec2D {
        Vec2D { x: (self.x + d.dx()) as i16, y: (self.y + d.dy()) as i16 }
    }

    /// Whether the neighbour in every direction is still representable.
    pub open spec fn can_step(self) -> bool {
        i16::MIN < self.x < i16::MAX && i16::MIN < self.y < i16::MAX
    }

    /// `|x| + |y|`.
    pub open spec fn manhattan_len(self) -> int {
        (if self.x < 0 { -self.x } else { self.x as int })
            + (if self.y < 0 { -self.y } else { self.y as int })
    }

    /// Whether `self` and `other` are direct neighbours on the grid.
    pub open spec fn adjacent(self, other: Vec2D) -> bool {
        exists|d: Direction| self.can_step() && #[trigger] self.neighbour(d) == other
    }

    pub fn new(x: i16, y: i16) -> (p: Vec2D)
        ensures
            p.x == x,
            p.y == y,
    {
        Vec2D { x, y }
    }

    /// The neighbouring coordinate in direction `d`.
    pub fn apply(self, d: Direction) -> (p: Vec2D)
        requires
            self.can_step(),
        ensures
            p == self.neighbour(d),
            p.x == self.x + d.dx(),
            p.y == self.y + d.dy(),
    {
        match d {
            Direction::Up => Vec2D { x: self.x, y: self.y + 1 },
            Direction::Down => Vec2D { x: self.x, y: self.y - 1 },
            Direction::Left => Vec2D { x: self.x - 1, y: self.y },
            Direction::Right => Vec2D { x: self.x + 1, y: self.y },
        }
    }

    /// Componentwise sum.
    pub fn plus(self, other: Vec2D) -> (p: Vec2D)
        requires
            i16::MIN <= self.x + other.x <= i16::MAX,
            i16::MIN <= self.y + other.y <= i16::MAX,
        ensures
            p.x == self.x + other.x,
            p.y == self.y + other.y,
    {
        Vec2D { x: self.x + other.x, y: self.y + other.y }
    }

    /// Componentwise difference.
    pub fn minus(self, other: Vec2D) -> (p: Vec2D)
        requires
            i16::MIN <= self.x - other.x <= i16::MAX,
            i16::MIN <= self.y - other.y <= i16::MAX,
        ensures
            p.x == self.x - other.x,
            p.y == self.y - other.y,
    {
        Vec2D { x: self.x - other.x, y: self.y - other.y }
    }

    /// Manhattan length `|x| + |y|` of this vector.
    pub fn manhattan(self) -> (n: u32)
        ensures
            n == self.manhattan_len(),
    {
        let ax: u32 = if self.x < 0 {
            (-(self.x as i32)) as u32
        } else {
            self.x as u32
        };
        let ay: u32 = if self.y < 0 {
            (-(self.y as i32)) as u32
        } else {
            self.y as u32
        };
        ax + ay
    }
}

/// A snake as a turn request describes it.
pub struct SnakeData {
    pub id: String,
    pub name: String,
    pub health: u8,
    pub body: Vec<Vec2D>,
    pub shout: String,
}

/// The rules that a game is played by.
pub struct Ruleset {
    pub name: String,
}

/// What a turn request says of the game as a whole.
pub struct GameData {
    pub id: String,
    pub ruleset: Ruleset,
    /// The time to answer in, in milliseconds.
    pub timeout: u64,
}

/// The board of a turn request.
pub struct Board {
    pub height: usize,
    pub width: usize,
    pub food: Vec<Vec2D>,
    pub hazards: Vec<Vec2D>,
    pub snakes: Vec<SnakeData>,
}

/// A turn request: the game, the turn, the board and the snake to move.
pub struct GameRequest {
    pub game: GameData,
    pub turn: usize,
    pub board: Board,
    pub you: SnakeData,
}

/// The answer to a turn request.
pub struct MoveResponse {
    pub direction: Direction,
    pub shout: String,
}

impl MoveResponse {
    /// An answer with this move and nothing to shout.
    pub fn new(direction: Direction) -> (r: MoveResponse)
        ensures
            r.direction == direction,
            r.shout@.len() == 0,
    {
        MoveResponse { direction, shout: String::new() }
    }
}

} // verus!
