//! Search over the moves of all snakes at once, to a fixed depth.

use crate::env::Direction;
use crate::game::simulator::Game;
use crate::game::state::{live_among, GameState, Outcome};
use vstd::prelude::*;

verus! {

/// A score that the search can compare, with a least and a greatest score to stand
/// for a move that is lost before it is made and for one that cannot be bettered.
pub trait Comparable: Sized + Copy {
    /// Whether `self` is a worse score than `other`.
    spec fn below(self, other: Self) -> bool;

    /// The score of a move that is not to be made.
    spec fn least() -> Self;

    /// The score that nothing betters.
    spec fn greatest() -> Self;

    fn less(&self, other: &Self) -> (b: bool)
        ensures
            b == self.below(*other),
    ;

    fn min() -> (m: Self)
        ensures
            m == Self::least(),
    ;

    fn max() -> (m: Self)
        ensures
            m == Self::greatest(),
    ;
}

impl Comparable for i64 {
    open spec fn below(self, other: i64) -> bool {
        self < other
    }

    open spec fn least() -> i64 {
        i64::MIN
    }

    open spec fn greatest() -> i64 {
        i64::MAX
    }

    fn less(&self, other: &i64) -> (b: bool) {
        *self < *other
    }

    fn min() -> (m: i64) {
        i64::MIN
    }

    fn max() -> (m: i64) {
        i64::MAX
    }
}

/// What scores a game for snake 0 at the leaves of the search. The score depends on
/// the game alone.
pub trait Evaluator<T> {
    /// The score of the game `g`.
    spec fn value(&self, g: GameState) -> T;

    fn evaluate(&self, game: &Game) -> (t: T)
        requires
            game@.wf(),
            game@.snakes.len() > 0,
        ensures
            t == self.value(game@),
    ;
}

/// The moves that the search tries for snake `i`: its valid moves, or `Up` alone
/// where it has none and any move is its death.
pub open spec fn options(g: GameState, i: int) -> Seq<Direction> {
    if g.valid_moves(i).len() == 0 {
        seq![Direction::Up]
    } else {
        g.valid_moves(i)
    }
}

/// The score of the game after the tick with `moves`: that of the leaf where the
/// depth is used up, the game is decided or snake 0 is dead, else the best that
/// snake 0 can get from there.
pub open spec fn after<T: Comparable>(
    g: GameState,
    depth: nat,
    h: spec_fn(GameState) -> T,
    moves: Seq<Direction>,
) -> T
    decreases depth, 0int, 0int, 0int,
{
    let child = g.step(moves);
    if depth == 0 || child.outcome() != Outcome::InProgress || !child.snakes[0].alive() {
        h(child)
    } else {
        best(child, (depth - 1) as nat, h)
    }
}

/// The worst for snake 0 that the snakes from `i` on can bring about, when the live
/// snakes before `i` move as `moves` says.
pub open spec fn worst<T: Comparable>(
    g: GameState,
    depth: nat,
    h: spec_fn(GameState) -> T,
    moves: Seq<Direction>,
    i: int,
) -> T
    decreases depth, 0int, (if 0 <= i < g.snakes.len() {
            2 * (g.snakes.len() - i) + 1
        } else {
            1
        }), 0int,
{
    if i >= g.snakes.len() || i < 0 {
        after(g, depth, h, moves)
    } else if !g.snakes[i].alive() {
        worst(g, depth, h, moves, i + 1)
    } else {
        least_of(g, depth, h, moves, i, options(g, i).len() as int)
    }
}

/// The worst for snake 0 over the first `k` options of snake `i`; of two that are
/// equally bad the earlier counts.
pub open spec fn least_of<T: Comparable>(
    g: GameState,
    depth: nat,
    h: spec_fn(GameState) -> T,
    moves: Seq<Direction>,
    i: int,
    k: int,
) -> T
    decreases depth, 0int, 2 * (g.snakes.len() - i), k,
{
    if i >= g.snakes.len() || i < 0 {
        h(g)
    } else if k <= 1 {
        worst(g, depth, h, moves.push(options(g, i)[0]), i + 1)
    } else {
        let rest = least_of(g, depth, h, moves, i, k - 1);
        let v = worst(g, depth, h, moves.push(options(g, i)[k - 1]), i + 1);
        if v.below(rest) {
            v
        } else {
            rest
        }
    }
}

/// The best for snake 0 over its first `k` options; of two that are equally good
/// the earlier counts.
pub open spec fn greatest_of<T: Comparable>(
    g: GameState,
    depth: nat,
    h: spec_fn(GameState) -> T,
    k: int,
) -> T
    decreases depth, 1int, k, 0int,
{
    if k <= 1 {
        worst(g, depth, h, seq![options(g, 0)[0]], 1)
    } else {
        let rest = greatest_of(g, depth, h, k - 1);
        let v = worst(g, depth, h, seq![options(g, 0)[k - 1]], 1);
        if rest.below(v) {
            v
        } else {
            rest
        }
    }
}

/// The best that snake 0 can get in `depth` more ticks after the next, when all
/// others do their worst to it.
pub open spec fn best<T: Comparable>(g: GameState, depth: nat, h: spec_fn(GameState) -> T) -> T
    decreases depth, 2int, 0int, 0int,
{
    greatest_of(g, depth, h, options(g, 0).len() as int)
}

/// For each direction the score of snake 0 moving there: the worst that the others
/// can bring about, or the least score where the move is not valid.
pub open spec fn max_n_spec<T: Comparable>(
    g: GameState,
    depth: nat,
    h: spec_fn(GameState) -> T,
) -> Seq<T> {
    Seq::new(
        4,
        |c: int|
            if g.valid_moves(0).contains(Direction::every()[c]) {
                worst(g, depth, h, seq![Direction::every()[c]], 1)
            } else {
                T::least()
            },
    )
}

/// The score of a game as `evaluator` gives it.
pub open spec fn scorer<T, E: Evaluator<T>>(evaluator: &E) -> spec_fn(GameState) -> T {
    |g: GameState| evaluator.value(g)
}

/// The moves that the search tries for the snake `id`.
fn options_of(game: &Game, id: u8) -> (opts: Vec<Direction>)
    requires
        game@.wf(),
        id < game@.snakes.len(),
    ensures
        opts@ == options(game@, id as int),
        opts@.len() >= 1,
{
    let mut opts = game.valid_moves(id);
    if opts.len() == 0 {
        opts.push(Direction::Up);
        assert(opts@ =~= seq![Direction::Up]);
    }
    opts
}

/// The worst for snake 0 that the snakes from `i` on can bring about.
fn worst_exec<T: Comparable, E: Evaluator<T>>(
    game: &Game,
    depth: usize,
    evaluator: &E,
    moves: &mut Vec<Direction>,
    i: usize,
) -> (r: T)
    requires
        game@.wf(),
        game@.snakes.len() > 0,
        game.turn + depth < usize::MAX,
        i <= game@.snakes.len(),
        old(moves)@.len() == live_among(game@.snakes, i as int),
    ensures
        r == worst(game@, depth as nat, scorer(evaluator), old(moves)@, i as int),
        final(moves)@ == old(moves)@,
    decreases depth, 0int, 2 * (game@.snakes.len() - i) + 1,
{
    let ghost g = game@;
    let ghost h = scorer(evaluator);
    let ghost moves0 = moves@;
    let n = game.snakes.len();
    proof {
        reveal_with_fuel(worst, 2);
        reveal_with_fuel(least_of, 2);
    }
    if i >= n {
        let mut child = game.clone();
        child.step(moves.as_slice());
        assert(child@ == g.step(moves0));
        assert(child@.snakes.len() == g.snakes.len());
        assert(child@.snakes[0] == child.snakes@[0]@);
        let decided = child.outcome() != Outcome::InProgress;
        if depth == 0 || decided || !child.snakes[0].alive() {
            evaluator.evaluate(&child)
        } else {
            best_exec(&child, depth - 1, evaluator)
        }
    } else {
        assert(g.snakes[i as int] == game.snakes@[i as int]@);
        if !game.snakes[i].alive() {
            worst_exec(game, depth, evaluator, moves, i + 1)
        } else {
            let opts = options_of(game, i as u8);
            moves.push(opts[0]);
            let mut acc = worst_exec(game, depth, evaluator, moves, i + 1);
            moves.pop();
            assert(moves@ =~= moves0);
            let mut k: usize = 1;
            while k < opts.len()
                invariant
                    g == game@,
                    g.wf(),
                    g.snakes.len() > 0,
                    h == scorer(evaluator),
                    game.turn + depth < usize::MAX,
                    i < g.snakes.len(),
                    g.snakes[i as int].alive(),
                    moves0.len() == live_among(g.snakes, i as int),
                    opts@ == options(g, i as int),
                    1 <= k <= opts@.len(),
                    moves@ == moves0,
                    acc == least_of(g, depth as nat, h, moves0, i as int, k as int),
                decreases opts@.len() - k,
            {
                proof {
                    reveal_with_fuel(least_of, 2);
                }
                moves.push(opts[k]);
                let v = worst_exec(game, depth, evaluator, moves, i + 1);
                moves.pop();
                assert(moves@ =~= moves0);
                if v.less(&acc) {
                    acc = v;
                }
                k = k + 1;
            }
            acc
        }
    }
}

/// The best that snake 0, alive, can get in `depth` more ticks after the next.
fn best_exec<T: Comparable, E: Evaluator<T>>(game: &Game, depth: usize, evaluator: &E) -> (r: T)
    requires
        game@.wf(),
        game@.snakes.len() > 0,
        game@.snakes[0].alive(),
        game.turn + depth < usize::MAX,
    ensures
        r == best(game@, depth as nat, scorer(evaluator)),
    decreases depth, 2int, 0int,
{
    let ghost g = game@;
    let ghost h = scorer(evaluator);
    let opts = options_of(game, 0);
    let mut moves: Vec<Direction> = Vec::new();
    moves.push(opts[0]);
    assert(moves@ =~= seq![opts@[0]]);
    proof {
        reveal_with_fuel(live_among, 2);
        reveal_with_fuel(best, 2);
        reveal_with_fuel(greatest_of, 2);
    }
    let mut acc = worst_exec(game, depth, evaluator, &mut moves, 1);
    let mut k: usize = 1;
    while k < opts.len()
        invariant
            g == game@,
            g.wf(),
            g.snakes.len() > 0,
            g.snakes[0].alive(),
            h == scorer(evaluator),
            game.turn + depth < usize::MAX,
            opts@ == options(g, 0),
            1 <= k <= opts@.len(),
            acc == greatest_of(g, depth as nat, h, k as int),
        decreases opts@.len() - k,
    {
        let mut moves: Vec<Direction> = Vec::new();
        moves.push(opts[k]);
        assert(moves@ =~= seq![opts@[k as int]]);
        proof {
            reveal_with_fuel(live_among, 2);
            reveal_with_fuel(greatest_of, 2);
        }
        let v = worst_exec(game, depth, evaluator, &mut moves, 1);
        if acc.less(&v) {
            acc = v;
        }
        k = k + 1;
    }
    acc
}

/// The score of snake 0 moving in direction `d`, which is one of its valid moves,
/// and the search going `depth` ticks further: the worst that the other snakes can
/// bring about when snake 0 then plays its best.
pub fn score_move<T: Comparable, E: Evaluator<T>>(
    game: &Game,
    depth: usize,
    evaluator: &E,
    d: Direction,
) -> (score: T)
    requires
        game@.wf(),
        game@.snakes.len() > 0,
        game.turn + depth < usize::MAX,
        game@.open_move(0, d),
    ensures
        score == worst(game@, depth as nat, scorer(evaluator), seq![d], 1),
{
    let mut moves: Vec<Direction> = Vec::new();
    moves.push(d);
    assert(moves@ =~= seq![d]);
    proof {
        reveal_with_fuel(live_among, 2);
    }
    worst_exec(game, depth, evaluator, &mut moves, 1)
}

/// For each direction, at the position of its number, the score of snake 0 moving
/// there and the search going `depth` ticks further: the least score for a move
/// that is not valid, else the worst that the other snakes can bring about when
/// snake 0 then plays its best. The leaves are scored by `evaluator`.
///
/// All live snakes move at once. Each tries its valid moves, or `Up` alone where it
/// has none. A game that is decided, or in which snake 0 is dead, is a leaf.
pub fn max_n<T: Comparable, E: Evaluator<T>>(game: &Game, depth: usize, evaluator: &E) -> (scores: [T; 4])
    requires
        game@.wf(),
        game@.snakes.len() > 0,
        game.turn + depth < usize::MAX,
    ensures
        scores@ == max_n_spec(game@, depth as nat, scorer(evaluator)),
{
    let ghost g = game@;
    let ghost h = scorer(evaluator);
    let mut scores: [T; 4] = [T::min();4];
    let valid = game.valid_moves(0);
    let ghost every = Direction::every();
    let mut k: usize = 0;
    while k < valid.len()
        invariant
            g == game@,
            g.wf(),
            g.snakes.len() > 0,
            h == scorer(evaluator),
            game.turn + depth < usize::MAX,
            every == Direction::every(),
            valid@ == g.valid_moves(0),
            forall|j: int| 0 <= j < valid@.len() ==> g.open_move(0, #[trigger] valid@[j]),
            k <= valid@.len(),
            forall|c: int|
                0 <= c < 4 ==> #[trigger] scores@[c] == if valid@.take(k as int).contains(every[c]) {
                    worst(g, depth as nat, h, seq![every[c]], 1)
                } else {
                    T::least()
                },
        decreases valid@.len() - k,
    {
        let d = valid[k];
        assert(g.open_move(0, d));
        let v = score_move(game, depth, evaluator, d);
        let ghost before = scores@;
        scores[d.index()] = v;
        proof {
            let now = valid@.take(k + 1);
            let was = valid@.take(k as int);
            assert(now =~= was.push(d));
            assert forall|c: int| 0 <= c < 4 implies #[trigger] scores@[c] == if now.contains(every[c]) {
                worst(g, depth as nat, h, seq![every[c]], 1)
            } else {
                T::least()
            } by {
                assert(every[d.code()] == d);
                if c == d.code() {
                    assert(now[k as int] == d);
                } else {
                    assert(scores@[c] == before[c]);
                    if was.contains(every[c]) {
                        let m = choose|m: int| 0 <= m < was.len() && was[m] == every[c];
                        assert(now[m] == every[c]);
                    }
                    if now.contains(every[c]) {
                        let m = choose|m: int| 0 <= m < now.len() && now[m] == every[c];
                        assert(m < k);
                        assert(was[m] == every[c]);
                    }
                }
            }
        }
        k = k + 1;
    }
    proof {
        assert(valid@.take(valid@.len() as int) =~= valid@);
        assert(scores@ =~= max_n_spec(g, depth as nat, h));
    }
    scores
}

/// At depth 0 the score of a valid move of a lone snake is the score of the game
/// after that move, and the score of any other move is the least score.
pub proof fn lemma_max_n_leaf<T: Comparable>(g: GameState, h: spec_fn(GameState) -> T, d: Direction)
    requires
        g.snakes.len() == 1,
    ensures
        max_n_spec(g, 0, h)[d.code()] == if g.valid_moves(0).contains(d) {
            h(g.step(seq![d]))
        } else {
            T::least()
        },
{
    assert(Direction::every()[d.code()] == d);
    reveal_with_fuel(worst, 2);
}

/// At depth 0 the worst that the snakes from `i` on can bring about is the score of
/// the game after one tick, in which the live snakes before `i` move as `moves` says.
pub proof fn lemma_worst_is_leaf<T: Comparable>(
    g: GameState,
    h: spec_fn(GameState) -> T,
    moves: Seq<Direction>,
    i: int,
)
    requires
        0 <= i,
    ensures
        exists|all: Seq<Direction>|
            all.len() >= moves.len() && all.take(moves.len() as int) == moves && worst(
                g,
                0,
                h,
                moves,
                i,
            ) == h(#[trigger] g.step(all)),
    decreases g.snakes.len() - i,
{
    reveal_with_fuel(worst, 2);
    if i >= g.snakes.len() {
        assert(moves.take(moves.len() as int) =~= moves);
        assert(worst(g, 0, h, moves, i) == h(g.step(moves)));
    } else if !g.snakes[i].alive() {
        lemma_worst_is_leaf(g, h, moves, i + 1);
    } else {
        lemma_least_is_leaf(g, h, moves, i, options(g, i).len() as int);
    }
}

/// At depth 0 the worst over the first `k` options of snake `i` is the score of the
/// game after one tick.
pub proof fn lemma_least_is_leaf<T: Comparable>(
    g: GameState,
    h: spec_fn(GameState) -> T,
    moves: Seq<Direction>,
    i: int,
    k: int,
)
    requires
        0 <= i < g.snakes.len(),
    ensures
        exists|all: Seq<Direction>|
            all.len() >= moves.len() && all.take(moves.len() as int) == moves && least_of(
                g,
                0,
                h,
                moves,
                i,
                k,
            ) == h(#[trigger] g.step(all)),
    decreases g.snakes.len() - i, k,
{
    reveal_with_fuel(least_of, 2);
    let last = if k <= 1 {
        options(g, i)[0]
    } else {
        options(g, i)[k - 1]
    };
    lemma_worst_is_leaf(g, h, moves.push(last), i + 1);
    let all = choose|all: Seq<Direction>|
        all.len() >= moves.push(last).len() && all.take(moves.push(last).len() as int)
            == moves.push(last) && worst(g, 0, h, moves.push(last), i + 1) == h(
            #[trigger] g.step(all),
        );
    assert(all.take(moves.len() as int) =~= moves) by {
        assert(all.take(moves.len() as int) =~= all.take(moves.len() as int + 1).take(moves.len() as int));
    }
    if k > 1 {
        lemma_least_is_leaf(g, h, moves, i, k - 1);
    }
}

} // verus!
