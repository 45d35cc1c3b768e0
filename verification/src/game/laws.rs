//! What holds of every game and every tick.

use crate::env::{Direction, Vec2D};
use crate::game::state::{
    hits_body, live_among, live_flags, loses_head_on, GameState, Outcome, SnakeState, FULL_HEALTH,
};
use vstd::prelude::*;

verus! {

/// There are no more live snakes than snakes.
pub proof fn lemma_live_among_bound(snakes: Seq<SnakeState>, n: int)
    requires
        0 <= n,
    ensures
        live_among(snakes, n) <= n,
    decreases n,
{
    if n > 0 {
        lemma_live_among_bound(snakes, n - 1);
    }
}

/// Among more snakes there are not fewer live ones.
pub proof fn lemma_live_among_monotone(snakes: Seq<SnakeState>, a: int, b: int)
    requires
        a <= b,
    ensures
        live_among(snakes, a) <= live_among(snakes, b),
    decreases b - a,
{
    if a < b {
        lemma_live_among_monotone(snakes, a, b - 1);
    }
}

/// Where exactly one of the first `n` snakes is alive, two live ones among them are
/// the same snake.
pub proof fn lemma_single_live(snakes: Seq<SnakeState>, n: int, a: int, b: int)
    requires
        live_among(snakes, n) <= 1,
        0 <= a < n,
        0 <= b < n,
        snakes[a].alive(),
        snakes[b].alive(),
    ensures
        a == b,
{
    if a < b {
        lemma_live_among_bound(snakes, a);
        lemma_live_among_monotone(snakes, a + 1, b);
        lemma_live_among_monotone(snakes, b + 1, n);
    } else if b < a {
        lemma_live_among_monotone(snakes, b + 1, a);
        lemma_live_among_monotone(snakes, a + 1, n);
    }
}

/// Where no snake among the first `n` is counted as alive, none of them is alive; where
/// one is counted, one of them is alive.
pub proof fn lemma_live_among_witness(snakes: Seq<SnakeState>, n: int)
    requires
        0 <= n,
    ensures
        live_among(snakes, n) == 0 ==> forall|i: int| 0 <= i < n ==> !(#[trigger] snakes[i]).alive(),
        live_among(snakes, n) > 0 ==> exists|i: int| 0 <= i < n && (#[trigger] snakes[i]).alive(),
    decreases n,
{
    if n > 0 {
        lemma_live_among_witness(snakes, n - 1);
        if snakes[n - 1].alive() {
        } else if live_among(snakes, n) > 0 {
            let i = choose|i: int| 0 <= i < n - 1 && (#[trigger] snakes[i]).alive();
            assert(snakes[i].alive());
        }
    }
}

/// A tick keeps a valid game valid.
pub proof fn lemma_step_wf(g: GameState, moves: Seq<Direction>)
    requires
        g.wf(),
    ensures
        g.step(moves).wf(),
{
    let next = g.step(moves);
    assert forall|i: int| 0 <= i < next.snakes.len() implies {
        &&& (#[trigger] next.snakes[i]).id == i
        &&& next.snakes[i].body.len() > 0
        &&& next.snakes[i].health <= 100
        &&& next.snakes[i].alive() ==> next.has(next.snakes[i].head())
    } by {
        let s = g.snakes[i];
        assert(g.moved_all(moves)[i] == g.moved(moves, i));
    }
}

/// Where only snake `a` may be alive, the live snakes among the first `n` are that one
/// or none.
pub proof fn lemma_live_among_only(snakes: Seq<SnakeState>, n: int, a: int)
    requires
        0 <= n <= snakes.len(),
        forall|j: int| 0 <= j < n && j != a ==> !(#[trigger] snakes[j]).alive(),
    ensures
        live_among(snakes, n) == if 0 <= a < n && snakes[a].alive() {
            1nat
        } else {
            0nat
        },
    decreases n,
{
    if n > 0 {
        lemma_live_among_only(snakes, n - 1, a);
    }
}

/// One tick: the turn is counted, a dead snake stays dead, and a snake that is alive
/// afterwards has at least 1 and at most full health and is as long as before, or one
/// cell longer where it ate.
pub proof fn lemma_step_counts(g: GameState, moves: Seq<Direction>, i: int)
    requires
        g.wf(),
        g.turn < usize::MAX,
        moves.len() == g.live_count(),
        0 <= i < g.snakes.len(),
    ensures
        g.step(moves).turn == g.turn + 1,
        g.step(moves).snakes.len() == g.snakes.len(),
        !g.snakes[i].alive() ==> g.step(moves).snakes[i] == g.snakes[i],
        g.step(moves).snakes[i].alive() ==> {
            &&& g.snakes[i].alive()
            &&& g.step(moves).snakes[i].body.len() == g.snakes[i].body.len() + if g.eats(moves, i) {
                1int
            } else {
                0int
            }
            &&& 1 <= g.step(moves).snakes[i].health <= FULL_HEALTH
            &&& g.has(g.step(moves).snakes[i].head())
        },
{
    assert(g.moved_all(moves)[i] == g.moved(moves, i));
}

/// A move that `valid_moves` offers leads neither onto the neck, nor off the board,
/// nor onto a body cell of a live snake other than a last cell; and where the neck
/// lies next to the head, at most three moves are offered.
pub proof fn lemma_valid_moves_open(g: GameState, i: int, d: Direction)
    requires
        g.wf(),
        0 <= i < g.snakes.len(),
    ensures
        g.valid_moves(i).contains(d) <==> g.open_move(i, d),
        g.valid_moves(i).len() <= 4,
        (exists|n: Direction| g.into_neck(i, n)) ==> g.valid_moves(i).len() <= 3,
{
    let every = Direction::every();
    let pred = |d: Direction| g.open_move(i, d);
    let vm = g.valid_moves(i);
    assert(vm == every.filter(pred));
    if vm.contains(d) {
        let k = choose|k: int| 0 <= k < vm.len() && vm[k] == d;
        every.lemma_filter_pred(pred, k);
    }
    if g.open_move(i, d) {
        assert(every[d.code()] == d);
        every.lemma_filter_contains(pred, d.code());
    }
    every.lemma_filter_len(pred);
    if exists|n: Direction| g.into_neck(i, n) {
        let n = choose|n: Direction| g.into_neck(i, n);
        assert(!pred(n));
        reveal_with_fuel(Seq::filter, 5);
        let e3 = every.drop_last();
        let e2 = e3.drop_last();
        let e1 = e2.drop_last();
        let e0 = e1.drop_last();
        assert(e0.len() == 0);
        assert(every.last() == Direction::Right);
        assert(e3.last() == Direction::Left);
        assert(e2.last() == Direction::Down);
        assert(e1.last() == Direction::Up);
        assert(e0.filter(pred).len() == 0);
    }
}

/// A snake whose move is one that `valid_moves` offers is alive after the tick,
/// unless its health is used up, it meets head on a snake that is not shorter, or
/// its new head is the last cell of a snake that eats in this tick.
pub proof fn lemma_valid_move_survives(g: GameState, moves: Seq<Direction>, i: int)
    requires
        g.wf(),
        moves.len() == g.live_count(),
        0 <= i < g.snakes.len(),
        g.valid_moves(i).contains(g.intent(moves, i)),
        g.moved(moves, i).health > 0,
        !loses_head_on(live_flags(g.snakes), g.moved_all(moves), i),
        forall|j: int|
            0 <= j < g.snakes.len() && (#[trigger] g.snakes[j]).alive() && g.eats(moves, j)
                ==> g.snakes[j].body.last() != g.next_head(moves, i),
    ensures
        g.step(moves).snakes[i].alive(),
        g.heading(moves, i) == g.intent(moves, i),
{
    let d = g.intent(moves, i);
    lemma_valid_moves_open(g, i, d);
    let m = g.moved_all(moves);
    let h = g.next_head(moves, i);
    assert(m[i] == g.moved(moves, i));
    assert(m[i].body[0] == h);
    if hits_body(live_flags(g.snakes), m, i) {
        let (j, k) = choose|j: int, k: int|
            0 <= j < m.len() && live_flags(g.snakes)[j] && 1 <= k < m[j].body.len()
                && #[trigger] m[j].body[k] == m[i].body[0];
        assert(m[j] == g.moved(moves, j));
        assert(g.snakes[j].alive());
        assert(m[j].body[k] == g.snakes[j].body[k - 1]);
        if g.eats(moves, j) && k == m[j].body.len() - 1 {
            assert(g.snakes[j].body.last() == h);
        } else {
            assert(g.snakes[j].blocks(h));
        }
    }
}

/// A game that is decided stays decided: a draw stays a draw, and a game that a
/// snake has won stays won by it for as long as that snake lives, and is a draw
/// once it has died.
pub proof fn lemma_outcome_stays(g: GameState, moves: Seq<Direction>)
    requires
        g.wf(),
        g.outcome() != Outcome::InProgress,
    ensures
        g.outcome() is Match ==> g.step(moves).outcome() is Match,
        g.outcome() matches Outcome::Winner(id) ==> id < g.snakes.len() && g.step(
            moves,
        ).outcome() == if g.step(moves).snakes[id as int].alive() {
            Outcome::Winner(id)
        } else {
            Outcome::Match
        },
{
    let n = g.snakes.len() as int;
    let next = g.step(moves);
    lemma_live_among_witness(g.snakes, n);
    assert forall|j: int| 0 <= j < n && !g.snakes[j].alive() implies !(#[trigger] next.snakes[j]).alive() by {
        assert(g.moved_all(moves)[j] == g.moved(moves, j));
    }
    if g.outcome() is Match {
        lemma_live_among_only(next.snakes, n, -1);
    } else {
        let id = choose|id: u8| id < g.snakes.len() && (#[trigger] g.snakes[id as int]).alive();
        let w = choose|i: int| 0 <= i < n && (#[trigger] g.snakes[i]).alive();
        assert(g.snakes[w as u8 as int].alive());
        assert(g.snakes[id as int].alive());
        assert forall|j: int| 0 <= j < n && j != id implies !(#[trigger] next.snakes[j]).alive() by {
            if g.snakes[j].alive() {
                lemma_single_live(g.snakes, n, j, id as int);
            }
        }
        lemma_live_among_only(next.snakes, n, id as int);
        if next.snakes[id as int].alive() {
            let picked = choose|p: u8| p < next.snakes.len() && (#[trigger] next.snakes[p as int]).alive();
            assert(next.snakes[id as int].alive());
            assert(picked == id);
        }
    }
}

/// Whether no cell of `body` lies on another, but that the last may lie on the one
/// before it.
pub open spec fn untangled(body: Seq<Vec2D>) -> bool {
    forall|a: int, b: int|
        0 <= a < b < body.len() && #[trigger] body[a] == #[trigger] body[b] ==> a == body.len() - 2
            && b == body.len() - 1
}

/// A live snake whose body is untangled before a tick and who is alive after it
/// has an untangled body then.
pub proof fn lemma_step_untangled(g: GameState, moves: Seq<Direction>, i: int)
    requires
        g.wf(),
        0 <= i < g.snakes.len(),
        untangled(g.snakes[i].body),
        g.step(moves).snakes[i].alive(),
    ensures
        untangled(g.step(moves).snakes[i].body),
{
    let before = g.snakes[i].body;
    let after = g.step(moves).snakes[i].body;
    let m = g.moved_all(moves);
    assert(m[i] == g.moved(moves, i));
    assert(after == m[i].body);
    assert(!hits_body(live_flags(g.snakes), m, i));
    assert forall|a: int, b: int|
        0 <= a < b < after.len() && #[trigger] after[a] == #[trigger] after[b] implies a
        == after.len() - 2 && b == after.len() - 1 by {
        if a == 0 {
            assert(m[i].body[b] == m[i].body[0]);
        } else {
            assert(after[a] == before[a - 1]);
            assert(after[b] == before[b - 1]);
        }
    }
}

} // verus!
