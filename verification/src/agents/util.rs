//! A fixed-size board of labelled cells with fill and count operations.

use crate::agents::reach::{
    belongs_to_nearest, claimed, lemma_seed_step, lemma_track_begin, lemma_track_claim,
    lemma_track_skip, more_keys, noted, owned_by, seeds_noted, t_claimed,
};
use crate::env::{Direction, Vec2D};
use std::collections::VecDeque;
use vstd::prelude::*;

verus! {

pub const BOARD_FREE: i8 = -1;

pub const BOARD_OBSTACLE: i8 = -2;

pub const BOARD_TMP: i8 = -3;

pub const BOARD_FOOD: i8 = -4;

/// Width and height of the board that a `Grid` holds.
pub const BOARD_SIZE: usize = 11;

/// Number of cells of the board.
pub const BOARD_CELLS: usize = 121;

/// Whether `p` lies on the board of `BOARD_SIZE` by `BOARD_SIZE` (11 by 11) cells.
pub open spec fn on_board(p: Vec2D) -> bool {
    0 <= p.x < BOARD_SIZE && 0 <= p.y < BOARD_SIZE
}

/// Position of the cell `p` in the row-major sequence of cells.
pub open spec fn cell_index(p: Vec2D) -> int {
    p.y * BOARD_SIZE + p.x
}

/// How often `v` occurs in `s`.
pub open spec fn occurrences(s: Seq<i8>, v: i8) -> nat
    decreases s.len(),
{
    if s.len() == 0 {
        0
    } else {
        occurrences(s.drop_last(), v) + if s.last() == v {
            1nat
        } else {
            0nat
        }
    }
}

/// Replacing the label at `i` changes the number of `v` by what left and what came.
pub proof fn lemma_occurrences_update(s: Seq<i8>, i: int, w: i8, v: i8)
    requires
        0 <= i < s.len(),
    ensures
        occurrences(s.update(i, w), v) + (if s[i] == v { 1nat } else { 0nat })
            == occurrences(s, v) + (if w == v { 1nat } else { 0nat }),
    decreases s.len(),
{
    let t = s.update(i, w);
    if i == s.len() - 1 {
        assert(t.drop_last() =~= s.drop_last());
    } else {
        assert(t.drop_last() =~= s.drop_last().update(i, w));
        lemma_occurrences_update(s.drop_last(), i, w, v);
    }
}

/// Two cells of the board with the same index are the same cell.
pub proof fn lemma_cell_index_injective(p: Vec2D, q: Vec2D)
    requires
        on_board(p),
        on_board(q),
    ensures
        0 <= cell_index(p) < BOARD_CELLS,
        cell_index(p) == cell_index(q) ==> p == q,
{
}

/// Whether `p` is a cell of `cells` that is free.
pub open spec fn free_at(cells: Seq<i8>, p: Vec2D) -> bool {
    on_board(p) && cell_index(p) < cells.len() && cells[cell_index(p)] == BOARD_FREE
}

/// Whether `p` is a cell of `cells` that is no obstacle.
pub open spec fn open_at(cells: Seq<i8>, p: Vec2D) -> bool {
    on_board(p) && cell_index(p) < cells.len() && cells[cell_index(p)] != BOARD_OBSTACLE
}

/// The entries of `q` that stand on a free cell, in their order.
pub open spec fn keep_free(cells: Seq<i8>, q: Seq<(i8, Vec2D)>) -> Seq<(i8, Vec2D)> {
    q.filter(|e: (i8, Vec2D)| free_at(cells, e.1))
}

/// The entries of `q` that stand on a cell that is no obstacle, in their order.
pub open spec fn keep_open(cells: Seq<i8>, q: Seq<(i8, Vec2D)>) -> Seq<(i8, Vec2D)> {
    q.filter(|e: (i8, Vec2D)| open_at(cells, e.1))
}

/// The four neighbours of `p` in the order of the directions, each tagged with `label`.
pub open spec fn around(label: i8, p: Vec2D) -> Seq<(i8, Vec2D)> {
    Seq::new(4, |k: int| (label, p.neighbour(Direction::every()[k])))
}

/// Whether some entry of `q` stands on the cell `p`.
pub open spec fn queued(q: Seq<(i8, Vec2D)>, p: Vec2D) -> bool {
    exists|j: int| 0 <= j < q.len() && (#[trigger] q[j]).1 == p
}

/// Whether `label` is the label of one of `heads`.
pub open spec fn label_among(heads: Seq<(i8, Vec2D)>, label: i8) -> bool {
    exists|k: int| 0 <= k < heads.len() && (#[trigger] heads[k]).0 == label
}

/// The board after a breadth-first fill that works through `queue` from the front.
///
/// An entry whose cell is free claims that cell for its label and queues the cell's
/// free neighbours behind all that is waiting; any other entry is dropped.
pub open spec fn flood_run(cells: Seq<i8>, queue: Seq<(i8, Vec2D)>) -> Seq<i8>
    decreases occurrences(cells, BOARD_FREE), queue.len(),
{
    if queue.len() == 0 {
        cells
    } else {
        let label = queue[0].0;
        let p = queue[0].1;
        let rest = queue.subrange(1, queue.len() as int);
        if free_at(cells, p) && label != BOARD_FREE {
            let claimed = cells.update(cell_index(p), label);
            proof {
                lemma_occurrences_update(cells, cell_index(p), label, BOARD_FREE);
            }
            flood_run(claimed, rest + keep_free(claimed, around(label, p)))
        } else {
            flood_run(cells, rest)
        }
    }
}

/// Filtering one entry more either appends that entry or changes nothing.
pub proof fn lemma_keep_free_step(cells: Seq<i8>, q: Seq<(i8, Vec2D)>, k: int)
    requires
        0 <= k < q.len(),
    ensures
        keep_free(cells, q.take(k + 1)) == if free_at(cells, q[k].1) {
            keep_free(cells, q.take(k)).push(q[k])
        } else {
            keep_free(cells, q.take(k))
        },
{
    reveal_with_fuel(Seq::filter, 2);
    assert(q.take(k + 1).drop_last() =~= q.take(k));
}

/// Filtering one entry more either appends that entry or changes nothing.
pub proof fn lemma_keep_open_step(cells: Seq<i8>, q: Seq<(i8, Vec2D)>, k: int)
    requires
        0 <= k < q.len(),
    ensures
        keep_open(cells, q.take(k + 1)) == if open_at(cells, q[k].1) {
            keep_open(cells, q.take(k)).push(q[k])
        } else {
            keep_open(cells, q.take(k))
        },
{
    reveal_with_fuel(Seq::filter, 2);
    assert(q.take(k + 1).drop_last() =~= q.take(k));
}

/// What waits behind the front entry still waits when more is queued behind it.
pub proof fn lemma_queued_rest(q: Seq<(i8, Vec2D)>, more: Seq<(i8, Vec2D)>, p: Vec2D)
    requires
        queued(q, p),
        q.len() > 0,
        q[0].1 != p,
    ensures
        queued(q.subrange(1, q.len() as int) + more, p),
{
    let j = choose|j: int| 0 <= j < q.len() && (#[trigger] q[j]).1 == p;
    let r = q.subrange(1, q.len() as int) + more;
    assert(r[j - 1] == q[j]);
}

/// What is appended to a queue waits in it.
pub proof fn lemma_queued_more(q: Seq<(i8, Vec2D)>, more: Seq<(i8, Vec2D)>, p: Vec2D)
    requires
        queued(more, p),
    ensures
        queued(q + more, p),
{
    let j = choose|j: int| 0 <= j < more.len() && (#[trigger] more[j]).1 == p;
    assert((q + more)[q.len() + j] == more[j]);
}

/// Every free neighbour of `p` is among the kept entries around `p`, and every kept
/// entry carries `label` and stands on a free cell.
pub proof fn lemma_keep_free_around(cells: Seq<i8>, label: i8, p: Vec2D)
    ensures
        forall|d: Direction| free_at(cells, #[trigger] p.neighbour(d)) ==> queued(
            keep_free(cells, around(label, p)),
            p.neighbour(d),
        ),
        forall|j: int|
            0 <= j < keep_free(cells, around(label, p)).len() ==> (#[trigger] keep_free(
                cells,
                around(label, p),
            )[j]).0 == label,
{
    let a = around(label, p);
    let pred = |e: (i8, Vec2D)| free_at(cells, e.1);
    let f = keep_free(cells, a);
    assert(f == a.filter(pred));
    assert forall|d: Direction| free_at(cells, #[trigger] p.neighbour(d)) implies queued(
        f,
        p.neighbour(d),
    ) by {
        let k = d.code();
        assert(Direction::every()[k] == d);
        assert(a[k] == (label, p.neighbour(d)));
        assert(pred(a[k]));
        a.lemma_filter_contains(pred, k);
        let j = choose|j: int| 0 <= j < f.len() && f[j] == a[k];
        assert(f[j].1 == p.neighbour(d));
    }
    assert forall|j: int| 0 <= j < f.len() implies (#[trigger] f[j]).0 == label by {
        assert(f.contains(f[j]));
        a.lemma_filter_contains_rev(pred, f[j]);
        let k = choose|k: int| 0 <= k < a.len() && a[k] == f[j];
        assert(a[k].0 == label);
    }
}

/// A snake as the board helpers see it: an id and the body cells from head to tail.
pub struct CSnake {
    pub id: i8,
    pub body: Vec<Vec2D>,
}

impl CSnake {
    pub fn new(id: i8, body: Vec<Vec2D>) -> (s: CSnake)
        ensures
            s.id == id,
            s.body == body,
    {
        CSnake { id, body }
    }

    /// The first cell of the body.
    pub fn head(&self) -> (p: Vec2D)
        requires
            self.body@.len() > 0,
        ensures
            p == self.body@[0],
    {
        self.body[0]
    }
}

impl PartialEq for CSnake {
    /// Two snakes are the same snake when their ids agree.
    fn eq(&self, s: &CSnake) -> (r: bool) {
        self.id == s.id
    }
}

impl vstd::std_specs::cmp::PartialEqSpecImpl for CSnake {
    open spec fn obeys_eq_spec() -> bool {
        true
    }

    open spec fn eq_spec(&self, s: &CSnake) -> bool {
        self.id == s.id
    }
}

/// The board of the standard size, `BOARD_SIZE` cells wide and high (11 by 11): one
/// label per cell. Labels below zero are the `BOARD_*` marks, labels from zero up
/// name the snake that owns the cell. A board of another size is not a `Grid`; the
/// game and its fill take any size.
#[derive(Debug)]
pub struct Grid {
    cells: [i8; 121],
}

impl View for Grid {
    type V = Seq<i8>;

    /// The labels in row-major order: the cell `p` is at `cell_index(p)`.
    closed spec fn view(&self) -> Seq<i8> {
        self.cells@
    }
}

impl Clone for Grid {
    fn clone(&self) -> (g: Grid)
        ensures
            g == *self,
    {
        Grid { cells: self.cells }
    }
}

impl Grid {
    /// Every board has `BOARD_CELLS` cells.
    pub proof fn lemma_len(self)
        ensures
            self@.len() == BOARD_CELLS,
    {
    }

    /// The label of the cell `p`.
    pub open spec fn at(self, p: Vec2D) -> i8 {
        self@[cell_index(p)]
    }

    /// Whether `p` is on the board and not an obstacle.
    pub open spec fn is_available(self, p: Vec2D) -> bool {
        on_board(p) && self.at(p) != BOARD_OBSTACLE
    }

    /// A board of free cells.
    pub fn new() -> (g: Grid)
        ensures
            g@ == Seq::new(BOARD_CELLS as nat, |i: int| BOARD_FREE),
    {
        let g = Grid { cells: [BOARD_FREE;121] };
        assert(g@ =~= Seq::new(BOARD_CELLS as nat, |i: int| BOARD_FREE));
        g
    }

    /// Whether `p` lies on the board of 11 by 11 cells: both coordinates are at least
    /// 0 and below `BOARD_SIZE`.
    pub fn has(&self, p: Vec2D) -> (b: bool)
        ensures
            b == on_board(p),
            b == (0 <= p.x < 11 && 0 <= p.y < 11),
    {
        0 <= p.x && p.x < BOARD_SIZE as i16 && 0 <= p.y && p.y < BOARD_SIZE as i16
    }

    /// The label of the cell `p`.
    pub fn get(&self, p: Vec2D) -> (v: i8)
        requires
            on_board(p),
        ensures
            v == self.at(p),
    {
        self.cells[p.y as usize * BOARD_SIZE + p.x as usize]
    }

    /// Labels the cell `p` with `v` and leaves every other cell as it is.
    pub fn set(&mut self, p: Vec2D, v: i8)
        requires
            on_board(p),
        ensures
            final(self)@ == old(self)@.update(cell_index(p), v),
    {
        self.cells[p.y as usize * BOARD_SIZE + p.x as usize] = v;
    }

    /// Whether `p` is on the board and not an obstacle.
    pub fn avaliable(&self, p: Vec2D) -> (b: bool)
        ensures
            b == self.is_available(p),
    {
        self.has(p) && self.get(p) != BOARD_OBSTACLE
    }

    /// The number of cells labelled `v`.
    pub fn count(&self, v: i8) -> (n: usize)
        ensures
            n == occurrences(self@, v),
            n <= BOARD_CELLS,
    {
        let mut n: usize = 0;
        let mut i: usize = 0;
        while i < BOARD_CELLS
            invariant
                i <= BOARD_CELLS,
                n <= i,
                n == occurrences(self@.subrange(0, i as int), v),
            decreases BOARD_CELLS - i,
        {
            proof {
                let s = self@.subrange(0, i + 1);
                assert(s.drop_last() =~= self@.subrange(0, i as int));
                assert(s.last() == self@[i as int]);
            }
            if self.cells[i] == v {
                n = n + 1;
            }
            i = i + 1;
        }
        proof {
            assert(self@.subrange(0, BOARD_CELLS as int) =~= self@);
        }
        n
    }
}

/// Whether `p` is a body cell of one of `snakes`.
pub open spec fn occupied(snakes: Seq<CSnake>, p: Vec2D) -> bool {
    exists|s: int, k: int|
        0 <= s < snakes.len() && 0 <= k < snakes[s].body@.len() && #[trigger] snakes[s].body@[k]
            == p
}

/// Whether `p` is a body cell that comes before cell `k` of snake `s`.
pub open spec fn occupied_before(snakes: Seq<CSnake>, s: int, k: int, p: Vec2D) -> bool {
    exists|t: int, j: int|
        0 <= t < snakes.len() && 0 <= j < snakes[t].body@.len() && (t < s || (t == s && j < k))
            && #[trigger] snakes[t].body@[j] == p
}

/// Whether `p` is one of the first `n` entries of `cells`.
pub open spec fn listed(cells: Seq<Vec2D>, n: int, p: Vec2D) -> bool {
    exists|j: int| 0 <= j < n && j < cells.len() && #[trigger] cells[j] == p
}

/// What holds of a fill while `queue` is still waiting: nothing but free cells was
/// relabelled, every new label is the label of a seed, and every free cell next to a
/// claimed cell or under a seed waits in the queue.
pub open spec fn fill_progress(
    cells: Seq<i8>,
    queue: Seq<(i8, Vec2D)>,
    base: Seq<i8>,
    heads: Seq<(i8, Vec2D)>,
) -> bool {
    &&& cells.len() == BOARD_CELLS
    &&& base.len() == BOARD_CELLS
    &&& forall|j: int| 0 <= j < queue.len() ==> label_among(heads, (#[trigger] queue[j]).0)
    &&& forall|i: int| 0 <= i < BOARD_CELLS && base[i] != BOARD_FREE ==> #[trigger] cells[i] == base[i]
    &&& forall|i: int|
        0 <= i < BOARD_CELLS && #[trigger] cells[i] != base[i] ==> label_among(heads, cells[i])
    &&& forall|k: int|
        0 <= k < heads.len() && free_at(cells, (#[trigger] heads[k]).1) ==> queued(queue, heads[k].1)
    &&& forall|p: Vec2D, d: Direction|
        on_board(p) && cells[cell_index(p)] != base[cell_index(p)] && free_at(
            cells,
            #[trigger] p.neighbour(d),
        ) ==> queued(queue, p.neighbour(d))
}

/// Claiming the free cell under the front entry and queueing its free neighbours
/// keeps `fill_progress`.
pub proof fn lemma_fill_claim(
    cells: Seq<i8>,
    queue: Seq<(i8, Vec2D)>,
    base: Seq<i8>,
    heads: Seq<(i8, Vec2D)>,
)
    requires
        fill_progress(cells, queue, base, heads),
        queue.len() > 0,
        free_at(cells, queue[0].1),
        forall|k: int| 0 <= k < heads.len() ==> (#[trigger] heads[k]).0 != BOARD_FREE,
    ensures
        queue[0].0 != BOARD_FREE,
        fill_progress(
            cells.update(cell_index(queue[0].1), queue[0].0),
            queue.subrange(1, queue.len() as int) + keep_free(
                cells.update(cell_index(queue[0].1), queue[0].0),
                around(queue[0].0, queue[0].1),
            ),
            base,
            heads,
        ),
{
    let label = queue[0].0;
    let p = queue[0].1;
    let c2 = cells.update(cell_index(p), label);
    let rest = queue.subrange(1, queue.len() as int);
    let more = keep_free(c2, around(label, p));
    let q2 = rest + more;
    assert(label_among(heads, label));
    assert(label != BOARD_FREE);
    lemma_keep_free_around(c2, label, p);
    assert forall|j: int| 0 <= j < q2.len() implies label_among(heads, (#[trigger] q2[j]).0) by {
        if j < rest.len() {
            assert(q2[j] == queue[j + 1]);
        } else {
            assert(q2[j] == more[j - rest.len()]);
        }
    }
    assert forall|k: int| 0 <= k < heads.len() && free_at(c2, (#[trigger] heads[k]).1) implies queued(
        q2,
        heads[k].1,
    ) by {
        let s = heads[k].1;
        lemma_cell_index_injective(s, p);
        assert(free_at(cells, s));
        lemma_queued_rest(queue, more, s);
    }
    assert forall|q: Vec2D, d: Direction|
        on_board(q) && c2[cell_index(q)] != base[cell_index(q)] && free_at(
            c2,
            #[trigger] q.neighbour(d),
        ) implies queued(q2, q.neighbour(d)) by {
        let n = q.neighbour(d);
        lemma_cell_index_injective(n, p);
        lemma_cell_index_injective(q, p);
        assert(free_at(cells, n));
        if q == p {
            lemma_queued_more(rest, more, n);
        } else {
            assert(c2[cell_index(q)] == cells[cell_index(q)]);
            lemma_queued_rest(queue, more, n);
        }
    }
}

/// Dropping a front entry whose cell is not free keeps `fill_progress`.
pub proof fn lemma_fill_skip(
    cells: Seq<i8>,
    queue: Seq<(i8, Vec2D)>,
    base: Seq<i8>,
    heads: Seq<(i8, Vec2D)>,
)
    requires
        fill_progress(cells, queue, base, heads),
        queue.len() > 0,
        !free_at(cells, queue[0].1),
    ensures
        fill_progress(cells, queue.subrange(1, queue.len() as int), base, heads),
{
    let rest = queue.subrange(1, queue.len() as int);
    let none = Seq::<(i8, Vec2D)>::empty();
    assert(rest + none =~= rest);
    assert forall|j: int| 0 <= j < rest.len() implies label_among(heads, (#[trigger] rest[j]).0) by {
        assert(rest[j] == queue[j + 1]);
    }
    assert forall|k: int|
        0 <= k < heads.len() && free_at(cells, (#[trigger] heads[k]).1) implies queued(
        rest,
        heads[k].1,
    ) by {
        lemma_queued_rest(queue, none, heads[k].1);
    }
    assert forall|q: Vec2D, d: Direction|
        on_board(q) && cells[cell_index(q)] != base[cell_index(q)] && free_at(
            cells,
            #[trigger] q.neighbour(d),
        ) implies queued(rest, q.neighbour(d)) by {
        lemma_queued_rest(queue, none, q.neighbour(d));
    }
}

/// The seeds that stand on open cells make a queue with which a fill can begin.
pub proof fn lemma_fill_begin(cells: Seq<i8>, heads: Seq<(i8, Vec2D)>)
    requires
        cells.len() == BOARD_CELLS,
    ensures
        fill_progress(cells, keep_open(cells, heads), cells, heads),
{
    let pred = |e: (i8, Vec2D)| open_at(cells, e.1);
    let q = keep_open(cells, heads);
    assert(q == heads.filter(pred));
    assert forall|j: int| 0 <= j < q.len() implies label_among(heads, (#[trigger] q[j]).0) by {
        assert(q.contains(q[j]));
        heads.lemma_filter_contains_rev(pred, q[j]);
        let k = choose|k: int| 0 <= k < heads.len() && heads[k] == q[j];
        assert(heads[k].0 == q[j].0);
    }
    assert forall|k: int| 0 <= k < heads.len() && free_at(cells, (#[trigger] heads[k]).1) implies queued(
        q,
        heads[k].1,
    ) by {
        assert(pred(heads[k]));
        heads.lemma_filter_contains(pred, k);
        let j = choose|j: int| 0 <= j < q.len() && q[j] == heads[k];
        assert(q[j].1 == heads[k].1);
    }
}

impl Grid {
    /// A board on which the body cells of `snakes` are obstacles and all else is free.
    pub fn filled(snakes: &[CSnake]) -> (g: Grid)
        requires
            forall|s: int, k: int|
                0 <= s < snakes@.len() && 0 <= k < snakes@[s].body@.len() ==> on_board(
                    #[trigger] snakes@[s].body@[k],
                ),
        ensures
            forall|p: Vec2D|
                on_board(p) ==> #[trigger] g.at(p) == if occupied(snakes@, p) {
                    BOARD_OBSTACLE
                } else {
                    BOARD_FREE
                },
    {
        let mut board = Grid::new();
        let mut s: usize = 0;
        while s < snakes.len()
            invariant
                s <= snakes@.len(),
                forall|t: int, k: int|
                    0 <= t < snakes@.len() && 0 <= k < snakes@[t].body@.len() ==> on_board(
                        #[trigger] snakes@[t].body@[k],
                    ),
                forall|p: Vec2D|
                    on_board(p) ==> #[trigger] board.at(p) == if occupied_before(
                        snakes@,
                        s as int,
                        0,
                        p,
                    ) {
                        BOARD_OBSTACLE
                    } else {
                        BOARD_FREE
                    },
            decreases snakes@.len() - s,
        {
            let snake = &snakes[s];
            let mut k: usize = 0;
            while k < snake.body.len()
                invariant
                    s < snakes@.len(),
                    *snake == snakes@[s as int],
                    k <= snake.body@.len(),
                    forall|t: int, k: int|
                        0 <= t < snakes@.len() && 0 <= k < snakes@[t].body@.len() ==> on_board(
                            #[trigger] snakes@[t].body@[k],
                        ),
                    forall|p: Vec2D|
                        on_board(p) ==> #[trigger] board.at(p) == if occupied_before(
                            snakes@,
                            s as int,
                            k as int,
                            p,
                        ) {
                            BOARD_OBSTACLE
                        } else {
                            BOARD_FREE
                        },
                decreases snake.body@.len() - k,
            {
                let p = snake.body[k];
                let ghost before = board;
                assert(p == snakes@[s as int].body@[k as int]);
                board.set(p, BOARD_OBSTACLE);
                proof {
                    assert forall|q: Vec2D| on_board(q) implies #[trigger] board.at(q)
                        == if occupied_before(snakes@, s as int, k + 1, q) {
                        BOARD_OBSTACLE
                    } else {
                        BOARD_FREE
                    } by {
                        lemma_cell_index_injective(q, p);
                        assert(before.at(q) == if occupied_before(snakes@, s as int, k as int, q) {
                            BOARD_OBSTACLE
                        } else {
                            BOARD_FREE
                        });
                        if occupied_before(snakes@, s as int, k as int, q) {
                            let (t, j) = choose|t: int, j: int|
                                0 <= t < snakes@.len() && 0 <= j < snakes@[t].body@.len() && (t
                                    < s || (t == s && j < k)) && #[trigger] snakes@[t].body@[j]
                                    == q;
                            assert(snakes@[t].body@[j] == q);
                        }
                        if occupied_before(snakes@, s as int, k + 1, q) && q != p {
                            let (t, j) = choose|t: int, j: int|
                                0 <= t < snakes@.len() && 0 <= j < snakes@[t].body@.len() && (t
                                    < s || (t == s && j < k + 1)) && #[trigger] snakes@[t].body@[j]
                                    == q;
                            assert(snakes@[t].body@[j] == q);
                        }
                    }
                }
                k = k + 1;
            }
            proof {
                assert forall|q: Vec2D| on_board(q) implies (occupied_before(
                    snakes@,
                    s as int,
                    k as int,
                    q,
                ) <==> occupied_before(snakes@, s + 1, 0, q)) by {
                    if occupied_before(snakes@, s as int, k as int, q) {
                        let (t, j) = choose|t: int, j: int|
                            0 <= t < snakes@.len() && 0 <= j < snakes@[t].body@.len() && (t < s
                                || (t == s && j < k)) && #[trigger] snakes@[t].body@[j] == q;
                        assert(snakes@[t].body@[j] == q);
                    }
                    if occupied_before(snakes@, s + 1, 0, q) {
                        let (t, j) = choose|t: int, j: int|
                            0 <= t < snakes@.len() && 0 <= j < snakes@[t].body@.len() && (t < s
                                + 1 || (t == s + 1 && j < 0)) && #[trigger] snakes@[t].body@[j]
                                == q;
                        assert(snakes@[t].body@[j] == q);
                    }
                }
            }
            s = s + 1;
        }
        proof {
            assert forall|q: Vec2D| on_board(q) implies (occupied_before(
                snakes@,
                s as int,
                0,
                q,
            ) <==> occupied(snakes@, q)) by {
                if occupied(snakes@, q) {
                    let (t, j) = choose|t: int, j: int|
                        0 <= t < snakes@.len() && 0 <= j < snakes@[t].body@.len()
                            && #[trigger] snakes@[t].body@[j] == q;
                    assert(snakes@[t].body@[j] == q);
                }
            }
        }
        board
    }

    /// Marks every cell of `food` that lies on the board as food.
    pub fn populate(&mut self, food: &[Vec2D])
        ensures
            forall|p: Vec2D|
                on_board(p) ==> #[trigger] final(self).at(p) == if food@.contains(p) {
                    BOARD_FOOD
                } else {
                    old(self).at(p)
                },
    {
        let mut k: usize = 0;
        while k < food.len()
            invariant
                k <= food@.len(),
                forall|p: Vec2D|
                    on_board(p) ==> #[trigger] self.at(p) == if listed(food@, k as int, p) {
                        BOARD_FOOD
                    } else {
                        old(self).at(p)
                    },
            decreases food@.len() - k,
        {
            let p = food[k];
            let ghost before = *self;
            if self.has(p) {
                self.set(p, BOARD_FOOD);
            }
            proof {
                assert forall|q: Vec2D| on_board(q) implies #[trigger] self.at(q) == if listed(
                    food@,
                    k + 1,
                    q,
                ) {
                    BOARD_FOOD
                } else {
                    old(self).at(q)
                } by {
                    if on_board(p) {
                        lemma_cell_index_injective(q, p);
                    }
                    assert(before.at(q) == if listed(food@, k as int, q) {
                        BOARD_FOOD
                    } else {
                        old(self).at(q)
                    });
                    if listed(food@, k as int, q) {
                        let j = choose|j: int| 0 <= j < k && j < food@.len() && #[trigger] food@[j] == q;
                        assert(food@[j] == q);
                    }
                    if q == p {
                        assert(food@[k as int] == q);
                    }
                    if listed(food@, k + 1, q) && q != p {
                        let j = choose|j: int|
                            0 <= j < k + 1 && j < food@.len() && #[trigger] food@[j] == q;
                        assert(food@[j] == q);
                    }
                }
            }
            k = k + 1;
        }
        proof {
            assert forall|q: Vec2D| on_board(q) implies (listed(food@, k as int, q)
                <==> food@.contains(q)) by {
                if food@.contains(q) {
                    let j = choose|j: int| 0 <= j < food@.len() && food@[j] == q;
                    assert(food@[j] == q);
                }
            }
        }
    }

    /// Queues behind `queue` the free neighbours of `p`, each tagged with `label`.
    fn push_free_neighbours(&self, queue: &mut VecDeque<(i8, Vec2D)>, label: i8, p: Vec2D)
        requires
            on_board(p),
        ensures
            final(queue)@ == old(queue)@ + keep_free(self@, around(label, p)),
    {
        let dirs = Direction::all();
        let ghost a = around(label, p);
        let mut k: usize = 0;
        assert(a.take(0) =~= Seq::<(i8, Vec2D)>::empty());
        assert(keep_free(self@, a.take(0)) =~= Seq::<(i8, Vec2D)>::empty()) by {
            reveal_with_fuel(Seq::filter, 1);
        }
        assert(queue@ =~= old(queue)@ + keep_free(self@, a.take(0)));
        while k < 4
            invariant
                k <= 4,
                on_board(p),
                a == around(label, p),
                dirs@ == Direction::every(),
                queue@ == old(queue)@ + keep_free(self@, a.take(k as int)),
            decreases 4 - k,
        {
            let q = p.apply(dirs[k]);
            proof {
                lemma_keep_free_step(self@, a, k as int);
                assert(a[k as int] == (label, q));
            }
            if self.has(q) && self.get(q) == BOARD_FREE {
                queue.push_back((label, q));
                assert(queue@ =~= old(queue)@ + keep_free(self@, a.take(k + 1)));
            }
            k = k + 1;
        }
        assert(a.take(4) =~= a);
    }

    /// Breadth-first fill from `heads`: every free cell that a seed reaches over free
    /// cells gets the label of the nearest seed, the earliest in `heads` of several
    /// that are equally near.
    ///
    /// A seed is an entry of `heads` that stands on a cell that is no obstacle. Cells
    /// that are not free are never relabelled and stop the fill. When the fill ends no
    /// free cell is left under a seed or next to a cell that the fill has claimed.
    pub fn flood_fill(&mut self, heads: &[(i8, Vec2D)])
        requires
            forall|k: int| 0 <= k < heads@.len() ==> (#[trigger] heads@[k]).0 != BOARD_FREE,
        ensures
            final(self)@ == flood_run(old(self)@, keep_open(old(self)@, heads@)),
            forall|i: int|
                0 <= i < BOARD_CELLS && old(self)@[i] != BOARD_FREE ==> #[trigger] final(self)@[i]
                    == old(self)@[i],
            forall|i: int|
                0 <= i < BOARD_CELLS && #[trigger] final(self)@[i] != old(self)@[i] ==> label_among(
                    heads@,
                    final(self)@[i],
                ),
            forall|k: int|
                0 <= k < heads@.len() ==> !free_at(final(self)@, (#[trigger] heads@[k]).1),
            forall|p: Vec2D, d: Direction|
                on_board(p) && final(self).at(p) != old(self).at(p) ==> !free_at(
                    final(self)@,
                    #[trigger] p.neighbour(d),
                ),
            forall|p: Vec2D|
                on_board(p) && #[trigger] final(self).at(p) != old(self).at(p)
                    ==> belongs_to_nearest(old(self)@, heads@, final(self).at(p), p),
    {
        let mut queue: VecDeque<(i8, Vec2D)> = VecDeque::with_capacity(
            BOARD_SIZE * BOARD_SIZE * 2,
        );
        let ghost base = self@;
        let ghost mut keys: Seq<(int, int)> = Seq::empty();
        let ghost mut own: Seq<int> = Seq::new(BOARD_CELLS as nat, |i: int| 0int);
        let ghost mut lev: Seq<int> = Seq::new(BOARD_CELLS as nat, |i: int| 0int);
        let mut k: usize = 0;
        assert(heads@.take(0) =~= Seq::<(i8, Vec2D)>::empty());
        assert(keep_open(base, heads@.take(0)) =~= Seq::<(i8, Vec2D)>::empty()) by {
            reveal_with_fuel(Seq::filter, 1);
        }
        while k < heads.len()
            invariant
                k <= heads@.len(),
                self@ == base,
                queue@ == keep_open(base, heads@.take(k as int)),
                seeds_noted(base, heads@, queue@, keys, k as int),
            decreases heads@.len() - k,
        {
            let e = heads[k];
            proof {
                lemma_keep_open_step(base, heads@, k as int);
                lemma_seed_step(base, heads@, queue@, keys, k as int);
            }
            if self.avaliable(e.1) {
                queue.push_back(e);
                proof {
                    keys = keys.push((0int, k as int));
                }
            }
            k = k + 1;
        }
        proof {
            assert(heads@.take(heads@.len() as int) =~= heads@);
            lemma_fill_begin(base, heads@);
            lemma_track_begin(base, heads@, queue@, keys, own, lev);
        }
        while queue.len() > 0
            invariant
                forall|k: int| 0 <= k < heads@.len() ==> (#[trigger] heads@[k]).0 != BOARD_FREE,
                fill_progress(self@, queue@, base, heads@),
                flood_run(self@, queue@) == flood_run(base, keep_open(base, heads@)),
                noted(self@, base, heads@, queue@, keys, own, lev),
            decreases occurrences(self@, BOARD_FREE), queue@.len(),
        {
            let ghost cells = self@;
            let ghost waiting = queue@;
            let front = queue.pop_front();
            match front {
                None => {},
                Some(e) => {
                    let label = e.0;
                    let p = e.1;
                    if self.has(p) && self.get(p) == BOARD_FREE {
                        proof {
                            lemma_fill_claim(cells, waiting, base, heads@);
                            lemma_occurrences_update(cells, cell_index(p), label, BOARD_FREE);
                            lemma_track_claim(cells, base, heads@, waiting, keys, own, lev);
                        }
                        self.set(p, label);
                        self.push_free_neighbours(&mut queue, label, p);
                        proof {
                            let more = keep_free(self@, around(label, p));
                            own = own.update(cell_index(p), keys[0].1);
                            lev = lev.update(cell_index(p), keys[0].0);
                            keys = keys.subrange(1, keys.len() as int) + more_keys(
                                more.len(),
                                keys[0].0,
                                keys[0].1,
                            );
                        }
                    } else {
                        proof {
                            lemma_fill_skip(cells, waiting, base, heads@);
                            lemma_track_skip(cells, base, heads@, waiting, keys, own, lev);
                            keys = keys.subrange(1, keys.len() as int);
                        }
                    }
                },
            }
        }
        proof {
            assert forall|p: Vec2D|
                on_board(p) && #[trigger] self.at(p) != old(self).at(p) implies belongs_to_nearest(
                old(self)@,
                heads@,
                self.at(p),
                p,
            ) by {
                reveal(t_claimed);
                assert(claimed(self@, base, p));
                assert(owned_by(base, heads@, p, own[cell_index(p)], lev[cell_index(p)]));
            }
            assert forall|p: Vec2D, d: Direction|
                on_board(p) && self.at(p) != old(self).at(p) implies !free_at(
                self@,
                #[trigger] p.neighbour(d),
            ) by {
                if free_at(self@, p.neighbour(d)) {
                    assert(queued(queue@, p.neighbour(d)));
                }
            }
        }
    }
}

/// The cell of the board whose index is `i`.
pub open spec fn cell_at(i: int) -> Vec2D {
    Vec2D { x: (i % (BOARD_SIZE as int)) as i16, y: (i / (BOARD_SIZE as int)) as i16 }
}

/// Every index names a cell of the board, and that cell has this index.
pub proof fn lemma_cell_at(i: int)
    requires
        0 <= i < BOARD_CELLS,
    ensures
        on_board(cell_at(i)),
        cell_index(cell_at(i)) == i,
{
}

/// Whether every snake has a body whose last cell is on the board.
pub open spec fn tails_on_board(snakes: Seq<CSnake>) -> bool {
    forall|s: int|
        0 <= s < snakes.len() ==> (#[trigger] snakes[s]).body@.len() > 0 && on_board(
            snakes[s].body@.last(),
        )
}

/// Whether the head of snake `you` and the heads of the snakes shorter than it are
/// on the board.
pub open spec fn near_heads_on_board(snakes: Seq<CSnake>, you: int) -> bool {
    forall|s: int|
        0 <= s < snakes.len() && (s == you || (#[trigger] snakes[s]).body@.len()
            < snakes[you].body@.len()) ==> on_board(snakes[s].body@[0])
}

/// Whether snake `you` has a move that leads to a cell of the board that is no obstacle.
pub open spec fn move_open(cells: Seq<i8>, snakes: Seq<CSnake>, you: int) -> bool {
    exists|d: Direction| open_at(cells, #[trigger] snakes[you].body@[0].neighbour(d))
}

/// Whether `snakes` fit the board for snake `you` to move: they are few enough for
/// each to be labelled with its position among them; each has a body; the head of
/// `you` and the heads of the snakes that are not shorter have all their neighbours
/// within the range of the coordinates; and where `you` has an open move, every
/// tail is on the board, and so are the head of `you` and the heads of the snakes
/// shorter than it.
pub open spec fn snakes_on_board(cells: Seq<i8>, snakes: Seq<CSnake>, you: int) -> bool {
    &&& snakes.len() <= 128
    &&& forall|s: int| 0 <= s < snakes.len() ==> (#[trigger] snakes[s]).body@.len() > 0
    &&& forall|s: int|
        0 <= s < snakes.len() && (s == you || (#[trigger] snakes[s]).body@.len()
            >= snakes[you].body@.len()) ==> snakes[s].body@[0].can_step()
    &&& move_open(cells, snakes, you) ==> tails_on_board(snakes) && near_heads_on_board(
        snakes,
        you,
    )
}

/// Whether `p` is the last body cell of one of the first `n` of `snakes`.
pub open spec fn is_tail(snakes: Seq<CSnake>, n: int, p: Vec2D) -> bool {
    exists|s: int|
        0 <= s < n && s < snakes.len() && (#[trigger] snakes[s]).body@.len() > 0
            && snakes[s].body@.last() == p
}

/// Where the first `n` of `snakes` that are at least as long as snake `you` may move
/// their heads: for each in turn the open neighbours of its head under its label.
pub open spec fn longer_heads(cells: Seq<i8>, snakes: Seq<CSnake>, you: int, n: int) -> Seq<
    (i8, Vec2D),
>
    decreases n,
{
    if n <= 0 {
        Seq::empty()
    } else {
        let prev = longer_heads(cells, snakes, you, n - 1);
        let s = snakes[n - 1];
        if n - 1 != you && s.body@.len() >= snakes[you].body@.len() {
            prev + keep_open(cells, around((n - 1) as i8, s.body@[0]))
        } else {
            prev
        }
    }
}

/// The heads of the first `n` of `snakes` that are shorter than snake `you`, each
/// under its label.
pub open spec fn shorter_heads(snakes: Seq<CSnake>, you: int, n: int) -> Seq<(i8, Vec2D)>
    decreases n,
{
    if n <= 0 {
        Seq::empty()
    } else {
        let prev = shorter_heads(snakes, you, n - 1);
        let s = snakes[n - 1];
        if n - 1 != you && s.body@.len() < snakes[you].body@.len() {
            prev.push(((n - 1) as i8, s.body@[0]))
        } else {
            prev
        }
    }
}

/// The cells that are taken as heads after the next move: where the snakes that are
/// not shorter than `you` may go, then the head of `you`, then the heads of the
/// shorter snakes.
pub open spec fn next_heads(cells: Seq<i8>, snakes: Seq<CSnake>, you: int) -> Seq<(i8, Vec2D)> {
    longer_heads(cells, snakes, you, snakes.len() as int).push(
        (you as i8, snakes[you].body@[0]),
    ) + shorter_heads(snakes, you, snakes.len() as int)
}

/// The label of `p` once snake `you` has stepped to `step`: the cells of `heads` are
/// obstacles, else a tail is free, else `step` is an obstacle, else the cell is as it was.
pub open spec fn staged_label(
    cells: Seq<i8>,
    snakes: Seq<CSnake>,
    heads: Seq<(i8, Vec2D)>,
    step: Vec2D,
    p: Vec2D,
) -> i8 {
    if queued(heads, p) {
        BOARD_OBSTACLE
    } else if is_tail(snakes, snakes.len() as int, p) {
        BOARD_FREE
    } else if p == step {
        BOARD_OBSTACLE
    } else {
        cells[cell_index(p)]
    }
}

/// The board once snake `you` has stepped to `step`.
pub open spec fn stage(
    cells: Seq<i8>,
    snakes: Seq<CSnake>,
    heads: Seq<(i8, Vec2D)>,
    step: Vec2D,
) -> Seq<i8> {
    Seq::new(BOARD_CELLS as nat, |i: int| staged_label(cells, snakes, heads, step, cell_at(i)))
}

/// The first `n` seeds of the fill after the move `step` of the snake labelled `you`:
/// for each of `heads` in turn its four neighbours, where the head of `you` is taken
/// one cell further in direction `step`.
pub open spec fn spread(heads: Seq<(i8, Vec2D)>, you: i8, step: Direction, n: int) -> Seq<
    (i8, Vec2D),
> {
    Seq::new(
        n as nat,
        |j: int|
            {
                let e = heads[j / 4];
                let from = if e.0 == you {
                    e.1.neighbour(step)
                } else {
                    e.1
                };
                (e.0, from.neighbour(Direction::every()[j % 4]))
            },
    )
}

/// The number of cells that the snake at position `you` owns after it has moved in
/// direction `d`, or 0 where that move leads off the board or into an obstacle.
pub open spec fn space_after(cells: Seq<i8>, snakes: Seq<CSnake>, you: int, d: Direction) -> nat {
    let step = snakes[you].body@[0].neighbour(d);
    if open_at(cells, step) {
        let heads = next_heads(cells, snakes, you);
        let staged = stage(cells, snakes, heads, step);
        let seeds = spread(heads, you as i8, d, 4 * heads.len() as int);
        occurrences(flood_run(staged, keep_open(staged, seeds)), you as i8)
    } else {
        0
    }
}

/// Whether every entry of `heads` stands on the board under a label that is no mark.
pub open spec fn heads_on_board(heads: Seq<(i8, Vec2D)>) -> bool {
    forall|j: int| 0 <= j < heads.len() ==> on_board((#[trigger] heads[j]).1) && heads[j].0 >= 0
}

impl Grid {
    /// Appends to `heads` the open neighbours of `p`, each tagged with `label`.
    fn push_open_neighbours(&self, heads: &mut Vec<(i8, Vec2D)>, label: i8, p: Vec2D)
        requires
            p.can_step(),
            label >= 0,
        ensures
            final(heads)@ == old(heads)@ + keep_open(self@, around(label, p)),
            heads_on_board(old(heads)@) ==> heads_on_board(final(heads)@),
    {
        let dirs = Direction::all();
        let ghost a = around(label, p);
        let mut k: usize = 0;
        assert(a.take(0) =~= Seq::<(i8, Vec2D)>::empty());
        assert(keep_open(self@, a.take(0)) =~= Seq::<(i8, Vec2D)>::empty()) by {
            reveal_with_fuel(Seq::filter, 1);
        }
        assert(heads@ =~= old(heads)@ + keep_open(self@, a.take(0)));
        while k < 4
            invariant
                k <= 4,
                p.can_step(),
                label >= 0,
                a == around(label, p),
                dirs@ == Direction::every(),
                heads@ == old(heads)@ + keep_open(self@, a.take(k as int)),
                heads_on_board(old(heads)@) ==> heads_on_board(heads@),
            decreases 4 - k,
        {
            let q = p.apply(dirs[k]);
            proof {
                lemma_keep_open_step(self@, a, k as int);
                assert(a[k as int] == (label, q));
            }
            if self.avaliable(q) {
                let ghost before = heads@;
                heads.push((label, q));
                assert(heads@ =~= old(heads)@ + keep_open(self@, a.take(k + 1)));
                proof {
                    if heads_on_board(old(heads)@) {
                        assert forall|j: int| 0 <= j < heads@.len() implies on_board(
                            (#[trigger] heads@[j]).1,
                        ) && heads@[j].0 >= 0 by {
                            if j < before.len() {
                                assert(heads@[j] == before[j]);
                            }
                        }
                    }
                }
            }
            k = k + 1;
        }
        assert(a.take(4) =~= a);
    }

    /// The cells that are taken as heads after the next move.
    fn collect_next_heads(&self, you_i: i8, snakes: &[CSnake]) -> (heads: Vec<(i8, Vec2D)>)
        requires
            snakes_on_board(self@, snakes@, you_i as int),
            0 <= you_i < snakes@.len(),
        ensures
            heads@ == next_heads(self@, snakes@, you_i as int),
            near_heads_on_board(snakes@, you_i as int) ==> heads_on_board(heads@),
    {
        let you_len = snakes[you_i as usize].body.len();
        let mut heads: Vec<(i8, Vec2D)> = Vec::new();
        let mut i: usize = 0;
        while i < snakes.len()
            invariant
                i <= snakes@.len(),
                snakes_on_board(self@, snakes@, you_i as int),
                0 <= you_i < snakes@.len(),
                you_len == snakes@[you_i as int].body@.len(),
                heads@ == longer_heads(self@, snakes@, you_i as int, i as int),
                heads_on_board(heads@),
            decreases snakes@.len() - i,
        {
            let s = &snakes[i];
            if i as i8 != you_i && s.body.len() >= you_len {
                self.push_open_neighbours(&mut heads, i as i8, s.head());
            }
            i = i + 1;
        }
        let ghost longer = heads@;
        heads.push((you_i, snakes[you_i as usize].head()));
        let ghost middle = heads@;
        assert(near_heads_on_board(snakes@, you_i as int) ==> heads_on_board(heads@)) by {
            if near_heads_on_board(snakes@, you_i as int) {
                assert(on_board(snakes@[you_i as int].body@[0]));
                assert forall|j: int| 0 <= j < heads@.len() implies on_board(
                    (#[trigger] heads@[j]).1,
                ) && heads@[j].0 >= 0 by {
                    if j < longer.len() {
                        assert(heads@[j] == longer[j]);
                    }
                }
            }
        }
        let mut i: usize = 0;
        assert(heads@ =~= middle + shorter_heads(snakes@, you_i as int, 0));
        while i < snakes.len()
            invariant
                i <= snakes@.len(),
                snakes_on_board(self@, snakes@, you_i as int),
                0 <= you_i < snakes@.len(),
                you_len == snakes@[you_i as int].body@.len(),
                heads@ == middle + shorter_heads(snakes@, you_i as int, i as int),
                near_heads_on_board(snakes@, you_i as int) ==> heads_on_board(heads@),
            decreases snakes@.len() - i,
        {
            let s = &snakes[i];
            if i as i8 != you_i && s.body.len() < you_len {
                let ghost before = heads@;
                heads.push((i as i8, s.head()));
                assert(heads@ =~= middle + shorter_heads(snakes@, you_i as int, i + 1));
                proof {
                    if near_heads_on_board(snakes@, you_i as int) {
                        assert(on_board(snakes@[i as int].body@[0]));
                        assert forall|j: int| 0 <= j < heads@.len() implies on_board(
                            (#[trigger] heads@[j]).1,
                        ) && heads@[j].0 >= 0 by {
                            if j < before.len() {
                                assert(heads@[j] == before[j]);
                            }
                        }
                    }
                }
            }
            i = i + 1;
        }
        heads
    }

    /// The board once the snake has stepped to `step`: `step` becomes an obstacle, then
    /// the tails are freed, then the cells of `heads` become obstacles.
    fn staged(&self, snakes: &[CSnake], heads: &Vec<(i8, Vec2D)>, step: Vec2D) -> (g: Grid)
        requires
            tails_on_board(snakes@),
            heads_on_board(heads@),
            on_board(step),
        ensures
            g@ == stage(self@, snakes@, heads@, step),
    {
        let mut g = self.clone();
        g.set(step, BOARD_OBSTACLE);
        assert forall|q: Vec2D| on_board(q) implies #[trigger] g.at(q) == if q == step {
            BOARD_OBSTACLE
        } else {
            self.at(q)
        } by {
            lemma_cell_index_injective(q, step);
        }
        let mut t: usize = 0;
        while t < snakes.len()
            invariant
                t <= snakes@.len(),
                tails_on_board(snakes@),
                forall|q: Vec2D|
                    on_board(q) ==> #[trigger] g.at(q) == if is_tail(snakes@, t as int, q) {
                        BOARD_FREE
                    } else if q == step {
                        BOARD_OBSTACLE
                    } else {
                        self.at(q)
                    },
            decreases snakes@.len() - t,
        {
            let snake = &snakes[t];
            let tail = snake.body[snake.body.len() - 1];
            let ghost before = g;
            g.set(tail, BOARD_FREE);
            proof {
                assert(snakes@[t as int].body@.last() == tail);
                assert forall|q: Vec2D| on_board(q) implies #[trigger] g.at(q) == if is_tail(
                    snakes@,
                    t + 1,
                    q,
                ) {
                    BOARD_FREE
                } else if q == step {
                    BOARD_OBSTACLE
                } else {
                    self.at(q)
                } by {
                    lemma_cell_index_injective(q, tail);
                    assert(before.at(q) == if is_tail(snakes@, t as int, q) {
                        BOARD_FREE
                    } else if q == step {
                        BOARD_OBSTACLE
                    } else {
                        self.at(q)
                    });
                    if is_tail(snakes@, t as int, q) {
                        let s = choose|s: int|
                            0 <= s < t && s < snakes@.len() && (#[trigger] snakes@[s]).body@.len()
                                > 0 && snakes@[s].body@.last() == q;
                        assert(snakes@[s].body@.last() == q);
                    }
                    if is_tail(snakes@, t + 1, q) && q != tail {
                        let s = choose|s: int|
                            0 <= s < t + 1 && s < snakes@.len() && (
                            #[trigger] snakes@[s]).body@.len() > 0 && snakes@[s].body@.last() == q;
                        assert(snakes@[s].body@.last() == q);
                    }
                }
            }
            t = t + 1;
        }
        let mut h: usize = 0;
        while h < heads.len()
            invariant
                h <= heads@.len(),
                heads_on_board(heads@),
                forall|q: Vec2D|
                    on_board(q) ==> #[trigger] g.at(q) == if queued(heads@.take(h as int), q) {
                        BOARD_OBSTACLE
                    } else if is_tail(snakes@, snakes@.len() as int, q) {
                        BOARD_FREE
                    } else if q == step {
                        BOARD_OBSTACLE
                    } else {
                        self.at(q)
                    },
            decreases heads@.len() - h,
        {
            let p = heads[h].1;
            let ghost before = g;
            g.set(p, BOARD_OBSTACLE);
            proof {
                let now = heads@.take(h + 1);
                let was = heads@.take(h as int);
                assert(now[h as int].1 == p);
                assert forall|q: Vec2D| on_board(q) implies #[trigger] g.at(q) == if queued(now, q) {
                    BOARD_OBSTACLE
                } else if is_tail(snakes@, snakes@.len() as int, q) {
                    BOARD_FREE
                } else if q == step {
                    BOARD_OBSTACLE
                } else {
                    self.at(q)
                } by {
                    lemma_cell_index_injective(q, p);
                    assert(before.at(q) == if queued(was, q) {
                        BOARD_OBSTACLE
                    } else if is_tail(snakes@, snakes@.len() as int, q) {
                        BOARD_FREE
                    } else if q == step {
                        BOARD_OBSTACLE
                    } else {
                        self.at(q)
                    });
                    if queued(was, q) {
                        let j = choose|j: int| 0 <= j < was.len() && (#[trigger] was[j]).1 == q;
                        assert(now[j].1 == q);
                    }
                    if queued(now, q) && q != p {
                        let j = choose|j: int| 0 <= j < now.len() && (#[trigger] now[j]).1 == q;
                        assert(was[j].1 == q);
                    }
                }
            }
            h = h + 1;
        }
        proof {
            assert(heads@.take(heads@.len() as int) =~= heads@);
            let target = stage(self@, snakes@, heads@, step);
            assert forall|i: int| 0 <= i < BOARD_CELLS implies g@[i] == target[i] by {
                lemma_cell_at(i);
                assert(g.at(cell_at(i)) == g@[i]);
            }
            assert(g@ =~= target);
        }
        g
    }

    /// The seeds of the fill after the move `step` of the snake labelled `you_i`.
    fn spread_seeds(heads: &Vec<(i8, Vec2D)>, you_i: i8, step: Direction) -> (seeds: Vec<
        (i8, Vec2D),
    >)
        requires
            heads_on_board(heads@),
            forall|j: int|
                0 <= j < heads@.len() && (#[trigger] heads@[j]).0 == you_i ==> on_board(
                    heads@[j].1.neighbour(step),
                ),
        ensures
            seeds@ == spread(heads@, you_i, step, 4 * heads@.len() as int),
            forall|j: int| 0 <= j < seeds@.len() ==> (#[trigger] seeds@[j]).0 != BOARD_FREE,
    {
        let dirs = Direction::all();
        let mut seeds: Vec<(i8, Vec2D)> = Vec::new();
        let mut h: usize = 0;
        assert(seeds@ =~= spread(heads@, you_i, step, 0));
        while h < heads.len()
            invariant
                h <= heads@.len(),
                dirs@ == Direction::every(),
                heads_on_board(heads@),
                forall|j: int|
                    0 <= j < heads@.len() && (#[trigger] heads@[j]).0 == you_i ==> on_board(
                        heads@[j].1.neighbour(step),
                    ),
                seeds@ == spread(heads@, you_i, step, 4 * h),
                forall|j: int| 0 <= j < seeds@.len() ==> (#[trigger] seeds@[j]).0 != BOARD_FREE,
            decreases heads@.len() - h,
        {
            let e = heads[h];
            let from = if e.0 == you_i {
                e.1.apply(step)
            } else {
                e.1
            };
            let mut k: usize = 0;
            while k < 4
                invariant
                    k <= 4,
                    h < heads@.len(),
                    dirs@ == Direction::every(),
                    e == heads@[h as int],
                    e.0 >= 0,
                    on_board(from),
                    from == if e.0 == you_i {
                        e.1.neighbour(step)
                    } else {
                        e.1
                    },
                    seeds@ == spread(heads@, you_i, step, 4 * h + k),
                    forall|j: int| 0 <= j < seeds@.len() ==> (#[trigger] seeds@[j]).0 != BOARD_FREE,
                decreases 4 - k,
            {
                let ghost before = seeds@;
                seeds.push((e.0, from.apply(dirs[k])));
                proof {
                    let n = 4 * h + k;
                    assert(n / 4 == h && n % 4 == k);
                    assert(seeds@ =~= spread(heads@, you_i, step, n + 1));
                    assert forall|j: int| 0 <= j < seeds@.len() implies (#[trigger] seeds@[j]).0
                        != BOARD_FREE by {
                        if j < before.len() {
                            assert(seeds@[j] == before[j]);
                        }
                    }
                }
                k = k + 1;
            }
            h = h + 1;
        }
        seeds
    }

    /// For each direction, the number of cells that snake `you_i` owns after moving
    /// its head there, when the board is filled from the heads as they stand after
    /// the move; 0 for a direction that leads off the board or into an obstacle.
    ///
    /// A snake is labelled with its position in `snakes`. Snakes that are not shorter
    /// than `you_i` are taken to move to every open cell next to their heads; their
    /// heads may lie off the board. Where `you_i` has no open move at all, the tails
    /// and the other heads may lie anywhere.
    pub fn space_after_move(&self, you_i: i8, snakes: &[CSnake]) -> (space: [usize; 4])
        requires
            snakes_on_board(self@, snakes@, you_i as int),
            0 <= you_i < snakes@.len(),
        ensures
            forall|d: Direction| #[trigger]
                space@[d.code()] == space_after(self@, snakes@, you_i as int, d),
            forall|d: Direction| #[trigger] space@[d.code()] <= BOARD_CELLS,
    {
        let head = snakes[you_i as usize].head();
        let taken = self.collect_next_heads(you_i, snakes);
        let dirs = Direction::all();
        let mut space: [usize; 4] = [0;4];
        let mut k: usize = 0;
        while k < 4
            invariant
                k <= 4,
                dirs@ == Direction::every(),
                snakes_on_board(self@, snakes@, you_i as int),
                0 <= you_i < snakes@.len(),
                head == snakes@[you_i as int].body@[0],
                taken@ == next_heads(self@, snakes@, you_i as int),
                near_heads_on_board(snakes@, you_i as int) ==> heads_on_board(taken@),
                forall|j: int|
                    0 <= j < k ==> #[trigger] space@[j] == space_after(
                        self@,
                        snakes@,
                        you_i as int,
                        Direction::every()[j],
                    ),
                forall|j: int| k <= j < 4 ==> #[trigger] space@[j] == 0,
                forall|j: int| 0 <= j < 4 ==> #[trigger] space@[j] <= BOARD_CELLS,
            decreases 4 - k,
        {
            let dir = dirs[k];
            let p = head.apply(dir);
            if self.avaliable(p) {
                assert(open_at(self@, snakes@[you_i as int].body@[0].neighbour(dir)));
                assert(move_open(self@, snakes@, you_i as int));
                let mut next_grid = self.staged(snakes, &taken, p);
                assert forall|j: int|
                    0 <= j < taken@.len() && (#[trigger] taken@[j]).0 == you_i implies on_board(
                    taken@[j].1.neighbour(dir),
                ) by {
                    lemma_next_heads_you(self@, snakes@, you_i as int, j);
                }
                let seeds = Self::spread_seeds(&taken, you_i, dir);
                next_grid.flood_fill(seeds.as_slice());
                space[k] = next_grid.count(you_i);
            }
            k = k + 1;
        }
        proof {
            assert forall|d: Direction| #[trigger]
                space@[d.code()] == space_after(self@, snakes@, you_i as int, d) by {
                assert(Direction::every()[d.code()] == d);
            }
        }
        space
    }
}

/// Among the heads after the next move only the head of `you` carries its label.
pub proof fn lemma_next_heads_you(cells: Seq<i8>, snakes: Seq<CSnake>, you: int, j: int)
    requires
        snakes.len() <= 128,
        0 <= you < snakes.len(),
        0 <= j < next_heads(cells, snakes, you).len(),
        next_heads(cells, snakes, you)[j].0 == you as i8,
    ensures
        next_heads(cells, snakes, you)[j].1 == snakes[you].body@[0],
{
    let n = snakes.len() as int;
    let longer = longer_heads(cells, snakes, you, n);
    let shorter = shorter_heads(snakes, you, n);
    lemma_longer_labels(cells, snakes, you, n);
    lemma_shorter_labels(snakes, you, n);
    if j < longer.len() {
        assert(next_heads(cells, snakes, you)[j] == longer[j]);
    } else if j > longer.len() {
        assert(next_heads(cells, snakes, you)[j] == shorter[j - longer.len() - 1]);
    }
}

/// No entry for the snakes that are not shorter carries the label of `you`.
pub proof fn lemma_longer_labels(cells: Seq<i8>, snakes: Seq<CSnake>, you: int, n: int)
    requires
        snakes.len() <= 128,
        0 <= you < snakes.len(),
        n <= snakes.len(),
    ensures
        forall|j: int|
            0 <= j < longer_heads(cells, snakes, you, n).len() ==> (#[trigger] longer_heads(
                cells,
                snakes,
                you,
                n,
            )[j]).0 != you as i8,
    decreases n,
{
    if n > 0 {
        lemma_longer_labels(cells, snakes, you, n - 1);
        let prev = longer_heads(cells, snakes, you, n - 1);
        let s = snakes[n - 1];
        if n - 1 != you && s.body@.len() >= snakes[you].body@.len() {
            lemma_keep_open_around(cells, (n - 1) as i8, s.body@[0]);
            let more = keep_open(cells, around((n - 1) as i8, s.body@[0]));
            assert forall|j: int| 0 <= j < (prev + more).len() implies (#[trigger] (prev + more)[j]).0
                != you as i8 by {
                if j < prev.len() {
                    assert((prev + more)[j] == prev[j]);
                } else {
                    assert((prev + more)[j] == more[j - prev.len()]);
                }
            }
        }
    }
}

/// No entry for the shorter snakes carries the label of `you`.
pub proof fn lemma_shorter_labels(snakes: Seq<CSnake>, you: int, n: int)
    requires
        snakes.len() <= 128,
        0 <= you < snakes.len(),
        n <= snakes.len(),
    ensures
        forall|j: int|
            0 <= j < shorter_heads(snakes, you, n).len() ==> (#[trigger] shorter_heads(
                snakes,
                you,
                n,
            )[j]).0 != you as i8,
    decreases n,
{
    if n > 0 {
        lemma_shorter_labels(snakes, you, n - 1);
        let prev = shorter_heads(snakes, you, n - 1);
        let now = shorter_heads(snakes, you, n);
        assert forall|j: int| 0 <= j < now.len() implies (#[trigger] now[j]).0 != you as i8 by {
            if j < prev.len() {
                assert(now[j] == prev[j]);
            }
        }
    }
}

/// Every kept entry around `p` carries `label`.
pub proof fn lemma_keep_open_around(cells: Seq<i8>, label: i8, p: Vec2D)
    ensures
        forall|j: int|
            0 <= j < keep_open(cells, around(label, p)).len() ==> (#[trigger] keep_open(
                cells,
                around(label, p),
            )[j]).0 == label,
{
    let a = around(label, p);
    let pred = |e: (i8, Vec2D)| open_at(cells, e.1);
    let f = keep_open(cells, a);
    assert(f == a.filter(pred));
    assert forall|j: int| 0 <= j < f.len() implies (#[trigger] f[j]).0 == label by {
        assert(f.contains(f[j]));
        a.lemma_filter_contains_rev(pred, f[j]);
        let k = choose|k: int| 0 <= k < a.len() && a[k] == f[j];
        assert(a[k].0 == label);
    }
}

} // verus!
