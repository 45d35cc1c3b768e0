//! Path search on the board.

use crate::agents::queue::{queue_new, queue_pop, queue_push, waiting};
use crate::agents::util::{cell_index, on_board, open_at, Grid, BOARD_CELLS, BOARD_SIZE};
use crate::env::{Direction, Vec2D};
use vstd::prelude::*;

verus! {

/// The cost of a cell that the search has not come to.
pub const UNSEEN: u64 = 0xffff_ffff_ffff_ffff;

/// The cost of one step, in tenths.
pub const STEP_COST: u64 = 10;

/// More than any cost that the search can give a cell.
pub const FAR: u64 = 4294968506;

/// Whether `walk` leads from its first cell to its last over cells that are no
/// obstacles, each a neighbour of the one before. The first cell may be anything.
pub open spec fn is_walk(cells: Seq<i8>, walk: Seq<Vec2D>) -> bool {
    &&& walk.len() >= 1
    &&& forall|k: int|
        1 <= k < walk.len() ==> open_at(cells, #[trigger] walk[k]) && walk[k - 1].adjacent(walk[k])
}

/// Whether a walk leads from `start` to `target`.
pub open spec fn reachable(cells: Seq<i8>, start: Vec2D, target: Vec2D) -> bool {
    exists|walk: Seq<Vec2D>|
        #[trigger] is_walk(cells, walk) && walk[0] == start && walk.last() == target
}

/// Whether no cell comes twice in `walk`.
pub open spec fn no_cell_twice(walk: Seq<Vec2D>) -> bool {
    forall|a: int, b: int| 0 <= a < b < walk.len() ==> walk[a] != walk[b]
}

/// The walk that a path stands for: the path itself, or the path behind `start`
/// where `start` lies left of the board and is left out of the path.
pub open spec fn walk_of(start: Vec2D, path: Seq<Vec2D>) -> Seq<Vec2D> {
    if start.x < 0 {
        seq![start] + path
    } else {
        path
    }
}

/// The cell as the queue holds it.
pub open spec fn key(p: Vec2D) -> (i16, i16) {
    (p.x, p.y)
}

/// The cell that the queue holds as `c`.
pub open spec fn cell_of(c: (i16, i16)) -> Vec2D {
    Vec2D { x: c.0, y: c.1 }
}

/// Whether the search has come to `p`.
pub open spec fn seen(costs: Seq<u64>, start: Vec2D, p: Vec2D) -> bool {
    p == start || (on_board(p) && costs[cell_index(p)] != UNSEEN)
}

/// The cost at which the search has come to `p`.
pub open spec fn cost_at(costs: Seq<u64>, start: Vec2D, p: Vec2D) -> u64 {
    if p == start {
        0
    } else {
        costs[cell_index(p)]
    }
}

/// Whether the search has come to every open neighbour of `p`.
pub open spec fn closed(cells: Seq<i8>, costs: Seq<u64>, start: Vec2D, p: Vec2D) -> bool {
    forall|d: Direction|
        open_at(cells, #[trigger] p.neighbour(d)) ==> seen(costs, start, p.neighbour(d))
}

/// The number of cells that the search has not come to.
pub open spec fn unseen_count(costs: Seq<u64>) -> nat
    decreases costs.len(),
{
    if costs.len() == 0 {
        0
    } else {
        unseen_count(costs.drop_last()) + if costs.last() == UNSEEN {
            1nat
        } else {
            0nat
        }
    }
}

/// What a cost counts for in the measure of the work that is left.
pub open spec fn load(cost: u64) -> nat {
    if cost == UNSEEN {
        FAR as nat
    } else {
        cost as nat
    }
}

/// The work that is left: the sum of the costs, an unseen cell counting as `FAR`.
pub open spec fn weight(costs: Seq<u64>) -> nat
    decreases costs.len(),
{
    if costs.len() == 0 {
        0
    } else {
        weight(costs.drop_last()) + load(costs.last())
    }
}

proof fn lemma_unseen_update(costs: Seq<u64>, i: int, v: u64)
    requires
        0 <= i < costs.len(),
    ensures
        unseen_count(costs.update(i, v)) + (if costs[i] == UNSEEN { 1nat } else { 0nat })
            == unseen_count(costs) + (if v == UNSEEN { 1nat } else { 0nat }),
        unseen_count(costs) <= costs.len(),
        costs[i] == UNSEEN ==> unseen_count(costs) >= 1,
    decreases costs.len(),
{
    let t = costs.update(i, v);
    if i == costs.len() - 1 {
        assert(t.drop_last() =~= costs.drop_last());
        if costs.len() > 1 {
            lemma_unseen_update(costs.drop_last(), 0, costs[0]);
        }
    } else {
        assert(t.drop_last() =~= costs.drop_last().update(i, v));
        lemma_unseen_update(costs.drop_last(), i, v);
    }
}

proof fn lemma_weight_update(costs: Seq<u64>, i: int, v: u64)
    requires
        0 <= i < costs.len(),
    ensures
        weight(costs.update(i, v)) + load(costs[i]) == weight(costs) + load(v),
    decreases costs.len(),
{
    let t = costs.update(i, v);
    if i == costs.len() - 1 {
        assert(t.drop_last() =~= costs.drop_last());
    } else {
        assert(t.drop_last() =~= costs.drop_last().update(i, v));
        lemma_weight_update(costs.drop_last(), i, v);
    }
}

/// Whether every cost is bounded by the number of cells seen.
#[verifier::opaque]
pub open spec fn bounded(costs: Seq<u64>) -> bool {
    forall|i: int|
        0 <= i < BOARD_CELLS && #[trigger] costs[i] != UNSEEN ==> costs[i] <= 0xffff_ffff + 10 * (
        BOARD_CELLS - unseen_count(costs))
}

/// Whether every seen cell but the start is open and was reached from a seen
/// neighbour that costs at least a step less.
#[verifier::opaque]
pub open spec fn rooted(cells: Seq<i8>, start: Vec2D, costs: Seq<u64>, parents: Seq<Vec2D>) -> bool {
    forall|p: Vec2D|
        on_board(p) && p != start && #[trigger] costs[cell_index(p)] != UNSEEN ==> {
            &&& open_at(cells, p)
            &&& seen(costs, start, parents[cell_index(p)])
            &&& parents[cell_index(p)].adjacent(p)
            &&& cost_at(costs, start, parents[cell_index(p)]) + STEP_COST <= costs[cell_index(p)]
        }
}

/// Whether all that waits in the queue is seen.
#[verifier::opaque]
pub open spec fn queue_seen(costs: Seq<u64>, start: Vec2D, queue: Map<(i16, i16), u64>) -> bool {
    forall|c: (i16, i16)| #[trigger] queue.contains_key(c) ==> seen(costs, start, cell_of(c))
}

/// What the search keeps true of its records: the start costs nothing; the costs are
/// bounded; the seen cells are rooted; what waits in the queue is seen; and the
/// target, once seen, waits.
pub open spec fn search_inv(
    cells: Seq<i8>,
    start: Vec2D,
    target: Vec2D,
    costs: Seq<u64>,
    parents: Seq<Vec2D>,
    queue: Map<(i16, i16), u64>,
) -> bool {
    &&& cells.len() == BOARD_CELLS
    &&& costs.len() == BOARD_CELLS
    &&& parents.len() == BOARD_CELLS
    &&& start.can_step()
    &&& queue.dom().finite()
    &&& on_board(start) ==> costs[cell_index(start)] == 0
    &&& bounded(costs)
    &&& rooted(cells, start, costs, parents)
    &&& queue_seen(costs, start, queue)
    &&& seen(costs, start, target) ==> queue.contains_key(key(target))
}

/// Every seen cell other than `busy` waits in the queue or has all its open
/// neighbours seen.
#[verifier::opaque]
pub open spec fn covered(
    cells: Seq<i8>,
    start: Vec2D,
    costs: Seq<u64>,
    queue: Map<(i16, i16), u64>,
    busy: Option<Vec2D>,
) -> bool {
    forall|p: Vec2D|
        #[trigger] seen(costs, start, p) && busy != Some(p) ==> queue.contains_key(key(p))
            || closed(cells, costs, start, p)
}

/// Where every seen cell has all its open neighbours seen, every walk from the start
/// ends in a seen cell.
proof fn lemma_walk_stays_seen(cells: Seq<i8>, start: Vec2D, costs: Seq<u64>, walk: Seq<Vec2D>)
    requires
        forall|p: Vec2D| #[trigger] seen(costs, start, p) ==> closed(cells, costs, start, p),
        is_walk(cells, walk),
        walk[0] == start,
    ensures
        seen(costs, start, walk.last()),
    decreases walk.len(),
{
    if walk.len() > 1 {
        let before = walk.drop_last();
        assert(is_walk(cells, before)) by {
            assert forall|k: int| 1 <= k < before.len() implies open_at(cells, #[trigger] before[k])
                && before[k - 1].adjacent(before[k]) by {
                assert(before[k] == walk[k]);
                assert(before[k - 1] == walk[k - 1]);
            }
        }
        lemma_walk_stays_seen(cells, start, costs, before);
        let a = before.last();
        let b = walk.last();
        let k = walk.len() - 1;
        assert(walk[k - 1] == a && walk[k] == b);
        assert(open_at(cells, walk[k]) && walk[k - 1].adjacent(walk[k]));
        let d = choose|d: Direction| a.can_step() && #[trigger] a.neighbour(d) == b;
        assert(closed(cells, costs, start, a));
        assert(open_at(cells, a.neighbour(d)));
    }
}

/// Whether the open neighbour of the seen cell `front` in direction `d` can be
/// reached from `front` at a lower cost than it has.
pub open spec fn relaxable(
    cells: Seq<i8>,
    start: Vec2D,
    costs: Seq<u64>,
    front: Vec2D,
    d: Direction,
    extra: u32,
) -> bool {
    &&& costs.len() == BOARD_CELLS
    &&& start.can_step()
    &&& on_board(start) ==> costs[cell_index(start)] == 0
    &&& seen(costs, start, front)
    &&& open_at(cells, front.neighbour(d))
    &&& extra > 0 ==> front == start
    &&& cost_at(costs, start, front) + STEP_COST + extra < costs[cell_index(front.neighbour(d))]
}

/// The cost that the neighbour gets.
pub open spec fn relaxed_cost(costs: Seq<u64>, start: Vec2D, front: Vec2D, extra: u32) -> u64 {
    (cost_at(costs, start, front) + STEP_COST + extra) as u64
}

/// The costs once the neighbour has its lower cost.
pub open spec fn relaxed(costs: Seq<u64>, start: Vec2D, front: Vec2D, d: Direction, extra: u32) -> Seq<
    u64,
> {
    costs.update(cell_index(front.neighbour(d)), relaxed_cost(costs, start, front, extra))
}

proof fn lemma_relax_bounded(
    cells: Seq<i8>,
    start: Vec2D,
    costs: Seq<u64>,
    front: Vec2D,
    d: Direction,
    extra: u32,
)
    requires
        relaxable(cells, start, costs, front, d, extra),
        bounded(costs),
    ensures
        bounded(relaxed(costs, start, front, d, extra)),
        cost_at(costs, start, front) + STEP_COST + extra < FAR,
        relaxed_cost(costs, start, front, extra) != UNSEEN,
        weight(relaxed(costs, start, front, d, extra)) < weight(costs),
        front.neighbour(d) != start,
        front.neighbour(d) != front,
        forall|p: Vec2D|
            seen(costs, start, p) ==> #[trigger] seen(relaxed(costs, start, front, d, extra), start, p),
        seen(relaxed(costs, start, front, d, extra), start, front.neighbour(d)),
{
    reveal(bounded);
    let n = front.neighbour(d);
    let i = cell_index(n);
    let nc = relaxed_cost(costs, start, front, extra);
    let costs2 = relaxed(costs, start, front, d, extra);
    lemma_unseen_update(costs, i, nc);
    lemma_weight_update(costs, i, nc);
    assert(front.can_step());
    if front != start {
        assert(costs[cell_index(front)] != UNSEEN);
    }
    assert(nc <= 0xffff_ffff + 10 * (BOARD_CELLS - unseen_count(costs2)));
    assert forall|j: int| 0 <= j < BOARD_CELLS && #[trigger] costs2[j] != UNSEEN implies costs2[j]
        <= 0xffff_ffff + 10 * (BOARD_CELLS - unseen_count(costs2)) by {
        if j != i {
            assert(costs[j] != UNSEEN);
        }
    }
}

proof fn lemma_relax_rooted(
    cells: Seq<i8>,
    start: Vec2D,
    costs: Seq<u64>,
    parents: Seq<Vec2D>,
    front: Vec2D,
    d: Direction,
    extra: u32,
)
    requires
        relaxable(cells, start, costs, front, d, extra),
        bounded(costs),
        parents.len() == BOARD_CELLS,
        rooted(cells, start, costs, parents),
    ensures
        rooted(
            cells,
            start,
            relaxed(costs, start, front, d, extra),
            parents.update(cell_index(front.neighbour(d)), front),
        ),
{
    reveal(rooted);
    let n = front.neighbour(d);
    let costs2 = relaxed(costs, start, front, d, extra);
    let parents2 = parents.update(cell_index(n), front);
    lemma_relax_bounded(cells, start, costs, front, d, extra);
    assert forall|p: Vec2D|
        on_board(p) && p != start && #[trigger] costs2[cell_index(p)] != UNSEEN implies {
        &&& open_at(cells, p)
        &&& seen(costs2, start, parents2[cell_index(p)])
        &&& parents2[cell_index(p)].adjacent(p)
        &&& cost_at(costs2, start, parents2[cell_index(p)]) + STEP_COST <= costs2[cell_index(p)]
    } by {
        crate::agents::util::lemma_cell_index_injective(p, n);
        if p == n {
            assert(front.can_step() && front.neighbour(d) == p);
            assert(seen(costs2, start, front));
            if on_board(front) {
                crate::agents::util::lemma_cell_index_injective(front, n);
            }
        } else {
            let q = parents[cell_index(p)];
            assert(costs[cell_index(p)] != UNSEEN);
            assert(seen(costs, start, q));
            assert(seen(costs2, start, q));
            if on_board(q) {
                crate::agents::util::lemma_cell_index_injective(q, n);
            }
        }
    }
}

proof fn lemma_relax_queue(
    cells: Seq<i8>,
    start: Vec2D,
    target: Vec2D,
    costs: Seq<u64>,
    queue: Map<(i16, i16), u64>,
    front: Vec2D,
    d: Direction,
    extra: u32,
    est: u64,
)
    requires
        relaxable(cells, start, costs, front, d, extra),
        bounded(costs),
        queue_seen(costs, start, queue),
        seen(costs, start, target) ==> queue.contains_key(key(target)),
    ensures
        queue_seen(
            relaxed(costs, start, front, d, extra),
            start,
            queue.insert(key(front.neighbour(d)), est),
        ),
        seen(relaxed(costs, start, front, d, extra), start, target) ==> queue.insert(
            key(front.neighbour(d)),
            est,
        ).contains_key(key(target)),
{
    reveal(queue_seen);
    let n = front.neighbour(d);
    let costs2 = relaxed(costs, start, front, d, extra);
    let queue2 = queue.insert(key(n), est);
    lemma_relax_bounded(cells, start, costs, front, d, extra);
    assert forall|c: (i16, i16)| #[trigger] queue2.contains_key(c) implies seen(
        costs2,
        start,
        cell_of(c),
    ) by {
        if c == key(n) {
            assert(cell_of(c) == n);
        } else {
            assert(queue.contains_key(c));
            assert(seen(costs, start, cell_of(c)));
        }
    }
    if seen(costs2, start, target) && target != n {
        if on_board(target) {
            crate::agents::util::lemma_cell_index_injective(target, n);
        }
        assert(seen(costs, start, target));
    }
}

proof fn lemma_relax_covered(
    cells: Seq<i8>,
    start: Vec2D,
    costs: Seq<u64>,
    queue: Map<(i16, i16), u64>,
    front: Vec2D,
    d: Direction,
    extra: u32,
    est: u64,
)
    requires
        relaxable(cells, start, costs, front, d, extra),
        bounded(costs),
        covered(cells, start, costs, queue, Some(front)),
    ensures
        covered(
            cells,
            start,
            relaxed(costs, start, front, d, extra),
            queue.insert(key(front.neighbour(d)), est),
            Some(front),
        ),
{
    reveal(covered);
    let n = front.neighbour(d);
    let costs2 = relaxed(costs, start, front, d, extra);
    let queue2 = queue.insert(key(n), est);
    lemma_relax_bounded(cells, start, costs, front, d, extra);
    assert forall|p: Vec2D| #[trigger] seen(costs2, start, p) && Some(front) != Some(p) implies (
    queue2.contains_key(key(p)) || closed(cells, costs2, start, p)) by {
        if p != n {
            if on_board(p) {
                crate::agents::util::lemma_cell_index_injective(p, n);
            }
            assert(seen(costs, start, p));
            if !queue.contains_key(key(p)) {
                assert(closed(cells, costs, start, p));
                assert forall|e: Direction| open_at(cells, #[trigger] p.neighbour(e)) implies seen(
                    costs2,
                    start,
                    p.neighbour(e),
                ) by {
                    assert(seen(costs, start, p.neighbour(e)));
                }
            }
        }
    }
}

/// The cost of the step from `a` to its neighbour `b`: `STEP_COST`, and where the
/// step leaves `start` the cost of a first move in its direction besides.
pub open spec fn step_cost(first_move_cost: Seq<u32>, start: Vec2D, a: Vec2D, b: Vec2D) -> int {
    STEP_COST + if a != start {
        0
    } else if b == a.neighbour(Direction::Up) {
        first_move_cost[0] as int
    } else if b == a.neighbour(Direction::Down) {
        first_move_cost[1] as int
    } else if b == a.neighbour(Direction::Left) {
        first_move_cost[2] as int
    } else {
        first_move_cost[3] as int
    }
}

/// The cost of a walk: the sum of the costs of its steps. On a walk that leaves
/// `start` but once, as every walk does on which no cell comes twice, that is
/// `STEP_COST` for each step and the cost of the first move.
pub open spec fn way_cost(first_move_cost: Seq<u32>, start: Vec2D, walk: Seq<Vec2D>) -> int
    decreases walk.len(),
{
    if walk.len() <= 1 {
        0
    } else {
        way_cost(first_move_cost, start, walk.drop_last()) + step_cost(
            first_move_cost,
            start,
            walk[walk.len() - 2],
            walk.last(),
        )
    }
}

/// The cost of the way back `back` when it is gone from its end to its beginning.
pub open spec fn back_cost(first_move_cost: Seq<u32>, start: Vec2D, back: Seq<Vec2D>) -> int
    decreases back.len(),
{
    if back.len() <= 1 {
        0
    } else {
        step_cost(first_move_cost, start, back[1], back[0]) + back_cost(
            first_move_cost,
            start,
            back.drop_first(),
        )
    }
}

/// Whether every seen cell but the start costs at least what the cell it was
/// reached from costs and the step from there.
#[verifier::opaque]
pub open spec fn priced(
    first_move_cost: Seq<u32>,
    start: Vec2D,
    costs: Seq<u64>,
    parents: Seq<Vec2D>,
) -> bool {
    forall|p: Vec2D|
        on_board(p) && p != start && #[trigger] costs[cell_index(p)] != UNSEEN ==> cost_at(
            costs,
            start,
            parents[cell_index(p)],
        ) + step_cost(first_move_cost, start, parents[cell_index(p)], p) <= costs[cell_index(p)]
}

/// Whether every cell waits in the queue at its cost plus ten times its distance
/// from the start.
#[verifier::opaque]
pub open spec fn queue_est(start: Vec2D, costs: Seq<u64>, queue: Map<(i16, i16), u64>) -> bool {
    forall|c: (i16, i16)| #[trigger]
        queue.contains_key(c) ==> queue[c] == cost_at(costs, start, cell_of(c)) + STEP_COST * apart(
            cell_of(c),
            start,
        )
}

/// Whether every open neighbour of `p` is seen and costs no more than `p` and the
/// step from `p` to it.
pub open spec fn cheap_around(
    cells: Seq<i8>,
    first_move_cost: Seq<u32>,
    start: Vec2D,
    costs: Seq<u64>,
    p: Vec2D,
) -> bool {
    forall|d: Direction|
        open_at(cells, #[trigger] p.neighbour(d)) ==> seen(costs, start, p.neighbour(d)) && cost_at(
            costs,
            start,
            p.neighbour(d),
        ) <= cost_at(costs, start, p) + step_cost(first_move_cost, start, p, p.neighbour(d))
}

/// Whether `cheap_around` holds of every seen cell that neither waits in the queue
/// nor is `busy`.
#[verifier::opaque]
pub open spec fn edges_done(
    cells: Seq<i8>,
    first_move_cost: Seq<u32>,
    start: Vec2D,
    costs: Seq<u64>,
    queue: Map<(i16, i16), u64>,
    busy: Option<Vec2D>,
) -> bool {
    forall|p: Vec2D|
        #[trigger] seen(costs, start, p) && busy != Some(p) && !queue.contains_key(key(p))
            ==> cheap_around(cells, first_move_cost, start, costs, p)
}

/// A step costs `STEP_COST` and, from the start, the cost of the first move in its
/// direction; and it takes a cell no more than one step nearer to the start.
proof fn lemma_step(first_move_cost: Seq<u32>, start: Vec2D, a: Vec2D, d: Direction)
    requires
        a.can_step(),
    ensures
        step_cost(first_move_cost, start, a, a.neighbour(d)) == STEP_COST + if a == start {
            first_move_cost[d.code()] as int
        } else {
            0
        },
        apart(a, start) <= apart(a.neighbour(d), start) + 1,
{
}

/// A walk costs what it costs up to its last cell but one and the last step.
proof fn lemma_way_take(first_move_cost: Seq<u32>, start: Vec2D, w: Seq<Vec2D>, m: int)
    requires
        1 <= m < w.len(),
    ensures
        way_cost(first_move_cost, start, w.take(m + 1)) == way_cost(
            first_move_cost,
            start,
            w.take(m),
        ) + step_cost(first_move_cost, start, w[m - 1], w[m]),
{
    assert(w.take(m + 1).drop_last() =~= w.take(m));
}

/// Along a walk the cost plus ten times the distance from the start never falls.
proof fn lemma_potential(
    cells: Seq<i8>,
    first_move_cost: Seq<u32>,
    start: Vec2D,
    w: Seq<Vec2D>,
    j: int,
    m: int,
)
    requires
        is_walk(cells, w),
        0 <= j <= m < w.len(),
    ensures
        way_cost(first_move_cost, start, w.take(j + 1)) + STEP_COST * apart(w[j], start)
            <= way_cost(first_move_cost, start, w.take(m + 1)) + STEP_COST * apart(w[m], start),
    decreases m - j,
{
    if j < m {
        lemma_potential(cells, first_move_cost, start, w, j, m - 1);
        lemma_way_take(first_move_cost, start, w, m);
        assert(open_at(cells, w[m]) && w[m - 1].adjacent(w[m]));
        let d = choose|d: Direction| w[m - 1].can_step() && #[trigger] w[m - 1].neighbour(d) == w[m];
        lemma_step(first_move_cost, start, w[m - 1], d);
    }
}

/// Along a walk from the start there is a cell that costs no more than the walk up
/// to it and that waits in the queue, unless the last cell itself costs no more than
/// the walk and does not wait.
proof fn lemma_reach_queue(
    cells: Seq<i8>,
    first_move_cost: Seq<u32>,
    start: Vec2D,
    costs: Seq<u64>,
    queue: Map<(i16, i16), u64>,
    w: Seq<Vec2D>,
    m: int,
) -> (j: int)
    requires
        edges_done(cells, first_move_cost, start, costs, queue, None),
        is_walk(cells, w),
        w[0] == start,
        0 <= m < w.len(),
    ensures
        0 <= j <= m,
        seen(costs, start, w[j]),
        cost_at(costs, start, w[j]) <= way_cost(first_move_cost, start, w.take(j + 1)),
        queue.contains_key(key(w[j])) || j == m,
    decreases m,
{
    if m == 0 {
        assert(w.take(1).len() == 1);
        assert(way_cost(first_move_cost, start, w.take(1)) == 0);
        0
    } else {
        let j = lemma_reach_queue(cells, first_move_cost, start, costs, queue, w, m - 1);
        if queue.contains_key(key(w[j])) {
            j
        } else {
            reveal(edges_done);
            lemma_way_take(first_move_cost, start, w, m);
            assert(open_at(cells, w[m]) && w[m - 1].adjacent(w[m]));
            let d = choose|d: Direction|
                w[m - 1].can_step() && #[trigger] w[m - 1].neighbour(d) == w[m];
            assert(cheap_around(cells, first_move_cost, start, costs, w[m - 1]));
            assert(open_at(cells, w[m - 1].neighbour(d)));
            m
        }
    }
}

/// The cell that leaves the queue first costs no more than any walk to it.
proof fn lemma_popped_is_best(
    cells: Seq<i8>,
    first_move_cost: Seq<u32>,
    start: Vec2D,
    costs: Seq<u64>,
    queue: Map<(i16, i16), u64>,
    cell: (i16, i16),
    w: Seq<Vec2D>,
)
    requires
        queue_est(start, costs, queue),
        edges_done(cells, first_move_cost, start, costs, queue, None),
        queue.contains_key(cell),
        forall|other: (i16, i16)| queue.contains_key(other) ==> queue[cell] <= #[trigger] queue[other],
        is_walk(cells, w),
        w[0] == start,
        w.last() == cell_of(cell),
    ensures
        cost_at(costs, start, cell_of(cell)) <= way_cost(first_move_cost, start, w),
{
    let last = w.len() - 1;
    let j = lemma_reach_queue(cells, first_move_cost, start, costs, queue, w, last);
    assert(w.take(last + 1) =~= w);
    if queue.contains_key(key(w[j])) {
        reveal(queue_est);
        lemma_potential(cells, first_move_cost, start, w, j, last);
        assert(cell_of(key(w[j])) == w[j]);
        assert(queue[cell] <= queue[key(w[j])]);
    }
}

/// The way back with one cell more costs what it cost and the step from that cell
/// to the one that was its last.
proof fn lemma_back_push(first_move_cost: Seq<u32>, start: Vec2D, back: Seq<Vec2D>, p: Vec2D)
    requires
        back.len() >= 1,
    ensures
        back_cost(first_move_cost, start, back.push(p)) == back_cost(first_move_cost, start, back)
            + step_cost(first_move_cost, start, p, back.last()),
    decreases back.len(),
{
    let more = back.push(p);
    if back.len() == 1 {
        assert(more.drop_first().len() == 1);
        assert(back_cost(first_move_cost, start, more.drop_first()) == 0);
    } else {
        assert(more.drop_first() =~= back.drop_first().push(p));
        lemma_back_push(first_move_cost, start, back.drop_first(), p);
    }
}

/// A walk costs what the way back costs that is the walk read from its end.
proof fn lemma_back_is_way(first_move_cost: Seq<u32>, start: Vec2D, back: Seq<Vec2D>, walk: Seq<Vec2D>)
    requires
        walk.len() == back.len(),
        forall|j: int| 0 <= j < walk.len() ==> #[trigger] walk[j] == back[back.len() - 1 - j],
    ensures
        way_cost(first_move_cost, start, walk) == back_cost(first_move_cost, start, back),
    decreases walk.len(),
{
    if walk.len() > 1 {
        let n = walk.len() as int;
        let less = walk.drop_last();
        let rest = back.drop_first();
        assert forall|j: int| 0 <= j < less.len() implies #[trigger] less[j] == rest[rest.len() - 1
            - j] by {
            assert(less[j] == walk[j]);
        }
        lemma_back_is_way(first_move_cost, start, rest, less);
        assert(walk[n - 2] == back[1]);
        assert(walk[n - 1] == back[0]);
    }
}

/// The way back, with the start at its end where the start lies left of the board.
pub open spec fn whole_back(start: Vec2D, back: Seq<Vec2D>) -> Seq<Vec2D> {
    if start.x < 0 {
        back.push(start)
    } else {
        back
    }
}

/// The position of the cell `p` in the records of the search.
fn slot(p: Vec2D) -> (i: usize)
    requires
        on_board(p),
    ensures
        i == cell_index(p),
        i < BOARD_CELLS,
{
    p.y as usize * BOARD_SIZE + p.x as usize
}

/// Ten times the manhattan distance of `p` from `start`.
fn distance_cost(p: Vec2D, start: Vec2D) -> (c: u64)
    ensures
        c == STEP_COST * apart(p, start),
{
    let dx: i64 = p.x as i64 - start.x as i64;
    let dy: i64 = p.y as i64 - start.y as i64;
    let ax: u64 = if dx < 0 {
        (-dx) as u64
    } else {
        dx as u64
    };
    let ay: u64 = if dy < 0 {
        (-dy) as u64
    } else {
        dy as u64
    };
    STEP_COST * (ax + ay)
}

/// The manhattan distance of `p` from `q`: the steps between them on a board
/// without obstacles.
pub open spec fn apart(p: Vec2D, q: Vec2D) -> int {
    (if p.x < q.x {
        q.x - p.x
    } else {
        p.x - q.x
    }) + (if p.y < q.y {
        q.y - p.y
    } else {
        p.y - q.y
    })
}

/// Whether `back` leads from `target` back towards `start`, each cell open and
/// reached from the next at a lower cost, up to `start` itself, or up to the cell
/// after it where `start` lies left of the board.
pub open spec fn leads_back(
    cells: Seq<i8>,
    first_move_cost: Seq<u32>,
    costs: Seq<u64>,
    start: Vec2D,
    target: Vec2D,
    back: Seq<Vec2D>,
) -> bool {
    &&& back_cost(first_move_cost, start, whole_back(start, back)) <= cost_at(costs, start, target)
    &&& back.len() == 0 ==> target == start && start.x < 0
    &&& back.len() > 0 ==> back[0] == target
    &&& forall|k: int|
        1 <= k < back.len() ==> (#[trigger] back[k]).adjacent(back[k - 1]) && open_at(
            cells,
            back[k - 1],
        )
    &&& start.x >= 0 ==> back.len() > 0 && back.last() == start
    &&& start.x < 0 && back.len() > 0 ==> start.adjacent(back.last()) && open_at(cells, back.last())
    &&& forall|a: int, b: int|
        0 <= a < b < back.len() ==> cost_at(costs, start, #[trigger] back[a]) > cost_at(
            costs,
            start,
            #[trigger] back[b],
        )
    &&& start.x < 0 ==> forall|k: int|
        0 <= k < back.len() ==> cost_at(costs, start, #[trigger] back[k]) > 0
}

/// The way back from `target` along the cells that each was reached from.
fn trace_back(
    costs: &Vec<u64>,
    parents: &Vec<Vec2D>,
    start: Vec2D,
    target: Vec2D,
    Ghost(cells): Ghost<Seq<i8>>,
    Ghost(queue): Ghost<Map<(i16, i16), u64>>,
    Ghost(first_move_cost): Ghost<Seq<u32>>,
) -> (back: Vec<Vec2D>)
    requires
        search_inv(cells, start, target, costs@, parents@, queue),
        priced(first_move_cost, start, costs@, parents@),
        seen(costs@, start, target),
    ensures
        leads_back(cells, first_move_cost, costs@, start, target, back@),
{
    let mut back: Vec<Vec2D> = Vec::new();
    let mut p = target;
    let mut done = false;
    while !done
        invariant
            search_inv(cells, start, target, costs@, parents@, queue),
            priced(first_move_cost, start, costs@, parents@),
            seen(costs@, start, p),
            back@.len() == 0 ==> p == target,
            back@.len() > 0 ==> back@[0] == target,
            !done && back@.len() > 0 ==> p.adjacent(back@.last()) && open_at(cells, back@.last()),
            !done && back@.len() > 0 ==> back_cost(first_move_cost, start, back@) + step_cost(
                first_move_cost,
                start,
                p,
                back@.last(),
            ) + cost_at(costs@, start, p) <= cost_at(costs@, start, target),
            done ==> back_cost(first_move_cost, start, whole_back(start, back@)) <= cost_at(
                costs@,
                start,
                target,
            ),
            forall|k: int|
                1 <= k < back@.len() ==> (#[trigger] back@[k]).adjacent(back@[k - 1]) && open_at(
                    cells,
                    back@[k - 1],
                ),
            done ==> p == start,
            done && start.x >= 0 ==> back@.len() > 0 && back@.last() == start,
            done && start.x < 0 && back@.len() > 0 ==> start.adjacent(back@.last()) && open_at(
                cells,
                back@.last(),
            ),
            forall|a: int, b: int|
                0 <= a < b < back@.len() ==> cost_at(costs@, start, #[trigger] back@[a]) > cost_at(
                    costs@,
                    start,
                    #[trigger] back@[b],
                ),
            !done || start.x < 0 ==> forall|k: int|
                0 <= k < back@.len() ==> cost_at(costs@, start, #[trigger] back@[k]) > cost_at(
                    costs@,
                    start,
                    p,
                ),
        decreases
                (if done {
                    0int
                } else {
                    1 + cost_at(costs@, start, p)
                }),
    {
        let ghost before = back@;
        let ghost from = p;
        let at_start = p == start;
        if at_start && start.x < 0 {
            proof {
                if before.len() > 0 {
                    lemma_back_push(first_move_cost, start, before, start);
                } else {
                    assert(before.push(start).len() == 1);
                }
            }
            done = true;
        } else {
            back.push(p);
            proof {
                lemma_pushed(cells, costs@, start, before, from);
                if before.len() > 0 {
                    lemma_back_push(first_move_cost, start, before, from);
                }
                assert(back_cost(first_move_cost, start, back@) + cost_at(costs@, start, from)
                    <= cost_at(costs@, start, target));
            }
            if at_start {
                done = true;
            } else {
                let i = slot(p);
                proof {
                    reveal(rooted);
                    reveal(priced);
                    assert(costs@[cell_index(p)] != UNSEEN);
                }
                p = parents[i];
                assert forall|k: int| 0 <= k < back@.len() implies cost_at(
                    costs@,
                    start,
                    #[trigger] back@[k],
                ) > cost_at(costs@, start, p) by {
                    if k < before.len() {
                        assert(back@[k] == before[k]);
                    }
                    assert(cost_at(costs@, start, p) + STEP_COST <= cost_at(costs@, start, from));
                }
            }
        }
    }
    back
}

/// One cell more at the end of the way back, reached at a lower cost than all
/// before it and next to the last of them, keeps the way in order.
proof fn lemma_pushed(cells: Seq<i8>, costs: Seq<u64>, start: Vec2D, before: Seq<Vec2D>, p: Vec2D)
    requires
        before.len() > 0 ==> p.adjacent(before.last()) && open_at(cells, before.last()),
        forall|k: int|
            1 <= k < before.len() ==> (#[trigger] before[k]).adjacent(before[k - 1]) && open_at(
                cells,
                before[k - 1],
            ),
        forall|a: int, b: int|
            0 <= a < b < before.len() ==> cost_at(costs, start, #[trigger] before[a]) > cost_at(
                costs,
                start,
                #[trigger] before[b],
            ),
        forall|k: int|
            0 <= k < before.len() ==> cost_at(costs, start, #[trigger] before[k]) > cost_at(
                costs,
                start,
                p,
            ),
    ensures
        forall|k: int|
            1 <= k < before.push(p).len() ==> (#[trigger] before.push(p)[k]).adjacent(
                before.push(p)[k - 1],
            ) && open_at(cells, before.push(p)[k - 1]),
        forall|a: int, b: int|
            0 <= a < b < before.push(p).len() ==> cost_at(
                costs,
                start,
                #[trigger] before.push(p)[a],
            ) > cost_at(costs, start, #[trigger] before.push(p)[b]),
{
    let now = before.push(p);
    assert forall|k: int| 1 <= k < now.len() implies (#[trigger] now[k]).adjacent(now[k - 1])
        && open_at(cells, now[k - 1]) by {
        if k < before.len() {
            assert(now[k] == before[k]);
        }
    }
    assert forall|a: int, b: int| 0 <= a < b < now.len() implies cost_at(
        costs,
        start,
        #[trigger] now[a],
    ) > cost_at(costs, start, #[trigger] now[b]) by {
        assert(now[a] == before[a]);
        if b < before.len() {
            assert(now[b] == before[b]);
        }
    }
}

/// The way back, read from its end, is a walk from `start` to `target` on which no
/// cell comes twice.
proof fn lemma_turned(
    cells: Seq<i8>,
    first_move_cost: Seq<u32>,
    costs: Seq<u64>,
    start: Vec2D,
    target: Vec2D,
    back: Seq<Vec2D>,
    path: Seq<Vec2D>,
)
    requires
        leads_back(cells, first_move_cost, costs, start, target, back),
        path.len() == back.len(),
        forall|j: int| 0 <= j < path.len() ==> #[trigger] path[j] == back[back.len() - 1 - j],
    ensures
        is_walk(cells, walk_of(start, path)),
        walk_of(start, path)[0] == start,
        walk_of(start, path).last() == target,
        no_cell_twice(walk_of(start, path)),
        way_cost(first_move_cost, start, walk_of(start, path)) <= cost_at(costs, start, target),
{
    let n = back.len() as int;
    let walk = walk_of(start, path);
    let whole = whole_back(start, back);
    assert forall|j: int| 0 <= j < walk.len() implies #[trigger] walk[j] == whole[whole.len() - 1
        - j] by {
        if start.x < 0 && j > 0 {
            assert(walk[j] == path[j - 1]);
        }
    }
    lemma_back_is_way(first_move_cost, start, whole, walk);
    if start.x >= 0 {
        assert(walk == path);
        assert forall|j: int| 1 <= j < walk.len() implies open_at(cells, #[trigger] walk[j])
            && walk[j - 1].adjacent(walk[j]) by {
            let m = n - 1 - j;
            assert(walk[j] == back[m]);
            assert(walk[j - 1] == back[m + 1]);
            assert(back[m + 1].adjacent(back[m + 1 - 1]));
        }
        assert forall|a: int, b: int| 0 <= a < b < walk.len() implies walk[a] != walk[b] by {
            assert(walk[a] == back[n - 1 - a]);
            assert(walk[b] == back[n - 1 - b]);
            assert(cost_at(costs, start, back[n - 1 - b]) > cost_at(costs, start, back[n - 1 - a]));
        }
    } else {
        assert(walk[0] == start);
        assert forall|j: int| 1 <= j < walk.len() implies open_at(cells, #[trigger] walk[j])
            && walk[j - 1].adjacent(walk[j]) by {
            let m = n - j;
            assert(walk[j] == path[j - 1]);
            assert(walk[j] == back[m]);
            if j > 1 {
                assert(walk[j - 1] == path[j - 2]);
                assert(walk[j - 1] == back[m + 1]);
                assert(back[m + 1].adjacent(back[m + 1 - 1]));
            }
        }
        if n > 0 {
            assert(walk.last() == path[n - 1]);
        }
        assert forall|a: int, b: int| 0 <= a < b < walk.len() implies walk[a] != walk[b] by {
            assert(walk[b] == path[b - 1]);
            assert(walk[b] == back[n - b]);
            if a == 0 {
                assert(cost_at(costs, start, back[n - b]) > 0);
            } else {
                assert(walk[a] == path[a - 1]);
                assert(walk[a] == back[n - a]);
                assert(cost_at(costs, start, back[n - b]) > cost_at(costs, start, back[n - a]));
            }
        }
    }
}

/// The way back from `target` along the cells that each was reached from, turned
/// round so that it leads from `start` to `target`.
fn trace(
    costs: &Vec<u64>,
    parents: &Vec<Vec2D>,
    start: Vec2D,
    target: Vec2D,
    Ghost(cells): Ghost<Seq<i8>>,
    Ghost(queue): Ghost<Map<(i16, i16), u64>>,
    Ghost(first_move_cost): Ghost<Seq<u32>>,
) -> (path: Vec<Vec2D>)
    requires
        search_inv(cells, start, target, costs@, parents@, queue),
        priced(first_move_cost, start, costs@, parents@),
        seen(costs@, start, target),
    ensures
        is_walk(cells, walk_of(start, path@)),
        walk_of(start, path@)[0] == start,
        walk_of(start, path@).last() == target,
        no_cell_twice(walk_of(start, path@)),
        way_cost(first_move_cost, start, walk_of(start, path@)) <= cost_at(costs@, start, target),
{
    let back = trace_back(
        costs,
        parents,
        start,
        target,
        Ghost(cells),
        Ghost(queue),
        Ghost(first_move_cost),
    );
    let n = back.len();
    let mut path: Vec<Vec2D> = Vec::with_capacity(n);
    let mut k: usize = 0;
    while k < n
        invariant
            k <= n,
            n == back@.len(),
            path@.len() == k,
            forall|j: int| 0 <= j < k ==> #[trigger] path@[j] == back@[n - 1 - j],
        decreases n - k,
    {
        path.push(back[n - 1 - k]);
        k = k + 1;
    }
    proof {
        lemma_turned(cells, first_move_cost, costs@, start, target, back@, path@);
    }
    path
}

/// Taking a cell other than the target out of the queue keeps what the search keeps
/// true, with that cell as the one that is busy.
proof fn lemma_pop_keeps(
    cells: Seq<i8>,
    start: Vec2D,
    target: Vec2D,
    costs: Seq<u64>,
    parents: Seq<Vec2D>,
    queue: Map<(i16, i16), u64>,
    cell: (i16, i16),
)
    requires
        search_inv(cells, start, target, costs, parents, queue),
        covered(cells, start, costs, queue, None),
        queue.contains_key(cell),
        cell_of(cell) != target,
    ensures
        search_inv(cells, start, target, costs, parents, queue.remove(cell)),
        covered(cells, start, costs, queue.remove(cell), Some(cell_of(cell))),
        seen(costs, start, cell_of(cell)),
        queue.remove(cell).dom().len() < queue.dom().len(),
{
    reveal(queue_seen);
    reveal(covered);
    let rest = queue.remove(cell);
    assert forall|c: (i16, i16)| #[trigger] rest.contains_key(c) implies seen(
        costs,
        start,
        cell_of(c),
    ) by {
        assert(queue.contains_key(c));
    }
    assert forall|p: Vec2D| #[trigger] seen(costs, start, p) && Some(cell_of(cell)) != Some(
        p,
    ) implies (rest.contains_key(key(p)) || closed(cells, costs, start, p)) by {
        assert(key(p) != cell);
    }
    assert(rest.dom() =~= queue.dom().remove(cell));
}

/// Once the search has come to every open neighbour of the busy cell, no cell is
/// busy any more.
proof fn lemma_done_with(
    cells: Seq<i8>,
    start: Vec2D,
    costs: Seq<u64>,
    queue: Map<(i16, i16), u64>,
    front: Vec2D,
)
    requires
        covered(cells, start, costs, queue, Some(front)),
        forall|j: int|
            0 <= j < 4 ==> (open_at(cells, #[trigger] front.neighbour(Direction::every()[j]))
                ==> seen(costs, start, front.neighbour(Direction::every()[j]))),
    ensures
        covered(cells, start, costs, queue, None),
{
    reveal(covered);
    assert forall|p: Vec2D| #[trigger] seen(costs, start, p) implies (queue.contains_key(key(p))
        || closed(cells, costs, start, p)) by {
        if p == front {
            assert forall|d: Direction| open_at(cells, #[trigger] p.neighbour(d)) implies seen(
                costs,
                start,
                p.neighbour(d),
            ) by {
                assert(Direction::every()[d.code()] == d);
            }
        }
    }
}

/// Where nothing waits any more and the target is not seen, no walk leads to it.
proof fn lemma_unreachable(
    cells: Seq<i8>,
    start: Vec2D,
    target: Vec2D,
    costs: Seq<u64>,
    parents: Seq<Vec2D>,
    queue: Map<(i16, i16), u64>,
)
    requires
        search_inv(cells, start, target, costs, parents, queue),
        covered(cells, start, costs, queue, None),
        forall|c: (i16, i16)| !#[trigger] queue.contains_key(c),
    ensures
        !reachable(cells, start, target),
{
    reveal(covered);
    assert forall|p: Vec2D| #[trigger] seen(costs, start, p) implies closed(cells, costs, start, p) by {
        assert(!queue.contains_key(key(p)));
    }
    if reachable(cells, start, target) {
        let walk = choose|walk: Seq<Vec2D>|
            #[trigger] is_walk(cells, walk) && walk[0] == start && walk.last() == target;
        lemma_walk_stays_seen(cells, start, costs, walk);
        assert(queue.contains_key(key(target)));
    }
}

/// The records of a search that has seen the start only.
proof fn lemma_search_begins(cells: Seq<i8>, start: Vec2D, target: Vec2D, costs: Seq<u64>, parents: Seq<Vec2D>)
    requires
        cells.len() == BOARD_CELLS,
        costs.len() == BOARD_CELLS,
        parents.len() == BOARD_CELLS,
        start.can_step(),
        forall|i: int|
            0 <= i < BOARD_CELLS ==> #[trigger] costs[i] == if on_board(start) && i == cell_index(
                start,
            ) {
                0
            } else {
                UNSEEN
            },
    ensures
        search_inv(
            cells,
            start,
            target,
            costs,
            parents,
            Map::<(i16, i16), u64>::empty().insert(key(start), 0),
        ),
        covered(
            cells,
            start,
            costs,
            Map::<(i16, i16), u64>::empty().insert(key(start), 0),
            None,
        ),
{
    reveal(bounded);
    reveal(rooted);
    reveal(queue_seen);
    reveal(covered);
    let queue = Map::<(i16, i16), u64>::empty().insert(key(start), 0);
    lemma_unseen_update(costs, 0, costs[0]);
    assert forall|p: Vec2D| seen(costs, start, p) implies p == start by {
        if on_board(p) && on_board(start) {
            crate::agents::util::lemma_cell_index_injective(p, start);
        }
    }
    assert forall|p: Vec2D|
        on_board(p) && p != start && #[trigger] costs[cell_index(p)] != UNSEEN implies false by {
        assert(seen(costs, start, p));
    }
    assert forall|c: (i16, i16)| #[trigger] queue.contains_key(c) implies seen(
        costs,
        start,
        cell_of(c),
    ) by {
        assert(c == key(start));
    }
    assert(queue.dom() =~= Set::<(i16, i16)>::empty().insert(key(start)));
}

/// The records of a search that has seen the start only are priced, the start waits
/// at its price, and no cell has its edges to answer for yet.
proof fn lemma_price_begins(
    cells: Seq<i8>,
    first_move_cost: Seq<u32>,
    start: Vec2D,
    costs: Seq<u64>,
    parents: Seq<Vec2D>,
)
    requires
        costs.len() == BOARD_CELLS,
        forall|i: int|
            0 <= i < BOARD_CELLS ==> #[trigger] costs[i] == if on_board(start) && i == cell_index(
                start,
            ) {
                0
            } else {
                UNSEEN
            },
    ensures
        priced(first_move_cost, start, costs, parents),
        queue_est(start, costs, Map::<(i16, i16), u64>::empty().insert(key(start), 0)),
        edges_done(
            cells,
            first_move_cost,
            start,
            costs,
            Map::<(i16, i16), u64>::empty().insert(key(start), 0),
            None,
        ),
{
    reveal(priced);
    reveal(queue_est);
    reveal(edges_done);
    let queue = Map::<(i16, i16), u64>::empty().insert(key(start), 0);
    assert forall|p: Vec2D| seen(costs, start, p) implies p == start by {
        if on_board(p) && on_board(start) {
            crate::agents::util::lemma_cell_index_injective(p, start);
        }
    }
    assert forall|p: Vec2D|
        on_board(p) && p != start && #[trigger] costs[cell_index(p)] != UNSEEN implies cost_at(
        costs,
        start,
        parents[cell_index(p)],
    ) + step_cost(first_move_cost, start, parents[cell_index(p)], p) <= costs[cell_index(p)] by {
        assert(seen(costs, start, p));
    }
    assert forall|c: (i16, i16)| #[trigger] queue.contains_key(c) implies queue[c] == cost_at(
        costs,
        start,
        cell_of(c),
    ) + STEP_COST * apart(cell_of(c), start) by {
        assert(c == key(start));
        assert(cell_of(c) == start);
    }
}

/// Taking a cell out of the queue leaves the others waiting at their prices, and
/// makes that cell the one that is busy.
proof fn lemma_price_pop(
    cells: Seq<i8>,
    first_move_cost: Seq<u32>,
    start: Vec2D,
    costs: Seq<u64>,
    queue: Map<(i16, i16), u64>,
    cell: (i16, i16),
)
    requires
        queue_est(start, costs, queue),
        edges_done(cells, first_move_cost, start, costs, queue, None),
    ensures
        queue_est(start, costs, queue.remove(cell)),
        edges_done(cells, first_move_cost, start, costs, queue.remove(cell), Some(cell_of(cell))),
{
    reveal(queue_est);
    reveal(edges_done);
    let rest = queue.remove(cell);
    assert forall|c: (i16, i16)| #[trigger] rest.contains_key(c) implies rest[c] == cost_at(
        costs,
        start,
        cell_of(c),
    ) + STEP_COST * apart(cell_of(c), start) by {
        assert(queue.contains_key(c));
    }
    assert forall|p: Vec2D|
        #[trigger] seen(costs, start, p) && Some(cell_of(cell)) != Some(p) && !rest.contains_key(
            key(p),
        ) implies cheap_around(cells, first_move_cost, start, costs, p) by {
        assert(key(p) != cell);
    }
}

/// Giving the neighbour its lower cost lowers no other cost and raises none.
proof fn lemma_relax_costs(
    cells: Seq<i8>,
    start: Vec2D,
    costs: Seq<u64>,
    front: Vec2D,
    d: Direction,
    extra: u32,
    q: Vec2D,
)
    requires
        relaxable(cells, start, costs, front, d, extra),
        bounded(costs),
        seen(costs, start, q),
    ensures
        seen(relaxed(costs, start, front, d, extra), start, q),
        cost_at(relaxed(costs, start, front, d, extra), start, q) <= cost_at(costs, start, q),
        q != front.neighbour(d) ==> cost_at(relaxed(costs, start, front, d, extra), start, q)
            == cost_at(costs, start, q),
        cost_at(relaxed(costs, start, front, d, extra), start, front.neighbour(d)) == relaxed_cost(
            costs,
            start,
            front,
            extra,
        ),
        front.neighbour(d) != start,
        front.neighbour(d) != front,
{
    lemma_relax_bounded(cells, start, costs, front, d, extra);
    let n = front.neighbour(d);
    if on_board(q) {
        crate::agents::util::lemma_cell_index_injective(q, n);
    }
    crate::agents::util::lemma_cell_index_injective(n, n);
}

/// Giving the neighbour its lower cost, with `front` as the cell it was reached
/// from, keeps the records priced.
proof fn lemma_relax_priced(
    cells: Seq<i8>,
    first_move_cost: Seq<u32>,
    start: Vec2D,
    costs: Seq<u64>,
    parents: Seq<Vec2D>,
    front: Vec2D,
    d: Direction,
    extra: u32,
)
    requires
        relaxable(cells, start, costs, front, d, extra),
        bounded(costs),
        parents.len() == BOARD_CELLS,
        rooted(cells, start, costs, parents),
        priced(first_move_cost, start, costs, parents),
        extra == if front == start {
            first_move_cost[d.code()]
        } else {
            0
        },
    ensures
        priced(
            first_move_cost,
            start,
            relaxed(costs, start, front, d, extra),
            parents.update(cell_index(front.neighbour(d)), front),
        ),
{
    reveal(priced);
    reveal(rooted);
    let n = front.neighbour(d);
    let costs2 = relaxed(costs, start, front, d, extra);
    let parents2 = parents.update(cell_index(n), front);
    lemma_relax_bounded(cells, start, costs, front, d, extra);
    assert(front.can_step());
    lemma_step(first_move_cost, start, front, d);
    assert forall|p: Vec2D|
        on_board(p) && p != start && #[trigger] costs2[cell_index(p)] != UNSEEN implies cost_at(
        costs2,
        start,
        parents2[cell_index(p)],
    ) + step_cost(first_move_cost, start, parents2[cell_index(p)], p) <= costs2[cell_index(p)] by {
        crate::agents::util::lemma_cell_index_injective(p, n);
        if p == n {
            lemma_relax_costs(cells, start, costs, front, d, extra, front);
        } else {
            let q = parents[cell_index(p)];
            assert(costs[cell_index(p)] != UNSEEN);
            assert(seen(costs, start, q));
            lemma_relax_costs(cells, start, costs, front, d, extra, q);
        }
    }
}

/// Queueing the neighbour at its lower cost plus ten times its distance from the
/// start keeps every cell waiting at its price.
proof fn lemma_relax_est(
    cells: Seq<i8>,
    start: Vec2D,
    costs: Seq<u64>,
    queue: Map<(i16, i16), u64>,
    front: Vec2D,
    d: Direction,
    extra: u32,
    est: u64,
)
    requires
        relaxable(cells, start, costs, front, d, extra),
        bounded(costs),
        queue_seen(costs, start, queue),
        queue_est(start, costs, queue),
        est == relaxed_cost(costs, start, front, extra) + STEP_COST * apart(
            front.neighbour(d),
            start,
        ),
    ensures
        queue_est(
            start,
            relaxed(costs, start, front, d, extra),
            queue.insert(key(front.neighbour(d)), est),
        ),
{
    reveal(queue_est);
    reveal(queue_seen);
    let n = front.neighbour(d);
    let costs2 = relaxed(costs, start, front, d, extra);
    let queue2 = queue.insert(key(n), est);
    lemma_relax_costs(cells, start, costs, front, d, extra, front);
    assert forall|c: (i16, i16)| #[trigger] queue2.contains_key(c) implies queue2[c] == cost_at(
        costs2,
        start,
        cell_of(c),
    ) + STEP_COST * apart(cell_of(c), start) by {
        if c == key(n) {
            assert(cell_of(c) == n);
        } else {
            assert(queue.contains_key(c));
            assert(seen(costs, start, cell_of(c)));
            lemma_relax_costs(cells, start, costs, front, d, extra, cell_of(c));
            assert(key(cell_of(c)) == c);
        }
    }
}

/// Giving the neighbour its lower cost and queueing it keeps the edges of all cells
/// but the busy one and those that wait in order.
proof fn lemma_relax_edges(
    cells: Seq<i8>,
    first_move_cost: Seq<u32>,
    start: Vec2D,
    costs: Seq<u64>,
    queue: Map<(i16, i16), u64>,
    front: Vec2D,
    d: Direction,
    extra: u32,
    est: u64,
)
    requires
        relaxable(cells, start, costs, front, d, extra),
        bounded(costs),
        edges_done(cells, first_move_cost, start, costs, queue, Some(front)),
    ensures
        edges_done(
            cells,
            first_move_cost,
            start,
            relaxed(costs, start, front, d, extra),
            queue.insert(key(front.neighbour(d)), est),
            Some(front),
        ),
{
    reveal(edges_done);
    let n = front.neighbour(d);
    let costs2 = relaxed(costs, start, front, d, extra);
    let queue2 = queue.insert(key(n), est);
    lemma_relax_bounded(cells, start, costs, front, d, extra);
    assert forall|p: Vec2D|
        #[trigger] seen(costs2, start, p) && Some(front) != Some(p) && !queue2.contains_key(
            key(p),
        ) implies cheap_around(cells, first_move_cost, start, costs2, p) by {
        assert(p != n);
        if on_board(p) {
            crate::agents::util::lemma_cell_index_injective(p, n);
        }
        assert(seen(costs, start, p));
        assert(cheap_around(cells, first_move_cost, start, costs, p));
        lemma_relax_costs(cells, start, costs, front, d, extra, p);
        assert forall|e: Direction| open_at(cells, #[trigger] p.neighbour(e)) implies seen(
            costs2,
            start,
            p.neighbour(e),
        ) && cost_at(costs2, start, p.neighbour(e)) <= cost_at(costs2, start, p) + step_cost(
            first_move_cost,
            start,
            p,
            p.neighbour(e),
        ) by {
            lemma_relax_costs(cells, start, costs, front, d, extra, p.neighbour(e));
        }
    }
}

/// Once every open neighbour of the busy cell is seen at no more than its cost and
/// the step, no cell is busy any more.
proof fn lemma_price_done(
    cells: Seq<i8>,
    first_move_cost: Seq<u32>,
    start: Vec2D,
    costs: Seq<u64>,
    queue: Map<(i16, i16), u64>,
    front: Vec2D,
)
    requires
        edges_done(cells, first_move_cost, start, costs, queue, Some(front)),
        forall|j: int|
            0 <= j < 4 ==> (open_at(cells, #[trigger] front.neighbour(Direction::every()[j]))
                ==> seen(costs, start, front.neighbour(Direction::every()[j])) && cost_at(
                costs,
                start,
                front.neighbour(Direction::every()[j]),
            ) <= cost_at(costs, start, front) + step_cost(
                first_move_cost,
                start,
                front,
                front.neighbour(Direction::every()[j]),
            )),
    ensures
        edges_done(cells, first_move_cost, start, costs, queue, None),
{
    reveal(edges_done);
    assert forall|p: Vec2D|
        #[trigger] seen(costs, start, p) && !queue.contains_key(key(p)) implies cheap_around(
        cells,
        first_move_cost,
        start,
        costs,
        p,
    ) by {
        if p == front {
            assert forall|d: Direction| open_at(cells, #[trigger] p.neighbour(d)) implies seen(
                costs,
                start,
                p.neighbour(d),
            ) && cost_at(costs, start, p.neighbour(d)) <= cost_at(costs, start, p) + step_cost(
                first_move_cost,
                start,
                p,
                p.neighbour(d),
            ) by {
                assert(Direction::every()[d.code()] == d);
            }
        }
    }
}

impl Grid {
    /// A way from `start` to `target` over cells that are no obstacles, each next to
    /// the one before, or `None` where there is none. Only `start` itself may be an
    /// obstacle or lie off the board.
    ///
    /// A step costs 10, and a step that leaves `start` in direction `d` costs
    /// `first_move_cost[d]` more. No walk from `start` to `target` costs less than
    /// the way found; with no first-move costs it is a shortest way. The way begins
    /// with `start`, unless `start` lies left of the board (`x < 0`): then it begins
    /// with the cell after it.
    pub fn a_star(&self, start: Vec2D, target: Vec2D, first_move_cost: [u32; 4]) -> (path: Option<
        Vec<Vec2D>,
    >)
        requires
            start.can_step(),
        ensures
            path is Some <==> reachable(self@, start, target),
            path matches Some(way) ==> {
                &&& is_walk(self@, walk_of(start, way@))
                &&& walk_of(start, way@)[0] == start
                &&& walk_of(start, way@).last() == target
                &&& no_cell_twice(walk_of(start, way@))
                &&& forall|other: Seq<Vec2D>|
                    #[trigger] is_walk(self@, other) && other[0] == start && other.last() == target
                        ==> way_cost(first_move_cost@, start, walk_of(start, way@)) <= way_cost(
                        first_move_cost@,
                        start,
                        other,
                    )
            },
    {
        proof {
            self.lemma_len();
        }
        let ghost cells = self@;
        let ghost fmc = first_move_cost@;
        let mut costs: Vec<u64> = Vec::with_capacity(BOARD_CELLS);
        let mut parents: Vec<Vec2D> = Vec::with_capacity(BOARD_CELLS);
        let mut i: usize = 0;
        while i < BOARD_CELLS
            invariant
                i <= BOARD_CELLS,
                costs@.len() == i,
                parents@.len() == i,
                forall|j: int| 0 <= j < i ==> costs@[j] == UNSEEN,
            decreases BOARD_CELLS - i,
        {
            costs.push(UNSEEN);
            parents.push(Vec2D::new(-1, -1));
            i = i + 1;
        }
        if self.has(start) {
            let s = slot(start);
            costs[s] = 0;
        }
        let mut queue = queue_new();
        queue_push(&mut queue, (start.x, start.y), 0);
        proof {
            lemma_search_begins(cells, start, target, costs@, parents@);
            lemma_price_begins(cells, fmc, start, costs@, parents@);
        }
        loop
            invariant
                cells == self@,
                fmc == first_move_cost@,
                search_inv(cells, start, target, costs@, parents@, waiting(queue)),
                covered(cells, start, costs@, waiting(queue), None),
                priced(fmc, start, costs@, parents@),
                queue_est(start, costs@, waiting(queue)),
                edges_done(cells, fmc, start, costs@, waiting(queue), None),
            decreases weight(costs@), waiting(queue).dom().len(),
        {
            let ghost q0 = waiting(queue);
            let ghost w0 = weight(costs@);
            let popped = queue_pop(&mut queue);
            match popped {
                None => {
                    proof {
                        lemma_unreachable(cells, start, target, costs@, parents@, q0);
                    }
                    return None;
                },
                Some(taken) => {
                    let cell = taken.0;
                    let front = Vec2D::new(cell.0, cell.1);
                    assert(front == cell_of(cell));
                    assert(seen(costs@, start, front)) by {
                        reveal(queue_seen);
                    }
                    if front == target {
                        let way = trace(
                            &costs,
                            &parents,
                            start,
                            target,
                            Ghost(cells),
                            Ghost(q0),
                            Ghost(fmc),
                        );
                        proof {
                            assert forall|other: Seq<Vec2D>|
                                #[trigger] is_walk(cells, other) && other[0] == start
                                    && other.last() == target implies way_cost(
                                fmc,
                                start,
                                walk_of(start, way@),
                            ) <= way_cost(fmc, start, other) by {
                                lemma_popped_is_best(cells, fmc, start, costs@, q0, cell, other);
                            }
                        }
                        return Some(way);
                    }
                    proof {
                        lemma_pop_keeps(cells, start, target, costs@, parents@, q0, cell);
                        lemma_price_pop(cells, fmc, start, costs@, q0, cell);
                    }
                    let from_start = front == start;
                    let cost: u64 = if from_start {
                        0
                    } else {
                        costs[slot(front)]
                    };
                    let dirs = Direction::all();
                    let mut k: usize = 0;
                    while k < 4
                        invariant
                            k <= 4,
                            cells == self@,
                            dirs@ == Direction::every(),
                            fmc == first_move_cost@,
                            search_inv(cells, start, target, costs@, parents@, waiting(queue)),
                            covered(cells, start, costs@, waiting(queue), Some(front)),
                            priced(fmc, start, costs@, parents@),
                            queue_est(start, costs@, waiting(queue)),
                            edges_done(cells, fmc, start, costs@, waiting(queue), Some(front)),
                            seen(costs@, start, front),
                            from_start == (front == start),
                            cost == cost_at(costs@, start, front),
                            forall|j: int|
                                0 <= j < k ==> (open_at(
                                    cells,
                                    #[trigger] front.neighbour(Direction::every()[j]),
                                ) ==> seen(costs@, start, front.neighbour(Direction::every()[j]))
                                    && cost_at(
                                    costs@,
                                    start,
                                    front.neighbour(Direction::every()[j]),
                                ) <= cost + step_cost(
                                    fmc,
                                    start,
                                    front,
                                    front.neighbour(Direction::every()[j]),
                                )),
                            weight(costs@) <= w0,
                            weight(costs@) == w0 ==> waiting(queue) == q0.remove(cell),
                        decreases 4 - k,
                    {
                        let d = dirs[k];
                        assert(front.can_step());
                        let neighbor = front.apply(d);
                        let extra: u32 = if from_start {
                            first_move_cost[k]
                        } else {
                            0
                        };
                        proof {
                            lemma_step(fmc, start, front, d);
                        }
                        if self.avaliable(neighbor) {
                            let s = slot(neighbor);
                            let so_far = costs[s];
                            assert(cost <= 0xffff_ffff + 10 * BOARD_CELLS) by {
                                reveal(bounded);
                                if front != start {
                                    assert(costs@[cell_index(front)] != UNSEEN);
                                }
                            }
                            let nc: u64 = cost + STEP_COST + extra as u64;
                            if nc < so_far {
                                let ghost costs0 = costs@;
                                let ghost parents0 = parents@;
                                let ghost q1 = waiting(queue);
                                let est = nc + distance_cost(neighbor, start);
                                proof {
                                    assert(relaxable(cells, start, costs0, front, d, extra));
                                    lemma_relax_bounded(cells, start, costs0, front, d, extra);
                                    lemma_relax_rooted(cells, start, costs0, parents0, front, d, extra);
                                    lemma_relax_queue(
                                        cells,
                                        start,
                                        target,
                                        costs0,
                                        q1,
                                        front,
                                        d,
                                        extra,
                                        est,
                                    );
                                    lemma_relax_covered(cells, start, costs0, q1, front, d, extra, est);
                                    lemma_relax_priced(
                                        cells,
                                        fmc,
                                        start,
                                        costs0,
                                        parents0,
                                        front,
                                        d,
                                        extra,
                                    );
                                    lemma_relax_est(cells, start, costs0, q1, front, d, extra, est);
                                    lemma_relax_edges(
                                        cells,
                                        fmc,
                                        start,
                                        costs0,
                                        q1,
                                        front,
                                        d,
                                        extra,
                                        est,
                                    );
                                    lemma_relax_costs(cells, start, costs0, front, d, extra, front);
                                    assert forall|j: int| 0 <= j < k implies (open_at(
                                        cells,
                                        #[trigger] front.neighbour(Direction::every()[j]),
                                    ) ==> cost_at(
                                        relaxed(costs0, start, front, d, extra),
                                        start,
                                        front.neighbour(Direction::every()[j]),
                                    ) <= cost_at(
                                        costs0,
                                        start,
                                        front.neighbour(Direction::every()[j]),
                                    )) by {
                                        if open_at(cells, front.neighbour(Direction::every()[j])) {
                                            lemma_relax_costs(
                                                cells,
                                                start,
                                                costs0,
                                                front,
                                                d,
                                                extra,
                                                front.neighbour(Direction::every()[j]),
                                            );
                                        }
                                    }
                                    if on_board(front) {
                                        crate::agents::util::lemma_cell_index_injective(
                                            front,
                                            neighbor,
                                        );
                                    }
                                    if on_board(start) {
                                        crate::agents::util::lemma_cell_index_injective(
                                            start,
                                            neighbor,
                                        );
                                    }
                                }
                                costs[s] = nc;
                                parents[s] = front;
                                queue_push(&mut queue, (neighbor.x, neighbor.y), est);
                                proof {
                                    assert(costs@ == relaxed(costs0, start, front, d, extra));
                                    assert(parents@ == parents0.update(cell_index(neighbor), front));
                                    assert(waiting(queue) == q1.insert(key(neighbor), est));
                                    assert(waiting(queue).dom() =~= q1.dom().insert(key(neighbor)));
                                }
                            }
                        }
                        k = k + 1;
                    }
                    proof {
                        lemma_done_with(cells, start, costs@, waiting(queue), front);
                        lemma_price_done(cells, fmc, start, costs@, waiting(queue), front);
                    }
                },
            }
        }
    }
}

/// A walk costs at least `STEP_COST` for each of its steps, and exactly that where
/// no first move costs anything.
pub proof fn lemma_way_cost_steps(first_move_cost: Seq<u32>, start: Vec2D, walk: Seq<Vec2D>)
    requires
        walk.len() >= 1,
        first_move_cost.len() == 4,
    ensures
        way_cost(first_move_cost, start, walk) >= STEP_COST * (walk.len() - 1),
        (forall|i: int| 0 <= i < 4 ==> first_move_cost[i] == 0) ==> way_cost(
            first_move_cost,
            start,
            walk,
        ) == STEP_COST * (walk.len() - 1),
    decreases walk.len(),
{
    if walk.len() > 1 {
        lemma_way_cost_steps(first_move_cost, start, walk.drop_last());
    }
}

/// A walk that begins at `start` and does not come back to it costs `STEP_COST` for
/// each of its steps and, besides, what its first step costs more than that.
pub proof fn lemma_way_cost_once(first_move_cost: Seq<u32>, start: Vec2D, walk: Seq<Vec2D>)
    requires
        walk.len() >= 2,
        walk[0] == start,
        forall|k: int| 1 <= k < walk.len() ==> walk[k] != start,
    ensures
        way_cost(first_move_cost, start, walk) == STEP_COST * (walk.len() - 2) + step_cost(
            first_move_cost,
            start,
            walk[0],
            walk[1],
        ),
    decreases walk.len(),
{
    if walk.len() > 2 {
        let less = walk.drop_last();
        assert(less[0] == walk[0] && less[1] == walk[1]);
        assert forall|k: int| 1 <= k < less.len() implies less[k] != start by {
            assert(less[k] == walk[k]);
        }
        lemma_way_cost_once(first_move_cost, start, less);
    } else {
        assert(walk.drop_last().len() == 1);
        assert(way_cost(first_move_cost, start, walk.drop_last()) == 0);
    }
}

} // verus!
