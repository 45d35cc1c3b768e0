//! Who gets a cell in the fill of the board: the nearest seed, and the earliest of
//! several that are equally near.

use crate::agents::util::{
    around, cell_index, flood_run, free_at, keep_free, keep_open, lemma_cell_index_injective,
    lemma_keep_free_around, lemma_keep_open_step, lemma_occurrences_update, occurrences, on_board,
    open_at, queued, BOARD_CELLS, BOARD_FREE,
};
use crate::env::{Direction, Vec2D};
use vstd::prelude::*;

verus! {

/// Whether cell `k` of `w` is a neighbour of the cell before it.
pub open spec fn linked(w: Seq<Vec2D>, k: int) -> bool {
    w[k - 1].adjacent(w[k])
}

/// Whether `w` is a route of the seed `s`: it begins on the cell of `heads[s]` and
/// leads over cells that are free on `base`, each a neighbour of the one before.
pub open spec fn is_route(base: Seq<i8>, heads: Seq<(i8, Vec2D)>, s: int, w: Seq<Vec2D>) -> bool {
    &&& 0 <= s < heads.len()
    &&& w.len() >= 1
    &&& w[0] == heads[s].1
    &&& forall|k: int| 0 <= k < w.len() ==> free_at(base, #[trigger] w[k])
    &&& forall|k: int| 1 <= k < w.len() ==> #[trigger] linked(w, k)
}

/// Whether the seed `s` at `steps` steps comes before the seed `t` at `far` steps:
/// it is nearer, or as near and not later among the seeds.
pub open spec fn sooner(steps: int, s: int, far: int, t: int) -> bool {
    steps < far || (steps == far && s <= t)
}

/// Whether the seed `s` is the one that the cell `c` belongs to, `steps` steps away:
/// a route of `s` of that many steps ends on `c`, and every seed with a route to `c`
/// is farther, or as far and not earlier among the seeds.
pub open spec fn owned_by(base: Seq<i8>, heads: Seq<(i8, Vec2D)>, c: Vec2D, s: int, steps: int) -> bool {
    &&& exists|w: Seq<Vec2D>| #[trigger] is_route(base, heads, s, w) && w.last() == c && w.len() == steps + 1
    &&& forall|t: int, v: Seq<Vec2D>|
        #[trigger] is_route(base, heads, t, v) && v.last() == c ==> sooner(steps, s, v.len() - 1, t)
}

/// Whether `label` is the label of the nearest seed of `c`, the earliest of several.
pub open spec fn belongs_to_nearest(base: Seq<i8>, heads: Seq<(i8, Vec2D)>, label: i8, c: Vec2D) -> bool {
    exists|s: int, steps: int| #[trigger] owned_by(base, heads, c, s, steps) && heads[s].0 == label
}

/// Whether the fill has relabelled the cell `u`.
pub open spec fn claimed(cells: Seq<i8>, base: Seq<i8>, u: Vec2D) -> bool {
    on_board(u) && cells[cell_index(u)] != base[cell_index(u)]
}

/// Whether the entry `e` of the queue stands for the seed and the steps of `k`: it
/// carries the label of that seed, and it is the seed itself or stands next to a
/// cell that the seed has claimed one step nearer.
pub open spec fn entry_ok(
    cells: Seq<i8>,
    base: Seq<i8>,
    heads: Seq<(i8, Vec2D)>,
    e: (i8, Vec2D),
    k: (int, int),
    own: Seq<int>,
    lev: Seq<int>,
) -> bool {
    &&& 0 <= k.1 < heads.len()
    &&& e.0 == heads[k.1].0
    &&& k.0 >= 0
    &&& k.0 == 0 ==> e.1 == heads[k.1].1
    &&& k.0 >= 1 ==> exists|u: Vec2D|
        #[trigger] claimed(cells, base, u) && own[cell_index(u)] == k.1 && lev[cell_index(u)] == k.0
            - 1 && u.adjacent(e.1)
}

#[verifier::opaque]
pub open spec fn t_entries(
    cells: Seq<i8>,
    base: Seq<i8>,
    heads: Seq<(i8, Vec2D)>,
    queue: Seq<(i8, Vec2D)>,
    keys: Seq<(int, int)>,
    own: Seq<int>,
    lev: Seq<int>,
) -> bool {
    forall|a: int|
        0 <= a < queue.len() ==> #[trigger] entry_ok(cells, base, heads, queue[a], keys[a], own, lev)
}

/// Whether the entries stand in the order of their steps and seeds.
#[verifier::opaque]
pub open spec fn t_sorted(keys: Seq<(int, int)>) -> bool {
    forall|a: int, b: int|
        0 <= a < b < keys.len() ==> sooner(
            (#[trigger] keys[a]).0,
            keys[a].1,
            (#[trigger] keys[b]).0,
            keys[b].1,
        )
}

/// Whether no entry comes before the seed `s` at `j` steps or after it at one step more.
#[verifier::opaque]
pub open spec fn t_between(keys: Seq<(int, int)>, j: int, s: int) -> bool {
    forall|a: int|
        0 <= a < keys.len() ==> sooner(j, s, (#[trigger] keys[a]).0, keys[a].1) && sooner(
            keys[a].0,
            keys[a].1,
            j + 1,
            s,
        )
}

/// Whether every claimed cell belongs to the seed that is noted for it and carries
/// its label.
#[verifier::opaque]
pub open spec fn t_claimed(
    cells: Seq<i8>,
    base: Seq<i8>,
    heads: Seq<(i8, Vec2D)>,
    own: Seq<int>,
    lev: Seq<int>,
) -> bool {
    forall|c: Vec2D|
        #[trigger] claimed(cells, base, c) ==> owned_by(
            base,
            heads,
            c,
            own[cell_index(c)],
            lev[cell_index(c)],
        ) && cells[cell_index(c)] == heads[own[cell_index(c)]].0
}

/// Whether an entry for the seed `s` at `j` steps waits on the cell `n`.
pub open spec fn waits(queue: Seq<(i8, Vec2D)>, keys: Seq<(int, int)>, n: Vec2D, j: int, s: int) -> bool {
    exists|a: int| 0 <= a < queue.len() && (#[trigger] queue[a]).1 == n && keys[a] == (j, s)
}

/// Whether an entry waits on every free cell next to a claimed cell, for the seed of
/// that cell at one step more, and on every free cell under a seed, for that seed.
#[verifier::opaque]
pub open spec fn t_pending(
    cells: Seq<i8>,
    base: Seq<i8>,
    heads: Seq<(i8, Vec2D)>,
    queue: Seq<(i8, Vec2D)>,
    keys: Seq<(int, int)>,
    own: Seq<int>,
    lev: Seq<int>,
) -> bool {
    &&& forall|u: Vec2D, d: Direction|
        claimed(cells, base, u) && free_at(cells, #[trigger] u.neighbour(d)) ==> waits(
            queue,
            keys,
            u.neighbour(d),
            lev[cell_index(u)] + 1,
            own[cell_index(u)],
        )
    &&& forall|s: int|
        0 <= s < heads.len() && free_at(cells, (#[trigger] heads[s]).1) ==> waits(
            queue,
            keys,
            heads[s].1,
            0,
            s,
        )
}

/// What the notes of a fill keep true while it works through its queue.
pub open spec fn noted(
    cells: Seq<i8>,
    base: Seq<i8>,
    heads: Seq<(i8, Vec2D)>,
    queue: Seq<(i8, Vec2D)>,
    keys: Seq<(int, int)>,
    own: Seq<int>,
    lev: Seq<int>,
) -> bool {
    &&& cells.len() == BOARD_CELLS
    &&& base.len() == BOARD_CELLS
    &&& own.len() == BOARD_CELLS
    &&& lev.len() == BOARD_CELLS
    &&& keys.len() == queue.len()
    &&& forall|i: int| 0 <= i < BOARD_CELLS && base[i] != BOARD_FREE ==> #[trigger] cells[i] == base[i]
    &&& t_entries(cells, base, heads, queue, keys, own, lev)
    &&& t_sorted(keys)
    &&& keys.len() > 0 ==> t_between(keys, keys[0].0, keys[0].1)
    &&& t_claimed(cells, base, heads, own, lev)
    &&& t_pending(cells, base, heads, queue, keys, own, lev)
}

/// The first cell of a walk that is still free, where its last cell is.
proof fn lemma_first_free(cells: Seq<i8>, v: Seq<Vec2D>, m: int) -> (i: int)
    requires
        0 <= m < v.len(),
        free_at(cells, v[m]),
    ensures
        0 <= i <= m,
        free_at(cells, v[i]),
        forall|k: int| 0 <= k < i ==> !free_at(cells, #[trigger] v[k]),
    decreases m,
{
    if m == 0 {
        0
    } else if exists|k: int| 0 <= k < m && free_at(cells, #[trigger] v[k]) {
        let k = choose|k: int| 0 <= k < m && free_at(cells, #[trigger] v[k]);
        lemma_first_free(cells, v, k)
    } else {
        m
    }
}

/// The beginning of a route is a route.
proof fn lemma_route_take(base: Seq<i8>, heads: Seq<(i8, Vec2D)>, t: int, v: Seq<Vec2D>, i: int)
    requires
        is_route(base, heads, t, v),
        1 <= i <= v.len(),
    ensures
        is_route(base, heads, t, v.take(i)),
        v.take(i).last() == v[i - 1],
        v.take(i).len() == i,
{
    let w = v.take(i);
    assert forall|k: int| 0 <= k < w.len() implies free_at(base, #[trigger] w[k]) by {
        assert(w[k] == v[k]);
    }
    assert forall|k: int| 1 <= k < w.len() implies #[trigger] linked(w, k) by {
        assert(linked(v, k));
    }
}

/// A route with one free neighbour more is a route.
proof fn lemma_route_push(base: Seq<i8>, heads: Seq<(i8, Vec2D)>, s: int, w: Seq<Vec2D>, p: Vec2D)
    requires
        is_route(base, heads, s, w),
        free_at(base, p),
        w.last().adjacent(p),
    ensures
        is_route(base, heads, s, w.push(p)),
{
    let more = w.push(p);
    assert forall|k: int| 0 <= k < more.len() implies free_at(base, #[trigger] more[k]) by {
        if k < w.len() {
            assert(more[k] == w[k]);
        }
    }
    assert forall|k: int| 1 <= k < more.len() implies #[trigger] linked(more, k) by {
        if k < w.len() {
            assert(linked(w, k));
        }
    }
}

/// The entry at the front of the queue comes no later than any seed with a route to
/// a cell that is still free.
proof fn lemma_route_sooner(
    cells: Seq<i8>,
    base: Seq<i8>,
    heads: Seq<(i8, Vec2D)>,
    queue: Seq<(i8, Vec2D)>,
    keys: Seq<(int, int)>,
    own: Seq<int>,
    lev: Seq<int>,
    t: int,
    v: Seq<Vec2D>,
)
    requires
        noted(cells, base, heads, queue, keys, own, lev),
        queue.len() > 0,
        is_route(base, heads, t, v),
        free_at(cells, v.last()),
    ensures
        sooner(keys[0].0, keys[0].1, v.len() - 1, t),
{
    reveal(t_sorted);
    reveal(t_pending);
    reveal(t_claimed);
    reveal(t_entries);
    let last = v.len() - 1;
    assert(entry_ok(cells, base, heads, queue[0], keys[0], own, lev));
    let i = lemma_first_free(cells, v, last);
    if i == 0 {
        assert(free_at(cells, heads[t].1));
        let a = choose|a: int| 0 <= a < queue.len() && (#[trigger] queue[a]).1 == heads[t].1 && keys[a] == (0int, t);
        if a > 0 {
            assert(sooner(keys[0].0, keys[0].1, keys[a].0, keys[a].1));
        }
    } else {
        let u = v[i - 1];
        assert(free_at(base, u));
        assert(!free_at(cells, u));
        assert(claimed(cells, base, u));
        lemma_route_take(base, heads, t, v, i);
        assert(owned_by(base, heads, u, own[cell_index(u)], lev[cell_index(u)]));
        assert(is_route(base, heads, t, v.take(i)) && v.take(i).last() == u);
        assert(sooner(lev[cell_index(u)], own[cell_index(u)], i - 1, t));
        assert(linked(v, i));
        let d = choose|d: Direction| u.can_step() && #[trigger] u.neighbour(d) == v[i];
        assert(free_at(cells, u.neighbour(d)));
        let a = choose|a: int|
            0 <= a < queue.len() && (#[trigger] queue[a]).1 == v[i] && keys[a] == (
                lev[cell_index(u)] + 1,
                own[cell_index(u)],
            );
        if a > 0 {
            assert(sooner(keys[0].0, keys[0].1, keys[a].0, keys[a].1));
        }
    }
}

/// The free cell under the entry at the front of the queue belongs to the seed of
/// that entry.
pub proof fn lemma_front_owns(
    cells: Seq<i8>,
    base: Seq<i8>,
    heads: Seq<(i8, Vec2D)>,
    queue: Seq<(i8, Vec2D)>,
    keys: Seq<(int, int)>,
    own: Seq<int>,
    lev: Seq<int>,
)
    requires
        noted(cells, base, heads, queue, keys, own, lev),
        queue.len() > 0,
        free_at(cells, queue[0].1),
    ensures
        owned_by(base, heads, queue[0].1, keys[0].1, keys[0].0),
        queue[0].0 == heads[keys[0].1].0,
        0 <= keys[0].1 < heads.len(),
        keys[0].0 >= 0,
{
    let p = queue[0].1;
    let j = keys[0].0;
    let s = keys[0].1;
    assert(entry_ok(cells, base, heads, queue[0], keys[0], own, lev)) by {
        reveal(t_entries);
    }
    assert(free_at(base, p));
    if j == 0 {
        let w = seq![p];
        assert(w[0] == p);
        assert forall|k: int| 1 <= k < w.len() implies #[trigger] linked(w, k) by {}
        assert(is_route(base, heads, s, w) && w.last() == p && w.len() == j + 1);
    } else {
        let u = choose|u: Vec2D|
            #[trigger] claimed(cells, base, u) && own[cell_index(u)] == s && lev[cell_index(u)] == j
                - 1 && u.adjacent(p);
        assert(owned_by(base, heads, u, s, j - 1)) by {
            reveal(t_claimed);
        }
        let wu = choose|w: Seq<Vec2D>| #[trigger] is_route(base, heads, s, w) && w.last() == u && w.len() == j - 1 + 1;
        lemma_route_push(base, heads, s, wu, p);
        let w = wu.push(p);
        assert(is_route(base, heads, s, w) && w.last() == p && w.len() == j + 1);
    }
    assert forall|t: int, v: Seq<Vec2D>|
        #[trigger] is_route(base, heads, t, v) && v.last() == p implies sooner(j, s, v.len() - 1, t) by {
        lemma_route_sooner(cells, base, heads, queue, keys, own, lev, t, v);
    }
}

/// The notes of the entries that come behind the queue when the cell under its
/// front is claimed: each for the seed of the front at one step more.
pub open spec fn more_keys(n: nat, j: int, s: int) -> Seq<(int, int)> {
    Seq::new(n, |i: int| (j + 1, s))
}

/// Dropping the front of the queue, whose cell is not free, keeps the notes true.
pub proof fn lemma_track_skip(
    cells: Seq<i8>,
    base: Seq<i8>,
    heads: Seq<(i8, Vec2D)>,
    queue: Seq<(i8, Vec2D)>,
    keys: Seq<(int, int)>,
    own: Seq<int>,
    lev: Seq<int>,
)
    requires
        noted(cells, base, heads, queue, keys, own, lev),
        queue.len() > 0,
        !free_at(cells, queue[0].1),
    ensures
        noted(
            cells,
            base,
            heads,
            queue.subrange(1, queue.len() as int),
            keys.subrange(1, keys.len() as int),
            own,
            lev,
        ),
{
    let rest = queue.subrange(1, queue.len() as int);
    let krest = keys.subrange(1, keys.len() as int);
    lemma_rest_order(keys);
    assert(t_entries(cells, base, heads, rest, krest, own, lev)) by {
        reveal(t_entries);
        assert forall|a: int| 0 <= a < rest.len() implies #[trigger] entry_ok(
            cells,
            base,
            heads,
            rest[a],
            krest[a],
            own,
            lev,
        ) by {
            assert(entry_ok(cells, base, heads, queue[a + 1], keys[a + 1], own, lev));
        }
    }
    assert(t_pending(cells, base, heads, rest, krest, own, lev)) by {
        reveal(t_pending);
        assert forall|n: Vec2D, j: int, s: int|
            free_at(cells, n) && #[trigger] waits(queue, keys, n, j, s) implies waits(
            rest,
            krest,
            n,
            j,
            s,
        ) by {
            lemma_waits_rest(queue, keys, Seq::empty(), Seq::empty(), n, j, s);
            assert(rest + Seq::<(i8, Vec2D)>::empty() =~= rest);
            assert(krest + Seq::<(int, int)>::empty() =~= krest);
        }
    }
}

/// Behind the front of an ordered queue the entries are in order, and none comes
/// before the front or after the front at one step more; the same holds with the
/// new front in place of the old.
proof fn lemma_rest_order(keys: Seq<(int, int)>)
    requires
        keys.len() > 0,
        t_sorted(keys),
        t_between(keys, keys[0].0, keys[0].1),
    ensures
        t_sorted(keys.subrange(1, keys.len() as int)),
        t_between(keys.subrange(1, keys.len() as int), keys[0].0, keys[0].1),
        keys.len() > 1 ==> t_between(keys.subrange(1, keys.len() as int), keys[1].0, keys[1].1),
{
    reveal(t_sorted);
    reveal(t_between);
    let krest = keys.subrange(1, keys.len() as int);
    assert forall|a: int, b: int| 0 <= a < b < krest.len() implies sooner(
        (#[trigger] krest[a]).0,
        krest[a].1,
        (#[trigger] krest[b]).0,
        krest[b].1,
    ) by {
        assert(krest[a] == keys[a + 1] && krest[b] == keys[b + 1]);
        assert(sooner(keys[a + 1].0, keys[a + 1].1, keys[b + 1].0, keys[b + 1].1));
    }
    assert forall|a: int| 0 <= a < krest.len() implies sooner(
        keys[0].0,
        keys[0].1,
        (#[trigger] krest[a]).0,
        krest[a].1,
    ) && sooner(krest[a].0, krest[a].1, keys[0].0 + 1, keys[0].1) by {
        assert(krest[a] == keys[a + 1]);
        assert(sooner(keys[0].0, keys[0].1, keys[a + 1].0, keys[a + 1].1));
    }
    if keys.len() > 1 {
        assert(sooner(keys[0].0, keys[0].1, keys[1].0, keys[1].1));
        assert forall|a: int| 0 <= a < krest.len() implies sooner(
            keys[1].0,
            keys[1].1,
            (#[trigger] krest[a]).0,
            krest[a].1,
        ) && sooner(krest[a].0, krest[a].1, keys[1].0 + 1, keys[1].1) by {
            assert(krest[a] == keys[a + 1]);
            if a > 0 {
                assert(sooner(keys[1].0, keys[1].1, keys[a + 1].0, keys[a + 1].1));
            }
            assert(sooner(keys[a + 1].0, keys[a + 1].1, keys[0].0 + 1, keys[0].1));
        }
    }
}

/// An entry that waits on a cell other than the one under the front still waits
/// when the front is gone and more is queued behind.
proof fn lemma_waits_rest(
    queue: Seq<(i8, Vec2D)>,
    keys: Seq<(int, int)>,
    more: Seq<(i8, Vec2D)>,
    kmore: Seq<(int, int)>,
    n: Vec2D,
    j: int,
    s: int,
)
    requires
        queue.len() > 0,
        keys.len() == queue.len(),
        kmore.len() == more.len(),
        waits(queue, keys, n, j, s),
        queue[0].1 != n,
    ensures
        waits(
            queue.subrange(1, queue.len() as int) + more,
            keys.subrange(1, keys.len() as int) + kmore,
            n,
            j,
            s,
        ),
{
    let a = choose|a: int| 0 <= a < queue.len() && (#[trigger] queue[a]).1 == n && keys[a] == (j, s);
    let q2 = queue.subrange(1, queue.len() as int) + more;
    let k2 = keys.subrange(1, keys.len() as int) + kmore;
    assert(q2[a - 1] == queue[a]);
    assert(k2[a - 1] == keys[a]);
}

/// Every entry that is kept of those around `p` stands on a neighbour of `p` under
/// `label`.
proof fn lemma_kept_near(cells: Seq<i8>, label: i8, p: Vec2D, i: int)
    requires
        0 <= i < keep_free(cells, around(label, p)).len(),
    ensures
        exists|d: Direction| keep_free(cells, around(label, p))[i] == (label, #[trigger] p.neighbour(d)),
{
    let a = around(label, p);
    let pred = |e: (i8, Vec2D)| free_at(cells, e.1);
    let f = keep_free(cells, a);
    assert(f == a.filter(pred));
    assert(f.contains(f[i]));
    a.lemma_filter_contains_rev(pred, f[i]);
    let k = choose|k: int| 0 <= k < a.len() && a[k] == f[i];
    assert(f[i] == (label, p.neighbour(Direction::every()[k])));
}

/// Claiming the free cell under the front of the queue for its label, and queueing
/// its free neighbours behind, keeps the notes true when the cell is noted for the
/// seed of the front and the new entries for that seed at one step more.
pub proof fn lemma_track_claim(
    cells: Seq<i8>,
    base: Seq<i8>,
    heads: Seq<(i8, Vec2D)>,
    queue: Seq<(i8, Vec2D)>,
    keys: Seq<(int, int)>,
    own: Seq<int>,
    lev: Seq<int>,
)
    requires
        noted(cells, base, heads, queue, keys, own, lev),
        queue.len() > 0,
        free_at(cells, queue[0].1),
        queue[0].0 != BOARD_FREE,
    ensures
        noted(
            cells.update(cell_index(queue[0].1), queue[0].0),
            base,
            heads,
            queue.subrange(1, queue.len() as int) + keep_free(
                cells.update(cell_index(queue[0].1), queue[0].0),
                around(queue[0].0, queue[0].1),
            ),
            keys.subrange(1, keys.len() as int) + more_keys(
                keep_free(
                    cells.update(cell_index(queue[0].1), queue[0].0),
                    around(queue[0].0, queue[0].1),
                ).len(),
                keys[0].0,
                keys[0].1,
            ),
            own.update(cell_index(queue[0].1), keys[0].1),
            lev.update(cell_index(queue[0].1), keys[0].0),
        ),
{
    let p = queue[0].1;
    let l = queue[0].0;
    let j = keys[0].0;
    let s = keys[0].1;
    let i = cell_index(p);
    let c2 = cells.update(i, l);
    let rest = queue.subrange(1, queue.len() as int);
    let krest = keys.subrange(1, keys.len() as int);
    let more = keep_free(c2, around(l, p));
    let kmore = more_keys(more.len(), j, s);
    let q2 = rest + more;
    let k2 = krest + kmore;
    let own2 = own.update(i, s);
    let lev2 = lev.update(i, j);
    lemma_front_owns(cells, base, heads, queue, keys, own, lev);
    lemma_keep_free_around(c2, l, p);
    assert(free_at(base, p));
    assert forall|c: Vec2D| claimed(c2, base, c) && c != p implies claimed(cells, base, c)
        && own2[cell_index(c)] == own[cell_index(c)] && lev2[cell_index(c)] == lev[cell_index(c)] by {
        lemma_cell_index_injective(c, p);
    }
    assert forall|c: Vec2D| claimed(cells, base, c) implies claimed(c2, base, c) && c != p
        && own2[cell_index(c)] == own[cell_index(c)] && lev2[cell_index(c)] == lev[cell_index(c)] by {
        lemma_cell_index_injective(c, p);
    }
    assert(claimed(c2, base, p));
    assert(t_claimed(c2, base, heads, own2, lev2)) by {
        reveal(t_claimed);
        assert forall|c: Vec2D| #[trigger] claimed(c2, base, c) implies owned_by(
            base,
            heads,
            c,
            own2[cell_index(c)],
            lev2[cell_index(c)],
        ) && c2[cell_index(c)] == heads[own2[cell_index(c)]].0 by {
            if c != p {
                lemma_cell_index_injective(c, p);
                assert(claimed(cells, base, c));
            }
        }
    }
    assert(t_entries(c2, base, heads, q2, k2, own2, lev2)) by {
        reveal(t_entries);
        assert forall|a: int| 0 <= a < q2.len() implies #[trigger] entry_ok(
            c2,
            base,
            heads,
            q2[a],
            k2[a],
            own2,
            lev2,
        ) by {
            if a < rest.len() {
                assert(q2[a] == queue[a + 1] && k2[a] == keys[a + 1]);
                assert(entry_ok(cells, base, heads, queue[a + 1], keys[a + 1], own, lev));
                if keys[a + 1].0 >= 1 {
                    let u = choose|u: Vec2D|
                        #[trigger] claimed(cells, base, u) && own[cell_index(u)] == keys[a + 1].1
                            && lev[cell_index(u)] == keys[a + 1].0 - 1 && u.adjacent(queue[a + 1].1);
                    assert(claimed(c2, base, u));
                }
            } else {
                let b = a - rest.len();
                assert(q2[a] == more[b] && k2[a] == kmore[b]);
                lemma_kept_near(c2, l, p, b);
                let d = choose|d: Direction| more[b] == (l, #[trigger] p.neighbour(d));
                assert(p.can_step() && p.neighbour(d) == more[b].1);
                assert(p.adjacent(more[b].1));
                assert(claimed(c2, base, p));
            }
        }
    }
    lemma_rest_order(keys);
    assert(t_sorted(k2)) by {
        reveal(t_sorted);
        reveal(t_between);
        assert forall|a: int, b: int| 0 <= a < b < k2.len() implies sooner(
            (#[trigger] k2[a]).0,
            k2[a].1,
            (#[trigger] k2[b]).0,
            k2[b].1,
        ) by {
            if b < krest.len() {
                assert(k2[a] == krest[a] && k2[b] == krest[b]);
            } else if a < krest.len() {
                assert(k2[a] == krest[a] && k2[b] == kmore[b - krest.len()]);
            } else {
                assert(k2[a] == kmore[a - krest.len()] && k2[b] == kmore[b - krest.len()]);
            }
        }
    }
    if k2.len() > 0 {
        assert(t_between(k2, k2[0].0, k2[0].1)) by {
            reveal(t_between);
            assert forall|a: int| 0 <= a < k2.len() implies sooner(
                k2[0].0,
                k2[0].1,
                (#[trigger] k2[a]).0,
                k2[a].1,
            ) && sooner(k2[a].0, k2[a].1, k2[0].0 + 1, k2[0].1) by {
                if krest.len() > 0 {
                    assert(k2[0] == krest[0]);
                    assert(krest[0] == keys[1]);
                } else {
                    assert(k2[0] == kmore[0]);
                }
                if a < krest.len() {
                    assert(k2[a] == krest[a]);
                } else {
                    assert(k2[a] == kmore[a - krest.len()]);
                }
            }
        }
    }
    assert(t_pending(c2, base, heads, q2, k2, own2, lev2)) by {
        reveal(t_pending);
        assert forall|u: Vec2D, d: Direction|
            claimed(c2, base, u) && free_at(c2, #[trigger] u.neighbour(d)) implies waits(
            q2,
            k2,
            u.neighbour(d),
            lev2[cell_index(u)] + 1,
            own2[cell_index(u)],
        ) by {
            let n = u.neighbour(d);
            lemma_cell_index_injective(n, p);
            assert(free_at(cells, n) && n != p);
            if u == p {
                assert(queued(more, n));
                let b = choose|b: int| 0 <= b < more.len() && (#[trigger] more[b]).1 == n;
                assert(q2[rest.len() + b] == more[b]);
                assert(k2[rest.len() + b] == kmore[b]);
            } else {
                assert(claimed(cells, base, u));
                assert(waits(queue, keys, n, lev[cell_index(u)] + 1, own[cell_index(u)]));
                lemma_waits_rest(
                    queue,
                    keys,
                    more,
                    kmore,
                    n,
                    lev[cell_index(u)] + 1,
                    own[cell_index(u)],
                );
            }
        }
        assert forall|t: int| 0 <= t < heads.len() && free_at(c2, (#[trigger] heads[t]).1) implies waits(
            q2,
            k2,
            heads[t].1,
            0,
            t,
        ) by {
            let n = heads[t].1;
            lemma_cell_index_injective(n, p);
            assert(free_at(cells, n) && n != p);
            lemma_waits_rest(queue, keys, more, kmore, n, 0, t);
        }
    }
    assert forall|x: int| 0 <= x < BOARD_CELLS && base[x] != BOARD_FREE implies #[trigger] c2[x]
        == base[x] by {
        assert(cells[x] == base[x]);
    }
}

/// What the notes say while the seeds are queued: the entries are the first `k`
/// seeds that stand on open cells, in their order, each noted for itself at no step.
pub open spec fn seeds_noted(
    base: Seq<i8>,
    heads: Seq<(i8, Vec2D)>,
    queue: Seq<(i8, Vec2D)>,
    keys: Seq<(int, int)>,
    k: int,
) -> bool {
    &&& keys.len() == queue.len()
    &&& forall|a: int|
        0 <= a < queue.len() ==> (#[trigger] keys[a]).0 == 0 && 0 <= keys[a].1 < k && keys[a].1
            < heads.len() && queue[a] == heads[keys[a].1]
    &&& forall|a: int, b: int|
        0 <= a < b < keys.len() ==> (#[trigger] keys[a]).1 < (#[trigger] keys[b]).1
    &&& forall|s: int|
        0 <= s < k && s < heads.len() && open_at(base, (#[trigger] heads[s]).1) ==> waits(
            queue,
            keys,
            heads[s].1,
            0,
            s,
        )
}

/// Queueing the next seed where it stands on an open cell, with its note, keeps the
/// notes of the seeds true.
pub proof fn lemma_seed_step(
    base: Seq<i8>,
    heads: Seq<(i8, Vec2D)>,
    queue: Seq<(i8, Vec2D)>,
    keys: Seq<(int, int)>,
    k: int,
)
    requires
        0 <= k < heads.len(),
        seeds_noted(base, heads, queue, keys, k),
    ensures
        open_at(base, heads[k].1) ==> seeds_noted(
            base,
            heads,
            queue.push(heads[k]),
            keys.push((0int, k)),
            k + 1,
        ),
        !open_at(base, heads[k].1) ==> seeds_noted(base, heads, queue, keys, k + 1),
{
    if open_at(base, heads[k].1) {
        let q2 = queue.push(heads[k]);
        let k2 = keys.push((0int, k));
        assert forall|a: int| 0 <= a < q2.len() implies (#[trigger] k2[a]).0 == 0 && 0 <= k2[a].1 < k
            + 1 && k2[a].1 < heads.len() && q2[a] == heads[k2[a].1] by {
            if a < queue.len() {
                assert(k2[a] == keys[a] && q2[a] == queue[a]);
            }
        }
        assert forall|a: int, b: int| 0 <= a < b < k2.len() implies (#[trigger] k2[a]).1 < (
        #[trigger] k2[b]).1 by {
            assert(k2[a] == keys[a]);
            if b < keys.len() {
                assert(k2[b] == keys[b]);
            }
        }
        assert forall|s: int|
            0 <= s < k + 1 && s < heads.len() && open_at(base, (#[trigger] heads[s]).1) implies waits(
            q2,
            k2,
            heads[s].1,
            0,
            s,
        ) by {
            if s < k {
                let a = choose|a: int|
                    0 <= a < queue.len() && (#[trigger] queue[a]).1 == heads[s].1 && keys[a] == (0int, s);
                assert(q2[a] == queue[a] && k2[a] == keys[a]);
            } else {
                assert(q2[queue.len() as int] == heads[k] && k2[queue.len() as int] == (0int, k));
            }
        }
    }
}

/// Once the seeds are queued the notes of the fill are true.
pub proof fn lemma_track_begin(
    base: Seq<i8>,
    heads: Seq<(i8, Vec2D)>,
    queue: Seq<(i8, Vec2D)>,
    keys: Seq<(int, int)>,
    own: Seq<int>,
    lev: Seq<int>,
)
    requires
        base.len() == BOARD_CELLS,
        own.len() == BOARD_CELLS,
        lev.len() == BOARD_CELLS,
        seeds_noted(base, heads, queue, keys, heads.len() as int),
    ensures
        noted(base, base, heads, queue, keys, own, lev),
{
    reveal(t_entries);
    reveal(t_sorted);
    reveal(t_between);
    reveal(t_claimed);
    reveal(t_pending);
    assert forall|a: int| 0 <= a < queue.len() implies #[trigger] entry_ok(
        base,
        base,
        heads,
        queue[a],
        keys[a],
        own,
        lev,
    ) by {
        assert(keys[a].0 == 0);
    }
    assert forall|a: int, b: int| 0 <= a < b < keys.len() implies sooner(
        (#[trigger] keys[a]).0,
        keys[a].1,
        (#[trigger] keys[b]).0,
        keys[b].1,
    ) by {
        assert(keys[a].1 < keys[b].1);
    }
    if keys.len() > 0 {
        assert forall|a: int| 0 <= a < keys.len() implies sooner(
            keys[0].0,
            keys[0].1,
            (#[trigger] keys[a]).0,
            keys[a].1,
        ) && sooner(keys[a].0, keys[a].1, keys[0].0 + 1, keys[0].1) by {
            if a > 0 {
                assert(keys[0].1 < keys[a].1);
            }
        }
    }
}

/// Notes for the seeds among the first `k` of `heads` that stand on open cells.
proof fn lemma_seeds(base: Seq<i8>, heads: Seq<(i8, Vec2D)>, k: int) -> (keys: Seq<(int, int)>)
    requires
        0 <= k <= heads.len(),
    ensures
        seeds_noted(base, heads, keep_open(base, heads.take(k)), keys, k),
    decreases k,
{
    if k == 0 {
        assert(heads.take(0) =~= Seq::<(i8, Vec2D)>::empty());
        assert(keep_open(base, heads.take(0)) =~= Seq::<(i8, Vec2D)>::empty()) by {
            reveal_with_fuel(Seq::filter, 1);
        }
        Seq::empty()
    } else {
        let keys = lemma_seeds(base, heads, k - 1);
        lemma_keep_open_step(base, heads, k - 1);
        lemma_seed_step(base, heads, keep_open(base, heads.take(k - 1)), keys, k - 1);
        if open_at(base, heads[k - 1].1) {
            keys.push((0int, k - 1))
        } else {
            keys
        }
    }
}

/// Where the notes are true of a fill that is under way, there are notes that are
/// true of every cell that it will have claimed when it ends.
proof fn lemma_run_owner(
    cells: Seq<i8>,
    base: Seq<i8>,
    heads: Seq<(i8, Vec2D)>,
    queue: Seq<(i8, Vec2D)>,
    keys: Seq<(int, int)>,
    own: Seq<int>,
    lev: Seq<int>,
) -> (notes: (Seq<int>, Seq<int>))
    requires
        noted(cells, base, heads, queue, keys, own, lev),
        forall|k: int| 0 <= k < heads.len() ==> (#[trigger] heads[k]).0 != BOARD_FREE,
    ensures
        t_claimed(flood_run(cells, queue), base, heads, notes.0, notes.1),
    decreases occurrences(cells, BOARD_FREE), queue.len(),
{
    if queue.len() == 0 {
        (own, lev)
    } else {
        let label = queue[0].0;
        let p = queue[0].1;
        assert(entry_ok(cells, base, heads, queue[0], keys[0], own, lev)) by {
            reveal(t_entries);
        }
        assert(label != BOARD_FREE);
        if free_at(cells, p) {
            lemma_track_claim(cells, base, heads, queue, keys, own, lev);
            lemma_occurrences_update(cells, cell_index(p), label, BOARD_FREE);
            let c2 = cells.update(cell_index(p), label);
            lemma_run_owner(
                c2,
                base,
                heads,
                queue.subrange(1, queue.len() as int) + keep_free(c2, around(label, p)),
                keys.subrange(1, keys.len() as int) + more_keys(
                    keep_free(c2, around(label, p)).len(),
                    keys[0].0,
                    keys[0].1,
                ),
                own.update(cell_index(p), keys[0].1),
                lev.update(cell_index(p), keys[0].0),
            )
        } else {
            lemma_track_skip(cells, base, heads, queue, keys, own, lev);
            lemma_run_owner(
                cells,
                base,
                heads,
                queue.subrange(1, queue.len() as int),
                keys.subrange(1, keys.len() as int),
                own,
                lev,
            )
        }
    }
}

/// A cell that the fill of `base` from `heads` has labelled belongs to the nearest
/// seed, the earliest of several that are equally near: it carries the label of a
/// seed that reaches it over free cells in the least number of steps, and of the
/// seeds that do so in that number the one that comes first in `heads`.
pub proof fn lemma_flood_owner(base: Seq<i8>, heads: Seq<(i8, Vec2D)>, p: Vec2D)
    requires
        base.len() == BOARD_CELLS,
        forall|k: int| 0 <= k < heads.len() ==> (#[trigger] heads[k]).0 != BOARD_FREE,
        on_board(p),
        flood_run(base, keep_open(base, heads))[cell_index(p)] != base[cell_index(p)],
    ensures
        belongs_to_nearest(
            base,
            heads,
            flood_run(base, keep_open(base, heads))[cell_index(p)],
            p,
        ),
{
    let keys = lemma_seeds(base, heads, heads.len() as int);
    assert(heads.take(heads.len() as int) =~= heads);
    let own = Seq::new(BOARD_CELLS as nat, |i: int| 0int);
    let lev = Seq::new(BOARD_CELLS as nat, |i: int| 0int);
    let queue = keep_open(base, heads);
    lemma_track_begin(base, heads, queue, keys, own, lev);
    let notes = lemma_run_owner(base, base, heads, queue, keys, own, lev);
    let result = flood_run(base, queue);
    reveal(t_claimed);
    assert(claimed(result, base, p));
    assert(owned_by(base, heads, p, notes.0[cell_index(p)], notes.1[cell_index(p)]));
}

} // verus!
