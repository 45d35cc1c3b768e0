//! Who owns which cell: a fill of the board from the heads of the live snakes,
//! layer by layer, with ties settled by length.

use crate::env::{Direction, Vec2D};
use crate::game::simulator::Game;
use crate::game::state::GameState;
use vstd::prelude::*;

verus! {

/// What the fill says of a cell.
#[derive(Clone, Copy, Debug, PartialEq, Eq, Structural)]
pub enum Owner {
    /// A body cell of a live snake that no front could enter.
    Wall,
    /// A cell that no front has come to.
    Unowned,
    /// A cell to which the fronts of two snakes of the same length came at once,
    /// and none of a longer snake.
    Contested,
    /// A cell that the front of the snake with this id took.
    Snake(u8),
}

/// How body cells stand in the way of the fronts.
#[derive(Clone, Copy, Debug, PartialEq, Eq, Structural)]
pub enum WallModel {
    /// Every body cell of a live snake is a wall for good.
    Static,
    /// A body cell is a wall for as many ticks as it takes the tail to get past it:
    /// the cell `k` cells behind the head of a snake of length `n` for `n - k` ticks.
    Dissolving,
}

/// The number of cells with the label `l`.
pub open spec fn count_label(owner: Seq<Owner>, l: Owner) -> nat
    decreases owner.len(),
{
    if owner.len() == 0 {
        0
    } else {
        count_label(owner.drop_last(), l) + if owner.last() == l {
            1nat
        } else {
            0nat
        }
    }
}

/// The number of cells that belong to a snake.
pub open spec fn count_owned(owner: Seq<Owner>) -> nat
    decreases owner.len(),
{
    if owner.len() == 0 {
        0
    } else {
        count_owned(owner.drop_last()) + if owner.last() is Snake {
            1nat
        } else {
            0nat
        }
    }
}

/// The number of cells that belong to the snakes with ids below `n`, snake by snake.
pub open spec fn owned_by_ids(owner: Seq<Owner>, n: int) -> nat
    decreases n,
{
    if n <= 0 {
        0
    } else {
        owned_by_ids(owner, n - 1) + count_label(owner, Owner::Snake((n - 1) as u8))
    }
}

/// The number of cells that no front has come to yet.
pub open spec fn count_unreached(reach: Seq<usize>) -> nat
    decreases reach.len(),
{
    if reach.len() == 0 {
        0
    } else {
        count_unreached(reach.drop_last()) + if reach.last() == 0 {
            1nat
        } else {
            0nat
        }
    }
}

proof fn lemma_unreached_update(reach: Seq<usize>, i: int, v: usize)
    requires
        0 <= i < reach.len(),
    ensures
        count_unreached(reach.update(i, v)) + (if reach[i] == 0 { 1nat } else { 0nat })
            == count_unreached(reach) + (if v == 0 { 1nat } else { 0nat }),
    decreases reach.len(),
{
    let t = reach.update(i, v);
    if i == reach.len() - 1 {
        assert(t.drop_last() =~= reach.drop_last());
    } else {
        assert(t.drop_last() =~= reach.drop_last().update(i, v));
        lemma_unreached_update(reach.drop_last(), i, v);
    }
}

/// One more cell adds to the count of the snakes with ids below `n` where it belongs
/// to one of them.
proof fn lemma_owned_by_ids_push(owner: Seq<Owner>, x: Owner, n: int)
    requires
        0 <= n <= 256,
    ensures
        owned_by_ids(owner.push(x), n) == owned_by_ids(owner, n) + if x matches Owner::Snake(id)
            && id < n {
            1nat
        } else {
            0nat
        },
    decreases n,
{
    if n > 0 {
        lemma_owned_by_ids_push(owner, x, n - 1);
        assert(owner.push(x).drop_last() =~= owner);
    }
}

/// Every cell has exactly one label and every owned cell exactly one owner: the
/// cells of the snakes, counted snake by snake, and the unowned, contested and wall
/// cells are all the cells there are.
pub proof fn lemma_partition(owner: Seq<Owner>)
    ensures
        owned_by_ids(owner, 256) == count_owned(owner),
        count_owned(owner) + count_label(owner, Owner::Unowned) + count_label(
            owner,
            Owner::Contested,
        ) + count_label(owner, Owner::Wall) == owner.len(),
    decreases owner.len(),
{
    if owner.len() == 0 {
        assert(owner =~= Seq::<Owner>::empty());
        lemma_owned_by_ids_empty(256);
    } else {
        let before = owner.drop_last();
        let x = owner.last();
        lemma_partition(before);
        assert(before.push(x) =~= owner);
        lemma_owned_by_ids_push(before, x, 256);
        assert(owned_by_ids(owner, 256) == owned_by_ids(before, 256) + if x is Snake {
            1nat
        } else {
            0nat
        });
    }
}

proof fn lemma_owned_by_ids_empty(n: int)
    ensures
        owned_by_ids(Seq::<Owner>::empty(), n) == 0,
    decreases n,
{
    if n > 0 {
        lemma_owned_by_ids_empty(n - 1);
    }
}

/// Whether `p` is a body cell of a live snake.
pub open spec fn occupied(g: GameState, p: Vec2D) -> bool {
    exists|s: int, k: int|
        0 <= s < g.snakes.len() && g.snakes[s].alive() && 0 <= k < g.snakes[s].body.len()
            && #[trigger] g.snakes[s].body[k] == p
}

/// Whether a body cell of a live snake stands at `p` in the way of a front that
/// comes there in layer `t`.
pub open spec fn blocked(g: GameState, model: WallModel, p: Vec2D, t: int) -> bool {
    exists|s: int, k: int|
        0 <= s < g.snakes.len() && g.snakes[s].alive() && 0 <= k < g.snakes[s].body.len()
            && #[trigger] g.snakes[s].body[k] == p && (model is Static || t
            < g.snakes[s].body.len() - k)
}

/// The position of the cell `p` in the row-major sequence of the cells of a board
/// with this width.
pub open spec fn cell_slot(width: usize, p: Vec2D) -> int {
    p.y * width + p.x
}

/// The cells of a board have different positions, all below the number of cells.
pub proof fn lemma_cell_slot(g: GameState, p: Vec2D, q: Vec2D)
    requires
        g.has(p),
        g.has(q),
    ensures
        0 <= cell_slot(g.width, p) < g.width * g.height,
        cell_slot(g.width, p) == cell_slot(g.width, q) ==> p == q,
{
    let w = g.width as int;
    let h = g.height as int;
    let (px, py, qx, qy) = (p.x as int, p.y as int, q.x as int, q.y as int);
    assert(0 <= py * w + px < w * h) by (nonlinear_arith)
        requires
            0 <= px < w,
            0 <= py < h,
    ;
    assert(py * w + px == qy * w + qx ==> py == qy && px == qx) by (nonlinear_arith)
        requires
            0 <= px < w,
            0 <= qx < w,
            0 <= py,
            0 <= qy,
    ;
}

/// What a fill has found: for each cell its label and the layer in which a front
/// took it, 0 where none did.
pub struct FloodState {
    pub owner: Seq<Owner>,
    pub reach: Seq<usize>,
}

/// The length of the snake with this id.
pub open spec fn body_len(g: GameState, id: u8) -> int {
    g.snakes[id as int].body.len() as int
}

/// Whether the front of the live snake `s` stands on the cell `q` in layer `t`: in
/// layer 0 on its head, later on the cells that it took in that layer.
pub open spec fn fresh(g: GameState, f: FloodState, q: Vec2D, s: u8, t: int) -> bool {
    &&& s < g.snakes.len()
    &&& g.snakes[s as int].alive()
    &&& g.has(q)
    &&& if t == 0 {
        g.snakes[s as int].head() == q
    } else {
        f.owner[cell_slot(g.width, q)] == Owner::Snake(s) && f.reach[cell_slot(g.width, q)] == t
    }
}

/// Whether the front of snake `s` comes to `p` in layer `t`: from a neighbour on
/// which it stood in the layer before.
pub open spec fn comes(g: GameState, f: FloodState, p: Vec2D, s: u8, t: int) -> bool {
    t >= 1 && exists|d: Direction| fresh(g, f, #[trigger] p.neighbour(d), s, t - 1)
}

/// Whether some front comes to `p` in layer `t`.
pub open spec fn arrives(g: GameState, f: FloodState, p: Vec2D, t: int) -> bool {
    exists|s: u8| comes(g, f, p, s, t)
}

/// Whether no front enters `p` in the layers from 1 to `last`: whenever one comes, a
/// body cell is in its way.
pub open spec fn kept_out(g: GameState, model: WallModel, f: FloodState, p: Vec2D, last: int) -> bool {
    forall|u: int| 1 <= u <= last ==> blocked(g, model, p, u) || !#[trigger] arrives(g, f, p, u)
}

/// Whether `t` is the first layer in which a front comes to `p` with nothing in its way.
pub open spec fn entered(g: GameState, model: WallModel, f: FloodState, p: Vec2D, t: int) -> bool {
    &&& t >= 1
    &&& !blocked(g, model, p, t)
    &&& arrives(g, f, p, t)
    &&& kept_out(g, model, f, p, t - 1)
}

/// Whether snake `s` is the one to take `p` in layer `t`: its front comes there, and
/// every other snake whose front comes there too is shorter.
pub open spec fn wins(g: GameState, f: FloodState, p: Vec2D, s: u8, t: int) -> bool {
    &&& comes(g, f, p, s, t)
    &&& forall|r: u8| #[trigger] comes(g, f, p, r, t) ==> r == s || body_len(g, r) < body_len(g, s)
}

/// Whether no snake takes `p` in layer `t` because two of the same length come
/// there and none that is longer.
pub open spec fn tied(g: GameState, f: FloodState, p: Vec2D, t: int) -> bool {
    exists|a: u8, b: u8|
        {
            &&& a != b
            &&& #[trigger] comes(g, f, p, a, t)
            &&& #[trigger] comes(g, f, p, b, t)
            &&& body_len(g, a) == body_len(g, b)
            &&& forall|r: u8| #[trigger] comes(g, f, p, r, t) ==> body_len(g, r) <= body_len(g, a)
        }
}

/// Whether the label of `p` is the one that the fill of `g` gives it.
pub open spec fn settled_at(g: GameState, model: WallModel, f: FloodState, p: Vec2D) -> bool {
    let i = cell_slot(g.width, p);
    match f.owner[i] {
        Owner::Snake(id) => entered(g, model, f, p, f.reach[i] as int) && wins(
            g,
            f,
            p,
            id,
            f.reach[i] as int,
        ),
        Owner::Contested => entered(g, model, f, p, f.reach[i] as int) && tied(
            g,
            f,
            p,
            f.reach[i] as int,
        ),
        Owner::Unowned => f.reach[i] == 0 && !occupied(g, p) && forall|last: int|
            kept_out(g, model, f, p, last),
        Owner::Wall => f.reach[i] == 0 && occupied(g, p) && forall|last: int|
            kept_out(g, model, f, p, last),
    }
}

/// Whether `f` is the fill of the board of `g` from the heads of its live snakes.
///
/// The fronts advance one cell per layer in all four directions, from the heads in
/// layer 0 and then from the cells taken in the layer before. A cell is entered in
/// the first layer in which a front comes to it and no body cell is in the way. It
/// then goes to the longest snake whose front has come, or to nobody where two are
/// the longest, and in that case no front goes on from it.
pub open spec fn settled(g: GameState, model: WallModel, f: FloodState) -> bool {
    &&& f.owner.len() == g.width * g.height
    &&& f.reach.len() == g.width * g.height
    &&& forall|p: Vec2D| g.has(p) ==> #[trigger] settled_at(g, model, f, p)
}

/// The board with the labels of a fill; its buffers are kept from one fill to the next.
pub struct FloodFill {
    width: usize,
    height: usize,
    owner: Vec<Owner>,
    reach: Vec<usize>,
    strength: Vec<usize>,
    solid: Vec<usize>,
    you: u8,
    model: WallModel,
}

impl View for FloodFill {
    type V = FloodState;

    closed spec fn view(&self) -> FloodState {
        FloodState { owner: self.owner@, reach: self.reach@ }
    }
}

impl FloodFill {
    pub closed spec fn spec_width(&self) -> usize {
        self.width
    }

    pub closed spec fn spec_height(&self) -> usize {
        self.height
    }

    /// The id of the snake that the last fill was made for.
    pub closed spec fn spec_you(&self) -> u8 {
        self.you
    }

    pub closed spec fn spec_model(&self) -> WallModel {
        self.model
    }

    /// Whether there is a label for each cell.
    pub closed spec fn wf(&self) -> bool {
        &&& self.owner@.len() == self.width * self.height
        &&& self.reach@.len() == self.width * self.height
        &&& self.width <= 32767
        &&& self.height <= 32767
    }

    /// Whether `p` lies on the board.
    pub open spec fn spec_has(&self, p: Vec2D) -> bool {
        0 <= p.x < self.spec_width() && 0 <= p.y < self.spec_height()
    }

    /// An empty analyzer for boards of this size, with static walls.
    pub fn new(width: usize, height: usize) -> (f: FloodFill)
        ensures
            f.spec_width() == width,
            f.spec_height() == height,
            f.spec_model() == WallModel::Static,
            f.spec_you() == 0,
    {
        FloodFill {
            width,
            height,
            owner: Vec::new(),
            reach: Vec::new(),
            strength: Vec::new(),
            solid: Vec::new(),
            you: 0,
            model: WallModel::Static,
        }
    }

    /// Chooses how body cells stand in the way from the next fill on.
    pub fn set_model(&mut self, model: WallModel)
        ensures
            final(self).spec_model() == model,
            final(self)@ == old(self)@,
            final(self).spec_width() == old(self).spec_width(),
            final(self).spec_height() == old(self).spec_height(),
            final(self).spec_you() == old(self).spec_you(),
            final(self).wf() == old(self).wf(),
    {
        self.model = model;
    }

    /// The label of the cell `p` of a board that was filled.
    pub fn owner_of(&self, p: Vec2D) -> (o: Owner)
        requires
            self.wf(),
            self.spec_has(p),
        ensures
            o == self@.owner[cell_slot(self.spec_width(), p)],
    {
        self.owner[slot(self.width, self.height, p)]
    }

    /// Whether the cell `p` belongs to the snake that the fill was made for.
    pub fn is_you(&self, p: Vec2D) -> (b: bool)
        requires
            self.wf(),
            self.spec_has(p),
        ensures
            b == (self@.owner[cell_slot(self.spec_width(), p)] == Owner::Snake(self.spec_you())),
    {
        self.owner_of(p) == Owner::Snake(self.you)
    }

    /// The number of cells with the label `l`.
    pub fn count(&self, l: Owner) -> (n: usize)
        ensures
            n == count_label(self@.owner, l),
    {
        let mut n: usize = 0;
        let mut i: usize = 0;
        while i < self.owner.len()
            invariant
                i <= self.owner@.len(),
                n <= i,
                n == count_label(self.owner@.take(i as int), l),
            decreases self.owner@.len() - i,
        {
            proof {
                let s = self.owner@.take(i + 1);
                assert(s.drop_last() =~= self.owner@.take(i as int));
            }
            if self.owner[i] == l {
                n = n + 1;
            }
            i = i + 1;
        }
        assert(self.owner@.take(self.owner@.len() as int) =~= self.owner@);
        n
    }

    /// The number of cells that belong to the snake with this id.
    pub fn count_space(&self, id: u8) -> (n: usize)
        ensures
            n == count_label(self@.owner, Owner::Snake(id)),
    {
        self.count(Owner::Snake(id))
    }

    /// The number of cells that belong to any snake.
    pub fn count_owned(&self) -> (n: usize)
        ensures
            n == count_owned(self@.owner),
            n >= count_label(self@.owner, Owner::Snake(self.spec_you())),
    {
        let mut n: usize = 0;
        let mut i: usize = 0;
        while i < self.owner.len()
            invariant
                i <= self.owner@.len(),
                n <= i,
                n == count_owned(self.owner@.take(i as int)),
                n >= count_label(self.owner@.take(i as int), Owner::Snake(self.you)),
            decreases self.owner@.len() - i,
        {
            proof {
                let s = self.owner@.take(i + 1);
                assert(s.drop_last() =~= self.owner@.take(i as int));
            }
            match self.owner[i] {
                Owner::Snake(_) => {
                    n = n + 1;
                },
                _ => {},
            }
            i = i + 1;
        }
        assert(self.owner@.take(self.owner@.len() as int) =~= self.owner@);
        n
    }

    /// The number of cells that belong to the snake that the fill was made for
    /// (`you`), or to all the others together.
    pub fn count_space_of(&self, you: bool) -> (n: usize)
        ensures
            n == if you {
                count_label(self@.owner, Owner::Snake(self.spec_you())) as int
            } else {
                count_owned(self@.owner) - count_label(self@.owner, Owner::Snake(self.spec_you()))
            },
    {
        let mine = self.count(Owner::Snake(self.you));
        if you {
            mine
        } else {
            self.count_owned() - mine
        }
    }
}

/// The position of a cell of the board is below the number of cells, and there are
/// not too many cells to count.
proof fn lemma_slot_bound(width: usize, height: usize, p: Vec2D)
    requires
        0 <= p.x < width <= 32767,
        0 <= p.y < height <= 32767,
    ensures
        0 <= p.y * width + p.x < width * height,
        p.y * width <= width * height,
        width * height <= 1073676289,
{
    let w = width as int;
    let h = height as int;
    let (px, py) = (p.x as int, p.y as int);
    assert(0 <= py * w + px < w * h && py * w <= w * h && w * h <= 1073676289) by (nonlinear_arith)
        requires
            0 <= px < w <= 32767,
            0 <= py < h <= 32767,
    ;
}

/// The position of the cell `p` in the buffers.
fn slot(width: usize, height: usize, p: Vec2D) -> (i: usize)
    requires
        0 <= p.x < width <= 32767,
        0 <= p.y < height <= 32767,
    ensures
        i == cell_slot(width, p),
        i < width * height,
{
    proof {
        lemma_slot_bound(width, height, p);
    }
    p.y as usize * width + p.x as usize
}

/// Whether a body cell that comes before cell `k_end` of snake `s_end` stands at
/// `p` in the way of a front that comes there in layer `t`.
spec fn blocked_upto(g: GameState, model: WallModel, p: Vec2D, t: int, s_end: int, k_end: int) -> bool {
    exists|s: int, k: int|
        0 <= s < g.snakes.len() && g.snakes[s].alive() && 0 <= k < g.snakes[s].body.len() && (s
            < s_end || (s == s_end && k < k_end)) && #[trigger] g.snakes[s].body[k] == p && (model
            is Static || t < g.snakes[s].body.len() - k)
}

/// Whether the labels and the wall times are those of the body cells that come
/// before cell `k_end` of snake `s_end`.
#[verifier::opaque]
spec fn walls_upto(
    g: GameState,
    model: WallModel,
    owner: Seq<Owner>,
    solid: Seq<usize>,
    s_end: int,
    k_end: int,
) -> bool {
    forall|p: Vec2D|
        g.has(p) ==> {
            &&& #[trigger] owner[cell_slot(g.width, p)] == if blocked_upto(
                g,
                WallModel::Static,
                p,
                0,
                s_end,
                k_end,
            ) {
                Owner::Wall
            } else {
                Owner::Unowned
            }
            &&& forall|u: int|
                0 <= u < usize::MAX ==> ((u < solid[cell_slot(g.width, p)]) <==> #[trigger] blocked_upto(
                    g,
                    model,
                    p,
                    u,
                    s_end,
                    k_end,
                ))
        }
}

/// Whether the wall times say when a body cell is in the way.
#[verifier::opaque]
spec fn solid_is(g: GameState, model: WallModel, owner: Seq<Owner>, solid: Seq<usize>) -> bool {
    forall|p: Vec2D|
        g.has(p) ==> {
            &&& (#[trigger] owner[cell_slot(g.width, p)] is Wall <==> occupied(g, p))
            &&& forall|u: int|
                0 <= u < usize::MAX ==> ((u < solid[cell_slot(g.width, p)]) <==> #[trigger] blocked(
                    g,
                    model,
                    p,
                    u,
                ))
        }
}

/// Whether the wall times say when a body cell is in the way.
#[verifier::opaque]
spec fn solid_times(g: GameState, model: WallModel, solid: Seq<usize>) -> bool {
    forall|p: Vec2D, u: int|
        g.has(p) && 0 <= u < usize::MAX ==> ((u < solid[cell_slot(g.width, p)]) <==> #[trigger] blocked(
            g,
            model,
            p,
            u,
        ))
}

proof fn lemma_solid_times(g: GameState, model: WallModel, owner: Seq<Owner>, solid: Seq<usize>)
    requires
        solid_is(g, model, owner, solid),
    ensures
        solid_times(g, model, solid),
{
    reveal(solid_is);
    reveal(solid_times);
    assert forall|p: Vec2D, u: int| g.has(p) && 0 <= u < usize::MAX implies ((u < solid[cell_slot(
        g.width,
        p,
    )]) <==> #[trigger] blocked(g, model, p, u)) by {
        let o = owner[cell_slot(g.width, p)];
    }
}

proof fn lemma_walls_begin(g: GameState, model: WallModel, owner: Seq<Owner>, solid: Seq<usize>)
    requires
        forall|i: int| 0 <= i < owner.len() ==> owner[i] == Owner::Unowned,
        forall|i: int| 0 <= i < solid.len() ==> solid[i] == 0,
        owner.len() == g.width * g.height,
        solid.len() == g.width * g.height,
    ensures
        walls_upto(g, model, owner, solid, 0, 0),
{
    reveal(walls_upto);
    assert forall|p: Vec2D| g.has(p) implies {
        &&& #[trigger] owner[cell_slot(g.width, p)] == if blocked_upto(
            g,
            WallModel::Static,
            p,
            0,
            0,
            0,
        ) {
            Owner::Wall
        } else {
            Owner::Unowned
        }
        &&& forall|u: int|
            0 <= u < usize::MAX ==> ((u < solid[cell_slot(g.width, p)]) <==> #[trigger] blocked_upto(
                g,
                model,
                p,
                u,
                0,
                0,
            ))
    } by {
        lemma_cell_slot(g, p, p);
    }
}

/// Passing over a snake that is dead, or coming to the end of a body, adds no body cell.
proof fn lemma_blocked_skip(g: GameState, m: WallModel, p: Vec2D, u: int, s: int, k: int)
    requires
        0 <= s < g.snakes.len(),
        !g.snakes[s].alive() || k >= g.snakes[s].body.len(),
    ensures
        blocked_upto(g, m, p, u, s, k) == blocked_upto(g, m, p, u, s + 1, 0),
{
    if blocked_upto(g, m, p, u, s, k) {
        let (a, b) = choose|a: int, b: int|
            0 <= a < g.snakes.len() && g.snakes[a].alive() && 0 <= b < g.snakes[a].body.len() && (a
                < s || (a == s && b < k)) && #[trigger] g.snakes[a].body[b] == p && (m is Static
                || u < g.snakes[a].body.len() - b);
        assert(g.snakes[a].body[b] == p);
    }
    if blocked_upto(g, m, p, u, s + 1, 0) {
        let (a, b) = choose|a: int, b: int|
            0 <= a < g.snakes.len() && g.snakes[a].alive() && 0 <= b < g.snakes[a].body.len() && (a
                < s + 1 || (a == s + 1 && b < 0)) && #[trigger] g.snakes[a].body[b] == p && (m
                is Static || u < g.snakes[a].body.len() - b);
        assert(g.snakes[a].body[b] == p);
    }
}

/// One body cell more is in the way where it lies and for as long as it stays.
proof fn lemma_blocked_more(g: GameState, m: WallModel, p: Vec2D, u: int, s: int, k: int)
    requires
        0 <= s < g.snakes.len(),
        g.snakes[s].alive(),
        0 <= k < g.snakes[s].body.len(),
    ensures
        blocked_upto(g, m, p, u, s, k + 1) == (blocked_upto(g, m, p, u, s, k) || (p
            == g.snakes[s].body[k] && (m is Static || u < g.snakes[s].body.len() - k))),
{
    let marked = g.snakes[s].body[k];
    let n = g.snakes[s].body.len();
    if blocked_upto(g, m, p, u, s, k) {
        let (a, b) = choose|a: int, b: int|
            0 <= a < g.snakes.len() && g.snakes[a].alive() && 0 <= b < g.snakes[a].body.len() && (a
                < s || (a == s && b < k)) && #[trigger] g.snakes[a].body[b] == p && (m is Static
                || u < g.snakes[a].body.len() - b);
        assert(g.snakes[a].body[b] == p);
    }
    if p == marked && (m is Static || u < n - k) {
        assert(g.snakes[s].body[k] == p);
    }
    if blocked_upto(g, m, p, u, s, k + 1) {
        let (a, b) = choose|a: int, b: int|
            0 <= a < g.snakes.len() && g.snakes[a].alive() && 0 <= b < g.snakes[a].body.len() && (a
                < s || (a == s && b < k + 1)) && #[trigger] g.snakes[a].body[b] == p && (m
                is Static || u < g.snakes[a].body.len() - b);
        if !(a == s && b == k) {
            assert(g.snakes[a].body[b] == p);
        }
    }
}

/// With all body cells counted, what is in the way is what `blocked` says.
proof fn lemma_blocked_all(g: GameState, m: WallModel, p: Vec2D, u: int)
    ensures
        blocked_upto(g, m, p, u, g.snakes.len() as int, 0) == blocked(g, m, p, u),
        occupied(g, p) == blocked(g, WallModel::Static, p, 0),
{
    let n = g.snakes.len() as int;
    if blocked_upto(g, m, p, u, n, 0) {
        let (a, b) = choose|a: int, b: int|
            0 <= a < g.snakes.len() && g.snakes[a].alive() && 0 <= b < g.snakes[a].body.len() && (a
                < n || (a == n && b < 0)) && #[trigger] g.snakes[a].body[b] == p && (m is Static
                || u < g.snakes[a].body.len() - b);
        assert(g.snakes[a].body[b] == p);
    }
    if blocked(g, m, p, u) {
        let (a, b) = choose|a: int, b: int|
            0 <= a < g.snakes.len() && g.snakes[a].alive() && 0 <= b < g.snakes[a].body.len()
                && #[trigger] g.snakes[a].body[b] == p && (m is Static || u
                < g.snakes[a].body.len() - b);
        assert(g.snakes[a].body[b] == p);
    }
    if occupied(g, p) {
        let (a, b) = choose|a: int, b: int|
            0 <= a < g.snakes.len() && g.snakes[a].alive() && 0 <= b < g.snakes[a].body.len()
                && #[trigger] g.snakes[a].body[b] == p;
        assert(g.snakes[a].body[b] == p);
    }
    if blocked(g, WallModel::Static, p, 0) {
        let (a, b) = choose|a: int, b: int|
            0 <= a < g.snakes.len() && g.snakes[a].alive() && 0 <= b < g.snakes[a].body.len()
                && #[trigger] g.snakes[a].body[b] == p && (WallModel::Static is Static || 0
                < g.snakes[a].body.len() - b);
        assert(g.snakes[a].body[b] == p);
    }
}

/// Passing over a snake that is dead, or coming to the end of a body, changes nothing.
proof fn lemma_walls_next_snake(
    g: GameState,
    model: WallModel,
    owner: Seq<Owner>,
    solid: Seq<usize>,
    s: int,
    k: int,
)
    requires
        0 <= s < g.snakes.len(),
        walls_upto(g, model, owner, solid, s, k),
        !g.snakes[s].alive() || k >= g.snakes[s].body.len(),
    ensures
        walls_upto(g, model, owner, solid, s + 1, 0),
{
    reveal(walls_upto);
    assert forall|p: Vec2D| g.has(p) implies {
        &&& #[trigger] owner[cell_slot(g.width, p)] == if blocked_upto(
            g,
            WallModel::Static,
            p,
            0,
            s + 1,
            0,
        ) {
            Owner::Wall
        } else {
            Owner::Unowned
        }
        &&& forall|u: int|
            0 <= u < usize::MAX ==> ((u < solid[cell_slot(g.width, p)]) <==> #[trigger] blocked_upto(
                g,
                model,
                p,
                u,
                s + 1,
                0,
            ))
    } by {
        let i = cell_slot(g.width, p);
        lemma_blocked_skip(g, WallModel::Static, p, 0, s, k);
        assert(owner[i] == if blocked_upto(g, WallModel::Static, p, 0, s, k) {
            Owner::Wall
        } else {
            Owner::Unowned
        });
        assert forall|u: int| 0 <= u < usize::MAX implies ((u < solid[i]) <==> #[trigger] blocked_upto(
            g,
            model,
            p,
            u,
            s + 1,
            0,
        )) by {
            lemma_blocked_skip(g, model, p, u, s, k);
            assert((u < solid[i]) <==> blocked_upto(g, model, p, u, s, k));
        }
    }
}

/// Marking cell `k` of the live snake `s` takes the walls one body cell further.
proof fn lemma_walls_mark(
    g: GameState,
    model: WallModel,
    owner: Seq<Owner>,
    solid: Seq<usize>,
    owner2: Seq<Owner>,
    solid2: Seq<usize>,
    s: int,
    k: int,
)
    requires
        0 <= s < g.snakes.len(),
        g.snakes[s].alive(),
        0 <= k < g.snakes[s].body.len(),
        g.snakes[s].body.len() <= usize::MAX,
        owner.len() == g.width * g.height,
        solid.len() == g.width * g.height,
        walls_upto(g, model, owner, solid, s, k),
        !g.has(g.snakes[s].body[k]) ==> owner2 == owner && solid2 == solid,
        g.has(g.snakes[s].body[k]) ==> owner2 == owner.update(
            cell_slot(g.width, g.snakes[s].body[k]),
            Owner::Wall,
        ) && solid2 == solid.update(
            cell_slot(g.width, g.snakes[s].body[k]),
            if model is Static {
                usize::MAX
            } else if solid[cell_slot(g.width, g.snakes[s].body[k])] < g.snakes[s].body.len() - k {
                (g.snakes[s].body.len() - k) as usize
            } else {
                solid[cell_slot(g.width, g.snakes[s].body[k])]
            },
        ),
    ensures
        walls_upto(g, model, owner2, solid2, s, k + 1),
{
    reveal(walls_upto);
    let marked = g.snakes[s].body[k];
    let n = g.snakes[s].body.len();
    assert forall|p: Vec2D| g.has(p) implies {
        &&& #[trigger] owner2[cell_slot(g.width, p)] == if blocked_upto(
            g,
            WallModel::Static,
            p,
            0,
            s,
            k + 1,
        ) {
            Owner::Wall
        } else {
            Owner::Unowned
        }
        &&& forall|u: int|
            0 <= u < usize::MAX ==> ((u < solid2[cell_slot(g.width, p)]) <==> #[trigger] blocked_upto(
                g,
                model,
                p,
                u,
                s,
                k + 1,
            ))
    } by {
        lemma_cell_slot(g, p, p);
        if g.has(marked) {
            lemma_cell_slot(g, p, marked);
            lemma_cell_slot(g, marked, p);
        }
        let i = cell_slot(g.width, p);
        lemma_blocked_more(g, WallModel::Static, p, 0, s, k);
        assert(owner[i] == if blocked_upto(g, WallModel::Static, p, 0, s, k) {
            Owner::Wall
        } else {
            Owner::Unowned
        });
        assert forall|u: int| 0 <= u < usize::MAX implies ((u < solid2[i]) <==> #[trigger] blocked_upto(
            g,
            model,
            p,
            u,
            s,
            k + 1,
        )) by {
            lemma_blocked_more(g, model, p, u, s, k);
            assert((u < solid[i]) <==> blocked_upto(g, model, p, u, s, k));
            if g.has(marked) && p == marked {
                assert(i == cell_slot(g.width, marked));
                assert(solid2[i] == if model is Static {
                    usize::MAX
                } else if solid[i] < n - k {
                    (n - k) as usize
                } else {
                    solid[i]
                });
            } else {
                assert(solid2[i] == solid[i]);
            }
        }
    }
}

/// Once every body cell is marked the wall times say when a body cell is in the way.
proof fn lemma_walls_end(g: GameState, model: WallModel, owner: Seq<Owner>, solid: Seq<usize>)
    requires
        walls_upto(g, model, owner, solid, g.snakes.len() as int, 0),
    ensures
        solid_is(g, model, owner, solid),
        forall|p: Vec2D|
            g.has(p) ==> #[trigger] owner[cell_slot(g.width, p)] == if occupied(g, p) {
                Owner::Wall
            } else {
                Owner::Unowned
            },
{
    reveal(walls_upto);
    reveal(solid_is);
    let n = g.snakes.len() as int;
    assert forall|p: Vec2D| g.has(p) implies {
        &&& (#[trigger] owner[cell_slot(g.width, p)] is Wall <==> occupied(g, p))
        &&& forall|u: int|
            0 <= u < usize::MAX ==> ((u < solid[cell_slot(g.width, p)]) <==> #[trigger] blocked(
                g,
                model,
                p,
                u,
            ))
    } by {
        let i = cell_slot(g.width, p);
        lemma_blocked_all(g, WallModel::Static, p, 0);
        assert(owner[i] == if blocked_upto(g, WallModel::Static, p, 0, n, 0) {
            Owner::Wall
        } else {
            Owner::Unowned
        });
        assert forall|u: int| 0 <= u < usize::MAX implies ((u < solid[i]) <==> #[trigger] blocked(
            g,
            model,
            p,
            u,
        )) by {
            lemma_blocked_all(g, model, p, u);
            assert((u < solid[i]) <==> blocked_upto(g, model, p, u, n, 0));
        }
    }
    assert forall|p: Vec2D| g.has(p) implies #[trigger] owner[cell_slot(g.width, p)] == if occupied(
        g,
        p,
    ) {
        Owner::Wall
    } else {
        Owner::Unowned
    } by {
        let i = cell_slot(g.width, p);
        lemma_blocked_all(g, WallModel::Static, p, 0);
        assert(owner[i] == if blocked_upto(g, WallModel::Static, p, 0, n, 0) {
            Owner::Wall
        } else {
            Owner::Unowned
        });
    }
}

impl FloodFill {
    /// Empties the board for `game` and marks the body cells of its live snakes.
    fn mark_walls(&mut self, game: &Game)
        requires
            game@.wf(),
        ensures
            final(self).width == game.width,
            final(self).height == game.height,
            final(self).you == old(self).you,
            final(self).model == old(self).model,
            final(self).owner@.len() == game.width * game.height,
            final(self).reach@.len() == game.width * game.height,
            final(self).strength@.len() == game.width * game.height,
            final(self).solid@.len() == game.width * game.height,
            forall|i: int| 0 <= i < final(self).reach@.len() ==> final(self).reach@[i] == 0,
            solid_is(game@, final(self).model, final(self).owner@, final(self).solid@),
            forall|p: Vec2D|
                game@.has(p) ==> #[trigger] final(self).owner@[cell_slot(game.width, p)]
                    == if occupied(game@, p) {
                    Owner::Wall
                } else {
                    Owner::Unowned
                },
    {
        let ghost g = game@;
        self.width = game.width;
        self.height = game.height;
        assert(game.width * game.height <= 1073676289) by (nonlinear_arith)
            requires
                game.width <= 32767,
                game.height <= 32767,
        ;
        let n = game.width * game.height;
        self.owner.clear();
        self.reach.clear();
        self.strength.clear();
        self.solid.clear();
        let mut i: usize = 0;
        while i < n
            invariant
                i <= n,
                self.owner@.len() == i,
                self.reach@.len() == i,
                self.strength@.len() == i,
                self.solid@.len() == i,
                forall|j: int| 0 <= j < i ==> self.owner@[j] == Owner::Unowned,
                forall|j: int| 0 <= j < i ==> self.reach@[j] == 0,
                forall|j: int| 0 <= j < i ==> self.solid@[j] == 0,
                self.width == game.width,
                self.height == game.height,
                self.you == old(self).you,
                self.model == old(self).model,
            decreases n - i,
        {
            self.owner.push(Owner::Unowned);
            self.reach.push(0);
            self.strength.push(0);
            self.solid.push(0);
            i = i + 1;
        }
        proof {
            lemma_walls_begin(g, self.model, self.owner@, self.solid@);
        }
        let mut s: usize = 0;
        while s < game.snakes.len()
            invariant
                g == game@,
                g.wf(),
                s <= g.snakes.len(),
                n == game.width * game.height,
                self.owner@.len() == n,
                self.reach@.len() == n,
                self.strength@.len() == n,
                self.solid@.len() == n,
                forall|j: int| 0 <= j < n ==> self.reach@[j] == 0,
                self.width == game.width,
                self.height == game.height,
                self.you == old(self).you,
                self.model == old(self).model,
                walls_upto(g, self.model, self.owner@, self.solid@, s as int, 0),
            decreases g.snakes.len() - s,
        {
            assert(g.snakes[s as int] == game.snakes@[s as int]@);
            if game.snakes[s].alive() {
                let body = &game.snakes[s].body;
                let len = body.len();
                let mut k: usize = 0;
                while k < len
                    invariant
                        g == game@,
                        g.wf(),
                        s < g.snakes.len(),
                        g.snakes[s as int].alive(),
                        *body == game.snakes@[s as int].body,
                        len == body@.len(),
                        k <= len,
                        n == game.width * game.height,
                        self.owner@.len() == n,
                        self.reach@.len() == n,
                        self.strength@.len() == n,
                        self.solid@.len() == n,
                        forall|j: int| 0 <= j < n ==> self.reach@[j] == 0,
                        self.width == game.width,
                        self.height == game.height,
                        self.you == old(self).you,
                        self.model == old(self).model,
                        walls_upto(g, self.model, self.owner@, self.solid@, s as int, k as int),
                    decreases len - k,
                {
                    let p = body[k];
                    let ghost owner0 = self.owner@;
                    let ghost solid0 = self.solid@;
                    assert(g.snakes[s as int].body[k as int] == p);
                    if game.has(p) {
                        let i = slot(game.width, game.height, p);
                        self.owner[i] = Owner::Wall;
                        match self.model {
                            WallModel::Static => {
                                self.solid[i] = usize::MAX;
                            },
                            WallModel::Dissolving => {
                                if self.solid[i] < len - k {
                                    self.solid[i] = len - k;
                                }
                            },
                        }
                        assert(self.solid@ =~= solid0.update(
                            i as int,
                            if self.model is Static {
                                usize::MAX
                            } else if solid0[i as int] < len - k {
                                (len - k) as usize
                            } else {
                                solid0[i as int]
                            },
                        ));
                    }
                    proof {
                        lemma_walls_mark(
                            g,
                            self.model,
                            owner0,
                            solid0,
                            self.owner@,
                            self.solid@,
                            s as int,
                            k as int,
                        );
                    }
                    k = k + 1;
                }
                proof {
                    lemma_walls_next_snake(g, self.model, self.owner@, self.solid@, s as int, k as int);
                }
            } else {
                proof {
                    lemma_walls_next_snake(g, self.model, self.owner@, self.solid@, s as int, 0);
                }
            }
            s = s + 1;
        }
        proof {
            lemma_walls_end(g, self.model, self.owner@, self.solid@);
        }
    }
}

/// Whether the entries of `front` are the cells on which the fronts stand in layer `t`.
#[verifier::opaque]
spec fn front_is(g: GameState, f: FloodState, front: Seq<(Vec2D, u8)>, t: int) -> bool {
    &&& forall|j: int|
        0 <= j < front.len() ==> fresh(g, f, (#[trigger] front[j]).0, front[j].1, t)
    &&& forall|q: Vec2D, s: u8| #[trigger]
        fresh(g, f, q, s, t) ==> exists|j: int| 0 <= j < front.len() && #[trigger] front[j] == (q, s)
}

/// Whether the label of `p` is right as far as the layers up to `t` go.
spec fn done_at(g: GameState, model: WallModel, f: FloodState, p: Vec2D, t: int) -> bool {
    let i = cell_slot(g.width, p);
    &&& f.reach[i] <= t
    &&& match f.owner[i] {
        Owner::Snake(id) => f.reach[i] >= 1 && entered(g, model, f, p, f.reach[i] as int) && wins(
            g,
            f,
            p,
            id,
            f.reach[i] as int,
        ),
        Owner::Contested => f.reach[i] >= 1 && entered(g, model, f, p, f.reach[i] as int) && tied(
            g,
            f,
            p,
            f.reach[i] as int,
        ),
        Owner::Unowned => f.reach[i] == 0 && !occupied(g, p) && kept_out(g, model, f, p, t),
        Owner::Wall => f.reach[i] == 0 && occupied(g, p) && kept_out(g, model, f, p, t),
    }
}

/// Whether all labels are right as far as the layers up to `t` go.
#[verifier::opaque]
spec fn layers_done(g: GameState, model: WallModel, f: FloodState, t: int) -> bool {
    &&& f.owner.len() == g.width * g.height
    &&& f.reach.len() == g.width * g.height
    &&& forall|p: Vec2D| g.has(p) ==> #[trigger] done_at(g, model, f, p, t)
}

/// Whether entry `j` of `front` has `p` as its neighbour in the direction numbered `c`.
spec fn hits(front: Seq<(Vec2D, u8)>, j: int, c: int, p: Vec2D) -> bool {
    0 <= j < front.len() && 0 <= c < 4 && front[j].0.neighbour(Direction::every()[c]) == p
}

/// Whether the pair of entry `j` and direction `c` comes before the pair of `jj` and `kk`.
spec fn seen_pair(jj: int, kk: int, j: int, c: int) -> bool {
    j < jj || (j == jj && c < kk)
}

/// What holds of the cell `p` while layer `t` is made and the pairs of entries and
/// directions before `(jj, kk)` are done: `f0` is the board before the layer.
#[verifier::opaque]
spec fn cell_progress(
    g: GameState,
    front: Seq<(Vec2D, u8)>,
    jj: int,
    kk: int,
    t: int,
    f0: FloodState,
    f: FloodState,
    strength: Seq<usize>,
    solid: Seq<usize>,
    p: Vec2D,
) -> bool {
    let i = cell_slot(g.width, p);
    &&& f0.reach[i] < t
    &&& if f0.reach[i] != 0 {
        f.owner[i] == f0.owner[i] && f.reach[i] == f0.reach[i]
    } else if f.reach[i] == 0 {
        &&& f.owner[i] == f0.owner[i]
        &&& forall|j: int, c: int|
            seen_pair(jj, kk, j, c) && #[trigger] hits(front, j, c, p) ==> t < solid[i]
    } else {
        &&& f.reach[i] == t
        &&& t >= solid[i]
        &&& forall|j: int, c: int|
            seen_pair(jj, kk, j, c) && #[trigger] hits(front, j, c, p) ==> body_len(g, front[j].1)
                <= strength[i]
        &&& match f.owner[i] {
            Owner::Snake(id) => {
                &&& body_len(g, id) == strength[i]
                &&& exists|j: int, c: int|
                    seen_pair(jj, kk, j, c) && #[trigger] hits(front, j, c, p) && front[j].1 == id
                &&& forall|j: int, c: int|
                    seen_pair(jj, kk, j, c) && #[trigger] hits(front, j, c, p) ==> front[j].1 == id
                        || body_len(g, front[j].1) < strength[i]
            },
            Owner::Contested => exists|j1: int, c1: int, j2: int, c2: int|
                {
                    &&& seen_pair(jj, kk, j1, c1)
                    &&& seen_pair(jj, kk, j2, c2)
                    &&& #[trigger] hits(front, j1, c1, p)
                    &&& #[trigger] hits(front, j2, c2, p)
                    &&& front[j1].1 != front[j2].1
                    &&& body_len(g, front[j1].1) == strength[i]
                    &&& body_len(g, front[j2].1) == strength[i]
                },
            _ => false,
        }
    }
}

/// What holds of the board while layer `t` is made.
spec fn progress(
    g: GameState,
    front: Seq<(Vec2D, u8)>,
    jj: int,
    kk: int,
    t: int,
    f0: FloodState,
    f: FloodState,
    strength: Seq<usize>,
    solid: Seq<usize>,
) -> bool {
    &&& f.owner.len() == g.width * g.height
    &&& f.reach.len() == g.width * g.height
    &&& f0.owner.len() == g.width * g.height
    &&& f0.reach.len() == g.width * g.height
    &&& strength.len() == g.width * g.height
    &&& solid.len() == g.width * g.height
    &&& forall|p: Vec2D|
        g.has(p) ==> #[trigger] cell_progress(g, front, jj, kk, t, f0, f, strength, solid, p)
}

/// The board and the strengths after the front of snake `id` has come to `p` in
/// layer `t`.
spec fn offer(
    g: GameState,
    t: int,
    f: FloodState,
    strength: Seq<usize>,
    solid: Seq<usize>,
    p: Vec2D,
    id: u8,
) -> (FloodState, Seq<usize>) {
    let i = cell_slot(g.width, p);
    let len = body_len(g, id) as usize;
    if !g.has(p) || t < solid[i] {
        (f, strength)
    } else if f.reach[i] == 0 {
        (
            FloodState { owner: f.owner.update(i, Owner::Snake(id)), reach: f.reach.update(i, t as usize) },
            strength.update(i, len),
        )
    } else if f.reach[i] == t {
        if len > strength[i] {
            (
                FloodState { owner: f.owner.update(i, Owner::Snake(id)), reach: f.reach },
                strength.update(i, len),
            )
        } else if len == strength[i] && f.owner[i] != Owner::Snake(id) {
            (FloodState { owner: f.owner.update(i, Owner::Contested), reach: f.reach }, strength)
        } else {
            (f, strength)
        }
    } else {
        (f, strength)
    }
}

/// Doing the pair `(jj, kk)` keeps what holds of the cells that it does not come to.
proof fn lemma_offer_other(
    g: GameState,
    front: Seq<(Vec2D, u8)>,
    jj: int,
    kk: int,
    t: int,
    f0: FloodState,
    f: FloodState,
    strength: Seq<usize>,
    solid: Seq<usize>,
    q: Vec2D,
)
    requires
        g.wf(),
        0 <= jj < front.len(),
        0 <= kk < 4,
        progress(g, front, jj, kk, t, f0, f, strength, solid),
        g.has(q),
        q != front[jj].0.neighbour(Direction::every()[kk]),
    ensures
        ({
            let p = front[jj].0.neighbour(Direction::every()[kk]);
            let (f2, strength2) = offer(g, t, f, strength, solid, p, front[jj].1);
            cell_progress(g, front, jj, kk + 1, t, f0, f2, strength2, solid, q)
        }),
{
    reveal(cell_progress);
    let p = front[jj].0.neighbour(Direction::every()[kk]);
    let (f2, strength2) = offer(g, t, f, strength, solid, p, front[jj].1);
    let i = cell_slot(g.width, q);
    assert(cell_progress(g, front, jj, kk, t, f0, f, strength, solid, q));
    if g.has(p) {
        lemma_cell_slot(g, p, q);
        lemma_cell_slot(g, q, p);
    }
    lemma_cell_slot(g, q, q);
    assert(f2.owner[i] == f.owner[i]);
    assert(f2.reach[i] == f.reach[i]);
    assert(strength2[i] == strength[i]);
    assert forall|j: int, c: int| #[trigger] hits(front, j, c, q) implies (seen_pair(jj, kk + 1, j, c)
        <==> seen_pair(jj, kk, j, c)) by {}
    if f0.reach[i] == 0 && f.reach[i] != 0 {
        match f.owner[i] {
            Owner::Snake(id) => {
                let (j, c) = choose|j: int, c: int|
                    seen_pair(jj, kk, j, c) && #[trigger] hits(front, j, c, q) && front[j].1 == id;
                assert(seen_pair(jj, kk + 1, j, c) && hits(front, j, c, q));
            },
            Owner::Contested => {
                let (j1, c1, j2, c2) = choose|j1: int, c1: int, j2: int, c2: int|
                    {
                        &&& seen_pair(jj, kk, j1, c1)
                        &&& seen_pair(jj, kk, j2, c2)
                        &&& #[trigger] hits(front, j1, c1, q)
                        &&& #[trigger] hits(front, j2, c2, q)
                        &&& front[j1].1 != front[j2].1
                        &&& body_len(g, front[j1].1) == strength[i]
                        &&& body_len(g, front[j2].1) == strength[i]
                    };
                assert(seen_pair(jj, kk + 1, j1, c1) && hits(front, j1, c1, q));
                assert(seen_pair(jj, kk + 1, j2, c2) && hits(front, j2, c2, q));
            },
            _ => {},
        }
    }
}

/// Doing the pair `(jj, kk)` makes what holds of the cell that it comes to hold
/// with that pair done.
proof fn lemma_offer_target(
    g: GameState,
    front: Seq<(Vec2D, u8)>,
    jj: int,
    kk: int,
    t: int,
    f0: FloodState,
    f: FloodState,
    strength: Seq<usize>,
    solid: Seq<usize>,
)
    requires
        g.wf(),
        0 <= jj < front.len(),
        0 <= kk < 4,
        1 <= t < usize::MAX,
        front[jj].1 < g.snakes.len(),
        body_len(g, front[jj].1) <= usize::MAX,
        progress(g, front, jj, kk, t, f0, f, strength, solid),
        g.has(front[jj].0.neighbour(Direction::every()[kk])),
    ensures
        ({
            let p = front[jj].0.neighbour(Direction::every()[kk]);
            let (f2, strength2) = offer(g, t, f, strength, solid, p, front[jj].1);
            cell_progress(g, front, jj, kk + 1, t, f0, f2, strength2, solid, p)
        }),
{
    reveal(cell_progress);
    let p = front[jj].0.neighbour(Direction::every()[kk]);
    let id = front[jj].1;
    let len = body_len(g, id) as usize;
    let (f2, strength2) = offer(g, t, f, strength, solid, p, id);
    let i = cell_slot(g.width, p);
    lemma_cell_slot(g, p, p);
    assert(cell_progress(g, front, jj, kk, t, f0, f, strength, solid, p));
    assert(hits(front, jj, kk, p));
    assert(seen_pair(jj, kk + 1, jj, kk));
    assert forall|j: int, c: int| #[trigger] hits(front, j, c, p) implies (seen_pair(jj, kk + 1, j, c)
        <==> (seen_pair(jj, kk, j, c) || (j == jj && c == kk))) by {}
    if f0.reach[i] != 0 {
    } else if t < solid[i] {
    } else if f.reach[i] == 0 {
        assert forall|j: int, c: int| seen_pair(jj, kk, j, c) implies !#[trigger] hits(
            front,
            j,
            c,
            p,
        ) by {}
    } else {
        if len > strength[i] {
        } else if len == strength[i] && f.owner[i] != Owner::Snake(id) {
            match f.owner[i] {
                Owner::Snake(other) => {
                    let (j, c) = choose|j: int, c: int|
                        seen_pair(jj, kk, j, c) && #[trigger] hits(front, j, c, p) && front[j].1
                            == other;
                    assert(seen_pair(jj, kk + 1, j, c) && hits(front, j, c, p));
                    assert(seen_pair(jj, kk + 1, jj, kk) && hits(front, jj, kk, p));
                    assert(front[j].1 != front[jj].1);
                },
                Owner::Contested => {
                    let (j1, c1, j2, c2) = choose|j1: int, c1: int, j2: int, c2: int|
                        {
                            &&& seen_pair(jj, kk, j1, c1)
                            &&& seen_pair(jj, kk, j2, c2)
                            &&& #[trigger] hits(front, j1, c1, p)
                            &&& #[trigger] hits(front, j2, c2, p)
                            &&& front[j1].1 != front[j2].1
                            &&& body_len(g, front[j1].1) == strength[i]
                            &&& body_len(g, front[j2].1) == strength[i]
                        };
                    assert(seen_pair(jj, kk + 1, j1, c1) && hits(front, j1, c1, p));
                    assert(seen_pair(jj, kk + 1, j2, c2) && hits(front, j2, c2, p));
                },
                _ => {},
            }
        } else {
            match f.owner[i] {
                Owner::Snake(other) => {
                    let (j, c) = choose|j: int, c: int|
                        seen_pair(jj, kk, j, c) && #[trigger] hits(front, j, c, p) && front[j].1
                            == other;
                    assert(seen_pair(jj, kk + 1, j, c) && hits(front, j, c, p));
                },
                Owner::Contested => {
                    let (j1, c1, j2, c2) = choose|j1: int, c1: int, j2: int, c2: int|
                        {
                            &&& seen_pair(jj, kk, j1, c1)
                            &&& seen_pair(jj, kk, j2, c2)
                            &&& #[trigger] hits(front, j1, c1, p)
                            &&& #[trigger] hits(front, j2, c2, p)
                            &&& front[j1].1 != front[j2].1
                            &&& body_len(g, front[j1].1) == strength[i]
                            &&& body_len(g, front[j2].1) == strength[i]
                        };
                    assert(seen_pair(jj, kk + 1, j1, c1) && hits(front, j1, c1, p));
                    assert(seen_pair(jj, kk + 1, j2, c2) && hits(front, j2, c2, p));
                },
                _ => {},
            }
        }
    }
}

/// Doing the pair `(jj, kk)` keeps what holds of the board, with that pair done.
proof fn lemma_offer(
    g: GameState,
    front: Seq<(Vec2D, u8)>,
    jj: int,
    kk: int,
    t: int,
    f0: FloodState,
    f: FloodState,
    strength: Seq<usize>,
    solid: Seq<usize>,
)
    requires
        g.wf(),
        0 <= jj < front.len(),
        0 <= kk < 4,
        1 <= t < usize::MAX,
        front[jj].1 < g.snakes.len(),
        body_len(g, front[jj].1) <= usize::MAX,
        progress(g, front, jj, kk, t, f0, f, strength, solid),
    ensures
        ({
            let p = front[jj].0.neighbour(Direction::every()[kk]);
            let (f2, strength2) = offer(g, t, f, strength, solid, p, front[jj].1);
            progress(g, front, jj, kk + 1, t, f0, f2, strength2, solid)
        }),
{
    let p = front[jj].0.neighbour(Direction::every()[kk]);
    let (f2, strength2) = offer(g, t, f, strength, solid, p, front[jj].1);
    if g.has(p) {
        lemma_cell_slot(g, p, p);
    }
    assert forall|q: Vec2D| g.has(q) implies #[trigger] cell_progress(
        g,
        front,
        jj,
        kk + 1,
        t,
        f0,
        f2,
        strength2,
        solid,
        q,
    ) by {
        if q == p {
            lemma_offer_target(g, front, jj, kk, t, f0, f, strength, solid);
        } else {
            lemma_offer_other(g, front, jj, kk, t, f0, f, strength, solid, q);
        }
    }
}

/// With all four directions of an entry done, the next entry is on.
proof fn lemma_next_entry(
    g: GameState,
    front: Seq<(Vec2D, u8)>,
    jj: int,
    t: int,
    f0: FloodState,
    f: FloodState,
    strength: Seq<usize>,
    solid: Seq<usize>,
)
    requires
        progress(g, front, jj, 4, t, f0, f, strength, solid),
    ensures
        progress(g, front, jj + 1, 0, t, f0, f, strength, solid),
{
    reveal(cell_progress);
    assert forall|j: int, c: int, q: Vec2D| #[trigger] hits(front, j, c, q) implies (seen_pair(
        jj,
        4,
        j,
        c,
    ) <==> seen_pair(jj + 1, 0, j, c)) by {}
    assert forall|q: Vec2D| g.has(q) implies #[trigger] cell_progress(
        g,
        front,
        jj + 1,
        0,
        t,
        f0,
        f,
        strength,
        solid,
        q,
    ) by {
        let i = cell_slot(g.width, q);
        assert(cell_progress(g, front, jj, 4, t, f0, f, strength, solid, q));
        if f0.reach[i] == 0 && f.reach[i] != 0 {
            match f.owner[i] {
                Owner::Snake(id) => {
                    let (j, c) = choose|j: int, c: int|
                        seen_pair(jj, 4, j, c) && #[trigger] hits(front, j, c, q) && front[j].1 == id;
                    assert(seen_pair(jj + 1, 0, j, c) && hits(front, j, c, q));
                },
                Owner::Contested => {
                    let (j1, c1, j2, c2) = choose|j1: int, c1: int, j2: int, c2: int|
                        {
                            &&& seen_pair(jj, 4, j1, c1)
                            &&& seen_pair(jj, 4, j2, c2)
                            &&& #[trigger] hits(front, j1, c1, q)
                            &&& #[trigger] hits(front, j2, c2, q)
                            &&& front[j1].1 != front[j2].1
                            &&& body_len(g, front[j1].1) == strength[i]
                            &&& body_len(g, front[j2].1) == strength[i]
                        };
                    assert(seen_pair(jj + 1, 0, j1, c1) && hits(front, j1, c1, q));
                    assert(seen_pair(jj + 1, 0, j2, c2) && hits(front, j2, c2, q));
                },
                _ => {},
            }
        }
    }
}

/// A layer begins with nothing done and the board as it was.
proof fn lemma_layer_begins(
    g: GameState,
    model: WallModel,
    front: Seq<(Vec2D, u8)>,
    t: int,
    f: FloodState,
    strength: Seq<usize>,
    solid: Seq<usize>,
)
    requires
        layers_done(g, model, f, t - 1),
        strength.len() == g.width * g.height,
        solid.len() == g.width * g.height,
    ensures
        progress(g, front, 0, 0, t, f, f, strength, solid),
{
    reveal(cell_progress);
    reveal(layers_done);
    assert forall|q: Vec2D| g.has(q) implies #[trigger] cell_progress(
        g,
        front,
        0,
        0,
        t,
        f,
        f,
        strength,
        solid,
        q,
    ) by {
        assert(done_at(g, model, f, q, t - 1));
    }
}

/// How the board `f` has grown out of `f0` while layer `t` was made: what was taken
/// stays as it is, and what was not is taken in layer `t` or still not.
#[verifier::opaque]
spec fn grown(g: GameState, f0: FloodState, f: FloodState, t: int) -> bool {
    forall|q: Vec2D|
        g.has(q) ==> {
            &&& #[trigger] f0.reach[cell_slot(g.width, q)] < t
            &&& (f0.reach[cell_slot(g.width, q)] != 0 ==> f.owner[cell_slot(g.width, q)]
                == f0.owner[cell_slot(g.width, q)] && f.reach[cell_slot(g.width, q)]
                == f0.reach[cell_slot(g.width, q)])
            &&& (f0.reach[cell_slot(g.width, q)] == 0 ==> f.reach[cell_slot(g.width, q)] == 0
                || f.reach[cell_slot(g.width, q)] == t)
        }
}

proof fn lemma_grown(
    g: GameState,
    front: Seq<(Vec2D, u8)>,
    jj: int,
    kk: int,
    t: int,
    f0: FloodState,
    f: FloodState,
    strength: Seq<usize>,
    solid: Seq<usize>,
)
    requires
        progress(g, front, jj, kk, t, f0, f, strength, solid),
    ensures
        grown(g, f0, f, t),
{
    reveal(grown);
    reveal(cell_progress);
    assert forall|q: Vec2D| g.has(q) implies {
        &&& #[trigger] f0.reach[cell_slot(g.width, q)] < t
        &&& (f0.reach[cell_slot(g.width, q)] != 0 ==> f.owner[cell_slot(g.width, q)]
            == f0.owner[cell_slot(g.width, q)] && f.reach[cell_slot(g.width, q)]
            == f0.reach[cell_slot(g.width, q)])
        &&& (f0.reach[cell_slot(g.width, q)] == 0 ==> f.reach[cell_slot(g.width, q)] == 0
            || f.reach[cell_slot(g.width, q)] == t)
    } by {
        assert(cell_progress(g, front, jj, kk, t, f0, f, strength, solid, q));
    }
}

/// Where the fronts stood in the layers before `t` is the same on both boards.
proof fn lemma_fresh_stable(g: GameState, f0: FloodState, f: FloodState, t: int, q: Vec2D, s: u8, u: int)
    requires
        grown(g, f0, f, t),
        0 <= u < t,
    ensures
        fresh(g, f, q, s, u) == fresh(g, f0, q, s, u),
{
    reveal(grown);
    if g.has(q) {
        let r = f0.reach[cell_slot(g.width, q)];
    }
}

/// Where the fronts came in the layers up to `t` is the same on both boards.
proof fn lemma_comes_stable(g: GameState, f0: FloodState, f: FloodState, t: int, p: Vec2D, s: u8, u: int)
    requires
        grown(g, f0, f, t),
        u <= t,
    ensures
        comes(g, f, p, s, u) == comes(g, f0, p, s, u),
{
    if u >= 1 {
        if comes(g, f, p, s, u) {
            let d = choose|d: Direction| fresh(g, f, #[trigger] p.neighbour(d), s, u - 1);
            lemma_fresh_stable(g, f0, f, t, p.neighbour(d), s, u - 1);
        }
        if comes(g, f0, p, s, u) {
            let d = choose|d: Direction| fresh(g, f0, #[trigger] p.neighbour(d), s, u - 1);
            lemma_fresh_stable(g, f0, f, t, p.neighbour(d), s, u - 1);
        }
    }
}

proof fn lemma_arrives_stable(g: GameState, f0: FloodState, f: FloodState, t: int, p: Vec2D, u: int)
    requires
        grown(g, f0, f, t),
        u <= t,
    ensures
        arrives(g, f, p, u) == arrives(g, f0, p, u),
{
    if arrives(g, f, p, u) {
        let s = choose|s: u8| comes(g, f, p, s, u);
        lemma_comes_stable(g, f0, f, t, p, s, u);
    }
    if arrives(g, f0, p, u) {
        let s = choose|s: u8| comes(g, f0, p, s, u);
        lemma_comes_stable(g, f0, f, t, p, s, u);
    }
}

proof fn lemma_kept_out_stable(
    g: GameState,
    model: WallModel,
    f0: FloodState,
    f: FloodState,
    t: int,
    p: Vec2D,
    last: int,
)
    requires
        grown(g, f0, f, t),
        last <= t,
        kept_out(g, model, f0, p, last),
    ensures
        kept_out(g, model, f, p, last),
{
    assert forall|u: int| 1 <= u <= last implies blocked(g, model, p, u) || !#[trigger] arrives(
        g,
        f,
        p,
        u,
    ) by {
        lemma_arrives_stable(g, f0, f, t, p, u);
        assert(blocked(g, model, p, u) || !arrives(g, f0, p, u));
    }
}

/// The front of a snake comes to `p` in the next layer exactly where an entry of
/// the front with its id has `p` as a neighbour.
proof fn lemma_hits_comes(g: GameState, f: FloodState, front: Seq<(Vec2D, u8)>, p: Vec2D, s: u8, t: int)
    requires
        g.wf(),
        t >= 0,
        front_is(g, f, front, t),
        g.has(p),
    ensures
        comes(g, f, p, s, t + 1) <==> exists|j: int, c: int| #[trigger]
            hits(front, j, c, p) && front[j].1 == s,
{
    reveal(front_is);
    if comes(g, f, p, s, t + 1) {
        let d = choose|d: Direction| fresh(g, f, #[trigger] p.neighbour(d), s, t + 1 - 1);
        let q = p.neighbour(d);
        assert(fresh(g, f, q, s, t));
        let j = choose|j: int| 0 <= j < front.len() && #[trigger] front[j] == (q, s);
        let c = d.inverse().code();
        assert(Direction::every()[c] == d.inverse());
        assert(q.neighbour(d.inverse()) == p);
        assert(hits(front, j, c, p) && front[j].1 == s);
    }
    if exists|j: int, c: int| #[trigger] hits(front, j, c, p) && front[j].1 == s {
        let (j, c) = choose|j: int, c: int| #[trigger] hits(front, j, c, p) && front[j].1 == s;
        let q = front[j].0;
        let d = Direction::every()[c];
        assert(fresh(g, f, front[j].0, front[j].1, t));
        assert(p.neighbour(d.inverse()) == q);
        assert(fresh(g, f, p.neighbour(d.inverse()), s, t + 1 - 1));
    }
}

/// A cell that was taken before layer `t` keeps its right label.
proof fn lemma_done_old(g: GameState, model: WallModel, f0: FloodState, f: FloodState, t: int, p: Vec2D)
    requires
        grown(g, f0, f, t),
        g.has(p),
        done_at(g, model, f0, p, t - 1),
        f0.reach[cell_slot(g.width, p)] != 0,
    ensures
        done_at(g, model, f, p, t),
{
    let i = cell_slot(g.width, p);
    let r = f0.reach[i] as int;
    assert(f.owner[i] == f0.owner[i] && f.reach[i] == f0.reach[i]) by {
        reveal(grown);
    }
    lemma_arrives_stable(g, f0, f, t, p, r);
    lemma_kept_out_stable(g, model, f0, f, t, p, r - 1);
    assert forall|s: u8| comes(g, f, p, s, r) == comes(g, f0, p, s, r) by {
        lemma_comes_stable(g, f0, f, t, p, s, r);
    }
    match f0.owner[i] {
        Owner::Snake(id) => {
            assert(wins(g, f, p, id, r));
        },
        Owner::Contested => {
            let (a, b) = choose|a: u8, b: u8|
                {
                    &&& a != b
                    &&& #[trigger] comes(g, f0, p, a, r)
                    &&& #[trigger] comes(g, f0, p, b, r)
                    &&& body_len(g, a) == body_len(g, b)
                    &&& forall|x: u8| #[trigger]
                        comes(g, f0, p, x, r) ==> body_len(g, x) <= body_len(g, a)
                };
            assert(comes(g, f, p, a, r) && comes(g, f, p, b, r));
            assert(tied(g, f, p, r));
        },
        _ => {},
    }
}

/// A cell that no front has taken by the end of layer `t` has the right label.
proof fn lemma_done_free(
    g: GameState,
    model: WallModel,
    front: Seq<(Vec2D, u8)>,
    t: int,
    f0: FloodState,
    f: FloodState,
    strength: Seq<usize>,
    solid: Seq<usize>,
    p: Vec2D,
)
    requires
        g.wf(),
        1 <= t < usize::MAX,
        grown(g, f0, f, t),
        g.has(p),
        done_at(g, model, f0, p, t - 1),
        front_is(g, f0, front, t - 1),
        solid_times(g, model, solid),
        cell_progress(g, front, front.len() as int, 0, t, f0, f, strength, solid, p),
        f0.reach[cell_slot(g.width, p)] == 0,
        f.reach[cell_slot(g.width, p)] == 0,
    ensures
        done_at(g, model, f, p, t),
{
    let i = cell_slot(g.width, p);
    reveal(cell_progress);
    lemma_kept_out_stable(g, model, f0, f, t, p, t - 1);
    assert forall|u: int| 1 <= u <= t implies blocked(g, model, p, u) || !#[trigger] arrives(
        g,
        f,
        p,
        u,
    ) by {
        if u == t && arrives(g, f, p, u) {
            let s = choose|s: u8| comes(g, f, p, s, t);
            lemma_comes_stable(g, f0, f, t, p, s, t);
            lemma_hits_comes(g, f0, front, p, s, t - 1);
            let (j, c) = choose|j: int, c: int| #[trigger] hits(front, j, c, p) && front[j].1 == s;
            assert(seen_pair(front.len() as int, 0, j, c));
            assert(t < solid[i]);
            reveal(solid_times);
            assert(blocked(g, model, p, t));
        }
        if u < t {
            assert(blocked(g, model, p, u) || !arrives(g, f, p, u));
        }
    }
}

/// A cell that was taken in layer `t` has the right label.
proof fn lemma_done_new(
    g: GameState,
    model: WallModel,
    front: Seq<(Vec2D, u8)>,
    t: int,
    f0: FloodState,
    f: FloodState,
    strength: Seq<usize>,
    solid: Seq<usize>,
    p: Vec2D,
)
    requires
        g.wf(),
        1 <= t < usize::MAX,
        grown(g, f0, f, t),
        g.has(p),
        done_at(g, model, f0, p, t - 1),
        front_is(g, f0, front, t - 1),
        solid_times(g, model, solid),
        cell_progress(g, front, front.len() as int, 0, t, f0, f, strength, solid, p),
        f0.reach[cell_slot(g.width, p)] == 0,
        f.reach[cell_slot(g.width, p)] != 0,
    ensures
        done_at(g, model, f, p, t),
{
    let i = cell_slot(g.width, p);
    let n = front.len() as int;
    reveal(cell_progress);
    lemma_kept_out_stable(g, model, f0, f, t, p, t - 1);
    assert(!blocked(g, model, p, t)) by {
        reveal(solid_times);
    }
    assert forall|s: u8| comes(g, f, p, s, t) <==> exists|j: int, c: int| #[trigger]
        hits(front, j, c, p) && front[j].1 == s by {
        lemma_comes_stable(g, f0, f, t, p, s, t);
        lemma_hits_comes(g, f0, front, p, s, t - 1);
    }
    match f.owner[i] {
        Owner::Snake(id) => {
            let (j, c) = choose|j: int, c: int|
                seen_pair(n, 0, j, c) && #[trigger] hits(front, j, c, p) && front[j].1 == id;
            assert(hits(front, j, c, p) && front[j].1 == id);
            assert(comes(g, f, p, id, t));
            assert forall|r: u8| #[trigger] comes(g, f, p, r, t) implies r == id || body_len(g, r)
                < body_len(g, id) by {
                let (j2, c2) = choose|j2: int, c2: int| #[trigger]
                    hits(front, j2, c2, p) && front[j2].1 == r;
                assert(seen_pair(n, 0, j2, c2));
            }
            assert(arrives(g, f, p, t));
        },
        Owner::Contested => {
            let (j1, c1, j2, c2) = choose|j1: int, c1: int, j2: int, c2: int|
                {
                    &&& seen_pair(n, 0, j1, c1)
                    &&& seen_pair(n, 0, j2, c2)
                    &&& #[trigger] hits(front, j1, c1, p)
                    &&& #[trigger] hits(front, j2, c2, p)
                    &&& front[j1].1 != front[j2].1
                    &&& body_len(g, front[j1].1) == strength[i]
                    &&& body_len(g, front[j2].1) == strength[i]
                };
            let a = front[j1].1;
            let b = front[j2].1;
            assert(hits(front, j1, c1, p) && front[j1].1 == a);
            assert(hits(front, j2, c2, p) && front[j2].1 == b);
            assert(comes(g, f, p, a, t));
            assert(comes(g, f, p, b, t));
            assert forall|r: u8| #[trigger] comes(g, f, p, r, t) implies body_len(g, r) <= body_len(
                g,
                a,
            ) by {
                let (j3, c3) = choose|j3: int, c3: int| #[trigger]
                    hits(front, j3, c3, p) && front[j3].1 == r;
                assert(seen_pair(n, 0, j3, c3));
            }
            assert(arrives(g, f, p, t));
            assert(tied(g, f, p, t));
        },
        _ => {},
    }
}

/// With all entries of the front done, the labels are right as far as the layers
/// up to `t` go.
proof fn lemma_layer_done(
    g: GameState,
    model: WallModel,
    front: Seq<(Vec2D, u8)>,
    t: int,
    f0: FloodState,
    f: FloodState,
    strength: Seq<usize>,
    solid: Seq<usize>,
)
    requires
        g.wf(),
        1 <= t < usize::MAX,
        layers_done(g, model, f0, t - 1),
        front_is(g, f0, front, t - 1),
        solid_times(g, model, solid),
        progress(g, front, front.len() as int, 0, t, f0, f, strength, solid),
    ensures
        layers_done(g, model, f, t),
{
    reveal(layers_done);
    lemma_grown(g, front, front.len() as int, 0, t, f0, f, strength, solid);
    assert forall|p: Vec2D| g.has(p) implies #[trigger] done_at(g, model, f, p, t) by {
        let i = cell_slot(g.width, p);
        assert(done_at(g, model, f0, p, t - 1));
        assert(cell_progress(g, front, front.len() as int, 0, t, f0, f, strength, solid, p));
        if f0.reach[i] != 0 {
            lemma_done_old(g, model, f0, f, t, p);
        } else if f.reach[i] == 0 {
            lemma_done_free(g, model, front, t, f0, f, strength, solid, p);
        } else {
            lemma_done_new(g, model, front, t, f0, f, strength, solid, p);
        }
    }
}

/// Once no front is left, the labels are those of the fill.
proof fn lemma_fill_ends(g: GameState, model: WallModel, f: FloodState, t: int)
    requires
        t >= 0,
        layers_done(g, model, f, t),
        front_is(g, f, Seq::<(Vec2D, u8)>::empty(), t),
    ensures
        settled(g, model, f),
{
    reveal(layers_done);
    reveal(front_is);
    assert forall|p: Vec2D| g.has(p) implies #[trigger] settled_at(g, model, f, p) by {
        assert(done_at(g, model, f, p, t));
        assert forall|last: int| kept_out(g, model, f, p, t) implies kept_out(g, model, f, p, last) by {
            assert forall|u: int| 1 <= u <= last implies blocked(g, model, p, u) || !#[trigger] arrives(
                g,
                f,
                p,
                u,
            ) by {
                if u > t && arrives(g, f, p, u) {
                    let s = choose|s: u8| comes(g, f, p, s, u);
                    let d = choose|d: Direction| fresh(g, f, #[trigger] p.neighbour(d), s, u - 1);
                    let q = p.neighbour(d);
                    assert(fresh(g, f, q, s, u - 1));
                    assert(done_at(g, model, f, q, t));
                    if u - 1 == t {
                        let j = choose|j: int|
                            0 <= j < Seq::<(Vec2D, u8)>::empty().len() && #[trigger] Seq::<
                                (Vec2D, u8),
                            >::empty()[j] == (q, s);
                    }
                }
                if u <= t {
                    assert(blocked(g, model, p, u) || !arrives(g, f, p, u));
                }
            }
        }
    }
}

/// Before the first layer the labels say where the bodies are and nothing more.
proof fn lemma_fill_begins(g: GameState, model: WallModel, f: FloodState)
    requires
        f.owner.len() == g.width * g.height,
        f.reach.len() == g.width * g.height,
        forall|i: int| 0 <= i < f.reach.len() ==> f.reach[i] == 0,
        forall|p: Vec2D|
            g.has(p) ==> #[trigger] f.owner[cell_slot(g.width, p)] == if occupied(g, p) {
                Owner::Wall
            } else {
                Owner::Unowned
            },
    ensures
        layers_done(g, model, f, 0),
{
    reveal(layers_done);
    assert forall|p: Vec2D| g.has(p) implies #[trigger] done_at(g, model, f, p, 0) by {
        lemma_cell_slot(g, p, p);
        let o = f.owner[cell_slot(g.width, p)];
    }
}

/// A cell that a snake took in layer `t` is a cell on which its front stands in
/// that layer.
proof fn lemma_winner_fresh(g: GameState, model: WallModel, f: FloodState, p: Vec2D, id: u8, t: int)
    requires
        layers_done(g, model, f, t),
        g.has(p),
        t >= 1,
        f.owner[cell_slot(g.width, p)] == Owner::Snake(id),
        f.reach[cell_slot(g.width, p)] == t,
    ensures
        fresh(g, f, p, id, t),
{
    reveal(layers_done);
    assert(done_at(g, model, f, p, t));
    assert(comes(g, f, p, id, t));
    let d = choose|d: Direction| fresh(g, f, #[trigger] p.neighbour(d), id, t - 1);
}

/// Whether `touched` holds the cells that were taken in layer `t`, each once for
/// each cell that is no longer untaken.
spec fn touched_is(g: GameState, f0: FloodState, f: FloodState, touched: Seq<Vec2D>, t: int) -> bool {
    &&& forall|k: int|
        0 <= k < touched.len() ==> g.has(#[trigger] touched[k]) && f.reach[cell_slot(
            g.width,
            touched[k],
        )] == t
    &&& forall|p: Vec2D|
        g.has(p) && #[trigger] f.reach[cell_slot(g.width, p)] == t ==> touched.contains(p)
    &&& count_unreached(f.reach) + touched.len() == count_unreached(f0.reach)
}

/// Whether the cell `a` of `touched`, where a snake took it, has its entry in `next`.
spec fn entry_for(
    g: GameState,
    f: FloodState,
    touched: Seq<Vec2D>,
    next: Seq<(Vec2D, u8)>,
    a: int,
) -> bool {
    f.owner[cell_slot(g.width, touched[a])] matches Owner::Snake(id) ==> exists|m: int|
        0 <= m < next.len() && #[trigger] next[m] == (touched[a], id)
}

/// Whether the entries of `front` are the heads of the live snakes among the first `n`.
spec fn seeds_upto(g: GameState, f: FloodState, front: Seq<(Vec2D, u8)>, n: int) -> bool {
    &&& forall|j: int|
        0 <= j < front.len() ==> fresh(g, f, (#[trigger] front[j]).0, front[j].1, 0)
    &&& forall|q: Vec2D, s: u8| #[trigger]
        fresh(g, f, q, s, 0) && s < n ==> exists|j: int|
            0 <= j < front.len() && #[trigger] front[j] == (q, s)
}

proof fn lemma_count_unreached_bound(reach: Seq<usize>)
    ensures
        count_unreached(reach) <= reach.len(),
    decreases reach.len(),
{
    if reach.len() > 0 {
        lemma_count_unreached_bound(reach.drop_last());
    }
}

impl FloodFill {
    /// Lets the front of entry `j` come to its neighbour in the direction numbered `c`.
    fn visit(
        &mut self,
        game: &Game,
        front: &Vec<(Vec2D, u8)>,
        j: usize,
        c: usize,
        t: usize,
        touched: &mut Vec<Vec2D>,
        Ghost(f0): Ghost<FloodState>,
    )
        requires
            game@.wf(),
            old(self).width == game.width,
            old(self).height == game.height,
            j < front@.len(),
            c < 4,
            1 <= t < usize::MAX,
            game@.has(front@[j as int].0),
            front@[j as int].1 < game@.snakes.len(),
            progress(
                game@,
                front@,
                j as int,
                c as int,
                t as int,
                f0,
                old(self)@,
                old(self).strength@,
                old(self).solid@,
            ),
            touched_is(game@, f0, old(self)@, old(touched)@, t as int),
        ensures
            final(self).width == game.width,
            final(self).height == game.height,
            final(self).you == old(self).you,
            final(self).model == old(self).model,
            final(self).solid@ == old(self).solid@,
            progress(
                game@,
                front@,
                j as int,
                c + 1,
                t as int,
                f0,
                final(self)@,
                final(self).strength@,
                final(self).solid@,
            ),
            touched_is(game@, f0, final(self)@, final(touched)@, t as int),
    {
        let ghost g = game@;
        let ghost before = self@;
        let ghost strength0 = self.strength@;
        let ghost touched0 = touched@;
        let entry = front[j];
        let q = entry.0;
        let id = entry.1;
        let dirs = Direction::all();
        let p = q.apply(dirs[c]);
        assert(p == front@[j as int].0.neighbour(Direction::every()[c as int]));
        assert(g.snakes[id as int] == game.snakes@[id as int]@);
        if game.has(p) {
            let i = slot(game.width, game.height, p);
            if t >= self.solid[i] {
                let len = game.snakes[id as usize].body.len();
                if self.reach[i] == 0 {
                    self.owner[i] = Owner::Snake(id);
                    self.strength[i] = len;
                    self.reach[i] = t;
                    touched.push(p);
                    proof {
                        lemma_unreached_update(before.reach, i as int, t);
                        assert forall|k: int| 0 <= k < touched@.len() implies g.has(
                            #[trigger] touched@[k],
                        ) && self@.reach[cell_slot(g.width, touched@[k])] == t by {
                            if k < touched0.len() {
                                assert(touched@[k] == touched0[k]);
                                lemma_cell_slot(g, touched0[k], p);
                            }
                        }
                        assert forall|x: Vec2D|
                            g.has(x) && #[trigger] self@.reach[cell_slot(g.width, x)]
                                == t implies touched@.contains(x) by {
                            lemma_cell_slot(g, x, p);
                            if x == p {
                                assert(touched@[touched0.len() as int] == p);
                            } else {
                                assert(before.reach[cell_slot(g.width, x)] == t);
                                let k = choose|k: int| 0 <= k < touched0.len() && touched0[k] == x;
                                assert(touched@[k] == x);
                            }
                        }
                    }
                } else if self.reach[i] == t {
                    if len > self.strength[i] {
                        self.owner[i] = Owner::Snake(id);
                        self.strength[i] = len;
                    } else if len == self.strength[i] && self.owner[i] != Owner::Snake(id) {
                        self.owner[i] = Owner::Contested;
                    }
                }
            }
        }
        proof {
            assert(body_len(g, id) == game.snakes@[id as int].body.len());
            let (f2, strength2) = offer(g, t as int, before, strength0, self.solid@, p, id);
            assert(self@.owner =~= f2.owner);
            assert(self@.reach =~= f2.reach);
            assert(self.strength@ =~= strength2);
            assert(self@ == f2);
            lemma_offer(g, front@, j as int, c as int, t as int, f0, before, strength0, self.solid@);
        }
    }

    /// Fills the board of `game` from the heads of its live snakes and labels each
    /// cell with the snake whose front takes it. `you` is the snake that `is_you`
    /// and `count_space_of` speak of afterwards.
    ///
    /// The fronts advance one cell per layer. A cell goes to the longest of the
    /// snakes whose fronts come to it first; where two are the longest it is
    /// contested and the fill does not go on from it. Body cells of live snakes are
    /// walls, for good or for as long as the wall model says.
    pub fn flood_snakes(&mut self, game: &Game, you: u8)
        requires
            game@.wf(),
        ensures
            settled(game@, old(self).spec_model(), final(self)@),
            final(self).spec_model() == old(self).spec_model(),
            final(self).spec_you() == you,
            final(self).spec_width() == game.width,
            final(self).spec_height() == game.height,
            final(self).wf(),
    {
        let ghost g = game@;
        self.mark_walls(game);
        self.you = you;
        proof {
            lemma_solid_times(g, self.model, self.owner@, self.solid@);
            lemma_fill_begins(g, self.model, self@);
            lemma_count_unreached_bound(self.reach@);
        }
        let ghost n = game.width * game.height;
        assert(n <= 1073676289) by (nonlinear_arith)
            requires
                n == game.width * game.height,
                game.width <= 32767,
                game.height <= 32767,
        ;
        let mut front: Vec<(Vec2D, u8)> = Vec::new();
        let mut s: usize = 0;
        while s < game.snakes.len()
            invariant
                g == game@,
                g.wf(),
                s <= g.snakes.len(),
                seeds_upto(g, self@, front@, s as int),
            decreases g.snakes.len() - s,
        {
            assert(g.snakes[s as int] == game.snakes@[s as int]@);
            if game.snakes[s].alive() {
                let ghost front0 = front@;
                let head = game.snakes[s].head();
                front.push((head, s as u8));
                proof {
                    assert forall|j: int| 0 <= j < front@.len() implies fresh(
                        g,
                        self@,
                        (#[trigger] front@[j]).0,
                        front@[j].1,
                        0,
                    ) by {
                        if j < front0.len() {
                            assert(front@[j] == front0[j]);
                        }
                    }
                    assert forall|q: Vec2D, id: u8| #[trigger]
                        fresh(g, self@, q, id, 0) && id < s + 1 implies exists|j: int|
                        0 <= j < front@.len() && #[trigger] front@[j] == (q, id) by {
                        if id < s {
                            let j = choose|j: int| 0 <= j < front0.len() && #[trigger] front0[j] == (q, id);
                            assert(front@[j] == (q, id));
                        } else {
                            assert(front@[front0.len() as int] == (q, id));
                        }
                    }
                }
            }
            s = s + 1;
        }
        proof {
            reveal(front_is);
        }
        let mut t: usize = 0;
        while front.len() > 0
            invariant
                g == game@,
                g.wf(),
                n == game.width * game.height,
                n <= 1073676289,
                self.width == game.width,
                self.height == game.height,
                self.you == you,
                self.model == old(self).model,
                self.owner@.len() == n,
                self.reach@.len() == n,
                self.strength@.len() == n,
                self.solid@.len() == n,
                solid_times(g, self.model, self.solid@),
                layers_done(g, self.model, self@, t as int),
                front_is(g, self@, front@, t as int),
                front@.len() > 0 ==> t + count_unreached(self.reach@) <= n,
            decreases count_unreached(self.reach@), front@.len(),
        {
            let ghost f0 = self@;
            let ghost t0 = t;
            t = t + 1;
            let mut touched: Vec<Vec2D> = Vec::new();
            proof {
                lemma_layer_begins(g, self.model, front@, t as int, f0, self.strength@, self.solid@);
                assert forall|p: Vec2D| g.has(p) implies #[trigger] f0.reach[cell_slot(g.width, p)]
                    != t by {
                    reveal(layers_done);
                    assert(done_at(g, self.model, f0, p, t0 as int));
                }
            }
            let mut j: usize = 0;
            while j < front.len()
                invariant
                    g == game@,
                    g.wf(),
                    1 <= t < usize::MAX,
                    j <= front@.len(),
                    self.width == game.width,
                    self.height == game.height,
                    self.you == you,
                    self.model == old(self).model,
                    front_is(g, f0, front@, t - 1),
                    solid_times(g, self.model, self.solid@),
                    progress(g, front@, j as int, 0, t as int, f0, self@, self.strength@, self.solid@),
                    touched_is(g, f0, self@, touched@, t as int),
                decreases front@.len() - j,
            {
                assert(fresh(g, f0, front@[j as int].0, front@[j as int].1, t - 1)) by {
                    reveal(front_is);
                }
                let mut c: usize = 0;
                while c < 4
                    invariant
                        g == game@,
                        g.wf(),
                        1 <= t < usize::MAX,
                        j < front@.len(),
                        c <= 4,
                        g.has(front@[j as int].0),
                        front@[j as int].1 < g.snakes.len(),
                        self.width == game.width,
                        self.height == game.height,
                        self.you == you,
                        self.model == old(self).model,
                        solid_times(g, self.model, self.solid@),
                        progress(
                            g,
                            front@,
                            j as int,
                            c as int,
                            t as int,
                            f0,
                            self@,
                            self.strength@,
                            self.solid@,
                        ),
                        touched_is(g, f0, self@, touched@, t as int),
                    decreases 4 - c,
                {
                    self.visit(game, &front, j, c, t, &mut touched, Ghost(f0));
                    c = c + 1;
                }
                proof {
                    lemma_next_entry(g, front@, j as int, t as int, f0, self@, self.strength@, self.solid@);
                }
                j = j + 1;
            }
            proof {
                lemma_layer_done(
                    g,
                    self.model,
                    front@,
                    t as int,
                    f0,
                    self@,
                    self.strength@,
                    self.solid@,
                );
            }
            let mut next: Vec<(Vec2D, u8)> = Vec::new();
            let mut k: usize = 0;
            while k < touched.len()
                invariant
                    g == game@,
                    g.wf(),
                    1 <= t,
                    k <= touched@.len(),
                    self.width == game.width,
                    self.height == game.height,
                    self.owner@.len() == game.width * game.height,
                    layers_done(g, self.model, self@, t as int),
                    touched_is(g, f0, self@, touched@, t as int),
                    forall|m: int|
                        0 <= m < next@.len() ==> fresh(
                            g,
                            self@,
                            (#[trigger] next@[m]).0,
                            next@[m].1,
                            t as int,
                        ),
                    forall|a: int| 0 <= a < k ==> #[trigger] entry_for(g, self@, touched@, next@, a),
                decreases touched@.len() - k,
            {
                let p = touched[k];
                let i = slot(game.width, game.height, p);
                match self.owner[i] {
                    Owner::Snake(id) => {
                        let ghost next0 = next@;
                        next.push((p, id));
                        proof {
                            lemma_winner_fresh(g, self.model, self@, p, id, t as int);
                            assert forall|m: int| 0 <= m < next@.len() implies fresh(
                                g,
                                self@,
                                (#[trigger] next@[m]).0,
                                next@[m].1,
                                t as int,
                            ) by {
                                if m < next0.len() {
                                    assert(next@[m] == next0[m]);
                                }
                            }
                            assert forall|a: int| 0 <= a < k + 1 implies #[trigger] entry_for(
                                g,
                                self@,
                                touched@,
                                next@,
                                a,
                            ) by {
                                if a < k {
                                    assert(entry_for(g, self@, touched@, next0, a));
                                    match self@.owner[cell_slot(g.width, touched@[a])] {
                                        Owner::Snake(x) => {
                                            let m = choose|m: int|
                                                0 <= m < next0.len() && #[trigger] next0[m] == (
                                                    touched@[a],
                                                    x,
                                                );
                                            assert(next@[m] == (touched@[a], x));
                                        },
                                        _ => {},
                                    }
                                } else {
                                    assert(next@[next0.len() as int] == (p, id));
                                }
                            }
                        }
                    },
                    _ => {
                        assert(entry_for(g, self@, touched@, next@, k as int));
                    },
                }
                k = k + 1;
            }
            proof {
                reveal(front_is);
                assert forall|q: Vec2D, x: u8| #[trigger] fresh(g, self@, q, x, t as int) implies exists|
                    m: int,
                | 0 <= m < next@.len() && #[trigger] next@[m] == (q, x) by {
                    assert(self@.reach[cell_slot(g.width, q)] == t);
                    assert(touched@.contains(q));
                    let a = choose|a: int| 0 <= a < touched@.len() && touched@[a] == q;
                    assert(entry_for(g, self@, touched@, next@, a));
                    assert(self@.owner[cell_slot(g.width, touched@[a])] == Owner::Snake(x));
                }
                lemma_count_unreached_bound(self.reach@);
                if next@.len() > 0 {
                    assert(fresh(g, self@, next@[0].0, next@[0].1, t as int));
                    assert(touched@.len() > 0);
                }
            }
            front = next;
        }
        proof {
            assert(front@ =~= Seq::<(Vec2D, u8)>::empty());
            lemma_fill_ends(g, self.model, self@, t as int);
        }
    }
}

/// The cells of a filled board are shared out: what the snakes own, counted snake
/// by snake, and the unowned and contested cells make up all cells but the walls;
/// and with static walls the walls are the cells on which a live snake lies.
pub proof fn lemma_space_partition(g: GameState, model: WallModel, f: FloodState)
    requires
        settled(g, model, f),
    ensures
        owned_by_ids(f.owner, 256) + count_label(f.owner, Owner::Unowned) + count_label(
            f.owner,
            Owner::Contested,
        ) == g.width * g.height - count_label(f.owner, Owner::Wall),
        model is Static ==> forall|p: Vec2D|
            g.has(p) ==> (#[trigger] f.owner[cell_slot(g.width, p)] is Wall <==> occupied(g, p)),
{
    lemma_partition(f.owner);
    if model is Static {
        assert forall|p: Vec2D| g.has(p) implies (#[trigger] f.owner[cell_slot(g.width, p)] is Wall
            <==> occupied(g, p)) by {
            assert(settled_at(g, model, f, p));
            let i = cell_slot(g.width, p);
            if occupied(g, p) {
                let (a, b) = choose|a: int, b: int|
                    0 <= a < g.snakes.len() && g.snakes[a].alive() && 0 <= b < g.snakes[a].body.len()
                        && #[trigger] g.snakes[a].body[b] == p;
                assert(g.snakes[a].body[b] == p);
                assert(blocked(g, model, p, f.reach[i] as int));
            }
        }
    }
}

/// Whether two fills agree on the cell `p` if either of them has taken it in the
/// layers up to `t`.
spec fn agree_at(g: GameState, f1: FloodState, f2: FloodState, t: int, p: Vec2D) -> bool {
    let i = cell_slot(g.width, p);
    (1 <= f1.reach[i] <= t || 1 <= f2.reach[i] <= t) ==> f2.owner[i] == f1.owner[i] && f2.reach[i]
        == f1.reach[i]
}

/// Whether two fills agree on every cell that either of them has taken in the
/// layers up to `t`.
spec fn agree_upto(g: GameState, f1: FloodState, f2: FloodState, t: int) -> bool {
    forall|p: Vec2D| g.has(p) ==> #[trigger] agree_at(g, f1, f2, t, p)
}

proof fn lemma_agree_fresh(g: GameState, f1: FloodState, f2: FloodState, t: int, q: Vec2D, s: u8, u: int)
    requires
        agree_upto(g, f1, f2, t),
        0 <= u <= t,
    ensures
        fresh(g, f1, q, s, u) == fresh(g, f2, q, s, u),
{
    if g.has(q) {
        assert(agree_at(g, f1, f2, t, q));
    }
}

proof fn lemma_agree_comes(g: GameState, f1: FloodState, f2: FloodState, t: int, p: Vec2D, s: u8, u: int)
    requires
        agree_upto(g, f1, f2, t),
        u <= t + 1,
    ensures
        comes(g, f1, p, s, u) == comes(g, f2, p, s, u),
{
    if u >= 1 {
        if comes(g, f1, p, s, u) {
            let d = choose|d: Direction| fresh(g, f1, #[trigger] p.neighbour(d), s, u - 1);
            lemma_agree_fresh(g, f1, f2, t, p.neighbour(d), s, u - 1);
        }
        if comes(g, f2, p, s, u) {
            let d = choose|d: Direction| fresh(g, f2, #[trigger] p.neighbour(d), s, u - 1);
            lemma_agree_fresh(g, f1, f2, t, p.neighbour(d), s, u - 1);
        }
    }
}

proof fn lemma_agree_arrives(g: GameState, f1: FloodState, f2: FloodState, t: int, p: Vec2D, u: int)
    requires
        agree_upto(g, f1, f2, t),
        u <= t + 1,
    ensures
        arrives(g, f1, p, u) == arrives(g, f2, p, u),
{
    if arrives(g, f1, p, u) {
        let s = choose|s: u8| comes(g, f1, p, s, u);
        lemma_agree_comes(g, f1, f2, t, p, s, u);
    }
    if arrives(g, f2, p, u) {
        let s = choose|s: u8| comes(g, f2, p, s, u);
        lemma_agree_comes(g, f1, f2, t, p, s, u);
    }
}

/// A cell that one fill has taken in layer `t + 1` the other has taken in that
/// layer too, for the same snake or for none.
proof fn lemma_agree_cell(
    g: GameState,
    model: WallModel,
    f1: FloodState,
    f2: FloodState,
    t: int,
    p: Vec2D,
)
    requires
        t >= 0,
        g.has(p),
        settled_at(g, model, f1, p),
        settled_at(g, model, f2, p),
        agree_upto(g, f1, f2, t),
        f1.reach[cell_slot(g.width, p)] == t + 1,
    ensures
        f2.owner[cell_slot(g.width, p)] == f1.owner[cell_slot(g.width, p)],
        f2.reach[cell_slot(g.width, p)] == t + 1,
{
    let i = cell_slot(g.width, p);
    let r2 = f2.reach[i] as int;
    let u = t + 1;
    lemma_agree_arrives(g, f1, f2, t, p, u);
    assert forall|s: u8| #[trigger] comes(g, f1, p, s, u) == comes(g, f2, p, s, u) by {
        lemma_agree_comes(g, f1, f2, t, p, s, u);
    }
    assert(entered(g, model, f1, p, u));
    assert(arrives(g, f2, p, u));
    if f2.owner[i] is Unowned || f2.owner[i] is Wall {
        assert(kept_out(g, model, f2, p, t + 1));
        assert(blocked(g, model, p, t + 1) || !arrives(g, f2, p, t + 1));
    } else {
        assert(entered(g, model, f2, p, r2));
        if r2 > t + 1 {
            assert(kept_out(g, model, f2, p, r2 - 1));
            assert(blocked(g, model, p, t + 1) || !arrives(g, f2, p, t + 1));
        }
        assert(agree_at(g, f1, f2, t, p));
        assert(r2 == t + 1);
        match f1.owner[i] {
            Owner::Snake(a) => {
                match f2.owner[i] {
                    Owner::Snake(b) => {
                        assert(wins(g, f1, p, a, t + 1) && wins(g, f2, p, b, t + 1));
                        assert(comes(g, f1, p, b, t + 1));
                        assert(comes(g, f2, p, a, t + 1));
                    },
                    Owner::Contested => {
                        lemma_win_or_tie(g, f1, f2, p, a, t + 1);
                    },
                    _ => {},
                }
            },
            Owner::Contested => {
                match f2.owner[i] {
                    Owner::Snake(b) => {
                        assert forall|s: u8| #[trigger] comes(g, f2, p, s, u) == comes(g, f1, p, s, u) by {
                            lemma_agree_comes(g, f1, f2, t, p, s, u);
                        }
                        lemma_win_or_tie(g, f2, f1, p, b, u);
                    },
                    _ => {},
                }
            },
            _ => {},
        }
    }
}

/// A cell that is won on one board is not tied on another to which the same fronts come.
proof fn lemma_win_or_tie(g: GameState, f1: FloodState, f2: FloodState, p: Vec2D, a: u8, t: int)
    requires
        wins(g, f1, p, a, t),
        forall|s: u8| #[trigger] comes(g, f1, p, s, t) == comes(g, f2, p, s, t),
    ensures
        !tied(g, f2, p, t),
{
    if tied(g, f2, p, t) {
        let (x, y) = choose|x: u8, y: u8|
            {
                &&& x != y
                &&& #[trigger] comes(g, f2, p, x, t)
                &&& #[trigger] comes(g, f2, p, y, t)
                &&& body_len(g, x) == body_len(g, y)
                &&& forall|r: u8| #[trigger]
                    comes(g, f2, p, r, t) ==> body_len(g, r) <= body_len(g, x)
            };
        assert(comes(g, f1, p, x, t));
        assert(comes(g, f1, p, y, t));
        assert(comes(g, f1, p, a, t));
        assert(comes(g, f2, p, a, t));
    }
}

/// Two fills of the same game agree on every cell that either has taken in the
/// layers up to `t`.
proof fn lemma_agree(g: GameState, model: WallModel, f1: FloodState, f2: FloodState, t: int)
    requires
        t >= 0,
        settled(g, model, f1),
        settled(g, model, f2),
    ensures
        agree_upto(g, f1, f2, t),
    decreases t,
{
    if t > 0 {
        lemma_agree(g, model, f1, f2, t - 1);
        assert forall|p: Vec2D| g.has(p) implies #[trigger] agree_at(g, f2, f1, t - 1, p) by {
            assert(agree_at(g, f1, f2, t - 1, p));
        }
        assert forall|p: Vec2D| g.has(p) implies #[trigger] agree_at(g, f1, f2, t, p) by {
            let i = cell_slot(g.width, p);
            assert(agree_at(g, f1, f2, t - 1, p));
            assert(settled_at(g, model, f1, p));
            assert(settled_at(g, model, f2, p));
            if f1.reach[i] == t {
                lemma_agree_cell(g, model, f1, f2, t - 1, p);
            }
            if f2.reach[i] == t {
                lemma_agree_cell(g, model, f2, f1, t - 1, p);
            }
        }
    }
}

/// The fill of a game is one: two boards that both are the fill of `g` have the
/// same label and the same layer for every cell.
pub proof fn lemma_fill_unique(g: GameState, model: WallModel, f1: FloodState, f2: FloodState, p: Vec2D)
    requires
        settled(g, model, f1),
        settled(g, model, f2),
        g.has(p),
    ensures
        f1.owner[cell_slot(g.width, p)] == f2.owner[cell_slot(g.width, p)],
        f1.reach[cell_slot(g.width, p)] == f2.reach[cell_slot(g.width, p)],
{
    let i = cell_slot(g.width, p);
    let t = if f1.reach[i] >= f2.reach[i] {
        f1.reach[i] as int
    } else {
        f2.reach[i] as int
    };
    lemma_agree(g, model, f1, f2, t);
    assert(agree_at(g, f1, f2, t, p));
    assert(settled_at(g, model, f1, p));
    assert(settled_at(g, model, f2, p));
}

} // verus!
