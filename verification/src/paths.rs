use vstd::prelude::*;

use crate::grid::{walk_at, Cell, Grid};
use crate::util::Vec2;

verus! {

/// Sentinel cost of a cell not reached by a search; also the cost returned
/// when no path exists.
pub const INF: u16 = 0xFFFF;

/// A cell position inside the grid.
pub open spec fn in_bounds(v: Vec2) -> bool {
    v.x < 64 && v.y < 64
}

/// Row-major index of a cell in a search scratch array or a grid view.
pub open spec fn vidx(v: Vec2) -> int {
    v.y * 64 + v.x
}

/// The cell `v` of grid view `g` is walkable.
pub open spec fn walk(g: Seq<Cell>, v: Vec2) -> bool {
    walk_at(g, v.x as int, v.y as int)
}

/// `b` is one king move away from `a`.
pub open spec fn adjacent(a: Vec2, b: Vec2) -> bool {
    let dx = b.x - a.x;
    let dy = b.y - a.y;
    -1 <= dx <= 1 && -1 <= dy <= 1 && !(dx == 0 && dy == 0)
}

/// Cost of one move: 10 for an orthogonal and 14 for a diagonal step.
pub open spec fn step_cost(a: Vec2, b: Vec2) -> int {
    if a.x != b.x && a.y != b.y {
        14
    } else {
        10
    }
}

/// `p` is a walkable path across grid `g` from `a` to `b`: it starts at `a`,
/// ends at `b`, stays in bounds on walkable cells, and each move is one king
/// step.
pub open spec fn is_path(g: Seq<Cell>, p: Seq<Vec2>, a: Vec2, b: Vec2) -> bool {
    &&& p.len() >= 1
    &&& p[0] == a
    &&& p[p.len() - 1] == b
    &&& forall|i: int| 0 <= i < p.len() ==> in_bounds(#[trigger] p[i]) && walk(g, p[i])
    &&& forall|i: int| 0 <= i < p.len() - 1 ==> adjacent(#[trigger] p[i], p[i + 1])
}

/// Total cost of a path: the sum of its step costs.
pub open spec fn path_cost(p: Seq<Vec2>) -> int
    decreases p.len(),
{
    if p.len() <= 1 {
        0
    } else {
        path_cost(p.drop_last()) + step_cost(p[p.len() - 2], p[p.len() - 1])
    }
}

/// Some walkable path leads from `a` to `b`.
pub open spec fn reachable(g: Seq<Cell>, a: Vec2, b: Vec2) -> bool {
    exists|p: Seq<Vec2>| is_path(g, p, a, b)
}

/// There is a walkable path from `a` to `b` of cost at most `c`.
pub open spec fn within_cost(g: Seq<Cell>, a: Vec2, b: Vec2, c: int) -> bool {
    exists|p: Seq<Vec2>| is_path(g, p, a, b) && path_cost(p) <= c
}

/// Per-cell search bookkeeping: the best known cost from the source, and the
/// predecessor that achieved it.
#[derive(Debug, Clone, Copy)]
pub(crate) struct Node {
    pub came_from: Vec2,
    pub cost: u16,
}

impl Node {
    pub(crate) fn new() -> (r: Node)
        ensures
            r.cost == INF,
    {
        Node { came_from: Vec2 { x: INF, y: INF }, cost: INF }
    }
}

/// A queue entry of the searches: a cell and its priority.
#[derive(Debug, Clone, Copy)]
pub(crate) struct State {
    pub n: Vec2,
    pub cost: u32,
}

/// The search has reached `v`: some path cost is recorded for it.
pub(crate) open spec fn reached(s: Seq<Node>, v: Vec2) -> bool {
    s[vidx(v)].cost != INF
}

/// The recorded predecessor of `v` is a walkable adjacent cell whose cost
/// plus the step to `v` is within `v`'s cost, and `v` itself is walkable.
pub(crate) open spec fn pred_edge(s: Seq<Node>, g: Seq<Cell>, v: Vec2) -> bool {
    let p = s[vidx(v)].came_from;
    &&& in_bounds(p)
    &&& walk(g, p)
    &&& adjacent(p, v)
    &&& walk(g, v)
    &&& reached(s, p)
    &&& s[vidx(p)].cost + step_cost(p, v) <= s[vidx(v)].cost
    &&& s[vidx(v)].cost >= 10
}

/// The bookkeeping of a search from `src` is sound: the source sits at cost
/// zero and every other reached cell carries a valid predecessor edge.
pub(crate) open spec fn preds_ok(s: Seq<Node>, g: Seq<Cell>, src: Vec2) -> bool {
    &&& s.len() == 4096
    &&& g.len() == 4096
    &&& in_bounds(src)
    &&& walk(g, src)
    &&& s[vidx(src)].cost == 0
    &&& forall|v: Vec2|
        in_bounds(v) && v != src && #[trigger] reached(s, v) ==> pred_edge(s, g, v)
}

pub(crate) proof fn lemma_vidx_inj(v: Vec2, w: Vec2)
    requires
        in_bounds(v),
        in_bounds(w),
        v != w,
    ensures
        vidx(v) != vidx(w),
{
}

// The eight king-move neighbour offsets, in the order the searches try them.
pub(crate) open spec fn kdx(k: int) -> int {
    if k == 0 {
        -1
    } else if k == 1 {
        0
    } else if k == 2 {
        1
    } else if k == 3 {
        -1
    } else if k == 4 {
        1
    } else if k == 5 {
        -1
    } else if k == 6 {
        0
    } else {
        1
    }
}

pub(crate) open spec fn kdy(k: int) -> int {
    if k <= 2 {
        -1
    } else if k <= 4 {
        0
    } else {
        1
    }
}

/// Step cost of neighbour direction `k`.
pub(crate) open spec fn kcost(k: int) -> int {
    if k == 1 || k == 3 || k == 4 || k == 6 {
        10
    } else {
        14
    }
}

/// Direction `k` from `v` stays on the grid.
pub(crate) open spec fn nbr_ok(v: Vec2, k: int) -> bool {
    0 <= v.x + kdx(k) < 64 && 0 <= v.y + kdy(k) < 64
}

/// The neighbour of `v` in direction `k`.
pub(crate) open spec fn nbr(v: Vec2, k: int) -> Vec2 {
    Vec2 { x: (v.x + kdx(k)) as u16, y: (v.y + kdy(k)) as u16 }
}

pub(crate) proof fn lemma_nbr_props(v: Vec2, k: int)
    requires
        in_bounds(v),
        0 <= k < 8,
        nbr_ok(v, k),
    ensures
        in_bounds(nbr(v, k)),
        adjacent(v, nbr(v, k)),
        adjacent(nbr(v, k), v),
        step_cost(v, nbr(v, k)) == kcost(k),
        step_cost(nbr(v, k), v) == kcost(k),
        nbr(v, k) != v,
{
}

/// Every in-bounds adjacent cell is one of the eight neighbours.
pub(crate) proof fn lemma_adj_is_nbr(v: Vec2, w: Vec2)
    requires
        in_bounds(v),
        in_bounds(w),
        adjacent(v, w),
    ensures
        exists|k: int| 0 <= k < 8 && nbr_ok(v, k) && #[trigger] nbr(v, k) == w,
{
    let dx = w.x - v.x;
    let dy = w.y - v.y;
    if dy == -1 {
        if dx == -1 {
            assert(nbr_ok(v, 0) && nbr(v, 0) == w);
        } else if dx == 0 {
            assert(nbr_ok(v, 1) && nbr(v, 1) == w);
        } else {
            assert(nbr_ok(v, 2) && nbr(v, 2) == w);
        }
    } else if dy == 0 {
        if dx == -1 {
            assert(nbr_ok(v, 3) && nbr(v, 3) == w);
        } else {
            assert(nbr_ok(v, 4) && nbr(v, 4) == w);
        }
    } else {
        if dx == -1 {
            assert(nbr_ok(v, 5) && nbr(v, 5) == w);
        } else if dx == 0 {
            assert(nbr_ok(v, 6) && nbr(v, 6) == w);
        } else {
            assert(nbr_ok(v, 7) && nbr(v, 7) == w);
        }
    }
}

/// Every walkable in-bounds neighbour of `v` has been reached.
pub(crate) open spec fn nbrs_done(s: Seq<Node>, g: Seq<Cell>, v: Vec2) -> bool {
    forall|k: int|
        0 <= k < 8 && nbr_ok(v, k) && walk(g, #[trigger] nbr(v, k)) ==> reached(s, nbr(v, k))
}

/// Every walkable in-bounds neighbour of `v` has been reached at a cost no
/// worse than stepping there from `v`.
pub(crate) open spec fn nbrs_relaxed(s: Seq<Node>, g: Seq<Cell>, v: Vec2) -> bool {
    forall|k: int|
        0 <= k < 8 && nbr_ok(v, k) && walk(g, #[trigger] nbr(v, k)) ==> reached(s, nbr(v, k))
            && s[vidx(nbr(v, k))].cost <= s[vidx(v)].cost + kcost(k)
}

/// The search has run to quiescence: every reached cell's walkable
/// neighbours are reached.
pub(crate) open spec fn all_expanded(s: Seq<Node>, g: Seq<Cell>) -> bool {
    forall|v: Vec2| in_bounds(v) && #[trigger] reached(s, v) ==> nbrs_done(s, g, v)
}

/// As `all_expanded`, with the relaxation bound at every edge.
pub(crate) open spec fn all_relaxed(s: Seq<Node>, g: Seq<Cell>) -> bool {
    forall|v: Vec2| in_bounds(v) && #[trigger] reached(s, v) ==> nbrs_relaxed(s, g, v)
}

/// After quiescence, every cell on a walkable path out of a reached cell has
/// been reached.
pub(crate) proof fn lemma_reached_along(s: Seq<Node>, g: Seq<Cell>, p: Seq<Vec2>, i: int)
    requires
        s.len() == 4096,
        g.len() == 4096,
        all_expanded(s, g),
        p.len() >= 1,
        forall|j: int| 0 <= j < p.len() ==> in_bounds(#[trigger] p[j]) && walk(g, p[j]),
        forall|j: int| 0 <= j < p.len() - 1 ==> adjacent(#[trigger] p[j], p[j + 1]),
        reached(s, p[0]),
        0 <= i < p.len(),
    ensures
        reached(s, p[i]),
    decreases i,
{
    if i > 0 {
        lemma_reached_along(s, g, p, i - 1);
        lemma_adj_is_nbr(p[i - 1], p[i]);
        let k = choose|k: int| 0 <= k < 8 && nbr_ok(p[i - 1], k) && #[trigger] nbr(p[i - 1], k)
            == p[i];
        assert(nbrs_done(s, g, p[i - 1]));
        assert(reached(s, nbr(p[i - 1], k)));
    }
}

/// After quiescence, a cell the search never reached is unreachable.
pub(crate) proof fn lemma_unreached_unreachable(
    s: Seq<Node>,
    g: Seq<Cell>,
    src: Vec2,
    to: Vec2,
)
    requires
        s.len() == 4096,
        g.len() == 4096,
        all_expanded(s, g),
        reached(s, src),
        !reached(s, to),
    ensures
        !reachable(g, src, to),
{
    if reachable(g, src, to) {
        let p = choose|p: Seq<Vec2>| is_path(g, p, src, to);
        lemma_reached_along(s, g, p, p.len() - 1);
    }
}

/// After full relaxation, no cell's recorded cost exceeds the cost of any
/// walkable path to it from the source.
pub(crate) proof fn lemma_cost_below_path(
    s: Seq<Node>,
    g: Seq<Cell>,
    src: Vec2,
    p: Seq<Vec2>,
    i: int,
)
    requires
        s.len() == 4096,
        g.len() == 4096,
        all_relaxed(s, g),
        s[vidx(src)].cost == 0,
        p.len() >= 1,
        p[0] == src,
        forall|j: int| 0 <= j < p.len() ==> in_bounds(#[trigger] p[j]) && walk(g, p[j]),
        forall|j: int| 0 <= j < p.len() - 1 ==> adjacent(#[trigger] p[j], p[j + 1]),
        reached(s, src),
        0 <= i < p.len(),
    ensures
        reached(s, p[i]),
        s[vidx(p[i])].cost <= path_cost(p.take(i + 1)),
    decreases i,
{
    if i == 0 {
        assert(p.take(1).len() == 1);
        assert(path_cost(p.take(1)) == 0);
    } else {
        lemma_cost_below_path(s, g, src, p, i - 1);
        lemma_adj_is_nbr(p[i - 1], p[i]);
        let k = choose|k: int| 0 <= k < 8 && nbr_ok(p[i - 1], k) && #[trigger] nbr(p[i - 1], k)
            == p[i];
        lemma_nbr_props(p[i - 1], k);
        assert(nbrs_relaxed(s, g, p[i - 1]));
        assert(reached(s, nbr(p[i - 1], k)));
        lemma_path_cost_take(p, i);
    }
}

/// Following recorded predecessors from a reached cell yields a walkable
/// path back to the source of cost at most the cell's recorded cost.
pub(crate) proof fn lemma_pred_chain(s: Seq<Node>, g: Seq<Cell>, src: Vec2, v: Vec2)
    requires
        preds_ok(s, g, src),
        in_bounds(v),
        reached(s, v),
    ensures
        within_cost(g, v, src, s[vidx(v)].cost as int),
        walk(g, v),
    decreases s[vidx(v)].cost,
{
    if v == src {
        let p = seq![src];
        assert(is_path(g, p, src, src));
        assert(path_cost(p) == 0);
    } else {
        assert(pred_edge(s, g, v));
        let pr = s[vidx(v)].came_from;
        lemma_vidx_inj(v, pr);
        lemma_pred_chain(s, g, src, pr);
        let q = choose|q: Seq<Vec2>|
            is_path(g, q, pr, src) && path_cost(q) <= s[vidx(pr)].cost as int;
        let p = seq![v] + q;
        lemma_path_cost_cons(v, q);
        assert(p[0] == v);
        assert(p[p.len() - 1] == q[q.len() - 1]);
        assert forall|i: int| 0 <= i < p.len() implies in_bounds(#[trigger] p[i]) && walk(
            g,
            p[i],
        ) by {
            if i >= 1 {
                assert(p[i] == q[i - 1]);
            }
        }
        assert forall|i: int| 0 <= i < p.len() - 1 implies adjacent(#[trigger] p[i], p[i + 1]) by {
            if i >= 1 {
                assert(p[i] == q[i - 1] && p[i + 1] == q[i]);
            } else {
                assert(p[0] == v && p[1] == q[0] && q[0] == pr);
            }
        }
        assert(is_path(g, p, v, src));
        assert(path_cost(p) <= s[vidx(v)].cost as int);
    }
}

/// A path read backward is still a path, of the same cost.
pub proof fn lemma_path_reverse(g: Seq<Cell>, p: Seq<Vec2>, a: Vec2, b: Vec2)
    requires
        is_path(g, p, a, b),
    ensures
        reachable(g, b, a),
        within_cost(g, b, a, path_cost(p)),
    decreases p.len(),
{
    if p.len() == 1 {
        assert(is_path(g, p, b, a));
        assert(path_cost(p) == 0);
    } else {
        let p2 = p.drop_first();
        assert(p =~= seq![p[0]] + p2);
        lemma_path_cost_cons(p[0], p2);
        assert forall|i: int| 0 <= i < p2.len() implies in_bounds(#[trigger] p2[i]) && walk(
            g,
            p2[i],
        ) by {
            assert(p2[i] == p[i + 1]);
        }
        assert forall|i: int| 0 <= i < p2.len() - 1 implies adjacent(
            #[trigger] p2[i],
            p2[i + 1],
        ) by {
            assert(p2[i] == p[i + 1] && p2[i + 1] == p[i + 2]);
        }
        assert(is_path(g, p2, p[1], b));
        lemma_path_reverse(g, p2, p[1], b);
        let q = choose|q: Seq<Vec2>| is_path(g, q, b, p[1]) && path_cost(q) <= path_cost(p2);
        lemma_path_cost_push(q, a);
        let q2 = q.push(a);
        assert forall|i: int| 0 <= i < q2.len() implies in_bounds(#[trigger] q2[i]) && walk(
            g,
            q2[i],
        ) by {
            if i < q.len() {
                assert(q2[i] == q[i]);
            } else {
                assert(q2[i] == a && p[0] == a);
            }
        }
        assert forall|i: int| 0 <= i < q2.len() - 1 implies adjacent(
            #[trigger] q2[i],
            q2[i + 1],
        ) by {
            if i < q.len() - 1 {
                assert(q2[i] == q[i] && q2[i + 1] == q[i + 1]);
            } else {
                assert(q2[i] == q[q.len() - 1] && q2[i + 1] == a);
                assert(q[q.len() - 1] == p[1] && p[0] == a);
                assert(adjacent(p[0], p[1]));
            }
        }
        assert(is_path(g, q2, b, a));
        assert(path_cost(q2) == path_cost(q) + step_cost(p[1], a));
        assert(step_cost(p[1], a) == step_cost(p[0], p[1]));
        assert(path_cost(q2) <= path_cost(p));
    }
}

pub(crate) proof fn lemma_path_cost_cons(x: Vec2, q: Seq<Vec2>)
    requires
        q.len() >= 1,
    ensures
        path_cost(seq![x] + q) == step_cost(x, q[0]) + path_cost(q),
    decreases q.len(),
{
    let p = seq![x] + q;
    if q.len() == 1 {
        assert(p.drop_last() =~= seq![x]);
        assert(path_cost(seq![x]) == 0);
        assert(p[0] == x && p[1] == q[0]);
    } else {
        assert(p.drop_last() =~= seq![x] + q.drop_last());
        lemma_path_cost_cons(x, q.drop_last());
        assert(q.drop_last()[0] == q[0]);
        assert(p[p.len() - 2] == q[q.len() - 2] && p[p.len() - 1] == q[q.len() - 1]);
        assert(q.drop_last().len() >= 1);
    }
}

pub(crate) proof fn lemma_path_cost_take(p: Seq<Vec2>, i: int)
    requires
        1 <= i < p.len(),
    ensures
        path_cost(p.take(i + 1)) == path_cost(p.take(i)) + step_cost(p[i - 1], p[i]),
{
    let t = p.take(i + 1);
    assert(t.drop_last() =~= p.take(i));
    assert(t[i - 1] == p[i - 1] && t[i] == p[i]);
}

pub(crate) proof fn lemma_path_cost_push(p: Seq<Vec2>, x: Vec2)
    requires
        p.len() >= 1,
    ensures
        path_cost(p.push(x)) == path_cost(p) + step_cost(p[p.len() - 1], x),
{
    assert(p.push(x).drop_last() =~= p);
    assert(p.push(x)[p.len() - 1] == p[p.len() - 1]);
    assert(p.push(x)[p.len() as int] == x);
}

/// How many cells have been reached.
pub(crate) open spec fn count_reached(s: Seq<Node>) -> int
    decreases s.len(),
{
    if s.len() == 0 {
        0
    } else {
        count_reached(s.drop_last()) + if s.last().cost != INF {
            1int
        } else {
            0int
        }
    }
}

pub(crate) proof fn lemma_count_le_len(s: Seq<Node>)
    ensures
        0 <= count_reached(s) <= s.len(),
    decreases s.len(),
{
    if s.len() > 0 {
        lemma_count_le_len(s.drop_last());
    }
}

pub(crate) proof fn lemma_count_update(s: Seq<Node>, i: int, v: Node)
    requires
        0 <= i < s.len(),
    ensures
        count_reached(s.update(i, v)) == count_reached(s) - (if s[i].cost != INF {
            1int
        } else {
            0int
        }) + (if v.cost != INF {
            1int
        } else {
            0int
        }),
    decreases s.len(),
{
    if i == s.len() - 1 {
        assert(s.update(i, v).drop_last() =~= s.drop_last());
        assert(s.update(i, v).last() == v);
    } else {
        assert(s.update(i, v).drop_last() =~= s.drop_last().update(i, v));
        lemma_count_update(s.drop_last(), i, v);
        assert(s.update(i, v).last() == s.last());
        assert(s.drop_last()[i] == s[i]);
    }
}

pub(crate) proof fn lemma_count_all_unreached(s: Seq<Node>)
    requires
        forall|i: int| 0 <= i < s.len() ==> s[i].cost == INF,
    ensures
        count_reached(s) == 0,
    decreases s.len(),
{
    if s.len() > 0 {
        assert(forall|i: int| 0 <= i < s.drop_last().len() ==> s.drop_last()[i] == s[i]);
        lemma_count_all_unreached(s.drop_last());
    }
}

/// Every reached cost stays under 14 times the count of reached cells, so
/// one more relaxation can never run into the sentinel.
pub(crate) open spec fn costs_bounded(s: Seq<Node>) -> bool {
    forall|v: Vec2|
        in_bounds(v) && #[trigger] reached(s, v) ==> s[vidx(v)].cost <= 14 * (count_reached(s)
            - 1)
}

/// With a full-grid scratch array, every reached cost is at most 14 * 4095.
pub(crate) proof fn lemma_cost_cap(s: Seq<Node>, v: Vec2)
    requires
        s.len() == 4096,
        costs_bounded(s),
        in_bounds(v),
        reached(s, v),
    ensures
        s[vidx(v)].cost <= 57330,
{
    lemma_count_le_len(s);
}

/// Sum of all recorded costs; the searches use it to show termination, since
/// every queue insertion strictly lowers some cell's cost.
pub(crate) open spec fn sum_costs(s: Seq<Node>) -> int
    decreases s.len(),
{
    if s.len() == 0 {
        0
    } else {
        sum_costs(s.drop_last()) + s.last().cost
    }
}

pub(crate) proof fn lemma_sum_nonneg(s: Seq<Node>)
    ensures
        sum_costs(s) >= 0,
    decreases s.len(),
{
    if s.len() > 0 {
        lemma_sum_nonneg(s.drop_last());
    }
}

pub(crate) proof fn lemma_sum_update(s: Seq<Node>, i: int, v: Node)
    requires
        0 <= i < s.len(),
    ensures
        sum_costs(s.update(i, v)) == sum_costs(s) + v.cost - s[i].cost,
    decreases s.len(),
{
    if i == s.len() - 1 {
        assert(s.update(i, v).drop_last() =~= s.drop_last());
        assert(s.update(i, v).last() == v);
    } else {
        assert(s.update(i, v).drop_last() =~= s.drop_last().update(i, v));
        lemma_sum_update(s.drop_last(), i, v);
        assert(s.update(i, v).last() == s.last());
        assert(s.drop_last()[i] == s[i]);
    }
}

/// A fresh scratch array, one unreached `Node` per grid cell.
pub(crate) fn fresh_scratch() -> (s: Vec<Node>)
    ensures
        s@.len() == 4096,
        forall|i: int| 0 <= i < 4096 ==> s@[i].cost == INF,
{
    let mut s: Vec<Node> = Vec::new();
    let mut i: usize = 0;
    while i < 4096
        invariant
            i <= 4096,
            s@.len() == i,
            forall|j: int| 0 <= j < i ==> s@[j].cost == INF,
        decreases 4096 - i,
    {
        s.push(Node::new());
        i += 1;
    }
    s
}

/// Remove and return the best queue entry: least priority, ties broken
/// toward the row-major-largest cell, which makes the searches
/// deterministic.
pub(crate) fn pop_best(q: &mut Vec<State>) -> (r: State)
    requires
        old(q)@.len() > 0,
    ensures
        final(q)@.len() == old(q)@.len() - 1,
        exists|j: int|
            0 <= j < old(q)@.len() && old(q)@[j] == r && final(q)@ == old(q)@.remove(j),
        forall|j: int| 0 <= j < old(q)@.len() ==> (#[trigger] old(q)@[j]).cost >= r.cost,
{
    let mut best: usize = 0;
    let mut i: usize = 1;
    while i < q.len()
        invariant
            q@ == old(q)@,
            q@.len() > 0,
            best < q@.len(),
            1 <= i <= q@.len(),
            forall|j: int| 0 <= j < i ==> (#[trigger] q@[j]).cost >= q@[best as int].cost,
        decreases q@.len() - i,
    {
        let better = q[i].cost < q[best].cost || (q[i].cost == q[best].cost && (q[i].n.y
            > q[best].n.y || (q[i].n.y == q[best].n.y && q[i].n.x > q[best].n.x)));
        if better {
            best = i;
        }
        i += 1;
    }
    q.remove(best)
}

/// Walk recorded predecessors from `target` back to `src`; the result is a
/// walkable path whose cost is within `target`'s recorded cost.
pub(crate) fn build_path(scratch: &Vec<Node>, g: &Grid, target: Vec2, src: Vec2) -> (p: Vec<
    Vec2,
>)
    requires
        g.wf(),
        preds_ok(scratch@, g@, src),
        in_bounds(target),
        reached(scratch@, target),
    ensures
        is_path(g@, p@, target, src),
        path_cost(p@) <= scratch@[vidx(target)].cost,
        p@[0] == target,
{
    let mut path: Vec<Vec2> = Vec::new();
    path.push(target);
    let mut cur = target;
    proof {
        if target != src {
            assert(pred_edge(scratch@, g@, target));
        }
    }
    while !(cur.x == src.x && cur.y == src.y)
        invariant
            g.wf(),
            preds_ok(scratch@, g@, src),
            in_bounds(cur),
            reached(scratch@, cur),
            walk(g@, cur),
            path@.len() >= 1,
            path@[0] == target,
            path@[path@.len() - 1] == cur,
            forall|i: int|
                0 <= i < path@.len() ==> in_bounds(#[trigger] path@[i]) && walk(g@, path@[i]),
            forall|i: int| 0 <= i < path@.len() - 1 ==> adjacent(#[trigger] path@[i], path@[i + 1]),
            path_cost(path@) + scratch@[vidx(cur)].cost <= scratch@[vidx(target)].cost,
        decreases scratch@[vidx(cur)].cost,
    {
        proof {
            assert(cur != src);
            assert(pred_edge(scratch@, g@, cur));
        }
        let i = (cur.y as usize) * 64 + (cur.x as usize);
        let prev = scratch[i].came_from;
        proof {
            lemma_path_cost_push(path@, prev);
            lemma_vidx_inj(cur, prev);
        }
        path.push(prev);
        cur = prev;
    }
    proof {
        assert(cur == src);
    }
    path
}

} // verus!
