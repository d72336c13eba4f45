use vstd::prelude::*;

use crate::grid::{Cell, Grid};
use crate::paths::{adjacent, all_relaxed, build_path, costs_bounded, count_reached,
    fresh_scratch, in_bounds, is_path, kcost, lemma_adj_is_nbr, lemma_cost_below_path,
    lemma_cost_cap, lemma_count_all_unreached, lemma_count_update, lemma_nbr_props,
    lemma_path_cost_take, lemma_path_reverse, lemma_pred_chain, lemma_sum_nonneg,
    lemma_sum_update, lemma_unreached_unreachable, lemma_vidx_inj, nbr, nbr_ok, nbrs_done,
    nbrs_relaxed, path_cost, pop_best, pred_edge, preds_ok, reachable, reached, step_cost,
    sum_costs, vidx, walk, within_cost, Node, State, INF};
use crate::util::Vec2;

verus! {

pub open spec fn abs_d(a: int, b: int) -> int {
    if a >= b {
        a - b
    } else {
        b - a
    }
}

/// The A* heuristic: Chebyshev distance scaled by the orthogonal step cost.
pub open spec fn h_cheb(a: Vec2, b: Vec2) -> int {
    if abs_d(a.x as int, b.x as int) >= abs_d(a.y as int, b.y as int) {
        10 * abs_d(a.x as int, b.x as int)
    } else {
        10 * abs_d(a.y as int, b.y as int)
    }
}

/// Chebyshev distance to `to`, scaled by the orthogonal step cost.
pub fn heuristic(from: Vec2, to: Vec2) -> (r: u16)
    requires
        in_bounds(from),
        in_bounds(to),
    ensures
        r == h_cheb(from, to),
        r <= 630,
{
    let dx = if from.x >= to.x {
        from.x - to.x
    } else {
        to.x - from.x
    };
    let dy = if from.y >= to.y {
        from.y - to.y
    } else {
        to.y - from.y
    };
    let m = if dx > dy {
        dx
    } else {
        dy
    };
    m * 10
}

/// Neighbour `k` of `v`, clipped to the grid.
pub(crate) fn nbr_exec(v: Vec2, k: u8) -> (r: Option<(u16, u16)>)
    requires
        in_bounds(v),
        k < 8,
    ensures
        r is Some <==> nbr_ok(v, k as int),
        match r {
            Some(w) => (Vec2 { x: w.0, y: w.1 }) == nbr(v, k as int),
            None => true,
        },
{
    let dx: i32 = if k == 0 || k == 3 || k == 5 {
        -1
    } else if k == 1 || k == 6 {
        0
    } else {
        1
    };
    let dy: i32 = if k <= 2 {
        -1
    } else if k <= 4 {
        0
    } else {
        1
    };
    let nx = v.x as i32 + dx;
    let ny = v.y as i32 + dy;
    if nx >= 0 && nx < 64 && ny >= 0 && ny < 64 {
        Some((nx as u16, ny as u16))
    } else {
        None
    }
}

/// Step cost of neighbour direction `k`.
pub(crate) fn kcost_exec(k: u8) -> (r: u16)
    requires
        k < 8,
    ensures
        r == kcost(k as int),
{
    if k == 0 || k == 2 || k == 5 || k == 7 {
        14
    } else {
        10
    }
}

/// There is a queue entry for `v` whose priority is within `v`'s recorded
/// cost plus its heuristic: popping it would expand `v`.
spec fn has_witness(q: Seq<State>, s: Seq<Node>, to: Vec2, v: Vec2) -> bool {
    exists|j: int|
        0 <= j < q.len() && (#[trigger] q[j]).n == v && q[j].cost <= s[vidx(v)].cost + h_cheb(
            v,
            to,
        )
}

/// Every queue entry names an in-bounds, reached cell and its priority never
/// undercuts that cell's recorded cost.
spec fn q_ok(q: Seq<State>, s: Seq<Node>) -> bool {
    forall|j: int|
        0 <= j < q.len() ==> in_bounds((#[trigger] q[j]).n) && reached(s, q[j].n) && q[j].cost
            >= s[vidx(q[j].n)].cost
}

/// Every reached cell other than `ex` either still has a usable queue entry
/// or has had all its walkable neighbours relaxed.
spec fn covered_except(s: Seq<Node>, g: Seq<Cell>, q: Seq<State>, to: Vec2, ex: Vec2) -> bool {
    forall|v: Vec2|
        in_bounds(v) && #[trigger] reached(s, v) && v != ex ==> has_witness(q, s, to, v)
            || nbrs_relaxed(s, g, v)
}

/// As `covered_except`, with no cell exempted.
spec fn covered(s: Seq<Node>, g: Seq<Cell>, q: Seq<State>, to: Vec2) -> bool {
    forall|v: Vec2|
        in_bounds(v) && #[trigger] reached(s, v) ==> has_witness(q, s, to, v) || nbrs_relaxed(
            s,
            g,
            v,
        )
}

proof fn lemma_q_ok_after_remove(q: Seq<State>, j0: int, s: Seq<Node>)
    requires
        q_ok(q, s),
        0 <= j0 < q.len(),
    ensures
        q_ok(q.remove(j0), s),
{
    q.remove_ensures(j0);
    assert forall|j: int| 0 <= j < q.remove(j0).len() implies in_bounds(
        (#[trigger] q.remove(j0)[j]).n,
    ) && reached(s, q.remove(j0)[j].n) && q.remove(j0)[j].cost >= s[vidx(
        q.remove(j0)[j].n,
    )].cost by {
        if j < j0 {
            assert(q.remove(j0)[j] == q[j]);
        } else {
            assert(q.remove(j0)[j] == q[j + 1]);
        }
    }
}

proof fn lemma_covered_after_remove(
    s: Seq<Node>,
    g: Seq<Cell>,
    q: Seq<State>,
    j0: int,
    to: Vec2,
)
    requires
        covered(s, g, q, to),
        0 <= j0 < q.len(),
    ensures
        covered_except(s, g, q.remove(j0), to, q[j0].n),
{
    q.remove_ensures(j0);
    assert forall|v: Vec2|
        in_bounds(v) && #[trigger] reached(s, v) && v != q[j0].n implies has_witness(
        q.remove(j0),
        s,
        to,
        v,
    ) || nbrs_relaxed(s, g, v) by {
        if has_witness(q, s, to, v) {
            let j = choose|j: int|
                0 <= j < q.len() && (#[trigger] q[j]).n == v && q[j].cost <= s[vidx(v)].cost
                    + h_cheb(v, to);
            if j < j0 {
                assert(q.remove(j0)[j] == q[j]);
            } else {
                assert(q.remove(j0)[j - 1] == q[j]);
            }
        }
    }
}

/// Dropping a stale entry keeps every reached cell covered: a usable entry
/// has a strictly lower priority, so it was not the one removed.
proof fn lemma_stale_keep(s: Seq<Node>, g: Seq<Cell>, q: Seq<State>, j0: int, to: Vec2)
    requires
        covered(s, g, q, to),
        0 <= j0 < q.len(),
        in_bounds(q[j0].n),
        q[j0].cost > s[vidx(q[j0].n)].cost + h_cheb(q[j0].n, to),
    ensures
        covered(s, g, q.remove(j0), to),
{
    lemma_covered_after_remove(s, g, q, j0, to);
    let n = q[j0].n;
    q.remove_ensures(j0);
    assert forall|v: Vec2| in_bounds(v) && #[trigger] reached(s, v) implies has_witness(
        q.remove(j0),
        s,
        to,
        v,
    ) || nbrs_relaxed(s, g, v) by {
        if v == n && has_witness(q, s, to, v) {
            let j = choose|j: int|
                0 <= j < q.len() && (#[trigger] q[j]).n == v && q[j].cost <= s[vidx(v)].cost
                    + h_cheb(v, to);
            assert(j != j0);
            if j < j0 {
                assert(q.remove(j0)[j] == q[j]);
            } else {
                assert(q.remove(j0)[j - 1] == q[j]);
            }
        }
    }
}

/// Once a cell's neighbours are all expanded it is covered without a queue
/// entry.
proof fn lemma_expand_covered(s: Seq<Node>, g: Seq<Cell>, q: Seq<State>, to: Vec2, n: Vec2)
    requires
        covered_except(s, g, q, to, n),
        nbrs_relaxed(s, g, n),
        in_bounds(n),
    ensures
        covered(s, g, q, to),
{
}

/// One relaxation: neighbour `k` of `n` is given cost `c + kcost(k)` with
/// predecessor `n` and a fresh queue entry; every search invariant survives.
proof fn lemma_relax(
    sprev: Seq<Node>,
    qprev: Seq<State>,
    g: Seq<Cell>,
    from: Vec2,
    to: Vec2,
    n: Vec2,
    k: int,
    c: u16,
    newnode: Node,
    newentry: State,
)
    requires
        preds_ok(sprev, g, from),
        costs_bounded(sprev),
        q_ok(qprev, sprev),
        covered_except(sprev, g, qprev, to, n),
        in_bounds(n),
        in_bounds(to),
        walk(g, n),
        reached(sprev, n),
        sprev[vidx(n)].cost == c,
        0 <= k < 8,
        nbr_ok(n, k),
        walk(g, nbr(n, k)),
        c + kcost(k) < sprev[vidx(nbr(n, k))].cost,
        c + kcost(k) <= 57344,
        newnode.came_from == n,
        newnode.cost == c + kcost(k),
        newentry.n == nbr(n, k),
        newentry.cost == c + kcost(k) + h_cheb(nbr(n, k), to),
    ensures
        ({
            let w = nbr(n, k);
            let s2 = sprev.update(vidx(w), newnode);
            let q2 = qprev.push(newentry);
            &&& preds_ok(s2, g, from)
            &&& costs_bounded(s2)
            &&& q_ok(q2, s2)
            &&& covered_except(s2, g, q2, to, n)
            &&& s2[vidx(n)].cost == c
            &&& reached(s2, w)
            &&& forall|u: Vec2| in_bounds(u) && #[trigger] reached(sprev, u) ==> reached(s2, u)
            &&& sum_costs(s2) + q2.len() < sum_costs(sprev) + qprev.len() + 1
        }),
{
    let w = nbr(n, k);
    let s2 = sprev.update(vidx(w), newnode);
    let q2 = qprev.push(newentry);
    lemma_nbr_props(n, k);
    lemma_vidx_inj(n, w);
    lemma_sum_update(sprev, vidx(w), newnode);
    lemma_count_update(sprev, vidx(w), newnode);
    assert forall|u: Vec2| in_bounds(u) && #[trigger] reached(sprev, u) implies reached(
        s2,
        u,
    ) by {
        if u != w {
            lemma_vidx_inj(u, w);
        }
    }
    // predecessor edges
    assert forall|v: Vec2|
        in_bounds(v) && v != from && #[trigger] reached(s2, v) implies pred_edge(s2, g, v) by {
        if v == w {
            assert(s2[vidx(w)].came_from == n);
            assert(s2[vidx(n)].cost == c);
        } else {
            lemma_vidx_inj(v, w);
            assert(reached(sprev, v));
            assert(pred_edge(sprev, g, v));
            let p = sprev[vidx(v)].came_from;
            if p == w {
                assert(s2[vidx(p)].cost == newnode.cost);
            } else {
                lemma_vidx_inj(p, w);
            }
        }
    }
    // cost cap
    assert(count_reached(s2) >= count_reached(sprev));
    assert forall|v: Vec2| in_bounds(v) && #[trigger] reached(s2, v) implies s2[vidx(v)].cost
        <= 14 * (count_reached(s2) - 1) by {
        if v == w {
            assert(sprev[vidx(n)].cost <= 14 * (count_reached(sprev) - 1));
            if sprev[vidx(w)].cost == INF {
                assert(count_reached(s2) == count_reached(sprev) + 1);
            } else {
                assert(reached(sprev, w));
                assert(sprev[vidx(w)].cost <= 14 * (count_reached(sprev) - 1));
            }
        } else {
            lemma_vidx_inj(v, w);
            assert(reached(sprev, v));
            assert(sprev[vidx(v)].cost <= 14 * (count_reached(sprev) - 1));
        }
    }
    // queue entries name reached cells at an honest priority
    assert forall|j: int| 0 <= j < q2.len() implies in_bounds((#[trigger] q2[j]).n) && reached(
        s2,
        q2[j].n,
    ) && q2[j].cost >= s2[vidx(q2[j].n)].cost by {
        if j < qprev.len() {
            assert(q2[j] == qprev[j]);
            if q2[j].n == w {
                assert(qprev[j].cost >= sprev[vidx(w)].cost);
            } else {
                lemma_vidx_inj(q2[j].n, w);
            }
        } else {
            assert(q2[j] == newentry);
        }
    }
    // coverage
    assert forall|v: Vec2|
        in_bounds(v) && #[trigger] reached(s2, v) && v != n implies has_witness(q2, s2, to, v)
            || nbrs_relaxed(s2, g, v) by {
        if v == w {
            let jw = q2.len() - 1;
            assert(q2[jw] == newentry);
            assert(q2[jw].n == w && q2[jw].cost <= s2[vidx(w)].cost + h_cheb(w, to));
        } else {
            lemma_vidx_inj(v, w);
            assert(reached(sprev, v));
            if has_witness(qprev, sprev, to, v) {
                let j = choose|j: int|
                    0 <= j < qprev.len() && (#[trigger] qprev[j]).n == v && qprev[j].cost
                        <= sprev[vidx(v)].cost + h_cheb(v, to);
                assert(q2[j] == qprev[j]);
            } else {
                assert(nbrs_relaxed(sprev, g, v));
                assert forall|k2: int|
                    0 <= k2 < 8 && nbr_ok(v, k2) && walk(g, #[trigger] nbr(v, k2)) implies reached(
                    s2,
                    nbr(v, k2),
                ) && s2[vidx(nbr(v, k2))].cost <= s2[vidx(v)].cost + kcost(k2) by {
                    assert(reached(sprev, nbr(v, k2)));
                    assert(sprev[vidx(nbr(v, k2))].cost <= sprev[vidx(v)].cost + kcost(k2));
                    if nbr(v, k2) != w {
                        lemma_vidx_inj(nbr(v, k2), w);
                    }
                }
            }
        }
    }
}

/// The heuristic is consistent: one step changes it by at most that step's
/// cost.
proof fn lemma_h_consistent(a: Vec2, b: Vec2, to: Vec2)
    requires
        adjacent(a, b),
    ensures
        h_cheb(a, to) <= step_cost(a, b) + h_cheb(b, to),
{
    assert(abs_d(a.x as int, to.x as int) <= abs_d(b.x as int, to.x as int) + 1);
    assert(abs_d(a.y as int, to.y as int) <= abs_d(b.y as int, to.y as int) + 1);
}

/// The heuristic never exceeds the remaining cost of any path to the goal.
proof fn lemma_h_le_path(p: Seq<Vec2>, j: int, to: Vec2)
    requires
        p.len() >= 1,
        forall|i: int| 0 <= i < p.len() - 1 ==> adjacent(#[trigger] p[i], p[i + 1]),
        p[p.len() - 1] == to,
        0 <= j < p.len(),
    ensures
        h_cheb(p[j], to) + path_cost(p.take(j + 1)) <= path_cost(p),
    decreases p.len() - j,
{
    if j == p.len() - 1 {
        assert(p.take(j + 1) =~= p);
        assert(h_cheb(to, to) == 0);
    } else {
        lemma_h_le_path(p, j + 1, to);
        lemma_h_consistent(p[j], p[j + 1], to);
        lemma_path_cost_take(p, j + 1);
    }
}

/// A queue entry for some cell of the path, priced within that cell's prefix
/// cost plus its heuristic.
spec fn frontier_hit(q: Seq<State>, p: Seq<Vec2>, to: Vec2) -> bool {
    exists|j: int, je: int|
        #![trigger q[je], p[j]]
        0 <= j < p.len() && 0 <= je < q.len() && q[je].n == p[j] && q[je].cost <= path_cost(
            p.take(j + 1),
        ) + h_cheb(p[j], to)
}

/// Walking any path out of a covered region: either its end is already
/// recorded within the path's cost, or the queue still holds an entry on the
/// path priced within its prefix cost plus heuristic.
proof fn lemma_descend(
    s: Seq<Node>,
    g: Seq<Cell>,
    q: Seq<State>,
    to: Vec2,
    p: Seq<Vec2>,
    i: int,
)
    requires
        s.len() == 4096,
        g.len() == 4096,
        covered(s, g, q, to),
        p.len() >= 1,
        forall|j: int| 0 <= j < p.len() ==> in_bounds(#[trigger] p[j]) && walk(g, p[j]),
        forall|j: int| 0 <= j < p.len() - 1 ==> adjacent(#[trigger] p[j], p[j + 1]),
        0 <= i < p.len(),
        reached(s, p[i]),
        s[vidx(p[i])].cost <= path_cost(p.take(i + 1)),
    ensures
        (reached(s, p[p.len() - 1]) && s[vidx(p[p.len() - 1])].cost <= path_cost(p))
            || frontier_hit(q, p, to),
    decreases p.len() - i,
{
    if i == p.len() - 1 {
        assert(p.take(i + 1) =~= p);
    } else {
        if has_witness(q, s, to, p[i]) {
            let je = choose|je: int|
                0 <= je < q.len() && (#[trigger] q[je]).n == p[i] && q[je].cost <= s[vidx(
                    p[i],
                )].cost + h_cheb(p[i], to);
            assert(q[je].cost <= path_cost(p.take(i + 1)) + h_cheb(p[i], to));
            assert(frontier_hit(q, p, to));
        } else {
            assert(nbrs_relaxed(s, g, p[i]));
            lemma_adj_is_nbr(p[i], p[i + 1]);
            let k = choose|k: int|
                0 <= k < 8 && nbr_ok(p[i], k) && #[trigger] nbr(p[i], k) == p[i + 1];
            lemma_nbr_props(p[i], k);
            assert(reached(s, p[i + 1]));
            assert(s[vidx(p[i + 1])].cost <= s[vidx(p[i])].cost + kcost(k));
            lemma_path_cost_take(p, i + 1);
            lemma_descend(s, g, q, to, p, i + 1);
        }
    }
}

/// A*: the shortest-path probe from `from` to `to`, guided by the Chebyshev
/// heuristic. Returns the found path in goal-to-start order together with
/// its recorded cost, or an empty path and the sentinel `INF` exactly when
/// no walkable path exists. The cost is exact: no walkable path from `from`
/// to `to` costs less.
#[verifier::rlimit(100)]
pub fn pf_a_star(g: &Grid, from: Vec2, to: Vec2) -> (r: (Vec<Vec2>, u16))
    requires
        g.wf(),
        in_bounds(from),
        in_bounds(to),
        walk(g@, from),
    ensures
        r.1 != INF ==> is_path(g@, r.0@, to, from) && path_cost(r.0@) <= r.1 && reachable(
            g@,
            from,
            to,
        ) && within_cost(g@, from, to, r.1 as int),
        r.1 != INF ==> forall|p: Seq<Vec2>| is_path(g@, p, from, to) ==> path_cost(p) >= r.1,
        r.1 == INF ==> r.0@.len() == 0 && !reachable(g@, from, to),
        from == to ==> r.1 == 0,
{
    let mut scratch = fresh_scratch();
    let ghost s0 = scratch@;
    let fidx = (from.y as usize) * 64 + (from.x as usize);
    scratch[fidx] = Node { came_from: from, cost: 0 };
    let mut q: Vec<State> = Vec::new();
    q.push(State { n: from, cost: 0 });
    proof {
        lemma_count_all_unreached(s0);
        lemma_count_update(s0, vidx(from), Node { came_from: from, cost: 0 });
        assert forall|v: Vec2|
            in_bounds(v) && #[trigger] reached(scratch@, v) implies v == from by {
            if v != from {
                lemma_vidx_inj(v, from);
            }
        }
        assert(q@[0].n == from && q@[0].cost <= scratch@[vidx(from)].cost + h_cheb(from, to));
    }
    let ghost mut opt = false;
    while q.len() != 0
        invariant_except_break
            g.wf(),
            in_bounds(from),
            in_bounds(to),
            walk(g@, from),
            scratch@.len() == 4096,
            preds_ok(scratch@, g@, from),
            costs_bounded(scratch@),
            q_ok(q@, scratch@),
            covered(scratch@, g@, q@, to),
            !opt,
        ensures
            preds_ok(scratch@, g@, from),
            opt ==> scratch@[vidx(to)].cost != INF && (forall|p: Seq<Vec2>|
                is_path(g@, p, from, to) ==> path_cost(p) >= scratch@[vidx(to)].cost as int),
            !opt ==> q@.len() == 0 && covered(scratch@, g@, q@, to),
        decreases sum_costs(scratch@) + q@.len(),
    {
        proof {
            lemma_sum_nonneg(scratch@);
        }
        let ghost qpre = q@;
        let st = pop_best(&mut q);
        let ghost j0 = choose|j: int|
            0 <= j < qpre.len() && qpre[j] == st && q@ == qpre.remove(j);
        let n = st.n;
        proof {
            assert(qpre[j0].n == n && in_bounds(n) && reached(scratch@, n));
            lemma_q_ok_after_remove(qpre, j0, scratch@);
        }
        if n.x == to.x && n.y == to.y {
            proof {
                assert(n == to);
                assert(scratch@[vidx(to)].cost <= st.cost);
                assert forall|p: Seq<Vec2>| is_path(g@, p, from, to) implies path_cost(p)
                    >= scratch@[vidx(to)].cost as int by {
                    assert(p[0] == from && reached(scratch@, from));
                    assert(p.take(1) =~= seq![from]);
                    assert(path_cost(p.take(1)) == 0);
                    lemma_descend(scratch@, g@, qpre, to, p, 0);
                    if frontier_hit(qpre, p, to) {
                        let (j, je) = choose|j: int, je: int|
                            #![trigger qpre[je], p[j]]
                            0 <= j < p.len() && 0 <= je < qpre.len() && qpre[je].n == p[j]
                                && qpre[je].cost <= path_cost(p.take(j + 1)) + h_cheb(p[j], to);
                        assert(qpre[je].cost >= st.cost);
                        lemma_h_le_path(p, j, to);
                    }
                }
                opt = true;
            }
            break ;
        }
        let nidx = (n.y as usize) * 64 + (n.x as usize);
        let c = scratch[nidx].cost;
        let hn = heuristic(n, to);
        let ghost b0 = sum_costs(scratch@) + q@.len();
        if st.cost > (c as u32) + (hn as u32) {
            // A stale entry: the cell was reached more cheaply since this
            // entry was queued; any usable entry for it is still queued.
            proof {
                lemma_stale_keep(scratch@, g@, qpre, j0, to);
            }
        } else {
            proof {
                lemma_covered_after_remove(scratch@, g@, qpre, j0, to);
                if n != from {
                    assert(pred_edge(scratch@, g@, n));
                }
                lemma_cost_cap(scratch@, n);
            }
            let mut k: u8 = 0;
            while k < 8
                invariant
                    g.wf(),
                    scratch@.len() == 4096,
                    preds_ok(scratch@, g@, from),
                    costs_bounded(scratch@),
                    q_ok(q@, scratch@),
                    covered_except(scratch@, g@, q@, to, n),
                    in_bounds(n),
                    in_bounds(to),
                    walk(g@, n),
                    reached(scratch@, n),
                    scratch@[vidx(n)].cost == c,
                    c <= 57330,
                    k <= 8,
                    forall|k2: int|
                        0 <= k2 < k && nbr_ok(n, k2) && walk(g@, #[trigger] nbr(n, k2))
                            ==> reached(scratch@, nbr(n, k2)) && scratch@[vidx(
                            nbr(n, k2),
                        )].cost <= scratch@[vidx(n)].cost + kcost(k2),
                    sum_costs(scratch@) + q@.len() <= b0,
                decreases 8 - k,
            {
                let n_opt = nbr_exec(n, k);
                if let Some((wx, wy)) = n_opt {
                    if g.walkable(wx, wy) {
                        let w = Vec2 { x: wx, y: wy };
                        proof {
                            assert(w == nbr(n, k as int));
                            lemma_nbr_props(n, k as int);
                            lemma_vidx_inj(n, w);
                        }
                        let widx = (wy as usize) * 64 + (wx as usize);
                        let d = kcost_exec(k);
                        let nc: u32 = (c as u32) + (d as u32);
                        if nc < scratch[widx].cost as u32 {
                            let ghost sprev = scratch@;
                            let ghost qprev = q@;
                            let newnode = Node { came_from: n, cost: nc as u16 };
                            scratch[widx] = newnode;
                            let hw = heuristic(w, to);
                            let newentry = State { n: w, cost: nc + (hw as u32) };
                            q.push(newentry);
                            proof {
                                lemma_relax(
                                    sprev,
                                    qprev,
                                    g@,
                                    from,
                                    to,
                                    n,
                                    k as int,
                                    c,
                                    newnode,
                                    newentry,
                                );
                            }
                        } else {
                            proof {
                                assert(scratch@[vidx(w)].cost <= 57344);
                                assert(reached(scratch@, w));
                                assert(scratch@[vidx(w)].cost <= c + kcost(k as int));
                            }
                        }
                    }
                }
                k += 1;
            }
            proof {
                assert(nbrs_relaxed(scratch@, g@, n));
                lemma_expand_covered(scratch@, g@, q@, to, n);
            }
        }
        proof {
            lemma_sum_nonneg(scratch@);
        }
    }
    let tidx = (to.y as usize) * 64 + (to.x as usize);
    let cost = scratch[tidx].cost;
    if cost == INF {
        proof {
            assert(!opt);
            assert forall|v: Vec2|
                in_bounds(v) && #[trigger] reached(scratch@, v) implies nbrs_done(
                scratch@,
                g@,
                v,
            ) by {
                assert(!has_witness(q@, scratch@, to, v));
                assert(nbrs_relaxed(scratch@, g@, v));
                assert forall|k2: int|
                    0 <= k2 < 8 && nbr_ok(v, k2) && walk(g@, #[trigger] nbr(v, k2)) implies
                    reached(scratch@, nbr(v, k2)) by {
                    assert(nbr_ok(v, k2) && walk(g@, nbr(v, k2)));
                }
            }
            lemma_unreached_unreachable(scratch@, g@, from, to);
        }
        return (Vec::new(), INF);
    }
    let path = build_path(&scratch, g, to, from);
    proof {
        lemma_path_reverse(g@, path@, to, from);
        let p2 = choose|p2: Seq<Vec2>|
            is_path(g@, p2, from, to) && path_cost(p2) <= path_cost(path@);
        assert(is_path(g@, p2, from, to) && path_cost(p2) <= cost as int);
        if !opt {
            assert forall|p: Seq<Vec2>| is_path(g@, p, from, to) implies path_cost(p)
                >= cost as int by {
                assert(p[0] == from && reached(scratch@, from));
                assert(p.take(1) =~= seq![from]);
                assert(path_cost(p.take(1)) == 0);
                lemma_descend(scratch@, g@, q@, to, p, 0);
                assert(!frontier_hit(q@, p, to));
            }
        }
    }
    (path, cost)
}

/// There is a queue entry for `v` whose priority is within `v`'s recorded
/// cost: popping it would expand `v`. The uniform-cost search carries no
/// heuristic.
spec fn has_witness0(q: Seq<State>, s: Seq<Node>, v: Vec2) -> bool {
    exists|j: int|
        0 <= j < q.len() && (#[trigger] q[j]).n == v && q[j].cost <= s[vidx(v)].cost
}

/// Every reached cell other than `ex` either still has a usable queue entry
/// or has been fully relaxed with its cost within the running maximum.
spec fn covered_f_except(
    s: Seq<Node>,
    g: Seq<Cell>,
    q: Seq<State>,
    maxc: int,
    ex: Vec2,
) -> bool {
    forall|v: Vec2|
        in_bounds(v) && #[trigger] reached(s, v) && v != ex ==> has_witness0(q, s, v)
            || (nbrs_relaxed(s, g, v) && s[vidx(v)].cost <= maxc)
}

/// As `covered_f_except`, with no cell exempted.
spec fn covered_f(s: Seq<Node>, g: Seq<Cell>, q: Seq<State>, maxc: int) -> bool {
    forall|v: Vec2|
        in_bounds(v) && #[trigger] reached(s, v) ==> has_witness0(q, s, v) || (nbrs_relaxed(
            s,
            g,
            v,
        ) && s[vidx(v)].cost <= maxc)
}

proof fn lemma_covered_f_after_remove(
    s: Seq<Node>,
    g: Seq<Cell>,
    q: Seq<State>,
    j0: int,
    maxc: int,
)
    requires
        covered_f(s, g, q, maxc),
        0 <= j0 < q.len(),
    ensures
        covered_f_except(s, g, q.remove(j0), maxc, q[j0].n),
{
    q.remove_ensures(j0);
    assert forall|v: Vec2|
        in_bounds(v) && #[trigger] reached(s, v) && v != q[j0].n implies has_witness0(
        q.remove(j0),
        s,
        v,
    ) || (nbrs_relaxed(s, g, v) && s[vidx(v)].cost <= maxc) by {
        if has_witness0(q, s, v) {
            let j = choose|j: int|
                0 <= j < q.len() && (#[trigger] q[j]).n == v && q[j].cost <= s[vidx(v)].cost;
            if j < j0 {
                assert(q.remove(j0)[j] == q[j]);
            } else {
                assert(q.remove(j0)[j - 1] == q[j]);
            }
        }
    }
}

/// Dropping a stale entry keeps every reached cell covered.
proof fn lemma_stale_keep_f(s: Seq<Node>, g: Seq<Cell>, q: Seq<State>, j0: int, maxc: int)
    requires
        covered_f(s, g, q, maxc),
        0 <= j0 < q.len(),
        in_bounds(q[j0].n),
        q[j0].cost > s[vidx(q[j0].n)].cost,
    ensures
        covered_f(s, g, q.remove(j0), maxc),
{
    lemma_covered_f_after_remove(s, g, q, j0, maxc);
    let n = q[j0].n;
    q.remove_ensures(j0);
    assert forall|v: Vec2| in_bounds(v) && #[trigger] reached(s, v) implies has_witness0(
        q.remove(j0),
        s,
        v,
    ) || (nbrs_relaxed(s, g, v) && s[vidx(v)].cost <= maxc) by {
        if v == n && has_witness0(q, s, v) {
            let j = choose|j: int|
                0 <= j < q.len() && (#[trigger] q[j]).n == v && q[j].cost <= s[vidx(v)].cost;
            assert(j != j0);
            if j < j0 {
                assert(q.remove(j0)[j] == q[j]);
            } else {
                assert(q.remove(j0)[j - 1] == q[j]);
            }
        }
    }
}

/// A larger running maximum covers at least as much.
proof fn lemma_covered_f_except_mono(
    s: Seq<Node>,
    g: Seq<Cell>,
    q: Seq<State>,
    m1: int,
    m2: int,
    ex: Vec2,
)
    requires
        covered_f_except(s, g, q, m1, ex),
        m1 <= m2,
    ensures
        covered_f_except(s, g, q, m2, ex),
{
}

/// Once a cell is fully relaxed under the running maximum it is covered
/// without a queue entry.
proof fn lemma_expand_covered_f(
    s: Seq<Node>,
    g: Seq<Cell>,
    q: Seq<State>,
    maxc: int,
    n: Vec2,
)
    requires
        covered_f_except(s, g, q, maxc, n),
        nbrs_relaxed(s, g, n),
        s[vidx(n)].cost <= maxc,
        in_bounds(n),
    ensures
        covered_f(s, g, q, maxc),
{
}

/// One relaxation of the uniform-cost search; every invariant survives.
proof fn lemma_relax_f(
    sprev: Seq<Node>,
    qprev: Seq<State>,
    g: Seq<Cell>,
    from: Vec2,
    maxc: int,
    n: Vec2,
    k: int,
    c: u16,
    newnode: Node,
    newentry: State,
)
    requires
        preds_ok(sprev, g, from),
        costs_bounded(sprev),
        q_ok(qprev, sprev),
        covered_f_except(sprev, g, qprev, maxc, n),
        in_bounds(n),
        walk(g, n),
        reached(sprev, n),
        sprev[vidx(n)].cost == c,
        0 <= k < 8,
        nbr_ok(n, k),
        walk(g, nbr(n, k)),
        c + kcost(k) < sprev[vidx(nbr(n, k))].cost,
        c + kcost(k) <= 57344,
        newnode.came_from == n,
        newnode.cost == c + kcost(k),
        newentry.n == nbr(n, k),
        newentry.cost == c + kcost(k),
    ensures
        ({
            let w = nbr(n, k);
            let s2 = sprev.update(vidx(w), newnode);
            let q2 = qprev.push(newentry);
            &&& preds_ok(s2, g, from)
            &&& costs_bounded(s2)
            &&& q_ok(q2, s2)
            &&& covered_f_except(s2, g, q2, maxc, n)
            &&& s2[vidx(n)].cost == c
            &&& reached(s2, w)
            &&& s2[vidx(w)].cost == c + kcost(k)
            &&& forall|u: Vec2| in_bounds(u) && #[trigger] reached(sprev, u) ==> reached(s2, u)
                && s2[vidx(u)].cost <= sprev[vidx(u)].cost
            &&& sum_costs(s2) + q2.len() < sum_costs(sprev) + qprev.len() + 1
        }),
{
    let w = nbr(n, k);
    let s2 = sprev.update(vidx(w), newnode);
    let q2 = qprev.push(newentry);
    lemma_nbr_props(n, k);
    lemma_vidx_inj(n, w);
    lemma_sum_update(sprev, vidx(w), newnode);
    lemma_count_update(sprev, vidx(w), newnode);
    assert forall|u: Vec2| in_bounds(u) && #[trigger] reached(sprev, u) implies reached(s2, u)
        && s2[vidx(u)].cost <= sprev[vidx(u)].cost by {
        if u != w {
            lemma_vidx_inj(u, w);
        }
    }
    assert forall|v: Vec2|
        in_bounds(v) && v != from && #[trigger] reached(s2, v) implies pred_edge(s2, g, v) by {
        if v == w {
            assert(s2[vidx(w)].came_from == n);
            assert(s2[vidx(n)].cost == c);
        } else {
            lemma_vidx_inj(v, w);
            assert(reached(sprev, v));
            assert(pred_edge(sprev, g, v));
            let p = sprev[vidx(v)].came_from;
            if p == w {
                assert(s2[vidx(p)].cost == newnode.cost);
            } else {
                lemma_vidx_inj(p, w);
            }
        }
    }
    assert(count_reached(s2) >= count_reached(sprev));
    assert forall|v: Vec2| in_bounds(v) && #[trigger] reached(s2, v) implies s2[vidx(v)].cost
        <= 14 * (count_reached(s2) - 1) by {
        if v == w {
            assert(sprev[vidx(n)].cost <= 14 * (count_reached(sprev) - 1));
            if sprev[vidx(w)].cost == INF {
                assert(count_reached(s2) == count_reached(sprev) + 1);
            } else {
                assert(reached(sprev, w));
                assert(sprev[vidx(w)].cost <= 14 * (count_reached(sprev) - 1));
            }
        } else {
            lemma_vidx_inj(v, w);
            assert(reached(sprev, v));
            assert(sprev[vidx(v)].cost <= 14 * (count_reached(sprev) - 1));
        }
    }
    assert forall|j: int| 0 <= j < q2.len() implies in_bounds((#[trigger] q2[j]).n) && reached(
        s2,
        q2[j].n,
    ) by {
        if j < qprev.len() {
            assert(q2[j] == qprev[j]);
        } else {
            assert(q2[j] == newentry);
        }
    }
    assert forall|v: Vec2|
        in_bounds(v) && #[trigger] reached(s2, v) && v != n implies has_witness0(q2, s2, v) || (
        nbrs_relaxed(s2, g, v) && s2[vidx(v)].cost <= maxc) by {
        if v == w {
            let jw = q2.len() - 1;
            assert(q2[jw] == newentry);
            assert(q2[jw].n == w && q2[jw].cost <= s2[vidx(w)].cost);
        } else {
            lemma_vidx_inj(v, w);
            assert(reached(sprev, v));
            if has_witness0(qprev, sprev, v) {
                let j = choose|j: int|
                    0 <= j < qprev.len() && (#[trigger] qprev[j]).n == v && qprev[j].cost
                        <= sprev[vidx(v)].cost;
                assert(q2[j] == qprev[j]);
            } else {
                assert(nbrs_relaxed(sprev, g, v));
                assert forall|k2: int|
                    0 <= k2 < 8 && nbr_ok(v, k2) && walk(g, #[trigger] nbr(v, k2)) implies reached(
                    s2,
                    nbr(v, k2),
                ) && s2[vidx(nbr(v, k2))].cost <= s2[vidx(v)].cost + kcost(k2) by {
                    assert(reached(sprev, nbr(v, k2)));
                    assert(sprev[vidx(nbr(v, k2))].cost <= sprev[vidx(v)].cost + kcost(k2));
                    if nbr(v, k2) != w {
                        lemma_vidx_inj(nbr(v, k2), w);
                    }
                }
            }
        }
    }
}

/// Law (cost-model consistency): two searches whose contracts pin their
/// result to the least walkable path cost between the same pair of cells
/// return one number whenever a path exists. In particular the A* cost and
/// the uniform-cost probe's cost agree on the probe's selected cell.
pub proof fn lemma_cost_parity(g: Seq<Cell>, a: Vec2, b: Vec2, c1: int, c2: int)
    requires
        within_cost(g, a, b, c1),
        forall|p: Seq<Vec2>| is_path(g, p, a, b) ==> path_cost(p) >= c1,
        within_cost(g, a, b, c2),
        forall|p: Seq<Vec2>| is_path(g, p, a, b) ==> path_cost(p) >= c2,
    ensures
        c1 == c2,
{
    let p1 = choose|p: Seq<Vec2>| is_path(g, p, a, b) && path_cost(p) <= c1;
    let p2 = choose|p: Seq<Vec2>| is_path(g, p, a, b) && path_cost(p) <= c2;
    assert(path_cost(p1) >= c2 && path_cost(p2) >= c1);
}

/// The farthest-point probe: uniform-cost search from `start` over the whole
/// reachable component. Returns a path (in farthest-to-start order) to a
/// cell at the search's maximum finalized cost, together with that cost. The
/// cost is exactly the least path cost to that cell, and no reachable cell
/// lies farther.
#[verifier::rlimit(100)]
pub fn farthest(g: &Grid, start: Vec2) -> (r: (Vec<Vec2>, u16))
    requires
        g.wf(),
        in_bounds(start),
        walk(g@, start),
    ensures
        r.0@.len() >= 1,
        is_path(g@, r.0@, r.0@[0], start),
        path_cost(r.0@) <= r.1,
        reachable(g@, start, r.0@[0]),
        within_cost(g@, start, r.0@[0], r.1 as int),
        forall|p: Seq<Vec2>| is_path(g@, p, start, r.0@[0]) ==> path_cost(p) >= r.1,
        forall|v: Vec2|
            in_bounds(v) && #[trigger] reachable(g@, start, v) ==> within_cost(
                g@,
                v,
                start,
                r.1 as int,
            ),
{
    let mut scratch = fresh_scratch();
    let ghost s0 = scratch@;
    let fidx = (start.y as usize) * 64 + (start.x as usize);
    scratch[fidx] = Node { came_from: start, cost: 0 };
    let mut q: Vec<State> = Vec::new();
    q.push(State { n: start, cost: 0 });
    let mut far = start;
    let mut max_cost: u16 = 0;
    proof {
        lemma_count_all_unreached(s0);
        lemma_count_update(s0, vidx(start), Node { came_from: start, cost: 0 });
        assert forall|v: Vec2|
            in_bounds(v) && #[trigger] reached(scratch@, v) implies v == start by {
            if v != start {
                lemma_vidx_inj(v, start);
            }
        }
        assert(q@[0].n == start && q@[0].cost <= scratch@[vidx(start)].cost);
    }
    while q.len() != 0
        invariant
            g.wf(),
            in_bounds(start),
            walk(g@, start),
            scratch@.len() == 4096,
            preds_ok(scratch@, g@, start),
            costs_bounded(scratch@),
            q_ok(q@, scratch@),
            covered_f(scratch@, g@, q@, max_cost as int),
            in_bounds(far),
            reached(scratch@, far),
            scratch@[vidx(far)].cost == max_cost,
            forall|j: int| 0 <= j < q@.len() ==> (#[trigger] q@[j]).cost >= max_cost,
        decreases sum_costs(scratch@) + q@.len(),
    {
        proof {
            lemma_sum_nonneg(scratch@);
        }
        let ghost qpre = q@;
        let st = pop_best(&mut q);
        let ghost j0 = choose|j: int|
            0 <= j < qpre.len() && qpre[j] == st && q@ == qpre.remove(j);
        let n = st.n;
        proof {
            assert(qpre[j0].n == n && in_bounds(n) && reached(scratch@, n));
            lemma_q_ok_after_remove(qpre, j0, scratch@);
            qpre.remove_ensures(j0);
            assert forall|j: int| 0 <= j < q@.len() implies (#[trigger] q@[j]).cost
                >= max_cost by {
                if j < j0 {
                    assert(q@[j] == qpre[j]);
                } else {
                    assert(q@[j] == qpre[j + 1]);
                }
            }
        }
        let nidx = (n.y as usize) * 64 + (n.x as usize);
        let c = scratch[nidx].cost;
        let ghost b0 = sum_costs(scratch@) + q@.len();
        if st.cost > c as u32 {
            proof {
                lemma_stale_keep_f(scratch@, g@, qpre, j0, max_cost as int);
            }
        } else {
            proof {
                lemma_covered_f_after_remove(scratch@, g@, qpre, j0, max_cost as int);
                if n != start {
                    assert(pred_edge(scratch@, g@, n));
                }
                lemma_cost_cap(scratch@, n);
                assert(st.cost == c as u32);
                assert(c >= max_cost);
            }
            if c > max_cost {
                proof {
                    lemma_covered_f_except_mono(
                        scratch@,
                        g@,
                        q@,
                        max_cost as int,
                        c as int,
                        n,
                    );
                }
                max_cost = c;
                far = n;
            }
            proof {
                assert(c == max_cost);
                assert(scratch@[vidx(far)].cost == max_cost);
            }
            let mut k: u8 = 0;
            while k < 8
                invariant
                    g.wf(),
                    scratch@.len() == 4096,
                    preds_ok(scratch@, g@, start),
                    costs_bounded(scratch@),
                    q_ok(q@, scratch@),
                    covered_f_except(scratch@, g@, q@, max_cost as int, n),
                    in_bounds(n),
                    walk(g@, n),
                    reached(scratch@, n),
                    scratch@[vidx(n)].cost == c,
                    c <= max_cost,
                    c <= 57330,
                    k <= 8,
                    in_bounds(far),
                    reached(scratch@, far),
                    scratch@[vidx(far)].cost == max_cost,
                    c == max_cost,
                    forall|j: int| 0 <= j < q@.len() ==> (#[trigger] q@[j]).cost >= max_cost,
                    forall|k2: int|
                        0 <= k2 < k && nbr_ok(n, k2) && walk(g@, #[trigger] nbr(n, k2))
                            ==> reached(scratch@, nbr(n, k2)) && scratch@[vidx(
                            nbr(n, k2),
                        )].cost <= scratch@[vidx(n)].cost + kcost(k2),
                    sum_costs(scratch@) + q@.len() <= b0,
                decreases 8 - k,
            {
                let n_opt = nbr_exec(n, k);
                if let Some((wx, wy)) = n_opt {
                    if g.walkable(wx, wy) {
                        let w = Vec2 { x: wx, y: wy };
                        proof {
                            assert(w == nbr(n, k as int));
                            lemma_nbr_props(n, k as int);
                            lemma_vidx_inj(n, w);
                        }
                        let widx = (wy as usize) * 64 + (wx as usize);
                        let d = kcost_exec(k);
                        let nc: u32 = (c as u32) + (d as u32);
                        if nc < scratch[widx].cost as u32 {
                            let ghost sprev = scratch@;
                            let ghost qprev = q@;
                            let newnode = Node { came_from: n, cost: nc as u16 };
                            scratch[widx] = newnode;
                            let newentry = State { n: w, cost: nc };
                            q.push(newentry);
                            proof {
                                if w == far {
                                    assert(sprev[vidx(w)].cost == max_cost);
                                    assert(false);
                                }
                                lemma_relax_f(
                                    sprev,
                                    qprev,
                                    g@,
                                    start,
                                    max_cost as int,
                                    n,
                                    k as int,
                                    c,
                                    newnode,
                                    newentry,
                                );
                                lemma_vidx_inj(far, w);
                                assert forall|j: int| 0 <= j < q@.len() implies (
                                #[trigger] q@[j]).cost >= max_cost by {
                                    if j < qprev.len() {
                                        assert(q@[j] == qprev[j]);
                                    } else {
                                        assert(q@[j] == newentry);
                                    }
                                }
                            }
                        } else {
                            proof {
                                assert(scratch@[vidx(w)].cost <= 57344);
                                assert(reached(scratch@, w));
                            }
                        }
                    }
                }
                k += 1;
            }
            proof {
                assert(nbrs_relaxed(scratch@, g@, n));
                lemma_expand_covered_f(scratch@, g@, q@, max_cost as int, n);
            }
        }
        proof {
            lemma_sum_nonneg(scratch@);
        }
    }
    proof {
        assert forall|v: Vec2| in_bounds(v) && #[trigger] reached(scratch@, v) implies
            nbrs_relaxed(scratch@, g@, v) && scratch@[vidx(v)].cost <= max_cost by {
            assert(!has_witness0(q@, scratch@, v));
        }
        assert(all_relaxed(scratch@, g@));
        assert forall|v: Vec2| in_bounds(v) && #[trigger] reachable(g@, start, v) implies
            within_cost(g@, v, start, max_cost as int) by {
            let p = choose|p: Seq<Vec2>| is_path(g@, p, start, v);
            lemma_cost_below_path(scratch@, g@, start, p, p.len() - 1);
            assert(reached(scratch@, v));
            lemma_pred_chain(scratch@, g@, start, v);
            let q2 = choose|q2: Seq<Vec2>|
                is_path(g@, q2, v, start) && path_cost(q2) <= scratch@[vidx(v)].cost as int;
            assert(is_path(g@, q2, v, start) && path_cost(q2) <= max_cost as int);
        }
        assert forall|p: Seq<Vec2>| is_path(g@, p, start, far) implies path_cost(p)
            >= max_cost as int by {
            lemma_cost_below_path(scratch@, g@, start, p, p.len() - 1);
            assert(p.take(p.len() as int) =~= p);
        }
    }
    let path = build_path(&scratch, g, far, start);
    proof {
        lemma_path_reverse(g@, path@, far, start);
        let p2 = choose|p2: Seq<Vec2>|
            is_path(g@, p2, start, far) && path_cost(p2) <= path_cost(path@);
        assert(is_path(g@, p2, start, far) && path_cost(p2) <= max_cost as int);
    }
    (path, max_cost)
}

} // verus!
