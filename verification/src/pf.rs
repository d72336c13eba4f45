use vstd::prelude::*;

use crate::algs::{kcost_exec, nbr_exec};
use crate::grid::{Cell, Grid};
use crate::paths::{build_path, costs_bounded, count_reached, fresh_scratch, in_bounds, is_path,
    kcost, lemma_cost_cap, lemma_count_all_unreached, lemma_count_update, lemma_nbr_props,
    lemma_path_reverse, lemma_sum_nonneg, lemma_sum_update, lemma_unreached_unreachable,
    lemma_vidx_inj, nbr, nbr_ok, nbrs_done, pred_edge, preds_ok, reachable, reached, sum_costs,
    vidx, walk, Node, INF};
use crate::util::Vec2;

verus! {

/// `v` still sits in the unprocessed part of the first-in-first-out queue.
spec fn in_window(q: Seq<Vec2>, head: int, v: Vec2) -> bool {
    exists|j: int| head <= j < q.len() && q[j] == v
}

/// Every reached cell other than `ex` is still queued or fully expanded.
spec fn covered_d_except(
    s: Seq<Node>,
    g: Seq<Cell>,
    q: Seq<Vec2>,
    head: int,
    ex: Vec2,
) -> bool {
    forall|v: Vec2|
        in_bounds(v) && #[trigger] reached(s, v) && v != ex ==> in_window(q, head, v)
            || nbrs_done(s, g, v)
}

/// As `covered_d_except`, with no cell exempted.
spec fn covered_d(s: Seq<Node>, g: Seq<Cell>, q: Seq<Vec2>, head: int) -> bool {
    forall|v: Vec2|
        in_bounds(v) && #[trigger] reached(s, v) ==> in_window(q, head, v) || nbrs_done(s, g, v)
}

/// Every queued cell is in bounds and reached.
spec fn q_ok_d(q: Seq<Vec2>, s: Seq<Node>) -> bool {
    forall|j: int| 0 <= j < q.len() ==> in_bounds(#[trigger] q[j]) && reached(s, q[j])
}

/// Taking the queue's front cell out of the window keeps every other cell
/// covered.
proof fn lemma_pop_d(s: Seq<Node>, g: Seq<Cell>, q: Seq<Vec2>, head: int)
    requires
        covered_d(s, g, q, head),
        0 <= head < q.len(),
    ensures
        covered_d_except(s, g, q, head + 1, q[head]),
{
    assert forall|v: Vec2|
        in_bounds(v) && #[trigger] reached(s, v) && v != q[head] implies in_window(
        q,
        head + 1,
        v,
    ) || nbrs_done(s, g, v) by {
        if in_window(q, head, v) {
            let j = choose|j: int| head <= j < q.len() && q[j] == v;
            assert(j != head);
            assert(head + 1 <= j < q.len() && q[j] == v);
        }
    }
}

/// Once the front cell's neighbours are all reached it is covered too.
proof fn lemma_expand_covered_d(s: Seq<Node>, g: Seq<Cell>, q: Seq<Vec2>, head: int, n: Vec2)
    requires
        covered_d_except(s, g, q, head, n),
        nbrs_done(s, g, n),
        in_bounds(n),
    ensures
        covered_d(s, g, q, head),
{
}

/// First relaxation of a cell: it is recorded and queued; every invariant
/// survives.
proof fn lemma_relax_first_d(
    sprev: Seq<Node>,
    qprev: Seq<Vec2>,
    head: int,
    g: Seq<Cell>,
    from: Vec2,
    n: Vec2,
    k: int,
    c: u16,
    newnode: Node,
)
    requires
        preds_ok(sprev, g, from),
        costs_bounded(sprev),
        q_ok_d(qprev, sprev),
        covered_d_except(sprev, g, qprev, head, n),
        0 <= head <= qprev.len(),
        in_bounds(n),
        walk(g, n),
        reached(sprev, n),
        sprev[vidx(n)].cost == c,
        0 <= k < 8,
        nbr_ok(n, k),
        walk(g, nbr(n, k)),
        sprev[vidx(nbr(n, k))].cost == INF,
        c + kcost(k) <= 57344,
        newnode.came_from == n,
        newnode.cost == c + kcost(k),
    ensures
        ({
            let w = nbr(n, k);
            let s2 = sprev.update(vidx(w), newnode);
            let q2 = qprev.push(w);
            &&& preds_ok(s2, g, from)
            &&& costs_bounded(s2)
            &&& q_ok_d(q2, s2)
            &&& covered_d_except(s2, g, q2, head, n)
            &&& s2[vidx(n)].cost == c
            &&& reached(s2, w)
            &&& forall|u: Vec2| in_bounds(u) && #[trigger] reached(sprev, u) ==> reached(s2, u)
            &&& sum_costs(s2) + (q2.len() - head) < sum_costs(sprev) + (qprev.len() - head) + 1
        }),
{
    let w = nbr(n, k);
    let s2 = sprev.update(vidx(w), newnode);
    let q2 = qprev.push(w);
    lemma_nbr_props(n, k);
    lemma_vidx_inj(n, w);
    lemma_sum_update(sprev, vidx(w), newnode);
    lemma_count_update(sprev, vidx(w), newnode);
    assert forall|u: Vec2| in_bounds(u) && #[trigger] reached(sprev, u) implies reached(
        s2,
        u,
    ) by {
        if u != w {
            lemma_vidx_inj(u, w);
        }
    }
    assert forall|v: Vec2|
        in_bounds(v) && v != from && #[trigger] reached(s2, v) implies pred_edge(s2, g, v) by {
        if v == w {
            assert(s2[vidx(w)].came_from == n);
            assert(s2[vidx(n)].cost == c);
        } else {
            lemma_vidx_inj(v, w);
            assert(reached(sprev, v));
            assert(pred_edge(sprev, g, v));
            let p = sprev[vidx(v)].came_from;
            if p == w {
                assert(s2[vidx(p)].cost == newnode.cost);
            } else {
                lemma_vidx_inj(p, w);
            }
        }
    }
    assert(count_reached(s2) == count_reached(sprev) + 1);
    assert forall|v: Vec2| in_bounds(v) && #[trigger] reached(s2, v) implies s2[vidx(v)].cost
        <= 14 * (count_reached(s2) - 1) by {
        if v == w {
            assert(sprev[vidx(n)].cost <= 14 * (count_reached(sprev) - 1));
        } else {
            lemma_vidx_inj(v, w);
            assert(reached(sprev, v));
            assert(sprev[vidx(v)].cost <= 14 * (count_reached(sprev) - 1));
        }
    }
    assert forall|j: int| 0 <= j < q2.len() implies in_bounds(#[trigger] q2[j]) && reached(
        s2,
        q2[j],
    ) by {
        if j < qprev.len() {
            assert(q2[j] == qprev[j]);
        }
    }
    assert forall|v: Vec2|
        in_bounds(v) && #[trigger] reached(s2, v) && v != n implies in_window(q2, head, v)
            || nbrs_done(s2, g, v) by {
        if v == w {
            let jw = q2.len() - 1;
            assert(head <= jw < q2.len() && q2[jw] == w);
        } else {
            lemma_vidx_inj(v, w);
            assert(reached(sprev, v));
            if in_window(qprev, head, v) {
                let j = choose|j: int| head <= j < qprev.len() && qprev[j] == v;
                assert(q2[j] == v);
            } else {
                assert(nbrs_done(sprev, g, v));
                assert forall|k2: int|
                    0 <= k2 < 8 && nbr_ok(v, k2) && walk(g, #[trigger] nbr(v, k2)) implies reached(
                    s2,
                    nbr(v, k2),
                ) by {
                    assert(reached(sprev, nbr(v, k2)));
                }
            }
        }
    }
}

/// Improving an already reached cell re-records it without queuing it again;
/// every invariant survives.
proof fn lemma_improve_d(
    sprev: Seq<Node>,
    qprev: Seq<Vec2>,
    head: int,
    g: Seq<Cell>,
    from: Vec2,
    n: Vec2,
    k: int,
    c: u16,
    newnode: Node,
)
    requires
        preds_ok(sprev, g, from),
        costs_bounded(sprev),
        q_ok_d(qprev, sprev),
        covered_d_except(sprev, g, qprev, head, n),
        0 <= head <= qprev.len(),
        in_bounds(n),
        walk(g, n),
        reached(sprev, n),
        sprev[vidx(n)].cost == c,
        0 <= k < 8,
        nbr_ok(n, k),
        walk(g, nbr(n, k)),
        sprev[vidx(nbr(n, k))].cost != INF,
        c + kcost(k) < sprev[vidx(nbr(n, k))].cost,
        c + kcost(k) <= 57344,
        newnode.came_from == n,
        newnode.cost == c + kcost(k),
    ensures
        ({
            let w = nbr(n, k);
            let s2 = sprev.update(vidx(w), newnode);
            &&& preds_ok(s2, g, from)
            &&& costs_bounded(s2)
            &&& q_ok_d(qprev, s2)
            &&& covered_d_except(s2, g, qprev, head, n)
            &&& s2[vidx(n)].cost == c
            &&& reached(s2, w)
            &&& forall|u: Vec2| in_bounds(u) && #[trigger] reached(sprev, u) ==> reached(s2, u)
            &&& sum_costs(s2) < sum_costs(sprev)
        }),
{
    let w = nbr(n, k);
    let s2 = sprev.update(vidx(w), newnode);
    lemma_nbr_props(n, k);
    lemma_vidx_inj(n, w);
    lemma_sum_update(sprev, vidx(w), newnode);
    lemma_count_update(sprev, vidx(w), newnode);
    assert forall|u: Vec2| in_bounds(u) && #[trigger] reached(sprev, u) implies reached(
        s2,
        u,
    ) by {
        if u != w {
            lemma_vidx_inj(u, w);
        }
    }
    assert forall|v: Vec2|
        in_bounds(v) && v != from && #[trigger] reached(s2, v) implies pred_edge(s2, g, v) by {
        if v == w {
            assert(s2[vidx(w)].came_from == n);
            assert(s2[vidx(n)].cost == c);
        } else {
            lemma_vidx_inj(v, w);
            assert(reached(sprev, v));
            assert(pred_edge(sprev, g, v));
            let p = sprev[vidx(v)].came_from;
            if p == w {
                assert(s2[vidx(p)].cost == newnode.cost);
            } else {
                lemma_vidx_inj(p, w);
            }
        }
    }
    assert(count_reached(s2) == count_reached(sprev));
    assert forall|v: Vec2| in_bounds(v) && #[trigger] reached(s2, v) implies s2[vidx(v)].cost
        <= 14 * (count_reached(s2) - 1) by {
        if v == w {
            assert(reached(sprev, w));
            assert(sprev[vidx(w)].cost <= 14 * (count_reached(sprev) - 1));
        } else {
            lemma_vidx_inj(v, w);
            assert(reached(sprev, v));
            assert(sprev[vidx(v)].cost <= 14 * (count_reached(sprev) - 1));
        }
    }
    assert forall|j: int| 0 <= j < qprev.len() implies in_bounds(#[trigger] qprev[j]) && reached(
        s2,
        qprev[j],
    ) by {
        assert(reached(sprev, qprev[j]));
    }
    assert forall|v: Vec2|
        in_bounds(v) && #[trigger] reached(s2, v) && v != n implies in_window(qprev, head, v)
            || nbrs_done(s2, g, v) by {
        if v == w {
            assert(reached(sprev, w));
        } else {
            lemma_vidx_inj(v, w);
        }
        assert(reached(sprev, v));
        if !in_window(qprev, head, v) {
            assert(nbrs_done(sprev, g, v));
            assert forall|k2: int|
                0 <= k2 < 8 && nbr_ok(v, k2) && walk(g, #[trigger] nbr(v, k2)) implies reached(
                s2,
                nbr(v, k2),
            ) by {
                assert(reached(sprev, nbr(v, k2)));
            }
        }
    }
}

/// Uniform-cost point-to-point search over a first-in-first-out queue: each
/// cell is queued once, on first reach, and later improvements only
/// re-record cost and predecessor. Returns a walkable path in goal-to-start
/// order, empty exactly when no walkable path exists.
#[verifier::rlimit(100)]
pub fn pf_dijkstra(g: &Grid, from: Vec2, to: Vec2) -> (r: Vec<Vec2>)
    requires
        g.wf(),
        in_bounds(from),
        in_bounds(to),
        walk(g@, from),
    ensures
        r@.len() != 0 ==> is_path(g@, r@, to, from) && reachable(g@, from, to),
        r@.len() == 0 <==> !reachable(g@, from, to),
{
    let mut scratch = fresh_scratch();
    let ghost s0 = scratch@;
    let fidx = (from.y as usize) * 64 + (from.x as usize);
    scratch[fidx] = Node { came_from: from, cost: 0 };
    let mut q: Vec<Vec2> = Vec::new();
    q.push(from);
    let mut head: usize = 0;
    proof {
        lemma_count_all_unreached(s0);
        lemma_count_update(s0, vidx(from), Node { came_from: from, cost: 0 });
        assert forall|v: Vec2|
            in_bounds(v) && #[trigger] reached(scratch@, v) implies v == from by {
            if v != from {
                lemma_vidx_inj(v, from);
            }
        }
        assert(q@[0] == from);
    }
    while head < q.len()
        invariant_except_break
            g.wf(),
            in_bounds(from),
            in_bounds(to),
            walk(g@, from),
            scratch@.len() == 4096,
            preds_ok(scratch@, g@, from),
            costs_bounded(scratch@),
            q_ok_d(q@, scratch@),
            covered_d(scratch@, g@, q@, head as int),
            head <= q@.len(),
        ensures
            preds_ok(scratch@, g@, from),
            scratch@[vidx(to)].cost != INF || (head >= q@.len() && covered_d(
                scratch@,
                g@,
                q@,
                head as int,
            )),
        decreases sum_costs(scratch@) + (q@.len() - head),
    {
        proof {
            lemma_sum_nonneg(scratch@);
        }
        let n = q[head];
        head = head + 1;
        proof {
            assert(in_bounds(n) && reached(scratch@, n));
            lemma_pop_d(scratch@, g@, q@, head as int - 1);
        }
        if n.x == to.x && n.y == to.y {
            proof {
                assert(n == to);
            }
            break ;
        }
        proof {
            if n != from {
                assert(pred_edge(scratch@, g@, n));
            }
            lemma_cost_cap(scratch@, n);
        }
        let nidx = (n.y as usize) * 64 + (n.x as usize);
        let c = scratch[nidx].cost;
        let ghost b0 = sum_costs(scratch@) + (q@.len() - head);
        let mut k: u8 = 0;
        while k < 8
            invariant
                g.wf(),
                scratch@.len() == 4096,
                preds_ok(scratch@, g@, from),
                costs_bounded(scratch@),
                q_ok_d(q@, scratch@),
                covered_d_except(scratch@, g@, q@, head as int, n),
                head <= q@.len(),
                in_bounds(n),
                walk(g@, n),
                reached(scratch@, n),
                scratch@[vidx(n)].cost == c,
                c <= 57330,
                k <= 8,
                forall|k2: int|
                    0 <= k2 < k && nbr_ok(n, k2) && walk(g@, #[trigger] nbr(n, k2)) ==> reached(
                        scratch@,
                        nbr(n, k2),
                    ),
                sum_costs(scratch@) + (q@.len() - head) <= b0,
            decreases 8 - k,
        {
            let n_opt = nbr_exec(n, k);
            if let Some((wx, wy)) = n_opt {
                if g.walkable(wx, wy) {
                    let w = Vec2 { x: wx, y: wy };
                    proof {
                        assert(w == nbr(n, k as int));
                        lemma_nbr_props(n, k as int);
                        lemma_vidx_inj(n, w);
                    }
                    let widx = (wy as usize) * 64 + (wx as usize);
                    let d = kcost_exec(k);
                    let nc: u32 = (c as u32) + (d as u32);
                    let wcost = scratch[widx].cost;
                    if wcost == INF {
                        let ghost sprev = scratch@;
                        let ghost qprev = q@;
                        let newnode = Node { came_from: n, cost: nc as u16 };
                        scratch[widx] = newnode;
                        q.push(w);
                        proof {
                            lemma_relax_first_d(
                                sprev,
                                qprev,
                                head as int,
                                g@,
                                from,
                                n,
                                k as int,
                                c,
                                newnode,
                            );
                        }
                    } else if nc < wcost as u32 {
                        let ghost sprev = scratch@;
                        let newnode = Node { came_from: n, cost: nc as u16 };
                        scratch[widx] = newnode;
                        proof {
                            lemma_improve_d(
                                sprev,
                                q@,
                                head as int,
                                g@,
                                from,
                                n,
                                k as int,
                                c,
                                newnode,
                            );
                        }
                    } else {
                        proof {
                            assert(reached(scratch@, w));
                        }
                    }
                }
            }
            k += 1;
        }
        proof {
            assert(nbrs_done(scratch@, g@, n));
            lemma_expand_covered_d(scratch@, g@, q@, head as int, n);
            lemma_sum_nonneg(scratch@);
        }
    }
    let tidx = (to.y as usize) * 64 + (to.x as usize);
    let cost = scratch[tidx].cost;
    if cost == INF {
        proof {
            assert forall|v: Vec2|
                in_bounds(v) && #[trigger] reached(scratch@, v) implies nbrs_done(
                scratch@,
                g@,
                v,
            ) by {
                assert(!in_window(q@, head as int, v));
            }
            lemma_unreached_unreachable(scratch@, g@, from, to);
        }
        return Vec::new();
    }
    let path = build_path(&scratch, g, to, from);
    proof {
        lemma_path_reverse(g@, path@, to, from);
    }
    path
}

} // verus!
