use vstd::prelude::*;

use crate::graph::{AmenityID, Graph, IntersectionID, RoadID};

verus! {

/// `r` lists, by increasing amenity id, each amenity whose cost from `s` can be at most
/// `limit`, together with its least cost.
pub open spec fn is_cost_list(g: Graph, s: int, limit: int, r: Seq<(AmenityID, u128)>) -> bool {
    &&& forall|i: int, j: int| 0 <= i < j < r.len() ==> r[i].0 < r[j].0
    &&& forall|i: int| 0 <= i < r.len() ==> (#[trigger] r[i]).0 < g.num_amenities
    &&& forall|i: int|
        0 <= i < r.len() ==> #[trigger] g.min_amenity_cost(s, limit, r[i].0, r[i].1 as int)
    &&& forall|a: AmenityID, c: int|
        #[trigger] g.reaches_amenity(s, limit, a, c) ==> exists|i: int|
            0 <= i < r.len() && #[trigger] r[i].0 == a
}

spec fn num_unsettled(v: Seq<bool>) -> nat
    decreases v.len(),
{
    if v.len() == 0 {
        0
    } else {
        num_unsettled(v.drop_last()) + if v.last() {
            0nat
        } else {
            1nat
        }
    }
}

proof fn lemma_settle_one(v: Seq<bool>, i: int)
    requires
        0 <= i < v.len(),
        !v[i],
    ensures
        num_unsettled(v.update(i, true)) + 1 == num_unsettled(v),
    decreases v.len(),
{
    let w = v.update(i, true);
    if i == v.len() - 1 {
        assert(w.drop_last() =~= v.drop_last());
    } else {
        assert(w.drop_last() =~= v.drop_last().update(i, true));
        lemma_settle_one(v.drop_last(), i);
    }
}

proof fn lemma_walk_end_in_range(g: Graph, s: int, rs: Seq<int>)
    requires
        g.wf(),
        0 <= s < g.num_intersections(),
        g.is_walk(s, rs),
    ensures
        0 <= g.walk_end(s, rs) < g.num_intersections(),
    decreases rs.len(),
{
    if rs.len() > 0 {
        lemma_walk_end_in_range(g, s, rs.drop_last());
        let r = rs.last();
        assert(g.roads@[r].i1 < g.intersections@.len());
        assert(g.roads@[r].i2 < g.intersections@.len());
    }
}

proof fn lemma_walk_push(g: Graph, s: int, p: Seq<int>, r: int)
    requires
        g.is_walk(s, p),
        g.touches(r, g.walk_end(s, p)),
    ensures
        g.is_walk(s, p.push(r)),
        g.walk_end(s, p.push(r)) == g.roads@[r].other_side_spec(g.walk_end(s, p)),
        g.walk_cost(p.push(r)) == g.walk_cost(p) + g.roads@[r].duration_ns,
{
    assert(p.push(r).drop_last() =~= p);
}

/// Every walk from `s` to `v` costs at least `b`.
spec fn lower_bound(g: Graph, s: int, v: int, b: int) -> bool {
    forall|rs: Seq<int>|
        g.is_walk(s, rs) && #[trigger] g.walk_end(s, rs) == v ==> g.walk_cost(rs) >= b
}

spec fn min_int(a: int, b: int) -> int {
    if a <= b {
        a
    } else {
        b
    }
}

/// The queue holds the entry `(c, v)`.
spec fn queued(q: Seq<(u128, IntersectionID)>, c: int, v: int) -> bool {
    exists|i: int| 0 <= i < q.len() && q[i].0 == c && #[trigger] q[i].1 == v
}

/// Each queue entry is the cost and end of the walk recorded beside it.
spec fn queue_ok(
    g: Graph,
    s: int,
    limit: int,
    q: Seq<(u128, IntersectionID)>,
    qp: Seq<Seq<int>>,
) -> bool {
    &&& qp.len() == q.len()
    &&& forall|i: int|
        #![trigger q[i]]
        0 <= i < q.len() ==> {
            &&& q[i].1 < g.num_intersections()
            &&& q[i].0 <= limit + 0xffff_ffff_ffff_ffff
            &&& g.is_walk(s, qp[i])
            &&& g.walk_end(s, qp[i]) == q[i].1
            &&& g.walk_cost(qp[i]) == q[i].0
        }
}

/// A settled intersection has a walk of its recorded cost, and no walk to it is cheaper
/// (walks past the limit only need to stay past it).
spec fn settled_ok(
    g: Graph,
    s: int,
    limit: int,
    settled: Seq<bool>,
    dist: Seq<int>,
    dp: Seq<Seq<int>>,
) -> bool {
    &&& settled.len() == g.num_intersections()
    &&& dist.len() == g.num_intersections()
    &&& dp.len() == g.num_intersections()
    &&& forall|v: int|
        #![trigger settled[v]]
        0 <= v < settled.len() && settled[v] ==> {
            &&& g.is_walk(s, dp[v])
            &&& g.walk_end(s, dp[v]) == v
            &&& g.walk_cost(dp[v]) == dist[v]
            &&& lower_bound(g, s, v, min_int(dist[v], limit + 1))
        }
}

/// Until the origin settles, the queue holds only its seed.
spec fn start_ok(s: int, settled: Seq<bool>, q: Seq<(u128, IntersectionID)>) -> bool {
    !settled[s] ==> q == seq![(0u128, s as IntersectionID)]
}

/// Every road out of an expanded intersection has pushed its other side, unless that side
/// has settled.
spec fn frontier_ok(
    g: Graph,
    limit: int,
    settled: Seq<bool>,
    dist: Seq<int>,
    q: Seq<(u128, IntersectionID)>,
    skip: int,
) -> bool {
    forall|u: int, r: int|
        #![trigger settled[u], g.touches(r, u)]
        0 <= u < settled.len() && u != skip && settled[u] && dist[u] <= limit && g.touches(r, u)
            && !settled[g.roads@[r].other_side_spec(u)] ==> queued(
            q,
            dist[u] + g.roads@[r].duration_ns,
            g.roads@[r].other_side_spec(u),
        )
}

/// Each recorded amenity cost comes from an expanded intersection and a road touching it.
spec fn found_ok(
    g: Graph,
    limit: int,
    settled: Seq<bool>,
    dist: Seq<int>,
    best: Seq<Option<u128>>,
    bw: Seq<(int, int)>,
) -> bool {
    &&& best.len() == g.num_amenities
    &&& bw.len() == g.num_amenities
    &&& forall|a: int|
        #![trigger best[a]]
        0 <= a < best.len() && best[a].is_some() ==> {
            let (r, u) = bw[a];
            &&& 0 <= u < settled.len()
            &&& settled[u]
            &&& dist[u] <= limit
            &&& g.touches(r, u)
            &&& g.roads@[r].amenities@.contains(a as AmenityID)
            &&& best[a].unwrap() == dist[u] + g.roads@[r].duration_ns
            &&& best[a].unwrap() <= limit
        }
}

/// An amenity on a road of an expanded intersection, reached through that road within the
/// limit, has a cost no higher than via that road.
spec fn found_all(
    g: Graph,
    limit: int,
    settled: Seq<bool>,
    dist: Seq<int>,
    best: Seq<Option<u128>>,
    skip: int,
) -> bool {
    forall|u: int, r: int, a: AmenityID|
        #![trigger settled[u], g.touches(r, u), g.roads@[r].amenities@.contains(a)]
        0 <= u < settled.len() && u != skip && settled[u] && dist[u] + g.roads@[r].duration_ns
            <= limit && g.touches(r, u) && g.roads@[r].amenities@.contains(a) ==> best[a
            as int].is_some()
            && best[a as int].unwrap() <= dist[u] + g.roads@[r].duration_ns
}

proof fn lemma_queued_push(q: Seq<(u128, IntersectionID)>, e: (u128, IntersectionID), c: int, v: int)
    requires
        queued(q, c, v),
    ensures
        queued(q.push(e), c, v),
{
    let w = choose|w: int| 0 <= w < q.len() && q[w].0 == c && #[trigger] q[w].1 == v;
    assert(q.push(e)[w] == q[w]);
}

proof fn lemma_frontier_push(
    g: Graph,
    limit: int,
    settled: Seq<bool>,
    dist: Seq<int>,
    q: Seq<(u128, IntersectionID)>,
    e: (u128, IntersectionID),
    skip: int,
)
    requires
        frontier_ok(g, limit, settled, dist, q, skip),
    ensures
        frontier_ok(g, limit, settled, dist, q.push(e), skip),
{
    assert forall|u: int, r: int|
        #![trigger settled[u], g.touches(r, u)]
        0 <= u < settled.len() && u != skip && settled[u] && dist[u] <= limit && g.touches(r, u)
            && !settled[g.roads@[r].other_side_spec(u)] implies queued(
            q.push(e),
            dist[u] + g.roads@[r].duration_ns,
            g.roads@[r].other_side_spec(u),
        ) by {
        lemma_queued_push(q, e, dist[u] + g.roads@[r].duration_ns, g.roads@[r].other_side_spec(u));
    }
}

/// A walk that ends at an unsettled intersection costs at least the least queued cost,
/// or more than the limit.
proof fn lemma_cut(
    g: Graph,
    s: int,
    limit: int,
    settled: Seq<bool>,
    dist: Seq<int>,
    dp: Seq<Seq<int>>,
    q: Seq<(u128, IntersectionID)>,
    cmin: int,
    rs: Seq<int>,
)
    requires
        g.wf(),
        0 <= s < g.num_intersections(),
        settled_ok(g, s, limit, settled, dist, dp),
        start_ok(s, settled, q),
        frontier_ok(g, limit, settled, dist, q, -1),
        forall|i: int| 0 <= i < q.len() ==> cmin <= #[trigger] q[i].0,
        g.is_walk(s, rs),
        !settled[g.walk_end(s, rs)],
    ensures
        g.walk_cost(rs) >= min_int(cmin, limit + 1),
    decreases rs.len(),
{
    if rs.len() == 0 {
        assert(q[0].0 == 0);
    } else {
        let p = rs.drop_last();
        let r = rs.last();
        let u = g.walk_end(s, p);
        lemma_walk_end_in_range(g, s, p);
        if !settled[u] {
            lemma_cut(g, s, limit, settled, dist, dp, q, cmin, p);
        } else {
            assert(lower_bound(g, s, u, min_int(dist[u], limit + 1)));
            assert(g.walk_cost(p) >= min_int(dist[u], limit + 1));
            if dist[u] <= limit {
                assert(g.touches(r, u));
                assert(queued(q, dist[u] + g.roads@[r].duration_ns, g.walk_end(s, rs)));
            }
        }
    }
}

/// Once the queue is empty, every intersection that a walk within the limit reaches has
/// settled, at no more than the walk's cost.
proof fn lemma_complete(
    g: Graph,
    s: int,
    limit: int,
    settled: Seq<bool>,
    dist: Seq<int>,
    dp: Seq<Seq<int>>,
    rs: Seq<int>,
)
    requires
        g.wf(),
        0 <= s < g.num_intersections(),
        settled_ok(g, s, limit, settled, dist, dp),
        start_ok(s, settled, Seq::empty()),
        frontier_ok(g, limit, settled, dist, Seq::empty(), -1),
        g.is_walk(s, rs),
        g.walk_cost(rs) <= limit,
    ensures
        settled[g.walk_end(s, rs)],
        dist[g.walk_end(s, rs)] <= g.walk_cost(rs),
    decreases rs.len(),
{
    lemma_walk_end_in_range(g, s, rs);
    let v = g.walk_end(s, rs);
    if rs.len() == 0 {
        assert(seq![(0u128, s as IntersectionID)].len() == 1);
    } else {
        let p = rs.drop_last();
        let r = rs.last();
        let u = g.walk_end(s, p);
        lemma_complete(g, s, limit, settled, dist, dp, p);
        assert(g.touches(r, u));
        if !settled[v] {
            assert(queued(Seq::empty(), dist[u] + g.roads@[r].duration_ns, v));
        }
    }
    assert(lower_bound(g, s, v, min_int(dist[v], limit + 1)));
}

/// Least walking cost, in nanoseconds, from `start` to every amenity that can be reached at a
/// cost of at most `limit`: a priority search that settles intersections in order of cost,
/// expands only those within the limit, and records an amenity only at a cost within it.
#[verifier::loop_isolation(false)]
pub fn cost_search(graph: &Graph, start: IntersectionID, limit: u128) -> (r: Vec<(AmenityID, u128)>)
    requires
        graph.wf(),
        start < graph.num_intersections(),
        limit <= u128::MAX / 2,
    ensures
        is_cost_list(*graph, start as int, limit as int, r@),
{
    let ghost g = *graph;
    let ghost s = start as int;
    let ghost lim = limit as int;
    let n = graph.intersections.len();
    let m = graph.num_amenities;
    let num_roads = graph.roads.len();
    assert(g.roads@.len() == num_roads);
    let mut visited: Vec<bool> = Vec::new();
    let mut i: usize = 0;
    while i < n
        invariant
            i <= n,
            visited@.len() == i,
            forall|j: int| 0 <= j < i ==> !(#[trigger] visited@[j]),
        decreases n - i,
    {
        visited.push(false);
        i += 1;
    }
    let mut best: Vec<Option<u128>> = Vec::new();
    let mut i: usize = 0;
    while i < m
        invariant
            i <= m,
            best@.len() == i,
            forall|j: int| 0 <= j < i ==> (#[trigger] best@[j]).is_none(),
        decreases m - i,
    {
        best.push(None);
        i += 1;
    }
    let mut queue: Vec<(u128, IntersectionID)> = Vec::new();
    queue.push((0, start));
    let ghost mut dist: Seq<int> = Seq::new(n as nat, |j: int| 0);
    let ghost mut dp: Seq<Seq<int>> = Seq::new(n as nat, |j: int| Seq::<int>::empty());
    let ghost mut qp: Seq<Seq<int>> = seq![Seq::<int>::empty()];
    let ghost mut bw: Seq<(int, int)> = Seq::new(m as nat, |j: int| (0, 0));
    assert(queue@ == seq![(0u128, s as IntersectionID)]);

    while queue.len() > 0
        invariant
            queue_ok(g, s, lim, queue@, qp),
            settled_ok(g, s, lim, visited@, dist, dp),
            start_ok(s, visited@, queue@),
            frontier_ok(g, lim, visited@, dist, queue@, -1),
            found_ok(g, lim, visited@, dist, best@, bw),
            found_all(g, lim, visited@, dist, best@, -1),
        decreases num_unsettled(visited@), queue@.len(),
    {
        let k = min_index(&queue);
        let ghost q0 = queue@;
        let ghost path = qp[k as int];
        let (c, v) = queue.remove(k);
        proof {
            qp = qp.remove(k as int);
            assert forall|u: int, r: int|
                #![trigger visited@[u], g.touches(r, u)]
                0 <= u < visited@.len() && visited@[u] && dist[u] <= lim && g.touches(r, u)
                    && !visited@[g.roads@[r].other_side_spec(u)] && g.roads@[r].other_side_spec(
                    u,
                ) != v implies queued(
                    queue@,
                    dist[u] + g.roads@[r].duration_ns,
                    g.roads@[r].other_side_spec(u),
                ) by {
                let y = g.roads@[r].other_side_spec(u);
                let cc = dist[u] + g.roads@[r].duration_ns;
                assert(queued(q0, cc, y));
                let w = choose|w: int| 0 <= w < q0.len() && q0[w].0 == cc && #[trigger] q0[w].1 == y;
                if y != v {
                    if w < k {
                        assert(queue@[w].1 == y);
                    } else {
                        assert(queue@[w - 1].1 == y);
                    }
                }
            }
            if !visited@[s] {
                assert(q0.len() == 1);
            }
        }
        let ghost vis0 = visited@;
        let ghost dist0 = dist;
        if visited[v] {
            assert(frontier_ok(g, lim, visited@, dist, queue@, -1));
            assert(queue@.len() < q0.len());
            continue;
        }
        proof {
            assert forall|rs: Seq<int>|
                g.is_walk(s, rs) && #[trigger] g.walk_end(s, rs) == v implies g.walk_cost(rs)
                >= min_int(c as int, lim + 1) by {
                lemma_cut(g, s, lim, visited@, dist, dp, q0, c as int, rs);
            }
            lemma_settle_one(visited@, v as int);
        }
        visited.set(v, true);
        proof {
            dist = dist.update(v as int, c as int);
            dp = dp.update(v as int, path);
            assert(found_all(g, lim, visited@, dist, best@, v as int));
            assert(frontier_ok(g, lim, visited@, dist, queue@, v as int));
        }
        if c <= limit {
            let roads = &graph.intersections[v].roads;
            let mut j: usize = 0;
            while j < roads.len()
                invariant
                    j <= roads@.len(),
                    queue_ok(g, s, lim, queue@, qp),
                    settled_ok(g, s, lim, visited@, dist, dp),
                    visited@[s as int],
                    frontier_ok(g, lim, visited@, dist, queue@, v as int),
                    forall|jj: int|
                        0 <= jj < j ==> queued(
                            queue@,
                            c + g.roads@[#[trigger] roads@[jj] as int].duration_ns,
                            g.roads@[roads@[jj] as int].other_side_spec(v as int),
                        ),
                    found_ok(g, lim, visited@, dist, best@, bw),
                    found_all(g, lim, visited@, dist, best@, v as int),
                    forall|jj: int, a: AmenityID|
                        #![trigger roads@[jj], g.roads@[roads@[jj] as int].amenities@.contains(a)]
                        0 <= jj < j && g.roads@[roads@[jj] as int].amenities@.contains(a) && c
                            + g.roads@[roads@[jj] as int].duration_ns <= limit
                            ==> best@[a as int].is_some() && best@[a as int].unwrap() <= c
                            + g.roads@[roads@[jj] as int].duration_ns,
                decreases roads@.len() - j,
            {
                let rid = roads[j];
                let road = &graph.roads[rid];
                let this_cost = c + road.duration_ns as u128;
                if this_cost <= limit {
                    let mut t: usize = 0;
                    while t < road.amenities.len()
                        invariant
                            t <= road.amenities@.len(),
                            found_ok(g, lim, visited@, dist, best@, bw),
                            found_all(g, lim, visited@, dist, best@, v as int),
                            forall|jj: int, a: AmenityID|
                                #![trigger roads@[jj], g.roads@[roads@[jj] as int].amenities@.contains(a)]
                                0 <= jj < j && g.roads@[roads@[jj] as int].amenities@.contains(a)
                                    && c + g.roads@[roads@[jj] as int].duration_ns <= limit
                                    ==> best@[a as int].is_some() && best@[a as int].unwrap() <= c
                                    + g.roads@[roads@[jj] as int].duration_ns,
                            forall|tt: int|
                                0 <= tt < t ==> best@[#[trigger] road.amenities@[tt] as int].is_some()
                                    && best@[road.amenities@[tt] as int].unwrap() <= this_cost,
                        decreases road.amenities@.len() - t,
                    {
                        let a = road.amenities[t];
                        let better = match best[a] {
                            Some(b) => this_cost < b,
                            None => true,
                        };
                        if better {
                            best.set(a, Some(this_cost));
                            proof {
                                bw = bw.update(a as int, (rid as int, v as int));
                            }
                        }
                        t += 1;
                    }
                }
                let next = road.other_side(v);
                let ghost q1 = queue@;
                queue.push((this_cost, next));
                proof {
                    lemma_frontier_push(g, lim, visited@, dist, q1, (this_cost, next), v as int);
                    assert forall|jj: int|
                        0 <= jj <= j implies queued(
                        queue@,
                        c + g.roads@[#[trigger] roads@[jj] as int].duration_ns,
                        g.roads@[roads@[jj] as int].other_side_spec(v as int),
                    ) by {
                        if jj < j {
                            lemma_queued_push(
                                q1,
                                (this_cost, next),
                                c + g.roads@[roads@[jj] as int].duration_ns,
                                g.roads@[roads@[jj] as int].other_side_spec(v as int),
                            );
                        } else {
                            let w = q1.len() as int;
                            assert(queue@[w] == (this_cost, next));
                            assert(queue@[w].1 == g.roads@[roads@[jj] as int].other_side_spec(v as int));
                            assert(queue@[w].0 == c + g.roads@[roads@[jj] as int].duration_ns);
                        }
                    }
                    lemma_walk_push(g, s, dp[v as int], rid as int);
                    qp = qp.push(dp[v as int].push(rid as int));
                }
                j += 1;
            }
        }
        proof {
            let vr = g.intersections@[v as int].roads@;
            assert forall|u: int, r: int|
                #![trigger visited@[u], g.touches(r, u)]
                0 <= u < visited@.len() && visited@[u] && dist[u] <= lim && g.touches(r, u)
                    && !visited@[g.roads@[r].other_side_spec(u)] implies queued(
                    queue@,
                    dist[u] + g.roads@[r].duration_ns,
                    g.roads@[r].other_side_spec(u),
                ) by {
                if u == v {
                    assert(vr.contains(r as RoadID));
                    let jj = choose|jj: int| 0 <= jj < vr.len() && vr[jj] == r as RoadID;
                    assert(vr[jj] as int == r);
                } else {
                    assert(vis0[u]);
                }
            }
            assert forall|u: int, r: int, a: AmenityID|
                #![trigger visited@[u], g.touches(r, u), g.roads@[r].amenities@.contains(a)]
                0 <= u < visited@.len() && visited@[u] && dist[u] + g.roads@[r].duration_ns
                    <= lim && g.touches(r, u) && g.roads@[r].amenities@.contains(a) implies best@[a
                    as int].is_some()
                    && best@[a as int].unwrap() <= dist[u] + g.roads@[r].duration_ns by {
                if u == v {
                    assert(vr.contains(r as RoadID));
                    let jj = choose|jj: int| 0 <= jj < vr.len() && vr[jj] == r as RoadID;
                    assert(vr[jj] as int == r);
                } else {
                    assert(vis0[u]);
                }
            }
        }
    }

    proof {
        assert(queue@ =~= Seq::<(u128, IntersectionID)>::empty());
        assert forall|a: AmenityID, c2: int| #[trigger]
            g.reaches_amenity(s, lim, a, c2) implies a < m && best@[a as int].is_some()
            && best@[a as int].unwrap() <= c2 by {
            let (r, rs) = choose|r: int, rs: Seq<int>|
                #![trigger g.touches(r, g.walk_end(s, rs))]
                {
                    &&& g.is_walk(s, rs)
                    &&& g.walk_cost(rs) <= lim
                    &&& g.touches(r, g.walk_end(s, rs))
                    &&& g.roads@[r].amenities@.contains(a)
                    &&& c2 == g.walk_cost(rs) + g.roads@[r].duration_ns
                    &&& c2 <= lim
                };
            lemma_complete(g, s, lim, visited@, dist, dp, rs);
            lemma_walk_end_in_range(g, s, rs);
            let e = g.walk_end(s, rs);
            assert(visited@[e]);
            let k = choose|k: int| 0 <= k < g.roads@[r].amenities@.len() && g.roads@[r].amenities@[k] == a;
            assert(g.roads@[r].amenities@[k] < m);
        }
        assert forall|a: int| 0 <= a < m && (#[trigger] best@[a]).is_some() implies g.reaches_amenity(
            s,
            lim,
            a as AmenityID,
            best@[a].unwrap() as int,
        ) by {
            let (r, u) = bw[a];
            assert(visited@[u]);
            assert(g.touches(r, g.walk_end(s, dp[u])));
        }
    }
    let mut r: Vec<(AmenityID, u128)> = Vec::new();
    let mut a: usize = 0;
    while a < m
        invariant
            a <= m,
            forall|i: int, j: int| 0 <= i < j < r@.len() ==> r@[i].0 < r@[j].0,
            forall|i: int|
                0 <= i < r@.len() ==> (#[trigger] r@[i]).0 < a && best@[r@[i].0 as int]
                    == Some(r@[i].1),
            forall|b: int|
                0 <= b < a && (#[trigger] best@[b]).is_some() ==> exists|i: int|
                    0 <= i < r@.len() && #[trigger] r@[i].0 == b,
        decreases m - a,
    {
        match best[a] {
            Some(c) => {
                let ghost r0 = r@;
                r.push((a, c));
                proof {
                    assert forall|b: int|
                        0 <= b <= a && (#[trigger] best@[b]).is_some() implies exists|i: int|
                        0 <= i < r@.len() && #[trigger] r@[i].0 == b by {
                        if b < a {
                            let i = choose|i: int| 0 <= i < r0.len() && #[trigger] r0[i].0 == b;
                            assert(r@[i] == r0[i]);
                        } else {
                            assert(r@[r0.len() as int].0 == b);
                        }
                    }
                }
            },
            None => {},
        }
        a += 1;
    }
    r
}

fn min_index(q: &Vec<(u128, IntersectionID)>) -> (k: usize)
    requires
        q@.len() > 0,
    ensures
        k < q@.len(),
        forall|i: int| 0 <= i < q@.len() ==> q@[k as int].0 <= #[trigger] q@[i].0,
{
    let mut k: usize = 0;
    let mut i: usize = 1;
    while i < q.len()
        invariant
            k < i <= q@.len(),
            forall|j: int| 0 <= j < i ==> q@[k as int].0 <= #[trigger] q@[j].0,
        decreases q@.len() - i,
    {
        if q[i].0 < q[k].0 {
            k = i;
        }
        i += 1;
    }
    k
}

} // verus!
