use vstd::prelude::*;
use crate::grid::{walkable, Grid, TileType};
use vstd::arithmetic::div_mod::{lemma_fundamental_div_mod, lemma_fundamental_div_mod_converse, lemma_mod_bound};

verus! {

/// `a` and `b` are valid cells that share an edge.
pub open spec fn adjacent(g: &Grid, a: int, b: int) -> bool {
    let w = g.width as int;
    &&& 0 <= a < g.tiles@.len()
    &&& 0 <= b < g.tiles@.len()
    &&& {
        ||| (b == a - 1 && a % w != 0)
        ||| (b == a + 1 && a % w != w - 1)
        ||| b == a - w
        ||| b == a + w
    }
}

/// A walk over edge-sharing cells in which every cell after the first can be entered.
pub open spec fn is_route(g: &Grid, p: Seq<int>) -> bool {
    &&& p.len() >= 1
    &&& forall|k: int| 0 <= k < p.len() ==> 0 <= #[trigger] p[k] < g.tiles@.len()
    &&& forall|k: int| 1 <= k < p.len() ==> walkable(g.tiles@[#[trigger] p[k]])
    &&& forall|k: int| 0 <= k < p.len() - 1 ==> adjacent(g, #[trigger] p[k], p[k + 1])
}

/// `to` can be reached from `from` in at most `n` steps.
pub open spec fn reachable_within(g: &Grid, from: int, to: int, n: int) -> bool {
    exists|p: Seq<int>|
        #![trigger is_route(g, p), p.len()]
        is_route(g, p) && p[0] == from && p.last() == to && p.len() <= n + 1
}

/// `p` is a route from one of `sources` to `i` whose `k`-th cell lies at distance `k`.
pub open spec fn traces(g: &Grid, sources: Seq<usize>, r: Seq<Option<usize>>, i: int, p: Seq<int>) -> bool {
    &&& is_route(g, p)
    &&& sources.contains(p[0] as usize)
    &&& p.last() == i
    &&& r[i] is Some
    &&& p.len() == r[i]->Some_0 + 1
    &&& forall|k: int| 0 <= k < p.len() ==> #[trigger] r[p[k]] == Some(k as usize)
}

/// Every walkable neighbour of a cell at distance `d < cutoff` lies at distance at most `d + 1`.
pub open spec fn closed(g: &Grid, r: Seq<Option<usize>>, cutoff: int) -> bool {
    forall|i: int, m: int|
        #![trigger r[i], r[m]]
        0 <= i < r.len() && r[i] is Some && r[i]->Some_0 < cutoff && adjacent(g, i, m)
            && walkable(g.tiles@[m]) ==> r[m] is Some && r[m]->Some_0 <= r[i]->Some_0 + 1
}

/// What a breadth-first distance field from `sources` with the given cutoff is.
pub open spec fn is_distance_field(g: &Grid, sources: Seq<usize>, cutoff: int, r: Seq<Option<usize>>) -> bool {
    &&& r.len() == g.tiles@.len()
    &&& forall|k: int| 0 <= k < sources.len() ==> r[sources[k] as int] == Some(0usize)
    &&& forall|i: int| 0 <= i < r.len() && r[i] == Some(0usize) ==> sources.contains(i as usize)
    &&& forall|i: int| 0 <= i < r.len() && r[i] is Some ==> r[i]->Some_0 <= cutoff
    &&& forall|i: int|
        0 <= i < r.len() && #[trigger] r[i] is Some ==> exists|p: Seq<int>| traces(g, sources, r, i, p)
    &&& closed(g, r, cutoff)
}

/// The cell that lies in direction `k` (left, right, up, down) from `i`, if any.
pub open spec fn neighbour_in(g: &Grid, i: int, k: int) -> Option<int> {
    let w = g.width as int;
    let n = g.tiles@.len() as int;
    if k == 0 {
        if i > 0 && i % w != 0 { Some(i - 1) } else { None }
    } else if k == 1 {
        if i % w != w - 1 && i + 1 < n { Some(i + 1) } else { None }
    } else if k == 2 {
        if i >= w { Some(i - w) } else { None }
    } else {
        if i + w < n { Some(i + w) } else { None }
    }
}

pub proof fn lemma_neighbour_in(g: &Grid, i: int, m: int)
    requires
        g.wf(),
        0 <= i < g.tiles@.len(),
    ensures
        adjacent(g, i, m) <==> exists|k: int| 0 <= k < 4 && neighbour_in(g, i, k) == Some(m),
        forall|k: int| 0 <= k < 4 && #[trigger] neighbour_in(g, i, k) is Some
            ==> adjacent(g, i, neighbour_in(g, i, k)->Some_0),
{
    if adjacent(g, i, m) {
        let w = g.width as int;
        if m == i - 1 && i % w != 0 {
            assert(neighbour_in(g, i, 0) == Some(m));
        } else if m == i + 1 && i % w != w - 1 {
            assert(neighbour_in(g, i, 1) == Some(m));
        } else if m == i - w {
            assert(neighbour_in(g, i, 2) == Some(m));
        } else {
            assert(neighbour_in(g, i, 3) == Some(m));
        }
    }
}

/// The four cells in directions left, right, up and down from `i`, where they exist.
pub fn neighbours(g: &Grid, i: usize) -> (r: Vec<Option<usize>>)
    requires
        g.wf(),
        i < g.tiles@.len(),
    ensures
        r@.len() == 4,
        forall|k: int| 0 <= k < 4 ==> (#[trigger] r@[k] is Some) == (neighbour_in(g, i as int, k) is Some),
        forall|k: int| 0 <= k < 4 && #[trigger] r@[k] is Some
            ==> r@[k]->Some_0 as int == neighbour_in(g, i as int, k)->Some_0,
{
    proof {
        vstd::arithmetic::div_mod::lemma_mod_bound(i as int, g.width as int);
    }
    let w = g.width;
    let n = g.tiles.len();
    let x = i % w;
    let mut r: Vec<Option<usize>> = Vec::new();
    r.push(if i > 0 && x > 0 { Some(i - 1) } else { None });
    r.push(if x + 1 < w && i + 1 < n { Some(i + 1) } else { None });
    r.push(if i >= w { Some(i - w) } else { None });
    r.push(if n - i > w { Some(i + w) } else { None });
    r
}

pub open spec fn at_most(r: Seq<Option<usize>>, d: int) -> bool {
    forall|i: int| 0 <= i < r.len() && #[trigger] r[i] is Some ==> r[i]->Some_0 <= d
}

pub open spec fn all_at(r: Seq<Option<usize>>, f: Seq<usize>, d: int) -> bool {
    forall|j: int| 0 <= j < f.len() ==> #[trigger] f[j] < r.len() && r[f[j] as int] == Some(d as usize)
}

pub open spec fn layer_listed(r: Seq<Option<usize>>, f: Seq<usize>, d: int) -> bool {
    forall|i: int| 0 <= i < r.len() && #[trigger] r[i] == Some(d as usize) ==> f.contains(i as usize)
}

pub open spec fn all_traced(g: &Grid, sources: Seq<usize>, r: Seq<Option<usize>>, routes: Map<int, Seq<int>>) -> bool {
    forall|i: int|
        0 <= i < r.len() && #[trigger] r[i] is Some ==> routes.dom().contains(i) && traces(g, sources, r, i, routes[i])
}

pub open spec fn sources_at_zero(sources: Seq<usize>, r: Seq<Option<usize>>) -> bool {
    &&& forall|k: int| 0 <= k < sources.len() ==> r[#[trigger] sources[k] as int] == Some(0usize)
    &&& forall|i: int| 0 <= i < r.len() && #[trigger] r[i] == Some(0usize) ==> sources.contains(i as usize)
}

/// Setting a cell that was not reached keeps every recorded route valid.
proof fn lemma_traced_update(
    g: &Grid,
    sources: Seq<usize>,
    r: Seq<Option<usize>>,
    routes: Map<int, Seq<int>>,
    m: int,
    v: usize,
)
    requires
        all_traced(g, sources, r, routes),
        r.len() == g.tiles@.len(),
        0 <= m < r.len(),
        r[m] is None,
    ensures
        forall|i: int|
            0 <= i < r.len() && i != m && #[trigger] r[i] is Some ==> traces(g, sources, r.update(m, Some(v)), i, routes[i]),
{
    assert forall|i: int| 0 <= i < r.len() && i != m && #[trigger] r[i] is Some implies traces(
        g,
        sources,
        r.update(m, Some(v)),
        i,
        routes[i],
    ) by {
        let p = routes[i];
        assert forall|k: int| 0 <= k < p.len() implies #[trigger] r.update(m, Some(v))[p[k]] == Some(k as usize) by {
            assert(r[p[k]] == Some(k as usize));
        }
    }
}

/// Breadth-first distances from `sources` over walkable cells, expanding at most `cutoff`
/// steps; `None` marks a cell that was not reached.
pub fn distance_field(g: &Grid, sources: &Vec<usize>, cutoff: usize) -> (r: Vec<Option<usize>>)
    requires
        g.wf(),
        forall|k: int| 0 <= k < sources@.len() ==> #[trigger] sources@[k] < g.tiles@.len(),
    ensures
        is_distance_field(g, sources@, cutoff as int, r@),
{
    let n = g.tiles.len();
    let mut dist: Vec<Option<usize>> = vec![None; n];
    let mut frontier: Vec<usize> = Vec::new();
    let ghost mut routes: Map<int, Seq<int>> = Map::empty();
    let mut s: usize = 0;
    while s < sources.len()
        invariant
            g.wf(),
            n == g.tiles@.len(),
            dist@.len() == n,
            forall|k: int| 0 <= k < sources@.len() ==> #[trigger] sources@[k] < g.tiles@.len(),
            s <= sources@.len(),
            forall|k: int| 0 <= k < s ==> dist@[#[trigger] sources@[k] as int] == Some(0usize),
            forall|i: int| 0 <= i < n && #[trigger] dist@[i] is Some ==> dist@[i] == Some(0usize) && sources@.contains(i as usize),
            all_at(dist@, frontier@, 0),
            layer_listed(dist@, frontier@, 0),
            all_traced(g, sources@, dist@, routes),
        decreases sources@.len() - s,
    {
        let src = sources[s];
        if dist[src].is_none() {
            proof {
                lemma_traced_update(g, sources@, dist@, routes, src as int, 0);
                routes = routes.insert(src as int, seq![src as int]);
                assert(sources@[s as int] == src);
            }
            let ghost old_frontier = frontier@;
            dist.set(src, Some(0));
            frontier.push(src);
            proof {
                assert(frontier@[frontier@.len() - 1] == src);
                assert forall|i: int| 0 <= i < n && #[trigger] dist@[i] == Some(0usize) implies frontier@.contains(i as usize) by {
                    if i != src {
                        let j = choose|j: int| 0 <= j < old_frontier.len() && old_frontier[j] == i as usize;
                        assert(frontier@[j] == i as usize);
                    }
                }
                let p = seq![src as int];
                assert(traces(g, sources@, dist@, src as int, p));
            }
        }
        s += 1;
    }
    let mut d: usize = 0;
    while frontier.len() > 0 && d < cutoff
        invariant
            g.wf(),
            n == g.tiles@.len(),
            dist@.len() == n,
            forall|k: int| 0 <= k < sources@.len() ==> #[trigger] sources@[k] < g.tiles@.len(),
            d <= cutoff,
            sources_at_zero(sources@, dist@),
            at_most(dist@, d as int),
            all_at(dist@, frontier@, d as int),
            layer_listed(dist@, frontier@, d as int),
            closed(g, dist@, d as int),
            all_traced(g, sources@, dist@, routes),
        decreases cutoff - d,
    {
        let mut next: Vec<usize> = Vec::new();
        let mut j: usize = 0;
        while j < frontier.len()
            invariant
                g.wf(),
                n == g.tiles@.len(),
                dist@.len() == n,
                d < cutoff,
                forall|k: int| 0 <= k < sources@.len() ==> #[trigger] sources@[k] < g.tiles@.len(),
                j <= frontier@.len(),
                sources_at_zero(sources@, dist@),
                at_most(dist@, d + 1),
                all_at(dist@, frontier@, d as int),
                layer_listed(dist@, frontier@, d as int),
                all_at(dist@, next@, d + 1),
                layer_listed(dist@, next@, d + 1),
                closed(g, dist@, d as int),
                forall|jj: int, m: int|
                    0 <= jj < j && adjacent(g, #[trigger] frontier@[jj] as int, m) && walkable(g.tiles@[m])
                        ==> #[trigger] dist@[m] is Some && dist@[m]->Some_0 <= d + 1,
                all_traced(g, sources@, dist@, routes),
            decreases frontier@.len() - j,
        {
            let cur = frontier[j];
            let nbs = neighbours(g, cur);
            let mut k: usize = 0;
            while k < 4
                invariant
                    g.wf(),
                    n == g.tiles@.len(),
                    dist@.len() == n,
                    d < cutoff,
                    forall|k: int| 0 <= k < sources@.len() ==> #[trigger] sources@[k] < g.tiles@.len(),
                    j < frontier@.len(),
                    cur == frontier@[j as int],
                    cur < n,
                    dist@[cur as int] == Some(d),
                    nbs@.len() == 4,
                    forall|kk: int| 0 <= kk < 4 ==> (#[trigger] nbs@[kk] is Some) == (neighbour_in(g, cur as int, kk) is Some),
                    forall|kk: int| 0 <= kk < 4 && #[trigger] nbs@[kk] is Some
                        ==> nbs@[kk]->Some_0 as int == neighbour_in(g, cur as int, kk)->Some_0,
                    k <= 4,
                    sources_at_zero(sources@, dist@),
                    at_most(dist@, d + 1),
                    all_at(dist@, frontier@, d as int),
                    layer_listed(dist@, frontier@, d as int),
                    all_at(dist@, next@, d + 1),
                    layer_listed(dist@, next@, d + 1),
                    closed(g, dist@, d as int),
                    forall|jj: int, m: int|
                        0 <= jj < j && adjacent(g, #[trigger] frontier@[jj] as int, m) && walkable(g.tiles@[m])
                            ==> #[trigger] dist@[m] is Some && dist@[m]->Some_0 <= d + 1,
                    forall|kk: int|
                        0 <= kk < k && #[trigger] neighbour_in(g, cur as int, kk) is Some
                            && walkable(g.tiles@[neighbour_in(g, cur as int, kk)->Some_0])
                            ==> dist@[neighbour_in(g, cur as int, kk)->Some_0] is Some
                            && dist@[neighbour_in(g, cur as int, kk)->Some_0]->Some_0 <= d + 1,
                    all_traced(g, sources@, dist@, routes),
                decreases 4 - k,
            {
                match nbs[k] {
                    Some(m) => {
                        if g.tiles[m] != TileType::Wall && dist[m].is_none() {
                            proof {
                                lemma_neighbour_in(g, cur as int, m as int);
                                lemma_traced_update(g, sources@, dist@, routes, m as int, (d + 1) as usize);
                                routes = routes.insert(m as int, routes[cur as int].push(m as int));
                            }
                            let ghost old_next = next@;
                            let ghost old_dist = dist@;
                            dist.set(m, Some(d + 1));
                            next.push(m);
                            proof {
                                assert(next@[next@.len() - 1] == m);
                                assert forall|k: int| 0 <= k < sources@.len() implies dist@[#[trigger] sources@[k] as int] == Some(0usize) by {
                                    assert(old_dist[sources@[k] as int] == Some(0usize));
                                }
                                assert forall|i: int| 0 <= i < n && #[trigger] dist@[i] == Some((d + 1) as usize) implies next@.contains(i as usize) by {
                                    if i != m {
                                        let jj = choose|jj: int| 0 <= jj < old_next.len() && old_next[jj] == i as usize;
                                        assert(next@[jj] == i as usize);
                                    }
                                }
                                let p = routes[m as int];
                                let q = routes[cur as int];
                                assert(traces(g, sources@, old_dist, cur as int, q));
                                assert forall|kk: int| 0 <= kk < p.len() implies #[trigger] dist@[p[kk]] == Some(kk as usize) by {
                                    if kk < q.len() {
                                        assert(old_dist[q[kk]] == Some(kk as usize));
                                    }
                                }
                                assert(traces(g, sources@, dist@, m as int, p));
                            }
                        }
                    }
                    None => {}
                }
                k += 1;
            }
            proof {
                assert forall|jj: int, m: int|
                    0 <= jj < j + 1 && adjacent(g, #[trigger] frontier@[jj] as int, m) && walkable(g.tiles@[m])
                        implies #[trigger] dist@[m] is Some && dist@[m]->Some_0 <= d + 1 by {
                    if jj == j {
                        lemma_neighbour_in(g, cur as int, m);
                        let kk = choose|kk: int| 0 <= kk < 4 && neighbour_in(g, cur as int, kk) == Some(m);
                    }
                }
            }
            j += 1;
        }
        proof {
            assert forall|i: int, m: int|
                0 <= i < dist@.len() && #[trigger] dist@[i] is Some && dist@[i]->Some_0 < d + 1 && adjacent(g, i, m)
                    && walkable(g.tiles@[m]) implies #[trigger] dist@[m] is Some && dist@[m]->Some_0 <= dist@[i]->Some_0 + 1 by {
                if dist@[i]->Some_0 == d {
                    assert(dist@[i] == Some(d));
                    let jj = choose|jj: int| 0 <= jj < frontier@.len() && frontier@[jj] == i as usize;
                    assert(adjacent(g, frontier@[jj] as int, m));
                }
            }
        }
        frontier = next;
        d = d + 1;
    }
    proof {
        assert forall|i: int, m: int|
            0 <= i < dist@.len() && #[trigger] dist@[i] is Some && dist@[i]->Some_0 < cutoff && adjacent(g, i, m)
                && walkable(g.tiles@[m]) implies #[trigger] dist@[m] is Some && dist@[m]->Some_0 <= dist@[i]->Some_0 + 1 by {
            if dist@[i]->Some_0 == d {
                assert(dist@[i] == Some(d));
                assert(frontier@.contains(i as usize));
                assert(frontier@.len() > 0);
            }
        }
        assert forall|i: int| 0 <= i < dist@.len() && #[trigger] dist@[i] is Some implies exists|p: Seq<int>|
            traces(g, sources@, dist@, i, p) by {
            assert(traces(g, sources@, dist@, i, routes[i]));
        }
    }
    dist
}

/// A route stays a route on a grid of the same shape where its cells stay walkable.
pub proof fn lemma_route_transfer(g: &Grid, h: &Grid, p: Seq<int>)
    requires
        is_route(g, p),
        h.width == g.width,
        h.tiles@.len() == g.tiles@.len(),
        forall|k: int| 1 <= k < p.len() ==> walkable(h.tiles@[#[trigger] p[k]]),
    ensures
        is_route(h, p),
{
    assert forall|k: int| 0 <= k < p.len() - 1 implies adjacent(h, #[trigger] p[k], p[k + 1]) by {
        assert(adjacent(g, p[k], p[k + 1]));
    }
}

pub proof fn lemma_single_contains(c: usize, x: usize)
    requires
        seq![c].contains(x),
    ensures
        x == c,
{
    let k = choose|k: int| 0 <= k < 1 && seq![c][k] == x;
}

/// A cell that a flood from `s` reached lies within its distance of `s`.
pub proof fn lemma_traced_reachable(g: &Grid, s: usize, cutoff: int, r: Seq<Option<usize>>, i: int)
    requires
        g.wf(),
        is_distance_field(g, seq![s], cutoff, r),
        0 <= i < r.len(),
        r[i] is Some,
    ensures
        reachable_within(g, s as int, i, r[i]->Some_0 as int),
{
    let p = choose|p: Seq<int>| traces(g, seq![s], r, i, p);
    assert(0 <= p[0] < g.tiles@.len());
    lemma_single_contains(s, p[0] as usize);
    assert(is_route(g, p) && p[0] == s as int && p.last() == i && p.len() <= r[i]->Some_0 + 1);
}

/// `b` can be reached from `a` by some route.
pub open spec fn connected(g: &Grid, a: int, b: int) -> bool {
    exists|p: Seq<int>| #![trigger is_route(g, p)] is_route(g, p) && p[0] == a && p.last() == b
}

/// Sharing an edge is symmetric.
pub proof fn lemma_adjacent_symmetric(g: &Grid, a: int, b: int)
    requires
        g.wf(),
        adjacent(g, a, b),
    ensures
        adjacent(g, b, a),
{
    let w = g.width as int;
    lemma_fundamental_div_mod(a, w);
    lemma_mod_bound(a, w);
    if b == a - 1 && a % w != 0 {
        lemma_fundamental_div_mod_converse(b, w, a / w, a % w - 1);
    } else if b == a + 1 && a % w != w - 1 {
        lemma_fundamental_div_mod_converse(b, w, a / w, a % w + 1);
    }
}

/// A route read backwards is a route, when its first cell can be entered.
pub proof fn lemma_route_reversed(g: &Grid, p: Seq<int>) -> (q: Seq<int>)
    requires
        g.wf(),
        is_route(g, p),
        walkable(g.tiles@[p[0]]),
    ensures
        is_route(g, q),
        q.len() == p.len(),
        q[0] == p.last(),
        q.last() == p[0],
{
    let n = p.len() as int;
    let q = Seq::new(p.len(), |k: int| p[n - 1 - k]);
    assert forall|k: int| 0 <= k < q.len() - 1 implies adjacent(g, #[trigger] q[k], q[k + 1]) by {
        assert(adjacent(g, p[n - 2 - k], p[n - 1 - k]));
        lemma_adjacent_symmetric(g, p[n - 2 - k], p[n - 1 - k]);
    }
    assert forall|k: int| 1 <= k < q.len() implies walkable(g.tiles@[#[trigger] q[k]]) by {
        if n - 1 - k >= 1 {
            assert(walkable(g.tiles@[p[n - 1 - k]]));
        }
    }
    assert forall|k: int| 0 <= k < q.len() implies 0 <= #[trigger] q[k] < g.tiles@.len() by {
        assert(0 <= p[n - 1 - k] < g.tiles@.len());
    }
    q
}

/// Joining two routes that meet gives a route.
pub proof fn lemma_route_joined(g: &Grid, p: Seq<int>, q: Seq<int>) -> (r: Seq<int>)
    requires
        is_route(g, p),
        is_route(g, q),
        p.last() == q[0],
    ensures
        is_route(g, r),
        r[0] == p[0],
        r.last() == q.last(),
        r.len() == p.len() + q.len() - 1,
{
    let r = p + q.subrange(1, q.len() as int);
    let m = p.len() as int;
    assert forall|k: int| 0 <= k < r.len() - 1 implies adjacent(g, #[trigger] r[k], r[k + 1]) by {
        if k < m - 1 {
            assert(adjacent(g, p[k], p[k + 1]));
        } else if k == m - 1 {
            assert(adjacent(g, q[0], q[1]));
        } else {
            assert(adjacent(g, q[k - m + 1], q[k - m + 2]));
        }
    }
    assert forall|k: int| 1 <= k < r.len() implies walkable(g.tiles@[#[trigger] r[k]]) by {
        if k < m {
            assert(walkable(g.tiles@[p[k]]));
        } else {
            assert(walkable(g.tiles@[q[k - m + 1]]));
        }
    }
    assert forall|k: int| 0 <= k < r.len() implies 0 <= #[trigger] r[k] < g.tiles@.len() by {
        if k < m {
            assert(0 <= p[k] < g.tiles@.len());
        } else {
            assert(0 <= q[k - m + 1] < g.tiles@.len());
        }
    }
    r
}

/// Reachability within a step count runs both ways from an enterable cell.
pub proof fn lemma_reachable_symmetric(g: &Grid, a: int, b: int, n: int)
    requires
        g.wf(),
        reachable_within(g, a, b, n),
        walkable(g.tiles@[a]),
    ensures
        reachable_within(g, b, a, n),
{
    let p = choose|p: Seq<int>| #![trigger is_route(g, p), p.len()] is_route(g, p) && p[0] == a && p.last() == b && p.len() <= n + 1;
    let q = lemma_route_reversed(g, p);
    assert(is_route(g, q) && q[0] == b && q.last() == a && q.len() <= n + 1);
}

/// Connection runs both ways from an enterable cell.
pub proof fn lemma_connected_symmetric(g: &Grid, a: int, b: int)
    requires
        g.wf(),
        connected(g, a, b),
        walkable(g.tiles@[a]),
    ensures
        connected(g, b, a),
{
    let p = choose|p: Seq<int>| #![trigger is_route(g, p)] is_route(g, p) && p[0] == a && p.last() == b;
    let q = lemma_route_reversed(g, p);
    assert(is_route(g, q) && q[0] == b && q.last() == a);
}

/// Connection is transitive.
pub proof fn lemma_connected_trans(g: &Grid, a: int, b: int, c: int)
    requires
        connected(g, a, b),
        connected(g, b, c),
    ensures
        connected(g, a, c),
{
    let p = choose|p: Seq<int>| #![trigger is_route(g, p)] is_route(g, p) && p[0] == a && p.last() == b;
    let q = choose|q: Seq<int>| #![trigger is_route(g, q)] is_route(g, q) && q[0] == b && q.last() == c;
    let r = lemma_route_joined(g, p, q);
    assert(is_route(g, r) && r[0] == a && r.last() == c);
}

/// Every cell is connected to itself.
pub proof fn lemma_connected_refl(g: &Grid, a: int)
    requires
        0 <= a < g.tiles@.len(),
    ensures
        connected(g, a, a),
{
    let p = seq![a];
    assert(is_route(g, p) && p[0] == a && p.last() == a);
}

/// A distance field misses nothing within its cutoff: the end of a route of `n` steps from
/// a source lies at distance at most `n`.
pub proof fn lemma_field_complete(g: &Grid, sources: Seq<usize>, cutoff: int, r: Seq<Option<usize>>, p: Seq<int>)
    requires
        g.wf(),
        is_distance_field(g, sources, cutoff, r),
        is_route(g, p),
        sources.contains(p[0] as usize),
        0 <= p[0],
        p.len() - 1 <= cutoff,
    ensures
        r[p.last()] is Some,
        r[p.last()]->Some_0 <= p.len() - 1,
    decreases p.len(),
{
    assert(0 <= p[0] < g.tiles@.len());
    if p.len() == 1 {
        let k = choose|k: int| 0 <= k < sources.len() && sources[k] == p[0] as usize;
        assert(r[sources[k] as int] == Some(0usize));
    } else {
        let q = p.drop_last();
        assert(is_route(g, q)) by {
            assert forall|k: int| 0 <= k < q.len() - 1 implies adjacent(g, #[trigger] q[k], q[k + 1]) by {
                assert(adjacent(g, p[k], p[k + 1]));
            }
            assert forall|k: int| 1 <= k < q.len() implies walkable(g.tiles@[#[trigger] q[k]]) by {
                assert(walkable(g.tiles@[p[k]]));
            }
            assert forall|k: int| 0 <= k < q.len() implies 0 <= #[trigger] q[k] < g.tiles@.len() by {
                assert(0 <= p[k] < g.tiles@.len());
            }
        }
        lemma_field_complete(g, sources, cutoff, r, q);
        let i = q.last();
        let m = p.last();
        assert(adjacent(g, p[p.len() - 2], p[p.len() - 1]));
        assert(walkable(g.tiles@[p[p.len() - 1]]));
        assert(0 <= i < r.len());
        assert(r[i] is Some && r[i]->Some_0 < cutoff && adjacent(g, i, m) && walkable(g.tiles@[m]));
        assert(r[m] is Some && r[m]->Some_0 <= r[i]->Some_0 + 1);
    }
}

/// A cell within `cutoff` steps of the single source `s` gets a distance.
pub proof fn lemma_reachable_has_distance(g: &Grid, s: usize, cutoff: int, r: Seq<Option<usize>>, i: int)
    requires
        g.wf(),
        is_distance_field(g, seq![s], cutoff, r),
        reachable_within(g, s as int, i, cutoff),
    ensures
        r[i] is Some,
        r[i]->Some_0 <= cutoff,
{
    let p = choose|p: Seq<int>| #![trigger is_route(g, p), p.len()] is_route(g, p) && p[0] == s as int && p.last() == i && p.len() <= cutoff + 1;
    assert(seq![s][0] == s);
    assert(seq![s].contains(p[0] as usize));
    lemma_field_complete(g, seq![s], cutoff, r, p);
}

/// Grids of one shape whose cells can be entered at the same places.
pub open spec fn same_walkable(g: &Grid, h: &Grid) -> bool {
    &&& h.width == g.width
    &&& h.height == g.height
    &&& h.tiles@.len() == g.tiles@.len()
    &&& forall|i: int| 0 <= i < g.tiles@.len() ==> walkable(#[trigger] h.tiles@[i]) == walkable(g.tiles@[i])
}

/// A distance field depends on where cells can be entered, not on their kind.
pub proof fn lemma_field_same_walkable(g: &Grid, h: &Grid, sources: Seq<usize>, cutoff: int, r: Seq<Option<usize>>)
    requires
        g.wf(),
        same_walkable(g, h),
        is_distance_field(g, sources, cutoff, r),
    ensures
        is_distance_field(h, sources, cutoff, r),
{
    assert forall|i: int| 0 <= i < r.len() && #[trigger] r[i] is Some implies exists|p: Seq<int>| traces(h, sources, r, i, p) by {
        let p = choose|p: Seq<int>| traces(g, sources, r, i, p);
        assert forall|k: int| 1 <= k < p.len() implies walkable(h.tiles@[#[trigger] p[k]]) by {
            assert(walkable(g.tiles@[p[k]]));
            assert(0 <= p[k] < g.tiles@.len());
        }
        lemma_route_transfer(g, h, p);
        assert(traces(h, sources, r, i, p));
    }
    assert forall|i: int, m: int|
        #![trigger r[i], r[m]]
        0 <= i < r.len() && r[i] is Some && r[i]->Some_0 < cutoff && adjacent(h, i, m)
            && walkable(h.tiles@[m]) implies r[m] is Some && r[m]->Some_0 <= r[i]->Some_0 + 1 by {
        assert(adjacent(g, i, m));
        assert(walkable(g.tiles@[m]));
    }
}

/// Reachability survives a change that keeps every enterable cell enterable.
pub proof fn lemma_reachable_kept(g: &Grid, h: &Grid, a: int, b: int, n: int)
    requires
        reachable_within(g, a, b, n),
        h.width == g.width,
        h.tiles@.len() == g.tiles@.len(),
        forall|i: int| 0 <= i < g.tiles@.len() && walkable(g.tiles@[i]) ==> walkable(#[trigger] h.tiles@[i]),
    ensures
        reachable_within(h, a, b, n),
{
    let p = choose|p: Seq<int>| #![trigger is_route(g, p), p.len()] is_route(g, p) && p[0] == a && p.last() == b && p.len() <= n + 1;
    assert forall|k: int| 1 <= k < p.len() implies walkable(h.tiles@[#[trigger] p[k]]) by {
        assert(walkable(g.tiles@[p[k]]));
        assert(0 <= p[k] < g.tiles@.len());
    }
    lemma_route_transfer(g, h, p);
    assert(is_route(h, p) && p[0] == a && p.last() == b && p.len() <= n + 1);
}

/// Connection survives a change that keeps every enterable cell enterable.
pub proof fn lemma_connected_kept_walkable(g: &Grid, h: &Grid, a: int, b: int)
    requires
        connected(g, a, b),
        h.width == g.width,
        h.tiles@.len() == g.tiles@.len(),
        forall|i: int| 0 <= i < g.tiles@.len() && walkable(g.tiles@[i]) ==> walkable(#[trigger] h.tiles@[i]),
    ensures
        connected(h, a, b),
{
    let p = choose|p: Seq<int>| #![trigger is_route(g, p)] is_route(g, p) && p[0] == a && p.last() == b;
    assert forall|k: int| 1 <= k < p.len() implies walkable(h.tiles@[#[trigger] p[k]]) by {
        assert(walkable(g.tiles@[p[k]]));
        assert(0 <= p[k] < g.tiles@.len());
    }
    lemma_route_transfer(g, h, p);
    assert(is_route(h, p) && p[0] == a && p.last() == b);
}

} // verus!
