//! Generic search over a finite state graph.
//!
//! A graph is an adjacency list: state `u` steps to `adj[u][j].0` at cost
//! `adj[u][j].1`.  `connects` is the cost-indexed reachability relation that
//! the contracts speak of: `connects(g, s, v, c, k)` says some walk of at
//! most `k` steps goes from `s` to `v` and its edge costs sum to `c`.
//!
//! `bfs_reachable` computes exactly the set of reachable states, and
//! `dijkstra` the exact least walk cost to every state, stated and proved
//! as: the reported cost is the cost of some walk, and no walk costs less.

use vstd::prelude::*;

verus! {

/// The states and edges of an adjacency-list graph, as one mathematical value.
pub open spec fn graph_view(adj: Vec<Vec<(usize, u64)>>) -> Seq<Seq<(usize, u64)>> {
    adj@.map_values(|r: Vec<(usize, u64)>| r@)
}

/// A well-formed graph: every edge target is a state.
pub open spec fn wf_graph(g: Seq<Seq<(usize, u64)>>) -> bool {
    forall|u: int, j: int|
        0 <= u < g.len() && 0 <= j < g[u].len() ==> (#[trigger] g[u][j]).0 < g.len()
}

/// No edge costs more than `wmax`.
pub open spec fn costs_bounded(g: Seq<Seq<(usize, u64)>>, wmax: int) -> bool {
    forall|u: int, j: int|
        0 <= u < g.len() && 0 <= j < g[u].len() ==> (#[trigger] g[u][j]).1 <= wmax
}

/// There is an edge from `u` to `v` of cost `w`.
pub open spec fn has_edge(g: Seq<Seq<(usize, u64)>>, u: int, v: int, w: int) -> bool {
    exists|j: int|
        0 <= j < g[u].len() && (#[trigger] g[u][j]).0 == v && g[u][j].1 == w
}

/// Some walk of at most `k` steps goes from `s` to `v` and costs `c`.
pub open spec fn connects(g: Seq<Seq<(usize, u64)>>, s: int, v: int, c: int, k: nat) -> bool
    decreases k,
{
    (s == v && c == 0) || (k > 0 && exists|m: int, w: int|
        0 <= m < g.len() && #[trigger] has_edge(g, m, v, w) && connects(
            g,
            s,
            m,
            c - w,
            (k - 1) as nat,
        ))
}

/// `v` can be reached from `s`.
pub open spec fn reachable(g: Seq<Seq<(usize, u64)>>, s: int, v: int) -> bool {
    exists|c: int, k: nat| connects(g, s, v, c, k)
}

/// A walk still connects under any larger step bound.
pub proof fn lemma_connects_mono(g: Seq<Seq<(usize, u64)>>, s: int, v: int, c: int, k: nat, k2: nat)
    requires
        connects(g, s, v, c, k),
        k <= k2,
    ensures
        connects(g, s, v, c, k2),
    decreases k,
{
    if !(s == v && c == 0) {
        let (m, w) = choose|m: int, w: int|
            0 <= m < g.len() && #[trigger] has_edge(g, m, v, w) && connects(
                g,
                s,
                m,
                c - w,
                (k - 1) as nat,
            );
        lemma_connects_mono(g, s, m, c - w, (k - 1) as nat, (k2 - 1) as nat);
    }
}

/// Appending an edge to a walk yields a walk.
pub proof fn lemma_connects_step(
    g: Seq<Seq<(usize, u64)>>,
    s: int,
    m: int,
    c: int,
    k: nat,
    v: int,
    w: int,
)
    requires
        connects(g, s, m, c, k),
        0 <= m < g.len(),
        has_edge(g, m, v, w),
    ensures
        connects(g, s, v, c + w, k + 1),
{
    assert(connects(g, s, m, (c + w) - w, k));
}

/// How many entries of `s` are true.
pub open spec fn count_true(s: Seq<bool>) -> int
    decreases s.len(),
{
    if s.len() == 0 {
        0
    } else {
        count_true(s.drop_last()) + if s.last() {
            1int
        } else {
            0int
        }
    }
}

pub proof fn lemma_count_true_bounds(s: Seq<bool>)
    ensures
        0 <= count_true(s) <= s.len(),
    decreases s.len(),
{
    if s.len() > 0 {
        lemma_count_true_bounds(s.drop_last());
    }
}

/// Turning one false entry true raises the count by one.
pub proof fn lemma_count_true_set(s: Seq<bool>, i: int)
    requires
        0 <= i < s.len(),
        !s[i],
    ensures
        count_true(s.update(i, true)) == count_true(s) + 1,
    decreases s.len(),
{
    let t = s.update(i, true);
    if i == s.len() - 1 {
        assert(t.drop_last() =~= s.drop_last());
    } else {
        assert(t.drop_last() =~= s.drop_last().update(i, true));
        lemma_count_true_set(s.drop_last(), i);
        assert(t.last() == s.last());
    }
}

/// The set of states marked true in `s`.
pub open spec fn true_set(s: Seq<bool>) -> Set<int> {
    Set::new(|v: int| 0 <= v < s.len() && s[v])
}

/// `count_true` counts exactly the members of `true_set`.
pub proof fn lemma_count_true_is_card(s: Seq<bool>)
    ensures
        true_set(s).finite(),
        true_set(s).len() == count_true(s),
    decreases s.len(),
{
    if s.len() == 0 {
        assert(true_set(s) =~= Set::<int>::empty());
    } else {
        lemma_count_true_is_card(s.drop_last());
        let prev = true_set(s.drop_last());
        if s.last() {
            assert(true_set(s) =~= prev.insert(s.len() - 1));
            assert(!prev.contains(s.len() - 1));
        } else {
            assert(true_set(s) =~= prev);
        }
    }
}

/// Once every marked state's successors are marked, every state a walk
/// reaches from a marked start is marked.
proof fn lemma_closed_reach(
    g: Seq<Seq<(usize, u64)>>,
    s: int,
    visited: Seq<bool>,
    v: int,
    c: int,
    k: nat,
)
    requires
        wf_graph(g),
        visited.len() == g.len(),
        0 <= s < g.len(),
        visited[s],
        forall|x: int, j: int|
            0 <= x < g.len() && visited[x] && 0 <= j < g[x].len() ==> visited[(
            #[trigger] g[x][j]).0 as int],
        connects(g, s, v, c, k),
        0 <= v < g.len(),
    ensures
        visited[v],
    decreases k,
{
    if !(s == v && c == 0) {
        let (m, w) = choose|m: int, w: int|
            0 <= m < g.len() && #[trigger] has_edge(g, m, v, w) && connects(
                g,
                s,
                m,
                c - w,
                (k - 1) as nat,
            );
        lemma_closed_reach(g, s, visited, m, c - w, (k - 1) as nat);
        let j = choose|j: int|
            0 <= j < g[m].len() && (#[trigger] g[m][j]).0 == v && g[m][j].1 == w;
        assert(visited[g[m][j].0 as int]);
    }
}

/// Mark every state reachable from `start`: a state is marked if and only
/// if some walk reaches it.
pub fn bfs_reachable(adj: &Vec<Vec<(usize, u64)>>, start: usize) -> (visited: Vec<bool>)
    requires
        wf_graph(graph_view(*adj)),
        start < adj@.len(),
    ensures
        visited@.len() == adj@.len(),
        forall|v: int|
            0 <= v < adj@.len() ==> (visited@[v] <==> reachable(
                graph_view(*adj),
                start as int,
                v,
            )),
        bfs_post(graph_view(*adj), start as int, visited@),
{
    let ghost g = graph_view(*adj);
    let n = adj.len();
    let mut visited: Vec<bool> = Vec::new();
    let mut z: usize = 0;
    while z < n
        invariant
            visited@.len() == z <= n,
            forall|t: int| 0 <= t < z ==> !visited@[t],
        decreases n - z,
    {
        visited.push(false);
        z += 1;
    }
    let mut queue: Vec<usize> = Vec::new();
    let mut head: usize = 0;
    visited.set(start, true);
    queue.push(start);
    proof {
        assert(connects(g, start as int, start as int, 0, 0));
        assert(queue@[0] == start);
        assert forall|v: int| 0 <= v < n && visited@[v] implies (exists|t: int|
            0 <= t < queue@.len() && queue@[t] == v) by {
            assert(v == start);
            assert(queue@[0] == v);
        }
    }
    while head < queue.len()
        invariant
            g == graph_view(*adj),
            wf_graph(g),
            n == adj@.len(),
            g.len() == n,
            start < n,
            visited@.len() == n,
            head <= queue@.len(),
            visited@[start as int],
            forall|t: int| 0 <= t < queue@.len() ==> #[trigger] queue@[t] < n && visited@[queue@[t] as int],
            forall|v: int| 0 <= v < n && visited@[v] ==> reachable(g, start as int, v),
            forall|v: int|
                0 <= v < n && visited@[v] ==> (exists|t: int|
                    head <= t < queue@.len() && queue@[t] == v) || (forall|j: int|
                    0 <= j < g[v].len() ==> visited@[(#[trigger] g[v][j]).0 as int]),
        decreases n - count_true(visited@), queue@.len() - head,
    {
        let u = queue[head];
        head += 1;
        let edges = adj[u].len();
        let mut j: usize = 0;
        let ghost visited_before = visited@;
        let ghost queue_before = queue@;
        while j < edges
            invariant
                g == graph_view(*adj),
                wf_graph(g),
                n == adj@.len(),
                g.len() == n,
                start < n,
                u < n,
                edges == g[u as int].len(),
                visited@.len() == n,
                head <= queue@.len(),
                visited@[start as int],
                visited@[u as int],
                0 <= j <= edges,
                // growth: everything marked before stays marked
                forall|v: int| 0 <= v < n && visited_before[v] ==> visited@[v],
                count_true(visited_before) <= count_true(visited@),
                // the first j successors of u are marked
                forall|t: int| 0 <= t < j ==> visited@[(#[trigger] g[u as int][t]).0 as int],
                // every newly marked state went on the queue's tail
                forall|v: int|
                    0 <= v < n && visited@[v] && !visited_before[v] ==> exists|t: int|
                        head <= t < queue@.len() && queue@[t] == v,
                // queue soundness
                forall|t: int| 0 <= t < queue@.len() ==> #[trigger] queue@[t] < n && visited@[queue@[t] as int],
                forall|v: int| 0 <= v < n && visited@[v] ==> reachable(g, start as int, v),
                // the pending-or-closed invariant, with u excused
                forall|v: int|
                    0 <= v < n && visited@[v] && v != u ==> (exists|t: int|
                        head <= t < queue@.len() && queue@[t] == v) || (forall|jj: int|
                        0 <= jj < g[v].len() ==> visited@[(#[trigger] g[v][jj]).0 as int]),
                // if nothing new was marked the queue did not grow
                count_true(visited@) == count_true(visited_before) ==> queue@.len()
                    == queue_before.len(),
            decreases edges - j,
        {
            let ghost qprev = queue@;
            let ghost vprev = visited@;
            let (v, _w) = adj[u][j];
            if !visited[v] {
                proof {
                    lemma_count_true_set(visited@, v as int);
                    let (c0, k0) = choose|c0: int, k0: nat| connects(g, start as int, u as int, c0, k0);
                    let w0 = g[u as int][j as int].1;
                    assert(has_edge(g, u as int, v as int, w0 as int));
                    lemma_connects_step(g, start as int, u as int, c0, k0, v as int, w0 as int);
                }
                visited.set(v, true);
                queue.push(v);
            }
            proof {
                assert forall|v2: int|
                    0 <= v2 < n && visited@[v2] && !visited_before[v2] implies (exists|t: int|
                    head <= t < queue@.len() && queue@[t] == v2) by {
                    if vprev[v2] {
                        let t = choose|t: int| head <= t < qprev.len() && qprev[t] == v2;
                        assert(queue@[t] == v2);
                    } else {
                        assert(queue@[queue@.len() - 1] == v2);
                    }
                }
                assert forall|v2: int|
                    0 <= v2 < n && visited@[v2] && v2 != u && !(forall|jj: int|
                        0 <= jj < g[v2].len() ==> visited@[(#[trigger] g[v2][jj]).0 as int])
                    implies (exists|t: int| head <= t < queue@.len() && queue@[t] == v2) by {
                    if vprev[v2] {
                        if exists|t: int| head <= t < qprev.len() && qprev[t] == v2 {
                            let t = choose|t: int| head <= t < qprev.len() && qprev[t] == v2;
                            assert(queue@[t] == v2);
                        } else {
                            assert(forall|jj: int|
                                0 <= jj < g[v2].len() ==> vprev[(#[trigger] g[v2][jj]).0 as int]);
                            assert forall|jj: int|
                                0 <= jj < g[v2].len() implies visited@[(
                            #[trigger] g[v2][jj]).0 as int] by {
                                assert(vprev[g[v2][jj].0 as int]);
                            }
                        }
                    } else {
                        assert(queue@[queue@.len() - 1] == v2);
                    }
                }
            }
            j += 1;
        }
        proof {
            if count_true(visited@) == count_true(visited_before) {
                assert(queue@.len() == queue_before.len());
            }
            lemma_count_true_bounds(visited@);
        }
    }
    proof {
        assert forall|v: int|
            0 <= v < n && reachable(g, start as int, v) implies visited@[v] by {
            let (c, k) = choose|c: int, k: nat| connects(g, start as int, v, c, k);
            lemma_closed_reach(g, start as int, visited@, v, c, k);
        }
    }
    visited
}

/// What `dijkstra` establishes about its distance array: every reported
/// cost is the cost of some walk, no walk costs less, and a state without a
/// cost is not reachable at all.
pub open spec fn dijkstra_post(g: Seq<Seq<(usize, u64)>>, s: int, dist: Seq<Option<u64>>) -> bool {
    &&& dist.len() == g.len()
    &&& forall|v: int|
        0 <= v < g.len() && (#[trigger] dist[v]) is Some ==> exists|k: nat|
            connects(g, s, v, dist[v]->0 as int, k)
    &&& forall|v: int, c: int, k: nat|
        0 <= v < g.len() && dist[v] is Some && #[trigger] connects(g, s, v, c, k) ==> dist[v]->0
            <= c
    &&& forall|v: int| 0 <= v < g.len() && (#[trigger] dist[v]) is None ==> !reachable(g, s, v)
}

/// The working facts the main loop maintains.
spec fn dij_inv(g: Seq<Seq<(usize, u64)>>, s: int, dist: Seq<Option<u64>>, settled: Seq<bool>) -> bool {
    &&& wf_graph(g)
    &&& dist.len() == g.len()
    &&& settled.len() == g.len()
    &&& 0 <= s < g.len()
    &&& dist[s] == Some(0u64)
    &&& forall|v: int| 0 <= v < g.len() && settled[v] ==> (#[trigger] dist[v]) is Some
    &&& forall|v: int|
        0 <= v < g.len() && (#[trigger] dist[v]) is Some ==> exists|k: nat|
            connects(g, s, v, dist[v]->0 as int, k)
    &&& forall|v: int, c: int, k: nat|
        0 <= v < g.len() && settled[v] && #[trigger] connects(g, s, v, c, k) ==> dist[v]->0 <= c
    &&& forall|v: int, j: int|
        0 <= v < g.len() && settled[v] && 0 <= j < g[v].len() ==> {
            let e = #[trigger] g[v][j];
            dist[e.0 as int] is Some && dist[e.0 as int]->0 <= dist[v]->0 + e.1
        }
}

/// When `u` has the least tentative cost on the frontier, no walk reaches
/// any unsettled state for less.
proof fn lemma_frontier_min(
    g: Seq<Seq<(usize, u64)>>,
    s: int,
    dist: Seq<Option<u64>>,
    settled: Seq<bool>,
    u: int,
    x: int,
    c: int,
    k: nat,
)
    requires
        dij_inv(g, s, dist, settled),
        0 <= u < g.len(),
        !settled[u],
        dist[u] is Some,
        forall|v: int|
            0 <= v < g.len() && !settled[v] && (#[trigger] dist[v]) is Some ==> dist[u]->0
                <= dist[v]->0,
        0 <= x < g.len(),
        !settled[x],
        connects(g, s, x, c, k),
    ensures
        dist[u]->0 <= c,
    decreases k,
{
    if s == x && c == 0 {
        assert(dist[u]->0 <= dist[s]->0);
    } else {
        let (m, w) = choose|m: int, w: int|
            0 <= m < g.len() && #[trigger] has_edge(g, m, x, w) && connects(
                g,
                s,
                m,
                c - w,
                (k - 1) as nat,
            );
        let j = choose|j: int|
            0 <= j < g[m].len() && (#[trigger] g[m][j]).0 == x && g[m][j].1 == w;
        if settled[m] {
            assert(dist[m]->0 <= c - w);
            assert(dist[g[m][j].0 as int] is Some && dist[g[m][j].0 as int]->0 <= dist[m]->0
                + g[m][j].1);
            assert(dist[u]->0 <= dist[x]->0);
        } else {
            lemma_frontier_min(g, s, dist, settled, u, m, c - w, (k - 1) as nat);
        }
    }
}

/// Once every state with a cost is settled, every reachable state has one.
proof fn lemma_settled_closed(
    g: Seq<Seq<(usize, u64)>>,
    s: int,
    dist: Seq<Option<u64>>,
    settled: Seq<bool>,
    v: int,
    c: int,
    k: nat,
)
    requires
        dij_inv(g, s, dist, settled),
        forall|x: int| 0 <= x < g.len() && (#[trigger] dist[x]) is Some ==> settled[x],
        0 <= v < g.len(),
        connects(g, s, v, c, k),
    ensures
        dist[v] is Some,
    decreases k,
{
    if !(s == v && c == 0) {
        let (m, w) = choose|m: int, w: int|
            0 <= m < g.len() && #[trigger] has_edge(g, m, v, w) && connects(
                g,
                s,
                m,
                c - w,
                (k - 1) as nat,
            );
        lemma_settled_closed(g, s, dist, settled, m, c - w, (k - 1) as nat);
        let j = choose|j: int|
            0 <= j < g[m].len() && (#[trigger] g[m][j]).0 == v && g[m][j].1 == w;
        assert(dist[g[m][j].0 as int] is Some);
    }
}

/// Least-cost search: the returned array gives, for every state, the exact
/// least cost of a walk from `start`, and `None` exactly for the states no
/// walk reaches.  `wmax` bounds the edge costs so that no sum overflows.
pub fn dijkstra(adj: &Vec<Vec<(usize, u64)>>, start: usize, wmax: u64) -> (dist: Vec<Option<u64>>)
    requires
        wf_graph(graph_view(*adj)),
        costs_bounded(graph_view(*adj), wmax as int),
        start < adj@.len(),
        adj@.len() * wmax <= u64::MAX,
    ensures
        dijkstra_post(graph_view(*adj), start as int, dist@),
        dist@[start as int] == Some(0u64),
        forall|v: int|
            0 <= v < adj@.len() && (#[trigger] dist@[v]) is Some ==> dist@[v]->0 <= adj@.len()
                * wmax,
{
    let ghost g = graph_view(*adj);
    let n = adj.len();
    let mut dist: Vec<Option<u64>> = Vec::new();
    let mut settled: Vec<bool> = Vec::new();
    let mut z: usize = 0;
    while z < n
        invariant
            dist@.len() == z <= n,
            settled@.len() == z,
            forall|t: int| 0 <= t < z ==> (#[trigger] dist@[t]) is None,
            forall|t: int| 0 <= t < z ==> !settled@[t],
        decreases n - z,
    {
        dist.push(None);
        settled.push(false);
        z += 1;
    }
    dist.set(start, Some(0u64));
    proof {
        assert(connects(g, start as int, start as int, 0, 0));
        lemma_count_true_bounds(settled@);
        assert(count_true(settled@) == 0) by {
            lemma_count_true_is_card(settled@);
            assert(true_set(settled@) =~= Set::<int>::empty());
        }
        assert forall|v: int|
            0 <= v < g.len() && (#[trigger] dist@[v]) is Some implies exists|k: nat|
            connects(g, start as int, v, dist@[v]->0 as int, k) by {
            assert(v == start as int);
            assert(dist@[v]->0 == 0);
            assert(connects(g, start as int, v, dist@[v]->0 as int, 0nat));
        }
    }
    loop
        invariant
            g == graph_view(*adj),
            n == adj@.len(),
            g.len() == n,
            costs_bounded(g, wmax as int),
            n * wmax <= u64::MAX,
            dij_inv(g, start as int, dist@, settled@),
            0 <= count_true(settled@) <= n,
            forall|v: int|
                0 <= v < n && (#[trigger] dist@[v]) is Some ==> dist@[v]->0 <= count_true(
                    settled@,
                ) * wmax,
        ensures
            g == graph_view(*adj),
            n == adj@.len(),
            dij_inv(g, start as int, dist@, settled@),
            forall|x: int| 0 <= x < n && (#[trigger] dist@[x]) is Some ==> settled@[x],
            0 <= count_true(settled@) <= n,
            forall|v: int|
                0 <= v < n && (#[trigger] dist@[v]) is Some ==> dist@[v]->0 <= count_true(
                    settled@,
                ) * wmax,
        decreases n - count_true(settled@),
    {
        let mut best: usize = n;
        let mut bd: u64 = 0;
        let mut i: usize = 0;
        while i < n
            invariant
                0 <= i <= n,
                best <= n,
                n == dist@.len(),
                n == settled@.len(),
                best == n ==> forall|v: int|
                    0 <= v < i ==> !(!settled@[v] && (#[trigger] dist@[v]) is Some),
                best < n ==> !settled@[best as int] && dist@[best as int] is Some && bd
                    == dist@[best as int]->0,
                best < n ==> forall|v: int|
                    0 <= v < i && !settled@[v] && (#[trigger] dist@[v]) is Some ==> bd
                        <= dist@[v]->0,
            decreases n - i,
        {
            let ghost best0 = best;
            let ghost bd0 = bd;
            if !settled[i] {
                match dist[i] {
                    Some(d) => {
                        if best == n || d < bd {
                            best = i;
                            bd = d;
                        }
                    },
                    None => {},
                }
            }
            proof {
                if best < n {
                    assert forall|v: int|
                        0 <= v < i + 1 && !settled@[v] && (#[trigger] dist@[v]) is Some
                        implies bd <= dist@[v]->0 by {
                        if v < i as int && best0 < n {
                            assert(bd0 <= dist@[v]->0);
                        }
                    }
                }
            }
            i += 1;
        }
        if best == n {
            proof {
                assert forall|x: int|
                    0 <= x < n && (#[trigger] dist@[x]) is Some implies settled@[x] by {}
            }
            break;
        }
        let u = best;
        let ghost cnt0 = count_true(settled@);
        let ghost settled_before = settled@;
        proof {
            lemma_count_true_set(settled@, u as int);
        }
        settled.set(u, true);
        proof {
            lemma_count_true_bounds(settled@);
            assert(count_true(settled@) == cnt0 + 1);
            // the settled state now satisfies minimality
            assert forall|c: int, k: nat| #[trigger] connects(g, start as int, u as int, c, k)
                implies dist@[u as int]->0 <= c by {
                lemma_frontier_min(
                    g,
                    start as int,
                    dist@,
                    settled_before,
                    u as int,
                    u as int,
                    c,
                    k,
                );
            }
            // settling keeps the other invariant pieces
            assert(dij_inv_except(g, start as int, dist@, settled@, u as int, 0)) by {
                assert forall|v: int, c: int, k: nat|
                    0 <= v < g.len() && settled@[v] && #[trigger] connects(g, start as int, v, c, k)
                    implies dist@[v]->0 <= c by {
                    if v != u as int {
                        assert(settled_before[v]);
                    }
                }
                assert forall|v: int, jj: int|
                    0 <= v < g.len() && settled@[v] && 0 <= jj < g[v].len() && (v != u as int
                        || jj < 0) implies {
                    let e = #[trigger] g[v][jj];
                    dist@[e.0 as int] is Some && dist@[e.0 as int]->0 <= dist@[v]->0 + e.1
                } by {
                    assert(settled_before[v]);
                }
            }
            // the stored costs still fit under the larger settled count
            assert forall|v: int|
                0 <= v < n && (#[trigger] dist@[v]) is Some implies dist@[v]->0 <= count_true(
                    settled@,
                ) * wmax by {
                assert(dist@[v]->0 <= cnt0 * wmax);
                assert(cnt0 * wmax <= (cnt0 + 1) * wmax) by (nonlinear_arith)
                    requires
                        wmax >= 0,
                        cnt0 >= 0,
                ;
            }
        }
        let du = match dist[u] {
            Some(d) => d,
            None => 0,  // unreachable: u came from the frontier
        };
        let edges = adj[u].len();
        let mut j: usize = 0;
        while j < edges
            invariant
                g == graph_view(*adj),
                n == adj@.len(),
                g.len() == n,
                costs_bounded(g, wmax as int),
                n * wmax <= u64::MAX,
                u < n,
                settled@[u as int],
                dist@[u as int] == Some(du),
                du <= cnt0 * wmax,
                cnt0 == count_true(settled@) - 1,
                0 <= cnt0 < n,
                edges == g[u as int].len(),
                0 <= j <= edges,
                dij_inv_except(g, start as int, dist@, settled@, u as int, j as int),
                forall|v: int|
                    0 <= v < n && (#[trigger] dist@[v]) is Some ==> dist@[v]->0 <= count_true(
                        settled@,
                    ) * wmax,
            decreases edges - j,
        {
            let (v, w) = adj[u][j];
            proof {
                assert(g[u as int][j as int] == (v, w));
                assert(w <= wmax);
                assert(du + w <= cnt0 * wmax + wmax);
                assert(cnt0 * wmax + wmax == (cnt0 + 1) * wmax) by (nonlinear_arith);
                assert((cnt0 + 1) * wmax <= n * wmax) by (nonlinear_arith)
                    requires
                        0 <= cnt0 + 1 <= n,
                        wmax >= 0,
                ;
            }
            let nd = du + w;
            proof {
                assert(dist@[u as int] is Some && dist@[u as int]->0 == du);
                assert(has_edge(g, u as int, v as int, w as int));
            }
            let needs_update = if settled[v] {
                false
            } else {
                match dist[v] {
                    Some(dv) => dv > nd,
                    None => true,
                }
            };
            let ghost dist_old = dist@;
            if needs_update {
                dist.set(v, Some(nd));
                proof {
                    // soundness witness for the new cost
                    assert forall|x: int|
                        0 <= x < n && (#[trigger] dist@[x]) is Some implies exists|k: nat|
                        connects(g, start as int, x, dist@[x]->0 as int, k) by {
                        if x == v as int {
                            assert(dist_old[u as int] is Some);
                            let k0 = choose|k0: nat|
                                connects(
                                    g,
                                    start as int,
                                    u as int,
                                    dist_old[u as int]->0 as int,
                                    k0,
                                );
                            lemma_connects_step(
                                g,
                                start as int,
                                u as int,
                                du as int,
                                k0,
                                v as int,
                                w as int,
                            );
                            assert(dist@[x]->0 == du + w);
                        } else {
                            assert(dist_old[x] == dist@[x]);
                        }
                    }
                    // the stored costs still fit
                    assert forall|x: int|
                        0 <= x < n && (#[trigger] dist@[x]) is Some implies dist@[x]->0
                        <= count_true(settled@) * wmax by {
                        if x == v as int {
                            assert(nd <= (cnt0 + 1) * wmax);
                        } else {
                            assert(dist_old[x] == dist@[x]);
                        }
                    }
                }
            }
            proof {
                // every settled state's already-processed edges stay relaxed,
                // and edge `j` of `u` is relaxed now
                assert forall|v2: int, jj: int|
                    0 <= v2 < g.len() && settled@[v2] && 0 <= jj < g[v2].len() && (v2 != u as int
                        || jj < j + 1) implies {
                    let e = #[trigger] g[v2][jj];
                    dist@[e.0 as int] is Some && dist@[e.0 as int]->0 <= dist@[v2]->0 + e.1
                } by {
                    let e = g[v2][jj];
                    assert(dist_old[v2] == dist@[v2]);
                    if v2 == u as int && jj == j as int {
                        if needs_update {
                            assert(dist@[e.0 as int] == Some(nd));
                        } else {
                            if settled@[v as int] {
                                assert(dist_old[u as int] is Some);
                                let k0 = choose|k0: nat|
                                    connects(
                                        g,
                                        start as int,
                                        u as int,
                                        dist_old[u as int]->0 as int,
                                        k0,
                                    );
                                lemma_connects_step(
                                    g,
                                    start as int,
                                    u as int,
                                    du as int,
                                    k0,
                                    v as int,
                                    w as int,
                                );
                                assert(connects(g, start as int, v as int, du + w, k0 + 1));
                                assert(dist@[v as int]->0 <= du + w);
                            } else {
                                assert(dist@[v as int] is Some && dist@[v as int]->0 <= nd);
                            }
                        }
                    } else {
                        // this edge was already relaxed; its target's cost
                        // only ever shrinks
                        assert(dist_old[e.0 as int] is Some && dist_old[e.0 as int]->0
                            <= dist_old[v2]->0 + e.1);
                        if needs_update && e.0 as int == v as int {
                            assert(dist@[e.0 as int] == Some(nd));
                            assert(nd <= dist_old[e.0 as int]->0);
                        } else {
                            assert(dist_old[e.0 as int] == dist@[e.0 as int]);
                        }
                    }
                }
            }
            j += 1;
        }
        proof {
            assert(dij_inv(g, start as int, dist@, settled@)) by {
                assert forall|v: int, jj: int|
                    0 <= v < g.len() && settled@[v] && 0 <= jj < g[v].len() implies {
                    let e = #[trigger] g[v][jj];
                    dist@[e.0 as int] is Some && dist@[e.0 as int]->0 <= dist@[v]->0 + e.1
                } by {}
            }
        }
    }
    proof {
        assert forall|v: int|
            0 <= v < n && (#[trigger] dist@[v]) is None implies !reachable(
            g,
            start as int,
            v,
        ) by {
            if reachable(g, start as int, v) {
                let (c, k) = choose|c: int, k: nat| connects(g, start as int, v, c, k);
                lemma_settled_closed(g, start as int, dist@, settled@, v, c, k);
            }
        }
        assert forall|v: int|
            0 <= v < n && (#[trigger] dist@[v]) is Some implies dist@[v]->0 <= (n as int) * (
        wmax as int) by {
            assert(count_true(settled@) * (wmax as int) <= (n as int) * (wmax as int))
                by (nonlinear_arith)
                requires
                    0 <= count_true(settled@) <= n as int,
                    wmax >= 0,
            ;
        }
    }
    dist
}

/// The invariant during relaxation: all of `dij_inv` except that state `u`
/// vouches only for its first `j` edges.
spec fn dij_inv_except(
    g: Seq<Seq<(usize, u64)>>,
    s: int,
    dist: Seq<Option<u64>>,
    settled: Seq<bool>,
    u: int,
    j: int,
) -> bool {
    &&& wf_graph(g)
    &&& dist.len() == g.len()
    &&& settled.len() == g.len()
    &&& 0 <= s < g.len()
    &&& dist[s] == Some(0u64)
    &&& forall|v: int| 0 <= v < g.len() && settled[v] ==> (#[trigger] dist[v]) is Some
    &&& forall|v: int|
        0 <= v < g.len() && (#[trigger] dist[v]) is Some ==> exists|k: nat|
            connects(g, s, v, dist[v]->0 as int, k)
    &&& forall|v: int, c: int, k: nat|
        0 <= v < g.len() && settled[v] && #[trigger] connects(g, s, v, c, k) ==> dist[v]->0 <= c
    &&& forall|v: int, jj: int|
        0 <= v < g.len() && settled[v] && 0 <= jj < g[v].len() && (v != u || jj < j) ==> {
            let e = #[trigger] g[v][jj];
            dist[e.0 as int] is Some && dist[e.0 as int]->0 <= dist[v]->0 + e.1
        }
}

/// The set of states reachable from `s`.
pub open spec fn reachable_set(g: Seq<Seq<(usize, u64)>>, s: int) -> Set<int> {
    Set::new(|v: int| 0 <= v < g.len() && reachable(g, s, v))
}

/// Count the states reachable from `start`: exactly the size of the set of
/// distinct reachable states.
pub fn bfs_reachable_count(adj: &Vec<Vec<(usize, u64)>>, start: usize) -> (r: usize)
    requires
        wf_graph(graph_view(*adj)),
        start < adj@.len(),
    ensures
        reachable_set(graph_view(*adj), start as int).finite(),
        r == reachable_set(graph_view(*adj), start as int).len(),
{
    let ghost g = graph_view(*adj);
    let visited = bfs_reachable(adj, start);
    let mut count: usize = 0;
    let mut i: usize = 0;
    proof {
        assert(visited@.take(0) =~= Seq::<bool>::empty());
    }
    while i < visited.len()
        invariant
            0 <= i <= visited@.len(),
            count == count_true(visited@.take(i as int)),
            count <= i,
        decreases visited@.len() - i,
    {
        proof {
            assert(visited@.take(i + 1).drop_last() =~= visited@.take(i as int));
            assert(visited@.take(i + 1).last() == visited@[i as int]);
        }
        if visited[i] {
            count += 1;
        }
        i += 1;
    }
    proof {
        assert(visited@.take(visited@.len() as int) =~= visited@);
        lemma_count_true_is_card(visited@);
        assert(true_set(visited@) =~= reachable_set(g, start as int));
    }
    count
}

/// Two walks compose end to end.
pub proof fn lemma_connects_trans(
    g: Seq<Seq<(usize, u64)>>,
    s: int,
    m: int,
    v: int,
    c1: int,
    k1: nat,
    c2: int,
    k2: nat,
)
    requires
        connects(g, s, m, c1, k1),
        connects(g, m, v, c2, k2),
    ensures
        connects(g, s, v, c1 + c2, (k1 + k2) as nat),
    decreases k2,
{
    if m == v && c2 == 0 {
        lemma_connects_mono(g, s, v, c1, k1, (k1 + k2) as nat);
    } else {
        let (m2, w) = choose|m2: int, w: int|
            0 <= m2 < g.len() && #[trigger] has_edge(g, m2, v, w) && connects(
                g,
                m,
                m2,
                c2 - w,
                (k2 - 1) as nat,
            );
        lemma_connects_trans(g, s, m, m2, c1, k1, c2 - w, (k2 - 1) as nat);
        assert(connects(g, s, m2, (c1 + c2) - w, ((k1 + k2) as nat - 1) as nat));
    }
}

/// The triangle inequality for the least-cost search: the reported cost to
/// `v` never exceeds the summed cost of two walks that meet at `m`, one
/// from the start to `m` and one from `m` to `v`.
pub proof fn lemma_triangle_inequality(
    g: Seq<Seq<(usize, u64)>>,
    s: int,
    m: int,
    v: int,
    dist: Seq<Option<u64>>,
    c1: int,
    k1: nat,
    c2: int,
    k2: nat,
)
    requires
        dijkstra_post(g, s, dist),
        0 <= v < g.len(),
        connects(g, s, m, c1, k1),
        connects(g, m, v, c2, k2),
    ensures
        dist[v] is Some,
        dist[v]->0 <= c1 + c2,
{
    lemma_connects_trans(g, s, m, v, c1, k1, c2, k2);
    assert(connects(g, s, v, c1 + c2, (k1 + k2) as nat));
    if dist[v] is None {
        assert(reachable(g, s, v));
    }
}

/// The least-cost search is a function of the graph and the start state:
/// any two arrays that satisfy its contract are equal, so repeating the
/// same search on an unmodified graph yields identical results.
pub proof fn lemma_search_deterministic(
    g: Seq<Seq<(usize, u64)>>,
    s: int,
    d1: Seq<Option<u64>>,
    d2: Seq<Option<u64>>,
)
    requires
        dijkstra_post(g, s, d1),
        dijkstra_post(g, s, d2),
    ensures
        d1 =~= d2,
{
    assert forall|v: int| 0 <= v < g.len() implies d1[v] == d2[v] by {
        if d1[v] is Some && d2[v] is Some {
            let k1 = choose|k: nat| connects(g, s, v, d1[v]->0 as int, k);
            let k2 = choose|k: nat| connects(g, s, v, d2[v]->0 as int, k);
            assert(d1[v]->0 <= d2[v]->0);
            assert(d2[v]->0 <= d1[v]->0);
            assert(d1[v] == Some(d1[v]->0) && d2[v] == Some(d2[v]->0));
        } else if d1[v] is Some {
            let k1 = choose|k: nat| connects(g, s, v, d1[v]->0 as int, k);
            assert(reachable(g, s, v));
            assert(false);
        } else if d2[v] is Some {
            let k2 = choose|k: nat| connects(g, s, v, d2[v]->0 as int, k);
            assert(reachable(g, s, v));
            assert(false);
        }
    }
}

/// Every edge of `g1` stands in `g2` as well.
pub open spec fn subgraph(g1: Seq<Seq<(usize, u64)>>, g2: Seq<Seq<(usize, u64)>>) -> bool {
    &&& g1.len() == g2.len()
    &&& forall|u: int, v: int, w: int|
        0 <= u < g1.len() && #[trigger] has_edge(g1, u, v, w) ==> has_edge(g2, u, v, w)
}

/// A walk of a subgraph is a walk of the larger graph: removing edges
/// only ever cuts reachability.
pub proof fn lemma_subgraph_connects(
    g1: Seq<Seq<(usize, u64)>>,
    g2: Seq<Seq<(usize, u64)>>,
    s: int,
    v: int,
    c: int,
    k: nat,
)
    requires
        subgraph(g1, g2),
        connects(g1, s, v, c, k),
    ensures
        connects(g2, s, v, c, k),
    decreases k,
{
    if !(s == v && c == 0) {
        let (m, w) = choose|m: int, w: int|
            0 <= m < g1.len() && #[trigger] has_edge(g1, m, v, w) && connects(
                g1,
                s,
                m,
                c - w,
                (k - 1) as nat,
            );
        lemma_subgraph_connects(g1, g2, s, m, c - w, (k - 1) as nat);
        assert(has_edge(g2, m, v, w));
    }
}

/// What `bfs_reachable` establishes about its marks.
pub open spec fn bfs_post(g: Seq<Seq<(usize, u64)>>, s: int, visited: Seq<bool>) -> bool {
    &&& visited.len() == g.len()
    &&& forall|v: int| 0 <= v < g.len() ==> (visited[v] <==> reachable(g, s, v))
}

/// The reachability sweep is a function of the graph and the start state:
/// repeating it on an unmodified graph yields identical marks.
pub proof fn lemma_reachability_deterministic(
    g: Seq<Seq<(usize, u64)>>,
    s: int,
    v1: Seq<bool>,
    v2: Seq<bool>,
)
    requires
        bfs_post(g, s, v1),
        bfs_post(g, s, v2),
    ensures
        v1 =~= v2,
{
}

} // verus!
