use vstd::prelude::*;

use crate::store::CartographyEngine;
use crate::store::GraphError;
use crate::store::GraphNode;
use crate::store::StoredEdge;
use crate::store::edges_wf;
use crate::store::lemma_resolve_in_range;
use crate::store::resolve_id;

verus! {

use vstd::set_lib::lemma_len_subset;
use vstd::set_lib::lemma_int_range;
use vstd::set_lib::set_int_range;

broadcast use vstd::set::group_set_axioms;

/// Scanning the edges in store order for edges leaving `u`, every target
/// without a distance yet is given distance `du + 1`. Yields the handles to
/// enqueue and the grown distance map.
pub open spec fn dist_expand(
    edges: Seq<StoredEdge>,
    u: int,
    dist: Map<int, int>,
    du: int,
) -> (Seq<int>, Map<int, int>)
    decreases edges.len(),
{
    if edges.len() == 0 {
        (Seq::empty(), dist)
    } else {
        let r = dist_expand(edges.drop_last(), u, dist, du);
        let e = edges.last();
        if e.source as int == u && !r.1.dom().contains(e.target as int) {
            (r.0.push(e.target as int), r.1.insert(e.target as int, du + 1))
        } else {
            r
        }
    }
}

/// What `dist_expand` does to its inputs: new handles are valid, carry
/// distance `du + 1`, and old entries survive untouched.
pub proof fn lemma_dist_expand_props(
    nodes: Seq<GraphNode>,
    edges: Seq<StoredEdge>,
    u: int,
    dist: Map<int, int>,
    du: int,
)
    requires
        edges_wf(nodes, edges),
        dist.dom().finite(),
        dist.dom().subset_of(set_int_range(0, nodes.len() as int)),
    ensures
        forall|j: int|
            0 <= j < dist_expand(edges, u, dist, du).0.len() ==> 0 <= #[trigger] dist_expand(
                edges,
                u,
                dist,
                du,
            ).0[j] < nodes.len() && dist_expand(edges, u, dist, du).1.dom().contains(
                dist_expand(edges, u, dist, du).0[j],
            ) && !dist.dom().contains(dist_expand(edges, u, dist, du).0[j]),
        dist_expand(edges, u, dist, du).1.dom().finite(),
        dist_expand(edges, u, dist, du).1.dom().subset_of(set_int_range(0, nodes.len() as int)),
        forall|h: int|
            #[trigger] dist.dom().contains(h) ==> dist_expand(edges, u, dist, du).1.dom().contains(
                h,
            ) && dist_expand(edges, u, dist, du).1[h] == dist[h],
        forall|h: int|
            #[trigger] dist_expand(edges, u, dist, du).1.dom().contains(h) ==> dist.dom().contains(
                h,
            ) || dist_expand(edges, u, dist, du).1[h] == du + 1,
    decreases edges.len(),
{
    if edges.len() > 0 {
        crate::impact::lemma_edges_wf_drop_last(nodes, edges);
        lemma_dist_expand_props(nodes, edges.drop_last(), u, dist, du);
        let r = dist_expand(edges.drop_last(), u, dist, du);
        let w = dist_expand(edges, u, dist, du);
        let e = edges.last();
        if e.source as int == u && !r.1.dom().contains(e.target as int) {
            let t = e.target as int;
            assert(w.1.dom() =~= r.1.dom().insert(t));
            assert(!dist.dom().contains(t));
            assert forall|j: int|
                0 <= j < w.0.len() implies 0 <= #[trigger] w.0[j] < nodes.len()
                    && w.1.dom().contains(w.0[j]) && !dist.dom().contains(w.0[j]) by {
                if j < r.0.len() {
                    assert(w.0[j] == r.0[j]);
                    assert(r.1.dom().contains(r.0[j]));
                } else {
                    assert(w.0[j] == t);
                }
            }
            assert forall|h: int|
                #[trigger] dist.dom().contains(h) implies w.1.dom().contains(h) && w.1[h]
                == dist[h] by {
                assert(r.1.dom().contains(h));
                assert(h != t);
            }
        }
    }
}

/// Unit-cost breadth-first distances: nodes are popped in queue order and
/// their undistanced successors take the popped node's distance plus one.
pub open spec fn bfs_dists(
    nodes: Seq<GraphNode>,
    edges: Seq<StoredEdge>,
    queue: Seq<int>,
    dist: Map<int, int>,
) -> Map<int, int>
    decreases nodes.len() - dist.dom().len(), queue.len(),
        when dist.dom().finite() && dist.dom().subset_of(set_int_range(0, nodes.len() as int))
            && (forall|j: int|
            0 <= j < queue.len() ==> 0 <= #[trigger] queue[j] < nodes.len() && dist.dom().contains(
                queue[j],
            )) && edges_wf(nodes, edges)
        via bfs_dists_decreases
{
    if queue.len() == 0 {
        dist
    } else {
        let u = queue.first();
        let r = dist_expand(edges, u, dist, dist[u]);
        bfs_dists(nodes, edges, queue.drop_first() + r.0, r.1)
    }
}

#[via_fn]
proof fn bfs_dists_decreases(
    nodes: Seq<GraphNode>,
    edges: Seq<StoredEdge>,
    queue: Seq<int>,
    dist: Map<int, int>,
) {
    lemma_int_range(0, nodes.len() as int);
    lemma_len_subset(dist.dom(), set_int_range(0, nodes.len() as int));
    if queue.len() > 0 {
        let u = queue.first();
        let r = dist_expand(edges, u, dist, dist[u]);
        lemma_dist_expand_props(nodes, edges, u, dist, dist[u]);
        lemma_len_subset(r.1.dom(), set_int_range(0, nodes.len() as int));
        if r.0.len() > 0 {
            // At least one fresh entry joined the distance map.
            assert(!dist.dom().contains(r.0[0]));
            assert(dist.dom().insert(r.0[0]).subset_of(r.1.dom()));
            lemma_len_subset(dist.dom().insert(r.0[0]), r.1.dom());
        } else {
            assert(r.1.dom() =~= dist.dom()) by {
                lemma_dist_expand_same_when_empty(edges, u, dist, dist[u]);
            }
        }
    }
}

/// When `dist_expand` enqueues nothing, the distance map is unchanged.
proof fn lemma_dist_expand_same_when_empty(
    edges: Seq<StoredEdge>,
    u: int,
    dist: Map<int, int>,
    du: int,
)
    requires
        dist_expand(edges, u, dist, du).0.len() == 0,
    ensures
        dist_expand(edges, u, dist, du).1 == dist,
    decreases edges.len(),
{
    if edges.len() > 0 {
        let r = dist_expand(edges.drop_last(), u, dist, du);
        let e = edges.last();
        if e.source as int == u && !r.1.dom().contains(e.target as int) {
            assert(dist_expand(edges, u, dist, du).0.len() == r.0.len() + 1);
        } else {
            lemma_dist_expand_same_when_empty(edges.drop_last(), u, dist, du);
        }
    }
}

/// The breadth-first distance map from `s`: how many edges the shortest
/// directed walk from `s` takes to each reachable handle.
pub open spec fn dist_map(nodes: Seq<GraphNode>, edges: Seq<StoredEdge>, s: int) -> Map<int, int> {
    bfs_dists(nodes, edges, seq![s], Map::empty().insert(s, 0))
}

/// The first edge in store order that enters `v` from a node whose distance
/// is exactly one less than `v`'s: the deterministic tie-break of the path
/// reconstruction.
pub open spec fn first_pred(edges: Seq<StoredEdge>, dist: Map<int, int>, v: int) -> Option<int>
    decreases edges.len(),
{
    if edges.len() == 0 {
        None
    } else {
        let e = edges.first();
        if e.target as int == v && dist.dom().contains(e.source as int) && dist[e.source as int]
            + 1 == dist[v] {
            Some(e.source as int)
        } else {
            first_pred(edges.drop_first(), dist, v)
        }
    }
}

/// How `first_pred` grows with the edge list: an earlier match stands, and
/// a new edge is considered only after all stored ones.
pub proof fn lemma_first_pred_push(
    s: Seq<StoredEdge>,
    e: StoredEdge,
    dist: Map<int, int>,
    v: int,
)
    ensures
        first_pred(s.push(e), dist, v) == (if first_pred(s, dist, v) is Some {
            first_pred(s, dist, v)
        } else if e.target as int == v && dist.dom().contains(e.source as int) && dist[
            e.source as int
        ] + 1 == dist[v] {
            Some(e.source as int)
        } else {
            None
        }),
    decreases s.len(),
{
    if s.len() == 0 {
        assert(s.push(e).first() == e);
        assert(s.push(e).drop_first() =~= Seq::<StoredEdge>::empty());
        assert(s.push(e).len() == 1);
        assert(first_pred(s, dist, v) is None);
        if e.target as int == v && dist.dom().contains(e.source as int) && dist[e.source as int]
            + 1 == dist[v] {
            assert(first_pred(s.push(e), dist, v) == Some(e.source as int));
        } else {
            assert(first_pred(s.push(e), dist, v) == first_pred(
                s.push(e).drop_first(),
                dist,
                v,
            ));
            assert(first_pred(s.push(e), dist, v) is None);
        }
    } else {
        assert(s.push(e).first() == s.first());
        assert(s.push(e).drop_first() =~= s.drop_first().push(e));
        lemma_first_pred_push(s.drop_first(), e, dist, v);
        let e0 = s.first();
        if e0.target as int == v && dist.dom().contains(e0.source as int) && dist[e0.source as int]
            + 1 == dist[v] {
            assert(first_pred(s, dist, v) == Some(e0.source as int));
            assert(first_pred(s.push(e), dist, v) == Some(e0.source as int));
        } else {
            assert(first_pred(s, dist, v) == first_pred(s.drop_first(), dist, v));
            assert(first_pred(s.push(e), dist, v) == first_pred(
                s.drop_first().push(e),
                dist,
                v,
            ));
        }
    }
}

/// A predecessor is a stored edge's source, one step closer to the start.
pub proof fn lemma_first_pred_props(
    nodes: Seq<GraphNode>,
    edges: Seq<StoredEdge>,
    dist: Map<int, int>,
    v: int,
)
    requires
        edges_wf(nodes, edges),
    ensures
        first_pred(edges, dist, v) matches Some(p) ==> 0 <= p < nodes.len()
            && dist.dom().contains(p) && dist[p] + 1 == dist[v] && has_edge(edges, p, v),
    decreases edges.len(),
{
    if edges.len() > 0 {
        let e = edges.first();
        if e.target as int == v && dist.dom().contains(e.source as int) && dist[e.source as int]
            + 1 == dist[v] {
            assert(edges[0] == e);
            assert(has_edge(edges, e.source as int, v));
        } else {
            assert(forall|k: int|
                0 <= k < edges.len() - 1 ==> edges.drop_first()[k] == edges[k + 1]);
            lemma_first_pred_props(nodes, edges.drop_first(), dist, v);
            if first_pred(edges.drop_first(), dist, v) is Some {
                let p = first_pred(edges.drop_first(), dist, v).unwrap();
                if has_edge(edges.drop_first(), p, v) {
                    let k = choose|k: int|
                        0 <= k < edges.drop_first().len() && (#[trigger] edges.drop_first()[
                            k
                        ]).source as int == p && edges.drop_first()[k].target as int == v;
                    assert(edges[k + 1].source as int == p && edges[k + 1].target as int == v);
                    assert(has_edge(edges, p, v));
                }
            }
        }
    }
}

/// A directed edge from `a` to `b` stands in the store.
pub open spec fn has_edge(edges: Seq<StoredEdge>, a: int, b: int) -> bool {
    exists|k: int|
        0 <= k < edges.len() && (#[trigger] edges[k]).source as int == a && edges[
            k
        ].target as int == b
}

/// The reconstructed shortest path from `from` to `cur`, walking backwards
/// through `first_pred`; fails only if the chain breaks.
pub open spec fn walk_back(
    nodes: Seq<GraphNode>,
    edges: Seq<StoredEdge>,
    dist: Map<int, int>,
    from: int,
    cur: int,
) -> Option<Seq<int>>
    decreases (if dist.dom().contains(cur) {
        dist[cur]
    } else {
        0
    }),
        when dist.dom().contains(cur) && (forall|h: int|
            #[trigger] dist.dom().contains(h) ==> dist[h] >= 0) && edges_wf(nodes, edges)
        via walk_back_decreases
{
    if cur == from {
        Some(seq![cur])
    } else {
        match first_pred(edges, dist, cur) {
            None => None,
            Some(p) => match walk_back(nodes, edges, dist, from, p) {
                None => None,
                Some(pre) => Some(pre.push(cur)),
            },
        }
    }
}

#[via_fn]
proof fn walk_back_decreases(
    nodes: Seq<GraphNode>,
    edges: Seq<StoredEdge>,
    dist: Map<int, int>,
    from: int,
    cur: int,
) {
    if dist.dom().contains(cur) && cur != from {
        lemma_first_pred_props(nodes, edges, dist, cur);
    }
}

/// A reconstructed path runs from `from` to `cur`, and each of its steps
/// follows a stored edge forwards.
pub proof fn lemma_walk_back_valid(
    nodes: Seq<GraphNode>,
    edges: Seq<StoredEdge>,
    dist: Map<int, int>,
    from: int,
    cur: int,
)
    requires
        dist.dom().contains(cur),
        forall|h: int| #[trigger] dist.dom().contains(h) ==> dist[h] >= 0,
        edges_wf(nodes, edges),
    ensures
        walk_back(nodes, edges, dist, from, cur) matches Some(pre) ==> pre.len() >= 1 && pre[0]
            == from && pre.last() == cur && pre.len() == dist[cur] - dist[from] + 1 && (forall|
            x: int,
        |
            0 <= x < pre.len() - 1 ==> has_edge(edges, #[trigger] pre[x], pre[x + 1])),
    decreases (if dist.dom().contains(cur) {
        dist[cur]
    } else {
        0
    }),
{
    if cur != from {
        lemma_first_pred_props(nodes, edges, dist, cur);
        if let Some(p) = first_pred(edges, dist, cur) {
            lemma_walk_back_valid(nodes, edges, dist, from, p);
            if walk_back(nodes, edges, dist, from, p) is Some {
                let pp = walk_back(nodes, edges, dist, from, p).unwrap();
                let pre = pp.push(cur);
                assert forall|x: int|
                    0 <= x < pre.len() - 1 implies has_edge(edges, #[trigger] pre[x], pre[x + 1])
                    by {
                    if x < pp.len() - 1 {
                        assert(pre[x] == pp[x] && pre[x + 1] == pp[x + 1]);
                    } else {
                        assert(pre[x] == pp.last() && pre[x + 1] == cur);
                    }
                }
            }
        }
    }
}

/// The ids of the nodes along a path of handles.
pub open spec fn path_ids(nodes: Seq<GraphNode>, hs: Seq<int>) -> Seq<Seq<char>> {
    Seq::new(hs.len(), |i: int| nodes[hs[i]].id@)
}

impl CartographyEngine {
    /// The unit-cost shortest directed path from one id to the other, both
    /// ends included. Distances come from a breadth-first expansion in
    /// store order; the path walks backwards from the target, at each step
    /// taking the first incoming edge (in store order) whose source lies
    /// exactly one step closer to the start. Fails with `NotFound` exactly
    /// when an id is unknown, and with `NoPath` exactly when both are known
    /// but no directed path connects them.
    pub fn shortest_path(&self, from_id: &str, to_id: &str) -> (r: Result<Vec<String>, GraphError>)
        requires
            self.wf(),
        ensures
            ({
                let f = resolve_id(self.nodes@, from_id@);
                let t = resolve_id(self.nodes@, to_id@);
                match r {
                    Err(GraphError::NotFound) => f is None || t is None,
                    Err(GraphError::NoPath) => f is Some && t is Some && {
                        let dm = dist_map(self.nodes@, self.edges@, f.unwrap());
                        ||| !dm.dom().contains(t.unwrap())
                        ||| walk_back(self.nodes@, self.edges@, dm, f.unwrap(), t.unwrap()) is None
                    },
                    Ok(p) => f is Some && t is Some && {
                        let dm = dist_map(self.nodes@, self.edges@, f.unwrap());
                        &&& dm.dom().contains(t.unwrap())
                        &&& walk_back(self.nodes@, self.edges@, dm, f.unwrap(), t.unwrap())
                            matches Some(hs) && p.deep_view() == path_ids(self.nodes@, hs)
                            && hs.first() == f.unwrap() && hs.last() == t.unwrap() && (forall|
                            x: int,
                        |
                            0 <= x < hs.len() - 1 ==> has_edge(
                                self.edges@,
                                #[trigger] hs[x],
                                hs[x + 1],
                            ))
                        &&& dm[f.unwrap()] == 0
                        &&& p@.len() == dm[t.unwrap()] + 1
                        &&& p@.len() >= 1
                        &&& p@[0]@ == from_id@
                        &&& p@[p@.len() - 1]@ == to_id@
                    },
                }
            }),
            resolve_id(self.nodes@, from_id@) is Some && from_id@ == to_id@ ==> (r matches Ok(p)
                && p.deep_view() == seq![from_id@]),
    {
        let f = match self.lookup(from_id) {
            Some(i) => i,
            None => {
                return Err(GraphError::NotFound);
            },
        };
        let t = match self.lookup(to_id) {
            Some(i) => i,
            None => {
                return Err(GraphError::NotFound);
            },
        };
        proof {
            lemma_resolve_in_range(self.nodes@, from_id@);
            lemma_resolve_in_range(self.nodes@, to_id@);
        }
        let n = self.nodes.len();
        let m = self.edges.len();

        let mut has_f: Vec<bool> = crate::impact::false_flags(n);
        let mut dist_v: Vec<usize> = crate::community::zero_values(n);
        has_f[f] = true;
        let ghost mut dist: Map<int, int> = Map::empty().insert(f as int, 0);
        let mut queue: Vec<usize> = Vec::new();
        queue.push(f);
        let ghost mut gq: Seq<int> = seq![f as int];
        let mut qi: usize = 0;
        proof {
            assert(gq =~= queue@.subrange(qi as int, queue@.len() as int).map_values(
                |x: usize| x as int,
            ));
            assert(dist.dom() =~= Set::empty().insert(f as int));
        }

        while qi < queue.len()
            invariant
                self.wf(),
                n == self.nodes@.len(),
                m == self.edges@.len(),
                qi <= queue@.len(),
                f < n,
                t < n,
                has_f@.len() == n,
                dist_v@.len() == n,
                dist.dom().finite(),
                dist.dom().subset_of(set_int_range(0, n as int)),
                forall|h: int| 0 <= h < n ==> (dist.dom().contains(h) <==> has_f@[h]),
                forall|h: int|
                    #[trigger] dist.dom().contains(h) ==> dist_v@[h] as int == dist[h] && 0
                        <= dist[h] < dist.dom().len(),
                dist.dom().contains(f as int),
                dist[f as int] == 0,
                forall|h: int|
                    #[trigger] dist.dom().contains(h) && h != f as int ==> dist[h] >= 1,
                gq == queue@.subrange(qi as int, queue@.len() as int).map_values(
                    |x: usize| x as int,
                ),
                forall|j2: int|
                    0 <= j2 < gq.len() ==> 0 <= #[trigger] gq[j2] < n && dist.dom().contains(
                        gq[j2],
                    ),
                bfs_dists(self.nodes@, self.edges@, gq, dist) == dist_map(
                    self.nodes@,
                    self.edges@,
                    f as int,
                ),
            decreases n - dist.dom().len(), queue@.len() - qi,
        {
            let u = queue[qi];
            let ghost gq0 = gq;
            qi = qi + 1;
            proof {
                assert(gq0.first() == u as int);
                assert(0 <= gq0[0] < n);
                gq = gq.drop_first();
                assert(gq =~= queue@.subrange(qi as int, queue@.len() as int).map_values(
                    |x: usize| x as int,
                ));
            }
            let du = dist_v[u];
            let ghost dist0 = dist;
            let ghost g0 = gq;
            proof {
                lemma_int_range(0, n as int);
                lemma_len_subset(dist0.dom(), set_int_range(0, n as int));
                assert(du as int == dist0[u as int]);
                assert(self.edges@.subrange(0, 0) =~= Seq::<StoredEdge>::empty());
                assert(gq.skip(g0.len() as int) =~= Seq::<int>::empty());
                assert(gq.subrange(0, g0.len() as int) =~= g0);
            }
            let mut k: usize = 0;
            while k < m
                invariant
                    self.wf(),
                    n == self.nodes@.len(),
                    m == self.edges@.len(),
                    k <= m,
                    u < n,
                    f < n,
                    du < n,
                    qi <= queue@.len(),
                    has_f@.len() == n,
                    dist_v@.len() == n,
                    dist.dom().finite(),
                    dist.dom().subset_of(set_int_range(0, n as int)),
                    forall|h: int| 0 <= h < n ==> (dist.dom().contains(h) <==> has_f@[h]),
                    forall|h: int|
                        #[trigger] dist.dom().contains(h) ==> dist_v@[h] as int == dist[h] && 0
                            <= dist[h] < dist.dom().len(),
                    forall|h: int|
                        #[trigger] dist0.dom().contains(h) ==> dist.dom().contains(h) && dist[h]
                            == dist0[h],
                    dist0.dom().contains(f as int),
                    forall|h: int|
                        #[trigger] dist.dom().contains(h) && h != f as int ==> dist[h] >= 1,
                    dist[f as int] == 0,
                    du as int == dist0[u as int],
                    du as int + 1 <= dist0.dom().len(),
                    gq == queue@.subrange(qi as int, queue@.len() as int).map_values(
                        |x: usize| x as int,
                    ),
                    dist_expand(self.edges@.subrange(0, k as int), u as int, dist0, du as int)
                        == (gq.skip(g0.len() as int), dist),
                    gq.len() >= g0.len(),
                    gq.subrange(0, g0.len() as int) == g0,
                    forall|j2: int|
                        0 <= j2 < gq.len() ==> 0 <= #[trigger] gq[j2] < n && dist.dom().contains(
                            gq[j2],
                        ),
                decreases m - k,
            {
                proof {
                    assert(self.edges@.subrange(0, k + 1).drop_last() =~= self.edges@.subrange(
                        0,
                        k as int,
                    ));
                    assert(self.edges@.subrange(0, k + 1).last() == self.edges@[k as int]);
                }
                let tgt = self.edges[k].target;
                if self.edges[k].source == u && !has_f[tgt] {
                    has_f[tgt] = true;
                    dist_v[tgt] = du + 1;
                    queue.push(tgt);
                    proof {
                        let dprev = dist;
                        lemma_len_subset(dist0.dom(), dprev.dom());
                        dist = dist.insert(tgt as int, du as int + 1);
                        assert(dist.dom() =~= dprev.dom().insert(tgt as int));
                        assert(dist.dom() =~= dist_expand(
                            self.edges@.subrange(0, k as int),
                            u as int,
                            dist0,
                            du as int,
                        ).1.dom().insert(tgt as int));
                        let gq_prev = gq;
                        gq = gq.push(tgt as int);
                        assert(gq =~= queue@.subrange(qi as int, queue@.len() as int).map_values(
                            |x: usize| x as int,
                        ));
                        assert(gq.skip(g0.len() as int) =~= gq_prev.skip(g0.len() as int).push(
                            tgt as int,
                        ));
                        assert(gq.subrange(0, g0.len() as int) =~= gq_prev.subrange(
                            0,
                            g0.len() as int,
                        ));
                        lemma_int_range(0, n as int);
                        lemma_len_subset(dist.dom(), set_int_range(0, n as int));
                    }
                }
                k = k + 1;
            }
            proof {
                assert(self.edges@.subrange(0, m as int) =~= self.edges@);
                let r = dist_expand(self.edges@, u as int, dist0, du as int);
                lemma_dist_expand_props(self.nodes@, self.edges@, u as int, dist0, du as int);
                assert(gq.skip(g0.len() as int) == r.0);
                assert(gq =~= g0 + r.0);
                // One unfolding of the distance search at the state just popped.
                assert(bfs_dists(self.nodes@, self.edges@, gq0, dist0) == bfs_dists(
                    self.nodes@,
                    self.edges@,
                    gq0.drop_first() + r.0,
                    r.1,
                ));
                assert(gq0.drop_first() + r.0 =~= gq);
                lemma_int_range(0, n as int);
                lemma_len_subset(dist.dom(), set_int_range(0, n as int));
                if r.0.len() > 0 {
                    assert(!dist0.dom().contains(r.0[0]));
                    assert(dist0.dom().insert(r.0[0]).subset_of(r.1.dom()));
                    lemma_len_subset(dist0.dom().insert(r.0[0]), r.1.dom());
                } else {
                    lemma_dist_expand_same_when_empty(self.edges@, u as int, dist0, du as int);
                }
            }
        }
        proof {
            assert(gq =~= Seq::<int>::empty());
            assert(dist == dist_map(self.nodes@, self.edges@, f as int));
            lemma_int_range(0, n as int);
            lemma_len_subset(dist.dom(), set_int_range(0, n as int));
            assert(forall|h: int|
                #[trigger] dist.dom().contains(h) ==> 0 <= dist[h] < n as int);
        }

        if !has_f[t] {
            return Err(GraphError::NoPath);
        }

        let mut cur: usize = t;
        let mut path_rev: Vec<usize> = Vec::new();
        path_rev.push(t);
        let ghost mut rest: Seq<int> = Seq::empty();
        proof {
            if walk_back(self.nodes@, self.edges@, dist, f as int, t as int) is Some {
                let pre = walk_back(self.nodes@, self.edges@, dist, f as int, t as int).unwrap();
                assert(pre + rest =~= pre);
            }
        }

        while cur != f
            invariant
                self.wf(),
                n == self.nodes@.len(),
                m == self.edges@.len(),
                f < n,
                t < n,
                cur < n,
                has_f@.len() == n,
                dist_v@.len() == n,
                resolve_id(self.nodes@, from_id@) == Some(f as int),
                resolve_id(self.nodes@, to_id@) == Some(t as int),
                dist == dist_map(self.nodes@, self.edges@, f as int),
                dist.dom().finite(),
                dist.dom().subset_of(set_int_range(0, n as int)),
                forall|h: int| 0 <= h < n ==> (dist.dom().contains(h) <==> has_f@[h]),
                forall|h: int|
                    #[trigger] dist.dom().contains(h) ==> dist_v@[h] as int == dist[h] && 0
                        <= dist[h] < n as int,
                dist.dom().contains(f as int),
                dist[f as int] == 0,
                forall|h: int|
                    #[trigger] dist.dom().contains(h) && h != f as int ==> dist[h] >= 1,
                dist.dom().contains(cur as int),
                dist.dom().contains(t as int),
                dist[cur as int] + rest.len() == dist[t as int],
                path_rev@.len() == rest.len() + 1,
                path_rev@[path_rev@.len() - 1] == cur,
                forall|i: int|
                    0 <= i < rest.len() ==> #[trigger] rest[i] == path_rev@[path_rev@.len() - 2
                        - i] as int,
                forall|i: int| 0 <= i < path_rev@.len() ==> #[trigger] path_rev@[i] < n,
                match walk_back(self.nodes@, self.edges@, dist, f as int, cur as int) {
                    None => walk_back(self.nodes@, self.edges@, dist, f as int, t as int)
                        is None,
                    Some(pre) => walk_back(self.nodes@, self.edges@, dist, f as int, t as int)
                        == Some(pre + rest),
                },
            decreases dist[cur as int],
        {
            let du_cur = dist_v[cur];
            let mut found: Option<usize> = None;
            let mut k: usize = 0;
            proof {
                assert(self.edges@.subrange(0, 0) =~= Seq::<StoredEdge>::empty());
            }
            while k < m
                invariant
                    self.wf(),
                    n == self.nodes@.len(),
                    m == self.edges@.len(),
                    k <= m,
                    cur < n,
                    has_f@.len() == n,
                    dist_v@.len() == n,
                    dist.dom().finite(),
                    forall|h: int| 0 <= h < n ==> (dist.dom().contains(h) <==> has_f@[h]),
                    forall|h: int|
                        #[trigger] dist.dom().contains(h) ==> dist_v@[h] as int == dist[h] && 0
                            <= dist[h] < n as int,
                    dist.dom().contains(cur as int),
                    du_cur as int == dist[cur as int],
                    match found {
                        None => first_pred(
                            self.edges@.subrange(0, k as int),
                            dist,
                            cur as int,
                        ) is None,
                        Some(p) => p < n && first_pred(
                            self.edges@.subrange(0, k as int),
                            dist,
                            cur as int,
                        ) == Some(p as int),
                    },
                decreases m - k,
            {
                proof {
                    assert(self.edges@.subrange(0, k + 1) =~= self.edges@.subrange(
                        0,
                        k as int,
                    ).push(self.edges@[k as int]));
                    lemma_first_pred_push(
                        self.edges@.subrange(0, k as int),
                        self.edges@[k as int],
                        dist,
                        cur as int,
                    );
                }
                if found.is_none() {
                    let src = self.edges[k].source;
                    if self.edges[k].target == cur && has_f[src] && dist_v[src] + 1 == du_cur {
                        found = Some(src);
                    }
                }
                k = k + 1;
            }
            proof {
                assert(self.edges@.subrange(0, m as int) =~= self.edges@);
            }
            match found {
                None => {
                    proof {
                        assert(first_pred(self.edges@, dist, cur as int) is None);
                        assert(walk_back(self.nodes@, self.edges@, dist, f as int, cur as int)
                            is None);
                        if from_id@ == to_id@ {
                            assert(resolve_id(self.nodes@, to_id@) == resolve_id(
                                self.nodes@,
                                from_id@,
                            ));
                            assert(t == f);
                            assert(dist[t as int] == 0);
                            assert(dist[cur as int] == 0);
                            assert(dist[cur as int] >= 1);
                        }
                    }
                    return Err(GraphError::NoPath);
                },
                Some(p) => {
                    proof {
                        lemma_first_pred_props(self.nodes@, self.edges@, dist, cur as int);
                        let pre_cur = walk_back(
                            self.nodes@,
                            self.edges@,
                            dist,
                            f as int,
                            cur as int,
                        );
                        let pre_p = walk_back(self.nodes@, self.edges@, dist, f as int, p as int);
                        if pre_p is Some {
                            assert(pre_cur == Some(pre_p.unwrap().push(cur as int)));
                            assert(pre_p.unwrap().push(cur as int) + rest =~= pre_p.unwrap() + (
                            seq![cur as int] + rest));
                        }
                        rest = seq![cur as int] + rest;
                    }
                    path_rev.push(p);
                    cur = p;
                },
            }
        }

        let ghost hs: Seq<int> = seq![f as int] + rest;
        proof {
            assert(walk_back(self.nodes@, self.edges@, dist, f as int, cur as int) == Some(
                seq![f as int],
            ));
            assert(walk_back(self.nodes@, self.edges@, dist, f as int, t as int) == Some(hs));
            assert(hs.len() == path_rev@.len());
            assert forall|i: int| 0 <= i < hs.len() implies #[trigger] hs[i] == path_rev@[
                path_rev@.len() - 1 - i
            ] as int && 0 <= hs[i] < n by {
                if i > 0 {
                    assert(rest[i - 1] == path_rev@[path_rev@.len() - 2 - (i - 1)] as int);
                }
            }
        }

        let mut out: Vec<String> = Vec::new();
        let mut j: usize = path_rev.len();
        proof {
            assert(out.deep_view() =~= Seq::<Seq<char>>::empty());
        }
        while j > 0
            invariant
                self.wf(),
                n == self.nodes@.len(),
                j <= path_rev@.len(),
                forall|i: int| 0 <= i < path_rev@.len() ==> #[trigger] path_rev@[i] < n,
                out.deep_view().len() == path_rev@.len() - j,
                forall|i2: int|
                    0 <= i2 < path_rev@.len() - j ==> #[trigger] out.deep_view()[i2]
                        == self.nodes@[path_rev@[path_rev@.len() - 1 - i2] as int].id@,
            decreases j,
        {
            j = j - 1;
            let h = path_rev[j];
            crate::impact::push_node_id(&mut out, &self.nodes, h);
        }
        proof {
            lemma_walk_back_valid(self.nodes@, self.edges@, dist, f as int, t as int);
            assert(out.deep_view() =~= path_ids(self.nodes@, hs));
            assert(out.deep_view()[0] == self.nodes@[f as int].id@);
            assert(self.nodes@[f as int].id@ == from_id@);
            assert(self.nodes@[t as int].id@ == to_id@);
            assert(out@[0]@ == out.deep_view()[0]);
            assert(out@[out@.len() - 1]@ == out.deep_view()[out@.len() - 1]);
            assert(hs.last() == path_rev@[0] as int);
            if from_id@ == to_id@ {
                assert(rest.len() == 0);
                assert(hs =~= seq![f as int]);
                assert(out.deep_view() =~= seq![from_id@]);
            }
        }
        Ok(out)
    }
}

} // verus!
