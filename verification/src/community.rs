use vstd::prelude::*;

use crate::store::CartographyEngine;
use crate::store::GraphNode;
use crate::store::StoredEdge;
use crate::store::edges_wf;

verus! {

use vstd::set_lib::lemma_len_subset;
use vstd::set_lib::lemma_int_range;
use vstd::set_lib::set_int_range;

broadcast use vstd::set::group_set_axioms;

/// Scanning the edges in store order, the targets of edges leaving `u`
/// whose target has not been visited yet: the handles to enqueue and the
/// grown visited set.
pub open spec fn uexpand_out(
    edges: Seq<StoredEdge>,
    u: int,
    visited: Set<int>,
) -> (Seq<int>, Set<int>)
    decreases edges.len(),
{
    if edges.len() == 0 {
        (Seq::empty(), visited)
    } else {
        let r = uexpand_out(edges.drop_last(), u, visited);
        let e = edges.last();
        if e.source as int == u && !r.1.contains(e.target as int) {
            (r.0.push(e.target as int), r.1.insert(e.target as int))
        } else {
            r
        }
    }
}

/// The mirror image: unvisited sources of edges entering `u`.
pub open spec fn uexpand_in(
    edges: Seq<StoredEdge>,
    u: int,
    visited: Set<int>,
) -> (Seq<int>, Set<int>)
    decreases edges.len(),
{
    if edges.len() == 0 {
        (Seq::empty(), visited)
    } else {
        let r = uexpand_in(edges.drop_last(), u, visited);
        let e = edges.last();
        if e.target as int == u && !r.1.contains(e.source as int) {
            (r.0.push(e.source as int), r.1.insert(e.source as int))
        } else {
            r
        }
    }
}

/// Everything `uexpand_out` enqueues is an edge endpoint, hence a valid
/// handle, and the visited set grows within the valid handles.
pub proof fn lemma_uexpand_out_range(
    nodes: Seq<GraphNode>,
    edges: Seq<StoredEdge>,
    u: int,
    visited: Set<int>,
)
    requires
        edges_wf(nodes, edges),
        visited.finite(),
        visited.subset_of(set_int_range(0, nodes.len() as int)),
    ensures
        forall|j: int|
            0 <= j < uexpand_out(edges, u, visited).0.len()
                ==> 0 <= #[trigger] uexpand_out(edges, u, visited).0[j] < nodes.len(),
        uexpand_out(edges, u, visited).1.finite(),
        uexpand_out(edges, u, visited).1.subset_of(set_int_range(0, nodes.len() as int)),
        visited.subset_of(uexpand_out(edges, u, visited).1),
    decreases edges.len(),
{
    if edges.len() > 0 {
        crate::impact::lemma_edges_wf_drop_last(nodes, edges);
        lemma_uexpand_out_range(nodes, edges.drop_last(), u, visited);
        let r = uexpand_out(edges.drop_last(), u, visited);
        let w = uexpand_out(edges, u, visited);
        let e = edges.last();
        if e.source as int == u && !r.1.contains(e.target as int) {
            assert forall|j: int| 0 <= j < w.0.len() implies 0 <= #[trigger] w.0[j]
                < nodes.len() by {
                if j < r.0.len() {
                    assert(w.0[j] == r.0[j]);
                } else {
                    assert(w.0[j] == e.target as int);
                }
            }
        }
    }
}

/// The same bounds for `uexpand_in`.
pub proof fn lemma_uexpand_in_range(
    nodes: Seq<GraphNode>,
    edges: Seq<StoredEdge>,
    u: int,
    visited: Set<int>,
)
    requires
        edges_wf(nodes, edges),
        visited.finite(),
        visited.subset_of(set_int_range(0, nodes.len() as int)),
    ensures
        forall|j: int|
            0 <= j < uexpand_in(edges, u, visited).0.len()
                ==> 0 <= #[trigger] uexpand_in(edges, u, visited).0[j] < nodes.len(),
        uexpand_in(edges, u, visited).1.finite(),
        uexpand_in(edges, u, visited).1.subset_of(set_int_range(0, nodes.len() as int)),
        visited.subset_of(uexpand_in(edges, u, visited).1),
    decreases edges.len(),
{
    if edges.len() > 0 {
        crate::impact::lemma_edges_wf_drop_last(nodes, edges);
        lemma_uexpand_in_range(nodes, edges.drop_last(), u, visited);
        let r = uexpand_in(edges.drop_last(), u, visited);
        let w = uexpand_in(edges, u, visited);
        let e = edges.last();
        if e.target as int == u && !r.1.contains(e.source as int) {
            assert forall|j: int| 0 <= j < w.0.len() implies 0 <= #[trigger] w.0[j]
                < nodes.len() by {
                if j < r.0.len() {
                    assert(w.0[j] == r.0[j]);
                } else {
                    assert(w.0[j] == e.source as int);
                }
            }
        }
    }
}

/// What one outgoing expansion covers: the enqueued handles are fresh,
/// joined to `u` by an edge, and visited afterwards; the grown visited set
/// adds exactly them; and afterwards every outgoing neighbour of `u` is
/// visited.
pub proof fn lemma_uexpand_out_cover(
    nodes: Seq<GraphNode>,
    edges: Seq<StoredEdge>,
    u: int,
    visited: Set<int>,
)
    requires
        edges_wf(nodes, edges),
    ensures
        forall|h: int|
            #[trigger] uexpand_out(edges, u, visited).1.contains(h) <==> (visited.contains(h)
                || uexpand_out(edges, u, visited).0.contains(h)),
        forall|j: int|
            0 <= j < uexpand_out(edges, u, visited).0.len() ==> linked(
                edges,
                u,
                #[trigger] uexpand_out(edges, u, visited).0[j],
            ) && !visited.contains(uexpand_out(edges, u, visited).0[j]),
        forall|k: int|
            0 <= k < edges.len() && (#[trigger] edges[k]).source as int == u
                ==> uexpand_out(edges, u, visited).1.contains(edges[k].target as int),
    decreases edges.len(),
{
    if edges.len() > 0 {
        crate::impact::lemma_edges_wf_drop_last(nodes, edges);
        lemma_uexpand_out_cover(nodes, edges.drop_last(), u, visited);
        let r = uexpand_out(edges.drop_last(), u, visited);
        let w = uexpand_out(edges, u, visited);
        let e = edges.last();
        assert(forall|k: int|
            0 <= k < edges.len() - 1 ==> edges.drop_last()[k] == edges[k]);
        assert forall|h: int|
            #[trigger] linked(edges.drop_last(), u, h) implies linked(edges, u, h) by {
            let k = choose|k: int|
                0 <= k < edges.drop_last().len() && (((#[trigger] edges.drop_last()[k]).source
                    as int == u && edges.drop_last()[k].target as int == h) || (edges.drop_last()[
                    k
                ].source as int == h && edges.drop_last()[k].target as int == u));
            assert(edges[k] == edges.drop_last()[k]);
        }
        if e.source as int == u && !r.1.contains(e.target as int) {
            assert(w.0 =~= r.0.push(e.target as int));
            assert(edges[edges.len() - 1] == e);
            assert(linked(edges, u, e.target as int));
            assert forall|h: int|
                w.1.contains(h) implies (visited.contains(h) || #[trigger] w.0.contains(
                h,
            )) by {
                if h != e.target as int {
                    assert(r.1.contains(h));
                    assert(r.1.contains(h) == (visited.contains(h) || r.0.contains(h)));
                    if !visited.contains(h) {
                        let j = choose|j: int| 0 <= j < r.0.len() && r.0[j] == h;
                        assert(w.0[j] == h);
                        assert(w.0.contains(h));
                    }
                } else {
                    assert(w.0[w.0.len() - 1] == h);
                    assert(w.0.contains(h));
                }
            }
            assert forall|h: int|
                #[trigger] w.0.contains(h) implies w.1.contains(h) by {
                let j = choose|j: int| 0 <= j < w.0.len() && w.0[j] == h;
                if j < r.0.len() {
                    assert(r.0[j] == h);
                    assert(r.0.contains(h));
                }
            }
            assert forall|j: int|
                0 <= j < w.0.len() implies linked(edges, u, #[trigger] w.0[j])
                    && !visited.contains(w.0[j]) by {
                if j < r.0.len() {
                    assert(w.0[j] == r.0[j]);
                } else {
                    assert(w.0[j] == e.target as int);
                    assert(uexpand_out(edges.drop_last(), u, visited).1.contains(
                        e.target as int,
                    ) == (visited.contains(e.target as int) || uexpand_out(
                        edges.drop_last(),
                        u,
                        visited,
                    ).0.contains(e.target as int)));
                }
            }
        } else {
            assert(w.0 == r.0);
            assert forall|h: int|
                #[trigger] w.0.contains(h) implies w.1.contains(h) by {
                let j = choose|j: int| 0 <= j < w.0.len() && w.0[j] == h;
                assert(r.0[j] == h);
                assert(r.0.contains(h));
            }
        }
    }
}

/// The mirror image for incoming expansions.
pub proof fn lemma_uexpand_in_cover(
    nodes: Seq<GraphNode>,
    edges: Seq<StoredEdge>,
    u: int,
    visited: Set<int>,
)
    requires
        edges_wf(nodes, edges),
    ensures
        forall|h: int|
            #[trigger] uexpand_in(edges, u, visited).1.contains(h) <==> (visited.contains(h)
                || uexpand_in(edges, u, visited).0.contains(h)),
        forall|j: int|
            0 <= j < uexpand_in(edges, u, visited).0.len() ==> linked(
                edges,
                u,
                #[trigger] uexpand_in(edges, u, visited).0[j],
            ) && !visited.contains(uexpand_in(edges, u, visited).0[j]),
        forall|k: int|
            0 <= k < edges.len() && (#[trigger] edges[k]).target as int == u
                ==> uexpand_in(edges, u, visited).1.contains(edges[k].source as int),
    decreases edges.len(),
{
    if edges.len() > 0 {
        crate::impact::lemma_edges_wf_drop_last(nodes, edges);
        lemma_uexpand_in_cover(nodes, edges.drop_last(), u, visited);
        let r = uexpand_in(edges.drop_last(), u, visited);
        let w = uexpand_in(edges, u, visited);
        let e = edges.last();
        assert(forall|k: int|
            0 <= k < edges.len() - 1 ==> edges.drop_last()[k] == edges[k]);
        assert forall|h: int|
            #[trigger] linked(edges.drop_last(), u, h) implies linked(edges, u, h) by {
            let k = choose|k: int|
                0 <= k < edges.drop_last().len() && (((#[trigger] edges.drop_last()[k]).source
                    as int == u && edges.drop_last()[k].target as int == h) || (edges.drop_last()[
                    k
                ].source as int == h && edges.drop_last()[k].target as int == u));
            assert(edges[k] == edges.drop_last()[k]);
        }
        if e.target as int == u && !r.1.contains(e.source as int) {
            assert(w.0 =~= r.0.push(e.source as int));
            assert(edges[edges.len() - 1] == e);
            assert(linked(edges, u, e.source as int));
            assert forall|h: int|
                w.1.contains(h) implies (visited.contains(h) || #[trigger] w.0.contains(
                h,
            )) by {
                if h != e.source as int {
                    assert(r.1.contains(h));
                    assert(r.1.contains(h) == (visited.contains(h) || r.0.contains(h)));
                    if !visited.contains(h) {
                        let j = choose|j: int| 0 <= j < r.0.len() && r.0[j] == h;
                        assert(w.0[j] == h);
                        assert(w.0.contains(h));
                    }
                } else {
                    assert(w.0[w.0.len() - 1] == h);
                    assert(w.0.contains(h));
                }
            }
            assert forall|h: int|
                #[trigger] w.0.contains(h) implies w.1.contains(h) by {
                let j = choose|j: int| 0 <= j < w.0.len() && w.0[j] == h;
                if j < r.0.len() {
                    assert(r.0[j] == h);
                    assert(r.0.contains(h));
                }
            }
            assert forall|j: int|
                0 <= j < w.0.len() implies linked(edges, u, #[trigger] w.0[j])
                    && !visited.contains(w.0[j]) by {
                if j < r.0.len() {
                    assert(w.0[j] == r.0[j]);
                } else {
                    assert(w.0[j] == e.source as int);
                    assert(uexpand_in(edges.drop_last(), u, visited).1.contains(
                        e.source as int,
                    ) == (visited.contains(e.source as int) || uexpand_in(
                        edges.drop_last(),
                        u,
                        visited,
                    ).0.contains(e.source as int)));
                }
            }
        } else {
            assert(w.0 == r.0);
            assert forall|h: int|
                #[trigger] w.0.contains(h) implies w.1.contains(h) by {
                let j = choose|j: int| 0 <= j < w.0.len() && w.0[j] == h;
                assert(r.0[j] == h);
                assert(r.0.contains(h));
            }
        }
    }
}

/// One component's breadth-first flood: nodes are popped in queue order,
/// assigned community `c`, and their unvisited undirected neighbours are
/// enqueued (outgoing neighbours first, then incoming, each in store
/// order). Yields the grown visited set and assignment.
pub open spec fn flood(
    nodes: Seq<GraphNode>,
    edges: Seq<StoredEdge>,
    queue: Seq<int>,
    visited: Set<int>,
    comm: Map<int, int>,
    c: int,
) -> (Set<int>, Map<int, int>)
    decreases nodes.len() - comm.dom().len(), queue.len(),
        when visited.finite() && visited.subset_of(set_int_range(0, nodes.len() as int))
            && comm.dom().finite() && comm.dom().subset_of(set_int_range(0, nodes.len() as int))
            && (forall|j: int| 0 <= j < queue.len() ==> 0 <= #[trigger] queue[j] < nodes.len())
            && edges_wf(nodes, edges)
        via flood_decreases
{
    if queue.len() == 0 {
        (visited, comm)
    } else {
        let u = queue.first();
        if comm.dom().contains(u) {
            flood(nodes, edges, queue.drop_first(), visited, comm, c)
        } else {
            let r1 = uexpand_out(edges, u, visited);
            let r2 = uexpand_in(edges, u, r1.1);
            flood(
                nodes,
                edges,
                queue.drop_first() + r1.0 + r2.0,
                r2.1,
                comm.insert(u, c),
                c,
            )
        }
    }
}

#[via_fn]
proof fn flood_decreases(
    nodes: Seq<GraphNode>,
    edges: Seq<StoredEdge>,
    queue: Seq<int>,
    visited: Set<int>,
    comm: Map<int, int>,
    c: int,
) {
    lemma_int_range(0, nodes.len() as int);
    lemma_len_subset(comm.dom(), set_int_range(0, nodes.len() as int));
    if queue.len() > 0 && !comm.dom().contains(queue.first()) {
        assert(comm.insert(queue.first(), c).dom() =~= comm.dom().insert(queue.first()));
        lemma_len_subset(
            comm.dom().insert(queue.first()),
            set_int_range(0, nodes.len() as int),
        );
    }
}

/// Membership in a concatenation is membership in either part.
proof fn lemma_contains_concat(s1: Seq<int>, s2: Seq<int>, h: int)
    ensures
        (s1 + s2).contains(h) <==> (s1.contains(h) || s2.contains(h)),
{
    if (s1 + s2).contains(h) {
        let j = choose|j: int| 0 <= j < (s1 + s2).len() && (s1 + s2)[j] == h;
        if j < s1.len() {
            assert(s1[j] == h);
        } else {
            assert(s2[j - s1.len()] == h);
        }
    }
    if s1.contains(h) {
        let j = choose|j: int| 0 <= j < s1.len() && s1[j] == h;
        assert((s1 + s2)[j] == h);
    }
    if s2.contains(h) {
        let j = choose|j: int| 0 <= j < s2.len() && s2[j] == h;
        assert((s1 + s2)[j + s1.len()] == h);
    }
}

/// What one flood achieves, relative to the visited set `v0` that earlier
/// components covered and the flood's start `s`: old assignments are kept;
/// every fresh assignment carries `c` and is weakly connected to `s`; the
/// final visited set and assignment domain agree, cover everything they
/// covered before, and are closed under the edges.
proof fn lemma_flood_props(
    nodes: Seq<GraphNode>,
    edges: Seq<StoredEdge>,
    queue: Seq<int>,
    visited: Set<int>,
    comm: Map<int, int>,
    c: int,
    v0: Set<int>,
    s: int,
)
    requires
        visited.finite(),
        visited.subset_of(set_int_range(0, nodes.len() as int)),
        comm.dom().finite(),
        comm.dom().subset_of(set_int_range(0, nodes.len() as int)),
        forall|j: int| 0 <= j < queue.len() ==> 0 <= #[trigger] queue[j] < nodes.len(),
        edges_wf(nodes, edges),
        v0.subset_of(visited),
        forall|j: int|
            0 <= j < queue.len() ==> visited.contains(#[trigger] queue[j]) && !v0.contains(
                queue[j],
            ),
        forall|h: int| #[trigger] visited.contains(h) <==> (comm.dom().contains(h)
            || queue.contains(h)),
        forall|h: int| visited.contains(h) && !v0.contains(h) ==> #[trigger] uconn(edges, s, h),
        forall|u2: int, w: int|
            #[trigger] visited.contains(u2) && !queue.contains(u2) && #[trigger] linked(
                edges,
                u2,
                w,
            ) ==> visited.contains(w),
        forall|u2: int, w: int|
            #[trigger] comm.dom().contains(u2) && #[trigger] linked(edges, u2, w)
                ==> visited.contains(w),
    ensures
        ({
            let r = flood(nodes, edges, queue, visited, comm, c);
            &&& forall|h: int|
                #[trigger] comm.dom().contains(h) ==> r.1.dom().contains(h) && r.1[h] == comm[h]
            &&& forall|h: int|
                #[trigger] r.1.dom().contains(h) && !comm.dom().contains(h) ==> r.1[h] == c
                    && uconn(edges, s, h) && !v0.contains(h)
            &&& forall|h: int| #[trigger] r.0.contains(h) <==> r.1.dom().contains(h)
            &&& forall|h: int| #[trigger] visited.contains(h) ==> r.0.contains(h)
            &&& forall|u2: int, w: int|
                #[trigger] r.0.contains(u2) && #[trigger] linked(edges, u2, w) ==> r.0.contains(
                    w,
                )
            &&& r.0.finite()
            &&& r.0.subset_of(set_int_range(0, nodes.len() as int))
            &&& r.1.dom().finite()
            &&& r.1.dom().subset_of(set_int_range(0, nodes.len() as int))
        }),
    decreases nodes.len() - comm.dom().len(), queue.len(),
{
    lemma_int_range(0, nodes.len() as int);
    lemma_len_subset(comm.dom(), set_int_range(0, nodes.len() as int));
    if queue.len() == 0 {
        // The flood is finished: visited and assigned coincide and nothing
        // pends, so the closure hypothesis covers every visited node.
    } else {
        let u = queue.first();
        assert(visited.contains(u) && !v0.contains(u));
        assert forall|h: int|
            queue.contains(h) <==> (h == u || queue.drop_first().contains(h)) by {
            lemma_contains_step(queue, h);
        }
        if comm.dom().contains(u) {
            lemma_flood_props(
                nodes,
                edges,
                queue.drop_first(),
                visited,
                comm,
                c,
                v0,
                s,
            );
        } else {
            let r1 = uexpand_out(edges, u, visited);
            let r2 = uexpand_in(edges, u, r1.1);
            lemma_uexpand_out_range(nodes, edges, u, visited);
            lemma_uexpand_in_range(nodes, edges, u, r1.1);
            lemma_uexpand_out_cover(nodes, edges, u, visited);
            lemma_uexpand_in_cover(nodes, edges, u, r1.1);
            let q2 = queue.drop_first() + r1.0 + r2.0;
            let c2 = comm.insert(u, c);
            assert(c2.dom() =~= comm.dom().insert(u));
            lemma_len_subset(c2.dom(), set_int_range(0, nodes.len() as int));
            assert forall|h: int|
                q2.contains(h) <==> (queue.drop_first().contains(h) || r1.0.contains(h)
                    || r2.0.contains(h)) by {
                lemma_contains_concat(queue.drop_first() + r1.0, r2.0, h);
                lemma_contains_concat(queue.drop_first(), r1.0, h);
            }
            assert(uconn(edges, s, u));
            // Everything freshly enqueued hangs off `u` by one edge.
            assert forall|h: int|
                (r1.0.contains(h) || r2.0.contains(h)) implies #[trigger] uconn(edges, s, h)
                    && !visited.contains(h) && r2.1.contains(h) && 0 <= h < nodes.len() by {
                if r1.0.contains(h) {
                    let j = choose|j: int| 0 <= j < r1.0.len() && r1.0[j] == h;
                    assert(linked(edges, u, r1.0[j]));
                    lemma_uconn_step(edges, u, h);
                    lemma_uconn_trans(edges, s, u, h);
                    assert(r1.1.contains(h));
                } else {
                    let j = choose|j: int| 0 <= j < r2.0.len() && r2.0[j] == h;
                    assert(linked(edges, u, r2.0[j]));
                    lemma_uconn_step(edges, u, h);
                    lemma_uconn_trans(edges, s, u, h);
                    assert(!r1.1.contains(h));
                }
            }
            // After both expansions every neighbour of `u` is visited.
            assert forall|w: int| #[trigger] linked(edges, u, w) implies r2.1.contains(w) by {
                let k = choose|k: int|
                    0 <= k < edges.len() && (((#[trigger] edges[k]).source as int == u && edges[
                        k
                    ].target as int == w) || (edges[k].source as int == w && edges[
                        k
                    ].target as int == u));
                if edges[k].source as int == u && edges[k].target as int == w {
                    assert(r1.1.contains(w));
                } else {
                    assert(r2.1.contains(w));
                }
            }
            lemma_flood_props(nodes, edges, q2, r2.1, c2, c, v0, s);
            let r = flood(nodes, edges, q2, r2.1, c2, c);
            assert(flood(nodes, edges, queue, visited, comm, c) == r);
            assert forall|h: int|
                #[trigger] comm.dom().contains(h) implies r.1.dom().contains(h) && r.1[h]
                == comm[h] by {
                assert(h != u);
                assert(c2.dom().contains(h) && c2[h] == comm[h]);
            }
        }
    }
}

/// The community assignment of the whole store: starts are tried in handle
/// order; each unvisited start floods its weakly-connected component with
/// the next community index.
pub open spec fn communities_from(
    nodes: Seq<GraphNode>,
    edges: Seq<StoredEdge>,
    start: int,
    visited: Set<int>,
    comm: Map<int, int>,
    c: int,
) -> Map<int, int>
    decreases nodes.len() - start,
        when 0 <= start
{
    if start >= nodes.len() {
        comm
    } else if visited.contains(start) {
        communities_from(nodes, edges, start + 1, visited, comm, c)
    } else {
        let r = flood(nodes, edges, seq![start], visited.insert(start), comm, c);
        communities_from(nodes, edges, start + 1, r.0, r.1, c + 1)
    }
}

/// The community of each handle.
pub open spec fn community_map(nodes: Seq<GraphNode>, edges: Seq<StoredEdge>) -> Map<int, int> {
    communities_from(nodes, edges, 0, Set::empty(), Map::empty(), 0)
}

/// What the sweep achieves from any sound intermediate state: every handle
/// ends up assigned; linked handles share an assignment; and handles that
/// share an assignment are weakly connected.
proof fn lemma_communities_from_props(
    nodes: Seq<GraphNode>,
    edges: Seq<StoredEdge>,
    start: int,
    visited: Set<int>,
    comm: Map<int, int>,
    c: int,
)
    requires
        0 <= start <= nodes.len(),
        edges_wf(nodes, edges),
        visited.finite(),
        visited.subset_of(set_int_range(0, nodes.len() as int)),
        comm.dom().finite(),
        comm.dom().subset_of(set_int_range(0, nodes.len() as int)),
        forall|h: int| #[trigger] visited.contains(h) <==> comm.dom().contains(h),
        forall|h: int| 0 <= h < start ==> visited.contains(h),
        forall|u2: int, w: int|
            #[trigger] comm.dom().contains(u2) && #[trigger] linked(edges, u2, w)
                ==> comm.dom().contains(w) && comm[w] == comm[u2],
        forall|u2: int, v2: int|
            #[trigger] comm.dom().contains(u2) && #[trigger] comm.dom().contains(v2) && comm[u2]
                == comm[v2] ==> uconn(edges, u2, v2),
        forall|h: int| #[trigger] comm.dom().contains(h) ==> comm[h] < c,
    ensures
        ({
            let m = communities_from(nodes, edges, start, visited, comm, c);
            &&& forall|h: int| 0 <= h < nodes.len() ==> #[trigger] m.dom().contains(h)
            &&& forall|u2: int, w: int|
                #[trigger] m.dom().contains(u2) && #[trigger] linked(edges, u2, w)
                    ==> m.dom().contains(w) && m[w] == m[u2]
            &&& forall|u2: int, v2: int|
                #[trigger] m.dom().contains(u2) && #[trigger] m.dom().contains(v2) && m[u2]
                    == m[v2] ==> uconn(edges, u2, v2)
        }),
    decreases nodes.len() - start,
{
    if start >= nodes.len() {
        // Nothing is left to sweep: the handles below `start` cover them all.
        let m = communities_from(nodes, edges, start, visited, comm, c);
        assert(m == comm);
        assert forall|h: int| 0 <= h < nodes.len() implies #[trigger] m.dom().contains(h) by {
            assert(visited.contains(h));
        }
    } else if visited.contains(start) {
        lemma_communities_from_props(nodes, edges, start + 1, visited, comm, c);
        assert(communities_from(nodes, edges, start, visited, comm, c) == communities_from(
            nodes,
            edges,
            start + 1,
            visited,
            comm,
            c,
        ));
    } else {
        let v1 = visited.insert(start);
        let q0 = seq![start];
        assert(q0[0] == start);
        assert forall|h: int| q0.contains(h) implies h == start by {
            let j = choose|j: int| 0 <= j < q0.len() && q0[j] == h;
        }
        lemma_uconn_refl(edges, start);
        lemma_flood_props(nodes, edges, q0, v1, comm, c, visited, start);
        let r = flood(nodes, edges, q0, v1, comm, c);
        assert forall|h: int| 0 <= h < start + 1 implies r.0.contains(h) by {
            assert(v1.contains(h));
        }
        // The fresh component: assigned `c`, connected to `start`, and
        // closed; stitch it to the old invariants.
        assert forall|u2: int, w: int|
            #[trigger] r.1.dom().contains(u2) && #[trigger] linked(edges, u2, w) implies r.1
            .dom().contains(w) && r.1[w] == r.1[u2] by {
            if comm.dom().contains(u2) {
                assert(comm.dom().contains(w) && comm[w] == comm[u2]);
            } else {
                assert(r.0.contains(u2));
                assert(r.0.contains(w));
                assert(r.1.dom().contains(w));
                if comm.dom().contains(w) {
                    lemma_linked_sym(edges, u2, w);
                    assert(comm.dom().contains(u2));
                }
            }
        }
        assert forall|u2: int, v2: int|
            #[trigger] r.1.dom().contains(u2) && #[trigger] r.1.dom().contains(v2) && r.1[u2]
                == r.1[v2] implies uconn(edges, u2, v2) by {
            if comm.dom().contains(u2) && comm.dom().contains(v2) {
            } else if !comm.dom().contains(u2) && !comm.dom().contains(v2) {
                assert(uconn(edges, start, u2) && uconn(edges, start, v2));
                lemma_uconn_sym(edges, start, u2);
                lemma_uconn_trans(edges, u2, start, v2);
            } else if comm.dom().contains(u2) {
                assert(comm[u2] < c && r.1[v2] == c);
            } else {
                assert(comm[v2] < c && r.1[u2] == c);
            }
        }
        lemma_communities_from_props(nodes, edges, start + 1, r.0, r.1, c + 1);
        assert(communities_from(nodes, edges, start, visited, comm, c) == communities_from(
            nodes,
            edges,
            start + 1,
            r.0,
            r.1,
            c + 1,
        ));
    }
}

/// Along an undirected walk the assignment never changes, as long as
/// linked handles always share it.
proof fn lemma_walk_same_class(
    edges: Seq<StoredEdge>,
    m: Map<int, int>,
    p: Seq<int>,
)
    requires
        p.len() >= 1,
        is_upath(edges, p),
        m.dom().contains(p.first()),
        forall|u2: int, w: int|
            #[trigger] m.dom().contains(u2) && #[trigger] linked(edges, u2, w)
                ==> m.dom().contains(w) && m[w] == m[u2],
    ensures
        m.dom().contains(p.last()),
        m[p.last()] == m[p.first()],
    decreases p.len(),
{
    if p.len() > 1 {
        assert(linked(edges, p[0], p[1]));
        let q = p.drop_first();
        assert(is_upath(edges, q)) by {
            assert(forall|x: int| 0 <= x < q.len() ==> q[x] == p[x + 1]);
        }
        assert(m.dom().contains(q.first()) && m[q.first()] == m[p.first()]);
        lemma_walk_same_class(edges, m, q);
    }
}

/// The detected communities partition the store: every handle falls in
/// exactly one, and two handles share theirs precisely when some chain of
/// edges, their direction ignored, joins them.
pub proof fn lemma_communities_partition(
    nodes: Seq<GraphNode>,
    edges: Seq<StoredEdge>,
    a: int,
    b: int,
)
    requires
        edges_wf(nodes, edges),
        0 <= a < nodes.len(),
        0 <= b < nodes.len(),
    ensures
        community_map(nodes, edges).dom().contains(a),
        community_map(nodes, edges).dom().contains(b),
        community_map(nodes, edges)[a] == community_map(nodes, edges)[b] <==> uconn(
            edges,
            a,
            b,
        ),
{
    lemma_int_range(0, nodes.len() as int);
    lemma_communities_from_props(nodes, edges, 0, Set::empty(), Map::empty(), 0);
    let m = community_map(nodes, edges);
    assert(m.dom().contains(a));
    assert(m.dom().contains(b));
    if m[a] == m[b] {
        assert(uconn(edges, a, b));
    }
    if uconn(edges, a, b) {
        let p = choose|p: Seq<int>|
            p.len() >= 1 && p.first() == a && p.last() == b && #[trigger] is_upath(edges, p);
        lemma_walk_same_class(edges, m, p);
    }
}

/// Some stored edge joins `a` and `b`, in either direction.
pub open spec fn linked(edges: Seq<StoredEdge>, a: int, b: int) -> bool {
    exists|k: int|
        0 <= k < edges.len() && (((#[trigger] edges[k]).source as int == a && edges[
            k
        ].target as int == b) || (edges[k].source as int == b && edges[k].target as int == a))
}

/// An undirected walk through the store: consecutive entries are linked.
pub open spec fn is_upath(edges: Seq<StoredEdge>, p: Seq<int>) -> bool {
    forall|x: int| 0 <= x < p.len() - 1 ==> linked(edges, #[trigger] p[x], p[x + 1])
}

/// `a` and `b` are weakly connected: some undirected walk joins them.
pub open spec fn uconn(edges: Seq<StoredEdge>, a: int, b: int) -> bool {
    exists|p: Seq<int>|
        p.len() >= 1 && p.first() == a && p.last() == b && #[trigger] is_upath(edges, p)
}

/// Weak connectivity is reflexive.
pub proof fn lemma_uconn_refl(edges: Seq<StoredEdge>, a: int)
    ensures
        uconn(edges, a, a),
{
    let p = seq![a];
    assert(p.len() >= 1 && p.first() == a && p.last() == a && is_upath(edges, p));
}

/// One edge is a walk.
pub proof fn lemma_uconn_step(edges: Seq<StoredEdge>, a: int, b: int)
    requires
        linked(edges, a, b),
    ensures
        uconn(edges, a, b),
{
    let p = seq![a, b];
    assert(p[0] == a && p[1] == b);
    assert(is_upath(edges, p));
    assert(p.len() >= 1 && p.first() == a && p.last() == b);
}

/// A walk read backwards is a walk: weak connectivity is symmetric.
pub proof fn lemma_uconn_sym(edges: Seq<StoredEdge>, a: int, b: int)
    requires
        uconn(edges, a, b),
    ensures
        uconn(edges, b, a),
{
    let p = choose|p: Seq<int>|
        p.len() >= 1 && p.first() == a && p.last() == b && #[trigger] is_upath(edges, p);
    let q = p.reverse();
    assert(q.len() == p.len());
    assert(q.first() == b && q.last() == a);
    assert forall|x: int| 0 <= x < q.len() - 1 implies linked(edges, #[trigger] q[x], q[x + 1]) by {
        assert(q[x] == p[p.len() - 1 - x]);
        assert(q[x + 1] == p[p.len() - 2 - x]);
        assert(linked(edges, p[p.len() - 2 - x], p[p.len() - 1 - x]));
        lemma_linked_sym(edges, p[p.len() - 2 - x], p[p.len() - 1 - x]);
    }
    assert(q.len() >= 1 && q.first() == b && q.last() == a && is_upath(edges, q));
}

/// Being joined by an edge is symmetric.
proof fn lemma_linked_sym(edges: Seq<StoredEdge>, a: int, b: int)
    requires
        linked(edges, a, b),
    ensures
        linked(edges, b, a),
{
}

/// Two walks sharing an endpoint splice into one: weak connectivity is
/// transitive.
pub proof fn lemma_uconn_trans(edges: Seq<StoredEdge>, a: int, b: int, c: int)
    requires
        uconn(edges, a, b),
        uconn(edges, b, c),
    ensures
        uconn(edges, a, c),
{
    let p = choose|p: Seq<int>|
        p.len() >= 1 && p.first() == a && p.last() == b && #[trigger] is_upath(edges, p);
    let q = choose|q: Seq<int>|
        q.len() >= 1 && q.first() == b && q.last() == c && #[trigger] is_upath(edges, q);
    let r = p + q.drop_first();
    assert(r.len() == p.len() + q.len() - 1);
    assert(r.first() == a);
    assert(r.last() == c) by {
        if q.len() == 1 {
            assert(r =~= p);
        } else {
            assert(r.last() == q.drop_first().last());
            assert(q.drop_first().last() == q.last());
        }
    }
    assert forall|x: int| 0 <= x < r.len() - 1 implies linked(edges, #[trigger] r[x], r[x + 1]) by {
        if x < p.len() - 1 {
            assert(r[x] == p[x] && r[x + 1] == p[x + 1]);
        } else if x == p.len() - 1 {
            assert(r[x] == p[p.len() - 1]);
            assert(r[x + 1] == q.drop_first()[0]);
            assert(q.drop_first()[0] == q[1]);
            assert(linked(edges, q[0], q[1]));
        } else {
            assert(r[x] == q.drop_first()[x - p.len()]);
            assert(r[x + 1] == q.drop_first()[x + 1 - p.len()]);
            assert(q.drop_first()[x - p.len()] == q[x - p.len() + 1]);
            assert(q.drop_first()[x + 1 - p.len()] == q[x - p.len() + 2]);
            assert(linked(edges, q[x - p.len() + 1], q[x - p.len() + 2]));
        }
    }
    assert(r.len() >= 1 && r.first() == a && r.last() == c && is_upath(edges, r));
}

/// Membership in a sequence, split at its head.
proof fn lemma_contains_step(s: Seq<int>, h: int)
    requires
        s.len() > 0,
    ensures
        s.contains(h) <==> (s[0] == h || s.drop_first().contains(h)),
{
    if s.contains(h) {
        let i = choose|i: int| 0 <= i < s.len() && s[i] == h;
        if i > 0 {
            assert(s.drop_first()[i - 1] == h);
        }
    }
    if s.drop_first().contains(h) {
        let i = choose|i: int| 0 <= i < s.drop_first().len() && s.drop_first()[i] == h;
        assert(s[i + 1] == h);
    }
}

/// Membership in a sequence after pushing a value.
proof fn lemma_contains_push(s: Seq<int>, v: int, h: int)
    ensures
        s.push(v).contains(h) <==> (s.contains(h) || h == v),
{
    if s.push(v).contains(h) {
        let i = choose|i: int| 0 <= i < s.push(v).len() && s.push(v)[i] == h;
        if i < s.len() {
            assert(s[i] == h);
        }
    }
    if s.contains(h) {
        let i = choose|i: int| 0 <= i < s.len() && s[i] == h;
        assert(s.push(v)[i] == h);
    }
    assert(s.push(v)[s.len() as int] == v);
}

impl CartographyEngine {
    /// Partitions the nodes into weakly-connected components: breadth-first
    /// floods over the edges with their direction ignored, started at each
    /// yet-unvisited node in handle order, with contiguous community
    /// indices counted up from zero. Yields one `(id, community)` pair per
    /// node, in handle order.
    pub fn detect_communities(&self) -> (r: Vec<(String, usize)>)
        requires
            self.wf(),
        ensures
            r@.len() == self.nodes@.len(),
            forall|i: int|
                0 <= i < r@.len() ==> (#[trigger] r@[i]).0@ == self.nodes@[i].id@
                    && community_map(self.nodes@, self.edges@).dom().contains(i)
                    && r@[i].1 as int == community_map(self.nodes@, self.edges@)[i],
    {
        let n = self.nodes.len();
        let m = self.edges.len();
        let mut visited_f: Vec<bool> = crate::impact::false_flags(n);
        let mut assigned_f: Vec<bool> = crate::impact::false_flags(n);
        let mut comm_v: Vec<usize> = zero_values(n);
        let ghost mut visited: Set<int> = Set::empty();
        let ghost mut comm: Map<int, int> = Map::empty();
        let mut c: usize = 0;
        let mut start: usize = 0;

        while start < n
            invariant
                self.wf(),
                n == self.nodes@.len(),
                m == self.edges@.len(),
                start <= n,
                visited_f@.len() == n,
                assigned_f@.len() == n,
                comm_v@.len() == n,
                visited.finite(),
                visited.subset_of(set_int_range(0, n as int)),
                comm.dom().finite(),
                comm.dom().subset_of(set_int_range(0, n as int)),
                forall|h: int| 0 <= h < n ==> (visited.contains(h) <==> visited_f@[h]),
                forall|h: int| 0 <= h < n ==> (comm.dom().contains(h) <==> assigned_f@[h]),
                forall|h: int| visited.contains(h) <==> comm.dom().contains(h),
                forall|h: int| 0 <= h < start ==> visited.contains(h),
                forall|h: int|
                    comm.dom().contains(h) ==> #[trigger] comm[h] == comm_v@[h] as int,
                c as int <= comm.dom().len(),
                communities_from(self.nodes@, self.edges@, start as int, visited, comm, c as int)
                    == community_map(self.nodes@, self.edges@),
            decreases n - start,
        {
            if !visited_f[start] {
                let ghost visited0 = visited;
                let ghost comm0 = comm;
                visited_f[start] = true;
                proof {
                    visited = visited.insert(start as int);
                }
                let mut queue: Vec<usize> = Vec::new();
                queue.push(start);
                let ghost mut gq: Seq<int> = seq![start as int];
                let mut qi: usize = 0;
                proof {
                    assert(gq =~= queue@.subrange(qi as int, queue@.len() as int).map_values(
                        |x: usize| x as int,
                    ));
                    assert(gq[0] == start as int);
                    assert(gq.contains(start as int));
                    assert(c as int <= comm0.dom().len());
                    assert(!comm0.dom().contains(start as int));
                }

                while qi < queue.len()
                    invariant
                        self.wf(),
                        n == self.nodes@.len(),
                        m == self.edges@.len(),
                        qi <= queue@.len(),
                        start < n,
                        visited_f@.len() == n,
                        assigned_f@.len() == n,
                        comm_v@.len() == n,
                        visited.finite(),
                        visited.subset_of(set_int_range(0, n as int)),
                        comm.dom().finite(),
                        comm.dom().subset_of(set_int_range(0, n as int)),
                        forall|h: int| 0 <= h < n ==> (visited.contains(h) <==> visited_f@[h]),
                        forall|h: int|
                            0 <= h < n ==> (comm.dom().contains(h) <==> assigned_f@[h]),
                        forall|h: int|
                            visited.contains(h) <==> (comm.dom().contains(h) || gq.contains(h)),
                        visited.contains(start as int),
                        forall|h: int| 0 <= h < start ==> visited.contains(h),
                        forall|h: int|
                            comm.dom().contains(h) ==> #[trigger] comm[h] == comm_v@[h] as int,
                        forall|h: int| comm0.dom().contains(h) ==> comm.dom().contains(h),
                        c as int <= comm.dom().len(),
                        gq == queue@.subrange(qi as int, queue@.len() as int).map_values(
                            |x: usize| x as int,
                        ),
                        forall|j2: int| 0 <= j2 < gq.len() ==> 0 <= #[trigger] gq[j2] < n,
                        flood(self.nodes@, self.edges@, gq, visited, comm, c as int) == flood(
                            self.nodes@,
                            self.edges@,
                            seq![start as int],
                            visited0.insert(start as int),
                            comm0,
                            c as int,
                        ),
                    decreases n - comm.dom().len(), queue@.len() - qi,
                {
                    let u = queue[qi];
                    let ghost gq0 = gq;
                    qi = qi + 1;
                    proof {
                        assert(gq0.first() == u as int);
                        assert(0 <= gq0[0] < n);
                        gq = gq.drop_first();
                        assert(gq =~= queue@.subrange(qi as int, queue@.len() as int).map_values(
                            |x: usize| x as int,
                        ));
                        assert forall|h: int|
                            gq0.contains(h) <==> (h == u as int || gq.contains(h)) by {
                            lemma_contains_step(gq0, h);
                        }
                    }
                    if assigned_f[u] {
                        proof {
                            assert(flood(self.nodes@, self.edges@, gq0, visited, comm, c as int)
                                == flood(self.nodes@, self.edges@, gq, visited, comm, c as int));
                        }
                    } else {
                        let ghost v0 = visited;
                        let ghost g0 = gq;
                        proof {
                            assert(self.edges@.subrange(0, 0) =~= Seq::<StoredEdge>::empty());
                            assert(gq.skip(g0.len() as int) =~= Seq::<int>::empty());
                            assert(gq.subrange(0, g0.len() as int) =~= g0);
                        }
                        let mut k: usize = 0;
                        while k < m
                            invariant
                                self.wf(),
                                n == self.nodes@.len(),
                                m == self.edges@.len(),
                                k <= m,
                                u < n,
                                qi <= queue@.len(),
                                visited_f@.len() == n,
                                visited.finite(),
                                visited.subset_of(set_int_range(0, n as int)),
                                forall|h: int|
                                    0 <= h < n ==> (visited.contains(h) <==> visited_f@[h]),
                                forall|h: int|
                                    h != u as int ==> (visited.contains(h) <==> (
                                    comm.dom().contains(h) || gq.contains(h))),
                                visited.contains(u as int),
                                !comm.dom().contains(u as int),
                                gq == queue@.subrange(qi as int, queue@.len() as int).map_values(
                                    |x: usize| x as int,
                                ),
                                uexpand_out(self.edges@.subrange(0, k as int), u as int, v0) == (
                                    gq.skip(g0.len() as int),
                                    visited,
                                ),
                                gq.len() >= g0.len(),
                                gq.subrange(0, g0.len() as int) == g0,
                                forall|j2: int| 0 <= j2 < gq.len() ==> 0 <= #[trigger] gq[j2] < n,
                            decreases m - k,
                        {
                            proof {
                                assert(self.edges@.subrange(0, k + 1).drop_last()
                                    =~= self.edges@.subrange(0, k as int));
                                assert(self.edges@.subrange(0, k + 1).last()
                                    == self.edges@[k as int]);
                            }
                            let tgt = self.edges[k].target;
                            if self.edges[k].source == u && !visited_f[tgt] {
                                visited_f[tgt] = true;
                                queue.push(tgt);
                                proof {
                                    visited = visited.insert(tgt as int);
                                    let gq_prev = gq;
                                    gq = gq.push(tgt as int);
                                    assert(gq =~= queue@.subrange(
                                        qi as int,
                                        queue@.len() as int,
                                    ).map_values(|x: usize| x as int));
                                    assert(gq.skip(g0.len() as int) =~= gq_prev.skip(
                                        g0.len() as int,
                                    ).push(tgt as int));
                                    assert(gq.subrange(0, g0.len() as int) =~= gq_prev.subrange(
                                        0,
                                        g0.len() as int,
                                    ));
                                    assert forall|h: int|
                                        gq.contains(h) <==> (gq_prev.contains(h) || h
                                        == tgt as int) by {
                                        lemma_contains_push(gq_prev, tgt as int, h);
                                    }
                                }
                            }
                            k = k + 1;
                        }
                        let ghost v1 = visited;
                        let ghost g1 = gq;
                        proof {
                            assert(self.edges@.subrange(0, m as int) =~= self.edges@);
                            assert(self.edges@.subrange(0, 0) =~= Seq::<StoredEdge>::empty());
                            assert(gq.skip(g1.len() as int) =~= Seq::<int>::empty());
                            assert(gq.subrange(0, g1.len() as int) =~= g1);
                        }
                        let mut k2: usize = 0;
                        while k2 < m
                            invariant
                                self.wf(),
                                n == self.nodes@.len(),
                                m == self.edges@.len(),
                                k2 <= m,
                                u < n,
                                qi <= queue@.len(),
                                visited_f@.len() == n,
                                visited.finite(),
                                visited.subset_of(set_int_range(0, n as int)),
                                forall|h: int|
                                    0 <= h < n ==> (visited.contains(h) <==> visited_f@[h]),
                                forall|h: int|
                                    h != u as int ==> (visited.contains(h) <==> (
                                    comm.dom().contains(h) || gq.contains(h))),
                                visited.contains(u as int),
                                !comm.dom().contains(u as int),
                                gq == queue@.subrange(qi as int, queue@.len() as int).map_values(
                                    |x: usize| x as int,
                                ),
                                uexpand_in(self.edges@.subrange(0, k2 as int), u as int, v1) == (
                                    gq.skip(g1.len() as int),
                                    visited,
                                ),
                                gq.len() >= g1.len(),
                                gq.subrange(0, g1.len() as int) == g1,
                                forall|j2: int| 0 <= j2 < gq.len() ==> 0 <= #[trigger] gq[j2] < n,
                            decreases m - k2,
                        {
                            proof {
                                assert(self.edges@.subrange(0, k2 + 1).drop_last()
                                    =~= self.edges@.subrange(0, k2 as int));
                                assert(self.edges@.subrange(0, k2 + 1).last()
                                    == self.edges@[k2 as int]);
                            }
                            let src = self.edges[k2].source;
                            if self.edges[k2].target == u && !visited_f[src] {
                                visited_f[src] = true;
                                queue.push(src);
                                proof {
                                    visited = visited.insert(src as int);
                                    let gq_prev = gq;
                                    gq = gq.push(src as int);
                                    assert(gq =~= queue@.subrange(
                                        qi as int,
                                        queue@.len() as int,
                                    ).map_values(|x: usize| x as int));
                                    assert(gq.skip(g1.len() as int) =~= gq_prev.skip(
                                        g1.len() as int,
                                    ).push(src as int));
                                    assert(gq.subrange(0, g1.len() as int) =~= gq_prev.subrange(
                                        0,
                                        g1.len() as int,
                                    ));
                                    assert forall|h: int|
                                        gq.contains(h) <==> (gq_prev.contains(h) || h
                                        == src as int) by {
                                        lemma_contains_push(gq_prev, src as int, h);
                                    }
                                }
                            }
                            k2 = k2 + 1;
                        }
                        assigned_f[u] = true;
                        comm_v[u] = c;
                        proof {
                            assert(self.edges@.subrange(0, m as int) =~= self.edges@);
                            let r1 = uexpand_out(self.edges@, u as int, v0);
                            let r2 = uexpand_in(self.edges@, u as int, v1);
                            lemma_uexpand_out_range(self.nodes@, self.edges@, u as int, v0);
                            lemma_uexpand_in_range(self.nodes@, self.edges@, u as int, v1);
                            assert(gq.skip(g1.len() as int) == r2.0);
                            assert(g1.skip(g0.len() as int) == r1.0);
                            assert(g1 =~= g0 + r1.0);
                            assert(gq =~= g1 + r2.0);
                            let comm_prev = comm;
                            comm = comm.insert(u as int, c as int);
                            // One unfolding of the flood at the state just popped.
                            assert(flood(self.nodes@, self.edges@, gq0, v0, comm_prev, c as int)
                                == flood(
                                self.nodes@,
                                self.edges@,
                                gq0.drop_first() + r1.0 + r2.0,
                                r2.1,
                                comm,
                                c as int,
                            ));
                            assert(gq0.drop_first() + r1.0 + r2.0 =~= gq);
                            assert(comm.dom() =~= comm_prev.dom().insert(u as int));
                            lemma_int_range(0, n as int);
                            lemma_len_subset(comm.dom(), set_int_range(0, n as int));
                        }
                    }
                }
                proof {
                    assert(gq =~= Seq::<int>::empty());
                    assert(flood(self.nodes@, self.edges@, gq, visited, comm, c as int) == (
                        visited,
                        comm,
                    ));
                    assert(comm.dom().contains(start as int));
                    lemma_int_range(0, n as int);
                    assert(comm0.dom().subset_of(
                        set_int_range(0, n as int).remove(start as int),
                    ));
                    lemma_len_subset(
                        comm0.dom(),
                        set_int_range(0, n as int).remove(start as int),
                    );
                    lemma_len_subset(comm0.dom().insert(start as int), comm.dom());
                    assert(communities_from(
                        self.nodes@,
                        self.edges@,
                        start as int,
                        visited0,
                        comm0,
                        c as int,
                    ) == communities_from(
                        self.nodes@,
                        self.edges@,
                        start + 1,
                        visited,
                        comm,
                        c as int + 1,
                    ));
                }
                c = c + 1;
            }
            start = start + 1;
        }
        proof {
            assert(communities_from(self.nodes@, self.edges@, start as int, visited, comm, c as int)
                == comm);
            assert(community_map(self.nodes@, self.edges@) == comm);
            assert forall|h: int| 0 <= h < n implies community_map(self.nodes@, self.edges@).dom()
                .contains(h) by {
                assert(visited.contains(h));
                assert(comm.dom().contains(h));
            }
            assert forall|h: int|
                0 <= h < n implies #[trigger] community_map(self.nodes@, self.edges@)[h]
                == comm_v@[h] as int by {
                assert(comm.dom().contains(h));
                assert(comm[h] == comm_v@[h] as int);
            }
        }

        let mut r: Vec<(String, usize)> = Vec::new();
        let mut i: usize = 0;
        while i < n
            invariant
                n == self.nodes@.len(),
                comm_v@.len() == n,
                i <= n,
                r@.len() == i,
                forall|h: int| 0 <= h < n ==> community_map(self.nodes@, self.edges@).dom()
                    .contains(h),
                forall|h: int|
                    0 <= h < n ==> #[trigger] community_map(self.nodes@, self.edges@)[h]
                        == comm_v@[h] as int,
                forall|j: int|
                    0 <= j < i ==> (#[trigger] r@[j]).0@ == self.nodes@[j].id@ && r@[j].1
                        == comm_v@[j],
            decreases n - i,
        {
            let id = self.nodes[i].id.clone();
            let cv = comm_v[i];
            r.push((id, cv));
            i = i + 1;
        }
        r
    }
}

/// A vector of `n` zeroes.
pub(crate) fn zero_values(n: usize) -> (v: Vec<usize>)
    ensures
        v@.len() == n,
        forall|j: int| 0 <= j < n ==> v@[j] == 0,
{
    let mut v: Vec<usize> = Vec::new();
    let mut k: usize = 0;
    while k < n
        invariant
            k <= n,
            v@.len() == k,
            forall|j: int| 0 <= j < k ==> v@[j] == 0,
        decreases n - k,
    {
        v.push(0);
        k = k + 1;
    }
    v
}

} // verus!
