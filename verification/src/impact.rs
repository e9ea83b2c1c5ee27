use vstd::prelude::*;

use crate::store::CartographyEngine;
use crate::store::GraphError;
use crate::store::GraphNode;
use crate::store::StoredEdge;
use crate::store::edges_wf;
use crate::store::lemma_resolve_in_range;
use crate::store::resolve_id;

verus! {

use vstd::set_lib::lemma_len_subset;
use vstd::set_lib::lemma_int_range;
use vstd::set_lib::set_int_range;
use vstd::string::StringExecFns;

broadcast use vstd::set::group_set_axioms;

/// What `AnalyzeImpact` reports of one node: its outgoing relationships
/// classified by type, what depends on it, the transitive closure of its
/// dependents, and a weighted impact score (in thousandths, rounded down).
pub struct ImpactAnalysis {
    pub node_id: String,
    pub directly_dependent: Vec<String>,
    pub indirectly_dependent: Vec<String>,
    pub media_references: Vec<String>,
    pub tags: Vec<String>,
    pub backlinks: Vec<String>,
    /// `(|direct| + 0.5 |indirect| + 0.3 |media| + 0.7 |backlinks|) / max(nodeCount, 1)`,
    /// in thousandths, rounded down.
    pub impact_score_milli: u128,
}

/// Ids of the targets of the edges that leave `u` under relationship `rel`,
/// in store order.
pub open spec fn out_targets(
    nodes: Seq<GraphNode>,
    edges: Seq<StoredEdge>,
    u: int,
    rel: Seq<char>,
) -> Seq<Seq<char>>
    decreases edges.len(),
{
    if edges.len() == 0 {
        Seq::empty()
    } else {
        let p = out_targets(nodes, edges.drop_last(), u, rel);
        let e = edges.last();
        if e.source as int == u && e.edge.relationship_type@ == rel {
            p.push(nodes[e.target as int].id@)
        } else {
            p
        }
    }
}

/// Ids of the sources of the edges that enter `u` under a relationship of
/// `depends_on` or `references`, in store order.
pub open spec fn backlink_sources(
    nodes: Seq<GraphNode>,
    edges: Seq<StoredEdge>,
    u: int,
) -> Seq<Seq<char>>
    decreases edges.len(),
{
    if edges.len() == 0 {
        Seq::empty()
    } else {
        let p = backlink_sources(nodes, edges.drop_last(), u);
        let e = edges.last();
        if e.target as int == u && (e.edge.relationship_type@ == "depends_on"@
            || e.edge.relationship_type@ == "references"@) {
            p.push(nodes[e.source as int].id@)
        } else {
            p
        }
    }
}

/// The handles the given ids resolve to, in order; an id that no longer
/// resolves is passed over.
pub open spec fn resolve_all(nodes: Seq<GraphNode>, ids: Seq<Seq<char>>) -> Seq<int>
    decreases ids.len(),
{
    if ids.len() == 0 {
        Seq::empty()
    } else {
        let p = resolve_all(nodes, ids.drop_last());
        match resolve_id(nodes, ids.last()) {
            Some(h) => p.push(h),
            None => p,
        }
    }
}

/// Every handle `resolve_all` yields is a valid index into the node arena.
pub proof fn lemma_resolve_all_range(nodes: Seq<GraphNode>, ids: Seq<Seq<char>>)
    ensures
        forall|j: int|
            0 <= j < resolve_all(nodes, ids).len()
                ==> 0 <= #[trigger] resolve_all(nodes, ids)[j] < nodes.len(),
    decreases ids.len(),
{
    if ids.len() > 0 {
        lemma_resolve_all_range(nodes, ids.drop_last());
        lemma_resolve_in_range(nodes, ids.last());
        let p = resolve_all(nodes, ids.drop_last());
        let w = resolve_all(nodes, ids);
        assert forall|j: int| 0 <= j < w.len() implies 0 <= #[trigger] w[j] < nodes.len() by {
            if j < p.len() {
                assert(w[j] == p[j]);
            }
        }
    }
}

/// The relationship tags told apart in the impact classification differ
/// from one another.
proof fn lemma_rel_distinct()
    ensures
        "depends_on"@ != "uses_media"@,
        "depends_on"@ != "tagged_with"@,
        "uses_media"@ != "tagged_with"@,
{
    reveal_strlit("depends_on");
    reveal_strlit("uses_media");
    reveal_strlit("tagged_with");
    assert("depends_on"@[0] != "uses_media"@[0]);
    assert("depends_on"@.len() != "tagged_with"@.len());
    assert("uses_media"@.len() != "tagged_with"@.len());
}

/// The seeds of the indirect-dependency search: the direct dependents'
/// ids, resolved back to handles (under id rebinding an id may resolve to a
/// newer node than the edge's own target).
pub open spec fn seed_handles(nodes: Seq<GraphNode>, edges: Seq<StoredEdge>, u: int) -> Seq<int> {
    resolve_all(nodes, out_targets(nodes, edges, u, "depends_on"@))
}

/// One expansion step of the breadth-first discovery: scanning the edges in
/// store order for edges leaving `u`, every target not yet in `found` is
/// recorded. Yields the handles to enqueue, the grown `found` set and the
/// grown discovery list.
pub open spec fn expand(
    nodes: Seq<GraphNode>,
    edges: Seq<StoredEdge>,
    u: int,
    found: Set<int>,
    acc: Seq<Seq<char>>,
) -> (Seq<int>, Set<int>, Seq<Seq<char>>)
    decreases edges.len(),
{
    if edges.len() == 0 {
        (Seq::empty(), found, acc)
    } else {
        let r = expand(nodes, edges.drop_last(), u, found, acc);
        let e = edges.last();
        if e.source as int == u && !r.1.contains(e.target as int) {
            (r.0.push(e.target as int), r.1.insert(e.target as int), r.2.push(
                nodes[e.target as int].id@,
            ))
        } else {
            r
        }
    }
}

/// Breadth-first discovery order over outgoing edges: nodes are expanded in
/// queue order, each at most once; every node first reached by an edge is
/// appended to the discovery list at that moment (so the seeds themselves
/// appear only if some edge leads back to them).
pub open spec fn discovery(
    nodes: Seq<GraphNode>,
    edges: Seq<StoredEdge>,
    queue: Seq<int>,
    expanded: Set<int>,
    found: Set<int>,
    acc: Seq<Seq<char>>,
) -> Seq<Seq<char>>
    decreases nodes.len() - expanded.len(), queue.len(),
        when expanded.finite() && expanded.subset_of(set_int_range(0, nodes.len() as int))
            && (forall|j: int| 0 <= j < queue.len() ==> 0 <= #[trigger] queue[j] < nodes.len())
            && edges_wf(nodes, edges)
        via discovery_decreases
{
    if queue.len() == 0 {
        acc
    } else {
        let u = queue.first();
        if expanded.contains(u) {
            discovery(nodes, edges, queue.drop_first(), expanded, found, acc)
        } else {
            let r = expand(nodes, edges, u, found, acc);
            discovery(
                nodes,
                edges,
                queue.drop_first() + r.0,
                expanded.insert(u),
                r.1,
                r.2,
            )
        }
    }
}

#[via_fn]
proof fn discovery_decreases(
    nodes: Seq<GraphNode>,
    edges: Seq<StoredEdge>,
    queue: Seq<int>,
    expanded: Set<int>,
    found: Set<int>,
    acc: Seq<Seq<char>>,
) {
    lemma_int_range(0, nodes.len() as int);
    lemma_len_subset(expanded, set_int_range(0, nodes.len() as int));
    if queue.len() > 0 && !expanded.contains(queue.first()) {
        lemma_len_subset(
            expanded.insert(queue.first()),
            set_int_range(0, nodes.len() as int),
        );
    }
}

/// A shorter edge prefix is still well formed.
pub proof fn lemma_edges_wf_drop_last(nodes: Seq<GraphNode>, edges: Seq<StoredEdge>)
    requires
        edges_wf(nodes, edges),
        edges.len() > 0,
    ensures
        edges_wf(nodes, edges.drop_last()),
{
    assert(forall|k: int| 0 <= k < edges.len() - 1 ==> edges.drop_last()[k] == edges[k]);
}

/// Everything `expand` enqueues is an edge target, hence a valid handle.
pub proof fn lemma_expand_range(
    nodes: Seq<GraphNode>,
    edges: Seq<StoredEdge>,
    u: int,
    found: Set<int>,
    acc: Seq<Seq<char>>,
)
    requires
        edges_wf(nodes, edges),
    ensures
        forall|j: int|
            0 <= j < expand(nodes, edges, u, found, acc).0.len()
                ==> 0 <= #[trigger] expand(nodes, edges, u, found, acc).0[j] < nodes.len(),
    decreases edges.len(),
{
    if edges.len() > 0 {
        lemma_edges_wf_drop_last(nodes, edges);
        lemma_expand_range(nodes, edges.drop_last(), u, found, acc);
        let r = expand(nodes, edges.drop_last(), u, found, acc);
        let w = expand(nodes, edges, u, found, acc);
        let e = edges.last();
        if e.source as int == u && !r.1.contains(e.target as int) {
            assert(w.0 == r.0.push(e.target as int));
            assert forall|j: int| 0 <= j < w.0.len() implies 0 <= #[trigger] w.0[j]
                < nodes.len() by {
                if j < r.0.len() {
                    assert(w.0[j] == r.0[j]);
                } else {
                    assert(w.0[j] == e.target as int);
                }
            }
        }
    }
}

/// The whole indirect-dependency list of `u`: breadth-first discovery
/// seeded by the direct dependents.
pub open spec fn indirect_of(nodes: Seq<GraphNode>, edges: Seq<StoredEdge>, u: int) -> Seq<
    Seq<char>,
> {
    discovery(nodes, edges, seed_handles(nodes, edges, u), Set::empty(), Set::empty(), Seq::empty())
}

/// The impact score in thousandths, rounded down: direct dependents weigh
/// 1.0, indirect ones 0.5, media references 0.3 and backlinks 0.7,
/// normalized by the node count (floored at one).
pub open spec fn impact_score_milli_of(
    direct: nat,
    indirect: nat,
    media: nat,
    back: nat,
    node_count: nat,
) -> int {
    (1000 * direct + 500 * indirect + 300 * media + 700 * back) as int / (if node_count == 0 {
        1int
    } else {
        node_count as int
    })
}

/// Of a node with no incident edges the analysis has nothing to say: the
/// four classified lists and the indirect closure are empty, and the
/// impact score is zero.
pub proof fn lemma_isolated_node_impact(nodes: Seq<GraphNode>, edges: Seq<StoredEdge>, u: int)
    requires
        edges_wf(nodes, edges),
        forall|k: int|
            0 <= k < edges.len() ==> ((#[trigger] edges[k]).source as int) != u && (edges[
                k
            ].target as int) != u,
    ensures
        out_targets(nodes, edges, u, "depends_on"@) == Seq::<Seq<char>>::empty(),
        out_targets(nodes, edges, u, "uses_media"@) == Seq::<Seq<char>>::empty(),
        out_targets(nodes, edges, u, "tagged_with"@) == Seq::<Seq<char>>::empty(),
        backlink_sources(nodes, edges, u) == Seq::<Seq<char>>::empty(),
        indirect_of(nodes, edges, u) == Seq::<Seq<char>>::empty(),
        impact_score_milli_of(0, 0, 0, 0, nodes.len() as nat) == 0,
{
    lemma_no_out_edges(nodes, edges, u, "depends_on"@);
    lemma_no_out_edges(nodes, edges, u, "uses_media"@);
    lemma_no_out_edges(nodes, edges, u, "tagged_with"@);
    lemma_no_in_edges(nodes, edges, u);
    assert(seed_handles(nodes, edges, u) == Seq::<int>::empty());
    assert(indirect_of(nodes, edges, u) == Seq::<Seq<char>>::empty());
}

/// Without outgoing edges there are no outgoing targets of any kind.
proof fn lemma_no_out_edges(nodes: Seq<GraphNode>, edges: Seq<StoredEdge>, u: int, rel: Seq<char>)
    requires
        forall|k: int| 0 <= k < edges.len() ==> ((#[trigger] edges[k]).source as int) != u,
    ensures
        out_targets(nodes, edges, u, rel) == Seq::<Seq<char>>::empty(),
    decreases edges.len(),
{
    if edges.len() > 0 {
        assert(forall|k: int|
            0 <= k < edges.len() - 1 ==> edges.drop_last()[k] == edges[k]);
        lemma_no_out_edges(nodes, edges.drop_last(), u, rel);
    }
}

/// Without incoming edges there are no backlinks.
proof fn lemma_no_in_edges(nodes: Seq<GraphNode>, edges: Seq<StoredEdge>, u: int)
    requires
        forall|k: int| 0 <= k < edges.len() ==> ((#[trigger] edges[k]).target as int) != u,
    ensures
        backlink_sources(nodes, edges, u) == Seq::<Seq<char>>::empty(),
    decreases edges.len(),
{
    if edges.len() > 0 {
        assert(forall|k: int|
            0 <= k < edges.len() - 1 ==> edges.drop_last()[k] == edges[k]);
        lemma_no_in_edges(nodes, edges.drop_last(), u);
    }
}

/// Appends the id of the node at handle `h` to `list`.
pub(crate) fn push_node_id(list: &mut Vec<String>, nodes: &Vec<GraphNode>, h: usize)
    requires
        h < nodes@.len(),
    ensures
        final(list).deep_view() == old(list).deep_view().push(nodes@[h as int].id@),
{
    let s = nodes[h].id.clone();
    list.push(s);
    proof {
        assert(list.deep_view() =~= old(list).deep_view().push(nodes@[h as int].id@));
    }
}

/// A vector of `n` cleared flags.
pub(crate) fn false_flags(n: usize) -> (v: Vec<bool>)
    ensures
        v@.len() == n,
        forall|j: int| 0 <= j < n ==> !v@[j],
{
    let mut v: Vec<bool> = Vec::new();
    let mut k: usize = 0;
    while k < n
        invariant
            k <= n,
            v@.len() == k,
            forall|j: int| 0 <= j < k ==> !v@[j],
        decreases n - k,
    {
        v.push(false);
        k = k + 1;
    }
    v
}

impl CartographyEngine {
    /// Classifies the node's relationships and scores its impact.
    ///
    /// Outgoing edges are split by relationship type into direct
    /// dependents, media references and tags (other types are ignored);
    /// backlinks are the sources of incoming `depends_on` or `references`
    /// edges; the indirect dependents are found breadth-first from the
    /// direct ones over outgoing edges of any type. Fails exactly when the
    /// id is unknown.
    pub fn analyze_impact(&self, node_id: &str) -> (r: Result<ImpactAnalysis, GraphError>)
        requires
            self.wf(),
        ensures
            match r {
                Ok(a) => {
                    &&& resolve_id(self.nodes@, node_id@) is Some
                    &&& a.node_id@ == node_id@
                    &&& a.directly_dependent.deep_view() == out_targets(
                        self.nodes@,
                        self.edges@,
                        resolve_id(self.nodes@, node_id@).unwrap(),
                        "depends_on"@,
                    )
                    &&& a.media_references.deep_view() == out_targets(
                        self.nodes@,
                        self.edges@,
                        resolve_id(self.nodes@, node_id@).unwrap(),
                        "uses_media"@,
                    )
                    &&& a.tags.deep_view() == out_targets(
                        self.nodes@,
                        self.edges@,
                        resolve_id(self.nodes@, node_id@).unwrap(),
                        "tagged_with"@,
                    )
                    &&& a.backlinks.deep_view() == backlink_sources(
                        self.nodes@,
                        self.edges@,
                        resolve_id(self.nodes@, node_id@).unwrap(),
                    )
                    &&& a.indirectly_dependent.deep_view() == indirect_of(
                        self.nodes@,
                        self.edges@,
                        resolve_id(self.nodes@, node_id@).unwrap(),
                    )
                    &&& a.impact_score_milli as int == impact_score_milli_of(
                        a.directly_dependent@.len(),
                        a.indirectly_dependent@.len(),
                        a.media_references@.len(),
                        a.backlinks@.len(),
                        self.nodes@.len(),
                    )
                },
                Err(e) => e == GraphError::NotFound && resolve_id(self.nodes@, node_id@) is None,
            },
    {
        let idx = match self.lookup(node_id) {
            Some(i) => i,
            None => {
                return Err(GraphError::NotFound);
            },
        };
        proof {
            lemma_resolve_in_range(self.nodes@, node_id@);
        }
        let ghost u: int = idx as int;

        let dep = String::from_str("depends_on");
        let med = String::from_str("uses_media");
        let tag = String::from_str("tagged_with");
        let refs = String::from_str("references");

        let mut directly: Vec<String> = Vec::new();
        let mut media: Vec<String> = Vec::new();
        let mut tag_ids: Vec<String> = Vec::new();
        let mut backs: Vec<String> = Vec::new();

        let m = self.edges.len();
        let mut k: usize = 0;
        proof {
            assert(self.edges@.subrange(0, 0) =~= Seq::<StoredEdge>::empty());
            assert(directly.deep_view() =~= Seq::<Seq<char>>::empty());
            assert(media.deep_view() =~= Seq::<Seq<char>>::empty());
            assert(tag_ids.deep_view() =~= Seq::<Seq<char>>::empty());
            assert(backs.deep_view() =~= Seq::<Seq<char>>::empty());
        }
        while k < m
            invariant
                self.wf(),
                m == self.edges@.len(),
                k <= m,
                u == idx as int,
                0 <= u < self.nodes@.len(),
                dep@ == "depends_on"@,
                med@ == "uses_media"@,
                tag@ == "tagged_with"@,
                refs@ == "references"@,
                directly.deep_view() == out_targets(
                    self.nodes@,
                    self.edges@.subrange(0, k as int),
                    u,
                    "depends_on"@,
                ),
                media.deep_view() == out_targets(
                    self.nodes@,
                    self.edges@.subrange(0, k as int),
                    u,
                    "uses_media"@,
                ),
                tag_ids.deep_view() == out_targets(
                    self.nodes@,
                    self.edges@.subrange(0, k as int),
                    u,
                    "tagged_with"@,
                ),
                backs.deep_view() == backlink_sources(
                    self.nodes@,
                    self.edges@.subrange(0, k as int),
                    u,
                ),
            decreases m - k,
        {
            proof {
                lemma_rel_distinct();
                assert(self.edges@.subrange(0, k + 1).drop_last() =~= self.edges@.subrange(
                    0,
                    k as int,
                ));
                assert(self.edges@.subrange(0, k + 1).last() == self.edges@[k as int]);
            }
            let src = self.edges[k].source;
            let tgt = self.edges[k].target;
            if src == idx {
                if self.edges[k].edge.relationship_type.eq(&dep) {
                    push_node_id(&mut directly, &self.nodes, tgt);
                } else if self.edges[k].edge.relationship_type.eq(&med) {
                    push_node_id(&mut media, &self.nodes, tgt);
                } else if self.edges[k].edge.relationship_type.eq(&tag) {
                    push_node_id(&mut tag_ids, &self.nodes, tgt);
                }
            }
            if tgt == idx && (self.edges[k].edge.relationship_type.eq(&dep)
                || self.edges[k].edge.relationship_type.eq(&refs)) {
                push_node_id(&mut backs, &self.nodes, src);
            }
            k = k + 1;
        }
        proof {
            assert(self.edges@.subrange(0, m as int) =~= self.edges@);
        }

        let indirectly = self.collect_indirect(&directly);

        let n = self.nodes.len();
        let denom: u128 = if n == 0 {
            1
        } else {
            n as u128
        };
        let score: u128 = (1000 * (directly.len() as u128) + 500 * (indirectly.len() as u128)
            + 300 * (media.len() as u128) + 700 * (backs.len() as u128)) / denom;

        Ok(
            ImpactAnalysis {
                node_id: String::from_str(node_id),
                directly_dependent: directly,
                indirectly_dependent: indirectly,
                media_references: media,
                tags: tag_ids,
                backlinks: backs,
                impact_score_milli: score,
            },
        )
    }

    /// The indirect dependents: breadth-first discovery over outgoing edges,
    /// seeded by the direct dependents' ids.
    fn collect_indirect(&self, direct_ids: &Vec<String>) -> (r: Vec<String>)
        requires
            self.wf(),
        ensures
            r.deep_view() == discovery(
                self.nodes@,
                self.edges@,
                resolve_all(self.nodes@, direct_ids.deep_view()),
                Set::empty(),
                Set::empty(),
                Seq::empty(),
            ),
    {
        let n = self.nodes.len();
        let m = self.edges.len();

        // Seed the queue with the handles the direct dependents resolve to.
        let mut queue: Vec<usize> = Vec::new();
        let ghost mut gq: Seq<int> = Seq::empty();
        let mut j: usize = 0;
        while j < direct_ids.len()
            invariant
                j <= direct_ids@.len(),
                gq == resolve_all(self.nodes@, direct_ids.deep_view().subrange(0, j as int)),
                gq == queue@.map_values(|x: usize| x as int),
            decreases direct_ids@.len() - j,
        {
            proof {
                assert(direct_ids.deep_view().subrange(0, j + 1).drop_last()
                    =~= direct_ids.deep_view().subrange(0, j as int));
                assert(direct_ids.deep_view().subrange(0, j + 1).last()
                    == direct_ids@[j as int]@);
            }
            if let Some(h) = self.lookup(direct_ids[j].as_str()) {
                queue.push(h);
                proof {
                    gq = gq.push(h as int);
                    assert(gq =~= queue@.map_values(|x: usize| x as int));
                }
            }
            j = j + 1;
        }
        proof {
            assert(direct_ids.deep_view().subrange(0, direct_ids@.len() as int)
                =~= direct_ids.deep_view());
            lemma_resolve_all_range(self.nodes@, direct_ids.deep_view());
        }

        let ghost seeds: Seq<int> = gq;
        let mut expanded_f: Vec<bool> = false_flags(n);
        let mut found_f: Vec<bool> = false_flags(n);
        let ghost mut expanded: Set<int> = Set::empty();
        let ghost mut found: Set<int> = Set::empty();
        let mut acc: Vec<String> = Vec::new();
        let mut qi: usize = 0;
        proof {
            assert(acc.deep_view() =~= Seq::<Seq<char>>::empty());
            assert(queue@.subrange(0, queue@.len() as int) =~= queue@);
        }

        while qi < queue.len()
            invariant
                self.wf(),
                n == self.nodes@.len(),
                m == self.edges@.len(),
                qi <= queue@.len(),
                expanded_f@.len() == n,
                found_f@.len() == n,
                expanded.finite(),
                expanded.subset_of(set_int_range(0, n as int)),
                forall|h: int| 0 <= h < n ==> (expanded.contains(h) <==> expanded_f@[h]),
                forall|h: int| 0 <= h < n ==> (found.contains(h) <==> found_f@[h]),
                found.subset_of(set_int_range(0, n as int)),
                gq == queue@.subrange(qi as int, queue@.len() as int).map_values(
                    |x: usize| x as int,
                ),
                forall|j2: int| 0 <= j2 < gq.len() ==> 0 <= #[trigger] gq[j2] < n,
                discovery(self.nodes@, self.edges@, gq, expanded, found, acc.deep_view())
                    == discovery(
                    self.nodes@,
                    self.edges@,
                    seeds,
                    Set::empty(),
                    Set::empty(),
                    Seq::empty(),
                ),
            decreases n - expanded.len(), queue@.len() - qi,
        {
            let u = queue[qi];
            let ghost gq0 = gq;
            qi = qi + 1;
            proof {
                assert(gq0.first() == u as int);
                assert(0 <= gq0[0] < n);
                gq = gq.drop_first();
                assert(gq =~= queue@.subrange(qi as int, queue@.len() as int).map_values(
                    |x: usize| x as int,
                ));
            }
            if expanded_f[u] {
                proof {
                    assert(discovery(self.nodes@, self.edges@, gq0, expanded, found, acc.deep_view())
                        == discovery(self.nodes@, self.edges@, gq, expanded, found, acc.deep_view()));
                }
            } else {
                let ghost f0 = found;
                let ghost a0 = acc.deep_view();
                let ghost g0 = gq;
                proof {
                    assert(self.edges@.subrange(0, 0) =~= Seq::<StoredEdge>::empty());
                    assert(gq.skip(g0.len() as int) =~= Seq::<int>::empty());
                    assert(gq.subrange(0, g0.len() as int) =~= g0);
                }
                let mut k: usize = 0;
                while k < m
                    invariant
                        self.wf(),
                        n == self.nodes@.len(),
                        m == self.edges@.len(),
                        k <= m,
                        u < n,
                        found_f@.len() == n,
                        queue@.len() >= qi,
                        qi <= queue@.len(),
                        forall|h: int| 0 <= h < n ==> (found.contains(h) <==> found_f@[h]),
                        found.subset_of(set_int_range(0, n as int)),
                        gq == queue@.subrange(qi as int, queue@.len() as int).map_values(
                            |x: usize| x as int,
                        ),
                        expand(self.nodes@, self.edges@.subrange(0, k as int), u as int, f0, a0)
                            == (gq.skip(g0.len() as int), found, acc.deep_view()),
                        gq.len() >= g0.len(),
                        gq.subrange(0, g0.len() as int) == g0,
                        forall|j2: int| 0 <= j2 < gq.len() ==> 0 <= #[trigger] gq[j2] < n,
                    decreases m - k,
                {
                    proof {
                        assert(self.edges@.subrange(0, k + 1).drop_last() =~= self.edges@.subrange(
                            0,
                            k as int,
                        ));
                        assert(self.edges@.subrange(0, k + 1).last() == self.edges@[k as int]);
                    }
                    let tgt = self.edges[k].target;
                    if self.edges[k].source == u && !found_f[tgt] {
                        found_f[tgt] = true;
                        push_node_id(&mut acc, &self.nodes, tgt);
                        queue.push(tgt);
                        proof {
                            found = found.insert(tgt as int);
                            let gq_prev = gq;
                            gq = gq.push(tgt as int);
                            assert(gq =~= queue@.subrange(qi as int, queue@.len() as int)
                                .map_values(|x: usize| x as int));
                            assert(gq.skip(g0.len() as int) =~= gq_prev.skip(g0.len() as int).push(
                                tgt as int,
                            ));
                            assert(gq.subrange(0, g0.len() as int) =~= gq_prev.subrange(
                                0,
                                g0.len() as int,
                            ));
                        }
                    }
                    k = k + 1;
                }
                expanded_f[u] = true;
                proof {
                    assert(self.edges@.subrange(0, m as int) =~= self.edges@);
                    let r = expand(self.nodes@, self.edges@, u as int, f0, a0);
                    lemma_expand_range(self.nodes@, self.edges@, u as int, f0, a0);
                    assert(gq.skip(g0.len() as int) == r.0);
                    assert(gq =~= g0 + r.0);
                    let exp0 = expanded;
                    expanded = expanded.insert(u as int);
                    // One unfolding of the discovery at the state just popped.
                    assert(discovery(self.nodes@, self.edges@, gq0, exp0, f0, a0) == discovery(
                        self.nodes@,
                        self.edges@,
                        gq0.drop_first() + r.0,
                        expanded,
                        r.1,
                        r.2,
                    ));
                    assert(gq0.drop_first() + r.0 =~= gq);
                    lemma_int_range(0, n as int);
                    lemma_len_subset(expanded, set_int_range(0, n as int));
                }
            }
        }
        proof {
            assert(gq =~= Seq::<int>::empty());
        }
        acc
    }
}

} // verus!
