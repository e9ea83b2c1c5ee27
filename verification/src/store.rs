use vstd::prelude::*;

verus! {

use vstd::string::StringExecFns;

/// A content node: a document, a media item, a tag.
#[derive(Clone, Debug)]
pub struct GraphNode {
    /// Unique key within a store snapshot (uniqueness is the host's duty).
    pub id: String,
    pub name: String,
    /// Tag such as "content", "media" or "tag".
    pub node_type: String,
    /// Depth of the document in its hierarchy.
    pub level: i32,
    pub is_published: bool,
}

/// A typed, weighted, directed relationship between two nodes, named by ids.
/// The weight is held in thousandths so that the store stays in integers;
/// the hosting adapter converts to and from its own fractional form.
#[derive(Clone, Debug)]
pub struct GraphEdge {
    pub source: String,
    pub target: String,
    /// Tag such as "depends_on", "uses_media", "tagged_with" or "references".
    pub relationship_type: String,
    /// Non-negative relationship weight, in thousandths.
    pub strength_milli: u32,
}

/// An edge as stored: endpoint handles into the node arena plus the edge data.
#[derive(Clone, Debug)]
pub struct StoredEdge {
    pub source: usize,
    pub target: usize,
    pub edge: GraphEdge,
}

/// Why a query failed.
#[derive(Clone, Copy, Debug, PartialEq, Eq, Structural)]
pub enum GraphError {
    /// A referenced node id is not in the store.
    NotFound,
    /// Both endpoints exist but no directed path connects them.
    NoPath,
}

/// The graph store: an arena of nodes addressed by handle (the index at
/// which the node was inserted) and the edges between handles. An id is
/// bound to the handle of the newest node carrying it (see `resolve_id`),
/// so re-inserting an id rebinds the id while older edges keep pointing
/// at the orphaned handle.
pub struct CartographyEngine {
    pub nodes: Vec<GraphNode>,
    pub edges: Vec<StoredEdge>,
}

/// The handle an id is bound to: the index of the newest node whose id is
/// `key`, if any node carries that id.
pub open spec fn resolve_id(nodes: Seq<GraphNode>, key: Seq<char>) -> Option<int>
    decreases nodes.len(),
{
    if nodes.len() == 0 {
        None
    } else if nodes.last().id@ == key {
        Some(nodes.len() - 1)
    } else {
        resolve_id(nodes.drop_last(), key)
    }
}

/// A resolved handle is a valid index into the node arena, and names a node
/// that indeed carries the key.
pub proof fn lemma_resolve_in_range(nodes: Seq<GraphNode>, key: Seq<char>)
    ensures
        resolve_id(nodes, key) matches Some(i) ==> 0 <= i < nodes.len() && nodes[i].id@ == key,
    decreases nodes.len(),
{
    if nodes.len() > 0 && nodes.last().id@ != key {
        lemma_resolve_in_range(nodes.drop_last(), key);
    }
}

/// Every stored edge points at nodes that exist.
pub open spec fn edges_wf(nodes: Seq<GraphNode>, edges: Seq<StoredEdge>) -> bool {
    forall|k: int|
        0 <= k < edges.len() ==> (#[trigger] edges[k]).source < nodes.len()
            && edges[k].target < nodes.len()
}

impl CartographyEngine {
    /// The store invariant: edges only mention handles of stored nodes.
    pub open spec fn wf(&self) -> bool {
        edges_wf(self.nodes@, self.edges@)
    }

    /// An empty store.
    pub fn new() -> (r: CartographyEngine)
        ensures
            r.wf(),
            r.nodes@.len() == 0,
            r.edges@.len() == 0,
    {
        CartographyEngine { nodes: Vec::new(), edges: Vec::new() }
    }

    /// Appends a node to the arena. If its id is already bound, the id is
    /// rebound to the new handle; the older node stays in the arena and
    /// stays reachable through edges stored before the rebinding.
    pub fn add_node(&mut self, node: GraphNode)
        requires
            old(self).wf(),
        ensures
            final(self).wf(),
            final(self).nodes@ == old(self).nodes@.push(node),
            final(self).edges@ == old(self).edges@,
    {
        self.nodes.push(node);
    }

    /// Stores the edge if both endpoint ids currently resolve; otherwise the
    /// call is a silent no-op (an unknown endpoint is not an error).
    pub fn add_edge(&mut self, edge: GraphEdge)
        requires
            old(self).wf(),
        ensures
            final(self).wf(),
            final(self).nodes@ == old(self).nodes@,
            (resolve_id(old(self).nodes@, edge.source@) is Some
                && resolve_id(old(self).nodes@, edge.target@) is Some)
                ==> final(self).edges@ == old(self).edges@.push(
                    (StoredEdge {
                        source: resolve_id(old(self).nodes@, edge.source@).unwrap() as usize,
                        target: resolve_id(old(self).nodes@, edge.target@).unwrap() as usize,
                        edge,
                    }),
                ),
            resolve_id(old(self).nodes@, edge.source@) is None
                || resolve_id(old(self).nodes@, edge.target@) is None
                ==> final(self).edges@ == old(self).edges@,
    {
        let s = self.lookup(edge.source.as_str());
        let t = self.lookup(edge.target.as_str());
        proof {
            lemma_resolve_in_range(self.nodes@, edge.source@);
            lemma_resolve_in_range(self.nodes@, edge.target@);
        }
        if let (Some(si), Some(ti)) = (s, t) {
            self.edges.push(StoredEdge { source: si, target: ti, edge });
        }
    }

    /// Node count and edge count of the current snapshot.
    pub fn stats(&self) -> (r: (usize, usize))
        ensures
            r.0 == self.nodes@.len(),
            r.1 == self.edges@.len(),
    {
        (self.nodes.len(), self.edges.len())
    }

    /// The handle bound to `key`, scanning from the newest node backwards.
    pub fn lookup(&self, key: &str) -> (r: Option<usize>)
        ensures
            match r {
                Some(i) => resolve_id(self.nodes@, key@) == Some(i as int),
                None => resolve_id(self.nodes@, key@) is None,
            },
    {
        let k: String = String::from_str(key);
        let mut i: usize = self.nodes.len();
        proof {
            assert(self.nodes@.subrange(0, i as int) =~= self.nodes@);
        }
        while i > 0
            invariant
                k@ == key@,
                i <= self.nodes@.len(),
                resolve_id(self.nodes@, key@) == resolve_id(
                    self.nodes@.subrange(0, i as int),
                    key@,
                ),
            decreases i,
        {
            i = i - 1;
            let hit: bool = self.nodes[i].id.eq(&k);
            if hit {
                proof {
                    let pre = self.nodes@.subrange(0, i + 1);
                    assert(pre.last().id@ == key@);
                }
                return Some(i);
            }
            proof {
                let pre = self.nodes@.subrange(0, i + 1);
                assert(pre.last().id@ != key@);
                assert(pre.drop_last() =~= self.nodes@.subrange(0, i as int));
            }
        }
        proof {
            assert(self.nodes@.subrange(0, 0) =~= Seq::<GraphNode>::empty());
        }
        None
    }
}

} // verus!
