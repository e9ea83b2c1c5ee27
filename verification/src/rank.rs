use vstd::prelude::*;

use crate::store::CartographyEngine;
use crate::store::GraphNode;
use crate::store::StoredEdge;
use crate::store::edges_wf;

verus! {

use vstd::arithmetic::div_mod::lemma_fundamental_div_mod;
use vstd::arithmetic::div_mod::lemma_mod_bound;
use vstd::arithmetic::div_mod::lemma_div_is_ordered;

/// Rank values are fixed-point fractions of one, in billionths: a rank of
/// `RANK_SCALE` is the whole graph's mass.
pub const RANK_SCALE: u64 = 1_000_000_000;

/// The undamped share of each iteration, `0.15` of the scale, split evenly
/// over the nodes.
pub const RANK_BASE_TOTAL: u64 = 150_000_000;

/// How many edges leave `j`.
pub open spec fn outdeg(edges: Seq<StoredEdge>, j: int) -> int
    decreases edges.len(),
{
    if edges.len() == 0 {
        0
    } else {
        outdeg(edges.drop_last(), j) + if edges.last().source as int == j {
            1int
        } else {
            0int
        }
    }
}

/// What one edge leaving `j` carries to its target: the source's rank split
/// over the source's out-edges (floored at one).
pub open spec fn share(edges: Seq<StoredEdge>, ranks: Seq<int>, j: int) -> int {
    ranks[j] / (if outdeg(edges, j) == 0 {
        1int
    } else {
        outdeg(edges, j)
    })
}

/// The rank flowing into `i` over the edges of `prefix`.
pub open spec fn contrib_sum(
    prefix: Seq<StoredEdge>,
    edges: Seq<StoredEdge>,
    ranks: Seq<int>,
    i: int,
) -> int
    decreases prefix.len(),
{
    if prefix.len() == 0 {
        0
    } else {
        contrib_sum(prefix.drop_last(), edges, ranks, i) + if prefix.last().target as int == i {
            share(edges, ranks, prefix.last().source as int)
        } else {
            0int
        }
    }
}

/// The rank flowing over all the edges of `prefix`, whatever their target.
pub open spec fn shares_sum(
    prefix: Seq<StoredEdge>,
    edges: Seq<StoredEdge>,
    ranks: Seq<int>,
) -> int
    decreases prefix.len(),
{
    if prefix.len() == 0 {
        0
    } else {
        shares_sum(prefix.drop_last(), edges, ranks) + share(
            edges,
            ranks,
            prefix.last().source as int,
        )
    }
}

/// The same flow, grouped by source: each source `j' < j` appears once per
/// edge of `prefix` it heads.
pub open spec fn grouped_sum(
    prefix: Seq<StoredEdge>,
    edges: Seq<StoredEdge>,
    ranks: Seq<int>,
    j: nat,
) -> int
    decreases j,
{
    if j == 0 {
        0
    } else {
        grouped_sum(prefix, edges, ranks, (j - 1) as nat) + outdeg(prefix, j - 1) * share(
            edges,
            ranks,
            j - 1,
        )
    }
}

/// The same flow, grouped by target.
pub open spec fn targets_sum(
    prefix: Seq<StoredEdge>,
    edges: Seq<StoredEdge>,
    ranks: Seq<int>,
    j: nat,
) -> int
    decreases j,
{
    if j == 0 {
        0
    } else {
        targets_sum(prefix, edges, ranks, (j - 1) as nat) + contrib_sum(
            prefix,
            edges,
            ranks,
            j - 1,
        )
    }
}

/// The total rank mass held by the first `j` nodes.
pub open spec fn rank_mass(ranks: Seq<int>, j: nat) -> int
    decreases j,
{
    if j == 0 {
        0
    } else {
        rank_mass(ranks, (j - 1) as nat) + ranks[j - 1]
    }
}

/// The per-node base income of one iteration, `0.15 / n` of the scale.
pub open spec fn base_rank(n: int) -> int {
    RANK_BASE_TOTAL as int / n
}

/// One synchronous update of node `i`: base income plus `0.85` of what the
/// incoming edges carry, every quotient rounded down.
pub open spec fn next_rank(
    nodes: Seq<GraphNode>,
    edges: Seq<StoredEdge>,
    ranks: Seq<int>,
    i: int,
) -> int {
    base_rank(nodes.len() as int) + 85 * contrib_sum(edges, edges, ranks, i) / 100
}

/// The ranks after `t` synchronous iterations from the uniform start.
pub open spec fn ranks_after(nodes: Seq<GraphNode>, edges: Seq<StoredEdge>, t: nat) -> Seq<int>
    decreases t,
{
    if t == 0 {
        Seq::new(nodes.len(), |i: int| RANK_SCALE as int / nodes.len() as int)
    } else {
        let p = ranks_after(nodes, edges, (t - 1) as nat);
        Seq::new(nodes.len(), |i: int| next_rank(nodes, edges, p, i))
    }
}

/// Rounding down a split leaves no more than what was split.
proof fn lemma_mul_div_le(r: int, d: int)
    requires
        r >= 0,
        d >= 1,
    ensures
        d * (r / d) <= r,
        r / d >= 0,
{
    lemma_fundamental_div_mod(r, d);
    lemma_mod_bound(r, d);
    if r / d < 0 {
        assert(d * (r / d) <= -d) by (nonlinear_arith)
            requires d >= 1 && r / d <= -1;
    }
}

/// A share is never negative and never more than the source's whole rank.
proof fn lemma_share_bounds(edges: Seq<StoredEdge>, ranks: Seq<int>, j: int)
    requires
        0 <= j < ranks.len(),
        ranks[j] >= 0,
    ensures
        0 <= share(edges, ranks, j) <= ranks[j],
{
    let d = if outdeg(edges, j) == 0 {
        1int
    } else {
        outdeg(edges, j)
    };
    lemma_outdeg_nonneg(edges, j);
    lemma_mul_div_le(ranks[j], d);
    assert(1 * (ranks[j] / d) <= d * (ranks[j] / d)) by (nonlinear_arith)
        requires d >= 1 && ranks[j] / d >= 0;
}

/// An out-degree is a count.
proof fn lemma_outdeg_nonneg(edges: Seq<StoredEdge>, j: int)
    ensures
        outdeg(edges, j) >= 0,
    decreases edges.len(),
{
    if edges.len() > 0 {
        lemma_outdeg_nonneg(edges.drop_last(), j);
    }
}

/// Appending one edge adds one to its source's degree and nothing else.
proof fn lemma_outdeg_push(prefix: Seq<StoredEdge>, e: StoredEdge, j: int)
    ensures
        outdeg(prefix.push(e), j) == outdeg(prefix, j) + (if e.source as int == j {
            1int
        } else {
            0int
        }),
{
    assert(prefix.push(e).drop_last() =~= prefix);
    assert(prefix.push(e).last() == e);
}

/// Appending one edge moves the grouped flow by exactly that edge's share.
proof fn lemma_grouped_sum_push(
    prefix: Seq<StoredEdge>,
    e: StoredEdge,
    edges: Seq<StoredEdge>,
    ranks: Seq<int>,
    j: nat,
)
    requires
        0 <= (e.source as int) < j,
    ensures
        grouped_sum(prefix.push(e), edges, ranks, j) == grouped_sum(prefix, edges, ranks, j)
            + share(edges, ranks, e.source as int),
    decreases j,
{
    lemma_outdeg_push(prefix, e, j - 1);
    if e.source as int == j - 1 {
        assert forall|j2: nat| j2 < j implies grouped_sum(prefix.push(e), edges, ranks, j2)
            == grouped_sum(prefix, edges, ranks, j2) by {
            lemma_grouped_sum_same(prefix, e, edges, ranks, j2);
        }
        assert(grouped_sum(prefix.push(e), edges, ranks, (j - 1) as nat) == grouped_sum(
            prefix,
            edges,
            ranks,
            (j - 1) as nat,
        ));
        assert(outdeg(prefix.push(e), j - 1) == outdeg(prefix, j - 1) + 1);
        assert((outdeg(prefix, j - 1) + 1) * share(edges, ranks, j - 1) == outdeg(prefix, j - 1)
            * share(edges, ranks, j - 1) + share(edges, ranks, j - 1)) by (nonlinear_arith);
        assert(grouped_sum(prefix.push(e), edges, ranks, j) == grouped_sum(
            prefix.push(e),
            edges,
            ranks,
            (j - 1) as nat,
        ) + outdeg(prefix.push(e), j - 1) * share(edges, ranks, j - 1));
    } else {
        lemma_grouped_sum_push(prefix, e, edges, ranks, (j - 1) as nat);
    }
}

/// Below the appended edge's source, the grouped flow is untouched.
proof fn lemma_grouped_sum_same(
    prefix: Seq<StoredEdge>,
    e: StoredEdge,
    edges: Seq<StoredEdge>,
    ranks: Seq<int>,
    j: nat,
)
    requires
        j <= e.source as int,
    ensures
        grouped_sum(prefix.push(e), edges, ranks, j) == grouped_sum(prefix, edges, ranks, j),
    decreases j,
{
    if j > 0 {
        lemma_outdeg_push(prefix, e, j - 1);
        lemma_grouped_sum_same(prefix, e, edges, ranks, (j - 1) as nat);
    }
}

/// The flow over the edges equals the flow grouped by source.
proof fn lemma_regroup_sources(
    nodes: Seq<GraphNode>,
    prefix: Seq<StoredEdge>,
    edges: Seq<StoredEdge>,
    ranks: Seq<int>,
)
    requires
        edges_wf(nodes, prefix),
    ensures
        shares_sum(prefix, edges, ranks) == grouped_sum(prefix, edges, ranks, nodes.len()),
    decreases prefix.len(),
{
    if prefix.len() == 0 {
        lemma_grouped_zero(prefix, edges, ranks, nodes.len());
    } else {
        let p = prefix.drop_last();
        let e = prefix.last();
        crate::impact::lemma_edges_wf_drop_last(nodes, prefix);
        lemma_regroup_sources(nodes, p, edges, ranks);
        assert(p.push(e) =~= prefix);
        lemma_grouped_sum_push(p, e, edges, ranks, nodes.len());
    }
}

/// Grouping an empty prefix carries nothing.
proof fn lemma_grouped_zero(
    prefix: Seq<StoredEdge>,
    edges: Seq<StoredEdge>,
    ranks: Seq<int>,
    j: nat,
)
    requires
        prefix.len() == 0,
    ensures
        grouped_sum(prefix, edges, ranks, j) == 0,
    decreases j,
{
    if j > 0 {
        lemma_grouped_zero(prefix, edges, ranks, (j - 1) as nat);
    }
}

/// Grouped by source, the flow is at most the mass: a node with `d`
/// out-edges sends `d` shares of a `d`-way split of its rank.
proof fn lemma_grouped_le_mass(
    edges: Seq<StoredEdge>,
    ranks: Seq<int>,
    j: nat,
)
    requires
        j <= ranks.len(),
        forall|i: int| 0 <= i < ranks.len() ==> #[trigger] ranks[i] >= 0,
    ensures
        grouped_sum(edges, edges, ranks, j) <= rank_mass(ranks, j),
    decreases j,
{
    if j > 0 {
        lemma_grouped_le_mass(edges, ranks, (j - 1) as nat);
        let d = outdeg(edges, j - 1);
        lemma_outdeg_nonneg(edges, j - 1);
        lemma_share_bounds(edges, ranks, j - 1);
        if d == 0 {
            assert(outdeg(edges, j - 1) * share(edges, ranks, j - 1) == 0) by (nonlinear_arith)
                requires outdeg(edges, j - 1) == 0;
        } else {
            lemma_mul_div_le(ranks[j - 1], d);
        }
    }
}

/// A dangling node's rank is left out of the grouped flow entirely.
proof fn lemma_grouped_le_mass_without(
    edges: Seq<StoredEdge>,
    ranks: Seq<int>,
    jd: int,
    j: nat,
)
    requires
        j <= ranks.len(),
        0 <= jd < ranks.len(),
        outdeg(edges, jd) == 0,
        forall|i: int| 0 <= i < ranks.len() ==> #[trigger] ranks[i] >= 0,
    ensures
        grouped_sum(edges, edges, ranks, j) <= rank_mass(ranks, j) - (if jd < j {
            ranks[jd]
        } else {
            0int
        }),
    decreases j,
{
    if j > 0 {
        lemma_grouped_le_mass_without(edges, ranks, jd, (j - 1) as nat);
        let d = outdeg(edges, j - 1);
        lemma_outdeg_nonneg(edges, j - 1);
        lemma_share_bounds(edges, ranks, j - 1);
        if d == 0 {
            assert(outdeg(edges, j - 1) * share(edges, ranks, j - 1) == 0) by (nonlinear_arith)
                requires outdeg(edges, j - 1) == 0;
        } else {
            lemma_mul_div_le(ranks[j - 1], d);
        }
    }
}

/// With at least one dangling node and at least one iteration run, the
/// total rank mass falls strictly short of one: what the dangling node
/// held is handed on to nobody.
pub proof fn lemma_rank_mass_drains(
    nodes: Seq<GraphNode>,
    edges: Seq<StoredEdge>,
    jd: int,
    t: nat,
)
    requires
        edges_wf(nodes, edges),
        t >= 1,
        0 <= jd < nodes.len(),
        outdeg(edges, jd) == 0,
    ensures
        rank_mass(ranks_after(nodes, edges, t), nodes.len()) < RANK_SCALE as int,
    decreases t,
{
    let n = nodes.len();
    lemma_rank_mass_bounded(nodes, edges, (t - 1) as nat);
    let prev = ranks_after(nodes, edges, (t - 1) as nat);
    let cur = ranks_after(nodes, edges, t);
    lemma_next_mass_partial(nodes, edges, prev, n);
    lemma_regroup_targets(nodes, edges, edges, prev);
    lemma_regroup_sources(nodes, edges, edges, prev);
    lemma_grouped_le_mass_without(edges, prev, jd, n);
    lemma_mul_div_le(RANK_BASE_TOTAL as int, n as int);
    assert(n as int * (100 * base_rank(n as int)) == 100 * (n as int * base_rank(n as int)))
        by (nonlinear_arith);
    if t == 1 {
        if n as int <= RANK_SCALE as int {
            // Every node, the dangling one included, starts with a
            // positive rank, and that rank is withheld from the flow.
            lemma_fundamental_div_mod(RANK_SCALE as int, n as int);
            lemma_mod_bound(RANK_SCALE as int, n as int);
            let q = RANK_SCALE as int / n as int;
            assert(q >= 1) by (nonlinear_arith)
                requires
                    RANK_SCALE as int == (n as int) * q + ((RANK_SCALE as int) % (n as int)),
                    0 <= ((RANK_SCALE as int) % (n as int)) < (n as int),
                    1 <= (n as int) <= (RANK_SCALE as int),
            ;
            assert(prev[jd] >= 1);
            assert(100 * rank_mass(cur, n) <= 100 * RANK_BASE_TOTAL as int + 85 * (
            RANK_SCALE as int - 1));
        } else {
            // With more nodes than rank units everyone starts at zero.
            assert forall|i: int| 0 <= i < n implies #[trigger] prev[i] == 0 by {
                lemma_mul_div_le(RANK_SCALE as int, n as int);
                lemma_div_is_ordered(0, RANK_SCALE as int, n as int);
                assert((RANK_SCALE as int / n as int) < 1) by {
                    if RANK_SCALE as int / n as int >= 1 {
                        assert(n as int * (RANK_SCALE as int / n as int) >= n as int)
                            by (nonlinear_arith)
                            requires n as int >= 1 && RANK_SCALE as int / n as int >= 1;
                    }
                }
            }
            lemma_uniform_mass(prev, n, 0);
            let b = base_rank(n as int);
            assert(b == 0) by (nonlinear_arith)
                requires
                    (n as int) * b <= RANK_BASE_TOTAL as int,
                    b >= 0,
                    (n as int) > (RANK_SCALE as int),
            ;
            assert(100 * rank_mass(cur, n) <= (n as int) * (100 * b) + 85 * targets_sum(
                edges,
                edges,
                prev,
                n,
            ));
            assert((n as int) * (100 * b) == 0) by (nonlinear_arith)
                requires b == 0;
        }
    } else {
        lemma_rank_mass_drains(nodes, edges, jd, (t - 1) as nat);
        assert(100 * rank_mass(cur, n) <= 100 * RANK_BASE_TOTAL as int + 85 * (
        RANK_SCALE as int - 1));
    }
}

/// Appending one edge moves the flow grouped by target by that edge's share.
proof fn lemma_targets_sum_push(
    prefix: Seq<StoredEdge>,
    e: StoredEdge,
    edges: Seq<StoredEdge>,
    ranks: Seq<int>,
    j: nat,
)
    requires
        0 <= (e.target as int) < j,
    ensures
        targets_sum(prefix.push(e), edges, ranks, j) == targets_sum(prefix, edges, ranks, j)
            + share(edges, ranks, e.source as int),
    decreases j,
{
    lemma_contrib_sum_push(prefix, e, edges, ranks, j - 1);
    if e.target as int == j - 1 {
        assert forall|j2: nat| j2 < j implies targets_sum(prefix.push(e), edges, ranks, j2)
            == targets_sum(prefix, edges, ranks, j2) by {
            lemma_targets_sum_same(prefix, e, edges, ranks, j2);
        }
        assert(targets_sum(prefix.push(e), edges, ranks, (j - 1) as nat) == targets_sum(
            prefix,
            edges,
            ranks,
            (j - 1) as nat,
        ));
        assert(targets_sum(prefix.push(e), edges, ranks, j) == targets_sum(
            prefix.push(e),
            edges,
            ranks,
            (j - 1) as nat,
        ) + contrib_sum(prefix.push(e), edges, ranks, j - 1));
        assert(contrib_sum(prefix.push(e), edges, ranks, j - 1) == contrib_sum(
            prefix,
            edges,
            ranks,
            j - 1,
        ) + share(edges, ranks, e.source as int));
    } else {
        lemma_targets_sum_push(prefix, e, edges, ranks, (j - 1) as nat);
    }
}

/// Below the appended edge's target, the per-target flow is untouched.
proof fn lemma_targets_sum_same(
    prefix: Seq<StoredEdge>,
    e: StoredEdge,
    edges: Seq<StoredEdge>,
    ranks: Seq<int>,
    j: nat,
)
    requires
        j <= e.target as int,
    ensures
        targets_sum(prefix.push(e), edges, ranks, j) == targets_sum(prefix, edges, ranks, j),
    decreases j,
{
    if j > 0 {
        lemma_contrib_sum_push(prefix, e, edges, ranks, j - 1);
        lemma_targets_sum_same(prefix, e, edges, ranks, (j - 1) as nat);
    }
}

/// Appending one edge changes only its own target's inflow.
proof fn lemma_contrib_sum_push(
    prefix: Seq<StoredEdge>,
    e: StoredEdge,
    edges: Seq<StoredEdge>,
    ranks: Seq<int>,
    i: int,
)
    ensures
        contrib_sum(prefix.push(e), edges, ranks, i) == contrib_sum(prefix, edges, ranks, i) + (
        if e.target as int == i {
            share(edges, ranks, e.source as int)
        } else {
            0int
        }),
{
    assert(prefix.push(e).drop_last() =~= prefix);
    assert(prefix.push(e).last() == e);
}

/// The flow over the edges equals the flow grouped by target.
proof fn lemma_regroup_targets(
    nodes: Seq<GraphNode>,
    prefix: Seq<StoredEdge>,
    edges: Seq<StoredEdge>,
    ranks: Seq<int>,
)
    requires
        edges_wf(nodes, prefix),
    ensures
        shares_sum(prefix, edges, ranks) == targets_sum(prefix, edges, ranks, nodes.len()),
    decreases prefix.len(),
{
    if prefix.len() == 0 {
        lemma_targets_zero(prefix, edges, ranks, nodes.len());
    } else {
        let p = prefix.drop_last();
        let e = prefix.last();
        crate::impact::lemma_edges_wf_drop_last(nodes, prefix);
        lemma_regroup_targets(nodes, p, edges, ranks);
        assert(p.push(e) =~= prefix);
        lemma_targets_sum_push(p, e, edges, ranks, nodes.len());
    }
}

/// An empty prefix carries nothing to any target.
proof fn lemma_targets_zero(
    prefix: Seq<StoredEdge>,
    edges: Seq<StoredEdge>,
    ranks: Seq<int>,
    j: nat,
)
    requires
        prefix.len() == 0,
    ensures
        targets_sum(prefix, edges, ranks, j) == 0,
    decreases j,
{
    if j > 0 {
        lemma_targets_zero(prefix, edges, ranks, (j - 1) as nat);
    }
}

/// No inflow is negative.
proof fn lemma_contrib_sum_nonneg(
    prefix: Seq<StoredEdge>,
    edges: Seq<StoredEdge>,
    ranks: Seq<int>,
    i: int,
)
    requires
        forall|x: int| 0 <= x < ranks.len() ==> #[trigger] ranks[x] >= 0,
        forall|k: int|
            0 <= k < prefix.len() ==> 0 <= ((#[trigger] prefix[k]).source as int) < ranks.len(),
    ensures
        contrib_sum(prefix, edges, ranks, i) >= 0,
    decreases prefix.len(),
{
    if prefix.len() > 0 {
        assert(forall|k: int|
            0 <= k < prefix.len() - 1 ==> prefix.drop_last()[k] == prefix[k]);
        lemma_contrib_sum_nonneg(prefix.drop_last(), edges, ranks, i);
        lemma_share_bounds(edges, ranks, prefix.last().source as int);
    }
}

/// A single inflow is at most the flow over all edges.
proof fn lemma_contrib_le_shares(
    prefix: Seq<StoredEdge>,
    edges: Seq<StoredEdge>,
    ranks: Seq<int>,
    i: int,
)
    requires
        forall|x: int| 0 <= x < ranks.len() ==> #[trigger] ranks[x] >= 0,
        forall|k: int|
            0 <= k < prefix.len() ==> 0 <= ((#[trigger] prefix[k]).source as int) < ranks.len(),
    ensures
        contrib_sum(prefix, edges, ranks, i) <= shares_sum(prefix, edges, ranks),
    decreases prefix.len(),
{
    if prefix.len() > 0 {
        assert(forall|k: int|
            0 <= k < prefix.len() - 1 ==> prefix.drop_last()[k] == prefix[k]);
        lemma_contrib_le_shares(prefix.drop_last(), edges, ranks, i);
        lemma_share_bounds(edges, ranks, prefix.last().source as int);
    }
}

/// A sum of non-negative ranks is non-negative.
proof fn lemma_mass_nonneg(ranks: Seq<int>, j: nat)
    requires
        j <= ranks.len(),
        forall|x: int| 0 <= x < ranks.len() ==> #[trigger] ranks[x] >= 0,
    ensures
        rank_mass(ranks, j) >= 0,
    decreases j,
{
    if j > 0 {
        lemma_mass_nonneg(ranks, (j - 1) as nat);
    }
}

/// Every node holds at most the whole mass.
proof fn lemma_value_le_mass(ranks: Seq<int>, i: int, j: nat)
    requires
        0 <= i < j <= ranks.len(),
        forall|x: int| 0 <= x < ranks.len() ==> #[trigger] ranks[x] >= 0,
    ensures
        ranks[i] <= rank_mass(ranks, j),
    decreases j,
{
    if i < j - 1 {
        lemma_value_le_mass(ranks, i, (j - 1) as nat);
    } else {
        lemma_mass_nonneg(ranks, (j - 1) as nat);
    }
}

/// The central accounting of one iteration, scaled by one hundred to keep
/// the rounding visible: a hundred times the new mass is at most a hundred
/// times the base income plus eighty-five times the old mass.
proof fn lemma_next_mass_partial(
    nodes: Seq<GraphNode>,
    edges: Seq<StoredEdge>,
    ranks: Seq<int>,
    j: nat,
)
    requires
        edges_wf(nodes, edges),
        nodes.len() >= 1,
        ranks.len() == nodes.len(),
        j <= nodes.len(),
        forall|x: int| 0 <= x < ranks.len() ==> #[trigger] ranks[x] >= 0,
    ensures
        100 * rank_mass(Seq::new(nodes.len(), |i: int| next_rank(nodes, edges, ranks, i)), j)
            <= j * (100 * base_rank(nodes.len() as int)) + 85 * targets_sum(
            edges,
            edges,
            ranks,
            j,
        ),
    decreases j,
{
    if j > 0 {
        lemma_next_mass_partial(nodes, edges, ranks, (j - 1) as nat);
        let c = contrib_sum(edges, edges, ranks, j - 1);
        lemma_contrib_sum_nonneg(edges, edges, ranks, j - 1);
        lemma_mul_div_le(85 * c, 100);
        assert(100 * (85 * c / 100) <= 85 * c);
        assert(j * (100 * base_rank(nodes.len() as int)) == (j - 1) * (100 * base_rank(
            nodes.len() as int,
        )) + 100 * base_rank(nodes.len() as int)) by (nonlinear_arith);
    }
}

/// The well-formedness facts the rank lemmas need of the edge list.
pub open spec fn rank_edges_ok(edges: Seq<StoredEdge>, n: int) -> bool {
    forall|k: int|
        0 <= k < edges.len() ==> 0 <= ((#[trigger] edges[k]).source as int) < n && 0 <= (edges[
            k
        ].target as int) < n
}

/// After any number of iterations the ranks are non-negative, the total
/// mass is at most one (the scale), and so is each node's rank.
pub proof fn lemma_rank_mass_bounded(nodes: Seq<GraphNode>, edges: Seq<StoredEdge>, t: nat)
    requires
        edges_wf(nodes, edges),
    ensures
        ranks_after(nodes, edges, t).len() == nodes.len(),
        forall|i: int|
            0 <= i < nodes.len() ==> 0 <= #[trigger] ranks_after(nodes, edges, t)[i]
                <= RANK_SCALE as int,
        rank_mass(ranks_after(nodes, edges, t), nodes.len()) <= RANK_SCALE as int,
    decreases t,
{
    let n = nodes.len();
    if n == 0 {
        if t > 0 {
            lemma_rank_mass_bounded(nodes, edges, (t - 1) as nat);
        }
    } else if t == 0 {
        let r0 = ranks_after(nodes, edges, 0);
        lemma_mul_div_le(RANK_SCALE as int, n as int);
        assert forall|i: int| 0 <= i < n implies 0 <= #[trigger] r0[i] <= RANK_SCALE as int by {
            lemma_div_is_ordered(0, RANK_SCALE as int, n as int);
            assert(1 * (RANK_SCALE as int / n as int) <= n as int * (RANK_SCALE as int
                / n as int)) by (nonlinear_arith)
                requires n >= 1 && RANK_SCALE as int / n as int >= 0;
        }
        lemma_uniform_mass(r0, n, RANK_SCALE as int / n as int);
        assert(n as int * (RANK_SCALE as int / n as int) <= RANK_SCALE as int);
    } else {
        lemma_rank_mass_bounded(nodes, edges, (t - 1) as nat);
        let prev = ranks_after(nodes, edges, (t - 1) as nat);
        let cur = ranks_after(nodes, edges, t);
        assert(cur == Seq::new(n, |i: int| next_rank(nodes, edges, prev, i)));
        lemma_next_mass_partial(nodes, edges, prev, n);
        lemma_regroup_targets(nodes, edges, edges, prev);
        lemma_regroup_sources(nodes, edges, edges, prev);
        lemma_grouped_le_mass(edges, prev, n);
        lemma_mul_div_le(RANK_BASE_TOTAL as int, n as int);
        assert(n as int * (100 * base_rank(n as int)) == 100 * (n as int * base_rank(n as int)))
            by (nonlinear_arith);
        assert(100 * rank_mass(cur, n) <= 100 * RANK_BASE_TOTAL as int + 85
            * RANK_SCALE as int);
        assert(rank_mass(cur, n) <= RANK_SCALE as int);
        assert forall|i: int| 0 <= i < n implies 0 <= #[trigger] cur[i]
            <= RANK_SCALE as int by {
            lemma_contrib_sum_nonneg(edges, edges, prev, i);
            lemma_mul_div_le(85 * contrib_sum(edges, edges, prev, i), 100);
            lemma_mul_div_le(RANK_BASE_TOTAL as int, n as int);
            lemma_rank_values_nonneg(nodes, edges, prev, cur, n);
            lemma_value_le_mass(cur, i, n);
        }
    }
}

/// Each new rank is non-negative.
proof fn lemma_rank_values_nonneg(
    nodes: Seq<GraphNode>,
    edges: Seq<StoredEdge>,
    ranks: Seq<int>,
    nxt: Seq<int>,
    j: nat,
)
    requires
        edges_wf(nodes, edges),
        nodes.len() >= 1,
        ranks.len() == nodes.len(),
        j <= nodes.len(),
        forall|x: int| 0 <= x < ranks.len() ==> #[trigger] ranks[x] >= 0,
        nxt == Seq::new(nodes.len(), |i2: int| next_rank(nodes, edges, ranks, i2)),
    ensures
        forall|i: int| 0 <= i < j ==> #[trigger] nxt[i] >= 0,
        rank_mass(nxt, j) >= 0,
    decreases j,
{
    if j > 0 {
        lemma_rank_values_nonneg(nodes, edges, ranks, nxt, (j - 1) as nat);
        lemma_contrib_sum_nonneg(edges, edges, ranks, j - 1);
        lemma_mul_div_le(85 * contrib_sum(edges, edges, ranks, j - 1), 100);
        lemma_mul_div_le(RANK_BASE_TOTAL as int, nodes.len() as int);
    }
}

impl CartographyEngine {
    /// PageRank-style centrality: every node starts with an equal slice of
    /// the mass, and each synchronous iteration hands every node `0.15 / n`
    /// of the scale plus `0.85` of what its incoming edges carry, each edge
    /// carrying its source's rank split over the source's out-edges. A node
    /// without out-edges keeps its rank to itself (its mass drains from the
    /// total). Yields one `(id, rank)` pair per node, in handle order, the
    /// rank in billionths.
    pub fn calculate_pagerank(&self, iterations: usize) -> (r: Vec<(String, u64)>)
        requires
            self.wf(),
        ensures
            r@.len() == self.nodes@.len(),
            forall|i: int|
                0 <= i < r@.len() ==> (#[trigger] r@[i]).0@ == self.nodes@[i].id@ && r@[i].1 as int
                    == ranks_after(self.nodes@, self.edges@, iterations as nat)[i],
    {
        let n = self.nodes.len();
        let m = self.edges.len();
        if n == 0 {
            return Vec::new();
        }

        let mut deg: Vec<usize> = crate::community::zero_values(n);
        let mut k: usize = 0;
        proof {
            assert(self.edges@.subrange(0, 0) =~= Seq::<StoredEdge>::empty());
        }
        while k < m
            invariant
                self.wf(),
                n == self.nodes@.len(),
                m == self.edges@.len(),
                k <= m,
                deg@.len() == n,
                forall|j: int|
                    0 <= j < n ==> #[trigger] deg@[j] as int == outdeg(
                        self.edges@.subrange(0, k as int),
                        j,
                    ) && deg@[j] <= k,
            decreases m - k,
        {
            proof {
                assert(self.edges@.subrange(0, k + 1).drop_last() =~= self.edges@.subrange(
                    0,
                    k as int,
                ));
                assert(self.edges@.subrange(0, k + 1).last() == self.edges@[k as int]);
            }
            let s = self.edges[k].source;
            let d0 = deg[s];
            deg[s] = d0 + 1;
            k = k + 1;
        }
        proof {
            assert(self.edges@.subrange(0, m as int) =~= self.edges@);
        }

        let mut ranks: Vec<u64> = Vec::new();
        let mut i0: usize = 0;
        while i0 < n
            invariant
                i0 <= n,
                ranks@.len() == i0,
                n >= 1,
                forall|i: int| 0 <= i < i0 ==> #[trigger] ranks@[i] == RANK_SCALE / (n as u64),
            decreases n - i0,
        {
            ranks.push(RANK_SCALE / (n as u64));
            i0 = i0 + 1;
        }
        proof {
            assert(ranks@.map_values(|x: u64| x as int) =~= ranks_after(
                self.nodes@,
                self.edges@,
                0,
            ));
        }

        let mut it: usize = 0;
        while it < iterations
            invariant
                self.wf(),
                n == self.nodes@.len(),
                m == self.edges@.len(),
                n >= 1,
                it <= iterations,
                deg@.len() == n,
                ranks@.len() == n,
                forall|j: int|
                    0 <= j < n ==> #[trigger] deg@[j] as int == outdeg(self.edges@, j),
                ranks@.map_values(|x: u64| x as int) == ranks_after(
                    self.nodes@,
                    self.edges@,
                    it as nat,
                ),
            decreases iterations - it,
        {
            let ghost cur = ranks@.map_values(|x: u64| x as int);
            proof {
                lemma_rank_mass_bounded(self.nodes@, self.edges@, it as nat);
            }
            let mut newr: Vec<u64> = Vec::new();
            let mut i: usize = 0;
            while i < n
                invariant
                    self.wf(),
                    n == self.nodes@.len(),
                    m == self.edges@.len(),
                    n >= 1,
                    deg@.len() == n,
                    ranks@.len() == n,
                    i <= n,
                    newr@.len() == i,
                    forall|j: int|
                        0 <= j < n ==> #[trigger] deg@[j] as int == outdeg(self.edges@, j),
                    cur == ranks@.map_values(|x: u64| x as int),
                    cur == ranks_after(self.nodes@, self.edges@, it as nat),
                    forall|i2: int|
                        0 <= i2 < i ==> #[trigger] newr@[i2] as int == next_rank(
                            self.nodes@,
                            self.edges@,
                            cur,
                            i2,
                        ),
                decreases n - i,
            {
                let mut sum: u128 = 0;
                let mut k2: usize = 0;
                proof {
                    assert(self.edges@.subrange(0, 0) =~= Seq::<StoredEdge>::empty());
                }
                while k2 < m
                    invariant
                        self.wf(),
                        n == self.nodes@.len(),
                        m == self.edges@.len(),
                        n >= 1,
                        k2 <= m,
                        i < n,
                        deg@.len() == n,
                        ranks@.len() == n,
                        forall|j: int|
                            0 <= j < n ==> #[trigger] deg@[j] as int == outdeg(self.edges@, j),
                        cur == ranks@.map_values(|x: u64| x as int),
                        cur == ranks_after(self.nodes@, self.edges@, it as nat),
                        sum as int == contrib_sum(
                            self.edges@.subrange(0, k2 as int),
                            self.edges@,
                            cur,
                            i as int,
                        ),
                        sum <= k2 as u128 * RANK_SCALE as u128,
                    decreases m - k2,
                {
                    proof {
                        assert(self.edges@.subrange(0, k2 + 1).drop_last() =~= self.edges@
                            .subrange(0, k2 as int));
                        assert(self.edges@.subrange(0, k2 + 1).last() == self.edges@[k2 as int]);
                        lemma_rank_mass_bounded(self.nodes@, self.edges@, it as nat);
                        let kk = k2 as u128;
                        assert(kk * RANK_SCALE as u128 + RANK_SCALE as u128 == (kk + 1)
                            * RANK_SCALE as u128) by (nonlinear_arith);
                    }
                    if self.edges[k2].target == i {
                        let s = self.edges[k2].source;
                        let d = deg[s];
                        let dd: u64 = if d == 0 {
                            1
                        } else {
                            d as u64
                        };
                        proof {
                            lemma_outdeg_nonneg(self.edges@, s as int);
                        }
                        let sh: u64 = ranks[s] / dd;
                        proof {
                            assert(cur[s as int] == ranks@[s as int] as int);
                            assert(sh as int == share(self.edges@, cur, s as int));
                            assert(sh <= RANK_SCALE);
                            let kk = k2 as u128;
                            assert(kk * RANK_SCALE as u128 + RANK_SCALE as u128 == (kk + 1)
                                * RANK_SCALE as u128) by (nonlinear_arith);
                            assert((kk + 1) * RANK_SCALE as u128
                                <= 18446744073709551616000000000u128) by (nonlinear_arith)
                                requires kk + 1 <= 18446744073709551616u128;
                        }
                        sum = sum + sh as u128;
                    }
                    k2 = k2 + 1;
                }
                proof {
                    assert(self.edges@.subrange(0, m as int) =~= self.edges@);
                    lemma_rank_mass_bounded(self.nodes@, self.edges@, it as nat);
                    lemma_rank_mass_bounded(self.nodes@, self.edges@, (it + 1) as nat);
                    assert(ranks_after(self.nodes@, self.edges@, (it + 1) as nat) == Seq::new(
                        self.nodes@.len(),
                        |i2: int| next_rank(self.nodes@, self.edges@, cur, i2),
                    ));
                }
                proof {
                    assert(m as u128 * RANK_SCALE as u128 <= 18446744073709551616000000000u128)
                        by (nonlinear_arith)
                        requires m as u128 <= 18446744073709551616u128;
                }
                let base: u64 = RANK_BASE_TOTAL / (n as u64);
                let val: u128 = base as u128 + 85 * sum / 100;
                proof {
                    assert(val as int == next_rank(self.nodes@, self.edges@, cur, i as int));
                    assert(next_rank(self.nodes@, self.edges@, cur, i as int) == ranks_after(
                        self.nodes@,
                        self.edges@,
                        (it + 1) as nat,
                    )[i as int]);
                    assert(val <= RANK_SCALE as u128);
                }
                newr.push(val as u64);
                i = i + 1;
            }
            ranks = newr;
            proof {
                assert(ranks@.map_values(|x: u64| x as int) =~= ranks_after(
                    self.nodes@,
                    self.edges@,
                    (it + 1) as nat,
                ));
            }
            it = it + 1;
        }

        let mut out: Vec<(String, u64)> = Vec::new();
        let mut i3: usize = 0;
        while i3 < n
            invariant
                self.wf(),
                n == self.nodes@.len(),
                ranks@.len() == n,
                i3 <= n,
                out@.len() == i3,
                ranks@.map_values(|x: u64| x as int) == ranks_after(
                    self.nodes@,
                    self.edges@,
                    iterations as nat,
                ),
                forall|j: int|
                    0 <= j < i3 ==> (#[trigger] out@[j]).0@ == self.nodes@[j].id@ && out@[j].1
                        as int == ranks_after(self.nodes@, self.edges@, iterations as nat)[j],
            decreases n - i3,
        {
            let id = self.nodes[i3].id.clone();
            let rv = ranks[i3];
            out.push((id, rv));
            i3 = i3 + 1;
        }
        out
    }
}

/// A uniform assignment's mass is the value times the node count.
proof fn lemma_uniform_mass(ranks: Seq<int>, j: nat, v: int)
    requires
        j <= ranks.len(),
        forall|i: int| 0 <= i < ranks.len() ==> #[trigger] ranks[i] == v,
    ensures
        rank_mass(ranks, j) == j * v,
    decreases j,
{
    if j > 0 {
        lemma_uniform_mass(ranks, (j - 1) as nat, v);
        let prev = rank_mass(ranks, (j - 1) as nat);
        assert(prev == (j - 1) * v);
        assert(ranks[j - 1] == v);
        assert(rank_mass(ranks, j) == prev + v);
        assert(rank_mass(ranks, j) == j * v) by (nonlinear_arith)
            requires
                rank_mass(ranks, j) == (j - 1) * v + v,
                j >= 1,
        ;
    } else {
        assert(rank_mass(ranks, j) == 0);
        assert(j * v == 0) by (nonlinear_arith)
            requires j == 0;
    }
}

} // verus!
