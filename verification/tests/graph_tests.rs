use grail_core::CartographyEngine;
use grail_core::GraphEdge;
use grail_core::GraphError;
use grail_core::GraphNode;

fn node(id: &str) -> GraphNode {
    GraphNode {
        id: id.to_string(),
        name: format!("name of {}", id),
        node_type: "content".to_string(),
        level: 0,
        is_published: true,
    }
}

fn edge(source: &str, target: &str, rel: &str) -> GraphEdge {
    GraphEdge {
        source: source.to_string(),
        target: target.to_string(),
        relationship_type: rel.to_string(),
        strength_milli: 1000,
    }
}

fn abc_chain() -> CartographyEngine {
    let mut g = CartographyEngine::new();
    g.add_node(node("A"));
    g.add_node(node("B"));
    g.add_node(node("C"));
    g.add_edge(edge("A", "B", "depends_on"));
    g.add_edge(edge("B", "C", "depends_on"));
    g
}

#[test]
fn stats_of_empty_store() {
    let g = CartographyEngine::new();
    assert_eq!(g.stats(), (0, 0));
}

#[test]
fn stats_counts_nodes_and_edges() {
    let g = abc_chain();
    assert_eq!(g.stats(), (3, 2));
}

#[test]
fn add_edge_with_unknown_endpoint_is_a_silent_noop() {
    let mut g = CartographyEngine::new();
    g.add_node(node("A"));
    g.add_edge(edge("A", "missing", "depends_on"));
    g.add_edge(edge("missing", "A", "depends_on"));
    assert_eq!(g.stats(), (1, 0));
}

#[test]
fn duplicate_id_adds_a_fresh_entry_and_rebinds() {
    let mut g = CartographyEngine::new();
    g.add_node(node("A"));
    g.add_node(node("A"));
    assert_eq!(g.stats(), (2, 0));
    let comms = g.detect_communities();
    assert_eq!(comms.len(), 2);
    assert_eq!(comms[0].0, "A");
    assert_eq!(comms[1].0, "A");
}

#[test]
fn shortest_path_of_a_node_to_itself_is_the_single_node() {
    let g = abc_chain();
    assert_eq!(g.shortest_path("B", "B"), Ok(vec!["B".to_string()]));
}

#[test]
fn shortest_path_follows_the_chain() {
    let g = abc_chain();
    assert_eq!(
        g.shortest_path("A", "C"),
        Ok(vec!["A".to_string(), "B".to_string(), "C".to_string()])
    );
}

#[test]
fn shortest_path_unknown_id_is_not_found() {
    let g = abc_chain();
    assert_eq!(g.shortest_path("A", "missing"), Err(GraphError::NotFound));
    assert_eq!(g.shortest_path("missing", "A"), Err(GraphError::NotFound));
}

#[test]
fn shortest_path_against_edge_direction_is_no_path() {
    let g = abc_chain();
    assert_eq!(g.shortest_path("C", "A"), Err(GraphError::NoPath));
}

#[test]
fn shortest_path_takes_the_short_way() {
    let mut g = abc_chain();
    g.add_edge(edge("A", "C", "references"));
    assert_eq!(
        g.shortest_path("A", "C"),
        Ok(vec!["A".to_string(), "C".to_string()])
    );
}

#[test]
fn impact_of_the_chain_head() {
    let g = abc_chain();
    let a = g.analyze_impact("A").unwrap();
    assert_eq!(a.node_id, "A");
    assert_eq!(a.directly_dependent, vec!["B".to_string()]);
    assert_eq!(a.indirectly_dependent, vec!["C".to_string()]);
    assert!(a.media_references.is_empty());
    assert!(a.tags.is_empty());
    assert!(a.backlinks.is_empty());
    // (1 * 1.0 + 1 * 0.5) / 3, in thousandths.
    assert_eq!(a.impact_score_milli, 500);
}

#[test]
fn impact_of_an_isolated_node_is_empty_and_zero() {
    let mut g = abc_chain();
    g.add_node(node("L"));
    let a = g.analyze_impact("L").unwrap();
    assert!(a.directly_dependent.is_empty());
    assert!(a.indirectly_dependent.is_empty());
    assert!(a.media_references.is_empty());
    assert!(a.tags.is_empty());
    assert!(a.backlinks.is_empty());
    assert_eq!(a.impact_score_milli, 0);
}

#[test]
fn impact_of_unknown_id_is_not_found() {
    let g = abc_chain();
    assert!(matches!(g.analyze_impact("missing"), Err(GraphError::NotFound)));
}

#[test]
fn impact_classifies_media_tags_and_backlinks() {
    let mut g = CartographyEngine::new();
    g.add_node(node("doc"));
    g.add_node(node("pic"));
    g.add_node(node("tag1"));
    g.add_node(node("fan"));
    g.add_edge(edge("doc", "pic", "uses_media"));
    g.add_edge(edge("doc", "tag1", "tagged_with"));
    g.add_edge(edge("fan", "doc", "references"));
    let a = g.analyze_impact("doc").unwrap();
    assert!(a.directly_dependent.is_empty());
    assert_eq!(a.media_references, vec!["pic".to_string()]);
    assert_eq!(a.tags, vec!["tag1".to_string()]);
    assert_eq!(a.backlinks, vec!["fan".to_string()]);
    assert!(a.indirectly_dependent.is_empty());
    // (0.3 + 0.7) / 4 = 0.25, in thousandths.
    assert_eq!(a.impact_score_milli, 250);
}

#[test]
fn impact_ignores_other_relationship_types_in_classification() {
    let mut g = CartographyEngine::new();
    g.add_node(node("A"));
    g.add_node(node("B"));
    g.add_edge(edge("A", "B", "references"));
    let a = g.analyze_impact("A").unwrap();
    assert!(a.directly_dependent.is_empty());
    assert!(a.media_references.is_empty());
    assert!(a.tags.is_empty());
    let b = g.analyze_impact("B").unwrap();
    assert_eq!(b.backlinks, vec!["A".to_string()]);
}

#[test]
fn impact_discovery_records_a_seed_reached_again() {
    let mut g = CartographyEngine::new();
    g.add_node(node("A"));
    g.add_node(node("B"));
    g.add_edge(edge("A", "B", "depends_on"));
    g.add_edge(edge("B", "A", "depends_on"));
    let a = g.analyze_impact("A").unwrap();
    assert_eq!(a.directly_dependent, vec!["B".to_string()]);
    // Expanding B rediscovers A; expanding A then rediscovers the seed B.
    assert_eq!(
        a.indirectly_dependent,
        vec!["A".to_string(), "B".to_string()]
    );
    assert_eq!(a.backlinks, vec!["B".to_string()]);
}

#[test]
fn impact_indirect_follows_any_outgoing_type() {
    let mut g = CartographyEngine::new();
    g.add_node(node("A"));
    g.add_node(node("B"));
    g.add_node(node("M"));
    g.add_edge(edge("A", "B", "depends_on"));
    g.add_edge(edge("B", "M", "uses_media"));
    let a = g.analyze_impact("A").unwrap();
    assert_eq!(a.directly_dependent, vec!["B".to_string()]);
    assert_eq!(a.indirectly_dependent, vec!["M".to_string()]);
}

#[test]
fn communities_partition_the_nodes() {
    let mut g = CartographyEngine::new();
    g.add_node(node("A"));
    g.add_node(node("B"));
    g.add_node(node("C"));
    g.add_node(node("D"));
    g.add_edge(edge("A", "B", "depends_on"));
    g.add_edge(edge("C", "D", "references"));
    let comms = g.detect_communities();
    assert_eq!(comms.len(), 4);
    let ids: Vec<&str> = comms.iter().map(|p| p.0.as_str()).collect();
    assert_eq!(ids, vec!["A", "B", "C", "D"]);
    assert_eq!(comms[0].1, comms[1].1);
    assert_eq!(comms[2].1, comms[3].1);
    assert_ne!(comms[0].1, comms[2].1);
    assert_eq!(comms[0].1, 0);
    assert_eq!(comms[2].1, 1);
}

#[test]
fn communities_ignore_edge_direction() {
    let mut g = CartographyEngine::new();
    g.add_node(node("A"));
    g.add_node(node("B"));
    g.add_node(node("C"));
    g.add_edge(edge("A", "B", "depends_on"));
    g.add_edge(edge("C", "B", "depends_on"));
    let comms = g.detect_communities();
    assert!(comms.iter().all(|p| p.1 == 0));
}

#[test]
fn communities_of_empty_store() {
    let g = CartographyEngine::new();
    assert!(g.detect_communities().is_empty());
}

#[test]
fn pagerank_output_covers_every_node() {
    let g = abc_chain();
    for iterations in [0usize, 1, 5, 20] {
        let ranks = g.calculate_pagerank(iterations);
        assert_eq!(ranks.len(), 3);
        let ids: Vec<&str> = ranks.iter().map(|p| p.0.as_str()).collect();
        assert_eq!(ids, vec!["A", "B", "C"]);
    }
}

#[test]
fn pagerank_mass_is_at_most_one() {
    let g = abc_chain();
    for iterations in [0usize, 1, 7, 20] {
        let total: u64 = g.calculate_pagerank(iterations).iter().map(|p| p.1).sum();
        assert!(total <= grail_core::RANK_SCALE);
    }
}

#[test]
fn pagerank_dangling_node_drains_mass() {
    // C has no outgoing edges, so its rank leaks from the total.
    let g = abc_chain();
    let total: u64 = g.calculate_pagerank(1).iter().map(|p| p.1).sum();
    assert!(total < grail_core::RANK_SCALE);
}

#[test]
fn pagerank_starts_uniform() {
    let g = abc_chain();
    let ranks = g.calculate_pagerank(0);
    for (_, r) in &ranks {
        assert_eq!(*r, grail_core::RANK_SCALE / 3);
    }
}

#[test]
fn pagerank_single_node_one_iteration() {
    let mut g = CartographyEngine::new();
    g.add_node(node("only"));
    let ranks = g.calculate_pagerank(1);
    // Base income alone: 0.15 of the scale.
    assert_eq!(ranks, vec![("only".to_string(), 150_000_000)]);
}

#[test]
fn pagerank_two_nodes_one_edge_exact() {
    let mut g = CartographyEngine::new();
    g.add_node(node("A"));
    g.add_node(node("B"));
    g.add_edge(edge("A", "B", "depends_on"));
    let ranks = g.calculate_pagerank(1);
    // A keeps only the base 0.15 / 2; B adds 0.85 of A's whole half.
    assert_eq!(ranks[0], ("A".to_string(), 75_000_000));
    assert_eq!(ranks[1], ("B".to_string(), 75_000_000 + 425_000_000));
}

#[test]
fn layout_seeds_list_every_node_in_order() {
    let g = abc_chain();
    let seeds = g.layout_seeds(None);
    assert_eq!(seeds.len(), 3);
    let ids: Vec<&str> = seeds.iter().map(|s| s.id.as_str()).collect();
    assert_eq!(ids, vec!["A", "B", "C"]);
    assert!(seeds.iter().all(|s| !s.fixed));
}

#[test]
fn layout_seeds_fix_exactly_the_center() {
    let g = abc_chain();
    let seeds = g.layout_seeds(Some("B"));
    let fixed: Vec<bool> = seeds.iter().map(|s| s.fixed).collect();
    assert_eq!(fixed, vec![false, true, false]);
    let none = g.layout_seeds(Some("missing"));
    assert!(none.iter().all(|s| !s.fixed));
}

#[test]
fn self_loop_is_stored_and_harmless() {
    let mut g = CartographyEngine::new();
    g.add_node(node("A"));
    g.add_edge(edge("A", "A", "depends_on"));
    assert_eq!(g.stats(), (1, 1));
    let comms = g.detect_communities();
    assert_eq!(comms, vec![("A".to_string(), 0)]);
    assert_eq!(g.shortest_path("A", "A"), Ok(vec!["A".to_string()]));
}

#[test]
fn rebinding_leaves_old_edges_on_the_orphan() {
    let mut g = CartographyEngine::new();
    g.add_node(node("A"));
    g.add_node(node("B"));
    g.add_edge(edge("A", "B", "depends_on"));
    // Re-adding B rebinds the id; the stored edge keeps pointing at the
    // orphaned first entry.
    g.add_node(node("B"));
    assert_eq!(g.stats(), (3, 1));
    // The id B now resolves to the fresh, isolated entry.
    assert_eq!(g.shortest_path("A", "B"), Err(GraphError::NoPath));
    let comms = g.detect_communities();
    assert_eq!(comms[0].1, 0);
    assert_eq!(comms[1].1, 0);
    assert_eq!(comms[2].1, 1);
    // The direct dependent is recorded by id, which resolves to the fresh
    // entry, so the indirect expansion starts there and finds nothing.
    let a = g.analyze_impact("A").unwrap();
    assert_eq!(a.directly_dependent, vec!["B".to_string()]);
    assert!(a.indirectly_dependent.is_empty());
}

#[test]
fn parallel_edges_are_kept() {
    let mut g = CartographyEngine::new();
    g.add_node(node("A"));
    g.add_node(node("B"));
    g.add_edge(edge("A", "B", "depends_on"));
    g.add_edge(edge("A", "B", "depends_on"));
    assert_eq!(g.stats(), (2, 2));
    let a = g.analyze_impact("A").unwrap();
    assert_eq!(a.directly_dependent, vec!["B".to_string(), "B".to_string()]);
}
