//! The graph: upserts, removal, walks, merges, rendering and snapshots.

use cuca_plugins::error::PluginError;
use cuca_plugins::float::Double;
use cuca_plugins::json::Json;
use cuca_plugins::plugins::memory::graph::{
    GraphDirection, GraphNode, GraphRelationship, GraphSnapshot, MemoryGraph, MergePolicy,
};
use cuca_plugins::string_map::StringMap;

fn json(text: &str) -> Json {
    Json::parse(text).expect("valid JSON")
}

fn double(value: f64) -> Double {
    Double { bits: value.to_bits(), text: value.to_string() }
}

fn weight(rel: &GraphRelationship) -> f64 {
    f64::from_bits(rel.weight.bits)
}

fn node(id: &str) -> GraphNode {
    GraphNode {
        id: id.to_string(),
        labels: Vec::new(),
        properties: StringMap::new(),
    }
}

fn rel(id: &str, from: &str, to: &str, kind: &str, weight: f64) -> GraphRelationship {
    GraphRelationship {
        id: id.to_string(),
        from: from.to_string(),
        to: to.to_string(),
        kind: kind.to_string(),
        weight: double(weight),
        properties: StringMap::new(),
    }
}

fn props(pairs: &[(&str, Json)]) -> StringMap<Json> {
    StringMap::from_pairs(pairs.iter().map(|(k, v)| (k.to_string(), v.clone())).collect())
}

/// Property-style check of invariant 1: every relationship endpoint names
/// an existing node.
fn assert_endpoint_invariant(g: &MemoryGraph) {
    for r in g.relationships() {
        assert!(
            g.node(&r.from).is_some(),
            "relationship '{}' from '{}' has no node",
            r.id,
            r.from
        );
        assert!(
            g.node(&r.to).is_some(),
            "relationship '{}' to '{}' has no node",
            r.id,
            r.to
        );
    }
}

#[test]
fn new_is_empty_with_zero_capacity() {
    let g = MemoryGraph::new();
    assert!(g.is_empty());
    assert_eq!(g.len(), 0);
    assert_eq!(g.relationship_count(), 0);
}

#[test]
fn with_capacity_reserves_collections() {
    let g = MemoryGraph::with_capacity(16, 32);
    assert!(g.is_empty());
}

#[test]
fn default_matches_new() {
    assert_eq!(MemoryGraph::default(), MemoryGraph::new());
    assert!(MemoryGraph::default().is_empty());
}

#[test]
fn upsert_node_inserts_then_replaces() {
    let mut g = MemoryGraph::new();
    assert!(g.upsert_node(GraphNode {
        id: "a".into(),
        labels: vec!["person".into()],
        properties: props(&[("name", json(r#""Ada""#))]),
    }));
    assert!(!g.upsert_node(GraphNode {
        id: "a".into(),
        labels: vec!["engineer".into()],
        properties: props(&[("age", json(r#"36"#))]),
    }));
    assert_eq!(g.len(), 1, "replacement keeps one node");
    let n = g.node("a").unwrap();
    assert_eq!(n.labels, vec!["engineer"]);
    assert_eq!(n.properties.get("age"), Some(&json(r#"36"#)));
    assert!(
        n.properties.get("name").is_none(),
        "properties are replaced wholesale"
    );
}

#[test]
fn add_relationship_validates_endpoints() {
    let mut g = MemoryGraph::new();
    g.upsert_node(node("a"));
    g.upsert_node(node("b"));
    assert!(matches!(
        g.add_relationship(rel("r", "a", "zz", "k", 1.0)),
        Err(PluginError::Internal(_))
    ));
    assert!(matches!(
        g.add_relationship(rel("r", "zz", "b", "k", 1.0)),
        Err(PluginError::Internal(_))
    ));
    assert!(matches!(
        g.add_relationship(rel("r", "zz", "yy", "k", 1.0)),
        Err(PluginError::Internal(_))
    ));
    assert!(g.add_relationship(rel("r", "a", "b", "k", 1.0)).is_ok());
    assert!(g.relationship("r").is_some());
}

#[test]
fn add_relationship_upserts_by_id_and_reindexes_adjacency() {
    let mut g = MemoryGraph::new();
    for id in ["a", "b", "c"] {
        g.upsert_node(node(id));
    }
    g.add_relationship(rel("r", "a", "b", "knows", 1.0))
        .unwrap();
    // Same id, different endpoints: adjacency must be rebuilt.
    g.add_relationship(rel("r", "a", "c", "knows", 2.0))
        .unwrap();
    assert_eq!(g.relationship_count(), 1, "upsert keeps one relationship");
    assert_eq!(
        g.neighbors("a", GraphDirection::Outgoing),
        vec!["c".to_string()]
    );
    assert!(g.neighbors("b", GraphDirection::Incoming).is_empty());
    assert_eq!(
        g.neighbors("c", GraphDirection::Incoming),
        vec!["a".to_string()]
    );
}

#[test]
fn node_and_relationship_lookup() {
    let mut g = MemoryGraph::new();
    g.upsert_node(node("a"));
    g.upsert_node(node("b"));
    g.add_relationship(rel("r", "a", "b", "k", 1.0)).unwrap();
    assert!(g.node("a").is_some());
    assert!(g.node("zz").is_none());
    assert!(g.relationship("r").is_some());
    assert!(g.relationship("zz").is_none());
}

#[test]
fn neighbors_respects_direction_and_dedups() {
    let mut g = MemoryGraph::new();
    for id in ["a", "b", "c"] {
        g.upsert_node(node(id));
    }
    // Two parallel a -> b edges: the neighbor b must appear once.
    g.add_relationship(rel("r1", "a", "b", "k", 1.0)).unwrap();
    g.add_relationship(rel("r2", "a", "b", "k", 2.0)).unwrap();
    g.add_relationship(rel("r3", "b", "c", "k", 1.0)).unwrap();
    assert_eq!(
        g.neighbors("a", GraphDirection::Outgoing),
        vec!["b".to_string()]
    );
    assert_eq!(
        g.neighbors("b", GraphDirection::Incoming),
        vec!["a".to_string()]
    );
    assert_eq!(
        g.neighbors("b", GraphDirection::Any),
        vec!["a".to_string(), "c".to_string()]
    );
    assert!(g.neighbors("zz", GraphDirection::Any).is_empty());
}

#[test]
fn remove_relationship_cleans_adjacency() {
    let mut g = MemoryGraph::new();
    for id in ["a", "b", "c"] {
        g.upsert_node(node(id));
    }
    g.add_relationship(rel("r1", "a", "b", "k", 1.0)).unwrap();
    g.add_relationship(rel("r2", "b", "c", "k", 1.0)).unwrap();
    assert!(g.remove_relationship("r1"));
    assert!(!g.remove_relationship("zz"), "missing id returns false");
    assert!(g.relationship("r1").is_none());
    assert!(g.neighbors("a", GraphDirection::Outgoing).is_empty());
    assert!(g.neighbors("b", GraphDirection::Incoming).is_empty());
    assert_eq!(
        g.neighbors("b", GraphDirection::Outgoing),
        vec!["c".to_string()]
    );
    assert!(
        g.relationship("r2").is_some(),
        "unrelated relationship survives"
    );
}

#[test]
fn remove_node_cascades_incident_relationships() {
    let mut g = MemoryGraph::new();
    for id in ["a", "b", "c"] {
        g.upsert_node(node(id));
    }
    g.add_relationship(rel("r1", "a", "b", "k", 1.0)).unwrap();
    g.add_relationship(rel("r2", "c", "a", "k", 1.0)).unwrap();
    g.add_relationship(rel("r3", "b", "b", "loop", 1.0))
        .unwrap();
    assert!(g.remove_node("b"));
    assert!(!g.remove_node("zz"), "missing id returns false");
    assert!(g.node("b").is_none());
    assert!(
        g.relationship("r1").is_none(),
        "outgoing relationship cascaded"
    );
    assert!(
        g.relationship("r3").is_none(),
        "self-loop cascaded exactly once"
    );
    assert!(
        g.relationship("r2").is_some(),
        "unrelated relationship survives"
    );
    assert!(g.neighbors("a", GraphDirection::Outgoing).is_empty());
    assert_eq!(
        g.neighbors("a", GraphDirection::Incoming),
        vec!["c".to_string()]
    );
    assert_eq!(
        g.neighbors("c", GraphDirection::Outgoing),
        vec!["a".to_string()]
    );
    assert_endpoint_invariant(&g);
}

#[test]
fn traverse_bounds_depth_and_orders_levels() {
    let mut g = MemoryGraph::new();
    for id in ["a", "b", "c", "d"] {
        g.upsert_node(node(id));
    }
    g.add_relationship(rel("r1", "a", "b", "k", 1.0)).unwrap();
    g.add_relationship(rel("r2", "a", "c", "k", 1.0)).unwrap();
    g.add_relationship(rel("r3", "b", "d", "k", 1.0)).unwrap();
    assert_eq!(
        g.traverse("a", 0, GraphDirection::Outgoing),
        vec!["a".to_string()]
    );
    assert_eq!(
        g.traverse("a", 1, GraphDirection::Outgoing),
        vec!["a".to_string(), "b".to_string(), "c".to_string()]
    );
    assert_eq!(
        g.traverse("a", 2, GraphDirection::Outgoing),
        vec![
            "a".to_string(),
            "b".to_string(),
            "c".to_string(),
            "d".to_string()
        ]
    );
    assert!(g.traverse("zz", 2, GraphDirection::Outgoing).is_empty());
}

#[test]
fn traverse_respects_direction() {
    let mut g = MemoryGraph::new();
    for id in ["a", "b", "c"] {
        g.upsert_node(node(id));
    }
    g.add_relationship(rel("r1", "a", "b", "k", 1.0)).unwrap();
    g.add_relationship(rel("r2", "c", "a", "k", 1.0)).unwrap();
    assert_eq!(
        g.traverse("a", 1, GraphDirection::Outgoing),
        vec!["a".to_string(), "b".to_string()]
    );
    assert_eq!(
        g.traverse("a", 1, GraphDirection::Incoming),
        vec!["a".to_string(), "c".to_string()]
    );
    assert_eq!(
        g.traverse("a", 1, GraphDirection::Any),
        vec!["a".to_string(), "b".to_string(), "c".to_string()]
    );
}

#[test]
fn traverse_handles_cycles() {
    let mut g = MemoryGraph::new();
    for id in ["a", "b", "c"] {
        g.upsert_node(node(id));
    }
    g.add_relationship(rel("r1", "a", "b", "k", 1.0)).unwrap();
    g.add_relationship(rel("r2", "b", "a", "k", 1.0)).unwrap();
    g.add_relationship(rel("r3", "b", "c", "k", 1.0)).unwrap();
    assert_eq!(
        g.traverse("a", 5, GraphDirection::Outgoing),
        vec!["a".to_string(), "b".to_string(), "c".to_string()],
        "a cycle terminates and visits each node once"
    );
}

#[test]
fn is_connected_reports_directed_reachability() {
    let mut g = MemoryGraph::new();
    for id in ["a", "b", "c"] {
        g.upsert_node(node(id));
    }
    g.add_relationship(rel("r1", "a", "b", "k", 1.0)).unwrap();
    g.add_relationship(rel("r2", "b", "c", "k", 1.0)).unwrap();
    assert!(g.is_connected("a", "c"), "multi-hop reachability");
    assert!(g.is_connected("a", "b"));
    assert!(!g.is_connected("c", "a"), "reachability is directed");
    assert!(g.is_connected("a", "a"), "a node reaches itself");
    assert!(!g.is_connected("zz", "a"));
    assert!(!g.is_connected("a", "zz"));
}

#[test]
fn subgraph_extracts_induced_neighborhood() {
    let mut g = MemoryGraph::new();
    for id in ["a", "b", "c", "d"] {
        g.upsert_node(node(id));
    }
    g.add_relationship(rel("r1", "a", "b", "k", 1.0)).unwrap();
    g.add_relationship(rel("r2", "b", "c", "k", 1.0)).unwrap();
    g.add_relationship(rel("r3", "c", "d", "k", 1.0)).unwrap();
    g.add_relationship(rel("r4", "a", "c", "cross", 1.0))
        .unwrap();
    let sg = g.subgraph(&["a".to_string()], 1);
    let sg_nodes: Vec<String> = sg.nodes().iter().map(|n| n.id.clone()).collect();
    assert_eq!(
        sg_nodes,
        vec!["a", "b", "c"],
        "closure at depth 1 excludes d"
    );
    let sg_rels: Vec<String> = sg.relationships().iter().map(|r| r.id.clone()).collect();
    assert_eq!(
        sg_rels,
        vec!["r1", "r2", "r4"],
        "cross-link r4 is preserved; r3 leaves the closure and is excluded"
    );
    assert_endpoint_invariant(&sg);
    // Depth 2 reaches d through a -> c -> d, pulling r3 in.
    let sg2 = g.subgraph(&["a".to_string()], 2);
    let sg2_nodes: Vec<String> = sg2.nodes().iter().map(|n| n.id.clone()).collect();
    assert_eq!(sg2_nodes, vec!["a", "b", "c", "d"]);
    assert_eq!(sg2.relationship_count(), 4);
    assert_endpoint_invariant(&sg2);
    assert!(
        g.subgraph(&[], 5).is_empty(),
        "no roots yield an empty subgraph"
    );
}

#[test]
fn subgraph_skips_missing_roots() {
    let mut g = MemoryGraph::new();
    g.upsert_node(node("a"));
    g.upsert_node(node("b"));
    g.add_relationship(rel("r1", "a", "b", "k", 1.0)).unwrap();
    let sg = g.subgraph(&["zz".to_string(), "a".to_string()], 1);
    let sg_nodes: Vec<String> = sg.nodes().iter().map(|n| n.id.clone()).collect();
    assert_eq!(sg_nodes, vec!["a", "b"], "the missing root is skipped");
}

#[test]
fn merge_unions_disjoint_graphs() {
    let mut g1 = MemoryGraph::new();
    g1.upsert_node(node("a"));
    g1.upsert_node(node("b"));
    g1.add_relationship(rel("r1", "a", "b", "k", 1.0)).unwrap();
    let mut g2 = MemoryGraph::new();
    g2.upsert_node(node("c"));
    g2.upsert_node(node("d"));
    g2.add_relationship(rel("r2", "c", "d", "k", 1.0)).unwrap();
    let report = g1.merge(g2, MergePolicy::Keep);
    assert_eq!(report.nodes_added, 2);
    assert_eq!(report.nodes_overwritten, 0);
    assert_eq!(report.nodes_kept, 0);
    assert_eq!(report.relationships_added, 1);
    assert_eq!(report.relationships_renamed, 0);
    assert_eq!(g1.len(), 4);
    assert_eq!(g1.relationship_count(), 2);
    assert!(g1.node("a").is_some() && g1.node("c").is_some());
    assert!(g1.relationship("r1").is_some() && g1.relationship("r2").is_some());
    assert_endpoint_invariant(&g1);
}

#[test]
fn merge_keep_policy_preserves_existing_node() {
    let mut g1 = MemoryGraph::new();
    g1.upsert_node(GraphNode {
        id: "a".into(),
        labels: vec!["original".into()],
        properties: props(&[("name", json(r#""Ada""#))]),
    });
    let mut g2 = MemoryGraph::new();
    g2.upsert_node(GraphNode {
        id: "a".into(),
        labels: vec!["incoming".into()],
        properties: props(&[("name", json(r#""Grace""#))]),
    });
    g2.upsert_node(node("b"));
    g2.add_relationship(rel("r1", "a", "b", "k", 1.0)).unwrap();
    let report = g1.merge(g2, MergePolicy::Keep);
    assert_eq!(report.nodes_kept, 1);
    let a = g1.node("a").unwrap();
    assert_eq!(
        a.labels,
        vec!["original"],
        "Keep leaves the existing node untouched"
    );
    assert_eq!(a.properties.get("name"), Some(&json(r#""Ada""#)));
    assert!(
        g1.relationship("r1").is_some(),
        "incoming relationships still merge"
    );
    assert!(g1.node("b").is_some());
}

#[test]
fn merge_overwrite_policy_replaces_node() {
    let mut g1 = MemoryGraph::new();
    g1.upsert_node(GraphNode {
        id: "a".into(),
        labels: vec!["original".into()],
        properties: props(&[("name", json(r#""Ada""#))]),
    });
    let mut g2 = MemoryGraph::new();
    g2.upsert_node(GraphNode {
        id: "a".into(),
        labels: vec!["incoming".into()],
        properties: props(&[("name", json(r#""Grace""#))]),
    });
    let report = g1.merge(g2, MergePolicy::Overwrite);
    assert_eq!(report.nodes_overwritten, 1);
    let a = g1.node("a").unwrap();
    assert_eq!(
        a.labels,
        vec!["incoming"],
        "Overwrite replaces labels and properties"
    );
    assert_eq!(a.properties.get("name"), Some(&json(r#""Grace""#)));
}

#[test]
fn merge_renames_relationship_id_collisions_deterministically() {
    // Simple collision: incoming `r` becomes `r-2`; the original survives.
    let mut g1 = MemoryGraph::new();
    g1.upsert_node(node("a"));
    g1.upsert_node(node("b"));
    g1.add_relationship(rel("r", "a", "b", "k", 1.0)).unwrap();
    let mut g2 = MemoryGraph::new();
    g2.upsert_node(node("a"));
    g2.upsert_node(node("b"));
    g2.add_relationship(rel("r", "a", "b", "k", 2.0)).unwrap();
    let report = g1.merge(g2, MergePolicy::Keep);
    assert_eq!(report.relationships_renamed, 1);
    assert_eq!(report.relationships_added, 0);
    assert_eq!(g1.relationship_count(), 2);
    assert_eq!(
        weight(g1.relationship("r").unwrap()),
        1.0,
        "original kept under its id"
    );
    assert_eq!(
        weight(g1.relationship("r-2").unwrap()),
        2.0,
        "incoming renamed"
    );

    // Chain: self already has `r-2`, so incoming `r` becomes `r-3`.
    let mut g1 = MemoryGraph::new();
    g1.upsert_node(node("a"));
    g1.upsert_node(node("b"));
    g1.add_relationship(rel("r", "a", "b", "k", 1.0)).unwrap();
    g1.add_relationship(rel("r-2", "a", "b", "k", 1.5)).unwrap();
    let mut g2 = MemoryGraph::new();
    g2.upsert_node(node("a"));
    g2.upsert_node(node("b"));
    g2.add_relationship(rel("r", "a", "b", "k", 2.0)).unwrap();
    let report = g1.merge(g2, MergePolicy::Keep);
    assert_eq!(report.relationships_renamed, 1);
    assert_eq!(weight(g1.relationship("r").unwrap()), 1.0);
    assert_eq!(weight(g1.relationship("r-2").unwrap()), 1.5);
    assert_eq!(weight(g1.relationship("r-3").unwrap()), 2.0);
    assert_eq!(g1.relationship_count(), 3);
}

#[test]
fn merge_rename_collision_between_incoming_relationships() {
    // Both incoming `x` and `x-2` collide: sorted-origin processing fixes
    // the mapping: incoming `x` -> `x-3`, incoming `x-2` -> `x-2-2`.
    let mut g1 = MemoryGraph::new();
    g1.upsert_node(node("a"));
    g1.upsert_node(node("b"));
    g1.add_relationship(rel("x", "a", "b", "k", 1.0)).unwrap();
    g1.add_relationship(rel("x-2", "a", "b", "k", 1.5)).unwrap();
    let mut g2 = MemoryGraph::new();
    g2.upsert_node(node("a"));
    g2.upsert_node(node("b"));
    g2.add_relationship(rel("x", "a", "b", "k", 2.0)).unwrap();
    g2.add_relationship(rel("x-2", "a", "b", "k", 2.5)).unwrap();
    let report = g1.merge(g2, MergePolicy::Keep);
    assert_eq!(report.relationships_renamed, 2);
    assert_eq!(report.relationships_added, 0);
    assert_eq!(g1.relationship_count(), 4);
    assert_eq!(weight(g1.relationship("x").unwrap()), 1.0);
    assert_eq!(weight(g1.relationship("x-2").unwrap()), 1.5);
    assert_eq!(
        weight(g1.relationship("x-3").unwrap()),
        2.0,
        "incoming x renamed to x-3"
    );
    assert_eq!(
        weight(g1.relationship("x-2-2").unwrap()),
        2.5,
        "incoming x-2 renamed to x-2-2 (the suffix appends to the full original id)"
    );
}

#[test]
fn merge_rename_avoids_surviving_incoming_ids() {
    // Duplicate-id bug case: self has `x`; incoming has `x` (collides) and
    // `x-2` (survives). The rename must not land on the surviving `x-2`.
    let mut g1 = MemoryGraph::new();
    g1.upsert_node(node("a"));
    g1.upsert_node(node("b"));
    g1.add_relationship(rel("x", "a", "b", "k", 1.0)).unwrap();
    let mut g2 = MemoryGraph::new();
    g2.upsert_node(node("a"));
    g2.upsert_node(node("b"));
    g2.add_relationship(rel("x", "a", "b", "k", 2.0)).unwrap();
    g2.add_relationship(rel("x-2", "a", "b", "k", 2.5)).unwrap();
    let report = g1.merge(g2, MergePolicy::Keep);
    assert_eq!(report.relationships_renamed, 1);
    assert_eq!(report.relationships_added, 1);
    assert_eq!(
        g1.relationship_count(),
        3,
        "no relationship is silently lost"
    );
    assert_eq!(weight(g1.relationship("x").unwrap()), 1.0);
    assert_eq!(
        weight(g1.relationship("x-2").unwrap()),
        2.5,
        "surviving incoming id untouched"
    );
    assert_eq!(
        weight(g1.relationship("x-3").unwrap()),
        2.0,
        "renamed away from x-2"
    );
}

#[test]
fn merge_never_loses_relationships() {
    let mut g1 = MemoryGraph::new();
    g1.upsert_node(node("a"));
    g1.upsert_node(node("b"));
    g1.add_relationship(rel("r1", "a", "b", "k", 1.0)).unwrap();
    g1.add_relationship(rel("r2", "b", "a", "k", 1.0)).unwrap();
    let mut g2 = MemoryGraph::new();
    g2.upsert_node(node("a"));
    g2.upsert_node(node("b"));
    g2.add_relationship(rel("r2", "b", "a", "k", 2.0)).unwrap();
    g2.add_relationship(rel("r3", "a", "b", "k", 3.0)).unwrap();
    g2.add_relationship(rel("r4", "b", "a", "k", 4.0)).unwrap();
    let before = g1.relationship_count();
    let other_count = 3;
    g1.merge(g2, MergePolicy::Keep);
    assert_eq!(
        g1.relationship_count(),
        before + other_count,
        "merge never loses relationships"
    );
    assert!(g1.relationship("r1").is_some());
    assert!(g1.relationship("r2").is_some(), "self's r2 kept");
    assert!(g1.relationship("r2-2").is_some(), "incoming r2 renamed");
    assert!(g1.relationship("r3").is_some());
    assert!(g1.relationship("r4").is_some());
    assert_endpoint_invariant(&g1);
}

#[test]
fn merge_report_counts_are_exact() {
    let mut g1 = MemoryGraph::new();
    for id in ["a", "b", "c"] {
        g1.upsert_node(node(id));
    }
    g1.add_relationship(rel("r1", "a", "b", "k", 1.0)).unwrap();
    g1.add_relationship(rel("r2", "b", "c", "k", 1.0)).unwrap();
    let mut g2 = MemoryGraph::new();
    g2.upsert_node(node("a"));
    g2.upsert_node(node("b"));
    g2.upsert_node(node("d"));
    g2.add_relationship(rel("r2", "b", "d", "k", 2.0)).unwrap();
    g2.add_relationship(rel("r3", "d", "a", "k", 2.0)).unwrap();
    let report = g1.merge(g2, MergePolicy::Keep);
    assert_eq!(report.nodes_added, 1, "d added");
    assert_eq!(report.nodes_kept, 2, "a and b kept");
    assert_eq!(report.nodes_overwritten, 0);
    assert_eq!(report.relationships_added, 1, "r3 added");
    assert_eq!(report.relationships_renamed, 1, "r2 renamed");
    assert_eq!(
        report.nodes_added + report.nodes_overwritten + report.nodes_kept,
        3
    );
    assert_eq!(report.relationships_added + report.relationships_renamed, 2);
    assert_endpoint_invariant(&g1);
}

#[test]
fn merge_preserves_endpoint_invariant() {
    let mut g1 = MemoryGraph::new();
    g1.upsert_node(node("a"));
    g1.upsert_node(node("b"));
    g1.add_relationship(rel("r1", "a", "b", "k", 1.0)).unwrap();
    let mut g2 = MemoryGraph::new();
    g2.upsert_node(node("b"));
    g2.upsert_node(node("c"));
    g2.add_relationship(rel("r2", "b", "c", "k", 2.0)).unwrap();
    g1.merge(g2, MergePolicy::Keep);
    assert_endpoint_invariant(&g1);
    let mut g3 = MemoryGraph::new();
    g3.upsert_node(node("c"));
    g3.upsert_node(node("d"));
    g3.add_relationship(rel("r3", "c", "d", "k", 3.0)).unwrap();
    g1.merge(g3, MergePolicy::Overwrite);
    assert_endpoint_invariant(&g1);
}

#[test]
fn merge_deterministic_across_input_history() {
    // Identical content built in different insertion orders must merge to
    // equal graphs with equal reports.
    let mut g1a = MemoryGraph::new();
    g1a.upsert_node(node("a"));
    g1a.upsert_node(node("b"));
    g1a.upsert_node(node("c"));
    g1a.add_relationship(rel("x", "a", "b", "k", 1.0)).unwrap();
    g1a.add_relationship(rel("y", "b", "c", "k", 1.0)).unwrap();
    let mut g1b = MemoryGraph::new();
    g1b.upsert_node(node("c"));
    g1b.upsert_node(node("a"));
    g1b.upsert_node(node("b"));
    g1b.add_relationship(rel("y", "b", "c", "k", 1.0)).unwrap();
    g1b.add_relationship(rel("x", "a", "b", "k", 1.0)).unwrap();

    let mut g2a = MemoryGraph::new();
    g2a.upsert_node(node("d"));
    g2a.upsert_node(node("e"));
    g2a.add_relationship(rel("z", "d", "e", "k", 2.0)).unwrap();
    g2a.add_relationship(rel("w", "e", "d", "k", 2.0)).unwrap();
    let mut g2b = MemoryGraph::new();
    g2b.upsert_node(node("e"));
    g2b.upsert_node(node("d"));
    g2b.add_relationship(rel("w", "e", "d", "k", 2.0)).unwrap();
    g2b.add_relationship(rel("z", "d", "e", "k", 2.0)).unwrap();

    let report_a = g1a.merge(g2a, MergePolicy::Keep);
    let report_b = g1b.merge(g2b, MergePolicy::Keep);
    assert_eq!(report_a, report_b);
    assert_eq!(g1a, g1b, "merge result is independent of insertion order");
}

#[test]
fn render_is_deterministic_and_sorted() {
    let mut g = MemoryGraph::new();
    g.upsert_node(GraphNode {
        id: "b".into(),
        labels: vec!["person".into()],
        properties: props(&[("name", json(r#""Bob""#))]),
    });
    g.upsert_node(node("a"));
    g.add_relationship(rel("r1", "b", "a", "works_on", 1.0))
        .unwrap();
    g.add_relationship(GraphRelationship {
        id: "r2".into(),
        from: "a".into(),
        to: "b".into(),
        kind: "knows".into(),
        weight: double(0.5),
        properties: props(&[("since", json(r#"2020"#))]),
    })
    .unwrap();
    let expected = "CUCA graph memory: 2 nodes, 2 relationships\n\
                    node a:\n\
                    node b: labels=[person] props={\"name\":\"Bob\"}\n\
                    rel r1: b -[works_on]-> a weight=1\n\
                    rel r2: a -[knows]-> b weight=0.5 props={\"since\":2020}\n";
    let rendered = g.render(16, 32);
    assert_eq!(
        rendered, expected,
        "exact byte format per MemoryGraph::render"
    );
    assert_eq!(g.render(16, 32), rendered, "byte-identical across calls");
}

#[test]
fn render_truncates_to_maxes_with_omission_lines() {
    let mut g = MemoryGraph::new();
    g.upsert_node(GraphNode {
        id: "b".into(),
        labels: vec!["person".into()],
        properties: props(&[("name", json(r#""Bob""#))]),
    });
    g.upsert_node(node("a"));
    g.add_relationship(rel("r1", "b", "a", "works_on", 1.0))
        .unwrap();
    g.add_relationship(rel("r2", "a", "b", "knows", 0.5))
        .unwrap();
    let truncated = "CUCA graph memory: 2 nodes, 2 relationships\n\
                     node a:\n\
                     ... 1 more nodes omitted\n\
                     rel r1: b -[works_on]-> a weight=1\n\
                     ... 1 more relationships omitted\n";
    assert_eq!(g.render(1, 1), truncated);
    let zeroed = "CUCA graph memory: 2 nodes, 2 relationships\n\
                  ... 2 more nodes omitted\n\
                  ... 2 more relationships omitted\n";
    assert_eq!(g.render(0, 0), zeroed);
}

#[test]
fn graph_is_send_sync() {
    fn assert_send_sync<T: Send + Sync>() {}
    assert_send_sync::<MemoryGraph>();
}

/// Equivalent graphs built in different insertion orders must serialize to
/// identical canonical JSON: nodes and relationships sorted by id, and no
/// derived index fields.
#[test]
fn snapshot_is_deterministic_across_insertion_orders() {
    let labeled = |id: &str, labels: &[&str], p: &[(&str, Json)]| GraphNode {
        id: id.to_string(),
        labels: labels.iter().map(|l| l.to_string()).collect(),
        properties: props(p),
    };
    // Note the label order below is deliberately *not* sorted: label order
    // is part of the node value and must survive the snapshot unchanged.
    let nodes = vec![
        labeled(
            "alice",
            &["person", "author"],
            &[("meta", json(r#"{"z": [1, 2, {"deep": true}], "a": null}"#))],
        ),
        labeled("bob", &["person"], &[("age", json(r#"41"#))]),
        labeled("carol", &[], &[]),
    ];
    let rels = vec![
        rel("r1", "alice", "bob", "knows", 1.5),
        rel("r2", "bob", "alice", "knows", -0.25),
        rel("r3", "carol", "carol", "self", 0.0),
    ];

    let mut forward = MemoryGraph::new();
    for n in &nodes {
        forward.upsert_node(n.clone());
    }
    for r in &rels {
        forward.add_relationship(r.clone()).unwrap();
    }

    let mut reverse = MemoryGraph::new();
    for n in nodes.iter().rev() {
        reverse.upsert_node(n.clone());
    }
    for r in rels.iter().rev() {
        reverse.add_relationship(r.clone()).unwrap();
    }

    assert_eq!(
        forward.snapshot(),
        reverse.snapshot(),
        "a snapshot must not depend on insertion order"
    );

    let snapshot = forward.snapshot();
    assert_eq!(
        snapshot
            .nodes
            .iter()
            .map(|n| n.id.as_str())
            .collect::<Vec<_>>(),
        vec!["alice", "bob", "carol"]
    );
    assert_eq!(
        snapshot
            .relationships
            .iter()
            .map(|r| r.id.as_str())
            .collect::<Vec<_>>(),
        vec!["r1", "r2", "r3"]
    );
    // Values are the existing serde values, labels in their original order.
    assert_eq!(snapshot.nodes[0], nodes[0]);
    assert_eq!(snapshot.nodes[0].labels, vec!["person", "author"]);
    assert_eq!(snapshot.relationships[2], rels[2]);
}

#[test]
fn snapshot_of_empty_graph_has_empty_collections() {
    let snapshot = MemoryGraph::new().snapshot();
    assert!(snapshot.nodes.is_empty());
    assert!(snapshot.relationships.is_empty());
}

/// A snapshot round trip is lossless for every field, keeps parallel edges
/// separate (relationship ids are preserved) and keeps a self-loop a
/// self-loop (both endpoints are preserved).
#[test]
fn from_snapshot_round_trip_is_lossless() {
    let mut graph = MemoryGraph::new();
    graph.upsert_node(GraphNode {
        id: "alice".to_string(),
        labels: vec!["person".to_string(), "author".to_string()],
        properties: props(&[("meta", json(r#"{"tags": ["x", "y"]}"#))]),
    });
    graph.upsert_node(node("bob"));
    graph.upsert_node(node("carol"));
    // Parallel edges alice -> bob with distinct ids and distinct payloads.
    let mut parallel_a = rel("r1", "alice", "bob", "knows", 1.5);
    parallel_a.properties = props(&[("since", json(r#"2020"#))]);
    let mut parallel_b = rel("r2", "alice", "bob", "follows", -2.25);
    parallel_b.properties = props(&[("since", json(r#"2024"#))]);
    graph.add_relationship(parallel_a).unwrap();
    graph.add_relationship(parallel_b).unwrap();
    graph
        .add_relationship(rel("r3", "carol", "carol", "self", 0.0))
        .unwrap();

    let snapshot = graph.snapshot();
    let rebuilt = MemoryGraph::from_snapshot(snapshot.clone()).unwrap();

    assert_eq!(rebuilt.len(), graph.len());
    assert_eq!(rebuilt.relationship_count(), graph.relationship_count());
    for n in &snapshot.nodes {
        let got = rebuilt.node(&n.id).expect("node present");
        assert_eq!(got, n, "node '{}' must round-trip every field", n.id);
    }
    for r in &snapshot.relationships {
        let got = rebuilt.relationship(&r.id).expect("relationship present");
        assert_eq!(got.id, r.id);
        assert_eq!(got.from, r.from);
        assert_eq!(got.to, r.to);
        assert_eq!(got.kind, r.kind);
        assert_eq!(got.weight, r.weight);
        assert_eq!(got.properties, r.properties);
    }
    // Parallel edges stayed separate; the self-loop stayed a self-loop.
    assert_eq!(rebuilt.relationship("r1").unwrap().kind, "knows");
    assert_eq!(rebuilt.relationship("r2").unwrap().kind, "follows");
    let loop_rel = rebuilt.relationship("r3").unwrap();
    assert_eq!(loop_rel.from, loop_rel.to);
    // Adjacency (all six collections) was rebuilt, not just the stores.
    assert_eq!(
        rebuilt.neighbors("alice", GraphDirection::Outgoing),
        vec!["bob".to_string()]
    );
    assert_eq!(
        rebuilt.neighbors("bob", GraphDirection::Any),
        vec!["alice".to_string()]
    );
    assert_eq!(
        rebuilt.neighbors("carol", GraphDirection::Any),
        vec!["carol".to_string()]
    );
    assert_endpoint_invariant(&rebuilt);
    assert_eq!(rebuilt.snapshot(), snapshot);
    assert_eq!(rebuilt, graph);
}

#[test]
fn from_snapshot_rejects_duplicate_node_ids() {
    let snapshot = GraphSnapshot {
        nodes: vec![node("alice"), node("alice")],
        relationships: Vec::new(),
    };
    let err = MemoryGraph::from_snapshot(snapshot).unwrap_err();
    assert!(
        err.to_text().contains("alice"),
        "error must name the duplicate node id: {err:?}"
    );
}

#[test]
fn from_snapshot_rejects_duplicate_relationship_ids() {
    let snapshot = GraphSnapshot {
        nodes: vec![node("alice"), node("bob")],
        relationships: vec![
            rel("r1", "alice", "bob", "knows", 1.0),
            rel("r1", "bob", "alice", "knows", 1.0),
        ],
    };
    let err = MemoryGraph::from_snapshot(snapshot).unwrap_err();
    assert!(
        err.to_text().contains("r1"),
        "error must name the duplicate relationship id: {err:?}"
    );
}

#[test]
fn from_snapshot_rejects_missing_endpoints() {
    for (missing, r) in [
        ("ghost", rel("r1", "ghost", "bob", "knows", 1.0)),
        ("phantom", rel("r1", "bob", "phantom", "knows", 1.0)),
    ] {
        let snapshot = GraphSnapshot {
            nodes: vec![node("bob")],
            relationships: vec![r],
        };
        let err = MemoryGraph::from_snapshot(snapshot).unwrap_err();
        assert!(
            err.to_text().contains(missing),
            "error must name the missing endpoint '{missing}': {err:?}"
        );
    }
}

#[test]
fn from_snapshot_rejects_non_finite_weights() {
    for weight in [f64::NAN, f64::INFINITY, f64::NEG_INFINITY] {
        let snapshot = GraphSnapshot {
            nodes: vec![node("alice"), node("bob")],
            relationships: vec![rel("r1", "alice", "bob", "knows", weight)],
        };
        let err = MemoryGraph::from_snapshot(snapshot).unwrap_err();
        assert!(
            err.to_text().contains("r1"),
            "error must name the offending relationship for weight {weight}: {err:?}"
        );
    }
}

/// Every rejection is total: no graph is returned, and neither the live
/// graph a caller might replace nor its snapshot is disturbed.
#[test]
fn from_snapshot_errors_leave_the_live_graph_untouched() {
    let mut live = MemoryGraph::new();
    live.upsert_node(node("sentinel"));
    live.upsert_node(node("other"));
    live.add_relationship(rel("keep", "sentinel", "other", "knows", 1.0))
        .unwrap();
    let before = live.snapshot();

    let invalid = [
        GraphSnapshot {
            nodes: vec![node("dup"), node("dup")],
            relationships: Vec::new(),
        },
        GraphSnapshot {
            nodes: vec![node("a"), node("b")],
            relationships: vec![
                rel("r1", "a", "b", "knows", 1.0),
                rel("r1", "a", "b", "knows", 2.0),
            ],
        },
        GraphSnapshot {
            nodes: vec![node("a")],
            relationships: vec![rel("r1", "a", "missing", "knows", 1.0)],
        },
        GraphSnapshot {
            nodes: vec![node("a"), node("b")],
            relationships: vec![rel("r1", "a", "b", "knows", f64::NAN)],
        },
    ];
    for snapshot in invalid {
        assert!(MemoryGraph::from_snapshot(snapshot).is_err());
        assert_eq!(live.snapshot(), before);
    }
    assert_eq!(live.len(), 2);
    assert_eq!(live.relationship_count(), 1);
    assert!(live.relationship("keep").is_some());
}

/// Import is a wholesale replacement, never a merge: a valid snapshot
/// reconstructs exactly its own contents.
#[test]
fn from_snapshot_replaces_rather_than_merges() {
    let snapshot = GraphSnapshot {
        nodes: vec![node("new")],
        relationships: Vec::new(),
    };
    let rebuilt = MemoryGraph::from_snapshot(snapshot).unwrap();
    assert_eq!(rebuilt.len(), 1);
    assert!(rebuilt.node("new").is_some());
    assert_eq!(rebuilt.relationship_count(), 0);
}

#[test]
fn from_snapshot_accepts_empty_snapshot() {
    let rebuilt = MemoryGraph::from_snapshot(GraphSnapshot::default()).unwrap();
    assert!(rebuilt.is_empty());
    assert_eq!(rebuilt, MemoryGraph::new());
}

#[test]
fn refusals_name_relationship_node_and_end() {
    let mut g = MemoryGraph::new();
    g.upsert_node(node("a"));
    assert_eq!(
        g.add_relationship(rel("r", "zz", "yy", "k", 1.0)),
        Err(PluginError::Internal(
            "graph relationship 'r' references unknown node 'zz' (from)".to_string()
        ))
    );
    assert_eq!(
        g.add_relationship(rel("r", "a", "yy", "k", 1.0)),
        Err(PluginError::Internal(
            "graph relationship 'r' references unknown node 'yy' (to)".to_string()
        ))
    );
    assert!(g.relationship("r").is_none());
}

#[test]
fn removing_a_new_relationship_undoes_adding_it() {
    let mut g = MemoryGraph::new();
    g.upsert_node(node("a"));
    g.upsert_node(node("b"));
    let before = g.snapshot();
    g.add_relationship(rel("r", "a", "b", "k", 1.0)).unwrap();
    assert_ne!(g.snapshot(), before);
    assert!(g.remove_relationship("r"));
    assert_eq!(g.snapshot(), before);
}

#[test]
fn outgoing_and_incoming_are_inverse() {
    let mut g = MemoryGraph::new();
    for id in ["a", "b", "c"] {
        g.upsert_node(node(id));
    }
    g.add_relationship(rel("r1", "a", "b", "k", 1.0)).unwrap();
    g.add_relationship(rel("r2", "c", "b", "k", 1.0)).unwrap();
    for from in ["a", "b", "c"] {
        for to in ["a", "b", "c"] {
            assert_eq!(
                g.neighbors(from, GraphDirection::Outgoing).contains(&to.to_string()),
                g.neighbors(to, GraphDirection::Incoming).contains(&from.to_string()),
            );
        }
    }
}

#[test]
fn reserving_changes_nothing() {
    let mut g = MemoryGraph::with_capacity(1, 1);
    g.upsert_node(node("a"));
    let before = g.clone();
    g.reserve(10, 10);
    assert_eq!(g, before);
}

#[test]
fn removing_a_node_drops_its_lists() {
    let mut g = MemoryGraph::new();
    g.upsert_node(node("a"));
    let before = g.clone();
    g.upsert_node(node("b"));
    g.add_relationship(rel("r1", "b", "b", "loop", 1.0)).unwrap();
    assert!(g.remove_node("b"));
    assert_eq!(g, before);
}
