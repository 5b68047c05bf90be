use forge::graph::{Entity, KnowledgeGraph, Relationship};

fn entity(name: &str, description: &str, chunks: &[&str]) -> Entity {
    Entity {
        id: String::new(),
        name: name.to_string(),
        entity_type: "Concept".to_string(),
        description: description.to_string(),
        source_chunks: chunks.iter().map(|c| c.to_string()).collect(),
    }
}

fn rel(source: &str, target: &str, rel_type: &str) -> Relationship {
    Relationship {
        source: source.to_string(),
        target: target.to_string(),
        rel_type: rel_type.to_string(),
        description: String::new(),
        strength_bits: 1.0f32.to_bits(),
    }
}

#[test]
fn add_entity_ignores_case() {
    let mut g = KnowledgeGraph::new();
    let a = g.add_entity(entity("Acme Corp", "first", &["c1"]));
    let b = g.add_entity(entity("ACME corp", "second", &["c2"]));
    assert_eq!(a, "acme-corp");
    assert_eq!(b, "acme-corp");
    assert_eq!(g.nodes.len(), 1);
    assert_eq!(g.nodes[0].name, "Acme Corp");
    assert_eq!(g.nodes[0].description, "first");
}

#[test]
fn add_entity_suffixes_taken_ids() {
    let mut g = KnowledgeGraph::new();
    assert_eq!(g.add_entity(entity("A B", "", &[])), "a-b");
    assert_eq!(g.add_entity(entity("a-b", "", &[])), "a-b-1");
    assert_eq!(g.add_entity(entity("A_B", "", &[])), "a-b-2");
    assert_eq!(g.nodes.len(), 3);
    assert_eq!(g.nodes[2].id, "a-b-2");
}

#[test]
fn add_relationship_twice_keeps_one_edge() {
    let mut g = KnowledgeGraph::new();
    g.add_relationship(rel("a", "b", "knows"));
    g.add_relationship(rel("a", "b", "knows"));
    assert_eq!(g.edges.len(), 1);
    g.add_relationship(rel("a", "b", "likes"));
    g.add_relationship(rel("b", "a", "knows"));
    assert_eq!(g.edges.len(), 3);
}

#[test]
fn merge_scenario_acme() {
    let mut g = KnowledgeGraph::new();
    let acme = g.add_entity(entity("Acme", "", &["c1"]));
    let corp = g.add_entity(entity("Acme Corp", "Big company", &["c2"]));
    assert_eq!(acme, "acme");
    assert_eq!(corp, "acme-corp");
    g.add_entity(entity("Bob", "", &["c3"]));
    g.add_relationship(rel("bob", "acme-corp", "works_at"));
    g.merge_entities(&acme, &corp);
    assert_eq!(g.nodes.len(), 2);
    let kept = g.get("acme").unwrap();
    assert_eq!(kept.description, "Big company");
    assert_eq!(kept.source_chunks, vec!["c1".to_string(), "c2".to_string()]);
    assert!(g.get("acme-corp").is_none());
    assert_eq!(g.edges.len(), 1);
    assert_eq!(g.edges[0].source, "bob");
    assert_eq!(g.edges[0].target, "acme");
}

#[test]
fn merge_joins_descriptions_with_dash() {
    let mut g = KnowledgeGraph::new();
    let a = g.add_entity(entity("Alpha", "first", &["c1", "c2"]));
    let b = g.add_entity(entity("Beta", "second", &["c2", "c3"]));
    g.merge_entities(&a, &b);
    let kept = g.get("alpha").unwrap();
    assert_eq!(kept.description, "first \u{2014} second");
    assert_eq!(kept.source_chunks, vec!["c1".to_string(), "c2".to_string(), "c3".to_string()]);
}

#[test]
fn merge_twice_is_idempotent() {
    let mut g = KnowledgeGraph::new();
    let a = g.add_entity(entity("Alpha", "x", &["c1"]));
    let b = g.add_entity(entity("Beta", "y", &["c2"]));
    g.add_relationship(rel("beta", "gamma", "near"));
    g.merge_entities(&a, &b);
    let nodes_after: Vec<(String, String, Vec<String>)> =
        g.nodes.iter().map(|e| (e.id.clone(), e.description.clone(), e.source_chunks.clone())).collect();
    let edges_after: Vec<(String, String)> = g.edges.iter().map(|r| (r.source.clone(), r.target.clone())).collect();
    g.merge_entities(&a, &b);
    let nodes_again: Vec<(String, String, Vec<String>)> =
        g.nodes.iter().map(|e| (e.id.clone(), e.description.clone(), e.source_chunks.clone())).collect();
    let edges_again: Vec<(String, String)> = g.edges.iter().map(|r| (r.source.clone(), r.target.clone())).collect();
    assert_eq!(nodes_after, nodes_again);
    assert_eq!(edges_after, edges_again);
}

#[test]
fn merge_drops_self_loops() {
    let mut g = KnowledgeGraph::new();
    let a = g.add_entity(entity("Alpha", "", &[]));
    let b = g.add_entity(entity("Beta", "", &[]));
    g.add_relationship(rel("alpha", "beta", "r"));
    g.add_relationship(rel("beta", "alpha", "r"));
    g.add_relationship(rel("beta", "zeta", "r"));
    g.merge_entities(&a, &b);
    assert_eq!(g.edges.len(), 1);
    assert!(g.edges.iter().all(|r| r.source != r.target));
    assert_eq!(g.edges[0].source, "alpha");
    assert_eq!(g.edges[0].target, "zeta");
}

#[test]
fn merge_with_missing_keep_changes_nothing() {
    let mut g = KnowledgeGraph::new();
    let b = g.add_entity(entity("Beta", "", &[]));
    g.add_relationship(rel("beta", "beta", "self"));
    g.merge_entities(&"nobody".to_string(), &b);
    assert_eq!(g.nodes.len(), 1);
    assert_eq!(g.edges.len(), 1);
    g.merge_entities(&b, &b);
    assert_eq!(g.nodes.len(), 1);
}

#[test]
fn find_entity_ignores_case() {
    let mut g = KnowledgeGraph::new();
    g.add_entity(entity("Paris", "", &[]));
    assert_eq!(g.find_entity("PARIS").unwrap().id, "paris");
    assert!(g.find_entity("London").is_none());
}

#[test]
fn neighbors_skip_dangling_endpoints() {
    let mut g = KnowledgeGraph::new();
    g.add_entity(entity("Alpha", "", &[]));
    g.add_entity(entity("Beta", "", &[]));
    g.add_relationship(rel("alpha", "beta", "r"));
    g.add_relationship(rel("ghost", "alpha", "r"));
    g.add_relationship(rel("beta", "alpha", "s"));
    let n = g.neighbors(&"alpha".to_string());
    let names: Vec<&str> = n.iter().map(|e| e.name.as_str()).collect();
    assert_eq!(names, vec!["Beta", "Beta"]);
}

#[test]
fn graphml_export_escapes() {
    let mut g = KnowledgeGraph::new();
    g.add_entity(entity("R&D <lab>", "", &[]));
    g.add_relationship(rel("r-d--lab-", "x", "a\"b"));
    let xml = g.to_graphml();
    let expected = [
        "<?xml version=\"1.0\" encoding=\"UTF-8\"?>\n",
        "<graphml xmlns=\"http://graphml.graphdrawing.org/xmlns\">\n",
        "  <graph id=\"G\" edgedefault=\"undirected\">\n",
        "    <node id=\"r-d--lab-\"><data key=\"label\">R&amp;D &lt;lab&gt;</data></node>\n",
        "    <edge id=\"e0\" source=\"r-d--lab-\" target=\"x\"><data key=\"type\">a\"b</data></edge>\n",
        "  </graph>\n</graphml>\n",
    ]
    .concat();
    assert_eq!(xml, expected);
}

#[test]
fn ingest_adds_in_order() {
    let mut g = KnowledgeGraph::new();
    g.ingest(
        vec![entity("Paris", "", &["c1"]), entity("paris", "", &["c2"]), entity("France", "", &["c1"])],
        vec![rel("paris", "france", "in"), rel("paris", "france", "in")],
    );
    assert_eq!(g.nodes.len(), 2);
    assert_eq!(g.nodes[1].id, "france");
    assert_eq!(g.edges.len(), 1);
}

#[test]
fn add_entity_ignores_non_ascii_case() {
    let mut g = KnowledgeGraph::new();
    let a = g.add_entity(entity("Émile", "first", &["c1"]));
    let b = g.add_entity(entity("émile", "second", &["c2"]));
    assert_eq!(a, "-mile");
    assert_eq!(b, "-mile");
    assert_eq!(g.nodes.len(), 1);
    assert_eq!(g.find_entity("ÉMILE").unwrap().description, "first");
}

#[test]
fn merge_keeps_first_edge_of_each_triple() {
    let mut g = KnowledgeGraph::new();
    let a = g.add_entity(entity("A", "", &[]));
    let b = g.add_entity(entity("B", "", &[]));
    g.add_entity(entity("C", "", &[]));
    let mut first = rel("a", "c", "r");
    first.description = "from a".to_string();
    let mut second = rel("b", "c", "r");
    second.description = "from b".to_string();
    g.add_relationship(first);
    g.add_relationship(second);
    g.add_relationship(rel("b", "c", "s"));
    g.merge_entities(&a, &b);
    let triples: Vec<(&str, &str, &str, &str)> = g
        .edges
        .iter()
        .map(|r| (r.source.as_str(), r.target.as_str(), r.rel_type.as_str(), r.description.as_str()))
        .collect();
    assert_eq!(triples, vec![("a", "c", "r", "from a"), ("a", "c", "s", "")]);
}
