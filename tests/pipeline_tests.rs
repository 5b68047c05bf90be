use forge::community::CommunityDetector;
use forge::config::{export_format, Config, ExportFormat, Settings};
use forge::document::{document_kind, Chunk, DocumentKind, DocumentProcessor};
use forge::extract::{
    capitalized_terms_given, collect_capitalized_terms, extraction_prompt, fallback_extraction, json_candidate, EntityExtractor,
    ExtractedEntity, ExtractedRelationship,
};
use forge::graph::{Entity, KnowledgeGraph, Relationship};
use forge::llm::LLMEngine;
use forge::rag::{query_prompt, QueryEngine, SummaryGenerator};
use forge::text::{decimal_string, sanitize_id, xml_escape};
use forge::vector::{byte_histogram, rank_top_k, score_order_key, VectorIndex};

fn chunk(id: &str, text: &str) -> Chunk {
    Chunk { id: id.to_string(), text: text.to_string(), token_estimate: 0, source_path: None }
}

fn named(name: &str) -> Entity {
    Entity {
        id: String::new(),
        name: name.to_string(),
        entity_type: "Concept".to_string(),
        description: String::new(),
        source_chunks: vec![],
    }
}

fn edge(source: &str, target: &str) -> Relationship {
    Relationship {
        source: source.to_string(),
        target: target.to_string(),
        rel_type: "r".to_string(),
        description: String::new(),
        strength_bits: 1.0f32.to_bits(),
    }
}

#[test]
fn fallback_scenario_paris_france() {
    let (entities, relationships) = fallback_extraction(&chunk("c1", "Paris is the capital of France."));
    let names: Vec<&str> = entities.iter().map(|e| e.name.as_str()).collect();
    assert_eq!(names, vec!["France", "Paris"]);
    assert!(relationships.is_empty());
    for e in &entities {
        assert_eq!(e.entity_type, "Concept");
        assert_eq!(e.description, "");
        assert_eq!(e.source_chunks, vec!["c1".to_string()]);
        assert_eq!(e.id, "");
    }
}

#[test]
fn capitalized_terms_rules() {
    let terms = collect_capitalized_terms("I met Jean-Luc and Jean-Luc met Zoe; A x, Élan É b");
    assert_eq!(terms, vec!["Jean-Luc".to_string(), "Zoe".to_string(), "É".to_string(), "Élan".to_string()]);
}

#[test]
fn fallback_caps_at_sixteen() {
    let words: Vec<String> = (0..20).map(|i| format!("Term{:02}", 19 - i)).collect();
    let text = words.join(" ");
    let (entities, _) = fallback_extraction(&chunk("c9", &text));
    assert_eq!(entities.len(), 16);
    assert_eq!(entities[0].name, "Term00");
    assert_eq!(entities[15].name, "Term15");
}

#[test]
fn json_candidate_spans_braces() {
    assert_eq!(json_candidate("noise {\"a\": {\"b\": 1}} tail").unwrap(), "{\"a\": {\"b\": 1}}");
    assert!(json_candidate("} before {").is_none());
    assert!(json_candidate("no braces").is_none());
    assert_eq!(json_candidate("{}").unwrap(), "{}");
}

#[test]
fn extraction_from_records_applies_defaults() {
    let extractor = EntityExtractor::new(LLMEngine::new());
    let es = vec![ExtractedEntity { name: "Paris".to_string(), entity_type: "City".to_string(), description: None }];
    let rs = vec![ExtractedRelationship {
        source: "Paris".to_string(),
        target: "France".to_string(),
        rel_type: "in".to_string(),
        description: Some("capital".to_string()),
        strength_bits: None,
    }];
    let (entities, relationships) = extractor.complete(Some((es, rs)), &chunk("c7", "text"));
    assert_eq!(entities.len(), 1);
    assert_eq!(entities[0].entity_type, "City");
    assert_eq!(entities[0].description, "");
    assert_eq!(entities[0].source_chunks, vec!["c7".to_string()]);
    assert_eq!(relationships.len(), 1);
    assert_eq!(f32::from_bits(relationships[0].strength_bits), 1.0);
    assert_eq!(relationships[0].description, "capital");
}

#[test]
fn extraction_falls_back_without_payload() {
    let extractor = EntityExtractor::new(LLMEngine::new());
    let c = chunk("c1", "Paris is the capital of France.");
    let payload = extractor.request(&c);
    assert!(payload.is_none());
    let (entities, relationships) = extractor.complete(None, &c);
    assert_eq!(entities.len(), 2);
    assert!(relationships.is_empty());
}

#[test]
fn extraction_prompt_ends_with_text() {
    let p = extraction_prompt("Hello");
    assert!(p.starts_with("You are an entity extraction system."));
    assert!(p.ends_with("Text: \nHello"));
}

#[test]
fn stub_generation_reports_length() {
    let engine = LLMEngine::new();
    assert_eq!(engine.generate("héllo").unwrap(), "LLM(stub) response for prompt (5 chars).");
}

#[test]
fn query_uses_graph_size() {
    let mut g = KnowledgeGraph::new();
    g.add_entity(named("Alpha"));
    g.add_entity(named("Beta"));
    g.add_relationship(edge("alpha", "beta"));
    let p = query_prompt(2, 1, "who?");
    assert_eq!(p, "Given a knowledge graph with 2 entities and 1 relationships, answer the user query: 'who?'\nBe concise.");
    let engine = QueryEngine::new(g, LLMEngine::new(), ());
    let expected = format!("LLM(stub) response for prompt ({} chars).", p.chars().count());
    assert_eq!(engine.query("who?").unwrap(), expected);
}

#[test]
fn summary_prompt_names_known_members() {
    let mut g = KnowledgeGraph::new();
    g.add_entity(named("Alpha"));
    g.add_entity(named("Beta"));
    let members = vec!["alpha".to_string(), "ghost".to_string(), "beta".to_string()];
    assert_eq!(
        SummaryGenerator::prompt(&members, &g),
        "Summarize the theme connecting these entities: Alpha, Beta"
    );
    let s = SummaryGenerator::new(LLMEngine::new());
    assert!(s.generate(&members, &g).unwrap().starts_with("LLM(stub) response for prompt ("));
}

#[test]
fn detect_without_edges_gives_singletons() {
    let mut g = KnowledgeGraph::new();
    for n in ["Alpha", "Beta", "Gamma"] {
        g.add_entity(named(n));
    }
    let groups = CommunityDetector.detect(&g);
    assert_eq!(groups, vec![vec!["alpha".to_string()], vec!["beta".to_string()], vec!["gamma".to_string()]]);
}

#[test]
fn detect_converges_on_complete_graph() {
    let mut g = KnowledgeGraph::new();
    let ids: Vec<String> = ["Alpha", "Beta", "Gamma", "Delta"].iter().map(|n| g.add_entity(named(n))).collect();
    for a in &ids {
        for b in &ids {
            if a != b {
                g.add_relationship(edge(a, b));
            }
        }
    }
    let groups = CommunityDetector.detect(&g);
    assert_eq!(groups.len(), 1);
    assert_eq!(groups[0], ids);
}

#[test]
fn detect_keeps_isolated_node_alone() {
    let mut g = KnowledgeGraph::new();
    for n in ["Alpha", "Beta", "Gamma"] {
        g.add_entity(named(n));
    }
    g.add_relationship(edge("alpha", "beta"));
    g.add_relationship(edge("beta", "alpha"));
    let groups = CommunityDetector.detect(&g);
    assert_eq!(groups.len(), 2);
    assert!(groups.contains(&vec!["gamma".to_string()]));
    let total: usize = groups.iter().map(|c| c.len()).sum();
    assert_eq!(total, 3);
}

#[test]
fn chunk_text_windows() {
    let chunks = DocumentProcessor::chunk_text("a  b\nc d e", 2, Some("doc.txt".to_string()));
    let texts: Vec<&str> = chunks.iter().map(|c| c.text.as_str()).collect();
    assert_eq!(texts, vec!["a b", "c d", "e"]);
    let ids: Vec<&str> = chunks.iter().map(|c| c.id.as_str()).collect();
    assert_eq!(ids, vec!["chunk-0", "chunk-1", "chunk-2"]);
    let est: Vec<usize> = chunks.iter().map(|c| c.token_estimate).collect();
    assert_eq!(est, vec![2, 2, 1]);
    assert_eq!(chunks[2].source_path.as_deref(), Some("doc.txt"));
    assert!(DocumentProcessor::chunk_text("   ", 3, None).is_empty());
}

#[test]
fn chunk_text_with_overlap_windows() {
    let chunks = DocumentProcessor::chunk_text_with_overlap("a b c d e", 3, 1, None);
    let texts: Vec<&str> = chunks.iter().map(|c| c.text.as_str()).collect();
    assert_eq!(texts, vec!["a b c", "c d e"]);
    assert!(DocumentProcessor::chunk_text_with_overlap("a b c", 0, 0, None).is_empty());
    let one = DocumentProcessor::chunk_text_with_overlap("a b", 5, 2, None);
    assert_eq!(one.len(), 1);
    assert_eq!(one[0].token_estimate, 2);
}

#[test]
fn chunk_by_token_count_windows() {
    let chunks = DocumentProcessor::chunk_by_token_count("x y z", Some(5), 2, 0, None);
    assert_eq!(chunks.len(), 3);
    assert!(chunks.iter().all(|c| c.text == "x y z"));
    let est: Vec<usize> = chunks.iter().map(|c| c.token_estimate).collect();
    assert_eq!(est, vec![2, 2, 1]);
    let words = DocumentProcessor::chunk_by_token_count("x y z", None, 2, 0, None);
    assert_eq!(words.len(), 2);
}

#[test]
fn document_kinds_by_extension() {
    assert_eq!(document_kind("MD"), Some(DocumentKind::PlainText));
    assert_eq!(document_kind("markdown"), Some(DocumentKind::PlainText));
    assert_eq!(document_kind("Pdf"), Some(DocumentKind::Pdf));
    assert_eq!(document_kind("docx"), None);
}

#[test]
fn export_formats() {
    assert_eq!(export_format("GraphML"), Some(ExportFormat::GraphMl));
    assert_eq!(export_format("csv"), None);
}

#[test]
fn settings_take_config_values() {
    let cfg = Config {
        model_path: Some("m.gguf".to_string()),
        device: Some("cuda".to_string()),
        chunk_tokens: None,
        chunk_overlap: None,
        tokenizer_json: Some("tok.json".to_string()),
    };
    let s = Settings::resolve(None, "cpu".to_string(), Some("mine.json".to_string()), &cfg);
    assert_eq!(s.model_path.as_deref(), Some("m.gguf"));
    assert_eq!(s.device, "cuda");
    assert_eq!(s.tokenizer_path.as_deref(), Some("mine.json"));
    let t = Settings::resolve(Some("own".to_string()), "metal".to_string(), None, &Config::empty());
    assert_eq!(t.model_path.as_deref(), Some("own"));
    assert_eq!(t.device, "metal");
    assert!(t.tokenizer_path.is_none());
}

#[test]
fn text_helpers() {
    assert_eq!(sanitize_id("Hello World!"), "hello-world-");
    assert_eq!(xml_escape("a<b>&\"c\""), "a&lt;b&gt;&amp;\"c\"");
    assert_eq!(decimal_string(0), "0");
    assert_eq!(decimal_string(1207), "1207");
}

#[test]
fn histogram_buckets_bytes() {
    let h = byte_histogram("abca", 256);
    assert_eq!(h.len(), 256);
    assert_eq!(h[97], 2);
    assert_eq!(h[98], 1);
    assert_eq!(h[99], 1);
    assert_eq!(h.iter().sum::<usize>(), 4);
    assert_eq!(byte_histogram("ab", 2), vec![1, 1]);
    assert_eq!(byte_histogram("é", 256)[0xc3], 1);
}

#[test]
fn order_keys_follow_float_order() {
    let values = [-3.5f32, -1.0, -0.0, 0.0, 0.25, 1.0, 7.0];
    let keys: Vec<u32> = values.iter().map(|v| score_order_key(v.to_bits())).collect();
    for w in keys.windows(2) {
        assert!(w[0] < w[1]);
    }
}

#[test]
fn ranking_is_stable_and_capped() {
    let keys = vec![5u32, 9, 5, 1];
    assert_eq!(rank_top_k(&keys, 3), vec![1, 0, 2]);
    assert_eq!(rank_top_k(&keys, 10), vec![1, 0, 2, 3]);
    assert!(rank_top_k(&keys, 0).is_empty());
    assert!(rank_top_k(&Vec::new(), 2).is_empty());
}

#[test]
fn ranking_float_scores_non_increasing() {
    let scores = [0.5f32, -0.25, 0.9, 0.5, 0.0];
    let keys: Vec<u32> = scores.iter().map(|s| score_order_key(s.to_bits())).collect();
    let top = rank_top_k(&keys, 4);
    assert!(top.len() <= 4);
    let ranked: Vec<f32> = top.iter().map(|&i| scores[i]).collect();
    assert_eq!(ranked, vec![0.9, 0.5, 0.5, 0.0]);
    assert_eq!(top, vec![2, 0, 3, 4]);
}

#[test]
fn vector_index_upsert_replaces_in_place() {
    let mut index: VectorIndex<Vec<u32>> = VectorIndex::new();
    index.upsert("a".to_string(), vec![1]);
    index.upsert("b".to_string(), vec![2]);
    index.upsert("a".to_string(), vec![3]);
    assert_eq!(index.len(), 2);
    assert_eq!(index.id_at(0), "a");
    assert_eq!(index.value_at(0), &vec![3]);
    assert_eq!(index.id_at(1), "b");
}

fn decode_nothing(_payload: &str) -> Option<(Vec<ExtractedEntity>, Vec<ExtractedRelationship>)> {
    None
}

#[test]
fn extract_uses_fallback_with_stub_backend() {
    let extractor = EntityExtractor::new(LLMEngine::new());
    let (entities, relationships) = extractor.extract(&chunk("c2", "Rome and Milan are in Italy"), decode_nothing);
    let names: Vec<&str> = entities.iter().map(|e| e.name.as_str()).collect();
    assert_eq!(names, vec!["Italy", "Milan", "Rome"]);
    assert!(relationships.is_empty());
}

#[test]
fn detect_keeps_label_on_tie() {
    let mut g = KnowledgeGraph::new();
    for n in ["Alpha", "Beta", "Gamma"] {
        g.add_entity(named(n));
    }
    g.add_relationship(edge("alpha", "beta"));
    g.add_relationship(edge("beta", "gamma"));
    let groups = CommunityDetector.detect(&g);
    assert_eq!(groups, vec![vec!["alpha".to_string(), "beta".to_string(), "gamma".to_string()]]);
}

#[test]
fn capitalized_terms_from_classifications() {
    let text = "Paris is the capital of France.";
    let alnum: Vec<bool> = text.chars().map(|c| c.is_alphanumeric()).collect();
    let upper: Vec<bool> = text.chars().map(|c| c.is_uppercase()).collect();
    assert_eq!(capitalized_terms_given(text, &alnum, &upper), vec!["France".to_string(), "Paris".to_string()]);
    let none_upper = vec![false; upper.len()];
    assert!(capitalized_terms_given(text, &alnum, &none_upper).is_empty());
}
