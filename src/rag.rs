//! The persisted index aggregate, community summaries and query answering.
use vstd::prelude::*;

use crate::document::Chunk;
use crate::graph::{lookup, KnowledgeGraph};
use crate::llm::{stub_reply, GenerationError, LLMEngine};
use crate::text::{decimal, decimal_string, push_str};

verus! {

/// The unit of persistence: a graph and the fragments it was built from.
#[derive(Debug, Clone)]
pub struct ForgeIndex {
    pub graph: KnowledgeGraph,
    pub chunks: Vec<Chunk>,
}

/// Writes short summaries of communities.
#[derive(Debug, Clone)]
pub struct SummaryGenerator {
    pub llm: LLMEngine,
}

/// Answers queries about a graph.
#[derive(Debug, Clone)]
pub struct QueryEngine<VS> {
    pub graph: KnowledgeGraph,
    pub llm: LLMEngine,
    pub vector_store: VS,
}

/// The names of the community members that are entities of the graph, in
/// community order.
pub open spec fn member_names(nodes: Seq<crate::graph::EntityView>, ids: Seq<Seq<char>>) -> Seq<Seq<char>>
    decreases ids.len(),
{
    if ids.len() == 0 {
        Seq::empty()
    } else {
        let rest = member_names(nodes, ids.drop_last());
        match lookup(nodes, ids.last()) {
            Some(e) => rest.push(e.name),
            None => rest,
        }
    }
}

/// Texts joined with `", "`.
pub open spec fn join_comma(ts: Seq<Seq<char>>) -> Seq<char>
    decreases ts.len(),
{
    if ts.len() == 0 {
        Seq::empty()
    } else if ts.len() == 1 {
        ts[0]
    } else {
        join_comma(ts.drop_last()) + seq![',', ' '] + ts.last()
    }
}

pub open spec fn summary_prompt_text(names: Seq<Seq<char>>) -> Seq<char> {
    "Summarize the theme connecting these entities: "@ + join_comma(names)
}

pub open spec fn query_prompt_text(entities: nat, relationships: nat, query: Seq<char>) -> Seq<char> {
    "Given a knowledge graph with "@ + decimal(entities) + " entities and "@ + decimal(relationships)
        + " relationships, answer the user query: '"@ + query + "'\nBe concise."@
}

/// The prompt that asks about a graph of `entities` entities and
/// `relationships` relationships.
pub fn query_prompt(entities: usize, relationships: usize, query: &str) -> (r: String)
    ensures
        r@ == query_prompt_text(entities as nat, relationships as nat, query@),
{
    let mut p = String::new();
    push_str(&mut p, "Given a knowledge graph with ");
    let e = decimal_string(entities);
    push_str(&mut p, e.as_str());
    push_str(&mut p, " entities and ");
    let r = decimal_string(relationships);
    push_str(&mut p, r.as_str());
    push_str(&mut p, " relationships, answer the user query: '");
    push_str(&mut p, query);
    push_str(&mut p, "'\nBe concise.");
    assert(p@ =~= query_prompt_text(entities as nat, relationships as nat, query@));
    p
}

impl SummaryGenerator {
    pub fn new(llm: LLMEngine) -> (r: SummaryGenerator)
        ensures
            r.llm == llm,
    {
        SummaryGenerator { llm }
    }

    /// The prompt naming the members of `community` that are entities of
    /// `graph`.
    pub fn prompt(community: &[String], graph: &KnowledgeGraph) -> (r: String)
        ensures
            r@ == summary_prompt_text(member_names(graph@.nodes, community@.map_values(|s: String| s@))),
    {
        let ghost ids = community@.map_values(|s: String| s@);
        let mut joined = String::new();
        let mut count: usize = 0;
        let mut i: usize = 0;
        while i < community.len()
            invariant
                ids == community@.map_values(|s: String| s@),
                i <= community.len(),
                count == member_names(graph@.nodes, ids.take(i as int)).len(),
                count <= i,
                joined@ == join_comma(member_names(graph@.nodes, ids.take(i as int))),
            decreases community.len() - i,
        {
            assert(ids.take(i + 1).drop_last() =~= ids.take(i as int));
            assert(ids.take(i + 1).last() == community[i as int]@);
            match graph.get(community[i].as_str()) {
                Some(e) => {
                    if count > 0 {
                        push_str(&mut joined, ", ");
                        proof {
                            reveal_strlit(", ");
                            assert(", "@ =~= seq![',', ' ']);
                        }
                    }
                    push_str(&mut joined, e.name.as_str());
                    count = count + 1;
                    proof {
                        let names = member_names(graph@.nodes, ids.take(i + 1));
                        let prev = member_names(graph@.nodes, ids.take(i as int));
                        assert(names == prev.push(e@.name));
                        assert(names.drop_last() =~= prev);
                        assert(joined@ =~= join_comma(names));
                    }
                },
                None => {},
            }
            i = i + 1;
        }
        assert(ids.take(community.len() as int) =~= ids);
        let mut p = String::new();
        push_str(&mut p, "Summarize the theme connecting these entities: ");
        push_str(&mut p, joined.as_str());
        p
    }

    /// Asks the generation capability to summarise a community.
    pub fn generate(&self, community: &[String], graph: &KnowledgeGraph) -> (r: Result<String, GenerationError>)
        ensures
            r matches Ok(t) && t@ == stub_reply(summary_prompt_text(member_names(graph@.nodes, community@.map_values(|s: String| s@)))),
    {
        let p = Self::prompt(community, graph);
        self.llm.generate(p.as_str())
    }
}

impl<VS> QueryEngine<VS> {
    pub fn new(graph: KnowledgeGraph, llm: LLMEngine, vector_store: VS) -> (r: QueryEngine<VS>)
        ensures
            r.graph == graph,
            r.llm == llm,
            r.vector_store == vector_store,
    {
        QueryEngine { graph, llm, vector_store }
    }

    /// Answers `query` with the generation capability, telling it the size
    /// of the graph; the reply is returned as it is.
    pub fn query(&self, query: &str) -> (r: Result<String, GenerationError>)
        ensures
            r matches Ok(t) && t@ == stub_reply(query_prompt_text(self.graph@.nodes.len(), self.graph@.edges.len(), query@)),
    {
        let p = query_prompt(self.graph.nodes.len(), self.graph.edges.len(), query);
        self.llm.generate(p.as_str())
    }
}

} // verus!
