//! The entity-relationship graph: case-insensitive identity resolution,
//! deduplicated edges, merging with edge rewiring, and GraphML export.
use vstd::prelude::*;

use crate::text::{
    decimal, decimal_string, digit_char, lemma_digit_injective, eq_ignore_case, unicode_lower, push_char, push_str,
    same_text, sanitize_id, slug, push_escaped, xml_escaped,
};

verus! {

/// A named concept of the graph. `id` is assigned by the graph on insertion.
#[derive(Debug, Clone)]
pub struct Entity {
    pub id: String,
    pub name: String,
    pub entity_type: String,
    pub description: String,
    /// Identifiers of the fragments this entity was found in, without repeats.
    pub source_chunks: Vec<String>,
}

/// The mathematical value of an `Entity`.
pub struct EntityView {
    pub id: Seq<char>,
    pub name: Seq<char>,
    pub entity_type: Seq<char>,
    pub description: Seq<char>,
    pub source_chunks: Seq<Seq<char>>,
}

impl View for Entity {
    type V = EntityView;

    open spec fn view(&self) -> EntityView {
        EntityView {
            id: self.id@,
            name: self.name@,
            entity_type: self.entity_type@,
            description: self.description@,
            source_chunks: self.source_chunks.deep_view(),
        }
    }
}

/// A typed edge between two entity ids. Endpoints need not exist in the graph.
#[derive(Debug, Clone)]
pub struct Relationship {
    pub source: String,
    pub target: String,
    pub rel_type: String,
    pub description: String,
    /// The strength, as the bit pattern of an IEEE-754 single-precision number.
    pub strength_bits: u32,
}

/// The mathematical value of a `Relationship`.
pub struct RelView {
    pub source: Seq<char>,
    pub target: Seq<char>,
    pub rel_type: Seq<char>,
    pub description: Seq<char>,
    pub strength_bits: u32,
}

impl View for Relationship {
    type V = RelView;

    open spec fn view(&self) -> RelView {
        RelView {
            source: self.source@,
            target: self.target@,
            rel_type: self.rel_type@,
            description: self.description@,
            strength_bits: self.strength_bits,
        }
    }
}

/// Entities in insertion order and relationships in insertion order.
#[derive(Debug, Clone)]
pub struct KnowledgeGraph {
    pub nodes: Vec<Entity>,
    pub edges: Vec<Relationship>,
}

/// The mathematical value of a `KnowledgeGraph`.
pub struct GraphView {
    pub nodes: Seq<EntityView>,
    pub edges: Seq<RelView>,
}

impl View for KnowledgeGraph {
    type V = GraphView;

    open spec fn view(&self) -> GraphView {
        GraphView {
            nodes: entity_views(self.nodes@),
            edges: rel_views(self.edges@),
        }
    }
}

pub open spec fn entity_views(v: Seq<Entity>) -> Seq<EntityView> {
    v.map_values(|e: Entity| e@)
}

pub open spec fn rel_views(v: Seq<Relationship>) -> Seq<RelView> {
    v.map_values(|r: Relationship| r@)
}

/// Whether `e` carries `name`, ignoring case under Unicode's case mapping.
pub open spec fn same_name(e: EntityView, name: Seq<char>) -> bool {
    unicode_lower(e.name) == unicode_lower(name)
}

/// No entity before position `i` carries `name`, ignoring case.
pub open spec fn name_absent_before(nodes: Seq<EntityView>, name: Seq<char>, i: int) -> bool {
    forall|j: int| 0 <= j < i ==> !same_name(#[trigger] nodes[j], name)
}

/// Position `i` holds the first entity that carries `name`, ignoring case.
pub open spec fn first_named(nodes: Seq<EntityView>, name: Seq<char>, i: int) -> bool {
    0 <= i < nodes.len() && same_name(nodes[i], name) && name_absent_before(nodes, name, i)
}

pub open spec fn has_id(nodes: Seq<EntityView>, id: Seq<char>) -> bool {
    exists|j: int| 0 <= j < nodes.len() && (#[trigger] nodes[j]).id == id
}

pub open spec fn id_absent_before(nodes: Seq<EntityView>, id: Seq<char>, i: int) -> bool {
    forall|j: int| 0 <= j < i ==> (#[trigger] nodes[j]).id != id
}

/// Position `i` holds the first entity whose id is `id`.
pub open spec fn first_with_id(nodes: Seq<EntityView>, id: Seq<char>, i: int) -> bool {
    0 <= i < nodes.len() && nodes[i].id == id && id_absent_before(nodes, id, i)
}

/// The `k`-th identifier tried for a name whose slug is `base`:
/// `base`, then `base-1`, `base-2`, ...
pub open spec fn id_candidate(base: Seq<char>, k: nat) -> Seq<char> {
    if k == 0 {
        base
    } else {
        base + seq!['-'] + decimal(k)
    }
}

/// `k` is the first candidate number whose identifier is not taken.
pub open spec fn first_free(nodes: Seq<EntityView>, base: Seq<char>, k: nat) -> bool {
    &&& !has_id(nodes, id_candidate(base, k))
    &&& forall|j: nat| j < k ==> has_id(nodes, #[trigger] id_candidate(base, j))
}

/// What `add_entity` does: an entity whose name is already present ignoring
/// case leaves the graph as it is and yields the present entity's id;
/// otherwise the entity is appended under the first free identifier derived
/// from its name.
#[verifier::opaque]
pub open spec fn add_entity_post(g: GraphView, e: EntityView, g2: GraphView, r: Seq<char>) -> bool {
    ||| exists|i: int| first_named(g.nodes, e.name, i) && r == g.nodes[i].id && g2 == g
    ||| {
        &&& name_absent_before(g.nodes, e.name, g.nodes.len() as int)
        &&& exists|k: nat| first_free(g.nodes, slug(e.name), k) && r == id_candidate(slug(e.name), k)
        &&& g2.edges == g.edges
        &&& g2.nodes == g.nodes.push(EntityView { id: r, ..e })
    }
}

pub open spec fn same_triple(a: RelView, b: RelView) -> bool {
    a.source == b.source && a.target == b.target && a.rel_type == b.rel_type
}

pub open spec fn has_triple(edges: Seq<RelView>, r: RelView) -> bool {
    exists|i: int| 0 <= i < edges.len() && same_triple(#[trigger] edges[i], r)
}

/// What `add_relationship` does: an edge sharing source, target and type
/// with an existing one is dropped, any other is appended.
#[verifier::opaque]
pub open spec fn add_relationship_post(g: GraphView, r: RelView, g2: GraphView) -> bool {
    &&& g2.nodes == g.nodes
    &&& if has_triple(g.edges, r) {
        g2.edges == g.edges
    } else {
        g2.edges == g.edges.push(r)
    }
}

/// The description kept after merging: the dropped entity's description is
/// appended to the kept one, with an em-dash between two non-empty parts.
pub open spec fn merged_description(keep: Seq<char>, drop: Seq<char>) -> Seq<char> {
    if drop.len() == 0 {
        keep
    } else if keep.len() == 0 {
        drop
    } else {
        keep + seq![' ', '\u{2014}', ' '] + drop
    }
}

/// `s` without repeats, each element kept at its first occurrence.
pub open spec fn distinct_seq(s: Seq<Seq<char>>) -> Seq<Seq<char>>
    decreases s.len(),
{
    if s.len() == 0 {
        s
    } else {
        let d = distinct_seq(s.drop_last());
        if d.contains(s.last()) {
            d
        } else {
            d.push(s.last())
        }
    }
}

/// The entity kept by a merge: its own identity with both descriptions and
/// the union of both fragment lists.
pub open spec fn merged_entity(keep: EntityView, drop: EntityView) -> EntityView {
    EntityView {
        description: merged_description(keep.description, drop.description),
        source_chunks: distinct_seq(keep.source_chunks + drop.source_chunks),
        ..keep
    }
}

pub open spec fn rewire(r: RelView, from: Seq<char>, to: Seq<char>) -> RelView {
    RelView {
        source: if r.source == from { to } else { r.source },
        target: if r.target == from { to } else { r.target },
        ..r
    }
}

pub open spec fn rewired(edges: Seq<RelView>, from: Seq<char>, to: Seq<char>) -> Seq<RelView> {
    edges.map_values(|r: RelView| rewire(r, from, to))
}

pub open spec fn without_self_loops(edges: Seq<RelView>) -> Seq<RelView> {
    edges.filter(|r: RelView| r.source != r.target)
}

pub open spec fn has_no_self_loop(edges: Seq<RelView>) -> bool {
    forall|i: int| 0 <= i < edges.len() ==> (#[trigger] edges[i]).source != edges[i].target
}

/// Whether `merge_entities(keep, drop)` takes effect on `g`: the ids differ
/// and both are present.
pub open spec fn merge_applies(g: GraphView, keep: Seq<char>, drop: Seq<char>) -> bool {
    keep != drop && has_id(g.nodes, keep) && has_id(g.nodes, drop)
}

/// What `merge_entities(keep, drop)` does. When it takes effect the first
/// entity with id `keep` absorbs the first entity with id `drop`, which is
/// removed, every edge endpoint `drop` becomes `keep`, every edge whose
/// endpoints are then equal is removed, and of edges that then share source,
/// target and type only the first is kept. Otherwise nothing changes.
pub open spec fn merge_post(g: GraphView, keep: Seq<char>, drop: Seq<char>, g2: GraphView) -> bool {
    if merge_applies(g, keep, drop) {
        exists|i1: int, i2: int|
            first_with_id(g.nodes, keep, i1) && first_with_id(g.nodes, drop, i2) && g2.nodes
                == #[trigger] g.nodes.update(i1, merged_entity(g.nodes[i1], g.nodes[i2])).remove(
                i2,
            ) && g2.edges == first_of_each_triple(without_self_loops(rewired(g.edges, drop, keep)))
    } else {
        g2 == g
    }
}

/// `edges` without every edge whose source, target and type an edge before
/// it already has.
pub open spec fn first_of_each_triple(edges: Seq<RelView>) -> Seq<RelView>
    decreases edges.len(),
{
    if edges.len() == 0 {
        edges
    } else {
        let d = first_of_each_triple(edges.drop_last());
        if has_triple(d, edges.last()) {
            d
        } else {
            d.push(edges.last())
        }
    }
}

/// No two edges share source, target and type.
pub open spec fn edges_distinct(edges: Seq<RelView>) -> bool {
    forall|i: int, j: int| 0 <= i < j < edges.len() ==> !same_triple(#[trigger] edges[i], #[trigger] edges[j])
}

/// The edges kept are distinct, and each is one of `edges`.
pub proof fn lemma_first_of_each_triple(edges: Seq<RelView>)
    ensures
        edges_distinct(first_of_each_triple(edges)),
        forall|i: int| 0 <= i < first_of_each_triple(edges).len() ==> exists|j: int|
            0 <= j < edges.len() && #[trigger] first_of_each_triple(edges)[i] == edges[j],
    decreases edges.len(),
{
    if edges.len() > 0 {
        let rest = edges.drop_last();
        lemma_first_of_each_triple(rest);
        let d = first_of_each_triple(rest);
        let r = first_of_each_triple(edges);
        assert forall|i: int| 0 <= i < r.len() implies exists|j: int| 0 <= j < edges.len() && #[trigger] r[i] == edges[j] by {
            if i < d.len() {
                assert(r[i] == d[i]);
                let j = choose|j: int| 0 <= j < rest.len() && d[i] == rest[j];
                assert(rest[j] == edges[j]);
            } else {
                assert(r[i] == edges[edges.len() - 1]);
            }
        }
        if !has_triple(d, edges.last()) {
            assert forall|i: int, j: int| 0 <= i < j < r.len() implies !same_triple(#[trigger] r[i], #[trigger] r[j]) by {
                if j < d.len() {
                    assert(r[i] == d[i] && r[j] == d[j]);
                } else {
                    assert(r[i] == d[i]);
                    assert(!same_triple(d[i], edges.last()));
                }
            }
        }
    }
}

/// `gs` holds the graphs that adding the entities `es` one by one and then
/// the relationships `rs` one by one passes through, `ids` the ids the entity
/// additions returned.
pub open spec fn ingest_trace(
    g: GraphView,
    es: Seq<EntityView>,
    rs: Seq<RelView>,
    gs: Seq<GraphView>,
    ids: Seq<Seq<char>>,
) -> bool {
    &&& gs.len() == es.len() + rs.len() + 1
    &&& ids.len() == es.len()
    &&& gs[0] == g
    &&& forall|k: int| 0 <= k < es.len() ==> add_entity_post(#[trigger] gs[k], es[k], gs[k + 1], ids[k])
    &&& forall|k: int|
        0 <= k < rs.len() ==> add_relationship_post(#[trigger] gs[es.len() + k], rs[k], gs[es.len() + k + 1])
}

/// Ids are unique and names are unique ignoring case.
pub open spec fn graph_wf(g: GraphView) -> bool {
    &&& forall|i: int, j: int|
        0 <= i < g.nodes.len() && 0 <= j < g.nodes.len() && i != j ==> (#[trigger] g.nodes[i]).id
            != (#[trigger] g.nodes[j]).id
    &&& forall|i: int, j: int|
        0 <= i < g.nodes.len() && 0 <= j < g.nodes.len() && i != j ==> !same_name(
            #[trigger] g.nodes[i],
            (#[trigger] g.nodes[j]).name,
        )
}

pub open spec fn graphml_node(e: EntityView) -> Seq<char> {
    "    <node id=\""@ + xml_escaped(e.id) + "\"><data key=\"label\">"@ + xml_escaped(e.name)
        + "</data></node>\n"@
}

pub open spec fn graphml_edge(i: nat, r: RelView) -> Seq<char> {
    "    <edge id=\"e"@ + decimal(i) + "\" source=\""@ + xml_escaped(r.source) + "\" target=\""@
        + xml_escaped(r.target) + "\"><data key=\"type\">"@ + xml_escaped(r.rel_type)
        + "</data></edge>\n"@
}

pub open spec fn graphml_nodes(nodes: Seq<EntityView>) -> Seq<char>
    decreases nodes.len(),
{
    if nodes.len() == 0 {
        Seq::empty()
    } else {
        graphml_nodes(nodes.drop_last()) + graphml_node(nodes.last())
    }
}

/// The edge elements, numbered by position.
pub open spec fn graphml_edges(edges: Seq<RelView>) -> Seq<char>
    decreases edges.len(),
{
    if edges.len() == 0 {
        Seq::empty()
    } else {
        graphml_edges(edges.drop_last()) + graphml_edge((edges.len() - 1) as nat, edges.last())
    }
}

/// The GraphML document of a graph: one node element per entity, in order,
/// then one edge element per relationship, in order.
pub open spec fn graphml(g: GraphView) -> Seq<char> {
    "<?xml version=\"1.0\" encoding=\"UTF-8\"?>\n"@
        + "<graphml xmlns=\"http://graphml.graphdrawing.org/xmlns\">\n"@
        + "  <graph id=\"G\" edgedefault=\"undirected\">\n"@ + graphml_nodes(g.nodes)
        + graphml_edges(g.edges) + "  </graph>\n</graphml>\n"@
}

/// The entity with id `id`, if any (the first one).
pub open spec fn lookup(nodes: Seq<EntityView>, id: Seq<char>) -> Option<EntityView> {
    if exists|i: int| first_with_id(nodes, id, i) {
        Some(nodes[choose|i: int| first_with_id(nodes, id, i)])
    } else {
        None
    }
}

/// The endpoint of `r` across from `id`, if `r` touches `id`.
pub open spec fn other_end(r: RelView, id: Seq<char>) -> Option<Seq<char>> {
    if r.source == id {
        Some(r.target)
    } else if r.target == id {
        Some(r.source)
    } else {
        None
    }
}

/// The entities across every edge that touches `id`, in edge order; edges
/// whose other endpoint is no entity are skipped.
pub open spec fn neighbor_views(nodes: Seq<EntityView>, edges: Seq<RelView>, id: Seq<char>) -> Seq<EntityView>
    decreases edges.len(),
{
    if edges.len() == 0 {
        Seq::empty()
    } else {
        let rest = neighbor_views(nodes, edges.drop_last(), id);
        match other_end(edges.last(), id) {
            Some(o) => match lookup(nodes, o) {
                Some(e) => rest.push(e),
                None => rest,
            },
            None => rest,
        }
    }
}

proof fn lemma_decimal_len(n: nat)
    ensures
        decimal(n).len() >= 1,
        n >= 10 ==> decimal(n).len() >= 2,
    decreases n,
{
    if n >= 10 {
        lemma_decimal_len(n / 10);
    }
}

proof fn lemma_decimal_injective(a: nat, b: nat)
    requires
        decimal(a) == decimal(b),
    ensures
        a == b,
    decreases a,
{
    lemma_decimal_len(a);
    lemma_decimal_len(b);
    if a < 10 && b < 10 {
        assert(decimal(a) == seq![digit_char(a)]);
        assert(decimal(b) == seq![digit_char(b)]);
        assert(decimal(a)[0] == digit_char(a));
        assert(decimal(b)[0] == digit_char(b));
        lemma_digit_injective(a, b);
    } else if a >= 10 && b >= 10 {
        assert(decimal(a).drop_last() == decimal(a / 10));
        assert(decimal(b).drop_last() == decimal(b / 10));
        lemma_decimal_injective(a / 10, b / 10);
        assert(decimal(a).last() == digit_char(a % 10));
        assert(decimal(b).last() == digit_char(b % 10));
        lemma_digit_injective(a % 10, b % 10);
    } else {
        lemma_decimal_len(a / 10);
        lemma_decimal_len(b / 10);
    }
}

proof fn lemma_candidates_distinct(base: Seq<char>, a: nat, b: nat)
    requires
        a != b,
    ensures
        id_candidate(base, a) != id_candidate(base, b),
{
    lemma_decimal_len(a);
    lemma_decimal_len(b);
    if a != 0 && b != 0 && id_candidate(base, a) == id_candidate(base, b) {
        let n = base.len() + 1;
        assert(id_candidate(base, a).subrange(n as int, id_candidate(base, a).len() as int)
            == decimal(a));
        assert(id_candidate(base, b).subrange(n as int, id_candidate(base, b).len() as int)
            == decimal(b));
        lemma_decimal_injective(a, b);
    }
}

/// Among the candidates `0..=nodes.len()` one is not taken.
proof fn lemma_some_candidate_free(nodes: Seq<EntityView>, base: Seq<char>)
    ensures
        exists|k: nat| k <= nodes.len() && !has_id(nodes, #[trigger] id_candidate(base, k)),
{
    if forall|k: nat| k <= nodes.len() ==> has_id(nodes, #[trigger] id_candidate(base, k)) {
        let n = nodes.len();
        let cands = Seq::new(n + 1, |k: int| id_candidate(base, k as nat));
        let ids = nodes.map_values(|e: EntityView| e.id);
        assert forall|i: int, j: int| 0 <= i < j < cands.len() implies cands[i] != cands[j] by {
            lemma_candidates_distinct(base, i as nat, j as nat);
        }
        assert(cands.no_duplicates());
        cands.unique_seq_to_set();
        ids.lemma_cardinality_of_set();
        assert forall|x: Seq<char>| cands.to_set().contains(x) implies ids.to_set().contains(x) by {
            let k = choose|k: int| 0 <= k < cands.len() && cands[k] == x;
            assert(has_id(nodes, id_candidate(base, k as nat)));
            let j = choose|j: int| 0 <= j < nodes.len() && nodes[j].id == id_candidate(base, k as nat);
            assert(ids[j] == x);
        }
        vstd::set_lib::lemma_len_subset(cands.to_set(), ids.to_set());
        assert(false);
    }
}

fn push_node_line(s: &mut String, e: &Entity)
    ensures
        final(s)@ == old(s)@ + graphml_node(e@),
{
    push_str(s, "    <node id=\"");
    push_escaped(s, e.id.as_str());
    push_str(s, "\"><data key=\"label\">");
    push_escaped(s, e.name.as_str());
    push_str(s, "</data></node>\n");
    assert(final(s)@ =~= old(s)@ + graphml_node(e@));
}

fn push_edge_line(s: &mut String, i: usize, r: &Relationship)
    ensures
        final(s)@ == old(s)@ + graphml_edge(i as nat, r@),
{
    push_str(s, "    <edge id=\"e");
    let n = decimal_string(i);
    push_str(s, n.as_str());
    push_str(s, "\" source=\"");
    push_escaped(s, r.source.as_str());
    push_str(s, "\" target=\"");
    push_escaped(s, r.target.as_str());
    push_str(s, "\"><data key=\"type\">");
    push_escaped(s, r.rel_type.as_str());
    push_str(s, "</data></edge>\n");
    assert(final(s)@ =~= old(s)@ + graphml_edge(i as nat, r@));
}

/// Whether an edge of `edges` has the source, target and type of `r`.
fn has_edge_triple(edges: &Vec<Relationship>, r: &Relationship) -> (b: bool)
    ensures
        b == has_triple(rel_views(edges@), r@),
{
    let mut i: usize = 0;
    while i < edges.len()
        invariant
            i <= edges.len(),
            forall|j: int| 0 <= j < i ==> !same_triple(#[trigger] rel_views(edges@)[j], r@),
        decreases edges.len() - i,
    {
        let e = &edges[i];
        if same_text(e.source.as_str(), r.source.as_str()) && same_text(e.target.as_str(), r.target.as_str())
            && same_text(e.rel_type.as_str(), r.rel_type.as_str()) {
            assert(same_triple(rel_views(edges@)[i as int], r@));
            return true;
        }
        i = i + 1;
    }
    false
}

impl KnowledgeGraph {
    pub fn new() -> (g: KnowledgeGraph)
        ensures
            g@.nodes.len() == 0,
            g@.edges.len() == 0,
            graph_wf(g@),
    {
        KnowledgeGraph { nodes: Vec::new(), edges: Vec::new() }
    }

    /// Whether some entity has the id `id`.
    pub fn contains_id(&self, id: &str) -> (r: bool)
        ensures
            r == has_id(self@.nodes, id@),
    {
        let mut i: usize = 0;
        while i < self.nodes.len()
            invariant
                i <= self.nodes.len(),
                id_absent_before(self@.nodes, id@, i as int),
            decreases self.nodes.len() - i,
        {
            if same_text(self.nodes[i].id.as_str(), id) {
                assert(self@.nodes[i as int].id == id@);
                return true;
            }
            i = i + 1;
        }
        false
    }
}


/// Whether `v` holds the text `x`.
pub fn contains_text(v: &Vec<String>, x: &str) -> (r: bool)
    ensures
        r == v.deep_view().contains(x@),
{
    let mut i: usize = 0;
    while i < v.len()
        invariant
            i <= v.len(),
            forall|j: int| 0 <= j < i ==> v.deep_view()[j] != x@,
        decreases v.len() - i,
    {
        if same_text(v[i].as_str(), x) {
            assert(v.deep_view()[i as int] == x@);
            return true;
        }
        i = i + 1;
    }
    false
}

/// Pushes each element of `src` that `r` does not hold yet.
fn absorb_texts(r: &mut Vec<String>, src: &Vec<String>, Ghost(pre): Ghost<Seq<Seq<char>>>)
    requires
        old(r).deep_view() == distinct_seq(pre),
    ensures
        final(r).deep_view() == distinct_seq(pre + src.deep_view()),
{
    let ghost all = pre + src.deep_view();
    assert(all.take(pre.len() as int) =~= pre);
    let mut i: usize = 0;
    while i < src.len()
        invariant
            all == pre + src.deep_view(),
            i <= src.len(),
            r.deep_view() == distinct_seq(all.take(pre.len() + i)),
        decreases src.len() - i,
    {
        assert(all.take(pre.len() + i + 1).drop_last() =~= all.take(pre.len() + i));
        assert(all.take(pre.len() + i + 1).last() == src[i as int]@);
        if !contains_text(r, src[i].as_str()) {
            let ghost before = r.deep_view();
            r.push(src[i].clone());
            assert(r.deep_view() =~= before.push(src[i as int]@));
        }
        i = i + 1;
    }
    assert(all.take(pre.len() + src.len()) =~= all);
}

/// The elements of `a` followed by those of `b`, each kept at its first
/// occurrence only.
pub fn union_texts(a: &Vec<String>, b: &Vec<String>) -> (r: Vec<String>)
    ensures
        r.deep_view() == distinct_seq(a.deep_view() + b.deep_view()),
{
    let mut r: Vec<String> = Vec::new();
    assert(r.deep_view() =~= distinct_seq(Seq::<Seq<char>>::empty()));
    absorb_texts(&mut r, a, Ghost(Seq::empty()));
    assert(Seq::<Seq<char>>::empty() + a.deep_view() =~= a.deep_view());
    absorb_texts(&mut r, b, Ghost(a.deep_view()));
    r
}

/// Copies of the texts of `v`.
pub fn copy_texts(v: &Vec<String>) -> (r: Vec<String>)
    ensures
        r.deep_view() == v.deep_view(),
{
    let mut r: Vec<String> = Vec::new();
    let mut i: usize = 0;
    while i < v.len()
        invariant
            i <= v.len(),
            r.deep_view() == v.deep_view().take(i as int),
        decreases v.len() - i,
    {
        let ghost before = r.deep_view();
        r.push(v[i].clone());
        assert(r.deep_view() =~= before.push(v[i as int]@));
        i = i + 1;
        assert(v.deep_view().take(i as int) =~= v.deep_view().take(i - 1).push(v[i - 1]@));
    }
    assert(v.deep_view().take(v.len() as int) =~= v.deep_view());
    r
}

impl Entity {
    /// A field-by-field copy.
    pub fn copy(&self) -> (r: Entity)
        ensures
            r@ == self@,
    {
        Entity {
            id: self.id.clone(),
            name: self.name.clone(),
            entity_type: self.entity_type.clone(),
            description: self.description.clone(),
            source_chunks: copy_texts(&self.source_chunks),
        }
    }
}

impl KnowledgeGraph {
    /// The position of the first entity whose id is `id`.
    pub fn position_of_id(&self, id: &str) -> (r: Option<usize>)
        ensures
            match r {
                Some(i) => first_with_id(self@.nodes, id@, i as int),
                None => !has_id(self@.nodes, id@),
            },
    {
        let mut i: usize = 0;
        while i < self.nodes.len()
            invariant
                i <= self.nodes.len(),
                id_absent_before(self@.nodes, id@, i as int),
            decreases self.nodes.len() - i,
        {
            if same_text(self.nodes[i].id.as_str(), id) {
                return Some(i);
            }
            i = i + 1;
        }
        None
    }

    /// Inserts `entity` unless an entity of the same name ignoring case is
    /// present, and returns the id under which the name is known.
    pub fn add_entity(&mut self, entity: Entity) -> (r: String)
        ensures
            add_entity_post(old(self)@, entity@, final(self)@, r@),
            graph_wf(old(self)@) ==> graph_wf(final(self)@),
    {
        let mut i: usize = 0;
        while i < self.nodes.len()
            invariant
                i <= self.nodes.len(),
                name_absent_before(self@.nodes, entity@.name, i as int),
            decreases self.nodes.len() - i,
        {
            if eq_ignore_case(self.nodes[i].name.as_str(), entity.name.as_str()) {
                let r = self.nodes[i].id.clone();
                assert(first_named(self@.nodes, entity@.name, i as int));
                proof {
                    reveal(add_entity_post);
                    if graph_wf(old(self)@) {
                        lemma_add_entity_keeps_wf(old(self)@, entity@, self@, r@);
                    }
                }
                return r;
            }
            i = i + 1;
        }
        let base = sanitize_id(entity.name.as_str());
        let mut id = base.clone();
        let mut k: usize = 0;
        let ghost n = self.nodes.len();
        proof {
            lemma_some_candidate_free(self@.nodes, base@);
        }
        while self.contains_id(id.as_str())
            invariant
                n == self.nodes.len(),
                k <= n,
                id@ == id_candidate(base@, k as nat),
                forall|j: nat| j < k ==> has_id(self@.nodes, #[trigger] id_candidate(base@, j)),
                exists|m: nat| m <= n && !has_id(self@.nodes, #[trigger] id_candidate(base@, m)),
            decreases n - k,
        {
            let ghost m = choose|m: nat| m <= n && !has_id(self@.nodes, #[trigger] id_candidate(base@, m));
            assert(forall|j: nat| j <= k ==> has_id(self@.nodes, #[trigger] id_candidate(base@, j)));
            assert(k < m);
            k = k + 1;
            id = base.clone();
            push_char(&mut id, '-');
            let digits = decimal_string(k);
            push_str(&mut id, digits.as_str());
        }
        assert(first_free(self@.nodes, base@, k as nat));
        let mut e = entity;
        e.id = id.clone();
        self.nodes.push(e);
        assert(self@.nodes =~= old(self)@.nodes.push(EntityView { id: id@, ..entity@ }));
        proof {
            reveal(add_entity_post);
            if graph_wf(old(self)@) {
                lemma_add_entity_keeps_wf(old(self)@, entity@, self@, id@);
            }
        }
        id
    }

    /// Merges the entity `id2` into the entity `id1`; see `merge_post`.
    pub fn merge_entities(&mut self, id1: &String, id2: &String)
        ensures
            merge_post(old(self)@, id1@, id2@, final(self)@),
            graph_wf(old(self)@) ==> graph_wf(final(self)@),
            edges_distinct(old(self)@.edges) ==> edges_distinct(final(self)@.edges),
            merge_applies(old(self)@, id1@, id2@) ==> edges_distinct(final(self)@.edges),
    {
        if same_text(id1.as_str(), id2.as_str()) {
            return;
        }
        let keep_pos = self.position_of_id(id1.as_str());
        let drop_pos = self.position_of_id(id2.as_str());
        let (i1, i2) = match (keep_pos, drop_pos) {
            (Some(i1), Some(i2)) => (i1, i2),
            _ => {
                return;
            },
        };
        let ghost g = self@;
        let keep = &self.nodes[i1];
        let dropped = &self.nodes[i2];
        let mut description = keep.description.clone();
        if !dropped.description.as_str().is_empty() {
            if !keep.description.as_str().is_empty() {
                push_char(&mut description, ' ');
                push_char(&mut description, '\u{2014}');
                push_char(&mut description, ' ');
            }
            push_str(&mut description, dropped.description.as_str());
        }
        assert(description@ =~= merged_description(keep.description@, dropped.description@));
        let merged = Entity {
            id: keep.id.clone(),
            name: keep.name.clone(),
            entity_type: keep.entity_type.clone(),
            description,
            source_chunks: union_texts(&keep.source_chunks, &dropped.source_chunks),
        };
        assert(merged@ == merged_entity(g.nodes[i1 as int], g.nodes[i2 as int]));
        self.nodes.set(i1, merged);
        self.nodes.remove(i2);
        assert(self@.nodes =~= g.nodes.update(i1 as int, merged_entity(g.nodes[i1 as int], g.nodes[i2 as int])).remove(i2 as int));
        let mut edges: Vec<Relationship> = Vec::new();
        let mut j: usize = 0;
        assert(g.edges.take(0) =~= Seq::<RelView>::empty());
        assert(rewired(Seq::<RelView>::empty(), id2@, id1@) =~= Seq::<RelView>::empty());
        assert(without_self_loops(Seq::<RelView>::empty()) =~= Seq::<RelView>::empty()) by {
            broadcast use vstd::seq_lib::group_filter_ensures;
        }
        while j < self.edges.len()
            invariant
                self@.edges == g.edges,
                j <= self.edges.len(),
                rel_views(edges@) == first_of_each_triple(without_self_loops(rewired(g.edges.take(j as int), id2@, id1@))),
            decreases self.edges.len() - j,
        {
            let r = &self.edges[j];
            let source = if same_text(r.source.as_str(), id2.as_str()) {
                id1.clone()
            } else {
                r.source.clone()
            };
            let target = if same_text(r.target.as_str(), id2.as_str()) {
                id1.clone()
            } else {
                r.target.clone()
            };
            let moved = Relationship {
                source,
                target,
                rel_type: r.rel_type.clone(),
                description: r.description.clone(),
                strength_bits: r.strength_bits,
            };
            assert(moved@ == rewire(g.edges[j as int], id2@, id1@));
            assert(rewired(g.edges.take(j + 1), id2@, id1@) =~= rewired(g.edges.take(j as int), id2@, id1@).push(moved@));
            proof {
                broadcast use vstd::seq::Seq::lemma_filter_push;
            }
            let ghost before = edges@;
            let ghost f = without_self_loops(rewired(g.edges.take(j as int), id2@, id1@));
            if !same_text(moved.source.as_str(), moved.target.as_str()) {
                assert(f.push(moved@).drop_last() =~= f);
                if !has_edge_triple(&edges, &moved) {
                    edges.push(moved);
                    assert(rel_views(edges@) =~= rel_views(before).push(moved@));
                }
            }
            j = j + 1;
        }
        assert(g.edges.take(self.edges.len() as int) =~= g.edges);
        self.edges = edges;
        proof {
            lemma_first_of_each_triple(without_self_loops(rewired(g.edges, id2@, id1@)));
            if graph_wf(g) {
                lemma_merge_keeps_wf(g, id1@, id2@, self@);
            }
        }
    }

    /// The first entity whose name equals `name` ignoring case.
    pub fn find_entity(&self, name: &str) -> (r: Option<&Entity>)
        ensures
            match r {
                Some(e) => exists|i: int| first_named(self@.nodes, name@, i) && e@ == self@.nodes[i],
                None => name_absent_before(self@.nodes, name@, self@.nodes.len() as int),
            },
    {
        let mut i: usize = 0;
        while i < self.nodes.len()
            invariant
                i <= self.nodes.len(),
                name_absent_before(self@.nodes, name@, i as int),
            decreases self.nodes.len() - i,
        {
            if eq_ignore_case(self.nodes[i].name.as_str(), name) {
                assert(first_named(self@.nodes, name@, i as int));
                return Some(&self.nodes[i]);
            }
            i = i + 1;
        }
        None
    }

    /// The entity with id `id` (the first one), if any.
    pub fn get(&self, id: &str) -> (r: Option<&Entity>)
        ensures
            match r {
                Some(e) => lookup(self@.nodes, id@) == Some(e@),
                None => lookup(self@.nodes, id@) is None,
            },
    {
        match self.position_of_id(id) {
            Some(i) => {
                assert(forall|j: int| first_with_id(self@.nodes, id@, j) ==> j == i);
                Some(&self.nodes[i])
            },
            None => None,
        }
    }

    /// The entities across every edge that touches `id`, in edge order.
    pub fn neighbors(&self, id: &String) -> (r: Vec<&Entity>)
        ensures
            r@.map_values(|e: &Entity| e@) == neighbor_views(self@.nodes, self@.edges, id@),
    {
        let mut out: Vec<&Entity> = Vec::new();
        let mut j: usize = 0;
        while j < self.edges.len()
            invariant
                j <= self.edges.len(),
                out@.map_values(|e: &Entity| e@) == neighbor_views(self@.nodes, self@.edges.take(j as int), id@),
            decreases self.edges.len() - j,
        {
            let edge = &self.edges[j];
            let ghost before = out@;
            assert(self@.edges.take(j + 1).drop_last() =~= self@.edges.take(j as int));
            if same_text(edge.source.as_str(), id.as_str()) {
                if let Some(e) = self.get(edge.target.as_str()) {
                    out.push(e);
                }
            } else if same_text(edge.target.as_str(), id.as_str()) {
                if let Some(e) = self.get(edge.source.as_str()) {
                    out.push(e);
                }
            }
            assert(out@.map_values(|e: &Entity| e@) =~= neighbor_views(self@.nodes, self@.edges.take(j + 1), id@));
            j = j + 1;
        }
        assert(self@.edges.take(self.edges.len() as int) =~= self@.edges);
        out
    }

    /// The graph as a GraphML document; see `graphml`.
    pub fn to_graphml(&self) -> (r: String)
        ensures
            r@ == graphml(self@),
    {
        let mut s = String::new();
        push_str(&mut s, "<?xml version=\"1.0\" encoding=\"UTF-8\"?>\n");
        push_str(&mut s, "<graphml xmlns=\"http://graphml.graphdrawing.org/xmlns\">\n");
        push_str(&mut s, "  <graph id=\"G\" edgedefault=\"undirected\">\n");
        let ghost head = s@;
        let mut i: usize = 0;
        while i < self.nodes.len()
            invariant
                i <= self.nodes.len(),
                s@ == head + graphml_nodes(self@.nodes.take(i as int)),
            decreases self.nodes.len() - i,
        {
            push_node_line(&mut s, &self.nodes[i]);
            assert(self@.nodes.take(i + 1).drop_last() =~= self@.nodes.take(i as int));
            assert(s@ =~= head + graphml_nodes(self@.nodes.take(i + 1)));
            i = i + 1;
        }
        assert(self@.nodes.take(self.nodes.len() as int) =~= self@.nodes);
        let ghost mid = s@;
        let mut j: usize = 0;
        while j < self.edges.len()
            invariant
                j <= self.edges.len(),
                s@ == mid + graphml_edges(self@.edges.take(j as int)),
            decreases self.edges.len() - j,
        {
            push_edge_line(&mut s, j, &self.edges[j]);
            assert(self@.edges.take(j + 1).drop_last() =~= self@.edges.take(j as int));
            assert(s@ =~= mid + graphml_edges(self@.edges.take(j + 1)));
            j = j + 1;
        }
        assert(self@.edges.take(self.edges.len() as int) =~= self@.edges);
        push_str(&mut s, "  </graph>\n</graphml>\n");
        s
    }

    /// Adds every entity of `entities`, then every relationship of
    /// `relationships`, in order, each as `add_entity` and
    /// `add_relationship` do.
    pub fn ingest(&mut self, entities: Vec<Entity>, relationships: Vec<Relationship>)
        ensures
            exists|gs: Seq<GraphView>, ids: Seq<Seq<char>>|
                #[trigger] ingest_trace(old(self)@, entity_views(entities@), rel_views(relationships@), gs, ids)
                    && gs.last() == final(self)@,
            graph_wf(old(self)@) ==> graph_wf(final(self)@),
    {
        let ghost es = entity_views(entities@);
        let ghost rs = rel_views(relationships@);
        let ghost mut gs: Seq<GraphView> = seq![self@];
        let ghost mut ids: Seq<Seq<char>> = Seq::empty();
        let mut i: usize = 0;
        while i < entities.len()
            invariant
                es == entity_views(entities@),
                i <= entities.len(),
                gs.len() == i + 1,
                ids.len() == i,
                gs[0] == old(self)@,
                gs.last() == self@,
                graph_wf(old(self)@) ==> graph_wf(self@),
                forall|k: int| 0 <= k < i ==> add_entity_post(#[trigger] gs[k], es[k], gs[k + 1], ids[k]),
            decreases entities.len() - i,
        {
            let ghost before = self@;
            let id = self.add_entity(entities[i].copy());
            proof {
                gs = gs.push(self@);
                ids = ids.push(id@);
                assert(gs[i as int] == before);
            }
            i = i + 1;
        }
        let mut j: usize = 0;
        while j < relationships.len()
            invariant
                es == entity_views(entities@),
                rs == rel_views(relationships@),
                j <= relationships.len(),
                gs.len() == entities.len() + j + 1,
                ids.len() == entities.len(),
                gs[0] == old(self)@,
                gs.last() == self@,
                graph_wf(old(self)@) ==> graph_wf(self@),
                forall|k: int| 0 <= k < entities.len() ==> add_entity_post(#[trigger] gs[k], es[k], gs[k + 1], ids[k]),
                forall|k: int|
                    0 <= k < j ==> add_relationship_post(
                        #[trigger] gs[entities.len() + k],
                        rs[k],
                        gs[entities.len() + k + 1],
                    ),
            decreases relationships.len() - j,
        {
            let ghost before = self@;
            let r = &relationships[j];
            let copy = Relationship {
                source: r.source.clone(),
                target: r.target.clone(),
                rel_type: r.rel_type.clone(),
                description: r.description.clone(),
                strength_bits: r.strength_bits,
            };
            self.add_relationship(copy);
            proof {
                gs = gs.push(self@);
                assert(gs[entities.len() + j] == before);
            }
            j = j + 1;
        }
        assert(ingest_trace(old(self)@, es, rs, gs, ids));
    }

    /// Appends `rel` unless an edge with the same source, target and type is
    /// present.
    pub fn add_relationship(&mut self, rel: Relationship)
        ensures
            add_relationship_post(old(self)@, rel@, final(self)@),
            final(self)@.nodes == old(self)@.nodes,
            edges_distinct(old(self)@.edges) ==> edges_distinct(final(self)@.edges),
    {
        let mut i: usize = 0;
        while i < self.edges.len()
            invariant
                i <= self.edges.len(),
                forall|j: int| 0 <= j < i ==> !same_triple(#[trigger] self@.edges[j], rel@),
            decreases self.edges.len() - i,
        {
            let e = &self.edges[i];
            if same_text(e.source.as_str(), rel.source.as_str()) && same_text(
                e.target.as_str(),
                rel.target.as_str(),
            ) && same_text(e.rel_type.as_str(), rel.rel_type.as_str()) {
                assert(same_triple(self@.edges[i as int], rel@));
                proof {
                    reveal(add_relationship_post);
                    lemma_add_relationship_keeps_distinct(old(self)@, rel@, self@);
                }
                return;
            }
            i = i + 1;
        }
        self.edges.push(rel);
        assert(self@.edges =~= old(self)@.edges.push(rel@));
        proof {
            reveal(add_relationship_post);
            lemma_add_relationship_keeps_distinct(old(self)@, rel@, self@);
        }
    }
}

/// Adding two entities whose names differ only in case, to a graph
/// that holds neither that name nor its slug as an id, leaves exactly one new
/// entity carrying the name; its id is the slug of the first name and both
/// calls return it.
pub proof fn lemma_add_entity_ignores_case(
    g0: GraphView,
    e1: EntityView,
    e2: EntityView,
    g1: GraphView,
    g2: GraphView,
    r1: Seq<char>,
    r2: Seq<char>,
)
    requires
        unicode_lower(e1.name) == unicode_lower(e2.name),
        name_absent_before(g0.nodes, e1.name, g0.nodes.len() as int),
        !has_id(g0.nodes, slug(e1.name)),
        add_entity_post(g0, e1, g1, r1),
        add_entity_post(g1, e2, g2, r2),
    ensures
        g2 == g1,
        g1.nodes.len() == g0.nodes.len() + 1,
        r1 == slug(e1.name),
        r2 == r1,
        forall|i: int|
            0 <= i < g2.nodes.len() && same_name(#[trigger] g2.nodes[i], e1.name) ==> i
                == g0.nodes.len(),
{
    reveal(add_entity_post);
    let n = g0.nodes.len() as int;
    assert(!exists|i: int| first_named(g0.nodes, e1.name, i));
    let k = choose|k: nat| first_free(g0.nodes, slug(e1.name), k) && r1 == id_candidate(slug(e1.name), k);
    if k > 0 {
        assert(has_id(g0.nodes, id_candidate(slug(e1.name), 0)));
    }
    assert(r1 == slug(e1.name));
    assert(g1.nodes[n].name == e1.name);
    assert(same_name(g1.nodes[n], e2.name));
    assert(forall|j: int| 0 <= j < n ==> g1.nodes[j] == g0.nodes[j]);
    assert(first_named(g1.nodes, e2.name, n));
    assert(!name_absent_before(g1.nodes, e2.name, g1.nodes.len() as int));
    let i = choose|i: int| first_named(g1.nodes, e2.name, i) && r2 == g1.nodes[i].id && g2 == g1;
    assert(i == n);
}

/// Adding a relationship keeps the edges distinct.
pub proof fn lemma_add_relationship_keeps_distinct(g: GraphView, r: RelView, g2: GraphView)
    requires
        add_relationship_post(g, r, g2),
    ensures
        edges_distinct(g.edges) ==> edges_distinct(g2.edges),
{
    reveal(add_relationship_post);
    if edges_distinct(g.edges) && !has_triple(g.edges, r) {
        assert forall|i: int, j: int| 0 <= i < j < g2.edges.len() implies !same_triple(#[trigger] g2.edges[i], #[trigger] g2.edges[j]) by {
            if j == g.edges.len() {
                assert(g2.edges[i] == g.edges[i]);
                assert(!same_triple(g.edges[i], r));
            } else {
                assert(g2.edges[i] == g.edges[i] && g2.edges[j] == g.edges[j]);
            }
        }
    }
}


/// A second `add_relationship` of the same edge changes nothing, and the
/// edge is then present; added to a graph without it, it is there exactly
/// once, and added to a graph whose edges are distinct, exactly one edge has
/// its source, target and type, and the edges stay distinct.
pub proof fn lemma_add_relationship_twice(g0: GraphView, r: RelView, g1: GraphView, g2: GraphView)
    requires
        add_relationship_post(g0, r, g1),
        add_relationship_post(g1, r, g2),
    ensures
        g2 == g1,
        has_triple(g2.edges, r),
        !has_triple(g0.edges, r) ==> forall|i: int|
            0 <= i < g2.edges.len() && same_triple(#[trigger] g2.edges[i], r) ==> i == g0.edges.len(),
        edges_distinct(g0.edges) ==> edges_distinct(g2.edges),
        edges_distinct(g0.edges) ==> forall|i: int, j: int|
            0 <= i < g2.edges.len() && 0 <= j < g2.edges.len() && same_triple(#[trigger] g2.edges[i], r)
                && same_triple(#[trigger] g2.edges[j], r) ==> i == j,
{
    reveal(add_relationship_post);
    lemma_add_relationship_keeps_distinct(g0, r, g1);
    if !has_triple(g0.edges, r) {
        assert(same_triple(g1.edges[g0.edges.len() as int], r));
    }
    assert(has_triple(g1.edges, r));
    assert(g2.edges == g1.edges);
    assert(g2 == g1);
}

/// Merging `b` into `a` a second time changes nothing: after the first merge
/// no entity has the id `b`.
pub proof fn lemma_merge_idempotent(g0: GraphView, a: Seq<char>, b: Seq<char>, g1: GraphView, g2: GraphView)
    requires
        graph_wf(g0),
        merge_post(g0, a, b, g1),
        merge_post(g1, a, b, g2),
    ensures
        g2 == g1,
{
    if merge_applies(g0, a, b) {
        let (i1, i2) = choose|i1: int, i2: int|
            first_with_id(g0.nodes, a, i1) && first_with_id(g0.nodes, b, i2) && g1.nodes
                == #[trigger] g0.nodes.update(i1, merged_entity(g0.nodes[i1], g0.nodes[i2])).remove(
                i2,
            ) && g1.edges == first_of_each_triple(without_self_loops(rewired(g0.edges, b, a)));
        assert forall|j: int| 0 <= j < g1.nodes.len() implies (#[trigger] g1.nodes[j]).id != b by {
            let k = if j < i2 { j } else { j + 1 };
            assert(g1.nodes[j] == g0.nodes.update(i1, merged_entity(g0.nodes[i1], g0.nodes[i2]))[k]);
            if k == i1 {
                assert(g1.nodes[j].id == a);
            } else {
                assert(g1.nodes[j] == g0.nodes[k]);
                assert(k != i2);
            }
        }
        assert(!merge_applies(g1, a, b));
    }
}

/// A merge that takes effect leaves no edge from an entity to itself.
pub proof fn lemma_merge_removes_self_loops(g: GraphView, a: Seq<char>, b: Seq<char>, g2: GraphView)
    requires
        merge_post(g, a, b, g2),
        merge_applies(g, a, b),
    ensures
        has_no_self_loop(g2.edges),
{
    broadcast use vstd::seq_lib::group_filter_ensures;

    let f = without_self_loops(rewired(g.edges, b, a));
    lemma_first_of_each_triple(f);
    assert(g2.edges == first_of_each_triple(f));
    assert forall|i: int| 0 <= i < g2.edges.len() implies (#[trigger] g2.edges[i]).source != g2.edges[i].target by {
        let j = choose|j: int| 0 <= j < f.len() && first_of_each_triple(f)[i] == f[j];
        assert(f[j].source != f[j].target);
    }
}

proof fn lemma_merge_keeps_no_self_loops(g: GraphView, a: Seq<char>, b: Seq<char>, g2: GraphView)
    requires
        merge_post(g, a, b, g2),
        has_no_self_loop(g.edges),
    ensures
        has_no_self_loop(g2.edges),
{
    if merge_applies(g, a, b) {
        lemma_merge_removes_self_loops(g, a, b, g2);
    }
}

/// Along any sequence of merges that starts from a graph without self-loops,
/// no relationship ever has equal source and target.
pub proof fn lemma_merges_keep_no_self_loops(
    gs: Seq<GraphView>,
    keeps: Seq<Seq<char>>,
    drops: Seq<Seq<char>>,
)
    requires
        gs.len() == keeps.len() + 1,
        drops.len() == keeps.len(),
        has_no_self_loop(gs[0].edges),
        forall|i: int| 0 <= i < keeps.len() ==> merge_post(#[trigger] gs[i], keeps[i], drops[i], gs[i + 1]),
    ensures
        forall|i: int| 0 <= i < gs.len() ==> has_no_self_loop(#[trigger] gs[i].edges),
    decreases keeps.len(),
{
    if keeps.len() > 0 {
        let m = keeps.len() - 1;
        lemma_merges_keep_no_self_loops(gs.drop_last(), keeps.drop_last(), drops.drop_last());
        assert(gs.drop_last()[m] == gs[m]);
        lemma_merge_keeps_no_self_loops(gs[m], keeps[m], drops[m], gs[m + 1]);
        assert forall|i: int| 0 <= i < gs.len() implies has_no_self_loop(#[trigger] gs[i].edges) by {
            if i < gs.len() - 1 {
                assert(gs.drop_last()[i] == gs[i]);
            }
        }
    }
}

/// Adding an entity keeps ids unique and names unique ignoring case.
pub proof fn lemma_add_entity_keeps_wf(g: GraphView, e: EntityView, g2: GraphView, r: Seq<char>)
    requires
        graph_wf(g),
        add_entity_post(g, e, g2, r),
    ensures
        graph_wf(g2),
{
    reveal(add_entity_post);
    if !(exists|i: int| first_named(g.nodes, e.name, i) && r == g.nodes[i].id && g2 == g) {
        let n = g.nodes.len() as int;
        let k = choose|k: nat| first_free(g.nodes, slug(e.name), k) && r == id_candidate(slug(e.name), k);
        assert forall|i: int, j: int| 0 <= i < g2.nodes.len() && 0 <= j < g2.nodes.len() && i != j implies
            (#[trigger] g2.nodes[i]).id != (#[trigger] g2.nodes[j]).id && !same_name(g2.nodes[i], g2.nodes[j].name) by {
            if i == n {
                assert(g2.nodes[j] == g.nodes[j]);
                assert(!same_name(g.nodes[j], e.name));
            } else if j == n {
                assert(g2.nodes[i] == g.nodes[i]);
                assert(!same_name(g.nodes[i], e.name));
            } else {
                assert(g2.nodes[i] == g.nodes[i]);
                assert(g2.nodes[j] == g.nodes[j]);
            }
        }
    }
}

/// A merge keeps ids unique and names unique ignoring case.
pub proof fn lemma_merge_keeps_wf(g: GraphView, keep: Seq<char>, drop: Seq<char>, g2: GraphView)
    requires
        graph_wf(g),
        merge_post(g, keep, drop, g2),
    ensures
        graph_wf(g2),
{
    if merge_applies(g, keep, drop) {
        let (i1, i2) = choose|i1: int, i2: int|
            first_with_id(g.nodes, keep, i1) && first_with_id(g.nodes, drop, i2) && g2.nodes
                == #[trigger] g.nodes.update(i1, merged_entity(g.nodes[i1], g.nodes[i2])).remove(
                i2,
            ) && g2.edges == first_of_each_triple(without_self_loops(rewired(g.edges, drop, keep)));
        let u = g.nodes.update(i1, merged_entity(g.nodes[i1], g.nodes[i2]));
        assert forall|a: int| 0 <= a < g2.nodes.len() implies (#[trigger] g2.nodes[a]).id == g.nodes[
            if a < i2 { a } else { a + 1 }].id && g2.nodes[a].name == g.nodes[if a < i2 { a } else { a + 1 }].name by {
            let k = if a < i2 { a } else { a + 1 };
            assert(g2.nodes[a] == u[k]);
        }
        assert forall|a: int, b: int| 0 <= a < g2.nodes.len() && 0 <= b < g2.nodes.len() && a != b implies
            (#[trigger] g2.nodes[a]).id != (#[trigger] g2.nodes[b]).id && !same_name(g2.nodes[a], g2.nodes[b].name) by {
            let ka = if a < i2 { a } else { a + 1 };
            let kb = if b < i2 { b } else { b + 1 };
            assert(g.nodes[ka].id != g.nodes[kb].id);
            assert(!same_name(g.nodes[ka], g.nodes[kb].name));
        }
    }
}

} // verus!
