//! Community detection by label propagation over the entity graph.
use vstd::prelude::*;

use crate::graph::{first_with_id, has_id, other_end, EntityView, GraphView, KnowledgeGraph, RelView};
use crate::text::same_text;

verus! {

/// The most passes label propagation makes.
pub const MAX_PASSES: usize = 20;

/// The community detection algorithms on offer.
#[derive(Debug, Clone, Copy, PartialEq, Eq, Structural)]
pub enum CommunityAlg {
    LabelPropagation,
}

/// Partitions a graph's entities into communities.
pub struct CommunityDetector;

/// The position of the first entity with id `id`.
pub open spec fn position(nodes: Seq<EntityView>, id: Seq<char>) -> int {
    choose|i: int| first_with_id(nodes, id, i)
}

/// The positions of the entities across every edge that touches `id`, in
/// edge order; endpoints that are no entity are skipped.
pub open spec fn neighbor_positions(nodes: Seq<EntityView>, edges: Seq<RelView>, id: Seq<char>) -> Seq<usize>
    decreases edges.len(),
{
    if edges.len() == 0 {
        Seq::empty()
    } else {
        let rest = neighbor_positions(nodes, edges.drop_last(), id);
        match other_end(edges.last(), id) {
            Some(o) => if has_id(nodes, o) {
                rest.push(position(nodes, o) as usize)
            } else {
                rest
            },
            None => rest,
        }
    }
}

/// For each entity, the positions of its neighbours.
pub open spec fn adjacency(g: GraphView) -> Seq<Seq<usize>> {
    Seq::new(g.nodes.len(), |i: int| neighbor_positions(g.nodes, g.edges, g.nodes[i].id))
}

/// How many of the neighbours `nbrs` carry the label `l`.
pub open spec fn label_count(labels: Seq<usize>, nbrs: Seq<usize>, l: usize) -> nat
    decreases nbrs.len(),
{
    if nbrs.len() == 0 {
        0
    } else {
        label_count(labels, nbrs.drop_last(), l) + if labels[nbrs.last() as int] == l {
            1nat
        } else {
            0nat
        }
    }
}

/// Among the labels of the first `p` neighbours, the first one with the
/// highest count over all of `nbrs`.
pub open spec fn best_label_upto(labels: Seq<usize>, nbrs: Seq<usize>, p: nat) -> Option<usize>
    decreases p,
{
    if p == 0 {
        None
    } else {
        let prev = best_label_upto(labels, nbrs, (p - 1) as nat);
        let cand = labels[nbrs[p - 1] as int];
        match prev {
            None => Some(cand),
            Some(b) => if label_count(labels, nbrs, cand) > label_count(labels, nbrs, b) {
                Some(cand)
            } else {
                prev
            },
        }
    }
}

/// The most frequent label among the neighbours, ties going to the label met
/// first; `None` without neighbours.
pub open spec fn best_label(labels: Seq<usize>, nbrs: Seq<usize>) -> Option<usize> {
    best_label_upto(labels, nbrs, nbrs.len())
}

/// The labels after the first `i` entities of a pass have each taken the
/// best label of their neighbours where it is strictly more frequent among
/// them than the entity's own label. Entities are visited in order and each
/// sees the updates made before it in the same pass (labels are updated in
/// place, not all at once).
pub open spec fn pass_upto(labels: Seq<usize>, adj: Seq<Seq<usize>>, i: nat) -> Seq<usize>
    decreases i,
{
    if i == 0 {
        labels
    } else {
        let l = pass_upto(labels, adj, (i - 1) as nat);
        match best_label(l, adj[i - 1]) {
            Some(b) => if label_count(l, adj[i - 1], b) > label_count(l, adj[i - 1], l[i - 1]) {
                l.update(i - 1, b)
            } else {
                l
            },
            None => l,
        }
    }
}

pub open spec fn pass(labels: Seq<usize>, adj: Seq<Seq<usize>>) -> Seq<usize> {
    pass_upto(labels, adj, labels.len())
}

/// Passes until one changes nothing, at most `k` of them.
pub open spec fn propagate(labels: Seq<usize>, adj: Seq<Seq<usize>>, k: nat) -> Seq<usize>
    decreases k,
{
    if k == 0 {
        labels
    } else {
        let next = pass(labels, adj);
        if next == labels {
            labels
        } else {
            propagate(next, adj, (k - 1) as nat)
        }
    }
}

/// The labels each entity starts with: its own position.
pub open spec fn initial_labels(n: nat) -> Seq<usize> {
    Seq::new(n, |i: int| i as usize)
}

/// The distinct labels in order of first appearance.
pub open spec fn label_order(labels: Seq<usize>) -> Seq<usize>
    decreases labels.len(),
{
    if labels.len() == 0 {
        Seq::empty()
    } else {
        let d = label_order(labels.drop_last());
        if d.contains(labels.last()) {
            d
        } else {
            d.push(labels.last())
        }
    }
}

/// The ids of the entities labelled `l`, in entity order.
pub open spec fn members(ids: Seq<Seq<char>>, labels: Seq<usize>, l: usize) -> Seq<Seq<char>>
    decreases labels.len(),
{
    if labels.len() == 0 || ids.len() < labels.len() {
        Seq::empty()
    } else {
        let rest = members(ids, labels.drop_last(), l);
        if labels.last() == l {
            rest.push(ids[labels.len() - 1])
        } else {
            rest
        }
    }
}

/// One community per label, in order of the label's first appearance.
pub open spec fn grouping(ids: Seq<Seq<char>>, labels: Seq<usize>) -> Seq<Seq<Seq<char>>> {
    let order = label_order(labels);
    Seq::new(order.len(), |k: int| members(ids, labels, order[k]))
}

pub open spec fn node_ids(g: GraphView) -> Seq<Seq<char>> {
    g.nodes.map_values(|e: EntityView| e.id)
}

/// The communities that label propagation finds in `g`.
pub open spec fn communities(g: GraphView) -> Seq<Seq<Seq<char>>> {
    grouping(
        node_ids(g),
        propagate(initial_labels(g.nodes.len()), adjacency(g), MAX_PASSES as nat),
    )
}

proof fn lemma_position(nodes: Seq<EntityView>, id: Seq<char>, i: int)
    requires
        first_with_id(nodes, id, i),
    ensures
        position(nodes, id) == i,
{
    let j = choose|j: int| first_with_id(nodes, id, j);
    assert(first_with_id(nodes, id, j));
    if j < i {
        assert(nodes[j].id == id);
    } else if i < j {
        assert(nodes[i].id == id);
    }
}

fn neighbor_positions_of(g: &KnowledgeGraph, id: &str) -> (r: Vec<usize>)
    ensures
        r@ == neighbor_positions(g@.nodes, g@.edges, id@),
        forall|k: int| 0 <= k < r@.len() ==> r@[k] < g@.nodes.len(),
{
    let mut out: Vec<usize> = Vec::new();
    let mut j: usize = 0;
    while j < g.edges.len()
        invariant
            j <= g.edges.len(),
            out@ == neighbor_positions(g@.nodes, g@.edges.take(j as int), id@),
            forall|k: int| 0 <= k < out@.len() ==> out@[k] < g@.nodes.len(),
        decreases g.edges.len() - j,
    {
        let e = &g.edges[j];
        assert(g@.edges.take(j + 1).drop_last() =~= g@.edges.take(j as int));
        assert(g@.edges.take(j + 1).last() == g@.edges[j as int]);
        let other: Option<&String> = if same_text(e.source.as_str(), id) {
            Some(&e.target)
        } else if same_text(e.target.as_str(), id) {
            Some(&e.source)
        } else {
            None
        };
        if let Some(o) = other {
            if let Some(p) = g.position_of_id(o.as_str()) {
                proof {
                    lemma_position(g@.nodes, o@, p as int);
                }
                out.push(p);
            }
        }
        j = j + 1;
    }
    assert(g@.edges.take(g.edges.len() as int) =~= g@.edges);
    out
}

fn count_label(labels: &Vec<usize>, nbrs: &Vec<usize>, l: usize) -> (r: usize)
    requires
        forall|k: int| 0 <= k < nbrs@.len() ==> nbrs@[k] < labels@.len(),
    ensures
        r == label_count(labels@, nbrs@, l),
{
    let mut c: usize = 0;
    let mut p: usize = 0;
    while p < nbrs.len()
        invariant
            p <= nbrs.len(),
            forall|k: int| 0 <= k < nbrs@.len() ==> nbrs@[k] < labels@.len(),
            c == label_count(labels@, nbrs@.take(p as int), l),
            c <= p,
        decreases nbrs.len() - p,
    {
        assert(nbrs@.take(p + 1).drop_last() =~= nbrs@.take(p as int));
        if labels[nbrs[p]] == l {
            c = c + 1;
        }
        p = p + 1;
    }
    assert(nbrs@.take(nbrs.len() as int) =~= nbrs@);
    c
}

fn best_label_of(labels: &Vec<usize>, nbrs: &Vec<usize>) -> (r: Option<usize>)
    requires
        forall|k: int| 0 <= k < nbrs@.len() ==> nbrs@[k] < labels@.len(),
    ensures
        r == best_label(labels@, nbrs@),
{
    let mut best: Option<usize> = None;
    let mut best_count: usize = 0;
    let mut p: usize = 0;
    while p < nbrs.len()
        invariant
            p <= nbrs.len(),
            forall|k: int| 0 <= k < nbrs@.len() ==> nbrs@[k] < labels@.len(),
            best == best_label_upto(labels@, nbrs@, p as nat),
            match best {
                Some(b) => best_count == label_count(labels@, nbrs@, b),
                None => p == 0,
            },
        decreases nbrs.len() - p,
    {
        let cand = labels[nbrs[p]];
        let c = count_label(labels, nbrs, cand);
        match best {
            None => {
                best = Some(cand);
                best_count = c;
            },
            Some(_) => {
                if c > best_count {
                    best = Some(cand);
                    best_count = c;
                }
            },
        }
        p = p + 1;
    }
    best
}

proof fn lemma_pass_upto_frame(labels: Seq<usize>, adj: Seq<Seq<usize>>, i: nat)
    requires
        i <= labels.len(),
    ensures
        pass_upto(labels, adj, i).len() == labels.len(),
        forall|k: int| i <= k < labels.len() ==> #[trigger] pass_upto(labels, adj, i)[k] == labels[k],
    decreases i,
{
    if i > 0 {
        lemma_pass_upto_frame(labels, adj, (i - 1) as nat);
    }
}

/// One pass over all entities; returns whether some label changed.
fn run_pass(labels: &mut Vec<usize>, adj: &Vec<Vec<usize>>) -> (changed: bool)
    requires
        adj@.len() == old(labels)@.len(),
        forall|i: int, k: int|
            0 <= i < adj@.len() && 0 <= k < adj@[i]@.len() ==> #[trigger] adj@[i]@[k] < old(labels)@.len(),
    ensures
        final(labels)@ == pass(old(labels)@, adj.deep_view()),
        changed == (final(labels)@ != old(labels)@),
{
    let ghost start = labels@;
    let ghost a = adj.deep_view();
    let mut changed = false;
    let mut i: usize = 0;
    while i < labels.len()
        invariant
            a == adj.deep_view(),
            adj@.len() == start.len() == labels@.len(),
            forall|i: int, k: int|
                0 <= i < adj@.len() && 0 <= k < adj@[i]@.len() ==> #[trigger] adj@[i]@[k] < start.len(),
            i <= labels.len(),
            labels@ == pass_upto(start, a, i as nat),
            changed ==> exists|j: int| 0 <= j < i && labels@[j] != start[j],
            !changed ==> labels@ == start,
        decreases labels.len() - i,
    {
        proof {
            lemma_pass_upto_frame(start, a, i as nat);
        }
        assert(a[i as int] == adj@[i as int]@);
        match best_label_of(labels, &adj[i]) {
            Some(b) => {
                let own = labels[i];
                if count_label(labels, &adj[i], b) > count_label(labels, &adj[i], own) {
                    changed = true;
                    labels.set(i, b);
                    assert(labels@[i as int] != start[i as int]);
                }
            },
            None => {},
        }
        i = i + 1;
    }
    proof {
        if changed {
            let j = choose|j: int| 0 <= j < i && labels@[j] != start[j];
            assert(labels@ != start);
        }
    }
    changed
}

fn order_of_labels(labels: &Vec<usize>) -> (r: Vec<usize>)
    ensures
        r@ == label_order(labels@),
{
    let mut out: Vec<usize> = Vec::new();
    let mut i: usize = 0;
    while i < labels.len()
        invariant
            i <= labels.len(),
            out@ == label_order(labels@.take(i as int)),
        decreases labels.len() - i,
    {
        assert(labels@.take(i + 1).drop_last() =~= labels@.take(i as int));
        let l = labels[i];
        let mut found = false;
        let mut k: usize = 0;
        while k < out.len()
            invariant
                k <= out.len(),
                found == exists|m: int| 0 <= m < k && out@[m] == l,
            decreases out.len() - k,
        {
            if out[k] == l {
                found = true;
            }
            k = k + 1;
        }
        if !found {
            out.push(l);
        }
        i = i + 1;
    }
    assert(labels@.take(labels.len() as int) =~= labels@);
    out
}

fn members_of(ids: &Vec<String>, labels: &Vec<usize>, l: usize) -> (r: Vec<String>)
    requires
        ids@.len() == labels@.len(),
    ensures
        r.deep_view() == members(ids.deep_view(), labels@, l),
{
    let mut out: Vec<String> = Vec::new();
    let mut i: usize = 0;
    while i < labels.len()
        invariant
            ids@.len() == labels@.len(),
            i <= labels.len(),
            out.deep_view() == members(ids.deep_view(), labels@.take(i as int), l),
        decreases labels.len() - i,
    {
        assert(labels@.take(i + 1).drop_last() =~= labels@.take(i as int));
        if labels[i] == l {
            let ghost before = out.deep_view();
            out.push(ids[i].clone());
            assert(out.deep_view() =~= before.push(ids.deep_view()[i as int]));
        }
        i = i + 1;
    }
    assert(labels@.take(labels.len() as int) =~= labels@);
    out
}

impl CommunityDetector {
    /// Groups the entities of `graph` by label propagation: every entity
    /// starts with its own label, then each pass lets every entity in turn
    /// take the label most frequent among its neighbours (ties to the label
    /// met first) when that label is strictly more frequent there than its
    /// own, until a pass changes nothing or twenty passes are done. Updates
    /// take effect at once within a pass: an entity sees the labels its
    /// predecessors took in the same pass.
    /// One community per final label, in order of first appearance, each
    /// listing entity ids in entity order.
    pub fn detect(&self, graph: &KnowledgeGraph) -> (r: Vec<Vec<String>>)
        ensures
            r@.len() == communities(graph@).len(),
            forall|k: int| 0 <= k < r@.len() ==> (#[trigger] r@[k]).deep_view() == communities(graph@)[k],
    {
        let n = graph.nodes.len();
        let ghost g = graph@;
        let mut adj: Vec<Vec<usize>> = Vec::new();
        let mut ids: Vec<String> = Vec::new();
        let mut labels: Vec<usize> = Vec::new();
        let mut i: usize = 0;
        while i < n
            invariant
                n == graph.nodes.len(),
                g == graph@,
                i <= n,
                adj@.len() == i,
                ids@.len() == i,
                labels@ == initial_labels(i as nat),
                forall|j: int| 0 <= j < i ==> (#[trigger] adj@[j])@ == adjacency(g)[j],
                forall|j: int, k: int| 0 <= j < i && 0 <= k < adj@[j]@.len() ==> #[trigger] adj@[j]@[k] < n,
                ids.deep_view() == node_ids(g).take(i as int),
            decreases n - i,
        {
            let nb = neighbor_positions_of(graph, graph.nodes[i].id.as_str());
            adj.push(nb);
            let ghost before = ids.deep_view();
            ids.push(graph.nodes[i].id.clone());
            assert(ids.deep_view() =~= node_ids(g).take(i + 1));
            labels.push(i);
            assert(labels@ =~= initial_labels((i + 1) as nat));
            i = i + 1;
        }
        assert forall|j: int| 0 <= j < n implies adj.deep_view()[j] =~= adjacency(g)[j] by {
            assert(adj.deep_view()[j] =~= adj@[j]@);
        }
        assert(adj.deep_view() =~= adjacency(g));
        assert(ids.deep_view() =~= node_ids(g));
        let ghost a = adjacency(g);
        let mut passes: usize = 0;
        let mut changed = true;
        while changed && passes < MAX_PASSES
            invariant
                a == adj.deep_view(),
                a == adjacency(g),
                n == g.nodes.len(),
                adj@.len() == labels@.len() == n,
                forall|j: int, k: int| 0 <= j < n && 0 <= k < adj@[j]@.len() ==> #[trigger] adj@[j]@[k] < n,
                passes <= MAX_PASSES,
                propagate(initial_labels(n as nat), a, MAX_PASSES as nat) == if changed {
                    propagate(labels@, a, (MAX_PASSES - passes) as nat)
                } else {
                    labels@
                },
            decreases MAX_PASSES - passes,
        {
            let ghost before = labels@;
            changed = run_pass(&mut labels, &adj);
            proof {
                lemma_pass_upto_frame(before, a, before.len());
            }
            passes = passes + 1;
        }
        let order = order_of_labels(&labels);
        let mut out: Vec<Vec<String>> = Vec::new();
        let mut k: usize = 0;
        while k < order.len()
            invariant
                ids@.len() == labels@.len(),
                a == adjacency(g),
                n == g.nodes.len(),
                ids.deep_view() == node_ids(g),
                labels@ == propagate(initial_labels(n as nat), a, MAX_PASSES as nat),
                order@ == label_order(labels@),
                k <= order.len(),
                out@.len() == k,
                forall|m: int| 0 <= m < k ==> (#[trigger] out@[m]).deep_view() == communities(g)[m],
            decreases order.len() - k,
        {
            out.push(members_of(&ids, &labels, order[k]));
            k = k + 1;
        }
        out
    }
}

proof fn lemma_pass_without_neighbors(labels: Seq<usize>, adj: Seq<Seq<usize>>, i: nat)
    requires
        forall|j: int| 0 <= j < adj.len() ==> (#[trigger] adj[j]).len() == 0,
        i <= adj.len(),
    ensures
        pass_upto(labels, adj, i) == labels,
    decreases i,
{
    if i > 0 {
        lemma_pass_without_neighbors(labels, adj, (i - 1) as nat);
        assert(adj[i - 1].len() == 0);
    }
}

proof fn lemma_order_of_initial(m: nat)
    requires
        m <= usize::MAX,
    ensures
        label_order(initial_labels(m)) == initial_labels(m),
    decreases m,
{
    if m > 0 {
        assert(initial_labels(m).drop_last() =~= initial_labels((m - 1) as nat));
        lemma_order_of_initial((m - 1) as nat);
        assert forall|j: int| 0 <= j < m - 1 implies #[trigger] initial_labels((m - 1) as nat)[j] != (m - 1) as usize by {}
        assert(!initial_labels((m - 1) as nat).contains((m - 1) as usize));
        assert(initial_labels((m - 1) as nat).push((m - 1) as usize) =~= initial_labels(m));
    }
}

proof fn lemma_members_of_initial(ids: Seq<Seq<char>>, m: nat, k: int)
    requires
        m <= ids.len(),
        ids.len() <= usize::MAX,
        0 <= k,
        k < ids.len(),
    ensures
        members(ids, initial_labels(m), k as usize) == if k < m {
            seq![ids[k]]
        } else {
            Seq::<Seq<char>>::empty()
        },
    decreases m,
{
    if m > 0 {
        assert(initial_labels(m).drop_last() =~= initial_labels((m - 1) as nat));
        lemma_members_of_initial(ids, (m - 1) as nat, k);
        assert(Seq::<Seq<char>>::empty().push(ids[k]) =~= seq![ids[k]]);
    }
}

/// On a graph without edges every entity is a community of its own: there
/// are as many communities as entities, the `k`-th holding the `k`-th id.
pub proof fn lemma_detect_without_edges(g: GraphView)
    requires
        g.edges.len() == 0,
        g.nodes.len() <= usize::MAX,
    ensures
        communities(g).len() == g.nodes.len(),
        forall|k: int| 0 <= k < g.nodes.len() ==> #[trigger] communities(g)[k] == seq![g.nodes[k].id],
{
    let n = g.nodes.len();
    let adj = adjacency(g);
    assert forall|j: int| 0 <= j < adj.len() implies (#[trigger] adj[j]).len() == 0 by {
        assert(adj[j] == neighbor_positions(g.nodes, g.edges, g.nodes[j].id));
    }
    let init = initial_labels(n);
    lemma_pass_without_neighbors(init, adj, n);
    assert(pass(init, adj) == init);
    assert(propagate(init, adj, MAX_PASSES as nat) == init);
    lemma_order_of_initial(n);
    let ids = node_ids(g);
    assert forall|k: int| 0 <= k < n implies #[trigger] communities(g)[k] == seq![g.nodes[k].id] by {
        lemma_members_of_initial(ids, n, k);
        assert(label_order(init)[k] == k as usize);
    }
}

proof fn lemma_first_with_id_exists(nodes: Seq<EntityView>, id: Seq<char>)
    requires
        has_id(nodes, id),
    ensures
        exists|i: int| first_with_id(nodes, id, i),
    decreases nodes.len(),
{
    let rest = nodes.drop_last();
    if has_id(rest, id) {
        lemma_first_with_id_exists(rest, id);
        let i = choose|i: int| first_with_id(rest, id, i);
        assert forall|k: int| 0 <= k < i implies (#[trigger] nodes[k]).id != id by {
            assert(rest[k] == nodes[k]);
        }
        assert(rest[i] == nodes[i]);
        assert(first_with_id(nodes, id, i));
    } else {
        assert forall|j: int| 0 <= j < nodes.len() - 1 implies (#[trigger] nodes[j]).id != id by {
            assert(rest[j] == nodes[j]);
        }
        assert(first_with_id(nodes, id, nodes.len() - 1));
    }
}

proof fn lemma_untouched_positions(nodes: Seq<EntityView>, edges: Seq<RelView>, id: Seq<char>, x: Seq<char>, i: int)
    requires
        first_with_id(nodes, x, i),
        nodes.len() <= usize::MAX,
        forall|e: int| 0 <= e < edges.len() ==> (#[trigger] edges[e]).source != x && edges[e].target != x,
    ensures
        forall|k: int| 0 <= k < neighbor_positions(nodes, edges, id).len() ==> #[trigger] neighbor_positions(nodes, edges, id)[k] != i,
        id == x ==> neighbor_positions(nodes, edges, id).len() == 0,
    decreases edges.len(),
{
    if edges.len() > 0 {
        let rest = edges.drop_last();
        assert forall|e: int| 0 <= e < rest.len() implies (#[trigger] rest[e]).source != x && rest[e].target != x by {
            assert(rest[e] == edges[e]);
        }
        lemma_untouched_positions(nodes, rest, id, x, i);
        let r = neighbor_positions(nodes, rest, id);
        let np = neighbor_positions(nodes, edges, id);
        let last = edges.last();
        assert(last == edges[edges.len() - 1]);
        match other_end(last, id) {
            Some(o) => {
                assert(o != x);
                if has_id(nodes, o) {
                    lemma_first_with_id_exists(nodes, o);
                    assert(first_with_id(nodes, o, position(nodes, o)));
                    assert(position(nodes, o) != i);
                    assert(position(nodes, o) as usize != i);
                    assert(np == r.push(position(nodes, o) as usize));
                    assert forall|k: int| 0 <= k < np.len() implies #[trigger] np[k] != i by {
                        if k < r.len() {
                            assert(np[k] == r[k]);
                        }
                    }
                } else {
                    assert(np == r);
                }
                assert(id != x);
            },
            None => {
                assert(np == r);
            },
        }
    }
}

proof fn lemma_best_is_a_neighbor_label(labels: Seq<usize>, nbrs: Seq<usize>, p: nat)
    requires
        p <= nbrs.len(),
    ensures
        p == 0 <==> best_label_upto(labels, nbrs, p) is None,
        best_label_upto(labels, nbrs, p) is Some ==> exists|q: int|
            0 <= q < p && best_label_upto(labels, nbrs, p)->0 == labels[#[trigger] nbrs[q] as int],
    decreases p,
{
    if p > 0 {
        lemma_best_is_a_neighbor_label(labels, nbrs, (p - 1) as nat);
        if best_label_upto(labels, nbrs, p) != best_label_upto(labels, nbrs, (p - 1) as nat) {
            assert(best_label_upto(labels, nbrs, p)->0 == labels[nbrs[p - 1] as int]);
        }
    }
}

/// Label `i` is held by entity `i` and by no other entity.
pub open spec fn owns_label(labels: Seq<usize>, i: int) -> bool {
    &&& 0 <= i < labels.len()
    &&& labels[i] == i as usize
    &&& forall|k: int| 0 <= k < labels.len() && k != i ==> #[trigger] labels[k] != i as usize
}

proof fn lemma_pass_keeps_owner(labels: Seq<usize>, adj: Seq<Seq<usize>>, i: int, m: nat)
    requires
        owns_label(labels, i),
        i <= usize::MAX,
        adj.len() == labels.len(),
        m <= labels.len(),
        adj[i].len() == 0,
        forall|j: int, k: int| 0 <= j < adj.len() && 0 <= k < adj[j].len() ==> #[trigger] adj[j][k] != i as usize,
        forall|j: int, k: int| 0 <= j < adj.len() && 0 <= k < adj[j].len() ==> #[trigger] adj[j][k] < labels.len(),
    ensures
        owns_label(pass_upto(labels, adj, m), i),
    decreases m,
{
    if m > 0 {
        lemma_pass_keeps_owner(labels, adj, i, (m - 1) as nat);
        lemma_pass_upto_frame(labels, adj, (m - 1) as nat);
        let l = pass_upto(labels, adj, (m - 1) as nat);
        let v = m - 1;
        let nb = adj[v];
        lemma_best_is_a_neighbor_label(l, nb, nb.len());
        match best_label(l, nb) {
            Some(b) => {
                let q = choose|q: int| 0 <= q < nb.len() && b == l[#[trigger] nb[q] as int];
                assert(nb[q] != i as usize);
                assert(nb[q] < labels.len());
                assert(b != i as usize);
                assert(v != i);
                let u = l.update(v, b);
                assert forall|k: int| 0 <= k < u.len() && k != i implies #[trigger] u[k] != i as usize by {
                    if k != v {
                        assert(u[k] == l[k]);
                    }
                }
                assert(owns_label(u, i));
            },
            None => {},
        }
    }
}

proof fn lemma_propagate_keeps_owner(labels: Seq<usize>, adj: Seq<Seq<usize>>, i: int, k: nat)
    requires
        owns_label(labels, i),
        i <= usize::MAX,
        adj.len() == labels.len(),
        adj[i].len() == 0,
        forall|j: int, m: int| 0 <= j < adj.len() && 0 <= m < adj[j].len() ==> #[trigger] adj[j][m] != i as usize,
        forall|j: int, m: int| 0 <= j < adj.len() && 0 <= m < adj[j].len() ==> #[trigger] adj[j][m] < labels.len(),
    ensures
        owns_label(propagate(labels, adj, k), i),
        propagate(labels, adj, k).len() == labels.len(),
    decreases k,
{
    if k > 0 {
        lemma_pass_keeps_owner(labels, adj, i, labels.len());
        lemma_pass_upto_frame(labels, adj, labels.len());
        lemma_propagate_keeps_owner(pass(labels, adj), adj, i, (k - 1) as nat);
    }
}

proof fn lemma_order_contains(labels: Seq<usize>, l: usize)
    requires
        labels.contains(l),
    ensures
        label_order(labels).contains(l),
    decreases labels.len(),
{
    let rest = labels.drop_last();
    if labels.last() != l {
        let k = choose|k: int| 0 <= k < labels.len() && labels[k] == l;
        assert(rest[k] == l);
        lemma_order_contains(rest, l);
        let d = label_order(rest);
        let j = choose|j: int| 0 <= j < d.len() && d[j] == l;
        if !d.contains(labels.last()) {
            assert(d.push(labels.last())[j] == l);
        }
    } else {
        let d = label_order(rest);
        if !d.contains(l) {
            assert(d.push(l)[d.len() as int] == l);
        }
    }
}

proof fn lemma_owner_members(ids: Seq<Seq<char>>, labels: Seq<usize>, i: int, m: nat)
    requires
        owns_label(labels, i),
        ids.len() == labels.len(),
        m <= labels.len(),
    ensures
        members(ids, labels.take(m as int), i as usize) == if i < m {
            seq![ids[i]]
        } else {
            Seq::<Seq<char>>::empty()
        },
    decreases m,
{
    if m > 0 {
        assert(labels.take(m as int).drop_last() =~= labels.take(m - 1));
        lemma_owner_members(ids, labels, i, (m - 1) as nat);
        assert(labels.take(m as int).last() == labels[m - 1]);
        assert(Seq::<Seq<char>>::empty().push(ids[i]) =~= seq![ids[i]]);
    }
}

/// An entity that no edge touches ends in a community of its own.
pub proof fn lemma_isolated_entity_alone(g: GraphView, i: int)
    requires
        crate::graph::graph_wf(g),
        g.nodes.len() <= usize::MAX,
        0 <= i < g.nodes.len(),
        forall|e: int| 0 <= e < g.edges.len() ==> (#[trigger] g.edges[e]).source != g.nodes[i].id && g.edges[e].target != g.nodes[i].id,
    ensures
        exists|k: int| 0 <= k < communities(g).len() && #[trigger] communities(g)[k] == seq![g.nodes[i].id],
{
    let n = g.nodes.len();
    let x = g.nodes[i].id;
    let adj = adjacency(g);
    assert(first_with_id(g.nodes, x, i));
    assert forall|j: int, k: int| 0 <= j < adj.len() && 0 <= k < adj[j].len() implies #[trigger] adj[j][k] != i as usize && adj[j][k] < n by {
        lemma_untouched_positions(g.nodes, g.edges, g.nodes[j].id, x, i);
        lemma_positions_in_range(g.nodes, g.edges, g.nodes[j].id);
    }
    lemma_untouched_positions(g.nodes, g.edges, x, x, i);
    assert(adj[i] == neighbor_positions(g.nodes, g.edges, x));
    let init = initial_labels(n);
    assert(owns_label(init, i));
    lemma_propagate_keeps_owner(init, adj, i, MAX_PASSES as nat);
    let labels = propagate(init, adj, MAX_PASSES as nat);
    lemma_owner_members(node_ids(g), labels, i, labels.len());
    assert(labels.take(labels.len() as int) =~= labels);
    assert(labels[i] == i as usize);
    lemma_order_contains(labels, i as usize);
    let order = label_order(labels);
    let k = choose|k: int| 0 <= k < order.len() && order[k] == i as usize;
    assert(communities(g)[k] == members(node_ids(g), labels, i as usize));
}

proof fn lemma_positions_in_range(nodes: Seq<EntityView>, edges: Seq<RelView>, id: Seq<char>)
    requires
        nodes.len() <= usize::MAX,
    ensures
        forall|k: int| 0 <= k < neighbor_positions(nodes, edges, id).len() ==> #[trigger] neighbor_positions(nodes, edges, id)[k] < nodes.len(),
    decreases edges.len(),
{
    if edges.len() > 0 {
        let r = neighbor_positions(nodes, edges.drop_last(), id);
        lemma_positions_in_range(nodes, edges.drop_last(), id);
        let np = neighbor_positions(nodes, edges, id);
        match other_end(edges.last(), id) {
            Some(o) => {
                if has_id(nodes, o) {
                    lemma_first_with_id_exists(nodes, o);
                    assert(first_with_id(nodes, o, position(nodes, o)));
                    let q = position(nodes, o) as usize;
                    assert(q < nodes.len());
                    assert(np == r.push(q));
                    assert forall|k: int| 0 <= k < np.len() implies #[trigger] np[k] < nodes.len() by {
                        if k < r.len() {
                            assert(np[k] == r[k]);
                        }
                    }
                } else {
                    assert(np == r);
                }
            },
            None => {
                assert(np == r);
            },
        }
    }
}

} // verus!
