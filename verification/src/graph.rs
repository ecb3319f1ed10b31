//! The module dependency graph between translation units, held in a
//! `petgraph` directed graph: an edge runs from the unit that exports a
//! module to each unit that imports it.

use vstd::prelude::*;
use petgraph::graph::{Graph, NodeIndex};
use petgraph::visit::{Dfs, Reversed};
use petgraph::{Directed, Direction};
use crate::unit::TranslationUnit;

verus! {

#[verifier::external_type_specification]
#[verifier::external_body]
#[verifier::reject_recursive_types(N)]
#[verifier::reject_recursive_types(E)]
#[verifier::reject_recursive_types(Ty)]
#[verifier::reject_recursive_types(Ix)]
pub struct ExGraph<N, E, Ty, Ix>(Graph<N, E, Ty, Ix>);

#[verifier::external_type_specification]
#[verifier::external_body]
pub struct ExDirected(Directed);

// ---------------------------------------------------------------------------
// Graph vocabulary
// ---------------------------------------------------------------------------

/// Sources of the edges that end in `v`, the most recently added edge first.
pub open spec fn incoming_sources(edges: Seq<(usize, usize)>, v: usize) -> Seq<usize>
    decreases edges.len(),
{
    if edges.len() == 0 {
        Seq::empty()
    } else {
        let rest = incoming_sources(edges.drop_last(), v);
        if edges.last().1 == v {
            seq![edges.last().0] + rest
        } else {
            rest
        }
    }
}

/// Targets of the edges that start in `v`, the most recently added edge first.
pub open spec fn outgoing_targets(edges: Seq<(usize, usize)>, v: usize) -> Seq<usize>
    decreases edges.len(),
{
    if edges.len() == 0 {
        Seq::empty()
    } else {
        let rest = outgoing_targets(edges.drop_last(), v);
        if edges.last().0 == v {
            seq![edges.last().1] + rest
        } else {
            rest
        }
    }
}

/// Every edge joins two of the nodes `0..n`.
pub open spec fn edges_within(n: nat, edges: Seq<(usize, usize)>) -> bool {
    forall|k: int| 0 <= k < edges.len() ==> (#[trigger] edges[k]).0 < n && edges[k].1 < n
}

/// `order` lists each node of `0..n` once, and every edge goes forward in it.
pub open spec fn is_topological_order(order: Seq<usize>, n: nat, edges: Seq<(usize, usize)>) -> bool {
    &&& order.len() == n
    &&& order.no_duplicates()
    &&& forall|i: int| 0 <= i < order.len() ==> #[trigger] order[i] < n
    &&& forall|v: usize| v < n ==> #[trigger] order.contains(v)
    &&& forall|k: int, i: int, j: int|
        #![trigger edges[k], order[i], order[j]]
        0 <= k < edges.len() && 0 <= i < order.len() && 0 <= j < order.len()
            && order[i] == edges[k].0 && order[j] == edges[k].1 ==> i < j
}

/// The graph on nodes `0..n` has no cycle: some order puts every edge forward.
pub open spec fn is_acyclic(n: nat, edges: Seq<(usize, usize)>) -> bool {
    exists|order: Seq<usize>| is_topological_order(order, n, edges)
}

/// `p` walks the edges backwards: each step goes from a target to its source.
pub open spec fn is_backward_path(edges: Seq<(usize, usize)>, p: Seq<usize>) -> bool {
    forall|i: int| 0 <= i < p.len() - 1 ==> edges.contains((#[trigger] p[i + 1], p[i]))
}

/// `v` is `start` or something that `start` depends on, directly or not.
pub open spec fn reaches_backward(edges: Seq<(usize, usize)>, start: usize, v: usize) -> bool {
    exists|p: Seq<usize>|
        p.len() > 0 && p[0] == start && p.last() == v && #[trigger] is_backward_path(edges, p)
}

/// The sources of the edges into `v` are nodes.
pub proof fn lemma_incoming_within(edges: Seq<(usize, usize)>, n: nat, v: usize)
    requires
        edges_within(n, edges),
    ensures
        forall|i: int| 0 <= i < incoming_sources(edges, v).len() ==> #[trigger] incoming_sources(edges, v)[i] < n,
    decreases edges.len(),
{
    if edges.len() > 0 {
        assert(edges_within(n, edges.drop_last())) by {
            assert forall|k: int| 0 <= k < edges.drop_last().len() implies (#[trigger] edges.drop_last()[k]).0 < n
                && edges.drop_last()[k].1 < n by {
                assert(edges.drop_last()[k] == edges[k]);
            }
        }
        lemma_incoming_within(edges.drop_last(), n, v);
        assert(edges[edges.len() - 1].0 < n);
        let rest = incoming_sources(edges.drop_last(), v);
        if edges.last().1 == v {
            assert forall|i: int| 0 <= i < incoming_sources(edges, v).len() implies #[trigger] incoming_sources(edges, v)[i] < n by {
                if i > 0 {
                    assert(incoming_sources(edges, v)[i] == rest[i - 1]);
                }
            }
        }
    }
}

/// The targets of the edges out of `v` are nodes.
pub proof fn lemma_outgoing_within(edges: Seq<(usize, usize)>, n: nat, v: usize)
    requires
        edges_within(n, edges),
    ensures
        forall|i: int| 0 <= i < outgoing_targets(edges, v).len() ==> #[trigger] outgoing_targets(edges, v)[i] < n,
    decreases edges.len(),
{
    if edges.len() > 0 {
        assert(edges_within(n, edges.drop_last())) by {
            assert forall|k: int| 0 <= k < edges.drop_last().len() implies (#[trigger] edges.drop_last()[k]).0 < n
                && edges.drop_last()[k].1 < n by {
                assert(edges.drop_last()[k] == edges[k]);
            }
        }
        lemma_outgoing_within(edges.drop_last(), n, v);
        assert(edges[edges.len() - 1].1 < n);
        let rest = outgoing_targets(edges.drop_last(), v);
        if edges.last().0 == v {
            assert forall|i: int| 0 <= i < outgoing_targets(edges, v).len() implies #[trigger] outgoing_targets(edges, v)[i] < n by {
                if i > 0 {
                    assert(outgoing_targets(edges, v)[i] == rest[i - 1]);
                }
            }
        }
    }
}

/// What `start` depends on is a node too.
pub proof fn lemma_reaches_within(edges: Seq<(usize, usize)>, n: nat, start: usize, v: usize)
    requires
        start < n,
        edges_within(n, edges),
        reaches_backward(edges, start, v),
    ensures
        v < n,
{
    let p = choose|p: Seq<usize>| p.len() > 0 && p[0] == start && p.last() == v && #[trigger] is_backward_path(edges, p);
    if p.len() > 1 {
        let i = p.len() - 2;
        assert(edges.contains((p[i + 1], p[i])));
        let k = choose|k: int| 0 <= k < edges.len() && edges[k] == (p[i + 1], p[i]);
        assert(edges[k].0 < n);
    }
}

/// The weights of the nodes of a graph, by node index.
pub uninterp spec fn graph_node_weights(g: Graph<usize, (), Directed, u32>) -> Seq<usize>;

/// The edges of a graph as (source, target) index pairs, in the order they were added.
pub uninterp spec fn graph_edges(g: Graph<usize, (), Directed, u32>) -> Seq<(usize, usize)>;

/// The order in which `petgraph`'s topological sort lists the nodes `0..n` of
/// a graph without cycles.
pub uninterp spec fn toposort_order(n: nat, edges: Seq<(usize, usize)>) -> Seq<usize>;

/// The preorder in which `petgraph`'s depth-first search visits the edge-reversed
/// graph on nodes `0..n` from `start`.
pub uninterp spec fn dfs_reversed_preorder(n: nat, edges: Seq<(usize, usize)>, start: usize) -> Seq<usize>;

/// Each listed source of `v` stands for an edge into `v`.
pub proof fn lemma_incoming_is_edge(edges: Seq<(usize, usize)>, v: usize, i: int)
    requires
        0 <= i < incoming_sources(edges, v).len(),
    ensures
        exists|k: int| 0 <= k < edges.len() && #[trigger] edges[k] == (incoming_sources(edges, v)[i], v),
    decreases edges.len(),
{
    let rest = incoming_sources(edges.drop_last(), v);
    if edges.last().1 == v {
        if i == 0 {
            assert(edges[edges.len() - 1] == (incoming_sources(edges, v)[i], v));
        } else {
            assert(incoming_sources(edges, v)[i] == rest[i - 1]);
            lemma_incoming_is_edge(edges.drop_last(), v, i - 1);
            let k = choose|k: int| 0 <= k < edges.drop_last().len() && #[trigger] edges.drop_last()[k] == (rest[i - 1], v);
            assert(edges[k] == edges.drop_last()[k]);
        }
    } else {
        lemma_incoming_is_edge(edges.drop_last(), v, i);
        let k = choose|k: int| 0 <= k < edges.drop_last().len() && #[trigger] edges.drop_last()[k] == (rest[i], v);
        assert(edges[k] == edges.drop_last()[k]);
    }
}

/// Each unit an import edge leads from stands earlier in a topological order.
pub proof fn lemma_sources_earlier(
    order: Seq<usize>,
    n: nat,
    edges: Seq<(usize, usize)>,
    j: int,
    i: int,
) -> (pos: int)
    requires
        is_topological_order(order, n, edges),
        edges_within(n, edges),
        0 <= j < order.len(),
        0 <= i < incoming_sources(edges, order[j]).len(),
    ensures
        0 <= pos < j,
        order[pos] == incoming_sources(edges, order[j])[i],
{
    lemma_incoming_is_edge(edges, order[j], i);
    let k = choose|k: int| 0 <= k < edges.len() && #[trigger] edges[k] == (incoming_sources(edges, order[j])[i], order[j]);
    let p = edges[k].0;
    assert(p < n);
    assert(order.contains(p));
    let pos = choose|pos: int| 0 <= pos < order.len() && order[pos] == p;
    assert(pos < j);
    pos
}

// ---------------------------------------------------------------------------
// Calls into petgraph
// ---------------------------------------------------------------------------

/// `Graph::new`: a directed graph with no nodes and no edges.
#[verifier::external_body]
fn graph_new() -> (g: Graph<usize, (), Directed, u32>)
    ensures
        graph_node_weights(g) == Seq::<usize>::empty(),
        graph_edges(g) == Seq::<(usize, usize)>::empty(),
{
    Graph::new()
}

/// `Graph::node_count`: the number of nodes.
#[verifier::external_body]
fn node_count_of(g: &Graph<usize, (), Directed, u32>) -> (n: usize)
    ensures
        n == graph_node_weights(*g).len(),
{
    g.node_count()
}

/// `Graph::add_node`: appends a node with the given weight and returns its
/// index, the former node count. It panics when the count reaches `u32::MAX`.
#[verifier::external_body]
fn graph_add_node(g: &mut Graph<usize, (), Directed, u32>, weight: usize) -> (idx: usize)
    requires
        graph_node_weights(*old(g)).len() < u32::MAX,
    ensures
        graph_node_weights(*final(g)) == graph_node_weights(*old(g)).push(weight),
        graph_edges(*final(g)) == graph_edges(*old(g)),
        idx == graph_node_weights(*old(g)).len(),
{
    g.add_node(weight).index()
}

/// `Graph::add_edge`: appends the edge `a -> b` (parallel edges are kept).
/// It panics on a node that does not exist or when the edge count reaches `u32::MAX`.
#[verifier::external_body]
fn graph_add_edge(g: &mut Graph<usize, (), Directed, u32>, a: usize, b: usize)
    requires
        a < graph_node_weights(*old(g)).len(),
        b < graph_node_weights(*old(g)).len(),
        graph_node_weights(*old(g)).len() < u32::MAX,
        graph_edges(*old(g)).len() < u32::MAX,
    ensures
        graph_node_weights(*final(g)) == graph_node_weights(*old(g)),
        graph_edges(*final(g)) == graph_edges(*old(g)).push((a, b)),
{
    g.add_edge(NodeIndex::new(a), NodeIndex::new(b), ());
}

/// `Graph::edges_directed(v, Incoming).count()`: the number of edges into `v`.
#[verifier::external_body]
fn graph_in_degree(g: &Graph<usize, (), Directed, u32>, v: usize) -> (d: usize)
    requires
        v < graph_node_weights(*g).len() < u32::MAX,
    ensures
        d == incoming_sources(graph_edges(*g), v).len(),
{
    g.edges_directed(NodeIndex::new(v), Direction::Incoming).count()
}

/// `Graph::neighbors_directed(v, Incoming)`: the source of each edge into `v`,
/// most recently added edge first (the order petgraph documents for directed graphs).
#[verifier::external_body]
fn graph_incoming(g: &Graph<usize, (), Directed, u32>, v: usize) -> (r: Vec<usize>)
    requires
        v < graph_node_weights(*g).len() < u32::MAX,
    ensures
        r@ == incoming_sources(graph_edges(*g), v),
{
    g.neighbors_directed(NodeIndex::new(v), Direction::Incoming).map(|n| n.index()).collect()
}

/// `Graph::neighbors_directed(v, Outgoing)`: the target of each edge out of `v`,
/// most recently added edge first.
#[verifier::external_body]
fn graph_outgoing(g: &Graph<usize, (), Directed, u32>, v: usize) -> (r: Vec<usize>)
    requires
        v < graph_node_weights(*g).len() < u32::MAX,
    ensures
        r@ == outgoing_targets(graph_edges(*g), v),
{
    g.neighbors_directed(NodeIndex::new(v), Direction::Outgoing).map(|n| n.index()).collect()
}

/// `petgraph::algo::toposort`: on success, every node once with each node before
/// its successors; it fails exactly when the graph has a cycle (a self loop included).
#[verifier::external_body]
fn graph_toposort(g: &Graph<usize, (), Directed, u32>) -> (r: Option<Vec<usize>>)
    ensures
        r matches Some(order) ==> order@ == toposort_order(graph_node_weights(*g).len(), graph_edges(*g)),
        r matches Some(order) ==> is_topological_order(
            order@,
            graph_node_weights(*g).len(),
            graph_edges(*g),
        ),
        r is None ==> !is_acyclic(graph_node_weights(*g).len(), graph_edges(*g)),
{
    match petgraph::algo::toposort(g, None) {
        Ok(order) => Some(order.into_iter().map(|n| n.index()).collect()),
        Err(_) => None,
    }
}

/// `petgraph::visit::Dfs` over `Reversed(g)` from `start`: the nodes reachable
/// from `start` against the edges, each once, in preorder, `start` first.
#[verifier::external_body]
fn graph_dfs_reversed(g: &Graph<usize, (), Directed, u32>, start: usize) -> (r: Vec<usize>)
    requires
        start < graph_node_weights(*g).len() < u32::MAX,
    ensures
        r@ == dfs_reversed_preorder(graph_node_weights(*g).len(), graph_edges(*g), start),
        r@.len() > 0,
        r@[0] == start,
        r@.no_duplicates(),
        forall|v: usize| #[trigger] r@.contains(v) <==> reaches_backward(graph_edges(*g), start, v),
{
    let mut dfs = Dfs::new(Reversed(g), NodeIndex::new(start));
    let mut out = Vec::new();
    while let Some(n) = dfs.next(Reversed(g)) {
        out.push(n.index());
    }
    out
}

// ---------------------------------------------------------------------------
// Resolving imports to the units that export them
// ---------------------------------------------------------------------------

/// The unit that exports module `name`: the last one, when several do.
pub open spec fn exporter(units: Seq<TranslationUnit>, name: Seq<char>) -> Option<int>
    decreases units.len(),
{
    if units.len() == 0 {
        None
    } else if units.last().exports(name) {
        Some(units.len() - 1)
    } else {
        exporter(units.drop_last(), name)
    }
}

/// The edges that the imports `names` of unit `i` give, in import order.
/// An import that no unit exports gives no edge.
pub open spec fn import_edges(units: Seq<TranslationUnit>, i: int, names: Seq<Seq<char>>) -> Seq<(usize, usize)>
    decreases names.len(),
{
    if names.len() == 0 {
        Seq::empty()
    } else {
        let rest = import_edges(units, i, names.drop_last());
        match exporter(units, names.last()) {
            Some(t) => rest.push((t as usize, i as usize)),
            None => rest,
        }
    }
}

/// The edges of the units `0..k`, unit by unit.
pub open spec fn dependency_edges_upto(units: Seq<TranslationUnit>, k: int) -> Seq<(usize, usize)>
    decreases k,
{
    if k <= 0 {
        Seq::empty()
    } else {
        dependency_edges_upto(units, k - 1) + import_edges(units, k - 1, units[k - 1].import_names())
    }
}

/// All edges of the dependency graph of `units`, in the order they are added.
pub open spec fn dependency_edges(units: Seq<TranslationUnit>) -> Seq<(usize, usize)> {
    dependency_edges_upto(units, units.len() as int)
}

proof fn lemma_exporter_in_range(units: Seq<TranslationUnit>, name: Seq<char>)
    ensures
        exporter(units, name) matches Some(t) ==> 0 <= t < units.len(),
    decreases units.len(),
{
    if units.len() > 0 {
        lemma_exporter_in_range(units.drop_last(), name);
    }
}

proof fn lemma_import_edges_bounds(units: Seq<TranslationUnit>, i: int, names: Seq<Seq<char>>)
    requires
        0 <= i < units.len(),
    ensures
        import_edges(units, i, names).len() <= names.len(),
        edges_within(units.len(), import_edges(units, i, names)),
    decreases names.len(),
{
    if names.len() > 0 {
        lemma_import_edges_bounds(units, i, names.drop_last());
        lemma_exporter_in_range(units, names.last());
    }
}

proof fn lemma_dependency_edges_bounds(units: Seq<TranslationUnit>, k: int)
    requires
        0 <= k <= units.len(),
    ensures
        edges_within(units.len(), dependency_edges_upto(units, k)),
    decreases k,
{
    if k > 0 {
        lemma_dependency_edges_bounds(units, k - 1);
        lemma_import_edges_bounds(units, k - 1, units[k - 1].import_names());
        let a = dependency_edges_upto(units, k - 1);
        let b = import_edges(units, k - 1, units[k - 1].import_names());
        assert forall|j: int| 0 <= j < (a + b).len() implies #[trigger] (a + b)[j].0 < units.len()
            && (a + b)[j].1 < units.len() by {
            if j < a.len() {
                assert((a + b)[j] == a[j]);
            } else {
                assert((a + b)[j] == b[j - a.len()]);
            }
        }
    }
}

proof fn lemma_upto_monotone(units: Seq<TranslationUnit>, k: int)
    requires
        0 <= k <= units.len(),
    ensures
        dependency_edges_upto(units, k).len() <= dependency_edges(units).len(),
    decreases units.len() - k,
{
    if k < units.len() {
        lemma_upto_monotone(units, k + 1);
    }
}

proof fn lemma_import_prefix_len(units: Seq<TranslationUnit>, i: int, names: Seq<Seq<char>>, j: int)
    requires
        0 <= j <= names.len(),
    ensures
        import_edges(units, i, names.take(j)).len() <= import_edges(units, i, names).len(),
    decreases names.len(),
{
    if j == names.len() {
        assert(names.take(j) =~= names);
    } else {
        assert(names.take(j) =~= names.drop_last().take(j));
        lemma_import_prefix_len(units, i, names.drop_last(), j);
    }
}

/// The sources listed for `v` are exactly the sources of the edges into `v`,
/// one per edge, the most recently added edge first.
pub proof fn lemma_incoming_sources_are_edge_sources(edges: Seq<(usize, usize)>, v: usize)
    ensures
        incoming_sources(edges, v) == edges.filter(|e: (usize, usize)| e.1 == v).map_values(
            |e: (usize, usize)| e.0,
        ).reverse(),
        forall|p: usize| #[trigger] incoming_sources(edges, v).contains(p) <==> edges.contains((p, v)),
    decreases edges.len(),
{
    reveal(Seq::filter);
    let pred = |e: (usize, usize)| e.1 == v;
    let proj = |e: (usize, usize)| e.0;
    if edges.len() > 0 {
        lemma_incoming_sources_are_edge_sources(edges.drop_last(), v);
        let rest = edges.drop_last().filter(pred);
        let e = edges.last();
        if e.1 == v {
            assert(edges.filter(pred) == rest.push(e));
            assert(rest.push(e).map_values(proj) =~= rest.map_values(proj).push(e.0));
            assert(rest.map_values(proj).push(e.0).reverse() =~= seq![e.0] + rest.map_values(proj).reverse());
        } else {
            assert(edges.filter(pred) == rest);
        }
        assert forall|p: usize| #[trigger] incoming_sources(edges, v).contains(p) <==> edges.contains((p, v)) by {
            let inc = incoming_sources(edges, v);
            let prev = incoming_sources(edges.drop_last(), v);
            if edges.contains((p, v)) {
                let j = choose|j: int| 0 <= j < edges.len() && edges[j] == (p, v);
                if j == edges.len() - 1 {
                    assert(inc[0] == p);
                } else {
                    assert(edges.drop_last()[j] == (p, v));
                    assert(edges.drop_last().contains((p, v)));
                    assert(prev.contains(p));
                    let q = choose|q: int| 0 <= q < prev.len() && prev[q] == p;
                    if e.1 == v {
                        assert(inc == seq![e.0] + prev);
                        assert(inc[q + 1] == p);
                    } else {
                        assert(inc[q] == p);
                    }
                }
            }
            if inc.contains(p) {
                let q = choose|q: int| 0 <= q < inc.len() && inc[q] == p;
                if e.1 == v && q == 0 {
                    assert(inc == seq![e.0] + prev);
                    assert(edges[edges.len() - 1] == (p, v));
                } else {
                    if e.1 == v {
                        assert(inc == seq![e.0] + prev);
                    }
                    let q2 = if e.1 == v { q - 1 } else { q };
                    assert(prev[q2] == p);
                    assert(prev.contains(p));
                    let j = choose|j: int| 0 <= j < edges.drop_last().len() && edges.drop_last()[j] == (p, v);
                    assert(edges[j] == (p, v));
                }
            }
        }
    } else {
        assert(edges.filter(pred) =~= Seq::<(usize, usize)>::empty());
        assert(Seq::<(usize, usize)>::empty().map_values(proj).reverse() =~= Seq::<usize>::empty());
    }
}

/// The unit that `exporter` names is the last unit exporting the module, and
/// there is none exactly when no unit exports it.
pub proof fn lemma_exporter_is_last_exporter(units: Seq<TranslationUnit>, name: Seq<char>)
    ensures
        exporter(units, name) matches Some(t) ==> 0 <= t < units.len() && units[t].exports(name)
            && forall|j: int| t < j < units.len() ==> !(#[trigger] units[j]).exports(name),
        exporter(units, name) is None ==> forall|j: int| 0 <= j < units.len() ==> !(#[trigger] units[j]).exports(name),
    decreases units.len(),
{
    if units.len() > 0 {
        lemma_exporter_is_last_exporter(units.drop_last(), name);
        assert forall|j: int| 0 <= j < units.len() - 1 implies #[trigger] units[j] == units.drop_last()[j] by {}
    }
}

proof fn lemma_incoming_concat(a: Seq<(usize, usize)>, b: Seq<(usize, usize)>, v: usize)
    ensures
        incoming_sources(a + b, v) == incoming_sources(b, v) + incoming_sources(a, v),
    decreases b.len(),
{
    if b.len() == 0 {
        assert(a + b =~= a);
        assert(incoming_sources(b, v) + incoming_sources(a, v) =~= incoming_sources(a, v));
    } else {
        assert((a + b).drop_last() =~= a + b.drop_last());
        assert((a + b).last() == b.last());
        lemma_incoming_concat(a, b.drop_last(), v);
        if b.last().1 == v {
            assert(seq![b.last().0] + (incoming_sources(b.drop_last(), v) + incoming_sources(a, v))
                =~= (seq![b.last().0] + incoming_sources(b.drop_last(), v)) + incoming_sources(a, v));
        }
    }
}

proof fn lemma_import_edges_targets(units: Seq<TranslationUnit>, k: int, names: Seq<Seq<char>>, v: usize)
    requires
        0 <= k,
        k as usize != v,
    ensures
        incoming_sources(import_edges(units, k, names), v) == Seq::<usize>::empty(),
    decreases names.len(),
{
    if names.len() > 0 {
        lemma_import_edges_targets(units, k, names.drop_last(), v);
        let rest = import_edges(units, k, names.drop_last());
        if let Some(t) = exporter(units, names.last()) {
            assert(rest.push((t as usize, k as usize)).drop_last() =~= rest);
        }
    }
}

/// The predicate "some unit exports this module".
pub open spec fn resolves(units: Seq<TranslationUnit>) -> spec_fn(Seq<char>) -> bool {
    |n: Seq<char>| exporter(units, n) is Some
}

/// The exporting unit of each of `names` that some unit exports, in order.
pub open spec fn resolved_exporters(units: Seq<TranslationUnit>, names: Seq<Seq<char>>) -> Seq<usize> {
    names.filter(resolves(units)).map_values(|n: Seq<char>| (exporter(units, n)->Some_0) as usize)
}

proof fn lemma_import_edges_own(units: Seq<TranslationUnit>, i: int, names: Seq<Seq<char>>)
    requires
        0 <= i <= usize::MAX,
    ensures
        incoming_sources(import_edges(units, i, names), i as usize) == resolved_exporters(units, names).reverse(),
    decreases names.len(),
{
    reveal(Seq::filter);
    let f = |n: Seq<char>| (exporter(units, n)->Some_0) as usize;
    if names.len() == 0 {
        assert(names.filter(resolves(units)) =~= Seq::<Seq<char>>::empty());
        assert(resolved_exporters(units, names) =~= Seq::<usize>::empty());
        assert(resolved_exporters(units, names).reverse() =~= Seq::<usize>::empty());
    } else {
        let init = names.drop_last();
        lemma_import_edges_own(units, i, init);
        let rest = import_edges(units, i, init);
        let sub = init.filter(resolves(units));
        if let Some(t) = exporter(units, names.last()) {
            assert(rest.push((t as usize, i as usize)).drop_last() =~= rest);
            assert(names.filter(resolves(units)) == sub.push(names.last()));
            assert(sub.push(names.last()).map_values(f) =~= sub.map_values(f).push(t as usize));
            assert(sub.map_values(f).push(t as usize).reverse() =~= seq![t as usize] + sub.map_values(f).reverse());
        } else {
            assert(names.filter(resolves(units)) == sub);
        }
    }
}

proof fn lemma_incoming_upto(units: Seq<TranslationUnit>, i: int, k: int)
    requires
        0 <= i < units.len(),
        units.len() <= usize::MAX,
        0 <= k <= units.len(),
    ensures
        incoming_sources(dependency_edges_upto(units, k), i as usize)
            == if k > i { resolved_exporters(units, units[i].import_names()).reverse() } else { Seq::<usize>::empty() },
    decreases k,
{
    if k > 0 {
        lemma_incoming_upto(units, i, k - 1);
        let a = dependency_edges_upto(units, k - 1);
        let b = import_edges(units, k - 1, units[k - 1].import_names());
        lemma_incoming_concat(a, b, i as usize);
        if k - 1 == i {
            lemma_import_edges_own(units, i, units[i].import_names());
            assert(incoming_sources(b, i as usize) + Seq::<usize>::empty() =~= incoming_sources(b, i as usize));
        } else {
            lemma_import_edges_targets(units, k - 1, units[k - 1].import_names(), i as usize);
            assert(Seq::<usize>::empty() + incoming_sources(a, i as usize) =~= incoming_sources(a, i as usize));
        }
    } else {
        assert(dependency_edges_upto(units, 0) == Seq::<(usize, usize)>::empty());
    }
}

/// The units with an edge into unit `i` are exactly the exporters of its
/// imports that some unit exports, one for each such import, whatever the
/// unit's other imports are (most recent edge first, so the last import's
/// exporter comes first); so its in-degree counts those imports.
pub proof fn lemma_in_degree_counts_resolved_imports(units: Seq<TranslationUnit>, i: int)
    requires
        0 <= i < units.len(),
        units.len() <= usize::MAX,
    ensures
        incoming_sources(dependency_edges(units), i as usize)
            == resolved_exporters(units, units[i].import_names()).reverse(),
        incoming_sources(dependency_edges(units), i as usize).len() == units[i].import_names().filter(resolves(units)).len(),
{
    lemma_incoming_upto(units, i, units.len() as int);
}

proof fn lemma_import_edges_contain(units: Seq<TranslationUnit>, i: int, names: Seq<Seq<char>>, k: int)
    requires
        0 <= k < names.len(),
        exporter(units, names[k]) is Some,
    ensures
        import_edges(units, i, names).contains((exporter(units, names[k])->Some_0 as usize, i as usize)),
    decreases names.len(),
{
    let e = (exporter(units, names[k])->Some_0 as usize, i as usize);
    let rest = import_edges(units, i, names.drop_last());
    if k == names.len() - 1 {
        assert(import_edges(units, i, names) == rest.push(e));
        assert(rest.push(e)[rest.len() as int] == e);
    } else {
        assert(names.drop_last()[k] == names[k]);
        lemma_import_edges_contain(units, i, names.drop_last(), k);
        let q = choose|q: int| 0 <= q < rest.len() && rest[q] == e;
        if let Some(t) = exporter(units, names.last()) {
            assert(rest.push((t as usize, i as usize))[q] == e);
        }
    }
}

proof fn lemma_upto_contains_prefix(units: Seq<TranslationUnit>, k1: int, k2: int, e: (usize, usize))
    requires
        0 <= k1 <= k2,
        dependency_edges_upto(units, k1).contains(e),
    ensures
        dependency_edges_upto(units, k2).contains(e),
    decreases k2 - k1,
{
    if k2 > k1 {
        lemma_upto_contains_prefix(units, k1, k2 - 1, e);
        let a = dependency_edges_upto(units, k2 - 1);
        let b = import_edges(units, k2 - 1, units[k2 - 1].import_names());
        let q = choose|q: int| 0 <= q < a.len() && a[q] == e;
        assert((a + b)[q] == e);
    }
}

/// Every import of unit `i` that some unit exports gives the edge from the
/// (last) exporting unit to `i`, whatever the unit's other imports are.
pub proof fn lemma_resolved_import_is_edge(units: Seq<TranslationUnit>, i: int, k: int)
    requires
        0 <= i < units.len(),
        0 <= k < units[i].import_names().len(),
        exporter(units, units[i].import_names()[k]) is Some,
    ensures
        dependency_edges(units).contains(
            (exporter(units, units[i].import_names()[k])->Some_0 as usize, i as usize),
        ),
{
    let e = (exporter(units, units[i].import_names()[k])->Some_0 as usize, i as usize);
    lemma_import_edges_contain(units, i, units[i].import_names(), k);
    let a = dependency_edges_upto(units, i);
    let b = import_edges(units, i, units[i].import_names());
    let q = choose|q: int| 0 <= q < b.len() && b[q] == e;
    assert((a + b)[a.len() + q] == e);
    assert(dependency_edges_upto(units, i + 1).contains(e));
    lemma_upto_contains_prefix(units, i + 1, units.len() as int, e);
}

/// The index of the unit that exports `name` (the last such unit), if any.
fn find_exporter(units: &Vec<TranslationUnit>, name: &String) -> (r: Option<usize>)
    ensures
        r matches Some(t) ==> exporter(units@, name@) == Some(t as int),
        r is None ==> exporter(units@, name@) is None,
{
    let mut found: Option<usize> = None;
    let mut i: usize = 0;
    while i < units.len()
        invariant
            0 <= i <= units.len(),
            found matches Some(t) ==> exporter(units@.take(i as int), name@) == Some(t as int),
            found is None ==> exporter(units@.take(i as int), name@) is None,
        decreases units.len() - i,
    {
        assert(units@.take(i + 1).drop_last() =~= units@.take(i as int));
        assert(units@.take(i + 1).last() == units@[i as int]);
        match &units[i].exported_module {
            Some(m) => {
                if *m == *name {
                    found = Some(i);
                }
            },
            None => {},
        }
        i += 1;
    }
    assert(units@.take(units.len() as int) =~= units@);
    found
}

/// Whether a graph of `units` fits petgraph's `u32` node and edge indices,
/// which `ModuleGraph::from_units` needs.
pub fn fits_graph_indices(units: &Vec<TranslationUnit>) -> (r: bool)
    ensures
        r == (units.len() < u32::MAX && dependency_edges(units@).len() < u32::MAX),
{
    if units.len() >= u32::MAX as usize {
        return false;
    }
    let n = units.len();
    let mut count: u64 = 0;
    let mut i: usize = 0;
    while i < n
        invariant
            0 <= i <= n,
            n == units.len(),
            count == dependency_edges_upto(units@, i as int).len(),
            count < u32::MAX,
        decreases n - i,
    {
        let unit = &units[i];
        let m = unit.imports.len();
        let ghost before = dependency_edges_upto(units@, i as int);
        let mut j: usize = 0;
        while j < m
            invariant
                0 <= j <= m,
                i < n,
                n == units.len(),
                unit == &units@[i as int],
                m == unit.imports.len(),
                before == dependency_edges_upto(units@, i as int),
                count == before.len() + import_edges(units@, i as int, unit.import_names().take(j as int)).len(),
                count < u32::MAX,
            decreases m - j,
        {
            proof {
                assert(unit.import_names().take(j + 1).drop_last() =~= unit.import_names().take(j as int));
                assert(unit.import_names().take(j + 1).last() == unit.imports@[j as int]@);
            }
            if find_exporter(units, &unit.imports[j]).is_some() {
                count = count + 1;
                if count >= u32::MAX as u64 {
                    proof {
                        lemma_import_prefix_len(units@, i as int, unit.import_names(), j + 1);
                        lemma_upto_monotone(units@, i + 1);
                        assert(import_edges(units@, i as int, unit.import_names().take(j + 1)).len()
                            == import_edges(units@, i as int, unit.import_names().take(j as int)).len() + 1);
                        assert(units@[i as int].import_names() == unit.import_names());
                        assert(dependency_edges_upto(units@, (i + 1) as int) == dependency_edges_upto(units@, i as int)
                            + import_edges(units@, i as int, units@[i as int].import_names()));
                        assert(count == before.len() + import_edges(units@, i as int, unit.import_names().take(j + 1)).len());
                        assert(dependency_edges_upto(units@, (i + 1) as int).len() >= count);
                        assert(dependency_edges(units@).len() >= count);
                    }
                    return false;
                }
            }
            j += 1;
        }
        assert(unit.import_names().take(m as int) =~= unit.import_names());
        i += 1;
    }
    true
}

// ---------------------------------------------------------------------------
// The graph itself
// ---------------------------------------------------------------------------

/// The dependency graph of a list of translation units: node `i` is unit `i`.
pub struct ModuleGraph {
    graph: Graph<usize, (), Directed, u32>,
}

impl ModuleGraph {
    /// The number of nodes.
    pub closed spec fn num_nodes(self) -> nat {
        graph_node_weights(self.graph).len()
    }

    /// The edges, in the order they were added.
    pub closed spec fn edges(self) -> Seq<(usize, usize)> {
        graph_edges(self.graph)
    }

    #[verifier::type_invariant]
    closed spec fn inv(self) -> bool {
        &&& graph_node_weights(self.graph).len() < u32::MAX
        &&& edges_within(graph_node_weights(self.graph).len(), graph_edges(self.graph))
    }

    /// Builds the graph: one node per unit, in order, then for each unit and
    /// each of its imports in order, an edge from the unit that exports the
    /// imported module (the last one, if several do) to the importing unit.
    pub fn from_units(units: &Vec<TranslationUnit>) -> (g: Self)
        requires
            units.len() < u32::MAX,
            dependency_edges(units@).len() < u32::MAX,
        ensures
            g.num_nodes() == units.len(),
            g.edges() == dependency_edges(units@),
    {
        let n = units.len();
        let mut graph = graph_new();
        let mut i: usize = 0;
        while i < n
            invariant
                0 <= i <= n,
                n == units.len(),
                n < u32::MAX,
                graph_node_weights(graph).len() == i,
                graph_edges(graph) == Seq::<(usize, usize)>::empty(),
            decreases n - i,
        {
            graph_add_node(&mut graph, i);
            i += 1;
        }
        let mut i: usize = 0;
        while i < n
            invariant
                0 <= i <= n,
                n == units.len(),
                n < u32::MAX,
                dependency_edges(units@).len() < u32::MAX,
                graph_node_weights(graph).len() == n,
                graph_edges(graph) == dependency_edges_upto(units@, i as int),
            decreases n - i,
        {
            let unit = &units[i];
            let m = unit.imports.len();
            let ghost before = dependency_edges_upto(units@, i as int);
            proof {
                lemma_dependency_edges_bounds(units@, i as int);
                lemma_upto_monotone(units@, i + 1);
            }
            let mut j: usize = 0;
            while j < m
                invariant
                    0 <= j <= m,
                    i < n,
                    n == units.len(),
                    n < u32::MAX,
                    unit == &units@[i as int],
                    m == unit.imports.len(),
                    before.len() + import_edges(units@, i as int, unit.import_names()).len() < u32::MAX,
                    graph_node_weights(graph).len() == n,
                    graph_edges(graph) == before + import_edges(units@, i as int, unit.import_names().take(j as int)),
                decreases m - j,
            {
                proof {
                    lemma_import_edges_bounds(units@, i as int, unit.import_names().take(j as int));
                    lemma_import_prefix_len(units@, i as int, unit.import_names(), j + 1);
                    assert(unit.import_names().take(j + 1).drop_last() =~= unit.import_names().take(j as int));
                    assert(unit.import_names().take(j + 1).last() == unit.imports@[j as int]@);
                }
                match find_exporter(units, &unit.imports[j]) {
                    Some(t) => {
                        proof { lemma_exporter_in_range(units@, unit.imports@[j as int]@); }
                        graph_add_edge(&mut graph, t, i);
                        assert(graph_edges(graph) =~= before + import_edges(units@, i as int, unit.import_names().take(j + 1)));
                    },
                    None => {},
                }
                j += 1;
            }
            assert(unit.import_names().take(m as int) =~= unit.import_names());
            i += 1;
        }
        proof {
            lemma_dependency_edges_bounds(units@, n as int);
        }
        ModuleGraph { graph }
    }
}


impl ModuleGraph {
    /// The number of nodes; every edge joins two of them.
    pub fn node_count(&self) -> (n: usize)
        ensures
            n == self.num_nodes(),
            n < u32::MAX,
            edges_within(self.num_nodes(), self.edges()),
    {
        proof { use_type_invariant(self); }
        node_count_of(&self.graph)
    }

    /// The number of edges into `v`.
    pub fn in_degree(&self, v: usize) -> (d: usize)
        requires
            v < self.num_nodes(),
        ensures
            d == incoming_sources(self.edges(), v).len(),
    {
        proof { use_type_invariant(self); }
        graph_in_degree(&self.graph, v)
    }

    /// The units that `v` imports from: the source of each edge into `v`,
    /// most recently added edge first.
    pub fn predecessors(&self, v: usize) -> (r: Vec<usize>)
        requires
            v < self.num_nodes(),
        ensures
            r@ == incoming_sources(self.edges(), v),
            forall|k: int| 0 <= k < r@.len() ==> #[trigger] r@[k] < self.num_nodes(),
    {
        proof {
            use_type_invariant(self);
            lemma_incoming_within(self.edges(), self.num_nodes(), v);
        }
        graph_incoming(&self.graph, v)
    }

    /// The units that import from `v`: the target of each edge out of `v`,
    /// most recently added edge first.
    pub fn successors(&self, v: usize) -> (r: Vec<usize>)
        requires
            v < self.num_nodes(),
        ensures
            r@ == outgoing_targets(self.edges(), v),
            forall|k: int| 0 <= k < r@.len() ==> #[trigger] r@[k] < self.num_nodes(),
    {
        proof {
            use_type_invariant(self);
            lemma_outgoing_within(self.edges(), self.num_nodes(), v);
        }
        graph_outgoing(&self.graph, v)
    }

    /// A topological order of the units, or `None` exactly when the imports form a cycle.
    pub fn topological_order(&self) -> (r: Option<Vec<usize>>)
        ensures
            r matches Some(order) ==> order@ == toposort_order(self.num_nodes(), self.edges()),
            r matches Some(order) ==> is_topological_order(order@, self.num_nodes(), self.edges()),
            r is None ==> !is_acyclic(self.num_nodes(), self.edges()),
    {
        graph_toposort(&self.graph)
    }

    /// `start` and every unit it depends on, directly or not, each once, in the
    /// preorder of a depth-first search against the edges, `start` first.
    pub fn dependency_closure(&self, start: usize) -> (r: Vec<usize>)
        requires
            start < self.num_nodes(),
        ensures
            r@ == dfs_reversed_preorder(self.num_nodes(), self.edges(), start),
            r@.len() > 0,
            r@[0] == start,
            r@.no_duplicates(),
            forall|v: usize| #[trigger] r@.contains(v) <==> reaches_backward(self.edges(), start, v),
            forall|k: int| 0 <= k < r@.len() ==> #[trigger] r@[k] < self.num_nodes(),
    {
        proof { use_type_invariant(self); }
        let r = graph_dfs_reversed(&self.graph, start);
        proof {
            assert forall|k: int| 0 <= k < r@.len() implies #[trigger] r@[k] < self.num_nodes() by {
                assert(r@.contains(r@[k]));
                lemma_reaches_within(self.edges(), self.num_nodes(), start, r@[k]);
            }
        }
        r
    }
}

} // verus!
