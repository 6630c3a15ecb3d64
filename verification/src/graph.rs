use petgraph::dot::{Config, Dot};
use petgraph::graph::Graph;
use petgraph::visit::EdgeRef;
use petgraph::Directed;
use vstd::prelude::*;
use crate::text::{concat_map, decimal};

verus! {

/// The directed graph of petgraph that holds the dependency edges.
#[verifier::external_type_specification]
#[verifier::external_body]
#[verifier::reject_recursive_types(N)]
#[verifier::reject_recursive_types(E)]
#[verifier::reject_recursive_types(Ty)]
#[verifier::reject_recursive_types(Ix)]
pub struct ExGraph<N, E, Ty, Ix>(Graph<N, E, Ty, Ix>);

/// petgraph's marker type for directed graphs.
#[verifier::external_type_specification]
#[verifier::external_body]
pub struct ExDirected(Directed);

/// The edges of a graph, as (source, target) node indices, in insertion order.
pub uninterp spec fn graph_edges(g: Graph<usize, usize, Directed, usize>) -> Seq<(usize, usize)>;

/// The number of nodes of a graph; its nodes are the indices below it.
pub uninterp spec fn graph_node_count(g: Graph<usize, usize, Directed, usize>) -> nat;

/// The order in which petgraph's `Topo` traversal visits the nodes of the graph
/// with `node_count` nodes and the edges `edges`.
pub uninterp spec fn topo_visit_order(node_count: nat, edges: Seq<(usize, usize)>) -> Seq<usize>;

/// The indentation of each line of a `Dot` listing.
pub open spec fn dot_indent() -> Seq<char> {
    seq![' ', ' ', ' ', ' ']
}

/// The line of a `Dot` listing, without node labels, for node `i` with the
/// attribute text `attrs`.
pub open spec fn dot_node_line(i: nat, attrs: Seq<char>) -> Seq<char> {
    dot_indent() + decimal(i) + seq![' ', '[', ' '] + attrs + seq![']', '\n']
}

/// The line of a `Dot` listing of a directed graph, without edge labels, for
/// the edge `e` with the empty attribute text.
pub open spec fn dot_edge_line(e: (usize, usize)) -> Seq<char> {
    dot_indent() + decimal(e.0 as nat) + seq![' ', '-', '>', ' '] + decimal(e.1 as nat) + seq![
        ' ',
        '[',
        ' ',
        ']',
        '\n',
    ]
}

/// The text that petgraph's `Dot` writes for the directed graph with
/// `node_count` nodes and the edges `edges`, with neither node nor edge labels,
/// where node `i` carries the attribute text `labels[i]` and every edge the
/// empty attribute text: a `digraph` block that lists the nodes in index
/// order, then the edges in the order they were added.
pub open spec fn dot_text(node_count: nat, edges: Seq<(usize, usize)>, labels: Seq<Seq<char>>) -> Seq<
    char,
> {
    seq!['d', 'i', 'g', 'r', 'a', 'p', 'h', ' ', '{', '\n'] + concat_map(
        Seq::new(node_count, |i: int| i as nat),
        |i: nat| dot_node_line(i, labels[i as int]),
    ) + concat_map(edges, |e: (usize, usize)| dot_edge_line(e)) + seq!['}', '\n']
}

/// The number of nodes that a graph built from `edges` has: one more than the
/// largest index any edge names, or zero without edges.
pub open spec fn edge_span(edges: Seq<(usize, usize)>) -> nat
    decreases edges.len(),
{
    if edges.len() == 0 {
        0
    } else {
        let rest = edge_span(edges.drop_last());
        let e = edges.last();
        let m = if e.0 >= e.1 { e.0 + 1 } else { e.1 + 1 };
        if rest >= m { rest } else { m as nat }
    }
}

/// The sources of the edges that end in `n`, the edge added last first.
pub open spec fn incoming_sources_spec(edges: Seq<(usize, usize)>, n: usize) -> Seq<usize>
    decreases edges.len(),
{
    if edges.len() == 0 {
        Seq::empty()
    } else {
        let rest = incoming_sources_spec(edges.drop_last(), n);
        if edges.last().1 == n {
            seq![edges.last().0].add(rest)
        } else {
            rest
        }
    }
}

/// `rank` grows along every edge.
pub open spec fn ranks_edges(rank: spec_fn(usize) -> int, edges: Seq<(usize, usize)>) -> bool {
    forall|k: int| 0 <= k < edges.len() ==> rank(#[trigger] edges[k].0) < rank(edges[k].1)
}

/// A graph is acyclic when some ranking of its nodes grows along every edge.
pub open spec fn is_acyclic(edges: Seq<(usize, usize)>) -> bool {
    exists|rank: spec_fn(usize) -> int| #[trigger] ranks_edges(rank, edges)
}

/// `order` lists nodes below `node_count` without repetition, and lists every
/// node only after all the sources of its incoming edges.
pub open spec fn is_topological_prefix(
    order: Seq<usize>,
    node_count: nat,
    edges: Seq<(usize, usize)>,
) -> bool {
    &&& forall|i: int| 0 <= i < order.len() ==> #[trigger] order[i] < node_count
    &&& forall|i: int, j: int| 0 <= i < j < order.len() ==> order[i] != order[j]
    &&& forall|i: int, k: int|
        0 <= i < order.len() && 0 <= k < edges.len() && #[trigger] edges[k].1 == #[trigger] order[i]
            ==> exists|j: int| 0 <= j < i && order[j] == edges[k].0
}

/// Builds a graph from a list of edges with `Graph::from_edges`: the edges keep
/// their order, and nodes are added until every index named by an edge exists.
#[verifier::external_body]
pub(crate) fn graph_from_edges(edges: Vec<(usize, usize)>) -> (g: Graph<usize, usize, Directed, usize>)
    requires
        forall|k: int| 0 <= k < edges@.len() ==> #[trigger] edges@[k].0 < usize::MAX && edges@[k].1 < usize::MAX,
    ensures
        graph_edges(g) == edges@,
        graph_node_count(g) == edge_span(edges@),
{
    Graph::from_edges(edges)
}

/// Adds a node of weight 0 with `Graph::add_node`: the nodes grow by one, whose
/// index is the old node count, and the edges stay as they were.
#[verifier::external_body]
pub(crate) fn graph_add_node(g: &mut Graph<usize, usize, Directed, usize>) -> (r: usize)
    ensures
        graph_edges(*final(g)) == graph_edges(*old(g)),
        graph_node_count(*final(g)) == graph_node_count(*old(g)) + 1,
        r == graph_node_count(*old(g)),
{
    g.add_node(0).index()
}

/// The number of nodes of the graph, with `Graph::node_count`.
#[verifier::external_body]
pub(crate) fn node_count(g: &Graph<usize, usize, Directed, usize>) -> (r: usize)
    ensures
        r == graph_node_count(*g),
{
    g.node_count()
}

/// The sources of the incoming edges of node `n`, as `Graph::edges_directed`
/// with `Incoming` yields them: the edge added last comes first.
#[verifier::external_body]
pub(crate) fn incoming_sources(g: &Graph<usize, usize, Directed, usize>, n: usize) -> (r: Vec<usize>)
    ensures
        n < graph_node_count(*g) ==> r@ == incoming_sources_spec(graph_edges(*g), n),
        n >= graph_node_count(*g) ==> r@.len() == 0,
{
    g.edges_directed(petgraph::graph::NodeIndex::new(n), petgraph::Direction::Incoming).map(
        |e| e.source().index(),
    ).collect()
}

/// Runs petgraph's `Topo` traversal to its end and lists the visited nodes.
/// `Topo` visits each node at most once, each only after all the sources of
/// its incoming edges, and on an acyclic graph it visits every node.
#[verifier::external_body]
pub(crate) fn topo_order(g: &Graph<usize, usize, Directed, usize>) -> (r: Vec<usize>)
    ensures
        r@ == topo_visit_order(graph_node_count(*g), graph_edges(*g)),
        is_topological_prefix(r@, graph_node_count(*g), graph_edges(*g)),
        is_acyclic(graph_edges(*g)) ==> r@.len() == graph_node_count(*g),
{
    let mut visitor = petgraph::visit::Topo::new(g);
    let mut order = Vec::new();
    while let Some(node) = visitor.next(g) {
        order.push(node.index());
    }
    order
}

/// Formats the graph with petgraph's `Dot`, without node or edge labels, giving
/// node `i` the attribute text `labels[i]` and every edge the empty one. The
/// contract claims the layout that `Dot::graph_fmt` writes: the nodes in index
/// order, then the edges in the order `Graph` keeps them.
#[verifier::external_body]
pub(crate) fn graph_dot(g: &Graph<usize, usize, Directed, usize>, labels: &Vec<String>) -> (r: String)
    requires
        graph_node_count(*g) <= labels@.len(),
    ensures
        r@ == dot_text(
            graph_node_count(*g),
            graph_edges(*g),
            labels@.map_values(|l: String| l@),
        ),
{
    format!(
        "{}",
        Dot::with_attr_getters(
            g,
            &[Config::EdgeNoLabel, Config::NodeNoLabel],
            &|_, _| String::new(),
            &|_, (i, _)| labels[i.index()].clone(),
        )
    )
}

} // verus!
