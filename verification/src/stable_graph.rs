use vstd::prelude::*;
use petgraph::stable_graph::NodeIndex;
use petgraph::stable_graph::StableGraph;
use petgraph::Directed;
use crate::run_graph::Node;

verus! {

/// `petgraph::stable_graph::StableGraph`, taken as opaque: all that is said
/// of a graph is said by the names below.
#[verifier::external_type_specification]
#[verifier::external_body]
#[verifier::reject_recursive_types(N)]
#[verifier::reject_recursive_types(E)]
#[verifier::reject_recursive_types(Ty)]
#[verifier::reject_recursive_types(Ix)]
pub struct ExStableGraph<N, E, Ty, Ix>(StableGraph<N, E, Ty, Ix>);

/// `petgraph::Directed`, the marker of graphs with directed edges.
#[verifier::external_type_specification]
#[verifier::external_body]
pub struct ExDirected(Directed);

/// The nodes that a graph holds: the weight of each node, by its index.
pub uninterp spec fn graph_nodes(g: StableGraph<Node, (), Directed, u32>) -> Map<u32, Node>;

/// The edges that a graph holds, each as (source, target), the edge added
/// first coming first.
pub uninterp spec fn graph_edges(g: StableGraph<Node, (), Directed, u32>) -> Seq<(u32, u32)>;

/// The edges that a graph holds, each as (source, target), in the order of
/// the slots that they lie in. An edge that is added takes a vacant slot
/// where there is one, so this order is not always the order of adding.
pub uninterp spec fn graph_edges_by_slot(g: StableGraph<Node, (), Directed, u32>) -> Seq<(u32, u32)>;

/// The text that `petgraph::dot::Dot` prints with `{:?}` for a directed
/// graph that holds the nodes `nodes` and, in the order of their slots,
/// the edges `edges`: a line for each node, by rising index, with the
/// node's `Debug` text as its label; then a line for each edge.
pub uninterp spec fn dot_text(nodes: Map<u32, Node>, edges: Seq<(u32, u32)>) -> Seq<char>;

/// How many node slots a graph has made so far, the vacant ones included.
pub uninterp spec fn graph_node_slots(g: StableGraph<Node, (), Directed, u32>) -> nat;

/// How many edge slots a graph has made so far, the vacant ones included.
pub uninterp spec fn graph_edge_slots(g: StableGraph<Node, (), Directed, u32>) -> nat;

/// The targets of the edges that leave `a`, the edge added last coming first.
pub open spec fn targets_newest_first(edges: Seq<(u32, u32)>, a: u32) -> Seq<u32>
    decreases edges.len(),
{
    if edges.len() == 0 {
        Seq::empty()
    } else if edges.last().0 == a {
        seq![edges.last().1] + targets_newest_first(edges.drop_last(), a)
    } else {
        targets_newest_first(edges.drop_last(), a)
    }
}

/// The sources of the edges that enter `b`, the edge added last coming first.
pub open spec fn sources_newest_first(edges: Seq<(u32, u32)>, b: u32) -> Seq<u32>
    decreases edges.len(),
{
    if edges.len() == 0 {
        Seq::empty()
    } else if edges.last().1 == b {
        seq![edges.last().0] + sources_newest_first(edges.drop_last(), b)
    } else {
        sources_newest_first(edges.drop_last(), b)
    }
}

/// The edges that do not touch the node `a`, in their order.
pub open spec fn without_node(edges: Seq<(u32, u32)>, a: u32) -> Seq<(u32, u32)>
    decreases edges.len(),
{
    if edges.len() == 0 {
        Seq::empty()
    } else if edges.last().0 == a || edges.last().1 == a {
        without_node(edges.drop_last(), a)
    } else {
        without_node(edges.drop_last(), a).push(edges.last())
    }
}

/// `StableGraph::new`: a graph without nodes, edges or slots.
#[verifier::external_body]
pub(crate) fn graph_new() -> (g: StableGraph<Node, (), Directed, u32>)
    ensures
        graph_nodes(g) =~= Map::empty(),
        graph_edges(g).len() == 0,
        graph_edges_by_slot(g).len() == 0,
        graph_node_slots(g) == 0,
        graph_edge_slots(g) == 0,
{
    StableGraph::new()
}

/// `StableGraph::add_node`: adds a node of the given weight under an index
/// that no node of the graph has, and returns the index. The edges stay; at
/// most one node slot is made. Where no slot is vacant, that is where the
/// graph holds as many nodes as slots, a slot is made and the index is the
/// number of slots before. The call panics when no slot is vacant and the
/// slots have reached `u32::MAX`: `requires` leaves that out.
#[verifier::external_body]
pub(crate) fn graph_add_node(g: &mut StableGraph<Node, (), Directed, u32>, weight: Node) -> (id:
    u32)
    requires
        graph_node_slots(*old(g)) < u32::MAX,
    ensures
        !graph_nodes(*old(g)).dom().contains(id),
        graph_nodes(*final(g)) == graph_nodes(*old(g)).insert(id, weight),
        graph_edges(*final(g)) == graph_edges(*old(g)),
        graph_edges_by_slot(*final(g)) == graph_edges_by_slot(*old(g)),
        graph_node_slots(*old(g)) <= graph_node_slots(*final(g)) <= graph_node_slots(*old(g)) + 1,
        graph_nodes(*old(g)).dom().len() >= graph_node_slots(*old(g)) ==> id == graph_node_slots(
            *old(g),
        ) && graph_node_slots(*final(g)) == graph_node_slots(*old(g)) + 1,
        graph_edge_slots(*final(g)) == graph_edge_slots(*old(g)),
{
    g.add_node(weight).index() as u32
}

/// `StableGraph::add_edge`: adds an edge from `a` to `b` after the edges
/// that the graph holds. The nodes stay; at most one edge slot is made.
/// Where no slot is vacant, that is where the graph holds as many edges as
/// slots, the edge takes a new slot, after all the others. The call panics
/// when `a` or `b` is no node of the graph, and when no slot is vacant and
/// the slots have reached `u32::MAX`: `requires` leaves both out.
#[verifier::external_body]
pub(crate) fn graph_add_edge(g: &mut StableGraph<Node, (), Directed, u32>, a: u32, b: u32)
    requires
        graph_nodes(*old(g)).dom().contains(a),
        graph_nodes(*old(g)).dom().contains(b),
        graph_edge_slots(*old(g)) < u32::MAX,
    ensures
        graph_nodes(*final(g)) == graph_nodes(*old(g)),
        graph_edges(*final(g)) == graph_edges(*old(g)).push((a, b)),
        graph_edges_by_slot(*old(g)).len() >= graph_edge_slots(*old(g)) ==> graph_edges_by_slot(
            *final(g),
        ) == graph_edges_by_slot(*old(g)).push((a, b)),
        graph_node_slots(*final(g)) == graph_node_slots(*old(g)),
        graph_edge_slots(*old(g)) <= graph_edge_slots(*final(g)) <= graph_edge_slots(*old(g)) + 1,
{
    g.add_edge(NodeIndex::from(a), NodeIndex::from(b), ());
}

/// `StableGraph::remove_node`: takes the node `a` out of the graph, with
/// every edge that touches it; the other nodes and edges stay, the edges in
/// their order and in their slots. Where `a` is no node of the graph,
/// nothing changes. No slot is made or given up.
#[verifier::external_body]
pub(crate) fn graph_remove_node(g: &mut StableGraph<Node, (), Directed, u32>, a: u32)
    ensures
        graph_nodes(*final(g)) == graph_nodes(*old(g)).remove(a),
        graph_edges(*final(g)) == without_node(graph_edges(*old(g)), a),
        graph_edges_by_slot(*final(g)) == without_node(graph_edges_by_slot(*old(g)), a),
        graph_node_slots(*final(g)) == graph_node_slots(*old(g)),
        graph_edge_slots(*final(g)) == graph_edge_slots(*old(g)),
{
    g.remove_node(NodeIndex::from(a));
}

/// `StableGraph::node_weight`: the weight of the node `a`, where the graph
/// has such a node.
#[verifier::external_body]
pub(crate) fn graph_node_weight(g: &StableGraph<Node, (), Directed, u32>, a: u32) -> (weight:
    Option<&Node>)
    ensures
        weight == if graph_nodes(*g).dom().contains(a) {
            Some(&graph_nodes(*g)[a])
        } else {
            None
        },
{
    g.node_weight(NodeIndex::from(a))
}

/// `IndexMut` of `StableGraph` by `NodeIndex`: gives the node `a` a new
/// weight, and changes nothing else. Indexing panics when `a` is no node of
/// the graph: `requires` leaves that out.
#[verifier::external_body]
pub(crate) fn graph_set_weight(g: &mut StableGraph<Node, (), Directed, u32>, a: u32, weight: Node)
    requires
        graph_nodes(*old(g)).dom().contains(a),
    ensures
        graph_nodes(*final(g)) == graph_nodes(*old(g)).insert(a, weight),
        graph_edges(*final(g)) == graph_edges(*old(g)),
        graph_edges_by_slot(*final(g)) == graph_edges_by_slot(*old(g)),
        graph_node_slots(*final(g)) == graph_node_slots(*old(g)),
        graph_edge_slots(*final(g)) == graph_edge_slots(*old(g)),
{
    g[NodeIndex::from(a)] = weight;
}

/// `StableGraph::neighbors`: the targets of the edges that leave `a`, the
/// edge added last coming first; none where `a` is no node of the graph.
#[verifier::external_body]
pub(crate) fn graph_neighbors(g: &StableGraph<Node, (), Directed, u32>, a: u32) -> (targets: Vec<
    u32,
>)
    ensures
        targets@ == targets_newest_first(graph_edges(*g), a),
{
    g.neighbors(NodeIndex::from(a)).map(|n| n.index() as u32).collect()
}

/// `StableGraph::neighbors_directed` with `Direction::Incoming`: the sources
/// of the edges that enter `a`, the edge added last coming first; none
/// where `a` is no node of the graph.
#[verifier::external_body]
pub(crate) fn graph_dependents(g: &StableGraph<Node, (), Directed, u32>, a: u32) -> (sources: Vec<
    u32,
>)
    ensures
        sources@ == sources_newest_first(graph_edges(*g), a),
{
    g.neighbors_directed(NodeIndex::from(a), petgraph::Direction::Incoming).map(
        |n| n.index() as u32,
    ).collect()
}

/// `StableGraph::node_count`: how many nodes the graph holds.
#[verifier::external_body]
pub(crate) fn graph_node_count(g: &StableGraph<Node, (), Directed, u32>) -> (count: usize)
    ensures
        count == graph_nodes(*g).dom().len(),
{
    g.node_count()
}

/// `petgraph::dot::Dot::new`, printed with `{:?}`: the graph in the DOT
/// language of Graphviz. The text is named, not spelled out: it is the
/// text of the graph's nodes and of its edges in the order of their slots,
/// and of nothing else.
#[verifier::external_body]
pub(crate) fn graph_dot(g: &StableGraph<Node, (), Directed, u32>) -> (text: String)
    ensures
        text@ == dot_text(graph_nodes(*g), graph_edges_by_slot(*g)),
{
    format!("{:?}", petgraph::dot::Dot::new(g))
}

} // verus!
