//! The boundary to the `petgraph` crate.
//!
//! The graph of affected packages lives in a `petgraph` graph whose nodes
//! carry package names. Nothing in this file is proved: each function makes
//! one call into `petgraph` and states what that call does, over the names
//! `graph_labels`, `graph_arcs`, `bfs_pending`, `bfs_seen` and `bfs_limit`.
//! Node handles are plain indices: nodes and edges are never removed, so a
//! handle stays valid for the life of the graph.

use fixedbitset::FixedBitSet;
use petgraph::dot::Config;
use petgraph::dot::Dot;
use petgraph::graph::Graph;
use petgraph::graph::NodeIndex;
use petgraph::visit::Bfs;
use petgraph::Directed;
use vstd::prelude::*;

verus! {

#[verifier::external_type_specification]
#[verifier::external_body]
#[verifier::reject_recursive_types(N)]
#[verifier::reject_recursive_types(E)]
#[verifier::reject_recursive_types(Ty)]
#[verifier::reject_recursive_types(Ix)]
pub struct ExGraph<N, E, Ty, Ix>(Graph<N, E, Ty, Ix>);

#[verifier::external_type_specification]
#[verifier::external_body]
pub struct ExDirected(Directed);

#[verifier::external_type_specification]
#[verifier::external_body]
#[verifier::reject_recursive_types(Ix)]
pub struct ExNodeIndex<Ix>(NodeIndex<Ix>);

#[verifier::external_type_specification]
#[verifier::external_body]
#[verifier::reject_recursive_types(N)]
#[verifier::reject_recursive_types(VM)]
pub struct ExBfs<N, VM>(Bfs<N, VM>);

#[verifier::external_type_specification]
#[verifier::external_body]
pub struct ExFixedBitSet(FixedBitSet);

/// The node weights of a graph, by node index.
pub uninterp spec fn graph_labels(g: Graph<String, u16, Directed, usize>) -> Seq<Seq<char>>;

/// The edges of a graph as (source index, target index), in the order in
/// which they were added.
pub uninterp spec fn graph_arcs(g: Graph<String, u16, Directed, usize>) -> Seq<(nat, nat)>;

/// The queue of a traversal: the nodes discovered and not yet handed out,
/// oldest first.
pub uninterp spec fn bfs_pending(b: Bfs<NodeIndex<usize>, FixedBitSet>) -> Seq<nat>;

/// The nodes that a traversal has discovered so far.
pub uninterp spec fn bfs_seen(b: Bfs<NodeIndex<usize>, FixedBitSet>) -> Set<nat>;

/// The number of nodes that the discovery map of a traversal was sized for.
pub uninterp spec fn bfs_limit(b: Bfs<NodeIndex<usize>, FixedBitSet>) -> nat;

/// The text that `petgraph` renders for a graph with these node weights and
/// edges, edge labels switched off.
pub uninterp spec fn dot_text(labels: Seq<Seq<char>>, arcs: Seq<(nat, nat)>) -> Seq<char>;

/// The targets of the edges that leave `node`, most recently added edge
/// first.
pub open spec fn successors(arcs: Seq<(nat, nat)>, node: nat) -> Seq<nat>
    decreases arcs.len(),
{
    if arcs.len() == 0 {
        Seq::empty()
    } else if arcs.last().0 == node {
        seq![arcs.last().1] + successors(arcs.drop_last(), node)
    } else {
        successors(arcs.drop_last(), node)
    }
}

/// The state of a breadth-first traversal.
pub struct Frontier {
    pub pending: Seq<nat>,
    pub seen: Set<nat>,
}

impl Frontier {
    /// The state in which a traversal starts: `start` is discovered and
    /// pending.
    pub open spec fn at(start: nat) -> Frontier {
        Frontier { pending: seq![start], seen: set![start] }
    }

    /// Queues `node` unless it was discovered before.
    pub open spec fn discover(self, node: nat) -> Frontier {
        if self.seen.contains(node) {
            self
        } else {
            Frontier { pending: self.pending.push(node), seen: self.seen.insert(node) }
        }
    }

    /// Queues each of `nodes` in turn, unless it was discovered before.
    pub open spec fn discover_all(self, nodes: Seq<nat>) -> Frontier
        decreases nodes.len(),
    {
        if nodes.len() == 0 {
            self
        } else {
            self.discover(nodes[0]).discover_all(nodes.drop_first())
        }
    }

    /// The state after the oldest pending node was handed out and its
    /// successors were discovered.
    pub open spec fn advance(self, arcs: Seq<(nat, nat)>) -> Frontier {
        Frontier { pending: self.pending.drop_first(), seen: self.seen }.discover_all(
            successors(arcs, self.pending[0]),
        )
    }
}

/// The state of a `petgraph` traversal.
pub open spec fn bfs_frontier(b: Bfs<NodeIndex<usize>, FixedBitSet>) -> Frontier {
    Frontier { pending: bfs_pending(b), seen: bfs_seen(b) }
}

/// `Graph::default`: a graph without nodes or edges.
#[verifier::external_body]
pub(crate) fn graph_new() -> (g: Graph<String, u16, Directed, usize>)
    ensures
        graph_labels(g) == Seq::<Seq<char>>::empty(),
        graph_arcs(g) == Seq::<(nat, nat)>::empty(),
{
    Graph::default()
}

/// `Graph::node_count`: the number of nodes.
#[verifier::external_body]
pub(crate) fn graph_node_count(g: &Graph<String, u16, Directed, usize>) -> (n: usize)
    ensures
        n == graph_labels(*g).len(),
{
    g.node_count()
}

/// `Graph::edge_count`: the number of edges.
#[verifier::external_body]
pub(crate) fn graph_edge_count(g: &Graph<String, u16, Directed, usize>) -> (n: usize)
    ensures
        n == graph_arcs(*g).len(),
{
    g.edge_count()
}

/// `Graph::add_node`: appends a node with the given weight and returns its
/// index, which is the number of nodes before the call. With `usize`
/// indices the call has no capacity limit of its own.
#[verifier::external_body]
pub(crate) fn graph_add_node(g: &mut Graph<String, u16, Directed, usize>, label: String) -> (id:
    usize)
    ensures
        graph_labels(*final(g)) == graph_labels(*old(g)).push(label@),
        graph_arcs(*final(g)) == graph_arcs(*old(g)),
        id == graph_labels(*old(g)).len(),
{
    g.add_node(label).index()
}

/// `Graph::add_edge`: appends an edge between two existing nodes. The call
/// panics where a node does not exist; parallel edges are accepted.
#[verifier::external_body]
pub(crate) fn graph_add_edge(
    g: &mut Graph<String, u16, Directed, usize>,
    from: usize,
    to: usize,
    weight: u16,
)
    requires
        from < graph_labels(*old(g)).len(),
        to < graph_labels(*old(g)).len(),
    ensures
        graph_labels(*final(g)) == graph_labels(*old(g)),
        graph_arcs(*final(g)) == graph_arcs(*old(g)).push((from as nat, to as nat)),
{
    g.add_edge(NodeIndex::new(from), NodeIndex::new(to), weight);
}

/// `Graph::contains_edge`: whether some edge leads from `from` to `to`.
#[verifier::external_body]
pub(crate) fn graph_contains_edge(
    g: &Graph<String, u16, Directed, usize>,
    from: usize,
    to: usize,
) -> (found: bool)
    ensures
        found == graph_arcs(*g).contains((from as nat, to as nat)),
{
    g.contains_edge(NodeIndex::new(from), NodeIndex::new(to))
}

/// Indexing a `Graph` by a node index: the weight of that node. The call
/// panics where the node does not exist.
#[verifier::external_body]
pub(crate) fn graph_label(g: &Graph<String, u16, Directed, usize>, node: usize) -> (label: &String)
    requires
        node < graph_labels(*g).len(),
    ensures
        label@ == graph_labels(*g)[node as int],
{
    &g[NodeIndex::new(node)]
}

/// `Bfs::new`: a traversal with `start` discovered and pending, and a
/// discovery map sized for the nodes of `g`. The call panics where `start`
/// is no node of `g`.
#[verifier::external_body]
pub(crate) fn bfs_new(g: &Graph<String, u16, Directed, usize>, start: usize) -> (b: Bfs<
    NodeIndex<usize>,
    FixedBitSet,
>)
    requires
        start < graph_labels(*g).len(),
    ensures
        bfs_pending(b) == seq![start as nat],
        bfs_seen(b) == set![start as nat],
        bfs_limit(b) == graph_labels(*g).len(),
{
    Bfs::new(g, NodeIndex::new(start))
}

/// `Bfs::next`: hands out the oldest pending node, after queueing those of
/// its successors that were not discovered before, in the order in which
/// `Graph::neighbors` lists them (most recently added edge first); `None`
/// once nothing is pending. Marking a successor panics where the discovery
/// map is smaller than the graph.
#[verifier::external_body]
pub(crate) fn bfs_next(
    b: &mut Bfs<NodeIndex<usize>, FixedBitSet>,
    g: &Graph<String, u16, Directed, usize>,
) -> (next: Option<usize>)
    requires
        graph_labels(*g).len() <= bfs_limit(*old(b)),
    ensures
        bfs_limit(*final(b)) == bfs_limit(*old(b)),
        match next {
            Some(node) => {
                &&& bfs_pending(*old(b)).len() > 0
                &&& node == bfs_pending(*old(b))[0]
                &&& bfs_pending(*final(b)) == bfs_frontier(*old(b)).advance(graph_arcs(*g)).pending
                &&& bfs_seen(*final(b)) == bfs_frontier(*old(b)).advance(graph_arcs(*g)).seen
            },
            None => {
                &&& bfs_pending(*old(b)).len() == 0
                &&& bfs_pending(*final(b)) == bfs_pending(*old(b))
                &&& bfs_seen(*final(b)) == bfs_seen(*old(b))
            },
        },
{
    match b.next(g) {
        Some(node) => Some(node.index()),
        None => None,
    }
}

/// `Dot::with_config` with `Config::EdgeNoLabel`, rendered through
/// `Display`: the text depends on the node weights and the edges alone.
#[verifier::external_body]
pub(crate) fn graph_dot(g: &Graph<String, u16, Directed, usize>) -> (text: String)
    ensures
        text@ == dot_text(graph_labels(*g), graph_arcs(*g)),
{
    Dot::with_config(g, &[Config::EdgeNoLabel]).to_string()
}

} // verus!
