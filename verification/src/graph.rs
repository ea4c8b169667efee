//! The graph model: package nodes with stable handles, deduplicated edges,
//! and the table that finds a node by its name.

use crate::store::bfs_frontier;
use crate::store::bfs_limit;
use crate::store::bfs_new;
use crate::store::bfs_next;
use crate::store::dot_text;
use crate::store::graph_add_edge;
use crate::store::graph_add_node;
use crate::store::graph_arcs;
use crate::store::graph_contains_edge;
use crate::store::graph_dot;
use crate::store::graph_edge_count;
use crate::store::graph_label;
use crate::store::graph_labels;
use crate::store::graph_new;
use crate::store::graph_node_count;
use crate::store::Frontier;
use fixedbitset::FixedBitSet;
use petgraph::graph::Graph;
use petgraph::graph::NodeIndex;
use petgraph::visit::Bfs;
use petgraph::Directed;
use vstd::hash_map::StringHashMap;
use vstd::prelude::*;

verus! {

/// The weight that every edge carries. It has no meaning beyond the
/// existence of the edge.
pub const EDGE_WEIGHT: u16 = 1;

/// The mathematical value of a `DependencyGraph`: the package name of each
/// node, by handle, and the edges as (source handle, target handle) in the
/// order in which they were added. An edge from A to B says that B depends
/// on A, so B is rebuilt when A changes.
pub struct GraphModel {
    pub nodes: Seq<Seq<char>>,
    pub edges: Seq<(nat, nat)>,
}

impl GraphModel {
    /// The graph without nodes.
    pub open spec fn empty() -> GraphModel {
        GraphModel { nodes: Seq::empty(), edges: Seq::empty() }
    }

    /// One node per name, at most one edge per ordered pair of nodes, and
    /// every edge between existing nodes.
    pub open spec fn wf(self) -> bool {
        &&& self.nodes.no_duplicates()
        &&& self.edges.no_duplicates()
        &&& forall|k: int|
            0 <= k < self.edges.len() ==> (#[trigger] self.edges[k]).0 < self.nodes.len()
                && self.edges[k].1 < self.nodes.len()
    }

    /// Whether a node carries `name`.
    pub open spec fn has_node(self, name: Seq<char>) -> bool {
        self.nodes.contains(name)
    }

    /// The handle of the node that carries `name`.
    pub open spec fn node_id(self, name: Seq<char>) -> nat {
        self.nodes.index_of(name) as nat
    }

    /// Whether an edge leads from the node `from` to the node `to`.
    pub open spec fn has_edge(self, from: nat, to: nat) -> bool {
        self.edges.contains((from, to))
    }

    /// Whether an edge leads from the node of `from` to the node of `to`.
    pub open spec fn links(self, from: Seq<char>, to: Seq<char>) -> bool {
        self.has_node(from) && self.has_node(to) && self.has_edge(
            self.node_id(from),
            self.node_id(to),
        )
    }

    /// Obtain or create: the graph with a node for `name`, which is new only
    /// where no node carried the name before.
    pub open spec fn with_node(self, name: Seq<char>) -> GraphModel {
        if self.has_node(name) {
            self
        } else {
            GraphModel { nodes: self.nodes.push(name), edges: self.edges }
        }
    }

    /// The graph with an edge from `from` to `to`, which is new only where
    /// no such edge existed before.
    pub open spec fn with_edge(self, from: nat, to: nat) -> GraphModel {
        if self.has_edge(from, to) {
            self
        } else {
            GraphModel { nodes: self.nodes, edges: self.edges.push((from, to)) }
        }
    }
}

/// Creating a node keeps the graph well formed, keeps every handle, and
/// gives `name` a handle.
pub proof fn lemma_with_node(m: GraphModel, name: Seq<char>)
    requires
        m.wf(),
    ensures
        m.with_node(name).wf(),
        m.with_node(name).has_node(name),
        m.with_node(name).nodes[m.with_node(name).node_id(name) as int] == name,
        m.with_node(name).node_id(name) < m.with_node(name).nodes.len(),
        !m.has_node(name) ==> m.with_node(name).node_id(name) == m.nodes.len(),
        m.with_node(name).edges == m.edges,
        m.nodes.len() <= m.with_node(name).nodes.len(),
        forall|other: Seq<char>| #[trigger]
            m.has_node(other) ==> m.with_node(name).has_node(other) && m.with_node(name).node_id(
                other,
            ) == m.node_id(other),
        forall|other: Seq<char>| #[trigger]
            m.with_node(name).has_node(other) ==> m.has_node(other) || other == name,
{
    let w = m.with_node(name);
    if m.has_node(name) {
    } else {
        let n = m.nodes.len() as int;
        assert(w.nodes[n] == name);
        assert(w.nodes.no_duplicates()) by {
            assert forall|i: int, j: int|
                0 <= i < w.nodes.len() && 0 <= j < w.nodes.len() && i != j implies w.nodes[i]
                != w.nodes[j] by {
                if i < n && j < n {
                } else if i == n {
                    assert(m.nodes[j] == w.nodes[j]);
                } else {
                    assert(m.nodes[i] == w.nodes[i]);
                }
            }
        }
        lemma_node_id(w, n as nat);
        assert forall|other: Seq<char>| #[trigger] m.has_node(other) implies w.has_node(other)
            && w.node_id(other) == m.node_id(other) by {
            let i = m.nodes.index_of(other);
            assert(w.nodes[i] == other);
            lemma_node_id(w, i as nat);
        }
        assert forall|other: Seq<char>| #[trigger] w.has_node(other) implies m.has_node(other)
            || other == name by {
            let i = w.nodes.index_of(other);
            if i < n {
                assert(m.nodes[i] == other);
            }
        }
    }
}

/// Where no name occurs twice, the handle of a node's name is that node.
pub proof fn lemma_node_id(m: GraphModel, id: nat)
    requires
        m.nodes.no_duplicates(),
        id < m.nodes.len(),
    ensures
        m.has_node(m.nodes[id as int]),
        m.node_id(m.nodes[id as int]) == id,
{
    let name = m.nodes[id as int];
    assert(m.nodes.contains(name));
    let i = m.nodes.index_of(name);
    assert(0 <= i < m.nodes.len() && m.nodes[i] == name);
}

/// Adding an edge between existing nodes keeps the graph well formed and
/// keeps the nodes.
pub proof fn lemma_with_edge(m: GraphModel, from: nat, to: nat)
    requires
        m.wf(),
        from < m.nodes.len(),
        to < m.nodes.len(),
    ensures
        m.with_edge(from, to).wf(),
        m.with_edge(from, to).nodes == m.nodes,
        m.with_edge(from, to).has_edge(from, to),
        forall|a: nat, b: nat| #[trigger]
            m.with_edge(from, to).has_edge(a, b) <==> m.has_edge(a, b) || (a == from && b == to),
{
    let w = m.with_edge(from, to);
    if m.has_edge(from, to) {
    } else {
        let n = m.edges.len() as int;
        assert(w.edges[n] == (from, to));
        assert forall|i: int, j: int|
            0 <= i < w.edges.len() && 0 <= j < w.edges.len() && i != j implies w.edges[i]
            != w.edges[j] by {
            if i < n && j < n {
            } else if i == n {
                assert(m.edges[j] == w.edges[j]);
            } else {
                assert(m.edges[i] == w.edges[i]);
            }
        }
        assert forall|a: nat, b: nat| #[trigger] w.has_edge(a, b) implies m.has_edge(a, b) || (a
            == from && b == to) by {
            let k = choose|k: int| 0 <= k < w.edges.len() && w.edges[k] == (a, b);
            if k < n {
                assert(m.edges[k] == (a, b));
            }
        }
        assert forall|a: nat, b: nat| m.has_edge(a, b) implies #[trigger] w.has_edge(a, b) by {
            let k = choose|k: int| 0 <= k < m.edges.len() && m.edges[k] == (a, b);
            assert(w.edges[k] == (a, b));
        }
    }
}

/// A graph that keeps the edges and the handles of another has the same
/// links between names.
pub proof fn lemma_links_kept(m: GraphModel, g: GraphModel)
    requires
        m.wf(),
        g.wf(),
        g.edges == m.edges,
        m.nodes.len() <= g.nodes.len(),
        g.nodes.take(m.nodes.len() as int) == m.nodes,
    ensures
        forall|x: Seq<char>, y: Seq<char>| #[trigger] g.links(x, y) <==> m.links(x, y),
{
    assert forall|x: Seq<char>, y: Seq<char>| #[trigger] g.links(x, y) <==> m.links(x, y) by {
        if m.links(x, y) {
            let a = m.node_id(x);
            let b = m.node_id(y);
            assert(g.nodes.take(m.nodes.len() as int)[a as int] == x);
            assert(g.nodes.take(m.nodes.len() as int)[b as int] == y);
            lemma_node_id(g, a);
            lemma_node_id(g, b);
        }
        if g.links(x, y) {
            let a = g.node_id(x);
            let b = g.node_id(y);
            let k = choose|k: int| 0 <= k < g.edges.len() && g.edges[k] == (a, b);
            assert(m.edges[k].0 < m.nodes.len() && m.edges[k].1 < m.nodes.len());
            assert(g.nodes.take(m.nodes.len() as int)[a as int] == x);
            assert(g.nodes.take(m.nodes.len() as int)[b as int] == y);
            lemma_node_id(m, a);
            lemma_node_id(m, b);
        }
    }
}

/// Every edge of a well-formed graph is a link between the names of its
/// ends.
pub proof fn lemma_edge_links(m: GraphModel, k: int)
    requires
        m.wf(),
        0 <= k < m.edges.len(),
    ensures
        m.edges[k].0 < m.nodes.len(),
        m.edges[k].1 < m.nodes.len(),
        m.links(m.nodes[m.edges[k].0 as int], m.nodes[m.edges[k].1 as int]),
{
    let a = m.edges[k].0;
    let b = m.edges[k].1;
    lemma_node_id(m, a);
    lemma_node_id(m, b);
    assert(m.edges[k] == (a, b));
}

/// The graph of affected packages: a `petgraph` graph whose nodes carry
/// package names, and the table from names to node handles.
pub struct DependencyGraph {
    graph: Graph<String, u16, Directed, usize>,
    cache: StringHashMap<usize>,
}

impl View for DependencyGraph {
    type V = GraphModel;

    closed spec fn view(&self) -> GraphModel {
        GraphModel { nodes: graph_labels(self.graph), edges: graph_arcs(self.graph) }
    }
}

impl DependencyGraph {
    /// The graph is well formed and the name table holds exactly the nodes:
    /// a name is never given a second node.
    pub closed spec fn wf(&self) -> bool {
        &&& self@.wf()
        &&& forall|name: Seq<char>| #[trigger]
            self.cache@.contains_key(name) <==> self@.has_node(name)
        &&& forall|name: Seq<char>| #[trigger]
            self.cache@.contains_key(name) ==> self.cache@[name] == self@.node_id(name)
    }

    /// What `wf` says of the value.
    pub proof fn lemma_wf(&self)
        requires
            self.wf(),
        ensures
            self@.wf(),
    {
    }

    /// The graph without nodes.
    pub fn new() -> (g: DependencyGraph)
        ensures
            g.wf(),
            g@ == GraphModel::empty(),
    {
        let g = DependencyGraph { graph: graph_new(), cache: StringHashMap::new() };
        assert(g@.nodes =~= Seq::<Seq<char>>::empty());
        assert(g@.edges =~= Seq::<(nat, nat)>::empty());
        g
    }

    /// The number of nodes.
    pub fn node_count(&self) -> (n: usize)
        ensures
            n == self@.nodes.len(),
    {
        graph_node_count(&self.graph)
    }

    /// The number of edges.
    pub fn edge_count(&self) -> (n: usize)
        ensures
            n == self@.edges.len(),
    {
        graph_edge_count(&self.graph)
    }

    /// The handle of the node that carries `name`, if there is one.
    pub fn node(&self, name: &String) -> (found: Option<usize>)
        requires
            self.wf(),
        ensures
            match found {
                Some(id) => self@.has_node(name@) && id == self@.node_id(name@) && id
                    < self@.nodes.len() && self@.nodes[id as int] == name@,
                None => !self@.has_node(name@),
            },
    {
        match self.cache.get(name.as_str()) {
            Some(id) => Some(*id),
            None => None,
        }
    }

    /// Obtain or create: the handle of the node that carries `name`. The
    /// node is created on the first reference to the name, and never again.
    pub fn node_or_insert(&mut self, name: &String) -> (id: usize)
        requires
            old(self).wf(),
        ensures
            final(self).wf(),
            final(self)@ == old(self)@.with_node(name@),
            id == final(self)@.node_id(name@),
            id < final(self)@.nodes.len(),
    {
        proof {
            lemma_with_node(self@, name@);
        }
        match self.node(name) {
            Some(id) => id,
            None => {
                let id = graph_add_node(&mut self.graph, name.clone());
                self.cache.insert(name.clone(), id);
                id
            },
        }
    }

    /// The package name of a node.
    pub fn name(&self, id: usize) -> (name: &String)
        requires
            id < self@.nodes.len(),
        ensures
            name@ == self@.nodes[id as int],
    {
        graph_label(&self.graph, id)
    }

    /// Whether an edge leads from `from` to `to`.
    pub fn has_edge(&self, from: usize, to: usize) -> (found: bool)
        ensures
            found == self@.has_edge(from as nat, to as nat),
    {
        graph_contains_edge(&self.graph, from, to)
    }

    /// Adds the edge from `from` to `to` unless it exists: inserting an edge
    /// a second time changes nothing.
    pub fn connect(&mut self, from: usize, to: usize)
        requires
            old(self).wf(),
            from < old(self)@.nodes.len(),
            to < old(self)@.nodes.len(),
        ensures
            final(self).wf(),
            final(self)@ == old(self)@.with_edge(from as nat, to as nat),
    {
        proof {
            lemma_with_edge(self@, from as nat, to as nat);
        }
        if !graph_contains_edge(&self.graph, from, to) {
            graph_add_edge(&mut self.graph, from, to, EDGE_WEIGHT);
        }
    }

    /// Starts a breadth-first traversal: `start` is discovered and pending.
    pub(crate) fn traversal(&self, start: usize) -> (walk: Bfs<NodeIndex<usize>, FixedBitSet>)
        requires
            start < self@.nodes.len(),
        ensures
            bfs_frontier(walk) == Frontier::at(start as nat),
            bfs_limit(walk) == self@.nodes.len(),
    {
        bfs_new(&self.graph, start)
    }

    /// Hands out the next node of a traversal of this graph, if one is
    /// pending.
    pub(crate) fn traversal_next(&self, walk: &mut Bfs<NodeIndex<usize>, FixedBitSet>) -> (next:
        Option<usize>)
        requires
            self@.nodes.len() <= bfs_limit(*old(walk)),
        ensures
            bfs_limit(*final(walk)) == bfs_limit(*old(walk)),
            match next {
                Some(node) => {
                    &&& bfs_frontier(*old(walk)).pending.len() > 0
                    &&& node == bfs_frontier(*old(walk)).pending[0]
                    &&& bfs_frontier(*final(walk)) == bfs_frontier(*old(walk)).advance(self@.edges)
                },
                None => {
                    &&& bfs_frontier(*old(walk)).pending.len() == 0
                    &&& bfs_frontier(*final(walk)) == bfs_frontier(*old(walk))
                },
            },
    {
        bfs_next(walk, &self.graph)
    }

    /// The graph as DOT text: nodes as labelled vertices, edges as directed
    /// arcs without labels.
    pub fn to_dot(&self) -> (text: String)
        ensures
            text@ == dot_text(self@.nodes, self@.edges),
    {
        graph_dot(&self.graph)
    }
}

} // verus!
