//! Breadth-first traversal of the graph model: the order in which the
//! packages reachable from one node are reported.

use crate::corpus::names;
use crate::graph::lemma_edge_links;
use crate::graph::lemma_node_id;
use crate::graph::DependencyGraph;
use crate::graph::GraphModel;
use crate::store::bfs_frontier;
use crate::store::bfs_limit;
use crate::store::successors;
use crate::store::Frontier;
use vstd::prelude::*;

verus! {

/// The nodes that a traversal in state `f` hands out in its next `fuel`
/// steps, or until nothing is pending.
pub open spec fn traverse(edges: Seq<(nat, nat)>, f: Frontier, fuel: nat) -> Seq<nat>
    decreases fuel,
{
    if fuel == 0 || f.pending.len() == 0 {
        Seq::empty()
    } else {
        seq![f.pending[0]] + traverse(edges, f.advance(edges), (fuel - 1) as nat)
    }
}

/// The nodes that `start` reaches, in breadth-first order: `start`, then
/// the nodes it has an edge to, most recently added edge first, then theirs,
/// each node once (`lemma_breadth_first_closure`). A traversal hands out no
/// node twice, so as many steps as the graph has nodes exhaust it.
pub open spec fn breadth_first(m: GraphModel, start: nat) -> Seq<nat> {
    traverse(m.edges, Frontier::at(start), m.nodes.len())
}

/// The package names of the nodes reachable from `start`, in breadth-first
/// order.
pub open spec fn line_of(m: GraphModel, start: nat) -> Seq<Seq<char>> {
    breadth_first(m, start).map_values(|id: nat| m.nodes[id as int])
}

/// What holds of a traversal that has handed out `out` and is in state `f`:
/// no node was handed out or queued twice, every node exists, the
/// discovered nodes are those handed out or pending, and every node that an
/// edge reaches from a node handed out has been discovered.
pub open spec fn tidy(m: GraphModel, out: Seq<nat>, f: Frontier) -> bool {
    &&& met(out, f)
    &&& forall|i: int, k: int|
        0 <= i < out.len() && 0 <= k < m.edges.len() && (#[trigger] m.edges[k]).0
            == #[trigger] out[i] ==> f.seen.contains(m.edges[k].1)
    &&& forall|i: int|
        0 <= i < (out + f.pending).len() ==> (#[trigger] (out + f.pending)[i]) < m.nodes.len()
}

/// No node was handed out or queued twice, and the discovered nodes are
/// those handed out or pending.
pub open spec fn met(out: Seq<nat>, f: Frontier) -> bool {
    &&& (out + f.pending).no_duplicates()
    &&& forall|x: nat| #[trigger] f.seen.contains(x) <==> (out + f.pending).contains(x)
}

/// The successors of a node are the targets of the edges that leave it.
pub proof fn lemma_successors(edges: Seq<(nat, nat)>, node: nat)
    ensures
        forall|y: nat| #[trigger]
            successors(edges, node).contains(y) <==> edges.contains((node, y)),
    decreases edges.len(),
{
    if edges.len() > 0 {
        let front = edges.drop_last();
        let last = edges.last();
        lemma_successors(front, node);
        let s = successors(edges, node);
        let t = successors(front, node);
        assert forall|y: nat| #[trigger] s.contains(y) <==> edges.contains((node, y)) by {
            if s.contains(y) {
                let i = choose|i: int| 0 <= i < s.len() && s[i] == y;
                if last.0 == node {
                    if i == 0 {
                        assert(edges[edges.len() - 1] == (node, y));
                    } else {
                        assert(t[i - 1] == y);
                        assert(t.contains(y));
                    }
                }
                if t.contains(y) {
                    let k = choose|k: int| 0 <= k < front.len() && front[k] == (node, y);
                    assert(edges[k] == (node, y));
                }
            }
            if edges.contains((node, y)) {
                let k = choose|k: int| 0 <= k < edges.len() && edges[k] == (node, y);
                if k == edges.len() - 1 {
                    assert(s[0] == y);
                } else {
                    assert(front[k] == (node, y));
                    assert(t.contains(y));
                    let i = choose|i: int| 0 <= i < t.len() && t[i] == y;
                    if last.0 == node {
                        assert(s[i + 1] == y);
                    }
                }
            }
        }
    }
}

/// Distinct numbers below `n` are at most `n` many.
pub proof fn lemma_distinct_bounded(s: Seq<nat>, n: nat)
    requires
        s.no_duplicates(),
        forall|i: int| 0 <= i < s.len() ==> (#[trigger] s[i]) < n,
    ensures
        s.len() <= n,
    decreases n,
{
    if s.len() == 0 {
    } else if n == 0 {
        assert(s[0] < n);
    } else {
        let top = (n - 1) as nat;
        if s.contains(top) {
            let p = choose|p: int| 0 <= p < s.len() && s[p] == top;
            let rest = s.remove(p);
            assert forall|i: int, j: int|
                0 <= i < rest.len() && 0 <= j < rest.len() && i != j implies rest[i] != rest[j] by {
                let si = if i < p { i } else { i + 1 };
                let sj = if j < p { j } else { j + 1 };
                assert(rest[i] == s[si] && rest[j] == s[sj]);
            }
            assert forall|i: int| 0 <= i < rest.len() implies (#[trigger] rest[i]) < top by {
                let si = if i < p { i } else { i + 1 };
                assert(rest[i] == s[si]);
                assert(s[si] < n);
            }
            lemma_distinct_bounded(rest, top);
        } else {
            assert forall|i: int| 0 <= i < s.len() implies (#[trigger] s[i]) < top by {
                assert(s[i] < n);
                assert(s.contains(s[i]));
            }
            lemma_distinct_bounded(s, top);
        }
    }
}

/// What discovering a list of existing nodes does to a traversal: the
/// pending queue grows at its end by nodes that were not discovered, and
/// every listed node is discovered afterwards.
pub proof fn lemma_discover_all(m: GraphModel, out: Seq<nat>, f: Frontier, nodes: Seq<nat>)
    requires
        met(out, f),
        forall|i: int|
            0 <= i < (out + f.pending).len() ==> (#[trigger] (out + f.pending)[i]) < m.nodes.len(),
        forall|i: int| 0 <= i < nodes.len() ==> (#[trigger] nodes[i]) < m.nodes.len(),
    ensures
        ({
            let g = f.discover_all(nodes);
            &&& met(out, g)
            &&& forall|i: int|
                0 <= i < (out + g.pending).len() ==> (#[trigger] (out + g.pending)[i])
                    < m.nodes.len()
            &&& forall|x: nat| f.seen.contains(x) ==> #[trigger] g.seen.contains(x)
            &&& forall|i: int| 0 <= i < nodes.len() ==> g.seen.contains(#[trigger] nodes[i])
            &&& f.pending.len() <= g.pending.len()
            &&& g.pending.take(f.pending.len() as int) == f.pending
        }),
    decreases nodes.len(),
{
    if nodes.len() == 0 {
        assert(f.pending.take(f.pending.len() as int) == f.pending);
    } else {
        let node = nodes[0];
        let h = f.discover(node);
        let order = out + f.pending;
        let longer = out + h.pending;
        if !f.seen.contains(node) {
            assert(longer =~= order.push(node));
            assert forall|i: int, j: int|
                0 <= i < longer.len() && 0 <= j < longer.len() && i != j implies longer[i]
                != longer[j] by {
                if i < order.len() && j < order.len() {
                    assert(longer[i] == order[i] && longer[j] == order[j]);
                } else if i == order.len() {
                    assert(longer[j] == order[j]);
                    assert(order.contains(order[j]));
                } else {
                    assert(longer[i] == order[i]);
                    assert(order.contains(order[i]));
                }
            }
            assert forall|i: int| 0 <= i < longer.len() implies (#[trigger] longer[i])
                < m.nodes.len() by {
                if i < order.len() {
                    assert(longer[i] == order[i]);
                } else {
                    assert(longer[i] == nodes[0]);
                }
            }
            assert forall|x: nat| #[trigger] h.seen.contains(x) <==> longer.contains(x) by {
                if order.contains(x) {
                    let i = choose|i: int| 0 <= i < order.len() && order[i] == x;
                    assert(longer[i] == x);
                }
                if x == node {
                    assert(longer[order.len() as int] == x);
                }
                if longer.contains(x) {
                    let i = choose|i: int| 0 <= i < longer.len() && longer[i] == x;
                    if i < order.len() {
                        assert(order[i] == x);
                    }
                }
            }
        }
        let rest = nodes.drop_first();
        assert forall|i: int| 0 <= i < rest.len() implies (#[trigger] rest[i]) < m.nodes.len() by {
            assert(rest[i] == nodes[i + 1]);
        }
        lemma_discover_all(m, out, h, rest);
        let g = f.discover_all(nodes);
        assert(g == h.discover_all(rest));
        assert(g.pending.take(f.pending.len() as int) =~= f.pending) by {
            assert(g.pending.take(h.pending.len() as int) == h.pending);
            assert forall|i: int| 0 <= i < f.pending.len() implies g.pending[i] == f.pending[i] by {
                assert(g.pending.take(h.pending.len() as int)[i] == h.pending[i]);
            }
        }
        assert forall|i: int| 0 <= i < nodes.len() implies g.seen.contains(#[trigger] nodes[i]) by {
            if i > 0 {
                assert(rest[i - 1] == nodes[i]);
            }
        }
    }
}

/// One step of a tidy traversal leaves it tidy.
pub proof fn lemma_advance(m: GraphModel, out: Seq<nat>, f: Frontier)
    requires
        m.wf(),
        tidy(m, out, f),
        f.pending.len() > 0,
    ensures
        tidy(m, out.push(f.pending[0]), f.advance(m.edges)),
        forall|x: nat| f.seen.contains(x) ==> #[trigger] f.advance(m.edges).seen.contains(x),
{
    let node = f.pending[0];
    let out2 = out.push(node);
    let popped = Frontier { pending: f.pending.drop_first(), seen: f.seen };
    let succs = successors(m.edges, node);
    assert(out2 + popped.pending =~= out + f.pending);
    lemma_successors(m.edges, node);
    assert forall|i: int| 0 <= i < succs.len() implies (#[trigger] succs[i]) < m.nodes.len() by {
        assert(succs.contains(succs[i]));
        let k = choose|k: int| 0 <= k < m.edges.len() && m.edges[k] == (node, succs[i]);
        assert(m.edges[k].1 < m.nodes.len());
    }
    lemma_discover_all(m, out2, popped, succs);
    let g = f.advance(m.edges);
    assert forall|i: int, k: int|
        0 <= i < out2.len() && 0 <= k < m.edges.len() && (#[trigger] m.edges[k]).0
            == #[trigger] out2[i] implies g.seen.contains(m.edges[k].1) by {
        if i < out.len() {
            assert(out2[i] == out[i]);
            assert(f.seen.contains(m.edges[k].1));
        } else {
            let y = m.edges[k].1;
            assert(m.edges[k] == (node, y));
            assert(m.edges.contains((node, y)));
            assert(succs.contains(y));
            let j = choose|j: int| 0 <= j < succs.len() && succs[j] == y;
            assert(g.seen.contains(succs[j]));
        }
    }
}

/// A tidy traversal cannot have handed out or queued more nodes than the
/// graph has.
pub proof fn lemma_tidy_bounded(m: GraphModel, out: Seq<nat>, f: Frontier)
    requires
        tidy(m, out, f),
    ensures
        out.len() + f.pending.len() <= m.nodes.len(),
{
    lemma_distinct_bounded(out + f.pending, m.nodes.len());
}

/// Running a tidy traversal to its end: with enough steps left, what comes
/// out holds every discovered node once, exists in the graph, and is closed
/// under the edges of the graph.
pub proof fn lemma_traverse(m: GraphModel, out: Seq<nat>, f: Frontier, fuel: nat)
    requires
        m.wf(),
        tidy(m, out, f),
        out.len() + fuel >= m.nodes.len(),
    ensures
        ({
            let all = out + traverse(m.edges, f, fuel);
            &&& all.no_duplicates()
            &&& forall|i: int| 0 <= i < all.len() ==> (#[trigger] all[i]) < m.nodes.len()
            &&& forall|x: nat| f.seen.contains(x) ==> #[trigger] all.contains(x)
            &&& forall|i: int, k: int|
                0 <= i < all.len() && 0 <= k < m.edges.len() && (#[trigger] m.edges[k]).0
                    == #[trigger] all[i] ==> all.contains(m.edges[k].1)
            &&& f.pending.len() > 0 ==> traverse(m.edges, f, fuel).len() > 0 && traverse(
                m.edges,
                f,
                fuel,
            )[0] == f.pending[0]
        }),
    decreases fuel,
{
    lemma_tidy_bounded(m, out, f);
    let r = traverse(m.edges, f, fuel);
    if f.pending.len() == 0 {
        assert(out + r =~= out);
        assert(out + f.pending =~= out);
        let all = out + r;
        assert forall|i: int, k: int|
            0 <= i < all.len() && 0 <= k < m.edges.len() && (#[trigger] m.edges[k]).0
                == #[trigger] all[i] implies all.contains(m.edges[k].1) by {
            assert(f.seen.contains(m.edges[k].1));
        }
    } else {
        let node = f.pending[0];
        let g = f.advance(m.edges);
        lemma_advance(m, out, f);
        lemma_traverse(m, out.push(node), g, (fuel - 1) as nat);
        assert(out + r =~= out.push(node) + traverse(m.edges, g, (fuel - 1) as nat));
    }
}

/// What a breadth-first line holds: it starts with `start`, names no node
/// twice, names only nodes of the graph, and with a node it names every node
/// that the node has an edge to.
pub proof fn lemma_breadth_first(m: GraphModel, start: nat)
    requires
        m.wf(),
        start < m.nodes.len(),
    ensures
        breadth_first(m, start).len() > 0,
        breadth_first(m, start)[0] == start,
        breadth_first(m, start).no_duplicates(),
        forall|i: int|
            0 <= i < breadth_first(m, start).len() ==> (#[trigger] breadth_first(m, start)[i])
                < m.nodes.len(),
        forall|i: int, k: int|
            0 <= i < breadth_first(m, start).len() && 0 <= k < m.edges.len() && (
            #[trigger] m.edges[k]).0 == #[trigger] breadth_first(m, start)[i] ==> breadth_first(
                m,
                start,
            ).contains(m.edges[k].1),
{
    let f = Frontier::at(start);
    let out = Seq::<nat>::empty();
    assert(out + f.pending =~= seq![start]);
    assert forall|x: nat| #[trigger] f.seen.contains(x) <==> (out + f.pending).contains(x) by {
        if x == start {
            assert((out + f.pending)[0] == x);
        }
    }
    lemma_traverse(m, out, f, m.nodes.len());
    assert(out + breadth_first(m, start) =~= breadth_first(m, start));
}

/// A node without outgoing edges is alone on its line.
pub proof fn lemma_breadth_first_leaf(m: GraphModel, start: nat)
    requires
        m.wf(),
        start < m.nodes.len(),
        forall|k: int| 0 <= k < m.edges.len() ==> (#[trigger] m.edges[k]).0 != start,
    ensures
        breadth_first(m, start) == seq![start],
{
    lemma_breadth_first(m, start);
    let r = breadth_first(m, start);
    if r.len() > 1 {
        lemma_successors(m.edges, start);
        let succs = successors(m.edges, start);
        if succs.len() > 0 {
            assert(succs.contains(succs[0]));
            let k = choose|k: int| 0 <= k < m.edges.len() && m.edges[k] == (start, succs[0]);
            assert(m.edges[k].0 == start);
        }
        let f = Frontier::at(start);
        assert(f.advance(m.edges).pending =~= Seq::<nat>::empty());
        assert(traverse(m.edges, f.advance(m.edges), (m.nodes.len() - 1) as nat).len() == 0);
    }
    assert(r =~= seq![start]);
}

/// Whether an edge leads from node `i` of `path` to the next.
pub open spec fn hop(edges: Seq<(nat, nat)>, path: Seq<nat>, i: int) -> bool {
    edges.contains((path[i], path[i + 1]))
}

/// Whether `path` leads along edges from its first node to its last.
pub open spec fn is_path(edges: Seq<(nat, nat)>, path: Seq<nat>) -> bool {
    path.len() > 0 && forall|i: int| 0 <= i < path.len() - 1 ==> #[trigger] hop(edges, path, i)
}

/// Whether edges lead from `from` to `to`; every node reaches itself.
pub open spec fn reachable(edges: Seq<(nat, nat)>, from: nat, to: nat) -> bool {
    exists|path: Seq<nat>| #[trigger] is_path(edges, path) && path[0] == from && path.last() == to
}

/// A node reaches itself, and what it reaches reaches on along an edge.
pub proof fn lemma_reachable_step(edges: Seq<(nat, nat)>, from: nat, via: nat, to: nat)
    ensures
        reachable(edges, from, from),
        reachable(edges, from, via) && edges.contains((via, to)) ==> reachable(edges, from, to),
{
    let alone = seq![from];
    assert(is_path(edges, alone) && alone[0] == from && alone.last() == from);
    if reachable(edges, from, via) && edges.contains((via, to)) {
        let path = choose|path: Seq<nat>|
            #[trigger] is_path(edges, path) && path[0] == from && path.last() == via;
        let longer = path.push(to);
        assert forall|i: int| 0 <= i < longer.len() - 1 implies #[trigger] hop(
            edges,
            longer,
            i,
        ) by {
            if i < path.len() - 1 {
                assert(hop(edges, path, i));
                assert(longer[i] == path[i] && longer[i + 1] == path[i + 1]);
            } else {
                assert(longer[i] == via && longer[i + 1] == to);
            }
        }
        assert(is_path(edges, longer) && longer[0] == from && longer.last() == to);
    }
}

/// Discovering nodes that `start` reaches leaves only such nodes
/// discovered and pending.
pub proof fn lemma_discover_reachable(
    edges: Seq<(nat, nat)>,
    start: nat,
    f: Frontier,
    nodes: Seq<nat>,
)
    requires
        forall|x: nat| #[trigger] f.seen.contains(x) ==> reachable(edges, start, x),
        forall|i: int|
            0 <= i < f.pending.len() ==> reachable(edges, start, #[trigger] f.pending[i]),
        forall|i: int| 0 <= i < nodes.len() ==> reachable(edges, start, #[trigger] nodes[i]),
    ensures
        forall|x: nat| #[trigger]
            f.discover_all(nodes).seen.contains(x) ==> reachable(edges, start, x),
        forall|i: int|
            0 <= i < f.discover_all(nodes).pending.len() ==> reachable(
                edges,
                start,
                #[trigger] f.discover_all(nodes).pending[i],
            ),
    decreases nodes.len(),
{
    if nodes.len() > 0 {
        let g = f.discover(nodes[0]);
        let rest = nodes.drop_first();
        assert(reachable(edges, start, nodes[0]));
        assert forall|x: nat| #[trigger] g.seen.contains(x) implies reachable(edges, start, x) by {
            if !f.seen.contains(x) {
                assert(x == nodes[0]);
            }
        }
        assert forall|i: int| 0 <= i < g.pending.len() implies reachable(
            edges,
            start,
            #[trigger] g.pending[i],
        ) by {
            if i < f.pending.len() {
                assert(g.pending[i] == f.pending[i]);
            } else {
                assert(g.pending[i] == nodes[0]);
            }
        }
        assert forall|i: int| 0 <= i < rest.len() implies reachable(
            edges,
            start,
            #[trigger] rest[i],
        ) by {
            assert(rest[i] == nodes[i + 1]);
        }
        lemma_discover_reachable(edges, start, g, rest);
        assert(f.discover_all(nodes) == g.discover_all(rest));
    }
}

/// A traversal that has discovered only nodes that `start` reaches hands
/// out only such nodes.
pub proof fn lemma_traverse_reachable(edges: Seq<(nat, nat)>, start: nat, f: Frontier, fuel: nat)
    requires
        forall|x: nat| #[trigger] f.seen.contains(x) ==> reachable(edges, start, x),
        forall|i: int|
            0 <= i < f.pending.len() ==> reachable(edges, start, #[trigger] f.pending[i]),
    ensures
        forall|i: int|
            0 <= i < traverse(edges, f, fuel).len() ==> reachable(
                edges,
                start,
                #[trigger] traverse(edges, f, fuel)[i],
            ),
    decreases fuel,
{
    if fuel > 0 && f.pending.len() > 0 {
        let node = f.pending[0];
        let popped = Frontier { pending: f.pending.drop_first(), seen: f.seen };
        let succs = successors(edges, node);
        lemma_successors(edges, node);
        assert(reachable(edges, start, node));
        assert forall|i: int| 0 <= i < succs.len() implies reachable(
            edges,
            start,
            #[trigger] succs[i],
        ) by {
            assert(succs.contains(succs[i]));
            lemma_reachable_step(edges, start, node, succs[i]);
        }
        assert forall|i: int| 0 <= i < popped.pending.len() implies reachable(
            edges,
            start,
            #[trigger] popped.pending[i],
        ) by {
            assert(popped.pending[i] == f.pending[i + 1]);
        }
        lemma_discover_reachable(edges, start, popped, succs);
        lemma_traverse_reachable(edges, start, f.advance(edges), (fuel - 1) as nat);
        let rest = traverse(edges, f.advance(edges), (fuel - 1) as nat);
        let r = traverse(edges, f, fuel);
        assert forall|i: int| 0 <= i < r.len() implies reachable(edges, start, #[trigger] r[i]) by {
            if i > 0 {
                assert(r[i] == rest[i - 1]);
            }
        }
    }
}

/// Every node of a path from the start of a line is on the line.
proof fn lemma_path_on_line(m: GraphModel, start: nat, path: Seq<nat>, upto: int)
    requires
        m.wf(),
        start < m.nodes.len(),
        is_path(m.edges, path),
        path[0] == start,
        0 <= upto < path.len(),
    ensures
        breadth_first(m, start).contains(path[upto]),
    decreases upto,
{
    let r = breadth_first(m, start);
    lemma_breadth_first(m, start);
    if upto == 0 {
        assert(r[0] == start);
    } else {
        lemma_path_on_line(m, start, path, upto - 1);
        let i = choose|i: int| 0 <= i < r.len() && r[i] == path[upto - 1];
        assert(hop(m.edges, path, upto - 1));
        let k = choose|k: int|
            0 <= k < m.edges.len() && m.edges[k] == (path[upto - 1], path[upto]);
        assert(m.edges[k].0 == r[i]);
        assert(r.contains(m.edges[k].1));
    }
}

/// The closure of a node: a breadth-first line holds exactly the nodes that
/// its start reaches along the edges of the graph.
pub proof fn lemma_breadth_first_closure(m: GraphModel, start: nat, x: nat)
    requires
        m.wf(),
        start < m.nodes.len(),
    ensures
        breadth_first(m, start).contains(x) <==> reachable(m.edges, start, x),
{
    let r = breadth_first(m, start);
    let f = Frontier::at(start);
    lemma_reachable_step(m.edges, start, start, start);
    assert forall|i: int| 0 <= i < f.pending.len() implies reachable(
        m.edges,
        start,
        #[trigger] f.pending[i],
    ) by {}
    lemma_traverse_reachable(m.edges, start, f, m.nodes.len());
    if r.contains(x) {
        let i = choose|i: int| 0 <= i < r.len() && r[i] == x;
        assert(reachable(m.edges, start, r[i]));
    }
    if reachable(m.edges, start, x) {
        let path = choose|path: Seq<nat>|
            #[trigger] is_path(m.edges, path) && path[0] == start && path.last() == x;
        lemma_path_on_line(m, start, path, path.len() - 1);
    }
}

/// What a report line holds: it starts with the name of `start`, holds no
/// name twice, holds only names of nodes, and with a name it holds every
/// name that the name has a link to.
pub proof fn lemma_line_of(m: GraphModel, start: nat)
    requires
        m.wf(),
        start < m.nodes.len(),
    ensures
        line_of(m, start).len() > 0,
        line_of(m, start)[0] == m.nodes[start as int],
        line_of(m, start).no_duplicates(),
        forall|x: Seq<char>| #[trigger] line_of(m, start).contains(x) ==> m.has_node(x),
        forall|x: Seq<char>, y: Seq<char>|
            line_of(m, start).contains(x) && #[trigger] m.links(x, y) ==> line_of(
                m,
                start,
            ).contains(y),
{
    lemma_breadth_first(m, start);
    let ids = breadth_first(m, start);
    let line = line_of(m, start);
    assert forall|i: int, j: int|
        0 <= i < line.len() && 0 <= j < line.len() && i != j implies line[i] != line[j] by {
        assert(ids[i] < m.nodes.len() && ids[j] < m.nodes.len());
        assert(ids[i] != ids[j]);
    }
    assert forall|x: Seq<char>| #[trigger] line.contains(x) implies m.has_node(x) by {
        let i = choose|i: int| 0 <= i < line.len() && line[i] == x;
        assert(ids[i] < m.nodes.len());
        assert(m.nodes[ids[i] as int] == x);
    }
    assert forall|x: Seq<char>, y: Seq<char>|
        line.contains(x) && #[trigger] m.links(x, y) implies line.contains(y) by {
        let i = choose|i: int| 0 <= i < line.len() && line[i] == x;
        assert(ids[i] < m.nodes.len());
        lemma_node_id(m, ids[i]);
        let k = choose|k: int|
            0 <= k < m.edges.len() && m.edges[k] == (m.node_id(x), m.node_id(y));
        assert(m.edges[k].0 == ids[i]);
        assert(ids.contains(m.edges[k].1));
        let j = choose|j: int| 0 <= j < ids.len() && ids[j] == m.edges[k].1;
        assert(line[j] == m.nodes[ids[j] as int]);
        assert(m.nodes[m.node_id(y) as int] == y);
    }
}

/// The line of a node without links is the name of the node alone.
pub proof fn lemma_line_of_leaf(m: GraphModel, start: nat)
    requires
        m.wf(),
        start < m.nodes.len(),
        forall|y: Seq<char>| !#[trigger] m.links(m.nodes[start as int], y),
    ensures
        line_of(m, start) == seq![m.nodes[start as int]],
{
    assert forall|k: int| 0 <= k < m.edges.len() implies (#[trigger] m.edges[k]).0 != start by {
        lemma_edge_links(m, k);
    }
    lemma_breadth_first_leaf(m, start);
    assert(line_of(m, start) =~= seq![m.nodes[start as int]]);
}

/// Reports the packages reachable from the node `start`, in breadth-first
/// order. No node or edge is created.
pub fn closure_line(graph: &DependencyGraph, start: usize) -> (line: Vec<String>)
    requires
        graph.wf(),
        start < graph@.nodes.len(),
    ensures
        names(line@) == line_of(graph@, start as nat),
{
    let ghost m = graph@;
    let ghost n = m.nodes.len();
    let mut walk = graph.traversal(start);
    let mut line: Vec<String> = Vec::new();
    let ghost mut out: Seq<nat> = Seq::empty();
    proof {
        graph.lemma_wf();
        let f = Frontier::at(start as nat);
        assert(out + f.pending =~= seq![start as nat]);
        assert forall|x: nat| #[trigger] f.seen.contains(x) <==> (out + f.pending).contains(x) by {
            if x == start as nat {
                assert((out + f.pending)[0] == x);
            }
        }
        assert(out + traverse(m.edges, f, n) =~= breadth_first(m, start as nat));
    }
    loop
        invariant
            graph.wf(),
            m == graph@,
            m.wf(),
            n == m.nodes.len(),
            bfs_limit(walk) == n,
            tidy(m, out, bfs_frontier(walk)),
            out.len() == line@.len(),
            out.len() <= n,
            forall|i: int| 0 <= i < out.len() ==> (#[trigger] out[i]) < n,
            forall|i: int| 0 <= i < out.len() ==> (#[trigger] line@[i])@ == m.nodes[out[i] as int],
            out + traverse(m.edges, bfs_frontier(walk), (n - out.len()) as nat) == breadth_first(
                m,
                start as nat,
            ),
        decreases n - out.len(),
    {
        let ghost f = bfs_frontier(walk);
        proof {
            lemma_tidy_bounded(m, out, f);
        }
        match graph.traversal_next(&mut walk) {
            None => {
                proof {
                    assert(out =~= breadth_first(m, start as nat));
                    assert(names(line@) =~= line_of(m, start as nat));
                }
                return line;
            },
            Some(node) => {
                proof {
                    lemma_advance(m, out, f);
                    assert((out + f.pending)[out.len() as int] == node);
                    assert(out.push(node as nat) + traverse(
                        m.edges,
                        f.advance(m.edges),
                        (n - out.len() - 1) as nat,
                    ) =~= out + traverse(m.edges, f, (n - out.len()) as nat));
                    lemma_tidy_bounded(m, out.push(node as nat), f.advance(m.edges));
                }
                let ghost before = line@;
                let ghost handed = out;
                assert(node < n);
                line.push(graph.name(node).clone());
                proof {
                    out = out.push(node as nat);
                    assert forall|i: int| 0 <= i < out.len() implies (#[trigger] out[i]) < n by {
                        if i < handed.len() {
                            assert(out[i] == handed[i]);
                        }
                    }
                    assert forall|i: int| 0 <= i < out.len() implies (#[trigger] line@[i])@
                        == m.nodes[out[i] as int] by {
                        if i < handed.len() {
                            assert(line@[i] == before[i]);
                            assert(out[i] == handed[i]);
                        }
                    }
                }
            },
        }
    }
}

} // verus!
