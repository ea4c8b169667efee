//! The order in which a line names the dependents of its seed: why linking
//! dependents last to first makes a traversal meet them in index order.

use crate::expand::is_dependent;
use crate::expand::lemma_link;
use crate::expand::lemma_visit;
use crate::expand::lemma_visit_all;
use crate::expand::lemma_with_node_links;
use crate::graph::lemma_edge_links;
use crate::graph::lemma_with_edge;
use crate::graph::lemma_with_node;
use crate::graph::GraphModel;
use crate::index::IndexModel;
use crate::store::successors;
use crate::store::Frontier;
use crate::traversal::breadth_first;
use crate::traversal::lemma_advance;
use crate::traversal::lemma_discover_all;
use crate::traversal::lemma_successors;
use crate::traversal::lemma_tidy_bounded;
use crate::traversal::met;
use crate::traversal::tidy;
use crate::traversal::traverse;
use vstd::prelude::*;

verus! {

impl GraphModel {
    /// The names that the node of `name` has an edge to, most recently
    /// added edge first: the order in which a traversal meets them.
    pub open spec fn successor_names(self, name: Seq<char>) -> Seq<Seq<char>> {
        successors(self.edges, self.node_id(name)).map_values(|id: nat| self.nodes[id as int])
    }
}

/// One more edge is the first successor of its source and changes the
/// successors of no other node.
pub proof fn lemma_successors_push(edges: Seq<(nat, nat)>, from: nat, to: nat, node: nat)
    ensures
        successors(edges.push((from, to)), node) == if node == from {
            seq![to] + successors(edges, node)
        } else {
            successors(edges, node)
        },
{
    let more = edges.push((from, to));
    assert(more.drop_last() == edges);
    assert(more.last() == (from, to));
}

/// Every successor of a node of a well-formed graph is a node of the graph.
pub proof fn lemma_successors_exist(m: GraphModel, node: nat)
    requires
        m.wf(),
    ensures
        forall|i: int|
            0 <= i < successors(m.edges, node).len() ==> (#[trigger] successors(m.edges, node)[i])
                < m.nodes.len(),
{
    let s = successors(m.edges, node);
    lemma_successors(m.edges, node);
    assert forall|i: int| 0 <= i < s.len() implies (#[trigger] s[i]) < m.nodes.len() by {
        assert(s.contains(s[i]));
        let k = choose|k: int| 0 <= k < m.edges.len() && m.edges[k] == (node, s[i]);
        assert(m.edges[k].1 < m.nodes.len());
    }
}

/// A name without links has no successors.
pub proof fn lemma_no_links_no_successors(m: GraphModel, name: Seq<char>)
    requires
        m.wf(),
        m.has_node(name),
        forall|y: Seq<char>| !#[trigger] m.links(name, y),
    ensures
        successors(m.edges, m.node_id(name)).len() == 0,
        m.successor_names(name) == Seq::<Seq<char>>::empty(),
{
    let id = m.node_id(name);
    let s = successors(m.edges, id);
    lemma_successors(m.edges, id);
    if s.len() > 0 {
        assert(s.contains(s[0]));
        let k = choose|k: int| 0 <= k < m.edges.len() && m.edges[k] == (id, s[0]);
        lemma_edge_links(m, k);
        assert(m.nodes[id as int] == name);
    }
    assert(m.successor_names(name) =~= Seq::<Seq<char>>::empty());
}

/// Obtaining or creating a node changes the successors of no node that
/// existed.
pub proof fn lemma_with_node_successors(m: GraphModel, name: Seq<char>, x: Seq<char>)
    requires
        m.wf(),
        m.has_node(x),
    ensures
        m.with_node(name).successor_names(x) == m.successor_names(x),
{
    lemma_with_node(m, name);
    let g = m.with_node(name);
    let id = m.node_id(x);
    lemma_successors_exist(m, id);
    let s = successors(m.edges, id);
    assert forall|i: int| 0 <= i < s.len() implies g.nodes[s[i] as int] == m.nodes[s[i] as int] by {
        assert(s[i] < m.nodes.len());
    }
    assert(g.successor_names(x) =~= m.successor_names(x));
}

/// A new link is met first among the successors of its source, and changes
/// the successors of no other node that existed. A link that exists is not
/// added again.
pub proof fn lemma_link_successors(m: GraphModel, from: Seq<char>, to: Seq<char>)
    requires
        m.wf(),
        m.has_node(from),
    ensures
        m.links(from, to) ==> m.link(from, to) == m,
        !m.links(from, to) ==> m.link(from, to).successor_names(from) == seq![to]
            + m.successor_names(from),
        forall|x: Seq<char>|
            m.has_node(x) && x != from ==> #[trigger] m.link(from, to).successor_names(x)
                == m.successor_names(x),
{
    lemma_with_node(m, to);
    lemma_link(m, from, to);
    let g = m.with_node(to);
    let a = g.node_id(from);
    let b = g.node_id(to);
    let h = m.link(from, to);
    lemma_with_node(g, from);
    lemma_with_edge(g, a, b);
    if m.links(from, to) {
        assert(g == m);
        assert(h == m);
    } else {
        if m.has_node(to) {
            assert(!g.has_edge(a, b));
        } else {
            if g.has_edge(a, b) {
                let k = choose|k: int| 0 <= k < m.edges.len() && m.edges[k] == (a, b);
                assert(m.edges[k].1 < m.nodes.len());
            }
        }
        assert(h.edges == g.edges.push((a, b)));
        assert(h.nodes == g.nodes);
        lemma_successors_push(g.edges, a, b, a);
        lemma_with_node_successors(m, to, from);
        assert(g.nodes[b as int] == to);
        assert(h.successor_names(from) =~= seq![to] + g.successor_names(from));
    }
    assert forall|x: Seq<char>| m.has_node(x) && x != from implies #[trigger] h.successor_names(x)
        == m.successor_names(x) by {
        lemma_with_node_successors(m, to, x);
        if !m.links(from, to) {
            let c = g.node_id(x);
            assert(g.nodes[c as int] == x);
            assert(g.nodes[a as int] == from);
            lemma_successors_push(g.edges, a, b, c);
            assert(h.successor_names(x) =~= g.successor_names(x));
        }
    }
}

/// Linking a list of names that are new to `from` and distinct: the list
/// is met first, in its own order, among the successors of `from`, and the
/// successors of no other node that existed change.
pub proof fn lemma_link_all_successors(m: GraphModel, from: Seq<char>, deps: Seq<Seq<char>>)
    requires
        m.wf(),
        m.has_node(from),
        deps.no_duplicates(),
        forall|j: int| 0 <= j < deps.len() ==> !m.links(from, #[trigger] deps[j]),
    ensures
        m.link_all(from, deps).successor_names(from) == deps + m.successor_names(from),
        forall|x: Seq<char>|
            m.has_node(x) && x != from ==> #[trigger] m.link_all(from, deps).successor_names(x)
                == m.successor_names(x),
    decreases deps.len(),
{
    if deps.len() == 0 {
        assert(deps + m.successor_names(from) =~= m.successor_names(from));
    } else {
        let front = deps.drop_last();
        let last = deps.last();
        let g = m.link(from, last);
        lemma_link(m, from, last);
        lemma_link_successors(m, from, last);
        assert(!m.links(from, deps[deps.len() - 1]));
        assert forall|j: int| 0 <= j < front.len() implies !g.links(from, #[trigger] front[j]) by {
            assert(front[j] == deps[j]);
            assert(!m.links(from, deps[j]));
        }
        assert(front.no_duplicates()) by {
            assert forall|i: int, j: int|
                0 <= i < front.len() && 0 <= j < front.len() && i != j implies front[i]
                != front[j] by {
                assert(front[i] == deps[i] && front[j] == deps[j]);
            }
        }
        lemma_link_all_successors(g, from, front);
        let h = m.link_all(from, deps);
        assert(h.successor_names(from) =~= deps + m.successor_names(from)) by {
            assert(front + (seq![last] + m.successor_names(from)) =~= deps + m.successor_names(
                from,
            ));
        }
        assert forall|x: Seq<char>| m.has_node(x) && x != from implies #[trigger] h.successor_names(
            x,
        ) == m.successor_names(x) by {
            assert(g.has_node(x));
            assert(g.successor_names(x) == m.successor_names(x));
        }
    }
}

/// Linking names that are all linked already changes nothing.
pub proof fn lemma_link_all_again(m: GraphModel, from: Seq<char>, deps: Seq<Seq<char>>)
    requires
        m.wf(),
        m.has_node(from),
        forall|j: int| 0 <= j < deps.len() ==> m.links(from, #[trigger] deps[j]),
    ensures
        m.link_all(from, deps) == m,
    decreases deps.len(),
{
    if deps.len() > 0 {
        let front = deps.drop_last();
        assert(m.links(from, deps[deps.len() - 1]));
        lemma_link_successors(m, from, deps.last());
        assert forall|j: int| 0 <= j < front.len() implies m.links(from, #[trigger] front[j]) by {
            assert(front[j] == deps[j]);
        }
        lemma_link_all_again(m, from, front);
    }
}

/// Processing a name changes the successors of no other node that existed.
pub proof fn lemma_visit_keeps_successors(
    m: GraphModel,
    index: IndexModel,
    cur: Seq<char>,
    x: Seq<char>,
)
    requires
        m.wf(),
        m.has_node(x),
        x != cur,
    ensures
        m.visit(index, cur).successor_names(x) == m.successor_names(x),
{
    lemma_with_node(m, cur);
    lemma_with_node_successors(m, cur, x);
    let g = m.with_node(cur);
    if index.contains_key(cur) {
        lemma_link_all_keeps(g, cur, index[cur], x);
    }
}

/// Linking from `from` changes the successors of no other node that existed.
pub proof fn lemma_link_all_keeps(
    m: GraphModel,
    from: Seq<char>,
    deps: Seq<Seq<char>>,
    x: Seq<char>,
)
    requires
        m.wf(),
        m.has_node(from),
        m.has_node(x),
        x != from,
    ensures
        m.link_all(from, deps).successor_names(x) == m.successor_names(x),
    decreases deps.len(),
{
    if deps.len() > 0 {
        let g = m.link(from, deps.last());
        lemma_link(m, from, deps.last());
        lemma_link_successors(m, from, deps.last());
        assert(g.has_node(x));
        lemma_link_all_keeps(g, from, deps.drop_last(), x);
    }
}

/// After any names left the worklist, a processed name whose entry lists no
/// name twice has its entry as its successors, in index order.
pub proof fn lemma_visit_all_successors(index: IndexModel, curs: Seq<Seq<char>>, c: Seq<char>)
    requires
        curs.contains(c),
        index.contains_key(c),
        index[c].no_duplicates(),
    ensures
        GraphModel::empty().visit_all(index, curs).successor_names(c) == index[c],
    decreases curs.len(),
{
    let start = GraphModel::empty();
    let front = curs.drop_last();
    let last = curs.last();
    let prev = start.visit_all(index, front);
    let done = start.visit_all(index, curs);
    lemma_visit_all(start, index, front);
    lemma_visit(prev, index, last);
    assert(!start.has_node(c));
    if front.contains(c) {
        lemma_visit_all_successors(index, front, c);
        assert(prev.has_node(c));
        if last == c {
            lemma_with_node(prev, c);
            assert(prev.with_node(c) == prev);
            assert forall|j: int| 0 <= j < index[c].len() implies prev.links(
                c,
                #[trigger] index[c][j],
            ) by {
                assert(index[c].contains(index[c][j]));
                assert(is_dependent(index, c, index[c][j]));
            }
            lemma_link_all_again(prev, c, index[c]);
        } else {
            lemma_visit_keeps_successors(prev, index, last, c);
        }
    } else {
        let i = choose|i: int| 0 <= i < curs.len() && curs[i] == c;
        if i < front.len() {
            assert(front[i] == c);
        }
        assert(last == c);
        lemma_with_node(prev, c);
        let g = prev.with_node(c);
        lemma_with_node_links(prev, c);
        assert forall|y: Seq<char>| !#[trigger] g.links(c, y) by {
            assert(!prev.links(c, y));
        }
        lemma_no_links_no_successors(g, c);
        assert forall|j: int| 0 <= j < index[c].len() implies !g.links(
            c,
            #[trigger] index[c][j],
        ) by {}
        lemma_link_all_successors(g, c, index[c]);
        assert(index[c] + g.successor_names(c) =~= index[c]);
    }
}

/// Discovering distinct nodes, none of them discovered before, queues all
/// of them in their order.
pub proof fn lemma_discover_new(f: Frontier, nodes: Seq<nat>)
    requires
        nodes.no_duplicates(),
        forall|i: int| 0 <= i < nodes.len() ==> !f.seen.contains(#[trigger] nodes[i]),
    ensures
        f.discover_all(nodes).pending == f.pending + nodes,
    decreases nodes.len(),
{
    if nodes.len() == 0 {
        assert(f.pending + nodes =~= f.pending);
    } else {
        let g = f.discover(nodes[0]);
        let rest = nodes.drop_first();
        assert(!f.seen.contains(nodes[0]));
        assert forall|i: int| 0 <= i < rest.len() implies !g.seen.contains(#[trigger] rest[i]) by {
            assert(rest[i] == nodes[i + 1]);
            assert(!f.seen.contains(nodes[i + 1]));
        }
        assert(rest.no_duplicates()) by {
            assert forall|i: int, j: int|
                0 <= i < rest.len() && 0 <= j < rest.len() && i != j implies rest[i]
                != rest[j] by {
                assert(rest[i] == nodes[i + 1] && rest[j] == nodes[j + 1]);
            }
        }
        lemma_discover_new(g, rest);
        assert(g.pending + rest =~= f.pending + nodes);
    }
}

/// A traversal hands out what is pending before anything that it discovers
/// later.
pub proof fn lemma_traverse_pending_first(m: GraphModel, out: Seq<nat>, f: Frontier, fuel: nat)
    requires
        m.wf(),
        tidy(m, out, f),
        out.len() + fuel >= m.nodes.len(),
    ensures
        traverse(m.edges, f, fuel).len() >= f.pending.len(),
        traverse(m.edges, f, fuel).take(f.pending.len() as int) == f.pending,
    decreases fuel,
{
    lemma_tidy_bounded(m, out, f);
    let r = traverse(m.edges, f, fuel);
    if f.pending.len() == 0 {
        assert(r.take(0) =~= f.pending);
    } else {
        let node = f.pending[0];
        let g = f.advance(m.edges);
        let popped = Frontier { pending: f.pending.drop_first(), seen: f.seen };
        let succs = successors(m.edges, node);
        lemma_advance(m, out, f);
        lemma_successors_exist(m, node);
        assert(out.push(node) + popped.pending =~= out + f.pending);
        assert(met(out.push(node), popped));
        lemma_discover_all(m, out.push(node), popped, succs);
        lemma_traverse_pending_first(m, out.push(node), g, (fuel - 1) as nat);
        let rest = traverse(m.edges, g, (fuel - 1) as nat);
        assert(r == seq![node] + rest);
        assert forall|i: int| 0 <= i < f.pending.len() implies r[i] == f.pending[i] by {
            if i > 0 {
                assert(rest.take(g.pending.len() as int)[i - 1] == g.pending[i - 1]);
                assert(g.pending.take(popped.pending.len() as int)[i - 1] == popped.pending[i - 1]);
            }
        }
        assert(r.take(f.pending.len() as int) =~= f.pending);
    }
}

/// A line starts with its node followed by the successors of the node in
/// their order, where no successor is listed twice and the node is no
/// successor of itself.
pub proof fn lemma_breadth_first_starts(m: GraphModel, start: nat)
    requires
        m.wf(),
        start < m.nodes.len(),
        successors(m.edges, start).no_duplicates(),
        !successors(m.edges, start).contains(start),
    ensures
        breadth_first(m, start).len() >= 1 + successors(m.edges, start).len(),
        breadth_first(m, start).take(1 + successors(m.edges, start).len() as int) == seq![start]
            + successors(m.edges, start),
{
    let f = Frontier::at(start);
    let none = Seq::<nat>::empty();
    let succs = successors(m.edges, start);
    let popped = Frontier { pending: f.pending.drop_first(), seen: f.seen };
    let g = f.advance(m.edges);
    assert(none + f.pending =~= seq![start]);
    assert forall|x: nat| #[trigger] f.seen.contains(x) <==> (none + f.pending).contains(x) by {
        if x == start {
            assert((none + f.pending)[0] == x);
        }
    }
    assert(tidy(m, none, f));
    lemma_advance(m, none, f);
    assert forall|i: int| 0 <= i < succs.len() implies !popped.seen.contains(
        #[trigger] succs[i],
    ) by {
        assert(succs.contains(succs[i]));
    }
    lemma_discover_new(popped, succs);
    assert(g.pending =~= succs);
    lemma_traverse_pending_first(m, none.push(start), g, (m.nodes.len() - 1) as nat);
    let rest = traverse(m.edges, g, (m.nodes.len() - 1) as nat);
    let r = breadth_first(m, start);
    assert(r == seq![start] + rest);
    assert forall|i: int| 0 <= i < 1 + succs.len() implies r[i] == (seq![start] + succs)[i] by {
        if i > 0 {
            assert(rest.take(g.pending.len() as int)[i - 1] == g.pending[i - 1]);
        }
    }
    assert(r.take(1 + succs.len() as int) =~= seq![start] + succs);
}

} // verus!
