//! The closure expansion engine: a first-in-first-out worklist that starts
//! from the seeds and links every processed package to its dependents.

use crate::corpus::names;
use crate::graph::lemma_links_kept;
use crate::graph::lemma_with_edge;
use crate::graph::lemma_with_node;
use crate::graph::DependencyGraph;
use crate::graph::GraphModel;
use crate::index::IndexModel;
use crate::index::ReverseIndex;
use std::collections::VecDeque;
use vstd::hash_set::StringHashSet;
use vstd::prelude::*;

verus! {

impl GraphModel {
    /// The graph after `to` was obtained or created and linked from `from`.
    pub open spec fn link(self, from: Seq<char>, to: Seq<char>) -> GraphModel {
        let g = self.with_node(to);
        g.with_edge(g.node_id(from), g.node_id(to))
    }

    /// The graph after every name of `deps` was linked from `from`, the
    /// last name first. A traversal walks the edges of a node from the most
    /// recently added one, so it meets the dependents in the order of `deps`;
    /// a name that `deps` lists more than once is met where it is listed
    /// last.
    pub open spec fn link_all(self, from: Seq<char>, deps: Seq<Seq<char>>) -> GraphModel
        decreases deps.len(),
    {
        if deps.len() == 0 {
            self
        } else {
            self.link(from, deps.last()).link_all(from, deps.drop_last())
        }
    }

    /// The graph after `cur` left the worklist: `cur` has a node, and where
    /// the index has an entry for it, each of its dependents has a node and
    /// an edge from `cur`.
    pub open spec fn visit(self, index: IndexModel, cur: Seq<char>) -> GraphModel {
        let g = self.with_node(cur);
        if index.contains_key(cur) {
            g.link_all(cur, index[cur])
        } else {
            g
        }
    }

    /// The graph after every name of `curs`, in order, left the worklist.
    pub open spec fn visit_all(
        self,
        index: IndexModel,
        curs: Seq<Seq<char>>,
    ) -> GraphModel
        decreases curs.len(),
    {
        if curs.len() == 0 {
            self
        } else {
            self.visit_all(index, curs.drop_last()).visit(index, curs.last())
        }
    }
}

/// The discovered set after the names of `processed` left the worklist:
/// every name that is a dependent of one of them. A name is discovered the
/// moment it is produced as someone's dependent, not when it is expanded.
pub open spec fn discovered(index: IndexModel, processed: Seq<Seq<char>>) -> Set<
    Seq<char>,
>
    decreases processed.len(),
{
    if processed.len() == 0 {
        Set::empty()
    } else if index.contains_key(processed.last()) {
        discovered(index, processed.drop_last()) + index[processed.last()].to_set()
    } else {
        discovered(index, processed.drop_last())
    }
}

/// The expansion guard of the seed at position `i`: the seed has an entry
/// and is no dependent of a seed before it.
pub open spec fn guard_open(
    index: IndexModel,
    seeds: Seq<Seq<char>>,
    i: int,
) -> bool {
    index.contains_key(seeds[i]) && !discovered(index, seeds.take(i)).contains(seeds[i])
}

/// What the first `i` seeds put on the worklist behind the seeds: the
/// dependents of each seed whose guard is open.
pub open spec fn enqueued(index: IndexModel, seeds: Seq<Seq<char>>, i: int) -> Seq<
    Seq<char>,
>
    decreases i,
{
    if i <= 0 {
        Seq::empty()
    } else if guard_open(index, seeds, i - 1) {
        enqueued(index, seeds, i - 1) + index[seeds[i - 1]]
    } else {
        enqueued(index, seeds, i - 1)
    }
}

/// Every name that leaves the worklist, in order: the seeds, then the
/// dependents of each seed whose guard is open. The guard is closed for
/// every name behind the seeds, so nothing is put on the worklist for them.
pub open spec fn worklist(index: IndexModel, seeds: Seq<Seq<char>>) -> Seq<
    Seq<char>,
> {
    seeds + enqueued(index, seeds, seeds.len() as int)
}

/// The graph that expansion builds from `seeds` over `index`.
pub open spec fn expansion(index: IndexModel, seeds: Seq<Seq<char>>) -> GraphModel {
    GraphModel::empty().visit_all(index, worklist(index, seeds))
}

/// Whether `name` is listed as a dependent of `of`.
pub open spec fn is_dependent(
    index: IndexModel,
    of: Seq<char>,
    name: Seq<char>,
) -> bool {
    index.contains_key(of) && index[of].contains(name)
}

/// Whether `name` is listed as a dependent of one of `curs`.
pub open spec fn is_dependent_of_any(
    index: IndexModel,
    curs: Seq<Seq<char>>,
    name: Seq<char>,
) -> bool {
    exists|i: int| 0 <= i < curs.len() && is_dependent(index, #[trigger] curs[i], name)
}

/// Obtaining or creating a node changes no link.
pub proof fn lemma_with_node_links(m: GraphModel, name: Seq<char>)
    requires
        m.wf(),
    ensures
        forall|x: Seq<char>, y: Seq<char>| #[trigger]
            m.with_node(name).links(x, y) <==> m.links(x, y),
{
    lemma_with_node(m, name);
    let g = m.with_node(name);
    assert(g.nodes.take(m.nodes.len() as int) =~= m.nodes);
    lemma_links_kept(m, g);
}

/// Linking keeps the graph well formed, adds the node of `to` and the link
/// from `from` to `to`, and nothing else.
pub proof fn lemma_link(m: GraphModel, from: Seq<char>, to: Seq<char>)
    requires
        m.wf(),
        m.has_node(from),
    ensures
        m.link(from, to).wf(),
        m.link(from, to).has_node(from),
        m.link(from, to).node_id(from) == m.node_id(from),
        m.link(from, to).nodes == m.with_node(to).nodes,
        forall|x: Seq<char>| #[trigger]
            m.link(from, to).has_node(x) <==> m.has_node(x) || x == to,
        forall|x: Seq<char>, y: Seq<char>| #[trigger]
            m.link(from, to).links(x, y) <==> m.links(x, y) || (x == from && y == to),
{
    lemma_with_node(m, to);
    lemma_with_node_links(m, to);
    let g = m.with_node(to);
    assert(g.has_node(from));
    lemma_with_node(g, from);
    let a = g.node_id(from);
    let b = g.node_id(to);
    lemma_with_edge(g, a, b);
    let h = m.link(from, to);
    assert forall|x: Seq<char>, y: Seq<char>| #[trigger] h.links(x, y) <==> m.links(x, y) || (x
        == from && y == to) by {
        if h.links(x, y) {
            if g.has_edge(h.node_id(x), h.node_id(y)) {
                assert(g.links(x, y));
            } else {
                assert(h.nodes[a as int] == from);
                assert(h.nodes[b as int] == to);
            }
        }
        if m.links(x, y) {
            assert(g.links(x, y));
        }
    }
}

/// Linking a list keeps the graph well formed, adds the nodes of the list
/// and the links from `from` to each name of the list, and nothing else.
pub proof fn lemma_link_all(m: GraphModel, from: Seq<char>, deps: Seq<Seq<char>>)
    requires
        m.wf(),
        m.has_node(from),
    ensures
        m.link_all(from, deps).wf(),
        m.link_all(from, deps).has_node(from),
        m.link_all(from, deps).node_id(from) == m.node_id(from),
        forall|x: Seq<char>| #[trigger]
            m.link_all(from, deps).has_node(x) <==> m.has_node(x) || deps.contains(x),
        forall|x: Seq<char>, y: Seq<char>| #[trigger]
            m.link_all(from, deps).links(x, y) <==> m.links(x, y) || (x == from && deps.contains(
                y,
            )),
    decreases deps.len(),
{
    if deps.len() > 0 {
        let front = deps.drop_last();
        let last = deps.last();
        lemma_link(m, from, last);
        let g = m.link(from, last);
        lemma_link_all(g, from, front);
        let h = m.link_all(from, deps);
        assert forall|x: Seq<char>| deps.contains(x) <==> front.contains(x) || x == last by {
            if front.contains(x) {
                let i = choose|i: int| 0 <= i < front.len() && front[i] == x;
                assert(deps[i] == x);
            }
            if x == last {
                assert(deps[deps.len() - 1] == x);
            }
            if deps.contains(x) {
                let i = choose|i: int| 0 <= i < deps.len() && deps[i] == x;
                if i < front.len() {
                    assert(front[i] == x);
                }
            }
        }
        assert forall|x: Seq<char>| #[trigger] h.has_node(x) <==> m.has_node(x) || deps.contains(
            x,
        ) by {
            assert(h.has_node(x) <==> g.has_node(x) || front.contains(x));
            assert(g.has_node(x) <==> m.has_node(x) || x == last);
        }
        assert forall|x: Seq<char>, y: Seq<char>| #[trigger] h.links(x, y) <==> m.links(x, y) || (x
            == from && deps.contains(y)) by {
            assert(h.links(x, y) <==> g.links(x, y) || (x == from && front.contains(y)));
            assert(g.links(x, y) <==> m.links(x, y) || (x == from && y == last));
        }
    }
}

/// Processing a name keeps the graph well formed, adds the node of the name
/// and, for each of its listed dependents, a node and a link from the name,
/// and nothing else.
pub proof fn lemma_visit(m: GraphModel, index: IndexModel, cur: Seq<char>)
    requires
        m.wf(),
    ensures
        m.visit(index, cur).wf(),
        forall|x: Seq<char>| #[trigger]
            m.visit(index, cur).has_node(x) <==> m.has_node(x) || x == cur || is_dependent(
                index,
                cur,
                x,
            ),
        forall|x: Seq<char>, y: Seq<char>| #[trigger]
            m.visit(index, cur).links(x, y) <==> m.links(x, y) || (x == cur && is_dependent(
                index,
                cur,
                y,
            )),
{
    lemma_with_node(m, cur);
    lemma_with_node_links(m, cur);
    let g = m.with_node(cur);
    let h = m.visit(index, cur);
    if index.contains_key(cur) {
        lemma_link_all(g, cur, index[cur]);
    }
    assert forall|x: Seq<char>| #[trigger] h.has_node(x) <==> m.has_node(x) || x == cur
        || is_dependent(index, cur, x) by {
        assert(g.has_node(x) <==> m.has_node(x) || x == cur);
    }
    assert forall|x: Seq<char>, y: Seq<char>| #[trigger] h.links(x, y) <==> m.links(x, y) || (x
        == cur && is_dependent(index, cur, y)) by {
        assert(g.links(x, y) <==> m.links(x, y));
    }
}

/// Processing a list of names keeps the graph well formed. Afterwards the
/// nodes are those from before, the names of the list and their listed
/// dependents, and the links are those from before and one from each name
/// of the list to each of its listed dependents.
pub proof fn lemma_visit_all(
    m: GraphModel,
    index: IndexModel,
    curs: Seq<Seq<char>>,
)
    requires
        m.wf(),
    ensures
        m.visit_all(index, curs).wf(),
        forall|x: Seq<char>| #[trigger]
            m.visit_all(index, curs).has_node(x) <==> m.has_node(x) || curs.contains(x)
                || is_dependent_of_any(index, curs, x),
        forall|x: Seq<char>, y: Seq<char>| #[trigger]
            m.visit_all(index, curs).links(x, y) <==> m.links(x, y) || (curs.contains(x)
                && is_dependent(index, x, y)),
    decreases curs.len(),
{
    if curs.len() > 0 {
        let front = curs.drop_last();
        let last = curs.last();
        lemma_visit_all(m, index, front);
        let g = m.visit_all(index, front);
        lemma_visit(g, index, last);
        let h = m.visit_all(index, curs);
        assert forall|x: Seq<char>| curs.contains(x) <==> front.contains(x) || x == last by {
            if front.contains(x) {
                let i = choose|i: int| 0 <= i < front.len() && front[i] == x;
                assert(curs[i] == x);
            }
            if x == last {
                assert(curs[curs.len() - 1] == x);
            }
            if curs.contains(x) {
                let i = choose|i: int| 0 <= i < curs.len() && curs[i] == x;
                if i < front.len() {
                    assert(front[i] == x);
                }
            }
        }
        assert forall|x: Seq<char>| is_dependent_of_any(index, curs, x) <==> is_dependent_of_any(
            index,
            front,
            x,
        ) || is_dependent(index, last, x) by {
            if is_dependent_of_any(index, front, x) {
                let i = choose|i: int|
                    0 <= i < front.len() && is_dependent(index, #[trigger] front[i], x);
                assert(curs[i] == front[i]);
            }
            if is_dependent(index, last, x) {
                assert(curs[curs.len() - 1] == last);
            }
            if is_dependent_of_any(index, curs, x) {
                let i = choose|i: int|
                    0 <= i < curs.len() && is_dependent(index, #[trigger] curs[i], x);
                if i < front.len() {
                    assert(front[i] == curs[i]);
                }
            }
        }
        assert forall|x: Seq<char>| #[trigger] h.has_node(x) <==> m.has_node(x) || curs.contains(x)
            || is_dependent_of_any(index, curs, x) by {
            assert(g.has_node(x) <==> m.has_node(x) || front.contains(x) || is_dependent_of_any(
                index,
                front,
                x,
            ));
            assert(h.has_node(x) <==> g.has_node(x) || x == last || is_dependent(index, last, x));
        }
        assert forall|x: Seq<char>, y: Seq<char>| #[trigger] h.links(x, y) <==> m.links(x, y) || (
        curs.contains(x) && is_dependent(index, x, y)) by {
            assert(g.links(x, y) <==> m.links(x, y) || (front.contains(x) && is_dependent(
                index,
                x,
                y,
            )));
            assert(h.links(x, y) <==> g.links(x, y) || (x == last && is_dependent(index, last, y)));
        }
    }
}

/// What the first `i` seeds put on the worklist: the listed dependents of
/// those among them whose guard is open.
pub proof fn lemma_enqueued(index: IndexModel, seeds: Seq<Seq<char>>, i: int)
    requires
        0 <= i <= seeds.len(),
    ensures
        forall|x: Seq<char>| #[trigger]
            enqueued(index, seeds, i).contains(x) <==> exists|j: int|
                0 <= j < i && #[trigger] guard_open(index, seeds, j) && index[seeds[j]].contains(x),
    decreases i,
{
    if i > 0 {
        lemma_enqueued(index, seeds, i - 1);
        let before = enqueued(index, seeds, i - 1);
        let now = enqueued(index, seeds, i);
        assert forall|x: Seq<char>| #[trigger] now.contains(x) <==> exists|j: int|
            0 <= j < i && #[trigger] guard_open(index, seeds, j) && index[seeds[j]].contains(
                x,
            ) by {
            let added = index[seeds[i - 1]];
            if now.contains(x) {
                let k = choose|k: int| 0 <= k < now.len() && now[k] == x;
                if guard_open(index, seeds, i - 1) {
                    if k < before.len() {
                        assert(before[k] == x);
                        assert(before.contains(x));
                    } else {
                        assert(added[k - before.len()] == x);
                        assert(added.contains(x));
                        assert(guard_open(index, seeds, i - 1) && index[seeds[i - 1]].contains(x));
                    }
                } else {
                    assert(before.contains(x));
                }
                if before.contains(x) {
                    let j = choose|j: int|
                        0 <= j < i - 1 && #[trigger] guard_open(index, seeds, j)
                            && index[seeds[j]].contains(x);
                    assert(0 <= j < i && guard_open(index, seeds, j));
                    assert(index[seeds[j]].contains(x));
                }
            }
            if exists|j: int|
                0 <= j < i && #[trigger] guard_open(index, seeds, j) && index[seeds[j]].contains(
                    x,
                ) {
                let j = choose|j: int|
                    0 <= j < i && #[trigger] guard_open(index, seeds, j)
                        && index[seeds[j]].contains(x);
                if j < i - 1 {
                    assert(before.contains(x));
                    let k = choose|k: int| 0 <= k < before.len() && before[k] == x;
                    assert(now[k] == x);
                } else {
                    let k = choose|k: int| 0 <= k < added.len() && added[k] == x;
                    assert(now[before.len() + k] == x);
                }
            }
        }
    }
}

/// What expansion builds. The graph is well formed. Its nodes are the names
/// that leave the worklist and their listed dependents. Its links lead from
/// each name that leaves the worklist to each of its listed dependents. The
/// names that leave the worklist are the seeds and the listed dependents of
/// the seeds whose guard is open; every seed has a node.
pub proof fn lemma_expansion(index: IndexModel, seeds: Seq<Seq<char>>)
    ensures
        expansion(index, seeds).wf(),
        forall|x: Seq<char>| #[trigger]
            expansion(index, seeds).has_node(x) <==> worklist(index, seeds).contains(x)
                || is_dependent_of_any(index, worklist(index, seeds), x),
        forall|x: Seq<char>, y: Seq<char>| #[trigger]
            expansion(index, seeds).links(x, y) <==> worklist(index, seeds).contains(x)
                && is_dependent(index, x, y),
        forall|x: Seq<char>| #[trigger]
            worklist(index, seeds).contains(x) <==> seeds.contains(x) || exists|j: int|
                0 <= j < seeds.len() && #[trigger] guard_open(index, seeds, j)
                    && index[seeds[j]].contains(x),
        forall|i: int|
            0 <= i < seeds.len() ==> expansion(index, seeds).has_node(#[trigger] seeds[i]),
{
    let w = worklist(index, seeds);
    let e = enqueued(index, seeds, seeds.len() as int);
    lemma_visit_all(GraphModel::empty(), index, w);
    lemma_enqueued(index, seeds, seeds.len() as int);
    assert forall|x: Seq<char>| #[trigger] w.contains(x) <==> seeds.contains(x) || e.contains(
        x,
    ) by {
        if seeds.contains(x) {
            let i = choose|i: int| 0 <= i < seeds.len() && seeds[i] == x;
            assert(w[i] == x);
        }
        if e.contains(x) {
            let i = choose|i: int| 0 <= i < e.len() && e[i] == x;
            assert(w[seeds.len() + i] == x);
        }
        if w.contains(x) {
            let i = choose|i: int| 0 <= i < w.len() && w[i] == x;
            if i < seeds.len() {
                assert(seeds[i] == x);
            } else {
                assert(e[i - seeds.len()] == x);
            }
        }
    }
    assert forall|i: int| 0 <= i < seeds.len() implies expansion(index, seeds).has_node(
        #[trigger] seeds[i],
    ) by {
        assert(seeds.contains(seeds[i]));
    }
}

/// The discovered set only grows: what was discovered after a prefix of the
/// processed names left the worklist stays discovered, and the dependents of
/// a processed name with an entry are discovered once it has left.
pub proof fn lemma_discovered_grows(index: IndexModel, processed: Seq<Seq<char>>, a: int, b: int)
    requires
        0 <= a <= b <= processed.len(),
    ensures
        discovered(index, processed.take(a)).subset_of(discovered(index, processed.take(b))),
        forall|x: Seq<char>|
            a < b && #[trigger] is_dependent(index, processed[a], x) ==> discovered(
                index,
                processed.take(b),
            ).contains(x),
    decreases b - a,
{
    if a < b {
        lemma_discovered_grows(index, processed, a, b - 1);
        assert(processed.take(b).drop_last() == processed.take(b - 1));
        assert(processed.take(b).last() == processed[b - 1]);
    }
}

/// Puts the names of `deps`, in order, on the back of the worklist.
fn enqueue_all(queue: &mut VecDeque<String>, deps: &Vec<String>)
    ensures
        names(final(queue)@) == names(old(queue)@) + names(deps@),
{
    let mut m: usize = 0;
    assert(names(queue@) =~= names(old(queue)@) + names(deps@).take(0));
    while m < deps.len()
        invariant
            m <= deps.len(),
            names(queue@) == names(old(queue)@) + names(deps@).take(m as int),
        decreases deps.len() - m,
    {
        let ghost before = names(queue@);
        queue.push_back(deps[m].clone());
        assert(names(queue@) =~= before.push(deps@[m as int]@));
        assert(before.push(deps@[m as int]@) =~= names(old(queue)@) + names(deps@).take(
            m as int + 1,
        ));
        m = m + 1;
    }
    assert(names(deps@).take(deps@.len() as int) == names(deps@));
}

/// Gives every dependent a node and an edge from the node of `cur`, which
/// is `root`. Nodes and edges that exist are left alone. The dependents
/// are linked last to first, so that a traversal reports them in index
/// order.
fn link_dependents(graph: &mut DependencyGraph, root: usize, deps: &Vec<String>, Ghost(cur): Ghost<
    Seq<char>,
>)
    requires
        old(graph).wf(),
        old(graph)@.has_node(cur),
        old(graph)@.node_id(cur) == root,
    ensures
        final(graph).wf(),
        final(graph)@ == old(graph)@.link_all(cur, names(deps@)),
{
    let ghost start = graph@;
    let ghost all = names(deps@);
    let mut m: usize = deps.len();
    proof {
        graph.lemma_wf();
        assert(all.take(m as int) == all);
    }
    while m > 0
        invariant
            m <= deps.len(),
            all == names(deps@),
            graph.wf(),
            graph@.has_node(cur),
            graph@.node_id(cur) == root,
            graph@.link_all(cur, all.take(m as int)) == start.link_all(cur, all),
        decreases m,
    {
        m = m - 1;
        proof {
            graph.lemma_wf();
            lemma_link(graph@, cur, all[m as int]);
            lemma_with_node(graph@, all[m as int]);
            lemma_with_node(graph@.with_node(all[m as int]), cur);
            assert(all.take(m as int + 1).drop_last() == all.take(m as int));
            assert(all.take(m as int + 1).last() == deps@[m as int]@);
        }
        let id = graph.node_or_insert(&deps[m]);
        graph.connect(root, id);
    }
}

/// Adds every dependent to the discovered set.
fn discover_all(seen: &mut StringHashSet, deps: &Vec<String>)
    ensures
        final(seen)@ == old(seen)@ + names(deps@).to_set(),
{
    let mut m: usize = 0;
    assert(seen@ =~= old(seen)@ + names(deps@).take(0).to_set());
    while m < deps.len()
        invariant
            m <= deps.len(),
            seen@ == old(seen)@ + names(deps@).take(m as int).to_set(),
        decreases deps.len() - m,
    {
        let ghost before = seen@;
        seen.insert(deps[m].clone());
        proof {
            let longer = names(deps@).take(m as int + 1);
            let shorter = names(deps@).take(m as int);
            assert(longer == shorter.push(deps@[m as int]@));
            let added = deps@[m as int]@;
            assert forall|name: Seq<char>|
                longer.to_set().contains(name) <==> shorter.to_set().contains(name) || name
                    == added by {
                if shorter.contains(name) {
                    let k = choose|k: int| 0 <= k < shorter.len() && shorter[k] == name;
                    assert(longer[k] == name);
                }
                if name == added {
                    assert(longer[m as int] == name);
                }
                if longer.contains(name) {
                    let k = choose|k: int| 0 <= k < longer.len() && longer[k] == name;
                    if k < m {
                        assert(shorter[k] == name);
                    }
                }
            }
            assert(seen@ =~= old(seen)@ + longer.to_set());
        }
        m = m + 1;
    }
    assert(names(deps@).take(deps@.len() as int) == names(deps@));
}

/// Builds the graph of affected packages. The worklist starts with the
/// seeds in the caller's order. Each name that leaves it gets a node; where
/// the index has an entry for it, its dependents are put on the worklist if
/// the name was not discovered before, and in any case each dependent gets a
/// node and an edge from the name, and is discovered.
///
/// The function returns on every input: only a seed can be undiscovered when
/// it leaves the worklist, so only seeds put names on it.
pub fn expand(seeds: &Vec<String>, index: &ReverseIndex) -> (graph: DependencyGraph)
    requires
        index.wf(),
    ensures
        graph.wf(),
        graph@ == expansion(index@, names(seeds@)),
{
    let ghost idx = index@;
    let ghost sd = names(seeds@);
    let ghost n = sd.len() as int;
    let mut graph = DependencyGraph::new();
    let mut queue: VecDeque<String> = VecDeque::new();
    let mut seen = StringHashSet::new();
    enqueue_all(&mut queue, seeds);
    let ghost mut all = sd;
    let ghost mut k: int = 0;
    proof {
        assert(names(queue@) =~= all.skip(0));
        assert(all =~= sd + enqueued(idx, sd, 0));
        assert(all.take(0) =~= Seq::<Seq<char>>::empty());
    }
    while queue.len() > 0
        invariant
            index.wf(),
            idx == index@,
            sd == names(seeds@),
            n == sd.len(),
            0 <= k <= all.len(),
            names(queue@) == all.skip(k),
            all == sd + enqueued(idx, sd, if k < n { k } else { n }),
            graph.wf(),
            graph@ == GraphModel::empty().visit_all(idx, all.take(k)),
            seen@ == discovered(idx, all.take(k)),
            forall|j: int| n <= j < all.len() ==> seen@.contains(#[trigger] all[j]),
        decreases (if k < n { n - k } else { 0 }), all.len() - k,
    {
        let ghost waiting = names(queue@);
        let ghost done = all.take(k);
        proof {
            assert(queue@.len() > 0);
            assert(waiting.len() == queue@.len());
            assert(all.skip(k).len() == all.len() - k);
            assert(k < all.len());
        }
        let ghost held = queue@;
        let cur = queue.pop_front().unwrap();
        proof {
            assert(cur == held[0]);
            assert(waiting[0] == held[0]@);
            assert(waiting[0] == all.skip(k)[0]);
            assert(cur@ == all[k]);
            assert forall|i: int| 0 <= i < queue@.len() implies names(queue@)[i] == all.skip(
                k + 1,
            )[i] by {
                assert(queue@[i] == held[i + 1]);
                assert(waiting[i + 1] == held[i + 1]@);
                assert(waiting[i + 1] == all.skip(k)[i + 1]);
            }
            assert(names(queue@) =~= all.skip(k + 1));
            assert(all.take(k + 1).drop_last() == done);
            assert(all.take(k + 1).last() == cur@);
            graph.lemma_wf();
            lemma_with_node(graph@, cur@);
            if k < n {
                assert(all[k] == sd[k]);
                assert(done =~= sd.take(k));
            }
        }
        let root = graph.node_or_insert(&cur);
        match index.get(&cur) {
            Some(deps) => {
                if !seen.contains(cur.as_str()) {
                    enqueue_all(&mut queue, deps);
                    proof {
                        assert(k < n);
                        assert(guard_open(idx, sd, k));
                        assert(sd + (enqueued(idx, sd, k) + idx[sd[k]]) =~= all + names(deps@));
                        assert(all.skip(k + 1) + names(deps@) =~= (all + names(deps@)).skip(k + 1));
                        assert((all + names(deps@)).take(k + 1) =~= all.take(k + 1));
                        all = all + names(deps@);
                    }
                } else {
                    proof {
                        if k < n {
                            assert(!guard_open(idx, sd, k));
                        }
                    }
                }
                link_dependents(&mut graph, root, deps, Ghost(cur@));
                discover_all(&mut seen, deps);
                proof {
                    assert forall|j: int| n <= j < all.len() implies seen@.contains(
                        #[trigger] all[j],
                    ) by {
                        if !discovered(idx, done).contains(all[j]) {
                            let at = j - (all.len() - deps@.len());
                            assert(names(deps@)[at] == all[j]);
                        }
                    }
                }
            },
            None => {
                proof {
                    if k < n {
                        assert(!guard_open(idx, sd, k));
                    }
                }
            },
        }
        proof {
            k = k + 1;
        }
    }
    proof {
        assert(all.skip(k).len() == 0);
        assert(all.take(k) == all);
    }
    graph
}

} // verus!
