//! What holds of every run, stated over the models of the corpus, the
//! index, the graph and the report.

use crate::corpus::first_unresolved;
use crate::corpus::lemma_first_unresolved;
use crate::corpus::resolvable;
use crate::corpus::RepositoryView;
use crate::error::RebuildErrorView;
use crate::expand::discovered;
use crate::expand::enqueued;
use crate::expand::expansion;
use crate::expand::guard_open;
use crate::expand::is_dependent;
use crate::expand::is_dependent_of_any;
use crate::expand::lemma_discovered_grows;
use crate::expand::lemma_enqueued;
use crate::expand::lemma_expansion;
use crate::expand::worklist;
use crate::graph::lemma_node_id;
use crate::index::first_unavailable;
use crate::index::IndexModel;
use crate::order::lemma_breadth_first_starts;
use crate::order::lemma_visit_all_successors;
use crate::plan::planned;
use crate::plan::RebuildPlanView;
use crate::report::lemma_report_lines;
use crate::report::report_lines;
use crate::report::report_text;
use crate::store::dot_text;
use crate::store::successors;
use crate::traversal::breadth_first;
use crate::traversal::lemma_breadth_first;
use crate::traversal::lemma_breadth_first_closure;
use crate::traversal::lemma_line_of;
use crate::traversal::lemma_line_of_leaf;
use crate::traversal::reachable;
use vstd::prelude::*;

verus! {

/// Only seeds expand: every name behind the seeds was discovered before it
/// leaves the worklist, so its guard is closed and it puts nothing on the
/// worklist. This is why the worklist is the seeds followed by the
/// dependents of seeds, and why it is finite whatever the index holds.
pub proof fn law_only_seeds_expand(index: IndexModel, seeds: Seq<Seq<char>>, k: int)
    requires
        seeds.len() <= k < worklist(index, seeds).len(),
    ensures
        discovered(index, worklist(index, seeds).take(k)).contains(worklist(index, seeds)[k]),
{
    let w = worklist(index, seeds);
    let x = w[k];
    lemma_expansion(index, seeds);
    lemma_enqueued(index, seeds, seeds.len() as int);
    let e = enqueued(index, seeds, seeds.len() as int);
    assert(e[k - seeds.len()] == x);
    assert(e.contains(x));
    let j = choose|j: int|
        0 <= j < seeds.len() && #[trigger] guard_open(index, seeds, j) && index[seeds[j]].contains(
            x,
        );
    assert(w[j] == seeds[j]);
    assert(is_dependent(index, w[j], x));
    lemma_discovered_grows(index, w, j, k);
}

/// Determinism: the outcome of a run is a function of the corpus and the
/// seed order. Two runs on the same corpus and seeds fail alike, or produce
/// the same graph, the same report text and the same DOT text.
pub proof fn law_determinism(
    corpus: Seq<RepositoryView>,
    seeds: Seq<Seq<char>>,
    first: Result<RebuildPlanView, RebuildErrorView>,
    second: Result<RebuildPlanView, RebuildErrorView>,
)
    requires
        first == planned(corpus, seeds),
        second == planned(corpus, seeds),
    ensures
        first == second,
        first is Ok ==> report_text(first->Ok_0.lines) == report_text(second->Ok_0.lines),
        first is Ok ==> dot_text(first->Ok_0.graph.nodes, first->Ok_0.graph.edges) == dot_text(
            second->Ok_0.graph.nodes,
            second->Ok_0.graph.edges,
        ),
{
}

/// Seed-order preservation: the report has one line per seed, and line `i`
/// starts with seed `i`, whatever the index holds.
pub proof fn law_seed_order(index: IndexModel, seeds: Seq<Seq<char>>)
    ensures
        report_lines(expansion(index, seeds), seeds).len() == seeds.len(),
        forall|i: int|
            0 <= i < seeds.len() ==> (#[trigger] report_lines(
                expansion(index, seeds),
                seeds,
            )[i]).len() > 0 && report_lines(expansion(index, seeds), seeds)[i][0] == seeds[i],
{
    let m = expansion(index, seeds);
    lemma_expansion(index, seeds);
    lemma_report_lines(m, seeds);
    assert forall|i: int| 0 <= i < seeds.len() implies (#[trigger] report_lines(m, seeds)[i]).len()
        > 0 && report_lines(m, seeds)[i][0] == seeds[i] by {
        assert(m.has_node(seeds[i]));
        lemma_line_of(m, m.node_id(seeds[i]));
    }
}

/// No duplicate edges: the graph holds at most one edge from one node to
/// another, however often the index lists the dependent.
pub proof fn law_no_duplicate_edges(
    index: IndexModel,
    seeds: Seq<Seq<char>>,
    j: int,
    k: int,
)
    requires
        0 <= j < expansion(index, seeds).edges.len(),
        0 <= k < expansion(index, seeds).edges.len(),
        expansion(index, seeds).edges[j] == expansion(index, seeds).edges[k],
    ensures
        j == k,
{
    lemma_expansion(index, seeds);
}

/// Node identity: the graph holds exactly one node for every name that was
/// met, however often the name was met.
pub proof fn law_node_identity(
    index: IndexModel,
    seeds: Seq<Seq<char>>,
    j: int,
    k: int,
)
    requires
        0 <= j < expansion(index, seeds).nodes.len(),
        0 <= k < expansion(index, seeds).nodes.len(),
        expansion(index, seeds).nodes[j] == expansion(index, seeds).nodes[k],
    ensures
        j == k,
{
    lemma_expansion(index, seeds);
}

/// Validation precedes expansion: where some seed is unresolvable, the run
/// fails and has no line for any seed. Where the whole corpus could be
/// enumerated, the error names the first seed that is unresolvable.
pub proof fn law_validation_precedes_expansion(
    corpus: Seq<RepositoryView>,
    seeds: Seq<Seq<char>>,
    i: int,
)
    requires
        0 <= i < seeds.len(),
        !resolvable(corpus, seeds[i]),
    ensures
        planned(corpus, seeds) is Err,
        first_unavailable(corpus) is None ==> first_unresolved(corpus, seeds) is Some && planned(
            corpus,
            seeds,
        ) == Err::<RebuildPlanView, RebuildErrorView>(
            RebuildErrorView::PackageNotFound { name: first_unresolved(corpus, seeds)->0 },
        ) && !resolvable(corpus, first_unresolved(corpus, seeds)->0),
{
    lemma_first_unresolved(corpus, seeds);
}

/// The guard of the only seed is open exactly when the index has an entry
/// for it.
proof fn lemma_single_seed(index: IndexModel, seed: Seq<char>)
    ensures
        guard_open(index, seq![seed], 0) <==> index.contains_key(seed),
        forall|x: Seq<char>| #[trigger]
            worklist(index, seq![seed]).contains(x) <==> x == seed || is_dependent(index, seed, x),
{
    let seeds = seq![seed];
    lemma_expansion(index, seeds);
    assert(seeds.take(0) =~= Seq::<Seq<char>>::empty());
    assert(discovered(index, seeds.take(0)) =~= Set::<Seq<char>>::empty());
    assert forall|x: Seq<char>| #[trigger] worklist(index, seeds).contains(x) <==> x == seed
        || is_dependent(index, seed, x) by {
        if x == seed {
            assert(seeds[0] == x);
        }
        if is_dependent(index, seed, x) {
            assert(guard_open(index, seeds, 0) && index[seeds[0]].contains(x));
        }
    }
}

/// Direct dependents only: where no dependent of the seed lists a
/// dependent other than the seed and the seed's own dependents, the line of
/// a single seed holds the seed and its direct dependents, and nothing else.
pub proof fn law_direct_dependents_only(index: IndexModel, seed: Seq<char>)
    requires
        forall|d: Seq<char>, c: Seq<char>|
            is_dependent(index, seed, d) && #[trigger] is_dependent(index, d, c) ==> c == seed
                || is_dependent(index, seed, c),
    ensures
        report_lines(expansion(index, seq![seed]), seq![seed]).len() == 1,
        forall|x: Seq<char>| #[trigger]
            report_lines(expansion(index, seq![seed]), seq![seed])[0].contains(x) <==> x == seed
                || is_dependent(index, seed, x),
{
    let seeds = seq![seed];
    let m = expansion(index, seeds);
    let w = worklist(index, seeds);
    lemma_expansion(index, seeds);
    lemma_single_seed(index, seed);
    lemma_report_lines(m, seeds);
    assert(m.has_node(seeds[0]));
    let line = report_lines(m, seeds)[0];
    lemma_line_of(m, m.node_id(seed));
    assert forall|x: Seq<char>| #[trigger] line.contains(x) <==> x == seed || is_dependent(
        index,
        seed,
        x,
    ) by {
        if line.contains(x) {
            assert(m.has_node(x));
            if is_dependent_of_any(index, w, x) {
                let i = choose|i: int| 0 <= i < w.len() && is_dependent(index, #[trigger] w[i], x);
                assert(w.contains(w[i]));
            }
        }
        if x == seed {
            assert(line[0] == x);
        }
        if is_dependent(index, seed, x) {
            assert(line[0] == seed);
            assert(m.links(seed, x));
        }
    }
}

/// The scope of a line: every name on it is a seed, a listed dependent of a
/// seed, or a listed dependent of such a dependent. Nothing further away
/// from the seeds is ever reported.
pub proof fn law_scope(
    index: IndexModel,
    seeds: Seq<Seq<char>>,
    i: int,
    x: Seq<char>,
)
    requires
        0 <= i < seeds.len(),
        report_lines(expansion(index, seeds), seeds)[i].contains(x),
    ensures
        seeds.contains(x) || is_dependent_of_any(index, seeds, x) || exists|d: Seq<char>|
            is_dependent_of_any(index, seeds, d) && #[trigger] is_dependent(index, d, x),
{
    let m = expansion(index, seeds);
    let w = worklist(index, seeds);
    lemma_expansion(index, seeds);
    lemma_report_lines(m, seeds);
    assert(m.has_node(seeds[i]));
    lemma_line_of(m, m.node_id(seeds[i]));
    assert(m.has_node(x));
    assert forall|y: Seq<char>| #[trigger] w.contains(y) implies seeds.contains(y)
        || is_dependent_of_any(index, seeds, y) by {
        if !seeds.contains(y) {
            let j = choose|j: int|
                0 <= j < seeds.len() && #[trigger] guard_open(index, seeds, j)
                    && index[seeds[j]].contains(y);
            assert(is_dependent(index, seeds[j], y));
        }
    }
    if !w.contains(x) {
        let k = choose|k: int| 0 <= k < w.len() && is_dependent(index, #[trigger] w[k], x);
        assert(w.contains(w[k]));
        if !seeds.contains(w[k]) {
            assert(is_dependent_of_any(index, seeds, w[k]) && is_dependent(index, w[k], x));
        } else {
            let j = choose|j: int| 0 <= j < seeds.len() && seeds[j] == w[k];
            assert(is_dependent(index, seeds[j], x));
        }
    }
}

/// The closure of a seed: the line of a seed names exactly the packages
/// whose nodes the node of the seed reaches along the edges of the graph,
/// the seed among them.
pub proof fn law_closure(index: IndexModel, seeds: Seq<Seq<char>>, i: int, x: Seq<char>)
    requires
        0 <= i < seeds.len(),
    ensures
        report_lines(expansion(index, seeds), seeds)[i].contains(x) <==> expansion(
            index,
            seeds,
        ).has_node(x) && reachable(
            expansion(index, seeds).edges,
            expansion(index, seeds).node_id(seeds[i]),
            expansion(index, seeds).node_id(x),
        ),
{
    let m = expansion(index, seeds);
    lemma_expansion(index, seeds);
    lemma_report_lines(m, seeds);
    assert(m.has_node(seeds[i]));
    let start = m.node_id(seeds[i]);
    let ids = breadth_first(m, start);
    let line = report_lines(m, seeds)[i];
    lemma_line_of(m, start);
    lemma_breadth_first(m, start);
    if line.contains(x) {
        let k = choose|k: int| 0 <= k < line.len() && line[k] == x;
        assert(ids[k] < m.nodes.len());
        lemma_node_id(m, ids[k]);
        assert(ids.contains(ids[k]));
        lemma_breadth_first_closure(m, start, ids[k]);
    }
    if m.has_node(x) && reachable(m.edges, start, m.node_id(x)) {
        lemma_breadth_first_closure(m, start, m.node_id(x));
        let k = choose|k: int| 0 <= k < ids.len() && ids[k] == m.node_id(x);
        assert(line[k] == m.nodes[ids[k] as int]);
    }
}

/// The reach of a line: the dependents of a name that left the worklist
/// are on every line that holds the name. So every line holds the listed
/// dependents of its seed, and the line of a seed whose guard is open also
/// holds the listed dependents of those dependents.
pub proof fn law_reach(
    index: IndexModel,
    seeds: Seq<Seq<char>>,
    i: int,
    d: Seq<char>,
    c: Seq<char>,
)
    requires
        0 <= i < seeds.len(),
        is_dependent(index, seeds[i], d),
    ensures
        report_lines(expansion(index, seeds), seeds)[i].contains(d),
        guard_open(index, seeds, i) && is_dependent(index, d, c) ==> report_lines(
            expansion(index, seeds),
            seeds,
        )[i].contains(c),
{
    let m = expansion(index, seeds);
    lemma_expansion(index, seeds);
    lemma_report_lines(m, seeds);
    assert(m.has_node(seeds[i]));
    lemma_line_of(m, m.node_id(seeds[i]));
    let line = report_lines(m, seeds)[i];
    assert(line[0] == seeds[i]);
    assert(seeds.contains(seeds[i]));
    assert(m.links(seeds[i], d));
    if guard_open(index, seeds, i) && is_dependent(index, d, c) {
        assert(guard_open(index, seeds, i) && index[seeds[i]].contains(d));
        assert(worklist(index, seeds).contains(d));
        assert(m.links(d, c));
    }
}

/// Index order: the line of a seed names the seed, then the dependents of
/// the seed in the order of its entry, then everything else, where the
/// entry lists no name twice and does not list the seed itself.
pub proof fn law_index_order(index: IndexModel, seeds: Seq<Seq<char>>, i: int)
    requires
        0 <= i < seeds.len(),
        index.contains_key(seeds[i]),
        index[seeds[i]].no_duplicates(),
        !index[seeds[i]].contains(seeds[i]),
    ensures
        report_lines(expansion(index, seeds), seeds)[i].len() >= 1 + index[seeds[i]].len(),
        report_lines(expansion(index, seeds), seeds)[i].take(1 + index[seeds[i]].len() as int)
            == seq![seeds[i]] + index[seeds[i]],
{
    let m = expansion(index, seeds);
    let seed = seeds[i];
    let entry = index[seed];
    lemma_expansion(index, seeds);
    lemma_report_lines(m, seeds);
    assert(seeds.contains(seed));
    assert(m.has_node(seed));
    lemma_visit_all_successors(index, worklist(index, seeds), seed);
    let start = m.node_id(seed);
    let succs = successors(m.edges, start);
    assert(m.nodes[start as int] == seed);
    assert(m.successor_names(seed).len() == succs.len());
    assert forall|a: int, b: int|
        0 <= a < succs.len() && 0 <= b < succs.len() && a != b implies succs[a] != succs[b] by {
        assert(m.successor_names(seed)[a] == m.nodes[succs[a] as int]);
        assert(m.successor_names(seed)[b] == m.nodes[succs[b] as int]);
        assert(entry[a] != entry[b]);
    }
    if succs.contains(start) {
        let a = choose|a: int| 0 <= a < succs.len() && succs[a] == start;
        assert(m.successor_names(seed)[a] == m.nodes[succs[a] as int]);
        assert(entry[a] == seed);
    }
    lemma_breadth_first_starts(m, start);
    let ids = breadth_first(m, start);
    let line = report_lines(m, seeds)[i];
    assert forall|k: int| 0 <= k < 1 + entry.len() implies line[k] == (seq![seed] + entry)[k] by {
        assert(ids.take(1 + succs.len() as int)[k] == (seq![start] + succs)[k]);
        if k > 0 {
            assert(m.successor_names(seed)[k - 1] == m.nodes[succs[k - 1] as int]);
        }
    }
    assert(line.take(1 + entry.len() as int) =~= seq![seed] + entry);
}

/// Distinct names that all occur in a list are at most as many as the list
/// is long.
proof fn lemma_distinct_within(part: Seq<Seq<char>>, whole: Seq<Seq<char>>)
    requires
        part.no_duplicates(),
        forall|k: int| 0 <= k < part.len() ==> whole.contains(#[trigger] part[k]),
    ensures
        part.len() <= whole.len(),
{
    part.unique_seq_to_set();
    whole.lemma_cardinality_of_set();
    assert(part.to_set().subset_of(whole.to_set())) by {
        assert forall|x: Seq<char>| part.to_set().contains(x) implies whole.to_set().contains(
            x,
        ) by {
            let k = choose|k: int| 0 <= k < part.len() && part[k] == x;
            assert(whole.contains(part[k]));
        }
    }
    vstd::seq_lib::seq_to_set_is_finite(whole);
    vstd::set_lib::lemma_len_subset(part.to_set(), whole.to_set());
}

/// The line of a single seed, in full: where the entry of the seed lists no
/// name twice and not the seed itself, and no dependent of the seed lists a
/// dependent other than the seed and the seed's own dependents, the line is
/// the seed followed by its entry.
pub proof fn law_direct_dependents_in_index_order(index: IndexModel, seed: Seq<char>)
    requires
        index.contains_key(seed),
        index[seed].no_duplicates(),
        !index[seed].contains(seed),
        forall|d: Seq<char>, c: Seq<char>|
            is_dependent(index, seed, d) && #[trigger] is_dependent(index, d, c) ==> c == seed
                || is_dependent(index, seed, c),
    ensures
        report_lines(expansion(index, seq![seed]), seq![seed]) == seq![seq![seed] + index[seed]],
{
    let seeds = seq![seed];
    let m = expansion(index, seeds);
    let lines = report_lines(m, seeds);
    let whole = seq![seed] + index[seed];
    lemma_expansion(index, seeds);
    lemma_report_lines(m, seeds);
    assert(seeds[0] == seed);
    assert(m.has_node(seed));
    lemma_line_of(m, m.node_id(seed));
    law_direct_dependents_only(index, seed);
    law_index_order(index, seeds, 0);
    let line = lines[0];
    assert forall|k: int| 0 <= k < line.len() implies whole.contains(#[trigger] line[k]) by {
        assert(line.contains(line[k]));
        if line[k] == seed {
            assert(whole[0] == seed);
        } else {
            let j = choose|j: int| 0 <= j < index[seed].len() && index[seed][j] == line[k];
            assert(whole[j + 1] == line[k]);
        }
    }
    lemma_distinct_within(line, whole);
    assert(line.take(line.len() as int) == line);
    assert(lines =~= seq![whole]);
}

/// Seeds that depend on each other: where each of two seeds is listed as a
/// dependent of the other, the graph is well formed all the same, with one
/// node for each and one edge each way, and each is on the line of the
/// other.
pub proof fn law_mutual_seeds(index: IndexModel, a: Seq<char>, b: Seq<char>)
    requires
        is_dependent(index, a, b),
        is_dependent(index, b, a),
    ensures
        expansion(index, seq![a, b]).wf(),
        expansion(index, seq![a, b]).links(a, b),
        expansion(index, seq![a, b]).links(b, a),
        report_lines(expansion(index, seq![a, b]), seq![a, b]).len() == 2,
        report_lines(expansion(index, seq![a, b]), seq![a, b])[0].contains(b),
        report_lines(expansion(index, seq![a, b]), seq![a, b])[1].contains(a),
{
    let seeds = seq![a, b];
    let m = expansion(index, seeds);
    lemma_expansion(index, seeds);
    lemma_report_lines(m, seeds);
    assert(seeds[0] == a && seeds[1] == b);
    assert(seeds.contains(a) && seeds.contains(b));
    law_reach(index, seeds, 0, b, a);
    law_reach(index, seeds, 1, a, b);
}

/// Empty dependents: the line of a seed without an entry in the index holds
/// the seed's own name and nothing else.
pub proof fn law_empty_dependents(
    index: IndexModel,
    seeds: Seq<Seq<char>>,
    i: int,
)
    requires
        0 <= i < seeds.len(),
        !index.contains_key(seeds[i]),
    ensures
        report_lines(expansion(index, seeds), seeds)[i] == seq![seeds[i]],
{
    let m = expansion(index, seeds);
    lemma_expansion(index, seeds);
    lemma_report_lines(m, seeds);
    assert(m.has_node(seeds[i]));
    let start = m.node_id(seeds[i]);
    assert(m.nodes[start as int] == seeds[i]);
    lemma_line_of_leaf(m, start);
}

} // verus!
