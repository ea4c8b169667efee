//! The closure report: one line per seed, in the caller's seed order, each
//! line the packages reachable from the seed in breadth-first order.

use crate::corpus::names;
use crate::graph::DependencyGraph;
use crate::graph::GraphModel;
use crate::traversal::closure_line;
use crate::traversal::line_of;
use vstd::prelude::*;
use vstd::string::*;

verus! {

/// The lines of the report: for each seed that has a node, in seed order,
/// the names reachable from that node. A seed without a node has no line.
pub open spec fn report_lines(m: GraphModel, seeds: Seq<Seq<char>>) -> Seq<Seq<Seq<char>>>
    decreases seeds.len(),
{
    if seeds.len() == 0 {
        Seq::empty()
    } else if m.has_node(seeds.last()) {
        report_lines(m, seeds.drop_last()).push(line_of(m, m.node_id(seeds.last())))
    } else {
        report_lines(m, seeds.drop_last())
    }
}

/// The names held by a sequence of lines.
pub open spec fn lines_view(lines: Seq<Vec<String>>) -> Seq<Seq<Seq<char>>> {
    Seq::new(lines.len(), |i: int| names(lines[i]@))
}

/// Names separated by single spaces.
pub open spec fn joined(line: Seq<Seq<char>>) -> Seq<char>
    decreases line.len(),
{
    if line.len() == 0 {
        Seq::empty()
    } else if line.len() == 1 {
        line[0]
    } else {
        joined(line.drop_last()) + seq![' '] + line.last()
    }
}

/// One line of the report as text: the names separated by single spaces,
/// then a newline.
pub open spec fn line_text(line: Seq<Seq<char>>) -> Seq<char> {
    joined(line) + seq!['\n']
}

/// The report as text: its lines one after the other.
pub open spec fn report_text(lines: Seq<Seq<Seq<char>>>) -> Seq<char>
    decreases lines.len(),
{
    if lines.len() == 0 {
        Seq::empty()
    } else {
        report_text(lines.drop_last()) + line_text(lines.last())
    }
}

/// Where every seed has a node, the report has one line per seed, and line
/// `i` is the line of the node of seed `i`.
pub proof fn lemma_report_lines(m: GraphModel, seeds: Seq<Seq<char>>)
    requires
        forall|i: int| 0 <= i < seeds.len() ==> m.has_node(#[trigger] seeds[i]),
    ensures
        report_lines(m, seeds).len() == seeds.len(),
        forall|i: int|
            0 <= i < seeds.len() ==> #[trigger] report_lines(m, seeds)[i] == line_of(
                m,
                m.node_id(seeds[i]),
            ),
    decreases seeds.len(),
{
    if seeds.len() > 0 {
        let front = seeds.drop_last();
        assert forall|i: int| 0 <= i < front.len() implies m.has_node(#[trigger] front[i]) by {
            assert(front[i] == seeds[i]);
        }
        lemma_report_lines(m, front);
        assert(m.has_node(seeds[seeds.len() - 1]));
        assert forall|i: int| 0 <= i < seeds.len() implies #[trigger] report_lines(m, seeds)[i]
            == line_of(m, m.node_id(seeds[i])) by {
            if i < front.len() {
                assert(report_lines(m, seeds)[i] == report_lines(m, front)[i]);
                assert(front[i] == seeds[i]);
            }
        }
    }
}

/// Traverses the graph once per seed, in the caller's seed order. Nothing
/// is added to the graph; a seed that has no node is passed over.
pub fn closure_report(graph: &DependencyGraph, seeds: &Vec<String>) -> (lines: Vec<Vec<String>>)
    requires
        graph.wf(),
    ensures
        lines_view(lines@) == report_lines(graph@, names(seeds@)),
{
    let ghost m = graph@;
    let ghost all = names(seeds@);
    let mut lines: Vec<Vec<String>> = Vec::new();
    let mut i: usize = 0;
    proof {
        assert(all.take(0) == Seq::<Seq<char>>::empty());
        assert(lines_view(lines@) =~= report_lines(m, all.take(0)));
    }
    while i < seeds.len()
        invariant
            i <= seeds.len(),
            graph.wf(),
            m == graph@,
            all == names(seeds@),
            lines_view(lines@) == report_lines(m, all.take(i as int)),
        decreases seeds.len() - i,
    {
        proof {
            assert(all.take(i as int + 1).drop_last() == all.take(i as int));
            assert(all.take(i as int + 1).last() == seeds@[i as int]@);
        }
        let ghost before = lines@;
        match graph.node(&seeds[i]) {
            Some(start) => {
                let line = closure_line(graph, start);
                lines.push(line);
                proof {
                    assert(lines_view(lines@) =~= lines_view(before).push(
                        line_of(m, start as nat),
                    ));
                }
            },
            None => {},
        }
        i = i + 1;
    }
    proof {
        assert(all.take(seeds@.len() as int) == all);
    }
    lines
}

/// Renders one line: the names separated by single spaces, then a newline.
pub fn render_line(line: &Vec<String>) -> (text: String)
    ensures
        text@ == line_text(names(line@)),
{
    let ghost all = names(line@);
    let mut text = String::new();
    let mut i: usize = 0;
    proof {
        reveal_strlit(" ");
        reveal_strlit("\n");
        assert(all.take(0) == Seq::<Seq<char>>::empty());
        assert(text@ =~= joined(all.take(0)));
    }
    while i < line.len()
        invariant
            i <= line.len(),
            all == names(line@),
            " "@ == seq![' '],
            text@ == joined(all.take(i as int)),
        decreases line.len() - i,
    {
        proof {
            assert(all.take(i as int + 1).drop_last() == all.take(i as int));
            assert(all.take(i as int + 1).last() == line@[i as int]@);
        }
        if i > 0 {
            text.append(" ");
        }
        text.append(line[i].as_str());
        proof {
            if i == 0 {
                assert(text@ =~= line@[0]@);
                assert(all.take(1)[0] == line@[0]@);
            }
        }
        i = i + 1;
    }
    proof {
        assert(all.take(line@.len() as int) == all);
    }
    text.append("\n");
    text
}

/// Renders the report: every line, in order.
pub fn render_report(lines: &Vec<Vec<String>>) -> (text: String)
    ensures
        text@ == report_text(lines_view(lines@)),
{
    let ghost all = lines_view(lines@);
    let mut text = String::new();
    let mut i: usize = 0;
    proof {
        assert(all.take(0) == Seq::<Seq<Seq<char>>>::empty());
        assert(text@ =~= report_text(all.take(0)));
    }
    while i < lines.len()
        invariant
            i <= lines.len(),
            all == lines_view(lines@),
            text@ == report_text(all.take(i as int)),
        decreases lines.len() - i,
    {
        proof {
            assert(all.take(i as int + 1).drop_last() == all.take(i as int));
            assert(all.take(i as int + 1).last() == names(lines@[i as int]@));
        }
        let line = render_line(&lines[i]);
        text.append(line.as_str());
        i = i + 1;
    }
    proof {
        assert(all.take(lines@.len() as int) == all);
    }
    text
}

} // verus!
