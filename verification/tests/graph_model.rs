use rebuilder::expand::expand;
use rebuilder::graph::DependencyGraph;
use rebuilder::graph::EDGE_WEIGHT;
use rebuilder::index::ReverseIndex;
use rebuilder::report::closure_report;
use rebuilder::traversal::closure_line;

fn name(s: &str) -> String {
    s.to_string()
}

fn name_list(items: &[&str]) -> Vec<String> {
    items.iter().map(|s| s.to_string()).collect()
}

fn index_from(entries: &[(&str, &[&str])]) -> ReverseIndex {
    let mut index = ReverseIndex::new();
    for (dependency, dependents) in entries {
        for dependent in dependents.iter() {
            index.record(&name(dependency), name(dependent));
        }
    }
    index
}

fn expanded(entries: &[(&str, &[&str])], seeds: &[&str]) -> DependencyGraph {
    expand(&name_list(seeds), &index_from(entries))
}

fn node_names(graph: &DependencyGraph) -> Vec<String> {
    (0..graph.node_count()).map(|id| graph.name(id).clone()).collect()
}

fn edge_names(graph: &DependencyGraph) -> Vec<(String, String)> {
    let mut found = Vec::new();
    for from in 0..graph.node_count() {
        for to in 0..graph.node_count() {
            if graph.has_edge(from, to) {
                found.push((graph.name(from).clone(), graph.name(to).clone()));
            }
        }
    }
    found
}

fn pairs(items: &[(&str, &str)]) -> Vec<(String, String)> {
    items.iter().map(|(a, b)| (a.to_string(), b.to_string())).collect()
}

fn lines(graph: &DependencyGraph, seeds: &[&str]) -> Vec<Vec<String>> {
    closure_report(graph, &name_list(seeds))
}

/// Reads DOT text back: the labels of the vertices by number, and the arcs.
fn read_dot(text: &str) -> (Vec<String>, Vec<(usize, usize)>) {
    let mut labels = Vec::new();
    let mut arcs = Vec::new();
    let mut rows = text.lines();
    assert_eq!(rows.next(), Some("digraph {"));
    for row in rows {
        let row = row.trim();
        if row == "}" {
            break;
        }
        let (head, _) = row.split_once(" [").unwrap();
        match head.split_once(" -> ") {
            Some((from, to)) => arcs.push((from.parse().unwrap(), to.parse().unwrap())),
            None => {
                let number: usize = head.parse().unwrap();
                assert_eq!(number, labels.len());
                let (_, rest) = row.split_once("label = \"").unwrap();
                let (label, _) = rest.rsplit_once("\" ]").unwrap();
                labels.push(label.replace("\\\"", "\"").replace("\\\\", "\\"));
            },
        }
    }
    (labels, arcs)
}

#[test]
fn every_edge_carries_the_same_weight() {
    assert_eq!(EDGE_WEIGHT, 1);
}

#[test]
fn a_new_graph_is_empty() {
    let graph = DependencyGraph::new();
    assert_eq!(graph.node_count(), 0);
    assert_eq!(graph.edge_count(), 0);
    assert_eq!(graph.node(&name("glibc")), None);
    assert!(!graph.has_edge(0, 0));
}

#[test]
fn a_name_gets_one_node_and_keeps_its_handle() {
    let mut graph = DependencyGraph::new();
    assert_eq!(graph.node_or_insert(&name("glibc")), 0);
    assert_eq!(graph.node_or_insert(&name("bash")), 1);
    assert_eq!(graph.node_or_insert(&name("glibc")), 0);
    assert_eq!(graph.node_or_insert(&name("vim")), 2);
    assert_eq!(graph.node_or_insert(&name("bash")), 1);
    assert_eq!(graph.node_count(), 3);
    assert_eq!(graph.node(&name("bash")), Some(1));
    assert_eq!(graph.node(&name("nano")), None);
    assert_eq!(graph.name(0), "glibc");
    assert_eq!(graph.name(1), "bash");
    assert_eq!(graph.name(2), "vim");
}

#[test]
fn connecting_twice_adds_one_edge() {
    let mut graph = DependencyGraph::new();
    let a = graph.node_or_insert(&name("a"));
    let b = graph.node_or_insert(&name("b"));
    assert!(!graph.has_edge(a, b));
    graph.connect(a, b);
    assert!(graph.has_edge(a, b));
    assert!(!graph.has_edge(b, a));
    assert_eq!(graph.edge_count(), 1);
    graph.connect(a, b);
    assert_eq!(graph.edge_count(), 1);
    graph.connect(b, a);
    graph.connect(a, a);
    assert_eq!(graph.edge_count(), 3);
    assert!(graph.has_edge(b, a));
    assert!(graph.has_edge(a, a));
    assert_eq!(graph.node_count(), 2);
}

#[test]
fn a_line_walks_breadth_first_newest_edge_first() {
    let mut graph = DependencyGraph::new();
    let root = graph.node_or_insert(&name("root"));
    let left = graph.node_or_insert(&name("left"));
    let right = graph.node_or_insert(&name("right"));
    let deep = graph.node_or_insert(&name("deep"));
    let apart = graph.node_or_insert(&name("apart"));
    graph.connect(root, left);
    graph.connect(root, right);
    graph.connect(left, deep);
    graph.connect(right, deep);
    graph.connect(deep, root);
    graph.connect(apart, root);
    assert_eq!(closure_line(&graph, root), name_list(&["root", "right", "left", "deep"]));
    assert_eq!(closure_line(&graph, left), name_list(&["left", "deep", "root", "right"]));
    assert_eq!(closure_line(&graph, deep), name_list(&["deep", "root", "right", "left"]));
    assert_eq!(
        closure_line(&graph, apart),
        name_list(&["apart", "root", "right", "left", "deep"])
    );
    assert_eq!(graph.node_count(), 5);
    assert_eq!(graph.edge_count(), 6);
}

#[test]
fn a_line_of_a_node_without_edges_is_its_name() {
    let mut graph = DependencyGraph::new();
    let a = graph.node_or_insert(&name("a"));
    let b = graph.node_or_insert(&name("b"));
    graph.connect(a, b);
    assert_eq!(closure_line(&graph, b), name_list(&["b"]));
}

#[test]
fn a_line_holds_a_self_dependent_once() {
    let mut graph = DependencyGraph::new();
    let a = graph.node_or_insert(&name("a"));
    graph.connect(a, a);
    assert_eq!(closure_line(&graph, a), name_list(&["a"]));
}

#[test]
fn a_seed_without_a_node_has_no_line() {
    let mut graph = DependencyGraph::new();
    let a = graph.node_or_insert(&name("a"));
    let b = graph.node_or_insert(&name("b"));
    graph.connect(a, b);
    assert_eq!(
        lines(&graph, &["b", "missing", "a"]),
        vec![name_list(&["b"]), name_list(&["a", "b"])]
    );
}

#[test]
fn expansion_of_no_seeds_is_empty() {
    let graph = expanded(&[("glibc", &["bash"])], &[]);
    assert_eq!(graph.node_count(), 0);
    assert_eq!(graph.edge_count(), 0);
    assert_eq!(lines(&graph, &[]), Vec::<Vec<String>>::new());
}

#[test]
fn expansion_links_dependents_and_their_dependents() {
    let graph = expanded(
        &[("glibc", &["bash", "coreutils"]), ("bash", &["vim"]), ("vim", &["gvim"])],
        &["glibc"],
    );
    assert_eq!(node_names(&graph), name_list(&["glibc", "coreutils", "bash", "vim"]));
    assert_eq!(
        edge_names(&graph),
        pairs(&[("glibc", "coreutils"), ("glibc", "bash"), ("bash", "vim")])
    );
    assert_eq!(graph.edge_count(), 3);
    assert_eq!(lines(&graph, &["glibc"]), vec![name_list(&["glibc", "bash", "coreutils", "vim"])]);
}

#[test]
fn dependents_listed_twice_get_one_node_and_one_edge() {
    let graph = expanded(&[("glibc", &["gcc", "gcc", "bash", "gcc", "bash"])], &["glibc"]);
    assert_eq!(graph.node_count(), 3);
    assert_eq!(graph.edge_count(), 2);
    assert_eq!(edge_names(&graph), pairs(&[("glibc", "bash"), ("glibc", "gcc")]));
    assert_eq!(lines(&graph, &["glibc"]), vec![name_list(&["glibc", "gcc", "bash"])]);
}

#[test]
fn dependents_are_met_in_index_order() {
    let graph =
        expanded(&[("a", &["d", "b", "e", "c"]), ("b", &["z", "y"]), ("d", &["x"])], &["a"]);
    assert_eq!(
        lines(&graph, &["a"]),
        vec![name_list(&["a", "d", "b", "e", "c", "x", "z", "y"])]
    );
}

#[test]
fn a_dependent_listed_twice_is_met_at_its_last_listing() {
    let graph = expanded(&[("glibc", &["gcc", "bash", "gcc"])], &["glibc"]);
    assert_eq!(graph.edge_count(), 2);
    assert_eq!(lines(&graph, &["glibc"]), vec![name_list(&["glibc", "bash", "gcc"])]);
}

#[test]
fn a_seed_given_twice_changes_nothing() {
    let once = expanded(&[("glibc", &["bash"]), ("bash", &["vim"])], &["glibc"]);
    let twice = expanded(&[("glibc", &["bash"]), ("bash", &["vim"])], &["glibc", "glibc"]);
    assert_eq!(node_names(&once), node_names(&twice));
    assert_eq!(edge_names(&once), edge_names(&twice));
    assert_eq!(twice.edge_count(), 2);
    assert_eq!(
        lines(&twice, &["glibc", "glibc"]),
        vec![name_list(&["glibc", "bash", "vim"]), name_list(&["glibc", "bash", "vim"])]
    );
}

#[test]
fn seeds_that_depend_on_each_other_terminate_without_duplicates() {
    let graph = expanded(&[("a", &["b"]), ("b", &["a"])], &["a", "b"]);
    assert_eq!(node_names(&graph), name_list(&["a", "b"]));
    assert_eq!(edge_names(&graph), pairs(&[("a", "b"), ("b", "a")]));
    assert_eq!(graph.edge_count(), 2);
    assert_eq!(lines(&graph, &["a", "b"]), vec![name_list(&["a", "b"]), name_list(&["b", "a"])]);
}

#[test]
fn a_package_that_depends_on_itself_terminates() {
    let graph = expanded(&[("a", &["a", "b"])], &["a"]);
    assert_eq!(graph.node_count(), 2);
    assert_eq!(edge_names(&graph), pairs(&[("a", "a"), ("a", "b")]));
    assert_eq!(lines(&graph, &["a"]), vec![name_list(&["a", "b"])]);
}

#[test]
fn only_an_undiscovered_seed_puts_its_dependents_on_the_worklist() {
    let entries: &[(&str, &[&str])] = &[("a", &["b"]), ("b", &["c"]), ("c", &["d"]), ("d", &["e"])];
    let a_first = expanded(entries, &["a", "b"]);
    assert_eq!(node_names(&a_first), name_list(&["a", "b", "c"]));
    assert_eq!(edge_names(&a_first), pairs(&[("a", "b"), ("b", "c")]));
    assert_eq!(
        lines(&a_first, &["a", "b"]),
        vec![name_list(&["a", "b", "c"]), name_list(&["b", "c"])]
    );
    let b_first = expanded(entries, &["b", "a"]);
    assert_eq!(node_names(&b_first), name_list(&["b", "c", "a", "d"]));
    assert_eq!(edge_names(&b_first), pairs(&[("b", "c"), ("c", "d"), ("a", "b")]));
    assert_eq!(
        lines(&b_first, &["b", "a"]),
        vec![name_list(&["b", "c", "d"]), name_list(&["a", "b", "c", "d"])]
    );
}

#[test]
fn dot_text_lists_vertices_then_arcs() {
    let graph = expanded(&[("glibc", &["bash", "coreutils"]), ("bash", &["vim"])], &["glibc"]);
    assert_eq!(
        graph.to_dot(),
        "digraph {\n    0 [ label = \"glibc\" ]\n    1 [ label = \"coreutils\" ]\n    \
         2 [ label = \"bash\" ]\n    3 [ label = \"vim\" ]\n    0 -> 1 [ ]\n    \
         0 -> 2 [ ]\n    2 -> 3 [ ]\n}\n"
    );
    assert_eq!(DependencyGraph::new().to_dot(), "digraph {\n}\n");
}

#[test]
fn dot_text_reads_back_as_the_graph() {
    let graph = expanded(
        &[
            ("glibc", &["bash", "gcc", "gcc", "lib32-glibc"]),
            ("bash", &["vim", "glibc"]),
            ("gcc", &["bash"]),
            ("zlib", &["gcc"]),
        ],
        &["glibc", "zlib", "openssl"],
    );
    let (labels, arcs) = read_dot(&graph.to_dot());
    assert_eq!(labels, node_names(&graph));
    assert_eq!(arcs.len(), graph.edge_count());
    for (from, to) in arcs.iter() {
        assert!(graph.has_edge(*from, *to));
    }
    let mut read_back: Vec<(String, String)> =
        arcs.iter().map(|(from, to)| (labels[*from].clone(), labels[*to].clone())).collect();
    let mut held = edge_names(&graph);
    read_back.sort();
    held.sort();
    assert_eq!(read_back, held);
}
