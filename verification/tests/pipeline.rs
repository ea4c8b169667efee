use rebuilder::corpus::Package;
use rebuilder::corpus::Repository;
use rebuilder::error::RebuildError;
use rebuilder::plan::plan_rebuild;
use rebuilder::plan::RebuildPlan;

fn owned(s: &str) -> String {
    s.to_string()
}

fn owned_list(items: &[&str]) -> Vec<String> {
    items.iter().map(|s| s.to_string()).collect()
}

fn package(name: &str, depends: &[&str]) -> Package {
    Package {
        name: owned(name),
        base: None,
        depends: owned_list(depends),
        makedepends: Vec::new(),
    }
}

fn build_package(name: &str, base: &str, depends: &[&str], makedepends: &[&str]) -> Package {
    Package {
        name: owned(name),
        base: Some(owned(base)),
        depends: owned_list(depends),
        makedepends: owned_list(makedepends),
    }
}

fn repository(name: &str, packages: Vec<Package>) -> Repository {
    Repository { name: owned(name), packages: Some(packages) }
}

fn unavailable(name: &str) -> Repository {
    Repository { name: owned(name), packages: None }
}

fn run(repos: &Vec<Repository>, seeds: &[&str]) -> RebuildPlan {
    match plan_rebuild(repos, &owned_list(seeds)) {
        Ok(plan) => plan,
        Err(e) => panic!("the run failed: {}", e.message()),
    }
}

fn failure(repos: &Vec<Repository>, seeds: &[&str]) -> RebuildError {
    match plan_rebuild(repos, &owned_list(seeds)) {
        Ok(plan) => panic!("the run printed: {}", plan.report()),
        Err(e) => e,
    }
}

fn glibc_corpus() -> Vec<Repository> {
    vec![repository(
        "core",
        vec![
            package("glibc", &[]),
            package("bash", &["glibc"]),
            package("coreutils", &["glibc"]),
            package("vim", &["bash"]),
        ],
    )]
}

fn chain_corpus() -> Vec<Repository> {
    vec![repository(
        "core",
        vec![
            package("a", &[]),
            package("b", &["a"]),
            package("c", &["b"]),
            package("d", &["c"]),
            package("e", &["d"]),
        ],
    )]
}

#[test]
fn glibc_is_followed_by_its_dependents_in_index_order() {
    let plan = run(&glibc_corpus(), &["glibc"]);
    assert_eq!(plan.lines, vec![owned_list(&["glibc", "bash", "coreutils", "vim"])]);
    assert_eq!(plan.report(), "glibc bash coreutils vim\n");
}

#[test]
fn glibc_alone_with_its_direct_dependents() {
    let repos = vec![repository(
        "core",
        vec![package("glibc", &[]), package("bash", &["glibc"]), package("coreutils", &["glibc"])],
    )];
    let plan = run(&repos, &["glibc"]);
    assert_eq!(plan.report(), "glibc bash coreutils\n");
}

#[test]
fn a_line_holds_the_dependents_of_the_direct_dependents() {
    let plan = run(&chain_corpus(), &["a"]);
    assert_eq!(plan.lines, vec![owned_list(&["a", "b", "c"])]);
}

#[test]
fn a_line_holds_nothing_beyond_the_second_level() {
    let plan = run(&chain_corpus(), &["a"]);
    assert!(!plan.lines[0].contains(&owned("d")));
    assert!(!plan.lines[0].contains(&owned("e")));
    assert_eq!(plan.graph.node(&owned("d")), None);
    assert_eq!(plan.graph.node_count(), 3);
    assert_eq!(plan.graph.edge_count(), 2);
}

#[test]
fn a_seed_without_dependents_is_alone_on_its_line() {
    let plan = run(&chain_corpus(), &["e"]);
    assert_eq!(plan.report(), "e\n");
    let plan = run(&glibc_corpus(), &["vim", "coreutils"]);
    assert_eq!(plan.report(), "vim\ncoreutils\n");
    assert_eq!(plan.graph.edge_count(), 0);
}

#[test]
fn lines_follow_the_seed_order() {
    let repos = glibc_corpus();
    let plan = run(&repos, &["bash", "glibc", "vim"]);
    assert_eq!(plan.report(), "bash vim\nglibc bash coreutils vim\nvim\n");
    let plan = run(&repos, &["vim", "glibc", "bash"]);
    assert_eq!(plan.report(), "vim\nglibc bash coreutils vim\nbash vim\n");
    let plan = run(&repos, &["glibc", "vim", "bash"]);
    assert_eq!(plan.report(), "glibc bash coreutils vim\nvim\nbash vim\n");
}

#[test]
fn repeated_runs_print_the_same() {
    let repos = vec![
        repository(
            "core",
            vec![
                package("glibc", &[]),
                build_package("gcc", "gcc", &["glibc", "zlib"], &["glibc"]),
                build_package("gcc-libs", "gcc", &["glibc"], &[]),
                package("zlib", &["glibc"]),
            ],
        ),
        repository(
            "extra",
            vec![package("vim", &["glibc", "gcc-libs"]), package("nano", &["vim"])],
        ),
    ];
    let first = run(&repos, &["glibc", "zlib", "gcc"]);
    let second = run(&repos, &["glibc", "zlib", "gcc"]);
    assert_eq!(first.report(), second.report());
    assert_eq!(first.dot(), second.dot());
    assert_eq!(first.lines, second.lines);
    assert_eq!(first.report(), "glibc gcc zlib vim nano\nzlib gcc\ngcc\n");
}

#[test]
fn split_packages_are_reported_under_their_base() {
    let repos = vec![repository(
        "core",
        vec![
            package("glibc", &[]),
            build_package("gcc", "gcc", &["glibc"], &[]),
            build_package("gcc-libs", "gcc", &["glibc"], &[]),
            build_package("lib32-glibc", "lib32-glibc", &[], &["glibc", "gcc"]),
        ],
    )];
    let plan = run(&repos, &["glibc"]);
    assert_eq!(plan.lines, vec![owned_list(&["glibc", "gcc", "lib32-glibc"])]);
    assert_eq!(plan.graph.node_count(), 3);
    assert_eq!(plan.graph.edge_count(), 3);
}

#[test]
fn an_unresolved_seed_leaves_no_line_for_any_seed() {
    let repos = glibc_corpus();
    assert_eq!(
        failure(&repos, &["glibc", "nano", "bash"]),
        RebuildError::PackageNotFound { name: owned("nano") }
    );
    assert_eq!(
        failure(&repos, &["emacs", "nano"]),
        RebuildError::PackageNotFound { name: owned("emacs") }
    );
    assert_eq!(failure(&repos, &["nano"]), RebuildError::PackageNotFound { name: owned("nano") });
}

#[test]
fn a_declared_name_that_is_no_package_is_no_seed() {
    let repos = vec![repository("core", vec![package("bash", &["sh"])])];
    assert_eq!(failure(&repos, &["sh"]), RebuildError::PackageNotFound { name: owned("sh") });
}

#[test]
fn an_unavailable_repository_fails_the_run_before_the_seeds_are_checked() {
    let repos = vec![
        repository("core", vec![package("glibc", &[]), package("bash", &["glibc"])]),
        unavailable("extra"),
    ];
    assert_eq!(
        failure(&repos, &["glibc"]),
        RebuildError::CorpusUnavailable { repository: owned("extra") }
    );
    assert_eq!(
        failure(&repos, &["nano"]),
        RebuildError::CorpusUnavailable { repository: owned("extra") }
    );
}

#[test]
fn a_seed_is_found_in_any_repository() {
    let repos = vec![
        repository("core", vec![package("glibc", &[])]),
        repository("extra", vec![package("vim", &["glibc"])]),
        repository("community", vec![package("neovim", &["glibc", "vim"])]),
    ];
    let plan = run(&repos, &["vim", "glibc"]);
    assert_eq!(plan.report(), "vim neovim\nglibc vim neovim\n");
}

#[test]
fn no_seeds_give_an_empty_report() {
    let plan = run(&glibc_corpus(), &[]);
    assert_eq!(plan.report(), "");
    assert_eq!(plan.graph.node_count(), 0);
    assert_eq!(plan.dot(), "digraph {\n}\n");
}

#[test]
fn the_plan_exports_its_graph() {
    let plan = run(&glibc_corpus(), &["bash"]);
    assert_eq!(
        plan.dot(),
        "digraph {\n    0 [ label = \"bash\" ]\n    1 [ label = \"vim\" ]\n    0 -> 1 [ ]\n}\n"
    );
}
