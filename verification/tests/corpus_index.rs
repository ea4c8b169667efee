use rebuilder::corpus::find_package_anywhere;
use rebuilder::corpus::validate_seeds;
use rebuilder::corpus::Package;
use rebuilder::corpus::Repository;
use rebuilder::error::RebuildError;
use rebuilder::index::get_reverse_deps_map;
use rebuilder::index::ReverseIndex;
use rebuilder::report::render_line;
use rebuilder::report::render_report;

fn text(s: &str) -> String {
    s.to_string()
}

fn texts(items: &[&str]) -> Vec<String> {
    items.iter().map(|s| s.to_string()).collect()
}

fn pkg(name: &str, base: Option<&str>, depends: &[&str], makedepends: &[&str]) -> Package {
    Package {
        name: text(name),
        base: base.map(text),
        depends: texts(depends),
        makedepends: texts(makedepends),
    }
}

fn repo(name: &str, packages: Vec<Package>) -> Repository {
    Repository { name: text(name), packages: Some(packages) }
}

fn broken_repo(name: &str) -> Repository {
    Repository { name: text(name), packages: None }
}

fn entry(index: &ReverseIndex, name: &str) -> Option<Vec<String>> {
    index.get(&text(name)).cloned()
}

#[test]
fn identity_is_the_base_where_there_is_one() {
    let split = pkg("gcc-libs", Some("gcc"), &[], &[]);
    let plain = pkg("bash", None, &[], &[]);
    assert_eq!(split.identity(), "gcc");
    assert_eq!(plain.identity(), "bash");
}

#[test]
fn index_lists_dependents_in_scan_order() {
    let repos = vec![
        repo(
            "core",
            vec![
                pkg("glibc", None, &[], &[]),
                pkg("bash", None, &["glibc", "readline"], &[]),
                pkg("coreutils", None, &["glibc"], &[]),
            ],
        ),
        repo("extra", vec![pkg("vim", None, &["bash", "glibc"], &[])]),
    ];
    let index = get_reverse_deps_map(&repos).ok().unwrap();
    assert_eq!(entry(&index, "glibc"), Some(texts(&["bash", "coreutils", "vim"])));
    assert_eq!(entry(&index, "readline"), Some(texts(&["bash"])));
    assert_eq!(entry(&index, "bash"), Some(texts(&["vim"])));
    assert_eq!(entry(&index, "vim"), None);
    assert_eq!(entry(&index, "coreutils"), None);
}

#[test]
fn index_merges_runtime_before_build_time() {
    let repos = vec![repo(
        "core",
        vec![
            pkg("one", None, &["zlib"], &["cmake", "zlib"]),
            pkg("two", None, &[], &["zlib"]),
        ],
    )];
    let index = get_reverse_deps_map(&repos).ok().unwrap();
    assert_eq!(entry(&index, "zlib"), Some(texts(&["one", "one", "two"])));
    assert_eq!(entry(&index, "cmake"), Some(texts(&["one"])));
}

#[test]
fn index_records_the_base_of_split_packages() {
    let repos = vec![repo(
        "core",
        vec![
            pkg("gcc", Some("gcc"), &["glibc"], &[]),
            pkg("gcc-libs", Some("gcc"), &["glibc"], &[]),
            pkg("bash", None, &["glibc"], &[]),
        ],
    )];
    let index = get_reverse_deps_map(&repos).ok().unwrap();
    assert_eq!(entry(&index, "glibc"), Some(texts(&["gcc", "gcc", "bash"])));
}

#[test]
fn index_of_an_empty_corpus_is_empty() {
    let index = get_reverse_deps_map(&Vec::new()).ok().unwrap();
    assert_eq!(entry(&index, "glibc"), None);
    let index = get_reverse_deps_map(&vec![repo("core", vec![])]).ok().unwrap();
    assert_eq!(entry(&index, "glibc"), None);
}

#[test]
fn index_fails_on_the_first_unavailable_repository() {
    let repos = vec![
        repo("core", vec![pkg("bash", None, &["glibc"], &[])]),
        broken_repo("extra"),
        broken_repo("community"),
    ];
    match get_reverse_deps_map(&repos) {
        Ok(_) => panic!("an index was built from part of the corpus"),
        Err(e) => assert_eq!(e, RebuildError::CorpusUnavailable { repository: text("extra") }),
    }
}

#[test]
fn record_appends_and_keeps_duplicates() {
    let mut index = ReverseIndex::new();
    assert_eq!(entry(&index, "a"), None);
    index.record(&text("a"), text("x"));
    index.record(&text("b"), text("y"));
    index.record(&text("a"), text("z"));
    index.record(&text("a"), text("x"));
    assert_eq!(entry(&index, "a"), Some(texts(&["x", "z", "x"])));
    assert_eq!(entry(&index, "b"), Some(texts(&["y"])));
    assert_eq!(entry(&index, "x"), None);
}

#[test]
fn lookup_takes_the_first_repository_that_lists_the_package() {
    let repos = vec![
        broken_repo("testing"),
        repo("core", vec![pkg("bash", None, &["glibc"], &[])]),
        repo(
            "extra",
            vec![pkg("bash", None, &["glibc", "readline"], &[]), pkg("vim", None, &[], &[])],
        ),
    ];
    let found = find_package_anywhere(&text("bash"), &repos).unwrap();
    assert_eq!(found.depends, texts(&["glibc"]));
    let found = find_package_anywhere(&text("vim"), &repos).unwrap();
    assert_eq!(found.name, "vim");
}

#[test]
fn lookup_goes_by_name_not_by_base() {
    let repos = vec![repo("core", vec![pkg("gcc-libs", Some("gcc"), &[], &[])])];
    assert!(find_package_anywhere(&text("gcc-libs"), &repos).is_ok());
    assert_eq!(
        find_package_anywhere(&text("gcc"), &repos),
        Err(RebuildError::PackageNotFound { name: text("gcc") })
    );
}

#[test]
fn lookup_fails_in_an_empty_corpus() {
    assert_eq!(
        find_package_anywhere(&text("bash"), &Vec::new()),
        Err(RebuildError::PackageNotFound { name: text("bash") })
    );
}

#[test]
fn validation_names_the_first_unresolved_seed() {
    let repos = vec![repo("core", vec![pkg("bash", None, &[], &[]), pkg("vim", None, &[], &[])])];
    assert_eq!(validate_seeds(&texts(&["bash", "vim"]), &repos), Ok(()));
    assert_eq!(validate_seeds(&Vec::new(), &repos), Ok(()));
    assert_eq!(
        validate_seeds(&texts(&["bash", "nano", "vim", "emacs"]), &repos),
        Err(RebuildError::PackageNotFound { name: text("nano") })
    );
}

#[test]
fn error_messages_name_what_failed() {
    let corpus = RebuildError::CorpusUnavailable { repository: text("extra") };
    assert_eq!(corpus.message(), "unable to get packages from sync db extra");
    let seed = RebuildError::PackageNotFound { name: text("nano") };
    assert_eq!(seed.message(), "could not find package nano");
}

#[test]
fn a_line_is_names_separated_by_spaces_and_a_newline() {
    assert_eq!(render_line(&texts(&["glibc", "bash", "coreutils"])), "glibc bash coreutils\n");
    assert_eq!(render_line(&texts(&["glibc"])), "glibc\n");
    assert_eq!(render_line(&Vec::new()), "\n");
}

#[test]
fn a_report_is_its_lines_in_order() {
    let lines = vec![texts(&["a", "b"]), texts(&["c"]), texts(&["d", "e", "f"])];
    assert_eq!(render_report(&lines), "a b\nc\nd e f\n");
    assert_eq!(render_report(&Vec::new()), "");
}
