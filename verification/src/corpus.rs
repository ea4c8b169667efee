//! The package corpus as plain values, and the resolution of seed names
//! against it.

use crate::error::RebuildError;
use crate::error::RebuildErrorView;
use vstd::prelude::*;

verus! {

/// The names held by a sequence of strings.
pub open spec fn names(v: Seq<String>) -> Seq<Seq<char>> {
    Seq::new(v.len(), |i: int| v[i]@)
}

/// One package of a repository: its name, the name of the source base that it
/// was split from (if any), and the names that it declares as runtime and as
/// build-time dependencies.
#[derive(Debug, Clone, PartialEq, Eq)]
pub struct Package {
    pub name: String,
    pub base: Option<String>,
    pub depends: Vec<String>,
    pub makedepends: Vec<String>,
}

/// The mathematical value of a `Package`.
pub struct PackageView {
    pub name: Seq<char>,
    pub base: Option<Seq<char>>,
    pub depends: Seq<Seq<char>>,
    pub makedepends: Seq<Seq<char>>,
}

impl PackageView {
    /// The name under which the package is recorded as a dependent: its base,
    /// or its own name where it has none.
    pub open spec fn identity(self) -> Seq<char> {
        match self.base {
            Some(base) => base,
            None => self.name,
        }
    }

    /// Everything the package declares, runtime dependencies first.
    pub open spec fn declared(self) -> Seq<Seq<char>> {
        self.depends + self.makedepends
    }
}

impl View for Package {
    type V = PackageView;

    open spec fn view(&self) -> PackageView {
        PackageView {
            name: self.name@,
            base: match self.base {
                Some(base) => Some(base@),
                None => None,
            },
            depends: names(self.depends@),
            makedepends: names(self.makedepends@),
        }
    }
}

impl Package {
    /// The name under which this package is recorded as a dependent.
    pub fn identity(&self) -> (id: &String)
        ensures
            id@ == self@.identity(),
    {
        match &self.base {
            Some(base) => base,
            None => &self.name,
        }
    }
}

/// One configured repository. `packages` is `None` where the repository
/// could not be enumerated.
#[derive(Debug, Clone, PartialEq, Eq)]
pub struct Repository {
    pub name: String,
    pub packages: Option<Vec<Package>>,
}

/// The mathematical value of a `Repository`.
pub struct RepositoryView {
    pub name: Seq<char>,
    pub packages: Option<Seq<PackageView>>,
}

/// The values of a sequence of packages.
pub open spec fn package_views(v: Seq<Package>) -> Seq<PackageView> {
    Seq::new(v.len(), |i: int| v[i]@)
}

impl View for Repository {
    type V = RepositoryView;

    open spec fn view(&self) -> RepositoryView {
        RepositoryView {
            name: self.name@,
            packages: match self.packages {
                Some(pkgs) => Some(package_views(pkgs@)),
                None => None,
            },
        }
    }
}

/// The values of a sequence of repositories: the corpus.
pub open spec fn corpus_view(v: Seq<Repository>) -> Seq<RepositoryView> {
    Seq::new(v.len(), |i: int| v[i]@)
}

/// The first package called `name` in a package list.
pub open spec fn find_in(pkgs: Seq<PackageView>, name: Seq<char>) -> Option<PackageView>
    decreases pkgs.len(),
{
    if pkgs.len() == 0 {
        None
    } else if pkgs[0].name == name {
        Some(pkgs[0])
    } else {
        find_in(pkgs.drop_first(), name)
    }
}

/// The package called `name` in one repository, if the repository could be
/// enumerated and lists it.
pub open spec fn find_in_repository(repo: RepositoryView, name: Seq<char>) -> Option<PackageView> {
    match repo.packages {
        Some(pkgs) => find_in(pkgs, name),
        None => None,
    }
}

/// The package called `name` in the first repository that lists it.
pub open spec fn find_anywhere(corpus: Seq<RepositoryView>, name: Seq<char>) -> Option<
    PackageView,
>
    decreases corpus.len(),
{
    if corpus.len() == 0 {
        None
    } else {
        match find_in_repository(corpus[0], name) {
            Some(pkg) => Some(pkg),
            None => find_anywhere(corpus.drop_first(), name),
        }
    }
}

/// A name is resolvable when some repository lists a package of that name.
pub open spec fn resolvable(corpus: Seq<RepositoryView>, name: Seq<char>) -> bool {
    exists|i: int, j: int|
        0 <= i < corpus.len() && corpus[i].packages is Some && 0 <= j
            < corpus[i].packages->0.len() && (#[trigger] corpus[i].packages->0[j]).name == name
}

/// The first seed, in the caller's order, that no repository lists.
pub open spec fn first_unresolved(corpus: Seq<RepositoryView>, seeds: Seq<Seq<char>>) -> Option<
    Seq<char>,
>
    decreases seeds.len(),
{
    if seeds.len() == 0 {
        None
    } else if find_anywhere(corpus, seeds[0]) is None {
        Some(seeds[0])
    } else {
        first_unresolved(corpus, seeds.drop_first())
    }
}

/// `find_in` finds a package exactly when the list holds one of that name,
/// and what it finds bears the name.
pub proof fn lemma_find_in(pkgs: Seq<PackageView>, name: Seq<char>)
    ensures
        find_in(pkgs, name) is Some <==> exists|j: int|
            0 <= j < pkgs.len() && (#[trigger] pkgs[j]).name == name,
        find_in(pkgs, name) matches Some(pkg) ==> pkg.name == name && pkgs.contains(pkg),
    decreases pkgs.len(),
{
    if pkgs.len() == 0 {
    } else if pkgs[0].name == name {
    } else {
        let rest = pkgs.drop_first();
        lemma_find_in(rest, name);
        if find_in(rest, name) is Some {
            let j = choose|j: int| 0 <= j < rest.len() && (#[trigger] rest[j]).name == name;
            assert(pkgs[j + 1].name == name);
            let pkg = find_in(rest, name)->0;
            let k = choose|k: int| 0 <= k < rest.len() && rest[k] == pkg;
            assert(pkgs[k + 1] == pkg);
        }
        if exists|j: int| 0 <= j < pkgs.len() && (#[trigger] pkgs[j]).name == name {
            let j = choose|j: int| 0 <= j < pkgs.len() && (#[trigger] pkgs[j]).name == name;
            assert(rest[j - 1].name == name);
        }
    }
}

/// Seed resolution is binary: a package is found exactly when the name is
/// resolvable, whichever repository reports it first.
pub proof fn lemma_find_anywhere(corpus: Seq<RepositoryView>, name: Seq<char>)
    ensures
        find_anywhere(corpus, name) is Some <==> resolvable(corpus, name),
        find_anywhere(corpus, name) matches Some(pkg) ==> pkg.name == name,
    decreases corpus.len(),
{
    if corpus.len() == 0 {
    } else {
        let rest = corpus.drop_first();
        lemma_find_anywhere(rest, name);
        if corpus[0].packages is Some {
            lemma_find_in(corpus[0].packages->0, name);
        }
        if find_in_repository(corpus[0], name) is Some {
            let pkgs = corpus[0].packages->0;
            let j = choose|j: int| 0 <= j < pkgs.len() && (#[trigger] pkgs[j]).name == name;
            assert(corpus[0].packages->0[j].name == name);
        } else {
            if resolvable(rest, name) {
                let (i, j) = choose|i: int, j: int|
                    0 <= i < rest.len() && rest[i].packages is Some && 0 <= j
                        < rest[i].packages->0.len() && (#[trigger] rest[i].packages->0[j]).name
                        == name;
                assert(corpus[i + 1].packages->0[j].name == name);
            }
            if resolvable(corpus, name) {
                let (i, j) = choose|i: int, j: int|
                    0 <= i < corpus.len() && corpus[i].packages is Some && 0 <= j
                        < corpus[i].packages->0.len() && (
                    #[trigger] corpus[i].packages->0[j]).name == name;
                if i == 0 {
                    assert(corpus[0].packages->0[j].name == name);
                } else {
                    assert(rest[i - 1].packages->0[j].name == name);
                }
            }
        }
    }
}

/// Validation passes exactly when every seed is resolvable; otherwise it
/// names a seed that is not, and every seed before it is.
pub proof fn lemma_first_unresolved(corpus: Seq<RepositoryView>, seeds: Seq<Seq<char>>)
    ensures
        first_unresolved(corpus, seeds) is None <==> forall|i: int|
            0 <= i < seeds.len() ==> resolvable(corpus, #[trigger] seeds[i]),
        first_unresolved(corpus, seeds) matches Some(name) ==> exists|i: int|
            0 <= i < seeds.len() && #[trigger] seeds[i] == name && !resolvable(corpus, name)
                && forall|k: int| 0 <= k < i ==> resolvable(corpus, #[trigger] seeds[k]),
    decreases seeds.len(),
{
    if seeds.len() == 0 {
    } else {
        let rest = seeds.drop_first();
        lemma_find_anywhere(corpus, seeds[0]);
        lemma_first_unresolved(corpus, rest);
        if find_anywhere(corpus, seeds[0]) is None {
            assert(seeds[0] == seeds[0]);
        } else {
            if first_unresolved(corpus, rest) is None {
                assert forall|i: int| 0 <= i < seeds.len() implies resolvable(
                    corpus,
                    #[trigger] seeds[i],
                ) by {
                    if i > 0 {
                        assert(rest[i - 1] == seeds[i]);
                    }
                }
            } else {
                let name = first_unresolved(corpus, rest)->0;
                let i = choose|i: int|
                    0 <= i < rest.len() && #[trigger] rest[i] == name && !resolvable(corpus, name)
                        && forall|k: int| 0 <= k < i ==> resolvable(corpus, #[trigger] rest[k]);
                assert(seeds[i + 1] == name);
                assert forall|k: int| 0 <= k < i + 1 implies resolvable(
                    corpus,
                    #[trigger] seeds[k],
                ) by {
                    if k > 0 {
                        assert(rest[k - 1] == seeds[k]);
                    }
                }
            }
        }
    }
}

/// Looks a package up by name in one package list.
fn find_in_packages<'a>(name: &String, pkgs: &'a Vec<Package>) -> (found: Option<&'a Package>)
    ensures
        match found {
            Some(pkg) => find_in(package_views(pkgs@), name@) == Some(pkg@),
            None => find_in(package_views(pkgs@), name@) is None,
        },
{
    let ghost all = package_views(pkgs@);
    let mut j: usize = 0;
    assert(all.skip(0) == all);
    while j < pkgs.len()
        invariant
            j <= pkgs.len(),
            all == package_views(pkgs@),
            find_in(all, name@) == find_in(all.skip(j as int), name@),
        decreases pkgs.len() - j,
    {
        proof {
            assert(all.skip(j as int).len() > 0);
            assert(all.skip(j as int).drop_first() == all.skip(j as int + 1));
            assert(all.skip(j as int)[0] == pkgs@[j as int]@);
        }
        if pkgs[j].name == *name {
            return Some(&pkgs[j]);
        }
        j = j + 1;
    }
    None
}

/// Looks a package up by name across the repositories, in their configured
/// order; the first repository that lists it wins. Repositories that could
/// not be enumerated list nothing.
pub fn find_package_anywhere<'a>(name: &String, repos: &'a Vec<Repository>) -> (found: Result<
    &'a Package,
    RebuildError,
>)
    ensures
        match found {
            Ok(pkg) => find_anywhere(corpus_view(repos@), name@) == Some(pkg@),
            Err(e) => find_anywhere(corpus_view(repos@), name@) is None && e@
                == (RebuildErrorView::PackageNotFound { name: name@ }),
        },
{
    let ghost corpus = corpus_view(repos@);
    let mut i: usize = 0;
    assert(corpus.skip(0) == corpus);
    while i < repos.len()
        invariant
            i <= repos.len(),
            corpus == corpus_view(repos@),
            find_anywhere(corpus, name@) == find_anywhere(corpus.skip(i as int), name@),
        decreases repos.len() - i,
    {
        proof {
            assert(corpus.skip(i as int).len() > 0);
            assert(corpus.skip(i as int).drop_first() == corpus.skip(i as int + 1));
            assert(corpus.skip(i as int)[0] == repos@[i as int]@);
        }
        match &repos[i].packages {
            Some(pkgs) => {
                match find_in_packages(name, pkgs) {
                    Some(pkg) => {
                        return Ok(pkg);
                    },
                    None => {},
                }
            },
            None => {},
        }
        i = i + 1;
    }
    Err(RebuildError::PackageNotFound { name: name.clone() })
}

/// Checks every seed against the corpus before anything is expanded: the
/// first seed that no repository lists aborts the run.
pub fn validate_seeds(seeds: &Vec<String>, repos: &Vec<Repository>) -> (checked: Result<
    (),
    RebuildError,
>)
    ensures
        match checked {
            Ok(()) => first_unresolved(corpus_view(repos@), names(seeds@)) is None,
            Err(e) => first_unresolved(corpus_view(repos@), names(seeds@)) matches Some(name)
                && e@ == (RebuildErrorView::PackageNotFound { name }),
        },
{
    let ghost corpus = corpus_view(repos@);
    let ghost all = names(seeds@);
    let mut i: usize = 0;
    assert(all.skip(0) == all);
    while i < seeds.len()
        invariant
            i <= seeds.len(),
            corpus == corpus_view(repos@),
            all == names(seeds@),
            first_unresolved(corpus, all) == first_unresolved(corpus, all.skip(i as int)),
        decreases seeds.len() - i,
    {
        proof {
            assert(all.skip(i as int).len() > 0);
            assert(all.skip(i as int).drop_first() == all.skip(i as int + 1));
            assert(all.skip(i as int)[0] == seeds@[i as int]@);
        }
        match find_package_anywhere(&seeds[i], repos) {
            Ok(_) => {},
            Err(e) => {
                return Err(e);
            },
        }
        i = i + 1;
    }
    Ok(())
}

} // verus!
