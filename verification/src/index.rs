//! The reverse-dependency index: for each package name, the packages that
//! declare it as a dependency, in the order in which the corpus scan met
//! them.

use crate::corpus::corpus_view;
use crate::corpus::names;
use crate::corpus::package_views;
use crate::corpus::PackageView;
use crate::corpus::Repository;
use crate::corpus::RepositoryView;
use crate::error::RebuildError;
use crate::error::RebuildErrorView;
use vstd::hash_map::StringHashMap;
use vstd::prelude::*;

verus! {

/// One occurrence of a dependency in the corpus: `dependent` declares
/// `dependency`.
pub struct Declaration {
    pub dependency: Seq<char>,
    pub dependent: Seq<char>,
}

/// The declarations of one package: one per entry of its dependency lists,
/// runtime dependencies first, each under the package's identity.
pub open spec fn package_declarations(pkg: PackageView) -> Seq<Declaration> {
    Seq::new(
        pkg.declared().len(),
        |k: int| Declaration { dependency: pkg.declared()[k], dependent: pkg.identity() },
    )
}

/// The declarations of a package list, package by package.
pub open spec fn list_declarations(pkgs: Seq<PackageView>) -> Seq<Declaration>
    decreases pkgs.len(),
{
    if pkgs.len() == 0 {
        Seq::empty()
    } else {
        list_declarations(pkgs.drop_last()) + package_declarations(pkgs.last())
    }
}

/// The declarations of one repository.
pub open spec fn repository_declarations(repo: RepositoryView) -> Seq<Declaration> {
    match repo.packages {
        Some(pkgs) => list_declarations(pkgs),
        None => Seq::empty(),
    }
}

/// Every declaration of the corpus, in scan order: repository by
/// repository, package by package.
pub open spec fn corpus_declarations(corpus: Seq<RepositoryView>) -> Seq<Declaration>
    decreases corpus.len(),
{
    if corpus.len() == 0 {
        Seq::empty()
    } else {
        corpus_declarations(corpus.drop_last()) + repository_declarations(corpus.last())
    }
}

/// The mathematical value of an index: for each name that something
/// declares, its dependents.
pub type IndexModel = Map<Seq<char>, Seq<Seq<char>>>;

/// The dependents of `name`: one entry per declaration of it, in scan order.
/// A package that declares the name twice is listed twice.
pub open spec fn dependents(decls: Seq<Declaration>, name: Seq<char>) -> Seq<Seq<char>>
    decreases decls.len(),
{
    if decls.len() == 0 {
        Seq::empty()
    } else if decls.last().dependency == name {
        dependents(decls.drop_last(), name).push(decls.last().dependent)
    } else {
        dependents(decls.drop_last(), name)
    }
}

/// Whether anything declares `name`.
pub open spec fn is_dependency(decls: Seq<Declaration>, name: Seq<char>) -> bool {
    exists|k: int| 0 <= k < decls.len() && (#[trigger] decls[k]).dependency == name
}

/// The index of a sequence of declarations: an entry for each name that
/// something declares, holding its dependents.
pub open spec fn index_of(decls: Seq<Declaration>) -> IndexModel {
    Map::new(
        |name: Seq<char>| is_dependency(decls, name),
        |name: Seq<char>| dependents(decls, name),
    )
}

/// The name of the first repository that could not be enumerated.
pub open spec fn first_unavailable(corpus: Seq<RepositoryView>) -> Option<Seq<char>>
    decreases corpus.len(),
{
    if corpus.len() == 0 {
        None
    } else if corpus[0].packages is None {
        Some(corpus[0].name)
    } else {
        first_unavailable(corpus.drop_first())
    }
}

/// A name that nothing declares has no dependents; a declared name has at
/// least one.
pub proof fn lemma_dependents_empty(decls: Seq<Declaration>, name: Seq<char>)
    ensures
        is_dependency(decls, name) <==> dependents(decls, name).len() > 0,
    decreases decls.len(),
{
    if decls.len() > 0 {
        let front = decls.drop_last();
        lemma_dependents_empty(front, name);
        if is_dependency(front, name) {
            let k = choose|k: int| 0 <= k < front.len() && (#[trigger] front[k]).dependency == name;
            assert(decls[k].dependency == name);
        }
        if decls.last().dependency == name {
            assert(decls[decls.len() - 1].dependency == name);
        } else if is_dependency(decls, name) {
            let k = choose|k: int| 0 <= k < decls.len() && (#[trigger] decls[k]).dependency == name;
            assert(front[k].dependency == name);
        }
    }
}

/// One more declaration appends its dependent to the entry of its
/// dependency, creating the entry where there was none.
pub proof fn lemma_index_push(decls: Seq<Declaration>, d: Declaration)
    ensures
        index_of(decls.push(d)) == index_of(decls).insert(
            d.dependency,
            dependents(decls, d.dependency).push(d.dependent),
        ),
{
    let more = decls.push(d);
    let left = index_of(more);
    let right = index_of(decls).insert(
        d.dependency,
        dependents(decls, d.dependency).push(d.dependent),
    );
    assert(more.drop_last() == decls);
    assert(more.last() == d);
    assert forall|name: Seq<char>| left.contains_key(name) <==> right.contains_key(name) by {
        if is_dependency(decls, name) {
            let k = choose|k: int| 0 <= k < decls.len() && (#[trigger] decls[k]).dependency == name;
            assert(more[k].dependency == name);
        }
        if name == d.dependency {
            assert(more[more.len() - 1].dependency == name);
        }
        if is_dependency(more, name) && name != d.dependency {
            let k = choose|k: int| 0 <= k < more.len() && (#[trigger] more[k]).dependency == name;
            assert(decls[k].dependency == name);
        }
    }
    assert(left =~= right);
}

/// The reverse-dependency index. It is built once from the corpus and only
/// read afterwards.
pub struct ReverseIndex {
    slots: StringHashMap<usize>,
    lists: Vec<Vec<String>>,
}

impl View for ReverseIndex {
    type V = IndexModel;

    closed spec fn view(&self) -> IndexModel {
        Map::new(
            |name: Seq<char>| self.slots@.contains_key(name),
            |name: Seq<char>| names(self.lists@[self.slots@[name] as int]@),
        )
    }
}

impl ReverseIndex {
    /// Every entry has a list of its own.
    pub closed spec fn wf(&self) -> bool {
        &&& forall|name: Seq<char>| #[trigger]
            self.slots@.contains_key(name) ==> self.slots@[name] < self.lists@.len()
        &&& forall|a: Seq<char>, b: Seq<char>|
            self.slots@.contains_key(a) && self.slots@.contains_key(b) && #[trigger] self.slots@[a]
                == #[trigger] self.slots@[b] ==> a == b
    }

    /// The index without entries.
    pub fn new() -> (index: ReverseIndex)
        ensures
            index.wf(),
            index@ == IndexModel::empty(),
    {
        let index = ReverseIndex { slots: StringHashMap::new(), lists: Vec::new() };
        assert(index@ =~= IndexModel::empty());
        index
    }

    /// The dependents recorded for `name`, if anything declares it.
    pub fn get(&self, name: &String) -> (entry: Option<&Vec<String>>)
        requires
            self.wf(),
        ensures
            match entry {
                Some(list) => self@.contains_key(name@) && names(list@) == self@[name@],
                None => !self@.contains_key(name@),
            },
    {
        match self.slots.get(name.as_str()) {
            Some(slot) => Some(&self.lists[*slot]),
            None => None,
        }
    }

    /// Records that `dependent` declares `dependency`: the dependent goes
    /// to the end of the entry of the dependency, which is created where it
    /// was absent. Nothing is deduplicated.
    pub fn record(&mut self, dependency: &String, dependent: String)
        requires
            old(self).wf(),
        ensures
            final(self).wf(),
            final(self)@ == old(self)@.insert(
                dependency@,
                if old(self)@.contains_key(dependency@) {
                    old(self)@[dependency@].push(dependent@)
                } else {
                    seq![dependent@]
                },
            ),
    {
        let ghost before = self@;
        let ghost old_lists = self.lists@;
        let ghost old_slots = self.slots@;
        let found: Option<usize> = match self.slots.get(dependency.as_str()) {
            Some(slot) => Some(*slot),
            None => None,
        };
        match found {
            Some(slot) => {
                self.lists[slot].push(dependent);
                proof {
                    assert(names(self.lists@[slot as int]@) =~= names(old_lists[slot as int]@).push(
                        dependent@,
                    ));
                    assert forall|name: Seq<char>| #[trigger]
                        self.slots@.contains_key(name) && name != dependency@ implies self.lists@[
                        self.slots@[name] as int] == old_lists[old_slots[name] as int] by {}
                    assert(self@ =~= before.insert(
                        dependency@,
                        before[dependency@].push(dependent@),
                    ));
                }
            },
            None => {
                let slot = self.lists.len();
                let mut list: Vec<String> = Vec::new();
                list.push(dependent);
                self.lists.push(list);
                self.slots.insert(dependency.clone(), slot);
                proof {
                    assert(names(self.lists@[slot as int]@) =~= seq![dependent@]);
                    assert(self@ =~= before.insert(dependency@, seq![dependent@]));
                }
            },
        }
    }
}

/// Appends the declarations of one dependency list of a package.
fn record_all(index: &mut ReverseIndex, deps: &Vec<String>, dependent: &String, Ghost(decls): Ghost<
    Seq<Declaration>,
>)
    requires
        old(index).wf(),
        old(index)@ == index_of(decls),
    ensures
        final(index).wf(),
        final(index)@ == index_of(
            decls + Seq::new(
                deps@.len(),
                |k: int| Declaration { dependency: deps@[k]@, dependent: dependent@ },
            ),
        ),
{
    let ghost added = Seq::new(
        deps@.len(),
        |k: int| Declaration { dependency: deps@[k]@, dependent: dependent@ },
    );
    let mut k: usize = 0;
    assert(decls + added.take(0) == decls);
    while k < deps.len()
        invariant
            k <= deps.len(),
            index.wf(),
            added == Seq::new(
                deps@.len(),
                |k: int| Declaration { dependency: deps@[k]@, dependent: dependent@ },
            ),
            index@ == index_of(decls + added.take(k as int)),
        decreases deps.len() - k,
    {
        proof {
            let sofar = decls + added.take(k as int);
            lemma_index_push(sofar, added[k as int]);
            lemma_dependents_empty(sofar, added[k as int].dependency);
            assert(sofar.push(added[k as int]) == decls + added.take(k as int + 1));
            if !is_dependency(sofar, added[k as int].dependency) {
                assert(dependents(sofar, added[k as int].dependency).push(dependent@) == seq![
                    dependent@,
                ]);
            }
        }
        index.record(&deps[k], dependent.clone());
        k = k + 1;
    }
    assert(added.take(deps@.len() as int) == added);
}

/// Scans the corpus once and builds the index. The scan fails on the
/// first repository that could not be enumerated: an index built from part
/// of the corpus would under-report what has to be rebuilt.
pub fn get_reverse_deps_map(repos: &Vec<Repository>) -> (built: Result<ReverseIndex, RebuildError>)
    ensures
        match built {
            Ok(index) => {
                &&& first_unavailable(corpus_view(repos@)) is None
                &&& index.wf()
                &&& index@ == index_of(corpus_declarations(corpus_view(repos@)))
            },
            Err(e) => first_unavailable(corpus_view(repos@)) matches Some(name) && e@
                == (RebuildErrorView::CorpusUnavailable { repository: name }),
        },
{
    let ghost corpus = corpus_view(repos@);
    let mut index = ReverseIndex::new();
    let mut i: usize = 0;
    proof {
        assert(corpus.skip(0) == corpus);
        assert(corpus.take(0) == Seq::<RepositoryView>::empty());
        assert(index@ =~= index_of(Seq::<Declaration>::empty()));
    }
    while i < repos.len()
        invariant
            i <= repos.len(),
            corpus == corpus_view(repos@),
            index.wf(),
            first_unavailable(corpus) == first_unavailable(corpus.skip(i as int)),
            index@ == index_of(corpus_declarations(corpus.take(i as int))),
        decreases repos.len() - i,
    {
        let ghost done = corpus_declarations(corpus.take(i as int));
        proof {
            assert(corpus.skip(i as int).len() > 0);
            assert(corpus.skip(i as int).drop_first() == corpus.skip(i as int + 1));
            assert(corpus.skip(i as int)[0] == repos@[i as int]@);
            assert(corpus.take(i as int + 1).drop_last() == corpus.take(i as int));
            assert(corpus.take(i as int + 1).last() == repos@[i as int]@);
        }
        match &repos[i].packages {
            None => {
                return Err(RebuildError::CorpusUnavailable { repository: repos[i].name.clone() });
            },
            Some(pkgs) => {
                let ghost list = package_views(pkgs@);
                let mut j: usize = 0;
                proof {
                    assert(list.take(0) == Seq::<PackageView>::empty());
                    assert(done + list_declarations(list.take(0)) == done);
                }
                while j < pkgs.len()
                    invariant
                        j <= pkgs.len(),
                        list == package_views(pkgs@),
                        index.wf(),
                        index@ == index_of(done + list_declarations(list.take(j as int))),
                    decreases pkgs.len() - j,
                {
                    let pkg = &pkgs[j];
                    let ghost before = done + list_declarations(list.take(j as int));
                    let ghost runtime = Seq::new(
                        pkg.depends@.len(),
                        |k: int|
                            Declaration {
                                dependency: pkg.depends@[k]@,
                                dependent: pkg@.identity(),
                            },
                    );
                    let ghost build = Seq::new(
                        pkg.makedepends@.len(),
                        |k: int|
                            Declaration {
                                dependency: pkg.makedepends@[k]@,
                                dependent: pkg@.identity(),
                            },
                    );
                    record_all(&mut index, &pkg.depends, pkg.identity(), Ghost(before));
                    record_all(
                        &mut index,
                        &pkg.makedepends,
                        pkg.identity(),
                        Ghost(before + runtime),
                    );
                    proof {
                        assert(list.take(j as int + 1).drop_last() == list.take(j as int));
                        assert(list.take(j as int + 1).last() == pkg@);
                        assert(runtime + build =~= package_declarations(pkg@));
                        assert(before + runtime + build == done + list_declarations(
                            list.take(j as int + 1),
                        ));
                    }
                    j = j + 1;
                }
                proof {
                    assert(list.take(pkgs@.len() as int) == list);
                }
            },
        }
        i = i + 1;
    }
    proof {
        assert(corpus.take(repos@.len() as int) == corpus);
    }
    Ok(index)
}

} // verus!
