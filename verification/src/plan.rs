//! A whole planning run: index the corpus, validate the seeds, expand the
//! graph, report.

use crate::corpus::corpus_view;
use crate::corpus::first_unresolved;
use crate::corpus::names;
use crate::corpus::validate_seeds;
use crate::corpus::Repository;
use crate::corpus::RepositoryView;
use crate::error::RebuildError;
use crate::error::RebuildErrorView;
use crate::expand::expand;
use crate::expand::expansion;
use crate::graph::DependencyGraph;
use crate::graph::GraphModel;
use crate::index::corpus_declarations;
use crate::index::first_unavailable;
use crate::index::get_reverse_deps_map;
use crate::index::index_of;
use crate::report::closure_report;
use crate::report::lines_view;
use crate::report::render_report;
use crate::report::report_lines;
use crate::report::report_text;
use crate::store::dot_text;
use vstd::prelude::*;

verus! {

/// What a successful run produces: the graph of affected packages and the
/// lines of the report.
pub struct RebuildPlan {
    pub graph: DependencyGraph,
    pub lines: Vec<Vec<String>>,
}

/// The mathematical value of a `RebuildPlan`.
pub struct RebuildPlanView {
    pub graph: GraphModel,
    pub lines: Seq<Seq<Seq<char>>>,
}

impl View for RebuildPlan {
    type V = RebuildPlanView;

    open spec fn view(&self) -> RebuildPlanView {
        RebuildPlanView { graph: self.graph@, lines: lines_view(self.lines@) }
    }
}

/// The error that aborts a run, if any: an unavailable repository comes
/// before an unresolvable seed, and the first of each kind is named.
pub open spec fn failure(corpus: Seq<RepositoryView>, seeds: Seq<Seq<char>>) -> Option<
    RebuildErrorView,
> {
    match first_unavailable(corpus) {
        Some(repository) => Some(RebuildErrorView::CorpusUnavailable { repository }),
        None => match first_unresolved(corpus, seeds) {
            Some(name) => Some(RebuildErrorView::PackageNotFound { name }),
            None => None,
        },
    }
}

/// The graph that a run builds for `seeds` over `corpus`.
pub open spec fn planned_graph(corpus: Seq<RepositoryView>, seeds: Seq<Seq<char>>) -> GraphModel {
    expansion(index_of(corpus_declarations(corpus)), seeds)
}

/// The outcome of a run: the error that aborts it, or the graph and the
/// report lines. It is a function of the corpus and the seed order alone.
pub open spec fn planned(corpus: Seq<RepositoryView>, seeds: Seq<Seq<char>>) -> Result<
    RebuildPlanView,
    RebuildErrorView,
> {
    match failure(corpus, seeds) {
        Some(e) => Err(e),
        None => Ok(
            RebuildPlanView {
                graph: planned_graph(corpus, seeds),
                lines: report_lines(planned_graph(corpus, seeds), seeds),
            },
        ),
    }
}

/// The mathematical value of what a run returns.
pub open spec fn outcome_view(outcome: Result<RebuildPlan, RebuildError>) -> Result<
    RebuildPlanView,
    RebuildErrorView,
> {
    match outcome {
        Ok(plan) => Ok(plan@),
        Err(e) => Err(e@),
    }
}

/// Plans the rebuild for `seeds` over the corpus `repos`. The index is
/// built from the whole corpus first, then every seed is validated, and only
/// then is anything expanded: a run that fails produces no line at all.
pub fn plan_rebuild(repos: &Vec<Repository>, seeds: &Vec<String>) -> (outcome: Result<
    RebuildPlan,
    RebuildError,
>)
    ensures
        outcome_view(outcome) == planned(corpus_view(repos@), names(seeds@)),
        outcome matches Ok(plan) ==> plan.graph.wf(),
{
    let index = match get_reverse_deps_map(repos) {
        Ok(index) => index,
        Err(e) => {
            return Err(e);
        },
    };
    match validate_seeds(seeds, repos) {
        Ok(()) => {},
        Err(e) => {
            return Err(e);
        },
    }
    let graph = expand(seeds, &index);
    let lines = closure_report(&graph, seeds);
    Ok(RebuildPlan { graph, lines })
}

impl RebuildPlan {
    /// The report as text, one line per seed.
    pub fn report(&self) -> (text: String)
        ensures
            text@ == report_text(self@.lines),
    {
        render_report(&self.lines)
    }

    /// The graph as DOT text.
    pub fn dot(&self) -> (text: String)
        ensures
            text@ == dot_text(self@.graph.nodes, self@.graph.edges),
    {
        self.graph.to_dot()
    }
}

} // verus!
