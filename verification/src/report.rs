//! The report of a project: the records of the packages that a policy
//! selects, in their order.

use crate::details::{
    ascending_by_key, details_of, models, sort_details, sorted_records, DependencyDetails,
    DetailsModel,
};
use crate::error::DependencyError;
use crate::filter::{warnings_of, PolicyWarning};
use crate::graph::{graph_model, indices, DependencyGraph};
use crate::metadata::{PackageNode, ProjectMetadata};
use crate::policy::GetDependenciesOpt;
use vstd::prelude::*;

verus! {

/// The records of the packages with the given indices, in their order.
pub open spec fn records_of(packages: Seq<PackageNode>, selected: Seq<int>) -> Seq<DetailsModel> {
    Seq::new(selected.len(), |i: int| details_of(packages[selected[i]]))
}

/// The report of a project under a policy: the records of the selected
/// packages in ascending order, or the reason why there is none.
pub open spec fn report_of(metadata: ProjectMetadata, opt: GetDependenciesOpt) -> Result<
    Seq<DetailsModel>,
    DependencyError,
> {
    match metadata.resolve {
        None => Err(DependencyError::MissingResolveData),
        Some(resolve) => {
            let g = graph_model(metadata.packages@, resolve, metadata.workspace_members@);
            if g.roots.len() == 0 {
                Err(DependencyError::NoRootPackage)
            } else {
                Ok(
                    sorted_records(
                        records_of(metadata.packages@, g.selection(opt, g.size())),
                    ),
                )
            }
        },
    }
}

/// The report that a result stands for.
pub open spec fn report_view(report: Result<Vec<DependencyDetails>, DependencyError>) -> Result<
    Seq<DetailsModel>,
    DependencyError,
> {
    match report {
        Ok(list) => Ok(models(list@)),
        Err(e) => Err(e),
    }
}

/// The records of the packages that the policy selects.
pub fn selected_details(graph: &DependencyGraph, opt: &GetDependenciesOpt) -> (r: Vec<
    DependencyDetails,
>)
    ensures
        models(r@) == records_of(graph.packages(), graph@.selection(*opt, graph@.size())),
{
    let selected = graph.filter(opt);
    let mut out: Vec<DependencyDetails> = Vec::new();
    let mut i: usize = 0;
    while i < selected.len()
        invariant
            i <= selected.len(),
            forall|k: int| 0 <= k < selected@.len() ==> (#[trigger] selected@[k]) < graph.packages().len(),
            out@.len() == i,
            forall|k: int|
                0 <= k < i ==> (#[trigger] out@[k])@ == details_of(
                    graph.packages()[selected@[k] as int],
                ),
        decreases selected.len() - i,
    {
        let record = DependencyDetails::new(graph.package(selected[i]));
        out.push(record);
        i = i + 1;
    }
    assert(models(out@) =~= records_of(graph.packages(), indices(selected@)));
    out
}

/// A report: the records of the selected packages in ascending order, and
/// the warnings that the policy drew.
#[derive(Clone, Debug, PartialEq, Eq)]
pub struct Report {
    pub dependencies: Vec<DependencyDetails>,
    pub warnings: Vec<PolicyWarning>,
}

/// The warnings of the report of a project under a policy.
pub open spec fn report_warnings_of(metadata: ProjectMetadata, opt: GetDependenciesOpt) -> Seq<
    PolicyWarning,
> {
    match metadata.resolve {
        None => Seq::empty(),
        Some(resolve) => warnings_of(
            graph_model(metadata.packages@, resolve, metadata.workspace_members@),
            opt,
        ),
    }
}

/// The report of a project under a policy, with the warnings that the
/// policy draws where the kinds of some edge are not known. There is no
/// report of a project without resolved dependencies, nor of one without
/// a root.
pub fn dependency_report(metadata: ProjectMetadata, opt: &GetDependenciesOpt) -> (r: Result<
    Report,
    DependencyError,
>)
    ensures
        match r {
            Ok(report) => report_of(metadata, *opt) == Ok::<Seq<DetailsModel>, DependencyError>(
                models(report.dependencies@),
            ) && report.warnings@ == report_warnings_of(metadata, *opt) && ascending_by_key(
                models(report.dependencies@),
            ),
            Err(e) => report_of(metadata, *opt) == Err::<Seq<DetailsModel>, DependencyError>(e),
        },
{
    match DependencyGraph::build(metadata) {
        Err(e) => Err(e),
        Ok(graph) => {
            proof {
                use_type_invariant(&graph);
                graph.lemma_well_formed();
            }
            let warnings = graph.warnings(opt);
            let dependencies = sort_details(selected_details(&graph, opt));
            Ok(Report { dependencies, warnings })
        },
    }
}

/// The dependencies of a project that the policy selects, as records in
/// ascending order. There is no report of a project without resolved
/// dependencies, nor of one without a root.
pub fn get_dependencies_from_cargo_lock(metadata: ProjectMetadata, opt: &GetDependenciesOpt) -> (r:
    Result<Vec<DependencyDetails>, DependencyError>)
    ensures
        report_view(r) == report_of(metadata, *opt),
        r matches Ok(list) ==> ascending_by_key(models(list@)),
{
    match dependency_report(metadata, opt) {
        Err(e) => Err(e),
        Ok(report) => Ok(report.dependencies),
    }
}

} // verus!
