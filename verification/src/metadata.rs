//! The description of a resolved project, as it is handed to the library:
//! packages, the edges between them by package identifier, and the roots.

use crate::graph_model::DependencyKind;
use crate::version::Version;
use vstd::prelude::*;

verus! {

/// The target kind that marks a package as a proc-macro.
pub open spec fn proc_macro_kind() -> Seq<char> {
    "proc-macro"@
}

/// A package of the project. Its identifier is an opaque key that no other
/// package of the project has.
#[derive(Clone, Debug, PartialEq, Eq)]
pub struct PackageNode {
    pub id: String,
    pub name: String,
    pub version: Version,
    pub authors: Vec<String>,
    pub license: Option<String>,
    pub license_file: Option<String>,
    pub repository: Option<String>,
    pub description: Option<String>,
    /// The kinds of the targets that the package builds.
    pub target_kinds: Vec<String>,
}

/// A dependency of the package `source` on the package `target`, in one or
/// more roles. No kind at all means that the kinds are not known.
#[derive(Clone, Debug, PartialEq, Eq)]
pub struct DependencyEdge {
    pub source: String,
    pub target: String,
    pub kinds: Vec<DependencyKind>,
}

/// The resolved dependencies of a project: the edges, and the root package
/// where the project has a single one.
#[derive(Clone, Debug, PartialEq, Eq)]
pub struct ResolvedDependencies {
    pub edges: Vec<DependencyEdge>,
    pub root: Option<String>,
}

/// A project: its packages, its resolved dependencies where they are
/// known, and the members of its workspace.
#[derive(Clone, Debug, PartialEq, Eq)]
pub struct ProjectMetadata {
    pub packages: Vec<PackageNode>,
    pub resolve: Option<ResolvedDependencies>,
    pub workspace_members: Vec<String>,
}

/// The identifiers of the packages, in their order.
pub open spec fn package_ids(packages: Seq<PackageNode>) -> Seq<Seq<char>> {
    Seq::new(packages.len(), |i: int| packages[i].id@)
}

/// The index of the first package with the identifier `id`.
pub open spec fn index_of(ids: Seq<Seq<char>>, id: Seq<char>) -> Option<int>
    decreases ids.len(),
{
    if ids.len() == 0 {
        None
    } else {
        match index_of(ids.drop_last(), id) {
            Some(i) => Some(i),
            None => if ids.last() == id {
                Some(ids.len() - 1)
            } else {
                None
            },
        }
    }
}

/// `index_of` finds a package with the identifier, and none before it has
/// the identifier.
pub proof fn lemma_index_of(ids: Seq<Seq<char>>, id: Seq<char>)
    ensures
        match index_of(ids, id) {
            Some(i) => 0 <= i < ids.len() && ids[i] == id && forall|k: int|
                0 <= k < i ==> ids[k] != id,
            None => forall|k: int| 0 <= k < ids.len() ==> ids[k] != id,
        },
    decreases ids.len(),
{
    if ids.len() > 0 {
        lemma_index_of(ids.drop_last(), id);
        assert forall|k: int| 0 <= k < ids.len() - 1 implies ids.drop_last()[k] == ids[k] by {}
    }
}

/// Whether the package builds a proc-macro: one of its target kinds is
/// `proc-macro`.
pub open spec fn builds_proc_macro(package: PackageNode) -> bool {
    exists|k: int|
        0 <= k < package.target_kinds.len() && (#[trigger] package.target_kinds[k])@
            == proc_macro_kind()
}

} // verus!
