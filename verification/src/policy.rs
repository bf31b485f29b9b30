//! The policy by which the dependencies of a project are selected.

use vstd::prelude::*;

verus! {

/// Which dependencies are left out of a report. Every combination of the
/// flags is meaningful.
#[derive(Clone, Copy, Debug, PartialEq, Eq)]
pub struct GetDependenciesOpt {
    /// Do not follow an edge that is of the development kind alone.
    pub avoid_dev_deps: bool,
    /// Do not follow an edge that is of the build kind alone.
    pub avoid_build_deps: bool,
    /// Leave out proc-macro packages and what they depend on directly.
    pub avoid_proc_macros: bool,
    /// Keep only the roots and the packages named like a direct dependency
    /// of a root.
    pub direct_deps_only: bool,
    /// Keep only the roots.
    pub root_only: bool,
}

impl Default for GetDependenciesOpt {
    /// The policy that leaves nothing out.
    fn default() -> (r: Self)
        ensures
            !r.avoid_dev_deps,
            !r.avoid_build_deps,
            !r.avoid_proc_macros,
            !r.direct_deps_only,
            !r.root_only,
    {
        GetDependenciesOpt {
            avoid_dev_deps: false,
            avoid_build_deps: false,
            avoid_proc_macros: false,
            direct_deps_only: false,
            root_only: false,
        }
    }
}

} // verus!
