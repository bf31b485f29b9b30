//! The mathematical model of a dependency graph and of the selection of
//! its packages under a policy.

use crate::policy::GetDependenciesOpt;
use vstd::prelude::*;

verus! {

/// The role in which a package depends on another. A role that is none of
/// the three known ones is told as such; no policy follows an edge for it.
#[derive(Clone, Copy, Debug, PartialEq, Eq, Structural)]
pub enum DependencyKind {
    Normal,
    Development,
    Build,
    Unknown,
}

/// An edge of the graph: the package depended on, by its index, and the
/// kinds of the dependency. No kind at all means that the kinds are not
/// known.
pub struct EdgeModel {
    pub target: int,
    pub kinds: Seq<DependencyKind>,
}

/// A dependency graph: packages are numbered from zero, and each has a
/// name, a mark that says whether it builds a proc-macro, and its outgoing
/// edges; some packages are roots.
pub struct GraphModel {
    pub names: Seq<Seq<char>>,
    pub proc_macro: Seq<bool>,
    pub edges: Seq<Seq<EdgeModel>>,
    pub roots: Seq<int>,
}

/// The policy that leaves nothing out.
pub open spec fn no_exclusions() -> GetDependenciesOpt {
    GetDependenciesOpt {
        avoid_dev_deps: false,
        avoid_build_deps: false,
        avoid_proc_macros: false,
        direct_deps_only: false,
        root_only: false,
    }
}

/// Whether the policy lets a dependency of this kind be followed.
pub open spec fn kind_allowed(kind: DependencyKind, opt: GetDependenciesOpt) -> bool {
    match kind {
        DependencyKind::Normal => true,
        DependencyKind::Development => !opt.avoid_dev_deps,
        DependencyKind::Build => !opt.avoid_build_deps,
        DependencyKind::Unknown => false,
    }
}

/// Whether the policy lets an edge of these kinds be followed: it has a
/// kind that the policy allows, or no kind at all, which counts as every
/// kind.
pub open spec fn edge_allowed(kinds: Seq<DependencyKind>, opt: GetDependenciesOpt) -> bool {
    kinds.len() == 0 || exists|k: int| 0 <= k < kinds.len() && kind_allowed(#[trigger] kinds[k], opt)
}

impl GraphModel {
    /// The number of packages.
    pub open spec fn size(self) -> int {
        self.names.len() as int
    }

    /// Every package has its mark and its edges, and every edge and every
    /// root names a package of the graph.
    pub open spec fn well_formed(self) -> bool {
        &&& self.proc_macro.len() == self.names.len()
        &&& self.edges.len() == self.names.len()
        &&& forall|u: int, k: int|
            0 <= u < self.edges.len() && 0 <= k < self.edges[u].len() ==> 0 <= (
            #[trigger] self.edges[u][k]).target < self.size()
        &&& forall|i: int| 0 <= i < self.roots.len() ==> 0 <= #[trigger] self.roots[i] < self.size()
    }

    /// `v` is a root.
    pub open spec fn is_root(self, v: int) -> bool {
        self.roots.contains(v)
    }

    /// There is an edge from `u` to `v`, of whatever kind.
    pub open spec fn has_edge(self, u: int, v: int) -> bool {
        0 <= u < self.edges.len() && exists|k: int|
            0 <= k < self.edges[u].len() && (#[trigger] self.edges[u][k]).target == v
    }

    /// There is an edge from `u` to `v` that the policy lets be followed.
    pub open spec fn step(self, opt: GetDependenciesOpt, u: int, v: int) -> bool {
        0 <= u < self.edges.len() && exists|k: int|
            0 <= k < self.edges[u].len() && (#[trigger] self.edges[u][k]).target == v
                && edge_allowed(self.edges[u][k].kinds, opt)
    }

    /// `path` starts at a root and follows edges that the policy lets be
    /// followed.
    pub open spec fn is_walk(self, opt: GetDependenciesOpt, path: Seq<int>) -> bool {
        &&& path.len() > 0
        &&& self.is_root(path[0])
        &&& forall|i: int| 0 <= i < path.len() - 1 ==> self.step(opt, #[trigger] path[i], path[i + 1])
    }

    /// `v` can be reached from a root along edges that the policy lets be
    /// followed.
    pub open spec fn reachable(self, opt: GetDependenciesOpt, v: int) -> bool {
        exists|path: Seq<int>| #[trigger] self.is_walk(opt, path) && path.last() == v
    }

    /// `v` builds a proc-macro.
    pub open spec fn is_proc_macro(self, v: int) -> bool {
        0 <= v < self.proc_macro.len() && self.proc_macro[v]
    }

    /// `v` is `u` itself or directly behind `u`, along an edge of whatever
    /// kind.
    pub open spec fn near(self, u: int, v: int) -> bool {
        u == v || self.has_edge(u, v)
    }

    /// `v` is left out with the proc-macros: it builds one, or a package
    /// that builds one depends on it directly.
    pub open spec fn excluded(self, v: int) -> bool {
        exists|u: int| self.is_proc_macro(u) && #[trigger] self.near(u, v)
    }

    /// `v` is a root or directly behind a root, along an edge of whatever
    /// kind.
    pub open spec fn is_direct(self, v: int) -> bool {
        exists|r: int| self.is_root(r) && #[trigger] self.near(r, v)
    }

    /// Some edge of the graph has no kind.
    pub open spec fn has_unclassified_edge(self) -> bool {
        exists|u: int, k: int|
            0 <= u < self.edges.len() && 0 <= k < self.edges[u].len() && (
            #[trigger] self.edges[u][k]).kinds.len() == 0
    }

    /// `v` is named like a root or like a package directly behind a root.
    pub open spec fn listed(self, v: int) -> bool {
        0 <= v < self.size() && exists|w: int|
            0 <= w < self.size() && #[trigger] self.is_direct(w) && self.names[w] == self.names[v]
    }

    /// The packages below `k` that are selected under the policy, by
    /// ascending index.
    pub open spec fn selection(self, opt: GetDependenciesOpt, k: int) -> Seq<int>
        decreases k,
    {
        if k <= 0 {
            Seq::empty()
        } else if self.retained(opt, k - 1) {
            self.selection(opt, k - 1).push(k - 1)
        } else {
            self.selection(opt, k - 1)
        }
    }

    /// `v` is selected under the policy. Under `root_only` the roots are
    /// selected; else the packages that can be reached, and under
    /// `direct_deps_only` only those of them that are named like a root or
    /// like a package directly behind a root. Under `avoid_proc_macros`
    /// what is left out with the proc-macros is dropped from either.
    pub open spec fn retained(self, opt: GetDependenciesOpt, v: int) -> bool {
        &&& 0 <= v < self.size()
        &&& if opt.root_only {
            self.is_root(v)
        } else {
            self.reachable(opt, v) && (opt.direct_deps_only ==> self.listed(v))
        }
        &&& opt.avoid_proc_macros ==> !self.excluded(v)
    }
}

/// A root can be reached, whatever the policy.
pub proof fn lemma_root_reachable(g: GraphModel, opt: GetDependenciesOpt, v: int)
    requires
        g.is_root(v),
    ensures
        g.reachable(opt, v),
{
    let path = seq![v];
    assert(g.is_walk(opt, path));
    assert(path.last() == v);
}

/// What can be reached can still be reached by one more edge that the
/// policy lets be followed.
pub proof fn lemma_reachable_step(g: GraphModel, opt: GetDependenciesOpt, u: int, v: int)
    requires
        g.reachable(opt, u),
        g.step(opt, u, v),
    ensures
        g.reachable(opt, v),
{
    let path = choose|path: Seq<int>| #[trigger] g.is_walk(opt, path) && path.last() == u;
    let longer = path.push(v);
    assert forall|i: int| 0 <= i < longer.len() - 1 implies g.step(
        opt,
        #[trigger] longer[i],
        longer[i + 1],
    ) by {
        if i < path.len() - 1 {
            assert(g.step(opt, path[i], path[i + 1]));
        }
    }
    assert(longer[0] == path[0]);
    assert(g.is_walk(opt, longer));
    assert(longer.last() == v);
}

/// An edge that one policy lets be followed is let be followed by every
/// policy that avoids no more kinds.
pub proof fn lemma_edge_allowed_monotone(
    kinds: Seq<DependencyKind>,
    strict: GetDependenciesOpt,
    lax: GetDependenciesOpt,
)
    requires
        lax.avoid_dev_deps ==> strict.avoid_dev_deps,
        lax.avoid_build_deps ==> strict.avoid_build_deps,
        edge_allowed(kinds, strict),
    ensures
        edge_allowed(kinds, lax),
{
    if kinds.len() > 0 {
        let k = choose|k: int| 0 <= k < kinds.len() && kind_allowed(#[trigger] kinds[k], strict);
        assert(kind_allowed(kinds[k], lax));
    }
}

/// What can be reached under one policy can be reached under every policy
/// that avoids no more kinds of edges.
pub proof fn lemma_reachable_monotone(
    g: GraphModel,
    strict: GetDependenciesOpt,
    lax: GetDependenciesOpt,
    v: int,
)
    requires
        lax.avoid_dev_deps ==> strict.avoid_dev_deps,
        lax.avoid_build_deps ==> strict.avoid_build_deps,
        g.reachable(strict, v),
    ensures
        g.reachable(lax, v),
{
    let path = choose|path: Seq<int>| #[trigger] g.is_walk(strict, path) && path.last() == v;
    assert forall|i: int| 0 <= i < path.len() - 1 implies g.step(
        lax,
        #[trigger] path[i],
        path[i + 1],
    ) by {
        assert(g.step(strict, path[i], path[i + 1]));
        let u = path[i];
        let k = choose|k: int|
            0 <= k < g.edges[u].len() && (#[trigger] g.edges[u][k]).target == path[i + 1]
                && edge_allowed(g.edges[u][k].kinds, strict);
        lemma_edge_allowed_monotone(g.edges[u][k].kinds, strict, lax);
    }
    assert(g.is_walk(lax, path));
}

/// The policy `opt` with `root_only` set.
pub open spec fn with_root_only(opt: GetDependenciesOpt) -> GetDependenciesOpt {
    GetDependenciesOpt { root_only: true, ..opt }
}

/// The policy `opt` with neither `root_only` nor `direct_deps_only` set.
pub open spec fn with_full_traversal(opt: GetDependenciesOpt) -> GetDependenciesOpt {
    GetDependenciesOpt { root_only: false, direct_deps_only: false, ..opt }
}

/// The selection grows as the policy is relaxed: what is selected with
/// `root_only` or with `direct_deps_only` is selected by the traversal
/// under the same exclusions, and what the traversal selects under any
/// exclusions is selected under none.
pub proof fn lemma_selection_monotone(g: GraphModel, opt: GetDependenciesOpt, v: int)
    ensures
        g.retained(with_root_only(opt), v) ==> g.retained(with_full_traversal(opt), v),
        g.retained(opt, v) ==> g.retained(with_full_traversal(opt), v),
        g.retained(with_full_traversal(opt), v) ==> g.retained(no_exclusions(), v),
        g.retained(opt, v) ==> g.retained(no_exclusions(), v),
{
    if g.retained(with_root_only(opt), v) {
        lemma_root_reachable(g, with_full_traversal(opt), v);
    }
    if g.retained(opt, v) {
        if opt.root_only {
            lemma_root_reachable(g, with_full_traversal(opt), v);
            lemma_root_reachable(g, no_exclusions(), v);
        } else {
            lemma_reachable_monotone(g, opt, with_full_traversal(opt), v);
            lemma_reachable_monotone(g, opt, no_exclusions(), v);
        }
    }
    if g.retained(with_full_traversal(opt), v) {
        lemma_reachable_monotone(g, with_full_traversal(opt), no_exclusions(), v);
    }
}

/// The roots are selected by every policy that does not leave them out
/// with the proc-macros.
pub proof fn lemma_roots_selected(g: GraphModel, opt: GetDependenciesOpt, v: int)
    requires
        g.well_formed(),
        g.is_root(v),
        !opt.avoid_proc_macros || !g.excluded(v),
    ensures
        g.retained(opt, v),
{
    let k = choose|k: int| 0 <= k < g.roots.len() && g.roots[k] == v;
    lemma_root_reachable(g, opt, v);
    assert(g.is_root(v) && g.near(v, v));
    assert(g.is_direct(v));
    assert(g.listed(v));
}

} // verus!
