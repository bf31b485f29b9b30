//! The selection of the packages of a graph under a policy.

use crate::graph::{edge_models, indices, DependencyGraph};
use crate::graph_model::GraphModel;
use crate::metadata::{builds_proc_macro, proc_macro_kind};
use crate::order::{compare_text, lemma_text_order_equal, Order};
use crate::policy::GetDependenciesOpt;
use crate::reach::holds;
use vstd::hash_map::StringHashMap;
use vstd::prelude::*;

verus! {

/// A warning that a flag of the policy cannot be relied on, because the
/// kinds of some edge are not known and the edge is followed.
#[derive(Clone, Copy, Debug, PartialEq, Eq, Structural)]
pub enum PolicyWarning {
    /// `avoid_dev_deps` is set, and the kinds of some edge are not known.
    DevelopmentKindsUnknown,
    /// `avoid_build_deps` is set, and the kinds of some edge are not known.
    BuildKindsUnknown,
}

/// The warnings that a policy draws on a graph: one for each of the two
/// flags that avoid a kind of edge, where the flag is set and some edge of
/// the graph has no kind.
pub open spec fn warnings_of(g: GraphModel, opt: GetDependenciesOpt) -> Seq<PolicyWarning> {
    if !g.has_unclassified_edge() {
        Seq::empty()
    } else {
        (if opt.avoid_dev_deps {
            seq![PolicyWarning::DevelopmentKindsUnknown]
        } else {
            Seq::empty()
        }) + (if opt.avoid_build_deps {
            seq![PolicyWarning::BuildKindsUnknown]
        } else {
            Seq::empty()
        })
    }
}

/// A list of `n` marks, none of them set.
fn no_marks(n: usize) -> (r: Vec<bool>)
    ensures
        r@.len() == n,
        forall|v: int| 0 <= v < n ==> !(#[trigger] r@[v]),
{
    let mut marks: Vec<bool> = Vec::new();
    let mut c: usize = 0;
    while c < n
        invariant
            c <= n,
            marks@.len() == c,
            forall|v: int| 0 <= v < c ==> !(#[trigger] marks@[v]),
        decreases n - c,
    {
        marks.push(false);
        c = c + 1;
    }
    marks
}

impl DependencyGraph {
    /// Whether the package `v` builds a proc-macro.
    pub fn is_proc_macro(&self, v: usize) -> (r: bool)
        requires
            v < self.packages().len(),
        ensures
            r == self@.is_proc_macro(v as int),
    {
        proof {
            use_type_invariant(self);
            self.lemma_well_formed();
            self.lemma_marks(v as int);
        }
        let package = self.package(v);
        let mut k: usize = 0;
        while k < package.target_kinds.len()
            invariant
                k <= package.target_kinds.len(),
                self@.is_proc_macro(v as int) == builds_proc_macro(*package),
                forall|j: int|
                    0 <= j < k ==> (#[trigger] package.target_kinds[j])@ != proc_macro_kind(),
            decreases package.target_kinds.len() - k,
        {
            proof {
                lemma_text_order_equal(package.target_kinds[k as int]@, proc_macro_kind());
            }
            if compare_text(package.target_kinds[k].as_str(), "proc-macro") == Order::Equal {
                assert(package.target_kinds[k as int]@ == proc_macro_kind());
                assert(builds_proc_macro(*package));
                return true;
            }
            k = k + 1;
        }
        false
    }

    /// Sets the marks of `u` and of the packages directly behind `u`.
    fn mark_near(&self, u: usize, marks: &mut Vec<bool>)
        requires
            u < self.packages().len(),
            old(marks)@.len() == self.packages().len(),
        ensures
            final(marks)@.len() == old(marks)@.len(),
            forall|v: int|
                0 <= v < final(marks)@.len() ==> (#[trigger] final(marks)@[v] <==> old(marks)@[v]
                    || self@.near(u as int, v)),
    {
        proof {
            use_type_invariant(self);
            self.lemma_well_formed();
        }
        let ghost g = self@;
        let edges = self.edges(u);
        marks.set(u, true);
        let mut k: usize = 0;
        while k < edges.len()
            invariant
                k <= edges.len(),
                g == self@,
                u < g.size(),
                marks@.len() == old(marks)@.len(),
                marks@.len() == g.size(),
                edge_models(edges@) == g.edges[u as int],
                forall|j: int| 0 <= j < edges@.len() ==> (#[trigger] edges@[j]).target < marks@.len(),
                forall|v: int|
                    0 <= v < marks@.len() ==> (#[trigger] marks@[v] <==> old(marks)@[v] || v == u
                        || exists|j: int| 0 <= j < k && (#[trigger] edges@[j]).target == v),
            decreases edges.len() - k,
        {
            let ghost before = marks@;
            let target = edges[k].target;
            marks.set(target, true);
            assert forall|v: int| 0 <= v < marks@.len() implies (#[trigger] marks@[v]
                <==> old(marks)@[v] || v == u || exists|j: int|
                0 <= j < k + 1 && (#[trigger] edges@[j]).target == v) by {
                if v == target {
                    assert(edges@[k as int].target == v);
                } else {
                    assert(marks@[v] == before[v]);
                    if exists|j: int| 0 <= j < k + 1 && (#[trigger] edges@[j]).target == v {
                        let j = choose|j: int| 0 <= j < k + 1 && (#[trigger] edges@[j]).target == v;
                        assert(j < k);
                    }
                }
            }
            k = k + 1;
        }
        assert forall|v: int| 0 <= v < marks@.len() implies (#[trigger] marks@[v] <==> old(
            marks,
        )@[v] || g.near(u as int, v)) by {
            if exists|j: int| 0 <= j < edges@.len() && (#[trigger] edges@[j]).target == v {
                let j = choose|j: int| 0 <= j < edges@.len() && (#[trigger] edges@[j]).target == v;
                assert(g.edges[u as int][j] == edges@[j]@);
                assert(g.has_edge(u as int, v));
            }
            if g.has_edge(u as int, v) {
                let j = choose|j: int|
                    0 <= j < g.edges[u as int].len() && (#[trigger] g.edges[u as int][j]).target
                        == v;
                assert(g.edges[u as int][j] == edges@[j]@);
                assert(edges@[j].target == v);
            }
        }
    }

    /// For each package, whether it is left out with the proc-macros.
    pub fn exclusions(&self) -> (r: Vec<bool>)
        ensures
            r@.len() == self@.size(),
            forall|v: int| 0 <= v < r@.len() ==> (#[trigger] r@[v] <==> self@.excluded(v)),
    {
        let n = self.len();
        let ghost g = self@;
        let mut marks = no_marks(n);
        let mut u: usize = 0;
        while u < n
            invariant
                u <= n,
                g == self@,
                n == g.size(),
                n == self.packages().len(),
                marks@.len() == n,
                forall|v: int|
                    0 <= v < n ==> (#[trigger] marks@[v] <==> exists|w: int|
                        0 <= w < u && g.is_proc_macro(w) && #[trigger] g.near(w, v)),
            decreases n - u,
        {
            let ghost before = marks@;
            if self.is_proc_macro(u) {
                self.mark_near(u, &mut marks);
            }
            assert forall|v: int| 0 <= v < n implies (#[trigger] marks@[v] <==> exists|w: int|
                0 <= w < u + 1 && g.is_proc_macro(w) && #[trigger] g.near(w, v)) by {
                if before[v] {
                    let w = choose|w: int| 0 <= w < u && g.is_proc_macro(w) && #[trigger] g.near(w, v);
                    assert(0 <= w < u + 1 && g.is_proc_macro(w) && g.near(w, v));
                }
                if g.is_proc_macro(u as int) && g.near(u as int, v) {
                    assert(0 <= u < u + 1 && g.is_proc_macro(u as int) && g.near(u as int, v));
                }
                if exists|w: int| 0 <= w < u + 1 && g.is_proc_macro(w) && #[trigger] g.near(w, v) {
                    let w = choose|w: int|
                        0 <= w < u + 1 && g.is_proc_macro(w) && #[trigger] g.near(w, v);
                    if w < u {
                        assert(before[v]);
                    }
                }
            }
            u = u + 1;
        }
        proof {
            use_type_invariant(self);
            self.lemma_well_formed();
        }
        assert forall|v: int| 0 <= v < n implies (#[trigger] marks@[v] <==> g.excluded(v)) by {
            if marks@[v] {
                let w = choose|w: int| 0 <= w < u && g.is_proc_macro(w) && #[trigger] g.near(w, v);
                assert(g.is_proc_macro(w) && g.near(w, v));
            }
            if g.excluded(v) {
                let w = choose|w: int| g.is_proc_macro(w) && #[trigger] g.near(w, v);
                assert(0 <= w < u && g.is_proc_macro(w) && g.near(w, v));
            }
        }
        marks
    }

    /// For each package, whether it is a root.
    pub fn root_marks(&self) -> (r: Vec<bool>)
        ensures
            r@.len() == self@.size(),
            forall|v: int| 0 <= v < r@.len() ==> (#[trigger] r@[v] <==> self@.is_root(v)),
    {
        let n = self.len();
        let ghost g = self@;
        let roots = self.roots();
        let mut marks = no_marks(n);
        let mut i: usize = 0;
        while i < roots.len()
            invariant
                i <= roots.len(),
                g == self@,
                n == g.size(),
                marks@.len() == n,
                roots@.len() == g.roots.len(),
                forall|k: int| 0 <= k < roots@.len() ==> roots@[k] as int == g.roots[k],
                forall|k: int| 0 <= k < roots@.len() ==> (#[trigger] roots@[k]) < n,
                forall|v: int|
                    0 <= v < n ==> (#[trigger] marks@[v] <==> exists|k: int|
                        0 <= k < i && #[trigger] g.roots[k] == v),
            decreases roots.len() - i,
        {
            let ghost before = marks@;
            marks.set(roots[i], true);
            assert forall|v: int| 0 <= v < n implies (#[trigger] marks@[v] <==> exists|k: int|
                0 <= k < i + 1 && #[trigger] g.roots[k] == v) by {
                if v == roots@[i as int] {
                    assert(g.roots[i as int] == v);
                } else {
                    assert(marks@[v] == before[v]);
                    if exists|k: int| 0 <= k < i + 1 && #[trigger] g.roots[k] == v {
                        let k = choose|k: int| 0 <= k < i + 1 && #[trigger] g.roots[k] == v;
                        assert(k < i);
                    }
                }
            }
            i = i + 1;
        }
        marks
    }

    /// For each package, whether it is a root or directly behind a root.
    pub fn direct_marks(&self) -> (r: Vec<bool>)
        ensures
            r@.len() == self@.size(),
            forall|v: int| 0 <= v < r@.len() ==> (#[trigger] r@[v] <==> self@.is_direct(v)),
    {
        let n = self.len();
        let ghost g = self@;
        let roots = self.roots();
        let mut marks = no_marks(n);
        let mut i: usize = 0;
        while i < roots.len()
            invariant
                i <= roots.len(),
                g == self@,
                n == g.size(),
                n == self.packages().len(),
                marks@.len() == n,
                roots@.len() == g.roots.len(),
                forall|k: int| 0 <= k < roots@.len() ==> roots@[k] as int == g.roots[k],
                forall|k: int| 0 <= k < roots@.len() ==> (#[trigger] roots@[k]) < n,
                forall|v: int|
                    0 <= v < n ==> (#[trigger] marks@[v] <==> exists|k: int|
                        0 <= k < i && #[trigger] g.near(g.roots[k], v)),
            decreases roots.len() - i,
        {
            let ghost before = marks@;
            self.mark_near(roots[i], &mut marks);
            assert forall|v: int| 0 <= v < n implies (#[trigger] marks@[v] <==> exists|k: int|
                0 <= k < i + 1 && #[trigger] g.near(g.roots[k], v)) by {
                if before[v] {
                    let k = choose|k: int| 0 <= k < i && #[trigger] g.near(g.roots[k], v);
                    assert(0 <= k < i + 1 && g.near(g.roots[k], v));
                }
                if g.near(roots@[i as int] as int, v) {
                    assert(g.near(g.roots[i as int], v));
                }
                if exists|k: int| 0 <= k < i + 1 && #[trigger] g.near(g.roots[k], v) {
                    let k = choose|k: int| 0 <= k < i + 1 && #[trigger] g.near(g.roots[k], v);
                    if k < i {
                        assert(before[v]);
                    }
                }
            }
            i = i + 1;
        }
        assert forall|v: int| 0 <= v < n implies (#[trigger] marks@[v] <==> g.is_direct(v)) by {
            if marks@[v] {
                let k = choose|k: int| 0 <= k < i && #[trigger] g.near(g.roots[k], v);
                assert(g.roots.contains(g.roots[k]));
                assert(g.is_root(g.roots[k]) && g.near(g.roots[k], v));
            }
            if g.is_direct(v) {
                let r = choose|r: int| g.is_root(r) && #[trigger] g.near(r, v);
                let k = choose|k: int| 0 <= k < g.roots.len() && g.roots[k] == r;
                assert(g.near(g.roots[k], v));
            }
        }
        marks
    }

    /// The names of the roots and of the packages directly behind a root.
    pub fn direct_names(&self) -> (r: StringHashMap<bool>)
        ensures
            forall|v: int|
                0 <= v < self@.size() ==> (r@.contains_key(#[trigger] self@.names[v])
                    <==> self@.listed(v)),
    {
        let n = self.len();
        let ghost g = self@;
        let direct = self.direct_marks();
        let mut names: StringHashMap<bool> = StringHashMap::new();
        let mut w: usize = 0;
        while w < n
            invariant
                w <= n,
                g == self@,
                n == g.size(),
                n == self.packages().len(),
                direct@.len() == n,
                forall|x: int| 0 <= x < n ==> (#[trigger] direct@[x] <==> g.is_direct(x)),
                forall|name: Seq<char>|
                    #[trigger] names@.contains_key(name) <==> exists|x: int|
                        0 <= x < w && #[trigger] g.is_direct(x) && g.names[x] == name,
            decreases n - w,
        {
            proof {
                self.lemma_marks(w as int);
            }
            let ghost before = names@;
            if direct[w] {
                names.insert(self.package(w).name.clone(), true);
            }
            assert forall|name: Seq<char>| #[trigger]
                names@.contains_key(name) <==> exists|x: int|
                    0 <= x < w + 1 && #[trigger] g.is_direct(x) && g.names[x] == name by {
                if before.contains_key(name) {
                    let x = choose|x: int| 0 <= x < w && #[trigger] g.is_direct(x) && g.names[x] == name;
                    assert(0 <= x < w + 1 && g.is_direct(x) && g.names[x] == name);
                }
                if g.is_direct(w as int) && g.names[w as int] == name {
                    assert(names@.contains_key(name));
                }
                if exists|x: int| 0 <= x < w + 1 && #[trigger] g.is_direct(x) && g.names[x] == name {
                    let x = choose|x: int|
                        0 <= x < w + 1 && #[trigger] g.is_direct(x) && g.names[x] == name;
                    if x < w {
                        assert(before.contains_key(name));
                    }
                }
            }
            w = w + 1;
        }
        assert forall|v: int| 0 <= v < g.size() implies (names@.contains_key(
            #[trigger] g.names[v],
        ) <==> g.listed(v)) by {
            if names@.contains_key(g.names[v]) {
                let x = choose|x: int|
                    0 <= x < w && #[trigger] g.is_direct(x) && g.names[x] == g.names[v];
                assert(0 <= x < g.size() && g.is_direct(x) && g.names[x] == g.names[v]);
            }
            if g.listed(v) {
                let x = choose|x: int|
                    0 <= x < g.size() && #[trigger] g.is_direct(x) && g.names[x] == g.names[v];
                assert(0 <= x < w && g.is_direct(x) && g.names[x] == g.names[v]);
            }
        }
        names
    }

    /// The packages that the policy selects, by ascending index.
    pub fn filter(&self, opt: &GetDependenciesOpt) -> (r: Vec<usize>)
        ensures
            indices(r@) == self@.selection(*opt, self@.size()),
            forall|i: int| 0 <= i < r@.len() ==> (#[trigger] r@[i]) < self.packages().len(),
            forall|i: int, j: int| 0 <= i < j < r@.len() ==> r@[i] < r@[j],
            forall|v: int| holds(r@, v) <==> self@.retained(*opt, v),
    {
        let n = self.len();
        let ghost g = self@;
        let candidates = if opt.root_only {
            self.root_marks()
        } else {
            self.traverse(opt).1
        };
        let listed = if opt.direct_deps_only && !opt.root_only {
            self.direct_names()
        } else {
            StringHashMap::new()
        };
        let excluded = if opt.avoid_proc_macros {
            self.exclusions()
        } else {
            Vec::new()
        };
        let mut out: Vec<usize> = Vec::new();
        let mut v: usize = 0;
        while v < n
            invariant
                v <= n,
                g == self@,
                n == g.size(),
                n == self.packages().len(),
                candidates@.len() == n,
                forall|x: int|
                    0 <= x < n ==> (#[trigger] candidates@[x] <==> if opt.root_only {
                        g.is_root(x)
                    } else {
                        g.reachable(*opt, x)
                    }),
                opt.direct_deps_only && !opt.root_only ==> forall|x: int|
                    0 <= x < n ==> (listed@.contains_key(#[trigger] g.names[x]) <==> g.listed(x)),
                opt.avoid_proc_macros ==> excluded@.len() == n && forall|x: int|
                    0 <= x < n ==> (#[trigger] excluded@[x] <==> g.excluded(x)),
                indices(out@) == g.selection(*opt, v as int),
                forall|i: int| 0 <= i < out@.len() ==> (#[trigger] out@[i]) < v,
                forall|i: int, j: int| 0 <= i < j < out@.len() ==> out@[i] < out@[j],
                forall|x: int| holds(out@, x) <==> 0 <= x < v && g.retained(*opt, x),
            decreases n - v,
        {
            let ghost before = out@;
            let mut keep = candidates[v];
            if keep && opt.direct_deps_only && !opt.root_only {
                proof {
                    self.lemma_marks(v as int);
                }
                keep = listed.contains_key(self.package(v).name.as_str());
            }
            if keep && opt.avoid_proc_macros {
                keep = !excluded[v];
            }
            assert(keep == g.retained(*opt, v as int));
            if keep {
                out.push(v);
                assert(indices(out@) =~= indices(before).push(v as int));
            }
            assert forall|x: int| holds(out@, x) <==> 0 <= x < v + 1 && g.retained(*opt, x) by {
                if holds(out@, x) {
                    let i = choose|i: int| 0 <= i < out@.len() && #[trigger] out@[i] == x;
                    if i < before.len() {
                        assert(before[i] == x);
                        assert(holds(before, x));
                    }
                }
                if 0 <= x < v && g.retained(*opt, x) {
                    assert(holds(before, x));
                    let i = choose|i: int| 0 <= i < before.len() && #[trigger] before[i] == x;
                    assert(out@[i] == x);
                }
                if x == v && keep {
                    assert(out@[out@.len() - 1] == x);
                }
            }
            v = v + 1;
        }
        out
    }

    /// Whether some edge of the graph has no kind.
    pub fn has_unclassified_edge(&self) -> (r: bool)
        ensures
            r == self@.has_unclassified_edge(),
    {
        let n = self.len();
        let ghost g = self@;
        proof {
            use_type_invariant(self);
            self.lemma_well_formed();
        }
        let mut u: usize = 0;
        while u < n
            invariant
                u <= n,
                g == self@,
                g.well_formed(),
                n == g.size(),
                n == self.packages().len(),
                forall|a: int, k: int|
                    0 <= a < u && 0 <= k < g.edges[a].len() ==> (#[trigger] g.edges[a][k]).kinds.len()
                        != 0,
            decreases n - u,
        {
            let edges = self.edges(u);
            let mut k: usize = 0;
            while k < edges.len()
                invariant
                    k <= edges.len(),
                    u < n,
                    g == self@,
                    n == g.size(),
                    g.well_formed(),
                    edge_models(edges@) == g.edges[u as int],
                    forall|j: int|
                        0 <= j < k ==> (#[trigger] g.edges[u as int][j]).kinds.len() != 0,
                decreases edges.len() - k,
            {
                assert(g.edges[u as int].len() == edges@.len());
                assert(g.edges[u as int][k as int] == edges@[k as int]@);
                if edges[k].kinds.len() == 0 {
                    assert(g.edges[u as int][k as int].kinds.len() == 0);
                    return true;
                }
                k = k + 1;
            }
            u = u + 1;
        }
        false
    }

    /// The warnings that the policy draws on the graph.
    pub fn warnings(&self, opt: &GetDependenciesOpt) -> (r: Vec<PolicyWarning>)
        ensures
            r@ == warnings_of(self@, *opt),
    {
        let mut out: Vec<PolicyWarning> = Vec::new();
        if (opt.avoid_dev_deps || opt.avoid_build_deps) && self.has_unclassified_edge() {
            if opt.avoid_dev_deps {
                out.push(PolicyWarning::DevelopmentKindsUnknown);
            }
            if opt.avoid_build_deps {
                out.push(PolicyWarning::BuildKindsUnknown);
            }
        }
        assert(out@ =~= warnings_of(self@, *opt));
        out
    }
}

} // verus!
