//! The traversal of the dependency graph from its roots.

use crate::graph::{edge_models, DependencyGraph, Edge};
use crate::graph_model::{
    edge_allowed, kind_allowed, lemma_reachable_step, lemma_root_reachable, DependencyKind,
    GraphModel,
};
use crate::policy::GetDependenciesOpt;
use vstd::prelude::*;

verus! {

/// Whether the policy lets a dependency of this kind be followed.
pub fn kind_follows(kind: DependencyKind, opt: &GetDependenciesOpt) -> (r: bool)
    ensures
        r == kind_allowed(kind, *opt),
{
    match kind {
        DependencyKind::Normal => true,
        DependencyKind::Development => !opt.avoid_dev_deps,
        DependencyKind::Build => !opt.avoid_build_deps,
        DependencyKind::Unknown => false,
    }
}

/// Whether the policy lets an edge of these kinds be followed.
pub fn edge_follows(kinds: &Vec<DependencyKind>, opt: &GetDependenciesOpt) -> (r: bool)
    ensures
        r == edge_allowed(kinds@, *opt),
{
    if kinds.len() == 0 {
        return true;
    }
    let mut k: usize = 0;
    while k < kinds.len()
        invariant
            k <= kinds.len(),
            forall|j: int| 0 <= j < k ==> !kind_allowed(#[trigger] kinds@[j], *opt),
        decreases kinds.len() - k,
    {
        if kind_follows(kinds[k], opt) {
            return true;
        }
        k = k + 1;
    }
    false
}

/// `v` is among the packages of the list.
pub open spec fn holds(list: Seq<usize>, v: int) -> bool {
    exists|i: int| 0 <= i < list.len() && #[trigger] list[i] == v
}

/// A list of different numbers below `n` has at most `n` elements.
proof fn lemma_distinct_bounded(s: Seq<usize>, n: nat)
    requires
        s.no_duplicates(),
        forall|i: int| 0 <= i < s.len() ==> (#[trigger] s[i]) < n,
    ensures
        s.len() <= n,
    decreases n,
{
    if s.len() > 0 {
        if n == 0 {
            assert(s[0] < n);
        } else if exists|j: int| 0 <= j < s.len() && #[trigger] s[j] == n - 1 {
            let j = choose|j: int| 0 <= j < s.len() && #[trigger] s[j] == n - 1;
            let rest = s.remove(j);
            assert forall|i: int| 0 <= i < rest.len() implies (#[trigger] rest[i]) < (n
                - 1) as nat by {
                if i < j {
                    assert(rest[i] == s[i]);
                    assert(s[i] != s[j]);
                } else {
                    assert(rest[i] == s[i + 1]);
                    assert(s[i + 1] != s[j]);
                }
            }
            assert forall|a: int, b: int|
                0 <= a < rest.len() && 0 <= b < rest.len() && a != b implies rest[a]
                != rest[b] by {
                let a0 = if a < j {
                    a
                } else {
                    a + 1
                };
                let b0 = if b < j {
                    b
                } else {
                    b + 1
                };
                assert(rest[a] == s[a0] && rest[b] == s[b0]);
            }
            lemma_distinct_bounded(rest, (n - 1) as nat);
        } else {
            assert forall|i: int| 0 <= i < s.len() implies (#[trigger] s[i]) < (n - 1) as nat by {
                assert(s[i] < n);
                assert(s[i] != n - 1);
            }
            lemma_distinct_bounded(s, (n - 1) as nat);
        }
    }
}

/// A set of packages that holds the roots and, with each package, what a
/// followed edge leads to, holds every package of every walk.
proof fn lemma_closed_holds_walk(
    g: GraphModel,
    opt: GetDependenciesOpt,
    seen: Seq<bool>,
    path: Seq<int>,
    i: int,
)
    requires
        g.well_formed(),
        seen.len() == g.size(),
        forall|k: int| 0 <= k < g.roots.len() ==> seen[#[trigger] g.roots[k]],
        forall|u: int, v: int|
            0 <= u < g.size() && seen[u] && #[trigger] g.step(opt, u, v) ==> 0 <= v < g.size()
                && seen[v],
        g.is_walk(opt, path),
        0 <= i < path.len(),
    ensures
        0 <= path[i] < g.size(),
        seen[path[i]],
    decreases i,
{
    if i == 0 {
        let k = choose|k: int| 0 <= k < g.roots.len() && g.roots[k] == path[0];
        assert(seen[g.roots[k]]);
    } else {
        lemma_closed_holds_walk(g, opt, seen, path, i - 1);
        assert(g.step(opt, path[i - 1], path[i]));
    }
}

impl DependencyGraph {
    /// Walks the graph from the roots along the edges that the policy lets
    /// be followed. Edges may form cycles: a package is entered once. The
    /// outcome is the list of the packages that were reached, each once, in
    /// the order in which they were entered, and for each package of the
    /// graph whether it was reached.
    pub fn traverse(&self, opt: &GetDependenciesOpt) -> (r: (Vec<usize>, Vec<bool>))
        ensures
            r.0@.no_duplicates(),
            forall|i: int| 0 <= i < r.0@.len() ==> (#[trigger] r.0@[i]) < self.packages().len(),
            forall|v: int| holds(r.0@, v) <==> self@.reachable(*opt, v),
            r.1@.len() == self@.size(),
            forall|v: int| 0 <= v < self@.size() ==> (#[trigger] r.1@[v] <==> self@.reachable(*opt, v)),
    {
        let n = self.len();
        let ghost g = self@;
        let mut seen: Vec<bool> = Vec::new();
        let mut c: usize = 0;
        while c < n
            invariant
                c <= n,
                seen@.len() == c,
                forall|v: int| 0 <= v < c ==> !(#[trigger] seen@[v]),
            decreases n - c,
        {
            seen.push(false);
            c = c + 1;
        }
        proof {
            use_type_invariant(self);
            self.lemma_well_formed();
        }
        let mut order: Vec<usize> = Vec::new();
        let mut stack: Vec<usize> = Vec::new();
        let roots = self.roots();
        let mut i: usize = 0;
        while i < roots.len()
            invariant
                i <= roots.len(),
                g == self@,
                g.well_formed(),
                roots@.len() == g.roots.len(),
                forall|k: int| 0 <= k < roots@.len() ==> roots@[k] as int == g.roots[k],
                forall|k: int| 0 <= k < roots@.len() ==> (#[trigger] roots@[k]) < n,
                stack@.len() == i,
                forall|k: int| 0 <= k < i ==> stack@[k] == roots@[k],
            decreases roots.len() - i,
        {
            stack.push(roots[i]);
            i = i + 1;
        }
        proof {
            assert forall|k: int| 0 <= k < stack@.len() implies (#[trigger] stack@[k]) < n
                && g.reachable(*opt, stack@[k] as int) by {
                assert(g.roots[k] == roots@[k]);
                assert(g.roots.contains(g.roots[k]));
                lemma_root_reachable(g, *opt, stack@[k] as int);
            }
            assert forall|k: int| 0 <= k < g.roots.len() implies holds(
                stack@,
                #[trigger] g.roots[k],
            ) by {
                assert(stack@[k] == g.roots[k]);
            }
        }
        while stack.len() > 0
            invariant
                g == self@,
                g.well_formed(),
                n == g.size(),
                n == self.packages().len(),
                seen@.len() == n,
                order@.len() <= n,
                order@.no_duplicates(),
                forall|k: int| 0 <= k < order@.len() ==> (#[trigger] order@[k]) < n && seen@[order@[k] as int],
                forall|v: int| 0 <= v < n && #[trigger] seen@[v] ==> holds(order@, v),
                forall|v: int| 0 <= v < n && #[trigger] seen@[v] ==> g.reachable(*opt, v),
                forall|k: int|
                    0 <= k < stack@.len() ==> (#[trigger] stack@[k]) < n && g.reachable(
                        *opt,
                        stack@[k] as int,
                    ),
                forall|k: int|
                    0 <= k < g.roots.len() ==> seen@[#[trigger] g.roots[k]] || holds(
                        stack@,
                        g.roots[k],
                    ),
                forall|u: int, v: int|
                    0 <= u < n && seen@[u] && #[trigger] g.step(*opt, u, v) ==> 0 <= v < n && (
                    seen@[v] || holds(stack@, v)),
            decreases n - order@.len(), stack@.len(),
        {
            let ghost stack_before = stack@;
            let ghost seen_before = seen@;
            let v = stack.pop().unwrap();
            assert forall|w: int| holds(stack_before, w) implies holds(stack@, w) || w == v by {
                let k = choose|k: int| 0 <= k < stack_before.len() && #[trigger] stack_before[k] == w;
                if k < stack@.len() {
                    assert(stack@[k] == w);
                }
            }
            if !seen[v] {
                seen.set(v, true);
                let ghost order_before = order@;
                order.push(v);
                proof {
                    assert forall|a: int, b: int|
                        0 <= a < order@.len() && 0 <= b < order@.len() && a != b implies order@[a]
                        != order@[b] by {
                        if a < order_before.len() {
                            assert(seen_before[order_before[a] as int]);
                        }
                        if b < order_before.len() {
                            assert(seen_before[order_before[b] as int]);
                        }
                    }
                    lemma_distinct_bounded(order@, n as nat);
                    assert forall|w: int| 0 <= w < n && #[trigger] seen@[w] implies holds(
                        order@,
                        w,
                    ) by {
                        if w == v {
                            assert(order@[order@.len() - 1] == w);
                        } else {
                            assert(seen_before[w]);
                            let k = choose|k: int|
                                0 <= k < order_before.len() && #[trigger] order_before[k] == w;
                            assert(order@[k] == w);
                        }
                    }
                }
                let edges = self.edges(v);
                let ghost middle = stack@;
                let mut k: usize = 0;
                while k < edges.len()
                    invariant
                        k <= edges.len(),
                        g == self@,
                        g.well_formed(),
                        n == g.size(),
                        v < n,
                        g.reachable(*opt, v as int),
                        edge_models(edges@) == g.edges[v as int],
                        forall|j: int| 0 <= j < edges@.len() ==> (#[trigger] edges@[j]).target < n,
                        forall|j: int|
                            0 <= j < stack@.len() ==> (#[trigger] stack@[j]) < n && g.reachable(
                                *opt,
                                stack@[j] as int,
                            ),
                        forall|w: int| holds(middle, w) ==> holds(stack@, w),
                        forall|j: int|
                            0 <= j < k && edge_allowed((#[trigger] edges@[j]).kinds@, *opt)
                                ==> holds(stack@, edges@[j].target as int),
                    decreases edges.len() - k,
                {
                    let ghost inner_before = stack@;
                    if edge_follows(&edges[k].kinds, opt) {
                        let target = edges[k].target;
                        proof {
                            assert(g.edges[v as int][k as int] == edges@[k as int]@);
                            assert(g.step(*opt, v as int, target as int));
                            lemma_reachable_step(g, *opt, v as int, target as int);
                        }
                        stack.push(target);
                        assert(stack@[stack@.len() - 1] == target);
                    }
                    assert forall|w: int| holds(inner_before, w) implies holds(stack@, w) by {
                        let j = choose|j: int|
                            0 <= j < inner_before.len() && #[trigger] inner_before[j] == w;
                        assert(stack@[j] == w);
                    }
                    k = k + 1;
                }
                proof {
                    assert forall|a: int, w: int|
                        0 <= a < n && seen@[a] && #[trigger] g.step(*opt, a, w) implies 0 <= w < n
                        && (seen@[w] || holds(stack@, w)) by {
                        if a == v {
                            let j = choose|j: int|
                                0 <= j < g.edges[a].len() && (#[trigger] g.edges[a][j]).target == w
                                    && edge_allowed(g.edges[a][j].kinds, *opt);
                            assert(g.edges[a][j] == edges@[j]@);
                            assert(holds(stack@, edges@[j].target as int));
                        } else {
                            assert(seen_before[a]);
                            if !seen_before[w] && w != v {
                                assert(holds(stack_before, w));
                                assert(holds(middle, w));
                            }
                        }
                    }
                    assert forall|j: int| 0 <= j < g.roots.len() implies seen@[#[trigger] g.roots[j]]
                        || holds(stack@, g.roots[j]) by {
                        let w = g.roots[j];
                        if !seen_before[w] && w != v {
                            assert(holds(stack_before, w));
                            assert(holds(middle, w));
                        }
                    }
                }
            }
        }
        proof {
            assert forall|v: int| g.reachable(*opt, v) implies 0 <= v < n && seen@[v] by {
                let path = choose|path: Seq<int>| #[trigger] g.is_walk(*opt, path) && path.last() == v;
                assert forall|a: int, w: int|
                    0 <= a < g.size() && seen@[a] && #[trigger] g.step(*opt, a, w) implies 0 <= w
                    < g.size() && seen@[w] by {
                    if holds(stack@, w) {
                        let j = choose|j: int| 0 <= j < stack@.len() && #[trigger] stack@[j] == w;
                    }
                }
                assert forall|j: int| 0 <= j < g.roots.len() implies seen@[#[trigger] g.roots[j]] by {
                    if holds(stack@, g.roots[j]) {
                        let m = choose|m: int|
                            0 <= m < stack@.len() && #[trigger] stack@[m] == g.roots[j];
                    }
                }
                lemma_closed_holds_walk(g, *opt, seen@, path, path.len() - 1);
            }
            assert forall|v: int| holds(order@, v) <==> g.reachable(*opt, v) by {
                if holds(order@, v) {
                    let k = choose|k: int| 0 <= k < order@.len() && #[trigger] order@[k] == v;
                    assert(seen@[order@[k] as int]);
                }
            }
        }
        (order, seen)
    }

    /// The packages that can be reached from the roots along the edges
    /// that the policy lets be followed, each once.
    pub fn connected(&self, opt: &GetDependenciesOpt) -> (r: Vec<usize>)
        ensures
            r@.no_duplicates(),
            forall|i: int| 0 <= i < r@.len() ==> (#[trigger] r@[i]) < self.packages().len(),
            forall|v: int| holds(r@, v) <==> self@.reachable(*opt, v),
    {
        self.traverse(opt).0
    }
}

} // verus!
