//! The dependency graph of a project: packages in an arena, edges and
//! roots by index into it.

use crate::error::DependencyError;
use crate::graph_model::{DependencyKind, EdgeModel, GraphModel};
use crate::metadata::{
    builds_proc_macro, index_of, lemma_index_of, package_ids, DependencyEdge, PackageNode,
    ProjectMetadata, ResolvedDependencies,
};
use vstd::hash_map::StringHashMap;
use vstd::prelude::*;

verus! {

/// An edge of the graph: the index of the package depended on, and the
/// kinds of the dependency.
#[derive(Clone, Debug, PartialEq, Eq)]
pub struct Edge {
    pub target: usize,
    pub kinds: Vec<DependencyKind>,
}

impl View for Edge {
    type V = EdgeModel;

    open spec fn view(&self) -> EdgeModel {
        EdgeModel { target: self.target as int, kinds: self.kinds@ }
    }
}

/// The edges that a list of edges stands for.
pub open spec fn edge_models(edges: Seq<Edge>) -> Seq<EdgeModel> {
    Seq::new(edges.len(), |k: int| edges[k]@)
}

/// The dependency graph of a project. A package is known by its index.
#[derive(Debug)]
pub struct DependencyGraph {
    packages: Vec<PackageNode>,
    adjacency: Vec<Vec<Edge>>,
    roots: Vec<usize>,
}

/// The names of the packages, in their order.
pub open spec fn package_names(packages: Seq<PackageNode>) -> Seq<Seq<char>> {
    Seq::new(packages.len(), |i: int| packages[i].name@)
}

/// For each package, whether it builds a proc-macro.
pub open spec fn proc_macro_marks(packages: Seq<PackageNode>) -> Seq<bool> {
    Seq::new(packages.len(), |i: int| builds_proc_macro(packages[i]))
}

/// The edges out of the package `u` among the given ones, in their order
/// and with the package depended on by its index. An edge from or to an
/// identifier that no package has is left out.
pub open spec fn resolved_edges(edges: Seq<DependencyEdge>, ids: Seq<Seq<char>>, u: int) -> Seq<
    EdgeModel,
>
    decreases edges.len(),
{
    if edges.len() == 0 {
        Seq::empty()
    } else {
        let front = resolved_edges(edges.drop_last(), ids, u);
        let e = edges.last();
        match (index_of(ids, e.source@), index_of(ids, e.target@)) {
            (Some(s), Some(t)) => if s == u {
                front.push(EdgeModel { target: t, kinds: e.kinds@ })
            } else {
                front
            },
            _ => front,
        }
    }
}

/// The indices of the packages that the identifiers name, in their order.
/// An identifier that no package has is left out.
pub open spec fn resolved_members(members: Seq<String>, ids: Seq<Seq<char>>) -> Seq<int>
    decreases members.len(),
{
    if members.len() == 0 {
        Seq::empty()
    } else {
        let front = resolved_members(members.drop_last(), ids);
        match index_of(ids, members.last()@) {
            Some(i) => front.push(i),
            None => front,
        }
    }
}

/// The roots of a project: its root package where it names one that is
/// among its packages, else the members of its workspace.
pub open spec fn resolved_roots(root: Option<String>, members: Seq<String>, ids: Seq<Seq<char>>) -> Seq<
    int,
> {
    match root {
        Some(r) => match index_of(ids, r@) {
            Some(i) => seq![i],
            None => resolved_members(members, ids),
        },
        None => resolved_members(members, ids),
    }
}

/// The graph that a project with resolved dependencies describes.
pub open spec fn graph_model(
    packages: Seq<PackageNode>,
    resolve: ResolvedDependencies,
    members: Seq<String>,
) -> GraphModel {
    let ids = package_ids(packages);
    GraphModel {
        names: package_names(packages),
        proc_macro: proc_macro_marks(packages),
        edges: Seq::new(packages.len(), |u: int| resolved_edges(resolve.edges@, ids, u)),
        roots: resolved_roots(resolve.root, members, ids),
    }
}

/// The edges of a resolved list name packages.
proof fn lemma_resolved_edges_in_range(edges: Seq<DependencyEdge>, ids: Seq<Seq<char>>, u: int)
    ensures
        forall|k: int|
            0 <= k < resolved_edges(edges, ids, u).len() ==> 0 <= (#[trigger] resolved_edges(
                edges,
                ids,
                u,
            )[k]).target < ids.len(),
    decreases edges.len(),
{
    if edges.len() > 0 {
        let front = resolved_edges(edges.drop_last(), ids, u);
        let all = resolved_edges(edges, ids, u);
        lemma_resolved_edges_in_range(edges.drop_last(), ids, u);
        lemma_index_of(ids, edges.last().target@);
        assert forall|k: int| 0 <= k < all.len() implies 0 <= (#[trigger] all[k]).target
            < ids.len() by {
            if k < front.len() {
                assert(all[k] == front[k]);
            }
        }
    }
}

/// The map holds, for every identifier that a package has, the index of
/// the first package with it, and nothing else.
pub open spec fn is_index_of(index: Map<Seq<char>, usize>, ids: Seq<Seq<char>>) -> bool {
    &&& forall|id: Seq<char>| #[trigger] index.contains_key(id) <==> index_of(ids, id).is_some()
    &&& forall|id: Seq<char>|
        #[trigger] index.contains_key(id) ==> index_of(ids, id) == Some(index[id] as int)
}

/// The index of the first package with each identifier, by identifier.
pub fn index_packages(packages: &Vec<PackageNode>) -> (r: StringHashMap<usize>)
    ensures
        is_index_of(r@, package_ids(packages@)),
{
    let ghost ids = package_ids(packages@);
    let mut index: StringHashMap<usize> = StringHashMap::new();
    let mut i: usize = 0;
    while i < packages.len()
        invariant
            i <= packages.len(),
            ids == package_ids(packages@),
            is_index_of(index@, ids.take(i as int)),
        decreases packages.len() - i,
    {
        proof {
            assert(ids.take(i + 1).drop_last() =~= ids.take(i as int));
            assert(ids.take(i + 1).last() == packages[i as int].id@);
        }
        if !index.contains_key(packages[i].id.as_str()) {
            index.insert(packages[i].id.clone(), i);
        }
        i = i + 1;
    }
    assert(ids.take(packages.len() as int) =~= ids);
    index
}

/// The index of the first package with the identifier `id`.
fn resolve(index: &StringHashMap<usize>, packages: &Vec<PackageNode>, id: &String) -> (r: Option<
    usize,
>)
    requires
        is_index_of(index@, package_ids(packages@)),
    ensures
        match r {
            Some(i) => index_of(package_ids(packages@), id@) == Some(i as int) && i
                < packages.len(),
            None => index_of(package_ids(packages@), id@).is_none(),
        },
{
    proof {
        lemma_index_of(package_ids(packages@), id@);
    }
    match index.get(id.as_str()) {
        Some(i) => Some(*i),
        None => None,
    }
}

/// The indices of a list, as numbers.
pub open spec fn indices(v: Seq<usize>) -> Seq<int> {
    Seq::new(v.len(), |i: int| v[i] as int)
}

/// The indices of the packages that the identifiers name.
fn resolve_members(
    index: &StringHashMap<usize>,
    packages: &Vec<PackageNode>,
    members: &Vec<String>,
) -> (r: Vec<usize>)
    requires
        is_index_of(index@, package_ids(packages@)),
    ensures
        indices(r@) == resolved_members(members@, package_ids(packages@)),
        forall|i: int| 0 <= i < r@.len() ==> (#[trigger] r@[i]) < packages.len(),
{
    let ghost ids = package_ids(packages@);
    let mut out: Vec<usize> = Vec::new();
    let mut i: usize = 0;
    while i < members.len()
        invariant
            i <= members.len(),
            ids == package_ids(packages@),
            is_index_of(index@, package_ids(packages@)),
            indices(out@) == resolved_members(members@.take(i as int), ids),
            forall|k: int| 0 <= k < out@.len() ==> (#[trigger] out@[k]) < packages.len(),
        decreases members.len() - i,
    {
        proof {
            assert(members@.take(i + 1).drop_last() =~= members@.take(i as int));
            assert(members@.take(i + 1).last() == members@[i as int]);
        }
        let ghost before = out@;
        match resolve(index, packages, &members[i]) {
            Some(p) => {
                out.push(p);
                assert(indices(out@) =~= indices(before).push(p as int));
            },
            None => {},
        }
        i = i + 1;
    }
    assert(members@.take(members.len() as int) =~= members@);
    out
}

/// The roots of the project.
fn resolve_roots(
    index: &StringHashMap<usize>,
    packages: &Vec<PackageNode>,
    root: &Option<String>,
    members: &Vec<String>,
) -> (r: Vec<usize>)
    requires
        is_index_of(index@, package_ids(packages@)),
    ensures
        indices(r@) == resolved_roots(*root, members@, package_ids(packages@)),
        forall|i: int| 0 <= i < r@.len() ==> (#[trigger] r@[i]) < packages.len(),
{
    match root {
        Some(id) => match resolve(index, packages, id) {
            Some(p) => {
                let mut out: Vec<usize> = Vec::new();
                out.push(p);
                assert(indices(out@) =~= seq![p as int]);
                out
            },
            None => resolve_members(index, packages, members),
        },
        None => resolve_members(index, packages, members),
    }
}

/// The edges of the project, sorted by the package they leave.
fn resolve_edges(
    index: &StringHashMap<usize>,
    packages: &Vec<PackageNode>,
    edges: Vec<DependencyEdge>,
) -> (r: Vec<Vec<Edge>>)
    requires
        is_index_of(index@, package_ids(packages@)),
    ensures
        r@.len() == packages.len(),
        forall|u: int|
            0 <= u < r@.len() ==> edge_models((#[trigger] r@[u])@) == resolved_edges(
                edges@,
                package_ids(packages@),
                u,
            ),
{
    let ghost ids = package_ids(packages@);
    let ghost all = edges@;
    let mut adjacency: Vec<Vec<Edge>> = Vec::new();
    let mut n: usize = 0;
    while n < packages.len()
        invariant
            n <= packages.len(),
            adjacency@.len() == n,
            forall|u: int| 0 <= u < n ==> (#[trigger] adjacency@[u])@.len() == 0,
        decreases packages.len() - n,
    {
        adjacency.push(Vec::new());
        n = n + 1;
    }
    assert forall|u: int| 0 <= u < adjacency@.len() implies edge_models(
        (#[trigger] adjacency@[u])@,
    ) == resolved_edges(all.take(0), ids, u) by {
        assert(edge_models(adjacency@[u]@) =~= Seq::<EdgeModel>::empty());
    }
    for edge in it: edges
        invariant
            it.seq() == all,
            ids == package_ids(packages@),
            is_index_of(index@, package_ids(packages@)),
            adjacency@.len() == packages.len(),
            forall|u: int|
                0 <= u < adjacency@.len() ==> edge_models((#[trigger] adjacency@[u])@)
                    == resolved_edges(all.take(it.index() as int), ids, u),
    {
        proof {
            assert(all.take(it.index() + 1).drop_last() =~= all.take(it.index() as int));
            assert(all.take(it.index() + 1).last() == edge);
        }
        let source = resolve(index, packages, &edge.source);
        let target = resolve(index, packages, &edge.target);
        let ghost before = adjacency@;
        match (source, target) {
            (Some(s), Some(t)) => {
                let ghost old_row = adjacency@[s as int]@;
                adjacency[s].push(Edge { target: t, kinds: edge.kinds });
                assert(edge_models(adjacency@[s as int]@) =~= edge_models(old_row).push(
                    EdgeModel { target: t as int, kinds: edge.kinds@ },
                ));
                assert forall|u: int| 0 <= u < adjacency@.len() implies edge_models(
                    (#[trigger] adjacency@[u])@,
                ) == resolved_edges(all.take(it.index() + 1), ids, u) by {
                    if u != s {
                        assert(adjacency@[u] == before[u]);
                    }
                }
            },
            _ => {},
        }
    }
    assert(all.take(all.len() as int) =~= all);
    adjacency
}

impl DependencyGraph {
    /// The graph that a project describes: the packages in their order,
    /// the edges between those that are among the packages, and the root
    /// package or, where the project names none that is among its
    /// packages, the members of the workspace as roots.
    pub fn build(metadata: ProjectMetadata) -> (r: Result<DependencyGraph, DependencyError>)
        ensures
            match r {
                Ok(g) => metadata.resolve.is_some() && g.packages() == metadata.packages@ && g@
                    == graph_model(
                    metadata.packages@,
                    metadata.resolve.unwrap(),
                    metadata.workspace_members@,
                ) && g@.roots.len() > 0 && g@.well_formed(),
                Err(DependencyError::MissingResolveData) => metadata.resolve.is_none(),
                Err(DependencyError::NoRootPackage) => metadata.resolve.is_some() && resolved_roots(
                    metadata.resolve.unwrap().root,
                    metadata.workspace_members@,
                    package_ids(metadata.packages@),
                ).len() == 0,
            },
    {
        let ProjectMetadata { packages, resolve, workspace_members } = metadata;
        let resolve = match resolve {
            None => {
                return Err(DependencyError::MissingResolveData);
            },
            Some(r) => r,
        };
        let ResolvedDependencies { edges, root } = resolve;
        let index = index_packages(&packages);
        let roots = resolve_roots(&index, &packages, &root, &workspace_members);
        if roots.len() == 0 {
            return Err(DependencyError::NoRootPackage);
        }
        let ghost all = edges@;
        let adjacency = resolve_edges(&index, &packages, edges);
        let ghost ids = package_ids(packages@);
        let ghost model = graph_model(packages@, resolve, workspace_members@);
        let ghost built = GraphModel {
            names: package_names(packages@),
            proc_macro: proc_macro_marks(packages@),
            edges: Seq::new(adjacency.len() as nat, |u: int| edge_models(adjacency[u]@)),
            roots: Seq::new(roots.len() as nat, |i: int| roots[i] as int),
        };
        proof {
            assert(built.edges =~= model.edges);
            assert(built.roots =~= indices(roots@));
            assert(built == model);
            assert forall|u: int, k: int|
                0 <= u < built.edges.len() && 0 <= k < built.edges[u].len() implies 0 <= (
            #[trigger] built.edges[u][k]).target < built.size() by {
                lemma_resolved_edges_in_range(all, ids, u);
            }
            assert forall|i: int| 0 <= i < built.roots.len() implies 0 <= #[trigger] built.roots[i]
                < built.size() by {
                assert(built.roots[i] == roots@[i]);
            }
            assert(built.well_formed());
        }
        Ok(DependencyGraph { packages, adjacency, roots })
    }

    /// The packages of the graph, in the order of their indices.
    pub closed spec fn packages(&self) -> Seq<PackageNode> {
        self.packages@
    }

    /// Every package has its edges, every edge and every root names a
    /// package, and there is a root.
    #[verifier::type_invariant]
    pub closed spec fn well_formed(&self) -> bool {
        &&& self.adjacency.len() == self.packages.len()
        &&& self.roots.len() > 0
        &&& self@.well_formed()
    }

    /// What being well formed means for the graph as a value.
    pub proof fn lemma_well_formed(&self)
        requires
            self.well_formed(),
        ensures
            self@.well_formed(),
            self@.roots.len() > 0,
            self@.size() == self.packages().len(),
    {
    }

    /// The name and the proc-macro mark of a package in the graph as a
    /// value are those of the package.
    pub proof fn lemma_marks(&self, v: int)
        requires
            0 <= v < self.packages().len(),
        ensures
            self@.names[v] == self.packages()[v].name@,
            self@.is_proc_macro(v) == builds_proc_macro(self.packages()[v]),
            self@.size() == self.packages().len(),
    {
    }

    /// The number of packages.
    pub fn len(&self) -> (n: usize)
        ensures
            n == self@.size(),
            n == self.packages().len(),
    {
        self.packages.len()
    }

    /// The package with the index `i`.
    pub fn package(&self, i: usize) -> (p: &PackageNode)
        requires
            i < self.packages().len(),
        ensures
            *p == self.packages()[i as int],
    {
        &self.packages[i]
    }

    /// The indices of the roots.
    pub fn roots(&self) -> (r: &Vec<usize>)
        ensures
            r@.len() == self@.roots.len(),
            r@.len() > 0,
            forall|i: int| 0 <= i < r@.len() ==> r@[i] as int == self@.roots[i],
            forall|i: int| 0 <= i < r@.len() ==> (#[trigger] r@[i]) < self.packages().len(),
    {
        proof {
            use_type_invariant(self);
            assert forall|i: int| 0 <= i < self.roots@.len() implies (#[trigger] self.roots@[i])
                < self.packages@.len() by {
                assert(self@.roots[i] == self.roots@[i]);
            }
        }
        &self.roots
    }

    /// The edges out of the package with the index `u`.
    pub fn edges(&self, u: usize) -> (r: &Vec<Edge>)
        requires
            u < self.packages().len(),
        ensures
            edge_models(r@) == self@.edges[u as int],
            forall|k: int| 0 <= k < r@.len() ==> (#[trigger] r@[k]).target < self.packages().len(),
    {
        proof {
            use_type_invariant(self);
            assert forall|k: int| 0 <= k < self.adjacency[u as int]@.len() implies (
            #[trigger] self.adjacency[u as int]@[k]).target < self.packages@.len() by {
                assert(self@.edges[u as int][k].target == self.adjacency[u as int]@[k].target);
            }
        }
        &self.adjacency[u]
    }
}

impl View for DependencyGraph {
    type V = GraphModel;

    closed spec fn view(&self) -> GraphModel {
        GraphModel {
            names: package_names(self.packages@),
            proc_macro: proc_macro_marks(self.packages@),
            edges: Seq::new(self.adjacency.len() as nat, |u: int| edge_models(self.adjacency[u]@)),
            roots: Seq::new(self.roots.len() as nat, |i: int| self.roots[i] as int),
        }
    }
}

} // verus!
