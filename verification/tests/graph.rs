use cargo_license::error::DependencyError;
use cargo_license::filter::PolicyWarning;
use cargo_license::graph::DependencyGraph;
use cargo_license::graph_model::DependencyKind;
use cargo_license::metadata::{DependencyEdge, PackageNode, ProjectMetadata, ResolvedDependencies};
use cargo_license::report::dependency_report;
use cargo_license::version::Version;
use cargo_license::{get_dependencies_from_cargo_lock, GetDependenciesOpt};

fn package(name: &str) -> PackageNode {
    PackageNode {
        id: format!("{name} 1.0.0"),
        name: name.to_string(),
        version: Version::new(1, 0, 0),
        authors: vec![],
        license: Some("MIT".to_string()),
        license_file: None,
        repository: None,
        description: None,
        target_kinds: vec!["lib".to_string()],
    }
}

fn proc_macro(name: &str) -> PackageNode {
    let mut p = package(name);
    p.target_kinds = vec!["proc-macro".to_string()];
    p
}

fn edge(source: &str, target: &str, kinds: &[DependencyKind]) -> DependencyEdge {
    DependencyEdge {
        source: format!("{source} 1.0.0"),
        target: format!("{target} 1.0.0"),
        kinds: kinds.to_vec(),
    }
}

fn project(packages: Vec<PackageNode>, edges: Vec<DependencyEdge>, root: &str) -> ProjectMetadata {
    ProjectMetadata {
        packages,
        resolve: Some(ResolvedDependencies { edges, root: Some(format!("{root} 1.0.0")) }),
        workspace_members: vec![format!("{root} 1.0.0")],
    }
}

fn names(metadata: &ProjectMetadata, opt: &GetDependenciesOpt) -> Vec<String> {
    get_dependencies_from_cargo_lock(metadata.clone(), opt)
        .unwrap()
        .into_iter()
        .map(|d| d.name)
        .collect()
}

fn chain() -> ProjectMetadata {
    project(
        vec![package("r"), package("a"), package("b")],
        vec![
            edge("r", "a", &[DependencyKind::Normal]),
            edge("a", "b", &[DependencyKind::Development]),
        ],
        "r",
    )
}

fn with_macro() -> ProjectMetadata {
    project(
        vec![package("r"), proc_macro("m"), package("d"), package("e"), package("x")],
        vec![
            edge("r", "m", &[DependencyKind::Normal]),
            edge("m", "d", &[DependencyKind::Build]),
            edge("d", "e", &[DependencyKind::Normal]),
            edge("r", "x", &[DependencyKind::Normal]),
        ],
        "r",
    )
}

#[test]
fn test_detailed() {
    let detailed_dependencies =
        get_dependencies_from_cargo_lock(chain(), &GetDependenciesOpt::default()).unwrap();
    assert!(!detailed_dependencies.is_empty());
    for detailed_dependency in &detailed_dependencies {
        assert!(
            detailed_dependency.license.is_some() || detailed_dependency.license_file.is_some()
        );
    }
}

#[test]
fn development_edges_are_not_followed_when_avoided() {
    let opt = GetDependenciesOpt { avoid_dev_deps: true, ..GetDependenciesOpt::default() };
    assert_eq!(names(&chain(), &opt), vec!["a", "r"]);
    assert_eq!(names(&chain(), &GetDependenciesOpt::default()), vec!["a", "b", "r"]);
}

#[test]
fn build_edges_are_not_followed_when_avoided() {
    let metadata = project(
        vec![package("r"), package("a"), package("b")],
        vec![
            edge("r", "a", &[DependencyKind::Build]),
            edge("r", "b", &[DependencyKind::Build, DependencyKind::Normal]),
        ],
        "r",
    );
    let opt = GetDependenciesOpt { avoid_build_deps: true, ..GetDependenciesOpt::default() };
    assert_eq!(names(&metadata, &opt), vec!["b", "r"]);
    let dev = GetDependenciesOpt { avoid_dev_deps: true, ..GetDependenciesOpt::default() };
    assert_eq!(names(&metadata, &dev), vec!["a", "b", "r"]);
}

#[test]
fn proc_macros_and_their_direct_dependencies_are_dropped() {
    let opt = GetDependenciesOpt { avoid_proc_macros: true, ..GetDependenciesOpt::default() };
    assert_eq!(names(&with_macro(), &opt), vec!["e", "r", "x"]);
    assert_eq!(
        names(&with_macro(), &GetDependenciesOpt::default()),
        vec!["d", "e", "m", "r", "x"]
    );
}

#[test]
fn cycles_are_walked_once() {
    let metadata = project(
        vec![package("r"), package("a"), package("b")],
        vec![
            edge("r", "a", &[DependencyKind::Normal]),
            edge("a", "b", &[DependencyKind::Normal]),
            edge("b", "a", &[DependencyKind::Normal]),
            edge("b", "r", &[DependencyKind::Normal]),
        ],
        "r",
    );
    assert_eq!(names(&metadata, &GetDependenciesOpt::default()), vec!["a", "b", "r"]);
    let graph = DependencyGraph::build(metadata).unwrap();
    let mut connected = graph.connected(&GetDependenciesOpt::default());
    assert_eq!(connected.len(), 3);
    connected.sort();
    connected.dedup();
    assert_eq!(connected, vec![0, 1, 2]);
}

#[test]
fn self_loop_terminates() {
    let metadata = project(
        vec![package("r")],
        vec![edge("r", "r", &[DependencyKind::Normal])],
        "r",
    );
    assert_eq!(names(&metadata, &GetDependenciesOpt::default()), vec!["r"]);
}

#[test]
fn root_only_keeps_the_roots() {
    let opt = GetDependenciesOpt { root_only: true, ..GetDependenciesOpt::default() };
    assert_eq!(names(&chain(), &opt), vec!["r"]);
    let both = GetDependenciesOpt { root_only: true, direct_deps_only: true, ..opt };
    assert_eq!(names(&chain(), &both), vec!["r"]);
}

#[test]
fn direct_deps_only_keeps_what_is_named_like_a_direct_dependency() {
    let mut other_a = package("a");
    other_a.id = "a 2.0.0".to_string();
    other_a.version = Version::new(2, 0, 0);
    let mut metadata = project(
        vec![package("r"), package("a"), package("b"), other_a, package("c")],
        vec![
            edge("r", "a", &[DependencyKind::Development]),
            edge("r", "b", &[DependencyKind::Normal]),
            edge("b", "c", &[DependencyKind::Normal]),
        ],
        "r",
    );
    metadata.resolve.as_mut().unwrap().edges.push(DependencyEdge {
        source: "c 1.0.0".to_string(),
        target: "a 2.0.0".to_string(),
        kinds: vec![DependencyKind::Normal],
    });
    let opt = GetDependenciesOpt { direct_deps_only: true, ..GetDependenciesOpt::default() };
    let found = get_dependencies_from_cargo_lock(metadata.clone(), &opt).unwrap();
    let listed: Vec<(String, u64)> =
        found.into_iter().map(|d| (d.name, d.version.major)).collect();
    assert_eq!(
        listed,
        vec![("a".to_string(), 1), ("a".to_string(), 2), ("b".to_string(), 1), ("r".to_string(), 1)]
    );
    // the allow-list does not bring in what the walk does not reach
    let strict = GetDependenciesOpt { avoid_dev_deps: true, ..opt };
    let found = get_dependencies_from_cargo_lock(metadata, &strict).unwrap();
    let listed: Vec<(String, u64)> =
        found.into_iter().map(|d| (d.name, d.version.major)).collect();
    assert_eq!(
        listed,
        vec![("a".to_string(), 2), ("b".to_string(), 1), ("r".to_string(), 1)]
    );
}

#[test]
fn edges_without_kinds_are_followed() {
    let metadata = project(
        vec![package("r"), package("a"), package("b")],
        vec![edge("r", "a", &[]), edge("a", "b", &[DependencyKind::Development])],
        "r",
    );
    let opt = GetDependenciesOpt {
        avoid_dev_deps: true,
        avoid_build_deps: true,
        ..GetDependenciesOpt::default()
    };
    assert_eq!(names(&metadata, &opt), vec!["a", "r"]);
    let graph = DependencyGraph::build(metadata).unwrap();
    assert!(graph.has_unclassified_edge());
    assert_eq!(
        graph.warnings(&opt),
        vec![PolicyWarning::DevelopmentKindsUnknown, PolicyWarning::BuildKindsUnknown]
    );
    let dev = GetDependenciesOpt { avoid_dev_deps: true, ..GetDependenciesOpt::default() };
    assert_eq!(graph.warnings(&dev), vec![PolicyWarning::DevelopmentKindsUnknown]);
    let build = GetDependenciesOpt { avoid_build_deps: true, ..GetDependenciesOpt::default() };
    assert_eq!(graph.warnings(&build), vec![PolicyWarning::BuildKindsUnknown]);
    assert!(graph.warnings(&GetDependenciesOpt::default()).is_empty());
}

#[test]
fn no_warning_where_every_edge_has_a_kind() {
    let graph = DependencyGraph::build(chain()).unwrap();
    let opt = GetDependenciesOpt {
        avoid_dev_deps: true,
        avoid_build_deps: true,
        ..GetDependenciesOpt::default()
    };
    assert!(!graph.has_unclassified_edge());
    assert!(graph.warnings(&opt).is_empty());
}

#[test]
fn workspace_members_are_the_roots_where_there_is_no_root_package() {
    let mut metadata = project(
        vec![package("w1"), package("w2"), package("a"), package("b"), package("lost")],
        vec![
            edge("w1", "a", &[DependencyKind::Normal]),
            edge("w2", "b", &[DependencyKind::Normal]),
        ],
        "w1",
    );
    metadata.resolve.as_mut().unwrap().root = None;
    metadata.workspace_members = vec!["w1 1.0.0".to_string(), "w2 1.0.0".to_string()];
    assert_eq!(
        names(&metadata, &GetDependenciesOpt::default()),
        vec!["a", "b", "w1", "w2"]
    );
    let opt = GetDependenciesOpt { root_only: true, ..GetDependenciesOpt::default() };
    assert_eq!(names(&metadata, &opt), vec!["w1", "w2"]);
    let graph = DependencyGraph::build(metadata).unwrap();
    assert_eq!(graph.roots(), &vec![0, 1]);
    assert_eq!(graph.len(), 5);
    assert_eq!(graph.package(4).name, "lost");
}

#[test]
fn missing_resolve_data_is_an_error() {
    let metadata = ProjectMetadata {
        packages: vec![package("r")],
        resolve: None,
        workspace_members: vec!["r 1.0.0".to_string()],
    };
    assert_eq!(
        get_dependencies_from_cargo_lock(metadata, &GetDependenciesOpt::default()),
        Err(DependencyError::MissingResolveData)
    );
}

#[test]
fn no_root_package_is_an_error() {
    let metadata = ProjectMetadata {
        packages: vec![package("r")],
        resolve: Some(ResolvedDependencies { edges: vec![], root: None }),
        workspace_members: vec![],
    };
    assert_eq!(
        get_dependencies_from_cargo_lock(metadata, &GetDependenciesOpt::default()),
        Err(DependencyError::NoRootPackage)
    );
    let unknown = ProjectMetadata {
        packages: vec![package("r")],
        resolve: Some(ResolvedDependencies {
            edges: vec![],
            root: Some("nobody 1.0.0".to_string()),
        }),
        workspace_members: vec!["nobody 1.0.0".to_string()],
    };
    assert!(matches!(
        DependencyGraph::build(unknown),
        Err(DependencyError::NoRootPackage)
    ));
}

#[test]
fn edges_to_unknown_packages_are_left_out() {
    let metadata = project(
        vec![package("r"), package("a")],
        vec![
            edge("r", "ghost", &[DependencyKind::Normal]),
            edge("ghost", "a", &[DependencyKind::Normal]),
        ],
        "r",
    );
    assert_eq!(names(&metadata, &GetDependenciesOpt::default()), vec!["r"]);
}

#[test]
fn selection_grows_as_the_policy_is_relaxed() {
    let metadata = with_macro();
    for dev in [false, true] {
        for build in [false, true] {
            for macros in [false, true] {
                let opt = GetDependenciesOpt {
                    avoid_dev_deps: dev,
                    avoid_build_deps: build,
                    avoid_proc_macros: macros,
                    direct_deps_only: false,
                    root_only: false,
                };
                let root_only = names(&metadata, &GetDependenciesOpt { root_only: true, ..opt });
                let walked = names(&metadata, &opt);
                let all = names(&metadata, &GetDependenciesOpt::default());
                assert!(root_only.iter().all(|n| walked.contains(n)));
                assert!(walked.iter().all(|n| all.contains(n)));
            }
        }
    }
}

#[test]
fn filter_gives_indices_in_ascending_order() {
    let graph = DependencyGraph::build(with_macro()).unwrap();
    assert_eq!(graph.filter(&GetDependenciesOpt::default()), vec![0, 1, 2, 3, 4]);
    let opt = GetDependenciesOpt { avoid_build_deps: true, ..GetDependenciesOpt::default() };
    assert_eq!(graph.filter(&opt), vec![0, 1, 4]);
    assert!(graph.is_proc_macro(1));
    assert!(!graph.is_proc_macro(0));
    assert_eq!(graph.exclusions(), vec![false, true, true, false, false]);
    assert_eq!(graph.direct_marks(), vec![true, true, false, false, true]);
    assert_eq!(graph.root_marks(), vec![true, false, false, false, false]);
}

#[test]
fn report_carries_records_and_warnings() {
    let metadata = project(
        vec![package("r"), package("a"), package("b")],
        vec![edge("r", "a", &[]), edge("a", "b", &[DependencyKind::Build])],
        "r",
    );
    let opt = GetDependenciesOpt { avoid_build_deps: true, ..GetDependenciesOpt::default() };
    let report = dependency_report(metadata.clone(), &opt).unwrap();
    let found: Vec<&str> = report.dependencies.iter().map(|d| d.name.as_str()).collect();
    assert_eq!(found, vec!["a", "r"]);
    assert_eq!(report.warnings, vec![PolicyWarning::BuildKindsUnknown]);
    assert_eq!(
        get_dependencies_from_cargo_lock(metadata, &opt).unwrap(),
        report.dependencies
    );
    let missing = ProjectMetadata { packages: vec![], resolve: None, workspace_members: vec![] };
    assert_eq!(
        dependency_report(missing, &opt),
        Err(DependencyError::MissingResolveData)
    );
}

#[test]
fn first_package_with_an_identifier_wins() {
    let mut twin = package("twin");
    twin.id = "a 1.0.0".to_string();
    let metadata = project(
        vec![package("r"), package("a"), twin],
        vec![edge("r", "a", &[DependencyKind::Normal])],
        "r",
    );
    assert_eq!(names(&metadata, &GetDependenciesOpt::default()), vec!["a", "r"]);
}

#[test]
fn default_policy_leaves_nothing_out() {
    let opt = GetDependenciesOpt::default();
    assert!(!opt.avoid_dev_deps);
    assert!(!opt.avoid_build_deps);
    assert!(!opt.avoid_proc_macros);
    assert!(!opt.direct_deps_only);
    assert!(!opt.root_only);
}

#[test]
fn edges_of_an_unknown_kind_are_not_followed() {
    let metadata = project(
        vec![package("r"), package("a"), package("b"), package("c")],
        vec![
            edge("r", "a", &[DependencyKind::Unknown]),
            edge("r", "b", &[DependencyKind::Unknown, DependencyKind::Normal]),
            edge("r", "c", &[DependencyKind::Unknown, DependencyKind::Development]),
        ],
        "r",
    );
    assert_eq!(names(&metadata, &GetDependenciesOpt::default()), vec!["b", "c", "r"]);
    let opt = GetDependenciesOpt { avoid_dev_deps: true, ..GetDependenciesOpt::default() };
    assert_eq!(names(&metadata, &opt), vec!["b", "r"]);
    let graph = DependencyGraph::build(metadata).unwrap();
    assert!(!graph.has_unclassified_edge());
    assert!(graph.warnings(&opt).is_empty());
    // the edge still counts where the kind does not matter
    let direct = GetDependenciesOpt { avoid_proc_macros: true, ..GetDependenciesOpt::default() };
    assert_eq!(graph.direct_marks(), vec![true, true, true, true]);
    assert_eq!(graph.filter(&direct), vec![0, 2, 3]);
}
