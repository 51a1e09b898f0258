use guppy::package::{
    DepRequiredOrOptional, DependencyReq, FeatureDef, PackageGraph, PackageId, PackageLink,
    PackageMetadata,
};
use guppy::platform::PlatformStatus;
use guppy::feature_graph::{FeatureBuildStage, FeatureGraphWarning, FeatureId, FeatureType};
use guppy::strutil::split_feature_dep;
use guppy::DependencyDirection;

fn pkg(name: &str, named: &[(&str, &[&str])], optional: &[&str]) -> PackageMetadata {
    let mut features = Vec::new();
    for (n, deps) in named {
        let mut feature_deps = Vec::new();
        for d in deps.iter() {
            feature_deps.push(d.to_string());
        }
        features.push(FeatureDef { name: n.to_string(), feature_deps });
    }
    for o in optional {
        features.push(FeatureDef { name: o.to_string(), feature_deps: Vec::new() });
    }
    PackageMetadata {
        id: PackageId::new(name.to_string()),
        features,
        named_feature_count: named.len(),
    }
}

fn sub(
    build_if: PlatformStatus,
    default_features_if: PlatformStatus,
    targets: Vec<(String, PlatformStatus)>,
) -> DepRequiredOrOptional {
    DepRequiredOrOptional { build_if, default_features_if, feature_targets: targets }
}

fn empty_sub() -> DepRequiredOrOptional {
    DepRequiredOrOptional::new_empty()
}

fn req(required: DepRequiredOrOptional, optional: DepRequiredOrOptional) -> DependencyReq {
    DependencyReq { required, optional }
}

fn plain_link(from: usize, to: usize, dep_name: &str) -> PackageLink {
    PackageLink {
        from,
        to,
        dep_name: dep_name.to_string(),
        normal: req(
            sub(PlatformStatus::Always, PlatformStatus::Never, Vec::new()),
            empty_sub(),
        ),
        build: DependencyReq::new_empty(),
        dev: DependencyReq::new_empty(),
    }
}

fn graph(packages: Vec<PackageMetadata>, links: Vec<PackageLink>) -> PackageGraph {
    match PackageGraph::new(packages, links) {
        Some(g) => g,
        None => panic!("input should be valid"),
    }
}

fn fid(name: &str, feature: &str) -> FeatureId {
    FeatureId::new(&PackageId::new(name.to_string()), feature)
}

fn fbase(name: &str) -> FeatureId {
    FeatureId::base(&PackageId::new(name.to_string()))
}

#[test]
fn intra_package_feature_edges() {
    let a = pkg("A", &[("x", &["y"]), ("y", &[])], &[]);
    let g = graph(vec![a], Vec::new());
    let fg = g.feature_graph();
    assert_eq!(fg.feature_count(), 3);
    assert_eq!(fg.build_warnings().len(), 0);
    assert_eq!(fg.depends_on(&fid("A", "x"), &fid("A", "y")).unwrap(), true);
    assert_eq!(fg.directly_depends_on(&fid("A", "x"), &fid("A", "y")).unwrap(), true);
    assert_eq!(fg.directly_depends_on(&fid("A", "x"), &fbase("A")).unwrap(), true);
    assert_eq!(fg.directly_depends_on(&fid("A", "y"), &fbase("A")).unwrap(), true);
    assert_eq!(fg.depends_on(&fid("A", "y"), &fid("A", "x")).unwrap(), false);
    // No default is declared, so the base is the default feature.
    assert_eq!(fg.is_default_feature(&fid("A", "x")), Some(false));
    assert_eq!(fg.is_default_feature(&fbase("A")), Some(true));
}

#[test]
fn depends_on_is_reflexive_and_direct_is_not() {
    let a = pkg("A", &[("x", &["y"]), ("y", &[])], &[]);
    let g = graph(vec![a], Vec::new());
    let fg = g.feature_graph();
    assert_eq!(fg.depends_on(&fid("A", "x"), &fid("A", "x")).unwrap(), true);
    assert_eq!(fg.depends_on(&fbase("A"), &fbase("A")).unwrap(), true);
    assert_eq!(fg.directly_depends_on(&fid("A", "x"), &fid("A", "x")).unwrap(), false);
    assert_eq!(fg.directly_depends_on(&fbase("A"), &fbase("A")).unwrap(), false);
}

#[test]
fn unknown_feature_id_is_an_error() {
    let a = pkg("A", &[("x", &[])], &[]);
    let g = graph(vec![a], Vec::new());
    let fg = g.feature_graph();
    assert!(fg.depends_on(&fid("A", "nope"), &fbase("A")).is_err());
    assert!(fg.depends_on(&fbase("B"), &fbase("A")).is_err());
    assert!(fg.metadata(&fid("A", "nope")).is_none());
    assert!(fg.is_default_feature(&fbase("B")).is_none());
}

#[test]
fn required_and_optional_edges() {
    // A depends on B with features = ["foo"] normally, and optionally on B
    // in the build kind with features = ["bar"]. B has foo, bar and an
    // empty default.
    let a = pkg("A", &[], &["B"]);
    let b = pkg("B", &[("default", &[]), ("foo", &[]), ("bar", &[])], &[]);
    let link = PackageLink {
        from: 0,
        to: 1,
        dep_name: "B".to_string(),
        normal: req(
            sub(
                PlatformStatus::Always,
                PlatformStatus::Never,
                vec![("foo".to_string(), PlatformStatus::Always)],
            ),
            empty_sub(),
        ),
        build: req(
            empty_sub(),
            sub(
                PlatformStatus::Always,
                PlatformStatus::Never,
                vec![("bar".to_string(), PlatformStatus::Always)],
            ),
        ),
        dev: DependencyReq::new_empty(),
    };
    let g = graph(vec![a, b], vec![link]);
    let fg = g.feature_graph();
    // A has the optional-dependency pseudo-feature node A/B.
    let meta = fg.metadata(&fid("A", "B")).unwrap();
    assert_eq!(meta.feature_type(), FeatureType::OptionalDep);
    // Required edges leave A's base.
    assert_eq!(fg.directly_depends_on(&fbase("A"), &fid("B", "foo")).unwrap(), true);
    assert_eq!(fg.directly_depends_on(&fbase("A"), &fbase("B")).unwrap(), true);
    // Optional edges leave the pseudo-feature node.
    assert_eq!(fg.directly_depends_on(&fid("A", "B"), &fid("B", "bar")).unwrap(), true);
    assert_eq!(fg.directly_depends_on(&fid("A", "B"), &fbase("B")).unwrap(), true);
    // The required edge is a normal-only dependency; the optional one is
    // build-only.
    let (n, bu, d) = fg.dependency_statuses(&fbase("A"), &fid("B", "foo")).unwrap().unwrap();
    assert!(n.is_always() && bu.is_never() && d.is_never());
    let (n2, bu2, d2) = fg.dependency_statuses(&fid("A", "B"), &fid("B", "bar")).unwrap().unwrap();
    assert!(n2.is_never() && bu2.is_always() && d2.is_never());
    // The base never links straight to the optional features.
    assert_eq!(fg.directly_depends_on(&fbase("A"), &fid("B", "bar")).unwrap(), false);
}

#[test]
fn missing_feature_on_unresolved_dep_is_silent() {
    let a = pkg("A", &[("f", &["missing/foo"])], &[]);
    let g = graph(vec![a], Vec::new());
    let fg = g.feature_graph();
    assert_eq!(fg.build_warnings().len(), 0);
}

#[test]
fn missing_feature_on_present_dep_warns_once() {
    let a = pkg("A", &[("f", &["B/missing"])], &[]);
    let b = pkg("B", &[("foo", &[])], &[]);
    let g = graph(vec![a, b], vec![plain_link(0, 1, "B")]);
    let fg = g.feature_graph();
    let warnings = fg.build_warnings();
    assert_eq!(warnings.len(), 1);
    match &warnings[0] {
        FeatureGraphWarning::MissingFeature { stage, package_id, feature_name } => {
            assert_eq!(package_id.name.as_str(), "B");
            assert_eq!(feature_name.as_str(), "missing");
            match stage {
                FeatureBuildStage::AddNamedFeatureEdges { package_id, from_feature } => {
                    assert_eq!(package_id.name.as_str(), "A");
                    assert_eq!(from_feature.as_str(), "f");
                },
                _ => panic!("wrong stage"),
            }
        },
    }
    // No edge was added for the missing feature.
    assert_eq!(fg.directly_depends_on(&fid("A", "f"), &fbase("B")).unwrap(), false);
}

#[test]
fn missing_dependency_feature_target_warns() {
    let a = pkg("A", &[], &[]);
    let b = pkg("B", &[("foo", &[])], &[]);
    let link = PackageLink {
        from: 0,
        to: 1,
        dep_name: "B".to_string(),
        normal: req(
            sub(
                PlatformStatus::Always,
                PlatformStatus::Never,
                vec![("absent".to_string(), PlatformStatus::Always)],
            ),
            empty_sub(),
        ),
        build: DependencyReq::new_empty(),
        dev: DependencyReq::new_empty(),
    };
    let g = graph(vec![a, b], vec![link]);
    let fg = g.feature_graph();
    let warnings = fg.build_warnings();
    assert_eq!(warnings.len(), 1);
    match &warnings[0] {
        FeatureGraphWarning::MissingFeature { stage, package_id, feature_name } => {
            assert_eq!(package_id.name.as_str(), "B");
            assert_eq!(feature_name.as_str(), "absent");
            match stage {
                FeatureBuildStage::AddDependencyEdges { package_id, dep_name } => {
                    assert_eq!(package_id.name.as_str(), "A");
                    assert_eq!(dep_name.as_str(), "B");
                },
                _ => panic!("wrong stage"),
            }
        },
    }
}

#[test]
fn never_optional_request_adds_no_edges() {
    let a = pkg("A", &[], &["B"]);
    let b = pkg("B", &[("foo", &[])], &[]);
    let link = PackageLink {
        from: 0,
        to: 1,
        dep_name: "B".to_string(),
        normal: req(
            sub(PlatformStatus::Always, PlatformStatus::Never, Vec::new()),
            sub(
                PlatformStatus::Never,
                PlatformStatus::Never,
                vec![("foo".to_string(), PlatformStatus::Never)],
            ),
        ),
        build: DependencyReq::new_empty(),
        dev: DependencyReq::new_empty(),
    };
    let g = graph(vec![a, b], vec![link]);
    let fg = g.feature_graph();
    assert_eq!(fg.directly_depends_on(&fid("A", "B"), &fbase("B")).unwrap(), false);
    assert_eq!(fg.directly_depends_on(&fid("A", "B"), &fid("B", "foo")).unwrap(), false);
    // The required half still produced its edge.
    assert_eq!(fg.directly_depends_on(&fbase("A"), &fbase("B")).unwrap(), true);
}

#[test]
fn kinds_unify_into_one_edge() {
    // One link carries both a normal and a build request: a single edge
    // results, with both kinds' predicates set.
    let a = pkg("A", &[], &[]);
    let b = pkg("B", &[], &[]);
    let link = PackageLink {
        from: 0,
        to: 1,
        dep_name: "B".to_string(),
        normal: req(
            sub(PlatformStatus::Always, PlatformStatus::Never, Vec::new()),
            empty_sub(),
        ),
        build: req(
            sub(PlatformStatus::Always, PlatformStatus::Never, Vec::new()),
            empty_sub(),
        ),
        dev: DependencyReq::new_empty(),
    };
    let g = graph(vec![a, b], vec![link]);
    let fg = g.feature_graph();
    assert_eq!(fg.link_count(), 1);
    let (n, bu, d) = fg.dependency_statuses(&fbase("A"), &fbase("B")).unwrap().unwrap();
    assert!(n.is_always() && bu.is_always() && d.is_never());
}

#[test]
fn default_features_route_to_declared_default() {
    let a = pkg("A", &[], &[]);
    let b = pkg("B", &[("default", &[]), ("foo", &[])], &[]);
    let link = PackageLink {
        from: 0,
        to: 1,
        dep_name: "B".to_string(),
        normal: req(
            sub(PlatformStatus::Always, PlatformStatus::Always, Vec::new()),
            empty_sub(),
        ),
        build: DependencyReq::new_empty(),
        dev: DependencyReq::new_empty(),
    };
    let g = graph(vec![a, b], vec![link]);
    let fg = g.feature_graph();
    assert_eq!(fg.directly_depends_on(&fbase("A"), &fid("B", "default")).unwrap(), true);
    assert_eq!(fg.directly_depends_on(&fbase("A"), &fbase("B")).unwrap(), true);
    assert_eq!(fg.directly_depends_on(&fbase("A"), &fid("B", "foo")).unwrap(), false);
}

#[test]
fn cycle_members_share_a_component() {
    let a = pkg("A", &[], &[]);
    let b = pkg("B", &[], &[]);
    let g = graph(vec![a, b], vec![plain_link(0, 1, "B"), plain_link(1, 0, "A")]);
    let fg = g.feature_graph();
    let cycles = fg.cycles();
    assert_eq!(cycles.in_same_cycle(&fbase("A"), &fbase("B")).unwrap(), true);
    // Topological iteration still yields every feature exactly once.
    let order = fg.feature_ixs_topo(DependencyDirection::Forward);
    assert_eq!(order.len(), fg.feature_count());
    for i in 0..order.len() {
        assert!(order[i] < fg.feature_count());
        for j in 0..i {
            assert_ne!(order[i], order[j]);
        }
    }
}

#[test]
fn no_cycle_means_separate_components() {
    let a = pkg("A", &[], &[]);
    let b = pkg("B", &[], &[]);
    let g = graph(vec![a, b], vec![plain_link(0, 1, "B")]);
    let fg = g.feature_graph();
    let cycles = fg.cycles();
    assert_eq!(cycles.in_same_cycle(&fbase("A"), &fbase("B")).unwrap(), false);
}

#[test]
fn split_token_without_slash() {
    let (dep, feat) = split_feature_dep("foo");
    assert!(dep.is_none());
    assert_eq!(feat.as_str(), "foo");
}

#[test]
fn split_token_with_slash() {
    let (dep, feat) = split_feature_dep("dep/foo");
    assert_eq!(dep.unwrap().as_str(), "dep");
    assert_eq!(feat.as_str(), "foo");
}

#[test]
fn split_token_on_last_slash() {
    let (dep, feat) = split_feature_dep("a/b/c");
    assert_eq!(dep.unwrap().as_str(), "a/b");
    assert_eq!(feat.as_str(), "c");
}

#[test]
fn split_empty_token() {
    let (dep, feat) = split_feature_dep("");
    assert!(dep.is_none());
    assert_eq!(feat.as_str(), "");
}

#[test]
fn platform_status_union() {
    let mut s = PlatformStatus::Never;
    s.extend(&PlatformStatus::On(vec![3]));
    assert!(!s.is_never());
    assert!(!s.is_always());
    s.extend(&PlatformStatus::Always);
    assert!(s.is_always());
    let mut t = PlatformStatus::On(Vec::new());
    assert!(t.is_never());
    t.extend(&PlatformStatus::Never);
    assert!(t.is_never());
}

#[test]
fn metadata_reports_feature_kinds() {
    let a = pkg("A", &[("x", &[])], &["opt"]);
    let g = graph(vec![a], Vec::new());
    let fg = g.feature_graph();
    assert_eq!(fg.metadata(&fbase("A")).unwrap().feature_type(), FeatureType::BasePackage);
    assert_eq!(fg.metadata(&fid("A", "x")).unwrap().feature_type(), FeatureType::NamedFeature);
    assert_eq!(fg.metadata(&fid("A", "opt")).unwrap().feature_type(), FeatureType::OptionalDep);
    let m = fg.metadata(&fid("A", "x")).unwrap();
    assert_eq!(m.feature_id().package_id().name.as_str(), "A");
    assert_eq!(m.feature_id().feature().unwrap(), "x");
    assert!(!m.feature_id().is_base());
    assert!(fbase("A").is_base());
}

#[test]
fn cross_package_feature_dependency_token() {
    // "B/foo" from a named feature of A adds a cross-package
    // feature-dependency edge.
    let a = pkg("A", &[("f", &["B/foo"])], &[]);
    let b = pkg("B", &[("foo", &[])], &[]);
    let g = graph(vec![a, b], vec![plain_link(0, 1, "B")]);
    let fg = g.feature_graph();
    assert_eq!(fg.build_warnings().len(), 0);
    assert_eq!(fg.directly_depends_on(&fid("A", "f"), &fid("B", "foo")).unwrap(), true);
    assert_eq!(fg.depends_on(&fid("A", "f"), &fbase("B")).unwrap(), true);
}

#[test]
fn node_ranges_and_node_ids_round_trip() {
    let a = pkg("A", &[("x", &[])], &[]);
    let b = pkg("B", &[], &["dep"]);
    let g = graph(vec![a, b], Vec::new());
    let fg = g.feature_graph();
    let (lo_a, hi_a) = fg.feature_ixs_for_package(&PackageId::new("A".to_string())).unwrap();
    let (lo_b, hi_b) = fg.feature_ixs_for_package(&PackageId::new("B".to_string())).unwrap();
    assert_eq!((lo_a, hi_a), (0, 2));
    assert_eq!((lo_b, hi_b), (2, 4));
    assert!(fg.feature_ixs_for_package(&PackageId::new("Z".to_string())).is_none());
    let base_a = fg.feature_id_of_node(lo_a).unwrap();
    assert!(base_a.is_base());
    assert_eq!(base_a.package_id().name.as_str(), "A");
    let x = fg.feature_id_of_node(lo_a + 1).unwrap();
    assert_eq!(x.feature().unwrap(), "x");
    let dep = fg.feature_id_of_node(lo_b + 1).unwrap();
    assert_eq!(dep.package_id().name.as_str(), "B");
    assert_eq!(dep.feature().unwrap(), "dep");
    assert!(fg.feature_id_of_node(hi_b).is_none());
}

#[test]
fn declared_default_enables_transitively() {
    let a = pkg("A", &[("default", &["x"]), ("x", &["y"]), ("y", &[]), ("z", &[])], &[]);
    let g = graph(vec![a], Vec::new());
    let fg = g.feature_graph();
    assert_eq!(fg.is_default_feature(&fid("A", "default")), Some(true));
    assert_eq!(fg.is_default_feature(&fid("A", "x")), Some(true));
    assert_eq!(fg.is_default_feature(&fid("A", "y")), Some(true));
    assert_eq!(fg.is_default_feature(&fid("A", "z")), Some(false));
    assert_eq!(fg.is_default_feature(&fbase("A")), Some(true));
}

#[test]
fn warnings_keep_phase_order() {
    // A named-feature warning is recorded before a dependency-edge warning.
    let a = pkg("A", &[("f", &["B/missing"])], &[]);
    let b = pkg("B", &[], &[]);
    let link = PackageLink {
        from: 0,
        to: 1,
        dep_name: "B".to_string(),
        normal: req(
            sub(
                PlatformStatus::Always,
                PlatformStatus::Never,
                vec![("also_missing".to_string(), PlatformStatus::Always)],
            ),
            empty_sub(),
        ),
        build: DependencyReq::new_empty(),
        dev: DependencyReq::new_empty(),
    };
    let g = graph(vec![a, b], vec![link]);
    let fg = g.feature_graph();
    let warnings = fg.build_warnings();
    assert_eq!(warnings.len(), 2);
    match &warnings[0] {
        FeatureGraphWarning::MissingFeature { stage, feature_name, .. } => {
            assert_eq!(feature_name.as_str(), "missing");
            assert!(matches!(stage, FeatureBuildStage::AddNamedFeatureEdges { .. }));
        },
    }
    match &warnings[1] {
        FeatureGraphWarning::MissingFeature { stage, feature_name, .. } => {
            assert_eq!(feature_name.as_str(), "also_missing");
            assert!(matches!(stage, FeatureBuildStage::AddDependencyEdges { .. }));
        },
    }
}

#[test]
fn invalid_inputs_are_rejected() {
    // Duplicate identifiers.
    assert!(PackageGraph::new(
        vec![pkg("A", &[], &[]), pkg("A", &[], &[])],
        Vec::new(),
    ).is_none());
    // A link out of range.
    assert!(PackageGraph::new(vec![pkg("A", &[], &[])], vec![plain_link(0, 5, "X")]).is_none());
    // A self link.
    assert!(PackageGraph::new(vec![pkg("A", &[], &[])], vec![plain_link(0, 0, "A")]).is_none());
    // Duplicate feature names in one package.
    assert!(PackageGraph::new(vec![pkg("A", &[("x", &[]), ("x", &[])], &[])], Vec::new())
        .is_none());
    // An optional request whose dependency name is no feature of the
    // depending package.
    let link = PackageLink {
        from: 0,
        to: 1,
        dep_name: "B".to_string(),
        normal: req(
            empty_sub(),
            sub(PlatformStatus::Always, PlatformStatus::Never, Vec::new()),
        ),
        build: DependencyReq::new_empty(),
        dev: DependencyReq::new_empty(),
    };
    assert!(PackageGraph::new(vec![pkg("A", &[], &[]), pkg("B", &[], &[])], vec![link]).is_none());
}
