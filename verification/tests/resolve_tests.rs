use fixedbitset::FixedBitSet;
use guppy::package::{
    DependencyReq, FeatureDef, PackageGraph, PackageId, PackageLink, PackageMetadata,
};
use guppy::platform::PlatformStatus;
use guppy::package::DepRequiredOrOptional;
use guppy::resolve::{PackageResolver, PackageQuery, PackageSet};
use guppy::DependencyDirection;

fn pkg(name: &str) -> PackageMetadata {
    PackageMetadata {
        id: PackageId::new(name.to_string()),
        features: Vec::new(),
        named_feature_count: 0,
    }
}

fn link(from: usize, to: usize, dep_name: &str) -> PackageLink {
    PackageLink {
        from,
        to,
        dep_name: dep_name.to_string(),
        normal: DependencyReq {
            required: DepRequiredOrOptional {
                build_if: PlatformStatus::Always,
                default_features_if: PlatformStatus::Never,
                feature_targets: Vec::new(),
            },
            optional: DepRequiredOrOptional::new_empty(),
        },
        build: DependencyReq::new_empty(),
        dev: DependencyReq::new_empty(),
    }
}

fn chain_graph() -> PackageGraph {
    // A -> B -> C
    match PackageGraph::new(
        vec![pkg("A"), pkg("B"), pkg("C")],
        vec![link(0, 1, "B"), link(1, 2, "C")],
    ) {
        Some(g) => g,
        None => panic!("input should be valid"),
    }
}

fn names(ids: &Vec<PackageId>) -> Vec<String> {
    let mut r = Vec::new();
    for id in ids.iter() {
        r.push(id.name.clone());
    }
    r
}

#[test]
fn resolve_all_contains_every_package() {
    let g = chain_graph();
    let all = g.resolve_all();
    assert_eq!(all.len(), 3);
    assert!(!all.is_empty());
    assert_eq!(all.contains(&PackageId::new("A".to_string())), Some(true));
    assert_eq!(all.contains(&PackageId::new("D".to_string())), None);
}

#[test]
fn query_forward_resolves_dependencies() {
    let g = chain_graph();
    let q = g.query_forward(&vec![PackageId::new("B".to_string())]).unwrap();
    let set = PackageSet::new(q);
    assert_eq!(set.len(), 2);
    assert_eq!(set.contains(&PackageId::new("A".to_string())), Some(false));
    assert_eq!(set.contains(&PackageId::new("B".to_string())), Some(true));
    assert_eq!(set.contains(&PackageId::new("C".to_string())), Some(true));
}

#[test]
fn query_reverse_resolves_dependents() {
    let g = chain_graph();
    let q = g.query_reverse(&vec![PackageId::new("B".to_string())]).unwrap();
    let set = PackageSet::new(q);
    assert_eq!(set.len(), 2);
    assert_eq!(set.contains(&PackageId::new("A".to_string())), Some(true));
    assert_eq!(set.contains(&PackageId::new("C".to_string())), Some(false));
}

#[test]
fn query_with_unknown_id_fails() {
    let g = chain_graph();
    assert!(g.query_forward(&vec![PackageId::new("Z".to_string())]).is_none());
}

#[test]
fn from_included_round_trip() {
    let g = chain_graph();
    let mut bs = FixedBitSet::with_capacity(3);
    bs.insert(2);
    let set = PackageSet::from_included(&g, bs);
    assert_eq!(set.len(), 1);
    assert_eq!(set.contains(&PackageId::new("C".to_string())), Some(true));
    assert_eq!(set.contains(&PackageId::new("A".to_string())), Some(false));
}

#[test]
fn set_algebra_laws_on_concrete_sets() {
    let g = chain_graph();
    let r1 = g.resolve_all();
    let mut bs = FixedBitSet::with_capacity(3);
    bs.insert(1);
    bs.insert(2);
    let r2 = PackageSet::from_included(&g, bs);
    let union = r1.union(&r2);
    assert_eq!(union.len(), r1.len());
    let inter = r1.intersection(&r2);
    assert_eq!(inter.len(), r2.len());
    assert_eq!(inter.contains(&PackageId::new("B".to_string())), Some(true));
    let diff = r1.difference(&r2);
    assert_eq!(diff.len(), r1.len() - r2.len());
    assert_eq!(diff.contains(&PackageId::new("A".to_string())), Some(true));
    assert_eq!(diff.contains(&PackageId::new("B".to_string())), Some(false));
    let sym = r1.symmetric_difference(&r2);
    assert_eq!(sym.len(), diff.len());
    assert_eq!(sym.contains(&PackageId::new("A".to_string())), Some(true));
}

#[test]
fn union_and_intersection_with_self_are_identity() {
    let g = chain_graph();
    let r = g.resolve_all();
    let u = r.union(&r);
    assert_eq!(u.len(), r.len());
    let i = r.intersection(&r);
    assert_eq!(i.len(), r.len());
    let d = r.difference(&r);
    assert!(d.is_empty());
}

#[test]
fn topo_forward_is_reverse_of_backward() {
    let g = chain_graph();
    let all = g.resolve_all();
    let fwd = names(&all.package_ids(DependencyDirection::Forward));
    let mut rev = names(&all.package_ids(DependencyDirection::Reverse));
    rev.reverse();
    assert_eq!(fwd, rev);
    assert_eq!(fwd.len(), 3);
    // Dependents come before their dependencies in forward order.
    let pos = |n: &str| fwd.iter().position(|x| x.as_str() == n).unwrap();
    assert!(pos("A") < pos("B"));
    assert!(pos("B") < pos("C"));
}

#[test]
fn roots_in_both_directions() {
    let g = chain_graph();
    let all = g.resolve_all();
    let fwd_roots = names(&all.root_ids(DependencyDirection::Forward));
    assert_eq!(fwd_roots, vec!["A".to_string()]);
    let rev_roots = names(&all.root_ids(DependencyDirection::Reverse));
    assert_eq!(rev_roots, vec!["C".to_string()]);
}

#[test]
fn roots_of_subset_ignore_excluded_predecessors() {
    let g = chain_graph();
    let mut bs = FixedBitSet::with_capacity(3);
    bs.insert(1);
    bs.insert(2);
    let set = PackageSet::from_included(&g, bs);
    let fwd_roots = names(&set.root_ids(DependencyDirection::Forward));
    assert_eq!(fwd_roots, vec!["B".to_string()]);
}

#[test]
fn links_are_yielded_with_endpoints() {
    let g = chain_graph();
    let all = g.resolve_all();
    let ls = all.links(DependencyDirection::Forward);
    assert_eq!(ls.len(), 2);
    // Forward order: the edge into B is yielded before the edge out of B.
    assert_eq!(ls[0].0, 0);
    assert_eq!(ls[0].1, 1);
    assert_eq!(ls[1].0, 1);
    assert_eq!(ls[1].1, 2);
    let rs = all.links(DependencyDirection::Reverse);
    assert_eq!(rs.len(), 2);
    assert_eq!(rs[0].0, 1);
    assert_eq!(rs[0].1, 2);
}

#[test]
fn packages_iteration_matches_ids() {
    let g = chain_graph();
    let all = g.resolve_all();
    let metas = all.packages(DependencyDirection::Forward);
    let ids = all.package_ids(DependencyDirection::Forward);
    assert_eq!(metas.len(), ids.len());
    for k in 0..metas.len() {
        assert_eq!(metas[k].id.name, ids[k].name);
    }
    let roots = all.root_packages(DependencyDirection::Forward);
    assert_eq!(roots.len(), 1);
    assert_eq!(roots[0].id.name.as_str(), "A");
}

struct RejectAll;

impl PackageResolver for RejectAll {
    fn accept(&mut self, _query: &PackageQuery<'_>, _link: &PackageLink) -> bool {
        false
    }
}

struct AcceptAll;

impl PackageResolver for AcceptAll {
    fn accept(&mut self, _query: &PackageQuery<'_>, _link: &PackageLink) -> bool {
        true
    }
}

struct RejectNamed {
    name: String,
    calls: usize,
}

impl PackageResolver for RejectNamed {
    fn accept(&mut self, _query: &PackageQuery<'_>, link: &PackageLink) -> bool {
        self.calls += 1;
        link.dep_name != self.name
    }
}

#[test]
fn resolver_prunes_links() {
    let g = chain_graph();
    let q = g.query_forward(&vec![PackageId::new("A".to_string())]).unwrap();
    let mut reject = RejectAll;
    let only_a = PackageSet::with_resolver(q, &mut reject);
    assert_eq!(only_a.len(), 1);
    assert_eq!(only_a.contains(&PackageId::new("A".to_string())), Some(true));

    let q2 = g.query_forward(&vec![PackageId::new("A".to_string())]).unwrap();
    let mut accept = AcceptAll;
    let everything = PackageSet::with_resolver(q2, &mut accept);
    assert_eq!(everything.len(), 3);

    let q3 = g.query_forward(&vec![PackageId::new("A".to_string())]).unwrap();
    let mut partial = RejectNamed { name: "C".to_string(), calls: 0 };
    let a_and_b = PackageSet::with_resolver(q3, &mut partial);
    assert_eq!(a_and_b.len(), 2);
    assert_eq!(a_and_b.contains(&PackageId::new("C".to_string())), Some(false));
    assert!(partial.calls >= 1);
}

#[test]
fn cycle_topo_yields_each_package_once() {
    let g = match PackageGraph::new(
        vec![pkg("A"), pkg("B")],
        vec![link(0, 1, "B"), link(1, 0, "A")],
    ) {
        Some(g) => g,
        None => panic!("input should be valid"),
    };
    let all = g.resolve_all();
    let ids = names(&all.package_ids(DependencyDirection::Forward));
    assert_eq!(ids.len(), 2);
    assert!(ids.contains(&"A".to_string()));
    assert!(ids.contains(&"B".to_string()));
    let roots = all.root_ids(DependencyDirection::Forward);
    // The whole cycle is one root component.
    assert_eq!(roots.len(), 2);
}

#[test]
fn empty_graph_resolves_to_nothing() {
    let g = match PackageGraph::new(Vec::new(), Vec::new()) {
        Some(g) => g,
        None => panic!("input should be valid"),
    };
    let all = g.resolve_all();
    assert_eq!(all.len(), 0);
    assert!(all.is_empty());
    assert_eq!(all.package_ids(DependencyDirection::Forward).len(), 0);
    assert_eq!(all.root_ids(DependencyDirection::Forward).len(), 0);
    assert_eq!(all.links(DependencyDirection::Forward).len(), 0);
    let fg = g.feature_graph();
    assert_eq!(fg.feature_count(), 0);
    assert_eq!(fg.link_count(), 0);
}

#[test]
fn diamond_topo_respects_all_edges() {
    // A -> B, A -> C, B -> D, C -> D.
    let g = match PackageGraph::new(
        vec![pkg("A"), pkg("B"), pkg("C"), pkg("D")],
        vec![link(0, 1, "B"), link(0, 2, "C"), link(1, 3, "D"), link(2, 3, "D")],
    ) {
        Some(g) => g,
        None => panic!("input should be valid"),
    };
    let all = g.resolve_all();
    let fwd = names(&all.package_ids(DependencyDirection::Forward));
    let pos = |n: &str| fwd.iter().position(|x| x.as_str() == n).unwrap();
    assert!(pos("A") < pos("B"));
    assert!(pos("A") < pos("C"));
    assert!(pos("B") < pos("D"));
    assert!(pos("C") < pos("D"));
    assert_eq!(names(&all.root_ids(DependencyDirection::Forward)), vec!["A".to_string()]);
    assert_eq!(names(&all.root_ids(DependencyDirection::Reverse)), vec!["D".to_string()]);
    // Every link is yielded exactly once.
    assert_eq!(all.links(DependencyDirection::Forward).len(), 4);
}

#[test]
fn package_count_and_metadata_lookup() {
    let g = chain_graph();
    assert_eq!(g.package_count(), 3);
    let id = PackageId::new("B".to_string());
    let m = g.metadata(&id).unwrap();
    assert_eq!(m.id.name.as_str(), "B");
    assert!(g.metadata(&PackageId::new("Z".to_string())).is_none());
    assert_eq!(m.get_feature_idx("x"), None);
    assert_eq!(m.feature_idx_to_name(0), None);
}
