//! Building the feature graph from the package graph.
//!
//! Construction has three phases. Phase A inserts, package by package, one
//! base node and one node per feature, each feature pointing at its base.
//! Phase B resolves every named feature's token list to feature-dependency
//! edges, warning about tokens that name a missing feature. Phase C folds
//! each package link's three dependency kinds into one required and one
//! optional request per destination feature and emits the cross-package
//! edges carrying the unified platform predicates.

use vstd::prelude::*;
use crate::digraph::DiGraph;
use crate::feature_graph::{
    base_ix_of, lemma_base_ix_monotone, lemma_node_ix_range, node_ix_of, total_nodes, FeatureEdge,
    FeatureGraphImpl, FeatureGraphWarning, FeatureBuildStage, FeatureMetadataImpl, FeatureNode,
    FeatureType,
};
use crate::package::{
    DepRequiredOrOptional, PackageGraph, PackageLink, PackageMetadata,
};
use crate::platform::{PlatView, PlatformStatus};
use crate::scc::Sccs;
use crate::strutil::{last_slash, split_feature_dep, str_eq};

verus! {

/// The three dependency kinds of a link.
#[derive(Clone, Copy, Debug, PartialEq, Eq, Structural)]
pub enum DependencyKind {
    /// A `[dependencies]` entry.
    Normal,
    /// A `[build-dependencies]` entry.
    Build,
    /// A `[dev-dependencies]` entry.
    Development,
}

/// The node value of `(package, feature)` coordinates.
pub open spec fn node_of(p: int, f: Option<int>) -> FeatureNode {
    FeatureNode {
        package_ix: p as usize,
        feature_idx: match f {
            Option::None => Option::None,
            Option::Some(i) => Option::Some(i as usize),
        },
    }
}

/// The destination package of the last link from `p` using this dependency
/// name, if any. Later links shadow earlier ones, as a map built in link
/// order would.
pub open spec fn dep_lookup(links: Seq<PackageLink>, p: int, dep: Seq<char>) -> Option<int>
    decreases links.len(),
{
    if links.len() == 0 {
        Option::None
    } else if links.last().from == p && links.last().dep_name@ == dep {
        Option::Some(links.last().to as int)
    } else {
        dep_lookup(links.drop_last(), p, dep)
    }
}

/// A successful dependency lookup names an in-range package.
pub proof fn lemma_dep_lookup_bound(links: Seq<PackageLink>, p: int, dep: Seq<char>, plen: int)
    requires
        forall|e: int| 0 <= e < links.len() ==> (#[trigger] links[e]).to < plen,
    ensures
        dep_lookup(links, p, dep) matches Option::Some(q) ==> 0 <= q < plen,
    decreases links.len(),
{
    if links.len() != 0 {
        if !(links.last().from == p && links.last().dep_name@ == dep) {
            assert forall|e: int|
                0 <= e < links.drop_last().len() implies (#[trigger] links.drop_last()[e]).to
                < plen by {
                assert(links.drop_last()[e] == links[e]);
            }
            lemma_dep_lookup_bound(links.drop_last(), p, dep, plen);
        }
    }
}

/// The feature part of a token: what follows the last slash, or the whole
/// token when there is none.
pub open spec fn token_feat(token: Seq<char>) -> Seq<char> {
    if last_slash(token) >= 0 {
        token.subrange(last_slash(token) + 1, token.len() as int)
    } else {
        token
    }
}

/// The dependency part of a token: what precedes the last slash.
pub open spec fn token_dep(token: Seq<char>) -> Seq<char> {
    token.subrange(0, last_slash(token))
}

/// The `(package, feature)` coordinates a token of package `p` resolves to.
pub open spec fn token_target(
    packages: Seq<PackageMetadata>,
    links: Seq<PackageLink>,
    p: int,
    token: Seq<char>,
) -> Option<(int, int)> {
    if last_slash(token) >= 0 {
        match dep_lookup(links, p, token_dep(token)) {
            Option::Some(q) => if packages[q].has_feature(token_feat(token)) {
                Option::Some((q, packages[q].feature_idx(token_feat(token))))
            } else {
                Option::None
            },
            Option::None => Option::None,
        }
    } else {
        if packages[p].has_feature(token) {
            Option::Some((p, packages[p].feature_idx(token)))
        } else {
            Option::None
        }
    }
}

/// A token warns exactly when it names a missing feature of a *resolved*
/// package: the declaring package itself, or a resolved dependency. An
/// unresolved dependency name is dropped silently.
pub open spec fn token_warns(
    packages: Seq<PackageMetadata>,
    links: Seq<PackageLink>,
    p: int,
    token: Seq<char>,
) -> bool {
    if last_slash(token) >= 0 {
        match dep_lookup(links, p, token_dep(token)) {
            Option::Some(q) => !packages[q].has_feature(token_feat(token)),
            Option::None => false,
        }
    } else {
        !packages[p].has_feature(token)
    }
}

/// The package a token's warning is about.
pub open spec fn token_warn_pkg(
    packages: Seq<PackageMetadata>,
    links: Seq<PackageLink>,
    p: int,
    token: Seq<char>,
) -> int {
    if last_slash(token) >= 0 {
        dep_lookup(links, p, token_dep(token)) -> Some_0
    } else {
        p
    }
}

/// The mathematical content of a build warning.
pub struct WarningView {
    pub from_dependency: bool,
    pub stage_package_id: Seq<char>,
    pub stage_detail: Seq<char>,
    pub package_id: Seq<char>,
    pub feature_name: Seq<char>,
}

/// The content of a stored warning.
pub open spec fn warning_view(w: FeatureGraphWarning) -> WarningView {
    match w {
        FeatureGraphWarning::MissingFeature { stage, package_id, feature_name } => {
            match stage {
                FeatureBuildStage::AddNamedFeatureEdges { package_id: spid, from_feature } => {
                    WarningView {
                        from_dependency: false,
                        stage_package_id: spid@,
                        stage_detail: from_feature@,
                        package_id: package_id@,
                        feature_name: feature_name@,
                    }
                },
                FeatureBuildStage::AddDependencyEdges { package_id: spid, dep_name } => {
                    WarningView {
                        from_dependency: true,
                        stage_package_id: spid@,
                        stage_detail: dep_name@,
                        package_id: package_id@,
                        feature_name: feature_name@,
                    }
                },
            }
        },
    }
}

/// The contents of a warning list.
pub open spec fn wviews(s: Seq<FeatureGraphWarning>) -> Seq<WarningView> {
    s.map_values(|w: FeatureGraphWarning| warning_view(w))
}

/// Warnings from the first `t` tokens of named feature `n` of package `p`.
pub open spec fn warns_tokens(
    packages: Seq<PackageMetadata>,
    links: Seq<PackageLink>,
    p: int,
    n: int,
    t: int,
) -> Seq<WarningView>
    decreases t,
{
    if t <= 0 {
        Seq::empty()
    } else {
        warns_tokens(packages, links, p, n, t - 1) + {
            let token = packages[p].features@[n].feature_deps@[t - 1]@;
            if token_warns(packages, links, p, token) {
                seq![
                    WarningView {
                        from_dependency: false,
                        stage_package_id: packages[p].id@,
                        stage_detail: packages[p].feature_name(n),
                        package_id: packages[token_warn_pkg(packages, links, p, token)].id@,
                        feature_name: token_feat(token),
                    },
                ]
            } else {
                Seq::empty()
            }
        }
    }
}

/// Warnings from the first `n` named features of package `p`.
pub open spec fn warns_features(
    packages: Seq<PackageMetadata>,
    links: Seq<PackageLink>,
    p: int,
    n: int,
) -> Seq<WarningView>
    decreases n,
{
    if n <= 0 {
        Seq::empty()
    } else {
        warns_features(packages, links, p, n - 1) + warns_tokens(
            packages,
            links,
            p,
            n - 1,
            packages[p].features@[n - 1].feature_deps@.len() as int,
        )
    }
}

/// Warnings from the named-feature phase of the first `p` packages.
pub open spec fn warns_named_phase(
    packages: Seq<PackageMetadata>,
    links: Seq<PackageLink>,
    p: int,
) -> Seq<WarningView>
    decreases p,
{
    if p <= 0 {
        Seq::empty()
    } else {
        warns_named_phase(packages, links, p - 1) + warns_features(
            packages,
            links,
            p - 1,
            packages[p - 1].named_feature_count as int,
        )
    }
}

/// Warnings from the first `t` feature targets of one sub-request of a link.
pub open spec fn warns_targets(
    from_id: Seq<char>,
    dep_name: Seq<char>,
    to: PackageMetadata,
    to_id: Seq<char>,
    ts: Seq<(String, PlatformStatus)>,
    t: int,
) -> Seq<WarningView>
    decreases t,
{
    if t <= 0 {
        Seq::empty()
    } else {
        warns_targets(from_id, dep_name, to, to_id, ts, t - 1) + {
            if to.has_feature(ts[t - 1].0@) {
                Seq::empty()
            } else {
                seq![
                    WarningView {
                        from_dependency: true,
                        stage_package_id: from_id,
                        stage_detail: dep_name,
                        package_id: to_id,
                        feature_name: ts[t - 1].0@,
                    },
                ]
            }
        }
    }
}

/// Warnings from one link, in the order its kinds are folded in.
pub open spec fn warns_link(packages: Seq<PackageMetadata>, link: PackageLink) -> Seq<
    WarningView,
> {
    let to = packages[link.to as int];
    let fid = packages[link.from as int].id@;
    let tid = to.id@;
    let d = link.dep_name@;
    warns_targets(fid, d, to, tid, link.normal.required.feature_targets@, link.normal.required.feature_targets@.len() as int)
        + warns_targets(fid, d, to, tid, link.normal.optional.feature_targets@, link.normal.optional.feature_targets@.len() as int)
        + warns_targets(fid, d, to, tid, link.build.required.feature_targets@, link.build.required.feature_targets@.len() as int)
        + warns_targets(fid, d, to, tid, link.build.optional.feature_targets@, link.build.optional.feature_targets@.len() as int)
        + warns_targets(fid, d, to, tid, link.dev.required.feature_targets@, link.dev.required.feature_targets@.len() as int)
        + warns_targets(fid, d, to, tid, link.dev.optional.feature_targets@, link.dev.optional.feature_targets@.len() as int)
}

/// Warnings from the dependency phase of the first `e` links.
pub open spec fn warns_dep_phase(
    packages: Seq<PackageMetadata>,
    links: Seq<PackageLink>,
    e: int,
) -> Seq<WarningView>
    decreases e,
{
    if e <= 0 {
        Seq::empty()
    } else {
        warns_dep_phase(packages, links, e - 1) + warns_link(packages, links[e - 1])
    }
}

/// Every warning the whole build records, in order.
pub open spec fn expected_warnings(
    packages: Seq<PackageMetadata>,
    links: Seq<PackageLink>,
) -> Seq<WarningView> {
    warns_named_phase(packages, links, packages.len() as int) + warns_dep_phase(
        packages,
        links,
        links.len() as int,
    )
}

/// The key the destination's default-feature predicate lands on: the
/// destination's `default` feature, or its base when it declares none.
pub open spec fn default_key(to: PackageMetadata) -> Option<int> {
    if to.has_feature("default"@) {
        Option::Some(to.feature_idx("default"@))
    } else {
        Option::None
    }
}

/// The union of the predicates of the first `t` feature targets that
/// resolve to key `k`.
pub open spec fn target_contrib(
    to: PackageMetadata,
    ts: Seq<(String, PlatformStatus)>,
    k: Option<int>,
    t: int,
) -> PlatView
    decreases t,
{
    if t <= 0 {
        PlatView::Never
    } else {
        let prev = target_contrib(to, ts, k, t - 1);
        let name = ts[t - 1].0@;
        if to.has_feature(name) && Option::Some(to.feature_idx(name)) == k && !ts[t
            - 1].1@.is_never() {
            prev.union(ts[t - 1].1@)
        } else {
            prev
        }
    }
}

/// The unified predicate one sub-request contributes to key `k`: the base
/// predicate for the destination's base, the default-features predicate for
/// the destination's default key, and every resolving feature target.
pub open spec fn sub_status(sub: DepRequiredOrOptional, to: PackageMetadata, k: Option<int>) -> PlatView {
    let base = if k is None && !sub.build_if@.is_never() {
        sub.build_if@
    } else {
        PlatView::Never
    };
    let dflt = if k == default_key(to) && !sub.default_features_if@.is_never() {
        sub.default_features_if@
    } else {
        PlatView::Never
    };
    base.union(dflt).union(
        target_contrib(to, sub.feature_targets@, k, sub.feature_targets@.len() as int),
    )
}

/// The required or optional half of each kind of a link, unified per key.
pub open spec fn unified_normal(link: PackageLink, to: PackageMetadata, k: Option<int>, opt: bool) -> PlatView {
    sub_status(
        if opt {
            link.normal.optional
        } else {
            link.normal.required
        },
        to,
        k,
    )
}

/// The build-kind analogue of [`unified_normal`].
pub open spec fn unified_build(link: PackageLink, to: PackageMetadata, k: Option<int>, opt: bool) -> PlatView {
    sub_status(
        if opt {
            link.build.optional
        } else {
            link.build.required
        },
        to,
        k,
    )
}

/// The dev-kind analogue of [`unified_normal`].
pub open spec fn unified_dev(link: PackageLink, to: PackageMetadata, k: Option<int>, opt: bool) -> PlatView {
    sub_status(
        if opt {
            link.dev.optional
        } else {
            link.dev.required
        },
        to,
        k,
    )
}

/// Whether a link contributes an edge to key `k` of its destination, on its
/// required (`opt == false`) or optional half.
pub open spec fn unified_nonempty(
    link: PackageLink,
    to: PackageMetadata,
    k: Option<int>,
    opt: bool,
) -> bool {
    !(unified_normal(link, to, k, opt).is_never() && unified_build(link, to, k, opt).is_never()
        && unified_dev(link, to, k, opt).is_never())
}

/// The metadata kind of feature `i` of package `p`.
pub open spec fn ftype_of(packages: Seq<PackageMetadata>, p: int, i: int) -> FeatureType {
    if i < packages[p].named_feature_count {
        FeatureType::NamedFeature
    } else {
        FeatureType::OptionalDep
    }
}

/// `(a, b)` is a feature-to-base pair of one of the first `upto` packages.
pub open spec fn ftb_pair(packages: Seq<PackageMetadata>, upto: int, a: int, b: int) -> bool {
    exists|p: int, i: int|
        0 <= p < upto && 0 <= i < packages[p].n_features() && a == #[trigger] node_ix_of(
            packages,
            p,
            Option::Some(i),
        ) && b == node_ix_of(packages, p, Option::None)
}

/// Accumulator for the build: the graph under construction, the base-index
/// table, node payloads and metadata by index, and the warnings so far.
pub struct FeatureGraphBuildState {
    pub graph: DiGraph<FeatureEdge>,
    pub base_ixs: Vec<usize>,
    pub nodes: Vec<FeatureNode>,
    pub metas: Vec<FeatureMetadataImpl>,
    pub warnings: Vec<FeatureGraphWarning>,
}

impl FeatureGraphBuildState {
    /// Node layout after the first `upto` packages have been added.
    pub open spec fn layout_upto(self, packages: Seq<PackageMetadata>, upto: int) -> bool {
        &&& self.graph.wf()
        &&& self.graph.node_count == base_ix_of(packages, upto)
        &&& self.nodes@.len() == base_ix_of(packages, upto)
        &&& self.metas@.len() == base_ix_of(packages, upto)
        &&& self.base_ixs@.len() == upto
        &&& forall|p: int|
            0 <= p < upto ==> self.base_ixs@[p] == #[trigger] base_ix_of(packages, p)
        &&& forall|p: int|
            0 <= p < upto ==> {
                &&& self.nodes@[#[trigger] base_ix_of(packages, p)] == node_of(p, Option::None)
                &&& self.metas@[base_ix_of(packages, p)] == (FeatureMetadataImpl {
                    feature_ix: base_ix_of(packages, p) as usize,
                    feature_type: FeatureType::BasePackage,
                })
            }
        &&& forall|p: int, i: int|
            0 <= p < upto && 0 <= i < packages[p].n_features() ==> {
                &&& self.nodes@[#[trigger] node_ix_of(packages, p, Option::Some(i))] == node_of(
                    p,
                    Option::Some(i),
                )
                &&& self.metas@[node_ix_of(packages, p, Option::Some(i))] == (FeatureMetadataImpl {
                    feature_ix: node_ix_of(packages, p, Option::Some(i)) as usize,
                    feature_type: ftype_of(packages, p, i),
                })
            }
    }

    /// After Phase A over `upto` packages, the edges are exactly the
    /// feature-to-base pairs, all labelled so.
    pub open spec fn edges_phase_a(self, packages: Seq<PackageMetadata>, upto: int) -> bool {
        &&& forall|a: int, b: int|
            #[trigger] self.graph.has_edge(a, b) <==> ftb_pair(packages, upto, a, b)
        &&& forall|a: int, b: int|
            #[trigger] self.graph.has_edge(a, b) ==> self.graph.payload_of(a, b) is FeatureToBase
    }

    /// A fresh, empty accumulator.
    pub fn new() -> (r: Self)
        ensures
            r.layout_upto(Seq::empty(), 0),
            r.edges_phase_a(Seq::empty(), 0),
            r.warnings@.len() == 0,
            r.graph.edges@.len() == 0,
    {
        let r = FeatureGraphBuildState {
            graph: DiGraph::new(),
            base_ixs: Vec::new(),
            nodes: Vec::new(),
            metas: Vec::new(),
            warnings: Vec::new(),
        };
        proof {
            assert forall|a: int, b: int| #[trigger] r.graph.has_edge(a, b) implies false by {
                let e = r.graph.edge_index(a, b);
            }
        }
        r
    }

    /// Phase A for one package: add its base node, then one node per
    /// feature, each with an edge to the base.
    pub fn add_nodes(&mut self, pg: &PackageGraph, p: usize)
        requires
            pg.wf(),
            p < pg.packages@.len(),
            old(self).layout_upto(pg.packages@, p as int),
            old(self).edges_phase_a(pg.packages@, p as int),
        ensures
            final(self).layout_upto(pg.packages@, p + 1),
            final(self).edges_phase_a(pg.packages@, p + 1),
            final(self).warnings@ == old(self).warnings@,
    {
        let ghost packages = pg.packages@;
        proof {
            lemma_total_bounds(packages, p as int);
        }
        let base = self.graph.add_node();
        self.nodes.push(FeatureNode { package_ix: p, feature_idx: None });
        self.metas.push(
            FeatureMetadataImpl { feature_ix: base, feature_type: FeatureType::BasePackage },
        );
        self.base_ixs.push(base);
        proof {
            assert(base == base_ix_of(packages, p as int));
            old(self).graph.lemma_same_edges(self.graph);
            assert forall|q: int| 0 <= q < p implies {
                &&& self.nodes@[#[trigger] base_ix_of(packages, q)] == node_of(q, Option::None)
                &&& self.metas@[base_ix_of(packages, q)] == (FeatureMetadataImpl {
                    feature_ix: base_ix_of(packages, q) as usize,
                    feature_type: FeatureType::BasePackage,
                })
            } by {
                lemma_base_ix_strict(packages, q, p as int);
            }
            assert forall|q: int, j: int|
                0 <= q < p && 0 <= j < packages[q].n_features() implies {
                &&& self.nodes@[#[trigger] node_ix_of(packages, q, Option::Some(j))] == node_of(
                    q,
                    Option::Some(j),
                )
                &&& self.metas@[node_ix_of(packages, q, Option::Some(j))] == (FeatureMetadataImpl {
                    feature_ix: node_ix_of(packages, q, Option::Some(j)) as usize,
                    feature_type: ftype_of(packages, q, j),
                })
            } by {
                lemma_node_ix_range(packages, q, Option::Some(j));
                lemma_base_ix_monotone(packages, q + 1, p as int);
            }
            assert(self.layout_mid(packages, p as int, 0));
            assert forall|a: int, b: int| ftb_pair(packages, p as int, a, b) implies
                self.graph.has_edge(a, b) by {
                assert(old(self).graph.has_edge(a, b));
            }
        }
        let nf = self.package_feature_count(pg, p);
        let mut i: usize = 0;
        while i < nf
            invariant
                pg.wf(),
                packages == pg.packages@,
                p < packages.len(),
                nf == packages[p as int].n_features(),
                i <= nf,
                base == base_ix_of(packages, p as int),
                self.base_ixs@.len() == p + 1,
                forall|q: int|
                    0 <= q <= p ==> self.base_ixs@[q] == #[trigger] base_ix_of(packages, q),
                self.layout_mid(packages, p as int, i as int),
                forall|a: int, b: int|
                    #[trigger] self.graph.has_edge(a, b) <==> (ftb_pair(packages, p as int, a, b)
                        || exists|i2: int|
                        0 <= i2 < i && a == #[trigger] node_ix_of(
                            packages,
                            p as int,
                            Option::Some(i2),
                        ) && b == base_ix_of(packages, p as int)),
                forall|a: int, b: int|
                    #[trigger] self.graph.has_edge(a, b) ==> self.graph.payload_of(
                        a,
                        b,
                    ) is FeatureToBase,
                self.warnings@ == old(self).warnings@,
            decreases nf - i,
        {
            proof {
                lemma_total_bounds(packages, p as int);
                lemma_node_ix_range(packages, p as int, Option::Some(i as int));
                let nc = self.graph.node_count as int;
                let t = total_nodes(packages);
                assert(nc < t);
                assert(nc * nc < t * t && nc * nc <= usize::MAX) by (nonlinear_arith)
                    requires
                        0 <= nc,
                        nc < t,
                        t * t <= usize::MAX,
                ;
                self.graph.lemma_edge_count_bound();
                assert(self.graph.edges@.len() < usize::MAX);
            }
            let ghost before_add = self.graph;
            let ix = self.graph.add_node();
            proof {
                before_add.lemma_same_edges(self.graph);
            }
            self.nodes.push(FeatureNode { package_ix: p, feature_idx: Some(i) });
            let ftype = if i < self.package_named_count(pg, p) {
                FeatureType::NamedFeature
            } else {
                FeatureType::OptionalDep
            };
            self.metas.push(FeatureMetadataImpl { feature_ix: ix, feature_type: ftype });
            let ghost pre = self.graph;
            proof {
                assert(!pre.has_edge(ix as int, base as int)) by {
                    if pre.has_edge(ix as int, base as int) {
                        let e = pre.edge_index(ix as int, base as int);
                        assert(pre.edges@[e].from < pre.node_count);
                    }
                }
            }
            self.graph.update_edge(ix, base, FeatureEdge::FeatureToBase);
            proof {
                assert forall|a: int, b: int|
                    #[trigger] self.graph.has_edge(a, b) implies self.graph.payload_of(
                    a,
                    b,
                ) is FeatureToBase by {
                    if !(a == ix as int && b == base as int) {
                        assert(self.graph.edges_map()[(a, b)] == pre.edges_map()[(a, b)]);
                        assert(pre.has_edge(a, b));
                        assert(self.graph.edges_map()[(a, b)] == self.graph.payload_of(a, b));
                        assert(pre.edges_map()[(a, b)] == pre.payload_of(a, b));
                    } else {
                        assert(self.graph.edges_map()[(a, b)] == self.graph.payload_of(a, b));
                        assert(self.graph.edges_map()[(a, b)] is FeatureToBase);
                    }
                }
                assert forall|a: int, b: int|
                    #[trigger] self.graph.has_edge(a, b) <==> (ftb_pair(packages, p as int, a, b)
                        || exists|i2: int|
                        0 <= i2 < i + 1 && a == #[trigger] node_ix_of(
                            packages,
                            p as int,
                            Option::Some(i2),
                        ) && b == base_ix_of(packages, p as int)) by {
                    if self.graph.has_edge(a, b) {
                        if !(a == ix as int && b == base as int) {
                            assert(pre.has_edge(a, b));
                        } else {
                            assert(a == node_ix_of(packages, p as int, Option::Some(i as int)));
                        }
                    }
                    if ftb_pair(packages, p as int, a, b) || exists|i2: int|
                        0 <= i2 < i + 1 && a == #[trigger] node_ix_of(
                            packages,
                            p as int,
                            Option::Some(i2),
                        ) && b == base_ix_of(packages, p as int) {
                        if ftb_pair(packages, p as int, a, b) {
                            assert(before_add.has_edge(a, b));
                            assert(pre.has_edge(a, b));
                            assert(self.graph.has_edge(a, b));
                        } else {
                            let i2 = choose|i2: int|
                                0 <= i2 < i + 1 && a == #[trigger] node_ix_of(
                                    packages,
                                    p as int,
                                    Option::Some(i2),
                                ) && b == base_ix_of(packages, p as int);
                            if i2 < i {
                                assert(before_add.has_edge(a, b));
                                assert(pre.has_edge(a, b));
                            } else {
                                assert(a == ix as int && b == base as int);
                            }
                        }
                    }
                }
            }
            proof {
                let nbase = base_ix_of(packages, p as int);
                assert forall|q: int| 0 <= q < p implies {
                    &&& self.nodes@[#[trigger] base_ix_of(packages, q)] == node_of(q, Option::None)
                    &&& self.metas@[base_ix_of(packages, q)] == (FeatureMetadataImpl {
                        feature_ix: base_ix_of(packages, q) as usize,
                        feature_type: FeatureType::BasePackage,
                    })
                } by {
                    lemma_base_ix_strict(packages, q, p as int);
                }
                assert forall|q: int, j: int|
                    0 <= q < p && 0 <= j < packages[q].n_features() implies {
                    &&& self.nodes@[#[trigger] node_ix_of(packages, q, Option::Some(j))] == node_of(
                        q,
                        Option::Some(j),
                    )
                    &&& self.metas@[node_ix_of(packages, q, Option::Some(j))] == (
                    FeatureMetadataImpl {
                        feature_ix: node_ix_of(packages, q, Option::Some(j)) as usize,
                        feature_type: ftype_of(packages, q, j),
                    })
                } by {
                    lemma_node_ix_range(packages, q, Option::Some(j));
                    lemma_base_ix_monotone(packages, q + 1, p as int);
                }
                assert(self.nodes@[nbase] == node_of(p as int, Option::None));
                assert forall|j: int| 0 <= j < i + 1 implies {
                    &&& self.nodes@[#[trigger] node_ix_of(packages, p as int, Option::Some(j))]
                        == node_of(p as int, Option::Some(j))
                    &&& self.metas@[node_ix_of(packages, p as int, Option::Some(j))] == (
                    FeatureMetadataImpl {
                        feature_ix: node_ix_of(packages, p as int, Option::Some(j)) as usize,
                        feature_type: ftype_of(packages, p as int, j),
                    })
                } by {
                    if j == i as int {
                        assert(self.nodes@[nbase + 1 + i] == node_of(
                            p as int,
                            Option::Some(i as int),
                        ));
                    }
                }
            }
            i += 1;
        }
        proof {
            assert(self.layout_upto(packages, p + 1)) by {
                lemma_layout_step(*self, packages, p as int);
            }
            assert forall|a: int, b: int| #[trigger] self.graph.has_edge(a, b) implies ftb_pair(
                packages,
                p + 1,
                a,
                b,
            ) by {
                if ftb_pair(packages, p as int, a, b) {
                    let (p2, i2) = choose|p2: int, i2: int|
                        0 <= p2 < p && 0 <= i2 < packages[p2].n_features() && a
                            == #[trigger] node_ix_of(packages, p2, Option::Some(i2)) && b
                            == node_ix_of(packages, p2, Option::None);
                    assert(ftb_pair(packages, p + 1, a, b));
                }
            }
            assert forall|a: int, b: int| ftb_pair(packages, p + 1, a, b) implies
                self.graph.has_edge(a, b) by {
                let (p2, i2) = choose|p2: int, i2: int|
                    0 <= p2 < p + 1 && 0 <= i2 < packages[p2].n_features() && a
                        == #[trigger] node_ix_of(packages, p2, Option::Some(i2)) && b == node_ix_of(
                        packages,
                        p2,
                        Option::None,
                    );
                if p2 < p {
                    assert(ftb_pair(packages, p as int, a, b));
                }
            }
        }
    }

    /// Mid-package layout: the first `upto` packages plus the base node and
    /// first `i` feature nodes of package `upto`.
    pub open spec fn layout_mid(self, packages: Seq<PackageMetadata>, p: int, i: int) -> bool {
        &&& self.graph.wf()
        &&& self.graph.node_count == base_ix_of(packages, p) + 1 + i
        &&& self.nodes@.len() == base_ix_of(packages, p) + 1 + i
        &&& self.metas@.len() == base_ix_of(packages, p) + 1 + i
        &&& forall|q: int|
            0 <= q < p ==> {
                &&& self.nodes@[#[trigger] base_ix_of(packages, q)] == node_of(q, Option::None)
                &&& self.metas@[base_ix_of(packages, q)] == (FeatureMetadataImpl {
                    feature_ix: base_ix_of(packages, q) as usize,
                    feature_type: FeatureType::BasePackage,
                })
            }
        &&& forall|q: int, j: int|
            0 <= q < p && 0 <= j < packages[q].n_features() ==> {
                &&& self.nodes@[#[trigger] node_ix_of(packages, q, Option::Some(j))] == node_of(
                    q,
                    Option::Some(j),
                )
                &&& self.metas@[node_ix_of(packages, q, Option::Some(j))] == (FeatureMetadataImpl {
                    feature_ix: node_ix_of(packages, q, Option::Some(j)) as usize,
                    feature_type: ftype_of(packages, q, j),
                })
            }
        &&& self.nodes@[base_ix_of(packages, p)] == node_of(p, Option::None)
        &&& self.metas@[base_ix_of(packages, p)] == (FeatureMetadataImpl {
            feature_ix: base_ix_of(packages, p) as usize,
            feature_type: FeatureType::BasePackage,
        })
        &&& forall|j: int|
            0 <= j < i ==> {
                &&& self.nodes@[#[trigger] node_ix_of(packages, p, Option::Some(j))] == node_of(
                    p,
                    Option::Some(j),
                )
                &&& self.metas@[node_ix_of(packages, p, Option::Some(j))] == (FeatureMetadataImpl {
                    feature_ix: node_ix_of(packages, p, Option::Some(j)) as usize,
                    feature_type: ftype_of(packages, p, j),
                })
            }
    }

    /// Layout complete for every package, with the closing base index.
    pub open spec fn layout_full(self, packages: Seq<PackageMetadata>) -> bool {
        &&& self.graph.wf()
        &&& self.graph.node_count == total_nodes(packages)
        &&& self.nodes@.len() == total_nodes(packages)
        &&& self.metas@.len() == total_nodes(packages)
        &&& self.base_ixs@.len() == packages.len() + 1
        &&& forall|p: int|
            0 <= p <= packages.len() ==> self.base_ixs@[p] == #[trigger] base_ix_of(packages, p)
        &&& forall|p: int|
            0 <= p < packages.len() ==> {
                &&& self.nodes@[#[trigger] base_ix_of(packages, p)] == node_of(p, Option::None)
                &&& self.metas@[base_ix_of(packages, p)] == (FeatureMetadataImpl {
                    feature_ix: base_ix_of(packages, p) as usize,
                    feature_type: FeatureType::BasePackage,
                })
            }
        &&& forall|p: int, i: int|
            0 <= p < packages.len() && 0 <= i < packages[p].n_features() ==> {
                &&& self.nodes@[#[trigger] node_ix_of(packages, p, Option::Some(i))] == node_of(
                    p,
                    Option::Some(i),
                )
                &&& self.metas@[node_ix_of(packages, p, Option::Some(i))] == (FeatureMetadataImpl {
                    feature_ix: node_ix_of(packages, p, Option::Some(i)) as usize,
                    feature_type: ftype_of(packages, p, i),
                })
            }
    }

    /// Marks the end of node insertion by recording the total node count.
    pub fn end_nodes(&mut self, pg: &PackageGraph)
        requires
            pg.wf(),
            old(self).layout_upto(pg.packages@, pg.packages@.len() as int),
            old(self).base_ixs@.len() == pg.packages@.len(),
        ensures
            final(self).layout_full(pg.packages@),
            final(self).graph == old(self).graph,
            final(self).nodes@ == old(self).nodes@,
            final(self).metas@ == old(self).metas@,
            final(self).warnings@ == old(self).warnings@,
            forall|p: int|
                0 <= p < pg.packages@.len() ==> final(self).base_ixs@[p] == #[trigger] base_ix_of(
                    pg.packages@,
                    p,
                ),
    {
        let total = self.graph.node_count;
        self.base_ixs.push(total);
    }

    /// Edge state while Phase B has processed every token strictly before
    /// `(p, n, t)` in package, feature, token order.
    pub open spec fn edges_phase_b(
        self,
        packages: Seq<PackageMetadata>,
        links: Seq<PackageLink>,
        p: int,
        n: int,
        t: int,
    ) -> bool {
        &&& forall|a: int, b: int|
            #[trigger] self.graph.has_edge(a, b) <==> (ftb_pair(packages, packages.len() as int, a, b)
                || fdep_pair_upto(packages, links, p, n, t, a, b))
        &&& forall|a: int, b: int|
            ftb_pair(packages, packages.len() as int, a, b) ==> #[trigger] self.graph.payload_of(
                a,
                b,
            ) is FeatureToBase || !self.graph.has_edge(a, b)
        &&& forall|a: int, b: int|
            #[trigger] fdep_pair_upto(packages, links, p, n, t, a, b) ==> self.graph.payload_of(
                a,
                b,
            ) is FeatureDependency
    }

    /// The destination of the last link from `p` with this dependency name.
    fn lookup_dep(&self, pg: &PackageGraph, p: usize, dep: &str) -> (r: Option<usize>)
        requires
            pg.wf(),
        ensures
            match r {
                Some(q) => dep_lookup(pg.links@, p as int, dep@) == Some(q as int) && q
                    < pg.packages@.len(),
                None => dep_lookup(pg.links@, p as int, dep@) is None,
            },
    {
        let mut best: Option<usize> = None;
        let mut e: usize = 0;
        while e < pg.links.len()
            invariant
                pg.wf(),
                e <= pg.links@.len(),
                match best {
                    Some(q) => dep_lookup(pg.links@.subrange(0, e as int), p as int, dep@) == Some(
                        q as int,
                    ) && q < pg.packages@.len(),
                    None => dep_lookup(pg.links@.subrange(0, e as int), p as int, dep@) is None,
                },
            decreases pg.links@.len() - e,
        {
            let link = &pg.links[e];
            let ghost pre = pg.links@.subrange(0, e as int);
            if link.from == p && str_eq(link.dep_name.as_str(), dep) {
                best = Some(link.to);
            }
            proof {
                let cur = pg.links@.subrange(0, e + 1);
                assert(cur.drop_last() =~= pre);
                assert(cur.last() == pg.links@[e as int]);
            }
            e += 1;
        }
        proof {
            assert(pg.links@.subrange(0, pg.links@.len() as int) == pg.links@);
        }
        best
    }

    /// Phase B for one package: resolve every token of its named features
    /// and add the feature-dependency edges, warning on missing features.
    pub fn add_named_feature_edges(&mut self, pg: &PackageGraph, p: usize)
        requires
            pg.wf(),
            p < pg.packages@.len(),
            old(self).layout_full(pg.packages@),
            old(self).edges_phase_b(pg.packages@, pg.links@, p as int, 0, 0),
            wviews(old(self).warnings@) == warns_named_phase(
                pg.packages@,
                pg.links@,
                p as int,
            ),
        ensures
            final(self).layout_full(pg.packages@),
            final(self).edges_phase_b(pg.packages@, pg.links@, p + 1, 0, 0),
            wviews(final(self).warnings@) == warns_named_phase(
                pg.packages@,
                pg.links@,
                p + 1,
            ),
    {
        let ghost packages = pg.packages@;
        let ghost links = pg.links@;
        let named = self.package_named_count(pg, p);
        let mut n: usize = 0;
        while n < named
            invariant
                pg.wf(),
                packages == pg.packages@,
                links == pg.links@,
                p < packages.len(),
                named == packages[p as int].named_feature_count,
                n <= named,
                self.layout_full(packages),
                self.edges_phase_b(packages, links, p as int, n as int, 0),
                wviews(self.warnings@) == warns_named_phase(
                    packages,
                    links,
                    p as int,
                ) + warns_features(packages, links, p as int, n as int),
            decreases named - n,
        {
            let ndeps = pg.packages[p].features[n].feature_deps.len();
            let mut t: usize = 0;
            while t < ndeps
                invariant
                    pg.wf(),
                    packages == pg.packages@,
                    links == pg.links@,
                    p < packages.len(),
                    named == packages[p as int].named_feature_count,
                    n < named,
                    ndeps == packages[p as int].features@[n as int].feature_deps@.len(),
                    t <= ndeps,
                    self.layout_full(packages),
                    self.edges_phase_b(packages, links, p as int, n as int, t as int),
                    wviews(self.warnings@) == warns_named_phase(
                        packages,
                        links,
                        p as int,
                    ) + warns_features(packages, links, p as int, n as int) + warns_tokens(
                        packages,
                        links,
                        p as int,
                        n as int,
                        t as int,
                    ),
                decreases ndeps - t,
            {
                let ghost token = packages[p as int].features@[n as int].feature_deps@[t as int]@;
                let token_str = &pg.packages[p].features[n].feature_deps[t];
                let (dep_opt, feat) = split_feature_dep(token_str.as_str());
                let ghost w0 = self.warnings@;
                match dep_opt {
                    Some(dep) => {
                        proof {
                            assert(dep@ == token_dep(token));
                            assert(feat@ == token_feat(token));
                        }
                        match self.lookup_dep(pg, p, dep.as_str()) {
                            Some(q) => {
                                match pg.packages[q].get_feature_idx(feat.as_str()) {
                                    Some(j) => {
                                        proof {
                                            assert(token_target(packages, links, p as int, token)
                                                == Some((q as int, j as int)));
                                        }
                                        self.add_fdep_edge(pg, p, n, q, j, Ghost(t as int));
                                    },
                                    None => {
                                        proof {
                                            assert(token_warns(packages, links, p as int, token));
                                            assert(token_target(
                                                packages,
                                                links,
                                                p as int,
                                                token,
                                            ) is None);
                                        }
                                        let w = FeatureGraphWarning::MissingFeature {
                                            stage: FeatureBuildStage::AddNamedFeatureEdges {
                                                package_id: pg.packages[p].id.dup(),
                                                from_feature: pg.packages[p].features[n].name.clone(),
                                            },
                                            package_id: pg.packages[q].id.dup(),
                                            feature_name: feat,
                                        };
                                        self.warnings.push(w);
                                    },
                                }
                            },
                            None => {
                                proof {
                                    assert(!token_warns(packages, links, p as int, token));
                                    assert(token_target(packages, links, p as int, token) is None);
                                }
                            },
                        }
                    },
                    None => {
                        proof {
                            assert(feat@ == token);
                        }
                        match pg.packages[p].get_feature_idx(feat.as_str()) {
                            Some(j) => {
                                proof {
                                    assert(token_target(packages, links, p as int, token) == Some(
                                        (p as int, j as int),
                                    ));
                                }
                                self.add_fdep_edge(pg, p, n, p, j, Ghost(t as int));
                            },
                            None => {
                                proof {
                                    assert(token_warns(packages, links, p as int, token));
                                    assert(token_target(packages, links, p as int, token) is None);
                                }
                                let w = FeatureGraphWarning::MissingFeature {
                                    stage: FeatureBuildStage::AddNamedFeatureEdges {
                                        package_id: pg.packages[p].id.dup(),
                                        from_feature: pg.packages[p].features[n].name.clone(),
                                    },
                                    package_id: pg.packages[p].id.dup(),
                                    feature_name: feat,
                                };
                                self.warnings.push(w);
                            },
                        }
                    },
                }
                proof {
                    if token_target(packages, links, p as int, token) is None {
                        lemma_phase_b_no_edge(*self, packages, links, p as int, n as int, t as int);
                    }
                    lemma_warns_tokens_step(packages, links, p as int, n as int, t as int);
                    assert(warns_named_phase(packages, links, p as int) + warns_features(
                        packages,
                        links,
                        p as int,
                        n as int,
                    ) + warns_tokens(packages, links, p as int, n as int, t + 1)
                        =~= warns_named_phase(packages, links, p as int) + warns_features(
                        packages,
                        links,
                        p as int,
                        n as int,
                    ) + warns_tokens(packages, links, p as int, n as int, t as int)
                        + warns_token_one(packages, links, p as int, n as int, t as int));
                    if !token_warns(packages, links, p as int, token) {
                        assert(wviews(self.warnings@) =~= wviews(w0) + warns_token_one(
                            packages,
                            links,
                            p as int,
                            n as int,
                            t as int,
                        ));
                    } else {
                        assert(self.warnings@ == w0.push(self.warnings@.last()));
                        assert(wviews(self.warnings@) =~= wviews(w0).push(
                            warning_view(self.warnings@.last()),
                        ));
                        assert(warns_token_one(packages, links, p as int, n as int, t as int)
                            == seq![warning_view(self.warnings@.last())]);
                        assert(wviews(self.warnings@) =~= wviews(w0) + warns_token_one(
                            packages,
                            links,
                            p as int,
                            n as int,
                            t as int,
                        ));
                    }
                }
                t += 1;
            }
            proof {
                lemma_phase_b_roll_feature(*self, packages, links, p as int, n as int);
                assert(warns_features(packages, links, p as int, n + 1) == warns_features(
                    packages,
                    links,
                    p as int,
                    n as int,
                ) + warns_tokens(packages, links, p as int, n as int, ndeps as int));
                assert(warns_named_phase(packages, links, p as int) + (warns_features(
                    packages,
                    links,
                    p as int,
                    n as int,
                ) + warns_tokens(packages, links, p as int, n as int, ndeps as int))
                    =~= warns_named_phase(packages, links, p as int) + warns_features(
                    packages,
                    links,
                    p as int,
                    n + 1,
                ));
                assert(warns_named_phase(packages, links, p as int) + warns_features(
                    packages,
                    links,
                    p as int,
                    n as int,
                ) + warns_tokens(packages, links, p as int, n as int, ndeps as int)
                    =~= warns_named_phase(packages, links, p as int) + (warns_features(
                    packages,
                    links,
                    p as int,
                    n as int,
                ) + warns_tokens(packages, links, p as int, n as int, ndeps as int)));
            }
            n += 1;
        }
        proof {
            lemma_phase_b_roll_package(*self, packages, links, p as int);
            assert(warns_named_phase(packages, links, p + 1) == warns_named_phase(
                packages,
                links,
                p as int,
            ) + warns_features(packages, links, p as int, named as int));
        }
    }

    /// Adds one resolved feature-dependency edge for the current token.
    fn add_fdep_edge(
        &mut self,
        pg: &PackageGraph,
        p: usize,
        n: usize,
        q: usize,
        j: usize,
        Ghost(t): Ghost<int>,
    )
        requires
            pg.wf(),
            p < pg.packages@.len(),
            q < pg.packages@.len(),
            n < pg.packages@[p as int].named_feature_count,
            j < pg.packages@[q as int].n_features(),
            0 <= t < pg.packages@[p as int].features@[n as int].feature_deps@.len(),
            token_target(
                pg.packages@,
                pg.links@,
                p as int,
                pg.packages@[p as int].features@[n as int].feature_deps@[t]@,
            ) == Some((q as int, j as int)),
            old(self).layout_full(pg.packages@),
            old(self).edges_phase_b(pg.packages@, pg.links@, p as int, n as int, t),
        ensures
            final(self).layout_full(pg.packages@),
            final(self).warnings@ == old(self).warnings@,
            final(self).base_ixs@ == old(self).base_ixs@,
            final(self).nodes@ == old(self).nodes@,
            final(self).metas@ == old(self).metas@,
            final(self).edges_phase_b(pg.packages@, pg.links@, p as int, n as int, t + 1),
    {
        let ghost packages = pg.packages@;
        let ghost links = pg.links@;
        proof {
            lemma_node_ix_range(packages, p as int, Option::Some(n as int));
            lemma_node_ix_range(packages, q as int, Option::Some(j as int));
            lemma_base_ix_monotone(packages, p + 1, packages.len() as int);
            lemma_base_ix_monotone(packages, q + 1, packages.len() as int);
            lemma_base_ix_monotone(packages, 0, p as int);
            lemma_base_ix_monotone(packages, 0, q as int);
            lemma_total_bounds(packages, p as int);
            self.graph.lemma_edge_count_bound();
        }
        let a = self.base_ixs[p] + 1 + n;
        let b = self.base_ixs[q] + 1 + j;
        let ghost pre = self.graph;
        self.graph.update_edge(a, b, FeatureEdge::FeatureDependency);
        proof {
            let ghost token = packages[p as int].features@[n as int].feature_deps@[t]@;
            assert(a == node_ix_of(packages, p as int, Option::Some(n as int)));
            assert(b == node_ix_of(packages, q as int, Option::Some(j as int)));
            assert forall|x: int, y: int|
                #[trigger] self.graph.has_edge(x, y) <==> (ftb_pair(
                    packages,
                    packages.len() as int,
                    x,
                    y,
                ) || fdep_pair_upto(packages, links, p as int, n as int, t + 1, x, y)) by {
                if self.graph.has_edge(x, y) {
                    if x == a as int && y == b as int {
                        assert(fdep_witness(
                            packages,
                            links,
                            p as int,
                            n as int,
                            t + 1,
                            x,
                            y,
                            p as int,
                            n as int,
                            t,
                        ));
                        assert(fdep_pair_upto(packages, links, p as int, n as int, t + 1, x, y));
                    } else {
                        assert(pre.has_edge(x, y));
                        if fdep_pair_upto(packages, links, p as int, n as int, t, x, y) {
                            lemma_fdep_mono(packages, links, p as int, n as int, t, t + 1, x, y);
                        }
                    }
                }
                if ftb_pair(packages, packages.len() as int, x, y) {
                    assert(pre.has_edge(x, y));
                    assert(self.graph.has_edge(x, y));
                }
                if fdep_pair_upto(packages, links, p as int, n as int, t + 1, x, y) {
                    let (p2, n2, t2) = choose|p2: int, n2: int, t2: int|
                        #[trigger] fdep_witness(
                            packages,
                            links,
                            p as int,
                            n as int,
                            t + 1,
                            x,
                            y,
                            p2,
                            n2,
                            t2,
                        );
                    if p2 == p as int && n2 == n as int && t2 == t {
                        assert(x == a as int && y == b as int);
                        assert(self.graph.has_edge(x, y));
                    } else {
                        assert(fdep_pair_upto(packages, links, p as int, n as int, t, x, y)) by {
                            assert(fdep_witness(
                                packages,
                                links,
                                p as int,
                                n as int,
                                t,
                                x,
                                y,
                                p2,
                                n2,
                                t2,
                            ));
                        }
                        assert(pre.has_edge(x, y));
                        assert(self.graph.has_edge(x, y));
                    }
                }
            }
            assert forall|x: int, y: int|
                ftb_pair(packages, packages.len() as int, x, y) implies #[trigger] self.graph.payload_of(
                x,
                y,
            ) is FeatureToBase || !self.graph.has_edge(x, y) by {
                if self.graph.has_edge(x, y) {
                    // The new pair targets a feature node, never a base.
                    let (p2, i2) = choose|p2: int, i2: int|
                        0 <= p2 < packages.len() && 0 <= i2 < packages[p2].n_features() && x
                            == #[trigger] node_ix_of(packages, p2, Option::Some(i2)) && y
                            == node_ix_of(packages, p2, Option::None);
                    if x == a as int && y == b as int {
                        lemma_node_ix_inj(
                            packages,
                            q as int,
                            Option::Some(j as int),
                            p2,
                            Option::None,
                        );
                    } else {
                        assert(pre.has_edge(x, y));
                        assert(self.graph.edges_map()[(x, y)] == pre.edges_map()[(x, y)]);
                        assert(pre.payload_of(x, y) is FeatureToBase || !pre.has_edge(x, y));
                    }
                }
            }
            assert forall|x: int, y: int|
                #[trigger] fdep_pair_upto(packages, links, p as int, n as int, t + 1, x, y) implies
                self.graph.payload_of(x, y) is FeatureDependency by {
                if x == a as int && y == b as int {
                    assert(self.graph.has_edge(x, y));
                    assert(self.graph.edges_map()[(x, y)] == self.graph.payload_of(x, y));
                    assert(self.graph.edges_map()[(x, y)] is FeatureDependency);
                } else {
                    let (p2, n2, t2) = choose|p2: int, n2: int, t2: int|
                        #[trigger] fdep_witness(
                            packages,
                            links,
                            p as int,
                            n as int,
                            t + 1,
                            x,
                            y,
                            p2,
                            n2,
                            t2,
                        );
                    assert(fdep_witness(packages, links, p as int, n as int, t, x, y, p2, n2, t2));
                    assert(fdep_pair_upto(packages, links, p as int, n as int, t, x, y));
                    assert(pre.payload_of(x, y) is FeatureDependency);
                    assert(pre.has_edge(x, y));
                    assert(self.graph.edges_map()[(x, y)] == pre.edges_map()[(x, y)]);
                }
            }
        }
    }

    /// Edge state while Phase C has emitted every pair strictly before
    /// `(e, half, s)` in link, half, slot order; Phases A and B are done.
    pub open spec fn edges_phase_c(
        self,
        packages: Seq<PackageMetadata>,
        links: Seq<PackageLink>,
        e: int,
        half: int,
        s: int,
    ) -> bool {
        &&& forall|a: int, b: int|
            #[trigger] self.graph.has_edge(a, b) <==> (ftb_pair(packages, packages.len() as int, a, b)
                || fdep_pair(packages, links, a, b) || cdep_pair_upto(
                packages,
                links,
                e,
                half,
                s,
                a,
                b,
            ))
        &&& forall|a: int, b: int|
            ftb_pair(packages, packages.len() as int, a, b) ==> #[trigger] self.graph.payload_of(
                a,
                b,
            ) is FeatureToBase || !self.graph.has_edge(a, b)
        &&& forall|a: int, b: int|
            #[trigger] fdep_pair(packages, links, a, b) ==> self.graph.payload_of(
                a,
                b,
            ) is FeatureDependency || !self.graph.has_edge(a, b)
        &&& forall|e2: int, s2: int, opt2: bool|
            #[trigger] cdep_witness(
                packages,
                links,
                e,
                half,
                s,
                cdep_src(packages, links, e2, opt2),
                cdep_tgt(packages, links, e2, s2),
                e2,
                s2,
                opt2,
            ) ==> dep_payload_ok(self.graph, packages, links, e2, s2, opt2)
    }

    /// Phase C for one link: fold its three kinds into a required and an
    /// optional request per destination slot and emit the edges.
    pub fn add_dependency_edges(&mut self, pg: &PackageGraph, e: usize)
        requires
            pg.wf(),
            e < pg.links@.len(),
            old(self).layout_full(pg.packages@),
            old(self).edges_phase_c(pg.packages@, pg.links@, e as int, 0, 0),
            wviews(old(self).warnings@) == warns_named_phase(
                pg.packages@,
                pg.links@,
                pg.packages@.len() as int,
            ) + warns_dep_phase(pg.packages@, pg.links@, e as int),
        ensures
            final(self).layout_full(pg.packages@),
            final(self).edges_phase_c(pg.packages@, pg.links@, e + 1, 0, 0),
            wviews(final(self).warnings@) == warns_named_phase(
                pg.packages@,
                pg.links@,
                pg.packages@.len() as int,
            ) + warns_dep_phase(pg.packages@, pg.links@, e + 1),
    {
        let ghost packages = pg.packages@;
        let ghost links = pg.links@;
        let ghost link = links[e as int];
        let ghost to = packages[link.to as int];
        let to_ix = pg.links[e].to;
        let from_ix = pg.links[e].from;
        proof {
            lemma_total_bounds(packages, link.to as int);
            lemma_base_ix_monotone(packages, 0, link.to as int);
            assert(base_ix_of(packages, link.to as int) + 1 + to.n_features() <= total_nodes(
                packages,
            ));
        }
        let nslots = pg.packages[to_ix].features.len() + 1;
        let mut required_states: Vec<DependencyBuildState> = Vec::new();
        let mut optional_states: Vec<DependencyBuildState> = Vec::new();
        let mut s: usize = 0;
        while s < nslots
            invariant
                s <= nslots,
                required_states@.len() == s,
                optional_states@.len() == s,
                forall|k: int|
                    0 <= k < s ==> (#[trigger] required_states@[k]).normal@ == PlatView::Never
                        && required_states@[k].build@ == PlatView::Never
                        && required_states@[k].dev@ == PlatView::Never,
                forall|k: int|
                    0 <= k < s ==> (#[trigger] optional_states@[k]).normal@ == PlatView::Never
                        && optional_states@[k].build@ == PlatView::Never
                        && optional_states@[k].dev@ == PlatView::Never,
            decreases nslots - s,
        {
            required_states.push(DependencyBuildState::new_empty());
            optional_states.push(DependencyBuildState::new_empty());
            s += 1;
        }
        self.absorb(&mut required_states, pg, e, DependencyKind::Normal, false);
        self.absorb(&mut optional_states, pg, e, DependencyKind::Normal, true);
        self.absorb(&mut required_states, pg, e, DependencyKind::Build, false);
        self.absorb(&mut optional_states, pg, e, DependencyKind::Build, true);
        self.absorb(&mut required_states, pg, e, DependencyKind::Development, false);
        self.absorb(&mut optional_states, pg, e, DependencyKind::Development, true);
        proof {
            assert forall|k: int| 0 <= k < required_states@.len() implies {
                &&& (#[trigger] required_states@[k]).normal@ == unified_normal(
                    link,
                    to,
                    key_of_slot(k),
                    false,
                )
                &&& required_states@[k].build@ == unified_build(link, to, key_of_slot(k), false)
                &&& required_states@[k].dev@ == unified_dev(link, to, key_of_slot(k), false)
            } by {}
            assert forall|k: int| 0 <= k < optional_states@.len() implies {
                &&& (#[trigger] optional_states@[k]).normal@ == unified_normal(
                    link,
                    to,
                    key_of_slot(k),
                    true,
                )
                &&& optional_states@[k].build@ == unified_build(link, to, key_of_slot(k), true)
                &&& optional_states@[k].dev@ == unified_dev(link, to, key_of_slot(k), true)
            } by {}
        }
        proof {
            // Six sub-requests were appended in kind order: one link's worth.
            assert(wviews(self.warnings@) =~= warns_named_phase(packages, links, packages.len() as int)
                + warns_dep_phase(packages, links, e as int) + warns_link(packages, link));
            assert(warns_dep_phase(packages, links, e + 1) == warns_dep_phase(
                packages,
                links,
                e as int,
            ) + warns_link(packages, link));
            assert(warns_named_phase(packages, links, packages.len() as int) + (warns_dep_phase(
                packages,
                links,
                e as int,
            ) + warns_link(packages, link)) =~= warns_named_phase(
                packages,
                links,
                packages.len() as int,
            ) + warns_dep_phase(packages, links, e as int) + warns_link(packages, link));
        }
        // Required edges come from the depending package's base.
        let req_src = self.base_ixs[from_ix];
        proof {
            assert(req_src == node_ix_of(packages, link.from as int, Option::None));
        }
        self.emit_half(pg, e, &required_states, req_src, Ghost(false));
        proof {
            lemma_phase_c_roll_half(*self, packages, links, e as int, nslots as int);
        }
        // Optional edges come from the dependency's pseudo-feature node.
        let mut any_opt = false;
        let mut k: usize = 0;
        while k < nslots
            invariant
                nslots == optional_states@.len(),
                k <= nslots,
                any_opt ==> exists|k2: int|
                    0 <= k2 < nslots && !(#[trigger] optional_states@[k2]).spec_is_empty(),
                !any_opt ==> forall|k2: int|
                    0 <= k2 < k ==> (#[trigger] optional_states@[k2]).spec_is_empty(),
            decreases nslots - k,
        {
            if !any_opt && !optional_states[k].is_empty() {
                any_opt = true;
            }
            k += 1;
        }
        if any_opt {
            proof {
                let k2 = choose|k2: int|
                    0 <= k2 < nslots && !(#[trigger] optional_states@[k2]).spec_is_empty();
                assert(unified_nonempty(link, to, key_of_slot(k2), true));
                lemma_nonempty_has_optional(link, to, key_of_slot(k2));
            }
            match pg.packages[from_ix].get_feature_idx(pg.links[e].dep_name.as_str()) {
                Some(ix) => {
                    proof {
                        lemma_node_ix_range(packages, link.from as int, Option::Some(ix as int));
                        lemma_base_ix_monotone(packages, link.from as int + 1, packages.len() as int);
                        lemma_total_bounds(packages, link.from as int);
                    }
                    let opt_src_ix = self.base_ixs[from_ix] + 1 + ix;
                    proof {
                        assert(opt_src_ix == opt_src(packages, links, e as int));
                    }
                    self.emit_half(pg, e, &optional_states, opt_src_ix, Ghost(true));
                },
                None => {
                    proof {
                        assert(false);
                    }
                },
            }
        } else {
            proof {
                assert forall|s2: int| 0 <= s2 < nslots implies !unified_nonempty(
                    link,
                    to,
                    #[trigger] key_of_slot(s2),
                    true,
                ) by {
                    assert(optional_states@[s2].spec_is_empty());
                }
                lemma_phase_c_skip_opt(*self, packages, links, e as int, nslots as int);
            }
        }
        proof {
            lemma_phase_c_roll_link(*self, packages, links, e as int, nslots as int);
        }
    }

    /// Folds one sub-request of link `e` into the per-slot states, warning
    /// about feature targets the destination lacks.
    fn absorb(
        &mut self,
        states: &mut Vec<DependencyBuildState>,
        pg: &PackageGraph,
        e: usize,
        kind: DependencyKind,
        opt: bool,
    )
        requires
            pg.wf(),
            e < pg.links@.len(),
            old(states)@.len() == pg.packages@[pg.links@[e as int].to as int].n_features() + 1,
            forall|k: int|
                0 <= k < old(states)@.len() ==> kind_view(#[trigger] old(states)@[k], kind)
                    == PlatView::Never,
        ensures
            final(self).graph == old(self).graph,
            final(self).base_ixs@ == old(self).base_ixs@,
            final(self).nodes@ == old(self).nodes@,
            final(self).metas@ == old(self).metas@,
            final(states)@.len() == old(states)@.len(),
            forall|k: int|
                0 <= k < final(states)@.len() ==> kind_view(#[trigger] final(states)@[k], kind)
                    == sub_status(
                    sub_of(pg.links@[e as int], kind, opt),
                    pg.packages@[pg.links@[e as int].to as int],
                    key_of_slot(k),
                ),
            forall|k: int|
                0 <= k < final(states)@.len() ==> other_views_same(
                    #[trigger] final(states)@[k],
                    old(states)@[k],
                    kind,
                ),
            wviews(final(self).warnings@) =~= wviews(old(self).warnings@) + warns_targets(
                pg.packages@[pg.links@[e as int].from as int].id@,
                pg.links@[e as int].dep_name@,
                pg.packages@[pg.links@[e as int].to as int],
                pg.packages@[pg.links@[e as int].to as int].id@,
                sub_of(pg.links@[e as int], kind, opt).feature_targets@,
                sub_of(pg.links@[e as int], kind, opt).feature_targets@.len() as int,
            ),
    {
        let ghost packages = pg.packages@;
        let ghost links = pg.links@;
        let ghost link = links[e as int];
        let ghost to = packages[link.to as int];
        let to_ix = pg.links[e].to;
        let from_ix = pg.links[e].from;
        let link_ref = &pg.links[e];
        let sub = match kind {
            DependencyKind::Normal => if opt {
                &link_ref.normal.optional
            } else {
                &link_ref.normal.required
            },
            DependencyKind::Build => if opt {
                &link_ref.build.optional
            } else {
                &link_ref.build.required
            },
            DependencyKind::Development => if opt {
                &link_ref.dev.optional
            } else {
                &link_ref.dev.required
            },
        };
        proof {
            assert(*sub == sub_of(link, kind, opt));
        }
        let cap = states.len();
        extend_slot(states, 0, kind, &sub.build_if);
        let dslot = match pg.packages[to_ix].default_feature_idx() {
            Some(di) => {
                proof {
                    assert(0 <= to.feature_idx("default"@) < to.n_features());
                }
                di + 1
            },
            None => 0,
        };
        proof {
            assert(key_of_slot(dslot as int) == default_key(to));
            assert(dslot < states@.len());
            assert forall|k: int|
                0 <= k < states@.len() && k != dslot ==> #[trigger] key_of_slot(k) != default_key(
                    to,
                ) by {}
        }
        extend_slot(states, dslot, kind, &sub.default_features_if);
        proof {
            assert forall|k: int| 0 <= k < states@.len() implies kind_view(
                #[trigger] states@[k],
                kind,
            ) == absorb_val(sub_of(link, kind, opt), to, k, 0) by {}
        }
        let ghost w0 = self.warnings@;
        let nt = sub.feature_targets.len();
        let mut i: usize = 0;
        while i < nt
            invariant
                pg.wf(),
                packages == pg.packages@,
                links == pg.links@,
                link == links[e as int],
                to == packages[link.to as int],
                e < links.len(),
                to_ix == link.to,
                from_ix == link.from,
                *sub == sub_of(link, kind, opt),
                sub == match kind {
                    DependencyKind::Normal => if opt {
                        &link_ref.normal.optional
                    } else {
                        &link_ref.normal.required
                    },
                    DependencyKind::Build => if opt {
                        &link_ref.build.optional
                    } else {
                        &link_ref.build.required
                    },
                    DependencyKind::Development => if opt {
                        &link_ref.dev.optional
                    } else {
                        &link_ref.dev.required
                    },
                },
                link_ref == &links[e as int],
                nt == sub.feature_targets@.len(),
                i <= nt,
                cap == states@.len(),
                states@.len() == to.n_features() + 1,
                forall|k: int|
                    0 <= k < states@.len() ==> kind_view(#[trigger] states@[k], kind) == absorb_val(
                        sub_of(link, kind, opt),
                        to,
                        k,
                        i as int,
                    ),
                forall|k: int|
                    0 <= k < states@.len() ==> other_views_same(
                        #[trigger] states@[k],
                        old(states)@[k],
                        kind,
                    ),
                self.graph == old(self).graph,
                self.base_ixs@ == old(self).base_ixs@,
                self.nodes@ == old(self).nodes@,
                self.metas@ == old(self).metas@,
                wviews(self.warnings@) =~= wviews(w0) + warns_targets(
                    packages[link.from as int].id@,
                    link.dep_name@,
                    to,
                    to.id@,
                    sub.feature_targets@,
                    i as int,
                ),
            decreases nt - i,
        {
            let ghost name_spec = sub.feature_targets@[i as int].0@;
            let name = &sub.feature_targets[i].0;
            let status = &sub.feature_targets[i].1;
            let ghost sts0 = states@;
            let ghost w1 = self.warnings@;
            match pg.packages[to_ix].get_feature_idx(name.as_str()) {
                Some(j) => {
                    proof {
                        assert(to.has_feature(name_spec) && j == to.feature_idx(name_spec));
                        assert(j + 1 < states@.len());
                    }
                    extend_slot(states, j + 1, kind, status);
                    proof {
                        assert forall|k: int| 0 <= k < states@.len() implies kind_view(
                            #[trigger] states@[k],
                            kind,
                        ) == absorb_val(sub_of(link, kind, opt), to, k, i + 1) by {
                            if k == j + 1 && !status@.is_never() {
                                crate::platform::lemma_union_assoc(
                                    base_part(sub_of(link, kind, opt), k).union(
                                        dflt_part(sub_of(link, kind, opt), to, k),
                                    ),
                                    target_contrib(
                                        to,
                                        sub_of(link, kind, opt).feature_targets@,
                                        key_of_slot(k),
                                        i as int,
                                    ),
                                    status@,
                                );
                            }
                        }
                    }
                },
                None => {
                    proof {
                        assert(!to.has_feature(name_spec));
                    }
                    let w = FeatureGraphWarning::MissingFeature {
                        stage: FeatureBuildStage::AddDependencyEdges {
                            package_id: pg.packages[from_ix].id.dup(),
                            dep_name: pg.links[e].dep_name.clone(),
                        },
                        package_id: pg.packages[to_ix].id.dup(),
                        feature_name: name.clone(),
                    };
                    self.warnings.push(w);
                    proof {
                        assert(self.warnings@ == w1.push(self.warnings@.last()));
                        assert(wviews(self.warnings@) =~= wviews(w1).push(
                            warning_view(self.warnings@.last()),
                        ));
                    }
                },
            }
            proof {
                lemma_warns_targets_step(
                    packages[link.from as int].id@,
                    link.dep_name@,
                    to,
                    to.id@,
                    sub.feature_targets@,
                    i as int,
                );
                assert(wviews(self.warnings@) =~= wviews(w0) + warns_targets(
                    packages[link.from as int].id@,
                    link.dep_name@,
                    to,
                    to.id@,
                    sub.feature_targets@,
                    i + 1,
                ));
            }
            i += 1;
        }
        proof {
            assert forall|k: int| 0 <= k < states@.len() implies kind_view(
                #[trigger] states@[k],
                kind,
            ) == sub_status(sub_of(link, kind, opt), to, key_of_slot(k)) by {
                assert(kind_view(states@[k], kind) == absorb_val(
                    sub_of(link, kind, opt),
                    to,
                    k,
                    nt as int,
                ));
            }
        }
    }

    /// Emits one half of a link's edges: every slot whose state is not
    /// empty, in slot order, from the given source node.
    fn emit_half(
        &mut self,
        pg: &PackageGraph,
        e: usize,
        states: &Vec<DependencyBuildState>,
        src: usize,
        Ghost(opt): Ghost<bool>,
    )
        requires
            pg.wf(),
            e < pg.links@.len(),
            old(self).layout_full(pg.packages@),
            states@.len() == pg.packages@[pg.links@[e as int].to as int].n_features() + 1,
            forall|k: int|
                0 <= k < states@.len() ==> {
                    &&& (#[trigger] states@[k]).normal@ == unified_normal(
                        pg.links@[e as int],
                        pg.packages@[pg.links@[e as int].to as int],
                        key_of_slot(k),
                        opt,
                    )
                    &&& states@[k].build@ == unified_build(
                        pg.links@[e as int],
                        pg.packages@[pg.links@[e as int].to as int],
                        key_of_slot(k),
                        opt,
                    )
                    &&& states@[k].dev@ == unified_dev(
                        pg.links@[e as int],
                        pg.packages@[pg.links@[e as int].to as int],
                        key_of_slot(k),
                        opt,
                    )
                },
            src == cdep_src(pg.packages@, pg.links@, e as int, opt),
            opt ==> pg.links@[e as int].has_optional(),
            old(self).edges_phase_c(
                pg.packages@,
                pg.links@,
                e as int,
                if opt {
                    1
                } else {
                    0
                },
                0,
            ),
        ensures
            final(self).layout_full(pg.packages@),
            final(self).warnings@ == old(self).warnings@,
            final(self).base_ixs@ == old(self).base_ixs@,
            final(self).nodes@ == old(self).nodes@,
            final(self).metas@ == old(self).metas@,
            final(self).edges_phase_c(
                pg.packages@,
                pg.links@,
                e as int,
                if opt {
                    1
                } else {
                    0
                },
                states@.len() as int,
            ),
    {
        let ghost packages = pg.packages@;
        let ghost links = pg.links@;
        let ghost link = links[e as int];
        let ghost to = packages[link.to as int];
        let ghost half: int = if opt {
            1
        } else {
            0
        };
        let to_ix = pg.links[e].to;
        let nslots = states.len();
        proof {
            lemma_cdep_src_valid(packages, links, e as int, opt);
        }
        let mut s: usize = 0;
        while s < nslots
            invariant
                pg.wf(),
                packages == pg.packages@,
                links == pg.links@,
                link == links[e as int],
                to == packages[link.to as int],
                e < links.len(),
                to_ix == link.to,
                half == if opt {
                    1int
                } else {
                    0int
                },
                nslots == states@.len(),
                nslots == to.n_features() + 1,
                s <= nslots,
                forall|k: int|
                    0 <= k < states@.len() ==> {
                        &&& (#[trigger] states@[k]).normal@ == unified_normal(
                            link,
                            to,
                            key_of_slot(k),
                            opt,
                        )
                        &&& states@[k].build@ == unified_build(link, to, key_of_slot(k), opt)
                        &&& states@[k].dev@ == unified_dev(link, to, key_of_slot(k), opt)
                    },
                src == cdep_src(packages, links, e as int, opt),
                src < total_nodes(packages),
                opt ==> link.has_optional(),
                self.layout_full(packages),
                self.warnings@ == old(self).warnings@,
                self.base_ixs@ == old(self).base_ixs@,
                self.nodes@ == old(self).nodes@,
                self.metas@ == old(self).metas@,
                self.edges_phase_c(packages, links, e as int, half, s as int),
            decreases nslots - s,
        {
            if !states[s].is_empty() {
                proof {
                    assert(unified_nonempty(link, to, key_of_slot(s as int), opt));
                    lemma_node_ix_range(packages, link.to as int, key_of_slot(s as int));
                    lemma_base_ix_monotone(packages, link.to as int + 1, packages.len() as int);
                    lemma_total_bounds(packages, link.to as int);
                    let nc = self.graph.node_count as int;
                    let t = total_nodes(packages);
                    assert(nc * nc < usize::MAX) by (nonlinear_arith)
                        requires
                            0 <= nc,
                            nc == t,
                            t * t < usize::MAX,
                    ;
                    self.graph.lemma_edge_count_bound();
                    lemma_cdep_fresh(*self, packages, links, e as int, opt, s as int);
                }
                let b = self.base_ixs[to_ix] + s;
                proof {
                    assert(b == cdep_tgt(packages, links, e as int, s as int));
                }
                let payload = FeatureEdge::Dependency {
                    normal: states[s].normal.dup(),
                    build: states[s].build.dup(),
                    dev: states[s].dev.dup(),
                };
                let ghost pre = self.graph;
                self.graph.update_edge(src, b, payload);
                proof {
                    lemma_emit_step(
                        *self,
                        pre,
                        packages,
                        links,
                        e as int,
                        opt,
                        s as int,
                        payload,
                    );
                }
            } else {
                proof {
                    lemma_phase_c_skip_slot(*self, packages, links, e as int, opt, s as int);
                }
            }
            s += 1;
        }
    }

    /// The number of features of package `p`.
    fn package_feature_count(&self, pg: &PackageGraph, p: usize) -> (r: usize)
        requires
            p < pg.packages@.len(),
        ensures
            r == pg.packages@[p as int].n_features(),
    {
        pg.packages[p].features.len()
    }

    /// The number of named features of package `p`.
    fn package_named_count(&self, pg: &PackageGraph, p: usize) -> (r: usize)
        requires
            p < pg.packages@.len(),
        ensures
            r == pg.packages@[p as int].named_feature_count,
    {
        pg.packages[p].named_feature_count
    }
}

/// The predicate a state records for one kind.
pub open spec fn kind_view(st: DependencyBuildState, kind: DependencyKind) -> PlatView {
    match kind {
        DependencyKind::Normal => st.normal@,
        DependencyKind::Build => st.build@,
        DependencyKind::Development => st.dev@,
    }
}

/// The two kinds not being folded are unchanged.
pub open spec fn other_views_same(
    a: DependencyBuildState,
    b: DependencyBuildState,
    kind: DependencyKind,
) -> bool {
    match kind {
        DependencyKind::Normal => a.build@ == b.build@ && a.dev@ == b.dev@,
        DependencyKind::Build => a.normal@ == b.normal@ && a.dev@ == b.dev@,
        DependencyKind::Development => a.normal@ == b.normal@ && a.build@ == b.build@,
    }
}

/// The base-predicate contribution of a sub-request to slot `s`.
pub open spec fn base_part(sub: DepRequiredOrOptional, s: int) -> PlatView {
    if s == 0 && !sub.build_if@.is_never() {
        sub.build_if@
    } else {
        PlatView::Never
    }
}

/// The default-features contribution of a sub-request to slot `s`.
pub open spec fn dflt_part(sub: DepRequiredOrOptional, to: PackageMetadata, s: int) -> PlatView {
    if key_of_slot(s) == default_key(to) && !sub.default_features_if@.is_never() {
        sub.default_features_if@
    } else {
        PlatView::Never
    }
}

/// The value a slot holds after the fixed contributions and the first `i`
/// feature targets of a sub-request.
pub open spec fn absorb_val(
    sub: DepRequiredOrOptional,
    to: PackageMetadata,
    s: int,
    i: int,
) -> PlatView {
    base_part(sub, s).union(dflt_part(sub, to, s)).union(
        target_contrib(to, sub.feature_targets@, key_of_slot(s), i),
    )
}

/// One unfolding of the per-target warning accumulator.
pub proof fn lemma_warns_targets_step(
    from_id: Seq<char>,
    dep_name: Seq<char>,
    to: PackageMetadata,
    to_id: Seq<char>,
    ts: Seq<(String, PlatformStatus)>,
    t: int,
)
    requires
        t >= 0,
    ensures
        warns_targets(from_id, dep_name, to, to_id, ts, t + 1) == warns_targets(
            from_id,
            dep_name,
            to,
            to_id,
            ts,
            t,
        ) + if to.has_feature(ts[t].0@) {
            Seq::<WarningView>::empty()
        } else {
            seq![
                WarningView {
                    from_dependency: true,
                    stage_package_id: from_id,
                    stage_detail: dep_name,
                    package_id: to_id,
                    feature_name: ts[t].0@,
                },
            ]
        },
{
}

/// Updates one slot's predicate for one kind, skipping never.
fn extend_slot(
    states: &mut Vec<DependencyBuildState>,
    slot: usize,
    kind: DependencyKind,
    status: &PlatformStatus,
)
    requires
        slot < old(states)@.len(),
    ensures
        final(states)@.len() == old(states)@.len(),
        forall|k: int|
            0 <= k < final(states)@.len() && k != slot ==> #[trigger] final(states)@[k] == old(
                states,
            )@[k],
        kind_view(final(states)@[slot as int], kind) == if status@.is_never() {
            kind_view(old(states)@[slot as int], kind)
        } else {
            kind_view(old(states)@[slot as int], kind).union(status@)
        },
        other_views_same(final(states)@[slot as int], old(states)@[slot as int], kind),
{
    if !status.is_never() {
        let mut st = DependencyBuildState::new_empty();
        states.set_and_swap(slot, &mut st);
        match kind {
            DependencyKind::Normal => st.normal.extend(status),
            DependencyKind::Build => st.build.extend(status),
            DependencyKind::Development => st.dev.extend(status),
        }
        states.set_and_swap(slot, &mut st);
    }
}

/// The source node of a link half exists and is in range.
pub proof fn lemma_cdep_src_valid(
    packages: Seq<PackageMetadata>,
    links: Seq<PackageLink>,
    e: int,
    opt: bool,
)
    requires
        crate::package::input_wf(packages, links),
        0 <= e < links.len(),
        opt ==> links[e].has_optional(),
    ensures
        0 <= cdep_src(packages, links, e, opt) < total_nodes(packages),
        !opt ==> cdep_src(packages, links, e, opt) == node_ix_of(
            packages,
            links[e].from as int,
            Option::None,
        ),
        opt ==> {
            &&& 0 <= packages[links[e].from as int].feature_idx(links[e].dep_name@)
                < packages[links[e].from as int].n_features()
            &&& cdep_src(packages, links, e, opt) == node_ix_of(
                packages,
                links[e].from as int,
                Option::Some(packages[links[e].from as int].feature_idx(links[e].dep_name@)),
            )
        },
{
    let from = links[e].from as int;
    if opt {
        assert(packages[from].has_feature(links[e].dep_name@));
        let ix = packages[from].feature_idx(links[e].dep_name@);
        assert(0 <= ix < packages[from].n_features());
        lemma_node_ix_range(packages, from, Option::Some(ix));
    } else {
        lemma_node_ix_range(packages, from, Option::None);
    }
    lemma_base_ix_monotone(packages, from + 1, packages.len() as int);
    lemma_base_ix_monotone(packages, 0, from);
}

/// Two coinciding cross-package pairs come from the same link, slot and
/// half.
pub proof fn lemma_cdep_pair_id(
    packages: Seq<PackageMetadata>,
    links: Seq<PackageLink>,
    e1: int,
    s1: int,
    opt1: bool,
    e2: int,
    s2: int,
    opt2: bool,
)
    requires
        crate::package::input_wf(packages, links),
        0 <= e1 < links.len(),
        0 <= e2 < links.len(),
        0 <= s1 <= packages[links[e1].to as int].n_features(),
        0 <= s2 <= packages[links[e2].to as int].n_features(),
        opt1 ==> links[e1].has_optional(),
        opt2 ==> links[e2].has_optional(),
        cdep_src(packages, links, e1, opt1) == cdep_src(packages, links, e2, opt2),
        cdep_tgt(packages, links, e1, s1) == cdep_tgt(packages, links, e2, s2),
    ensures
        e1 == e2,
        s1 == s2,
        opt1 == opt2,
{
    lemma_cdep_src_valid(packages, links, e1, opt1);
    lemma_cdep_src_valid(packages, links, e2, opt2);
    lemma_node_ix_inj(
        packages,
        links[e1].to as int,
        key_of_slot(s1),
        links[e2].to as int,
        key_of_slot(s2),
    );
    assert(links[e1].to == links[e2].to && s1 == s2);
    let f1: Option<int> = if opt1 {
        Option::Some(packages[links[e1].from as int].feature_idx(links[e1].dep_name@))
    } else {
        Option::None
    };
    let f2: Option<int> = if opt2 {
        Option::Some(packages[links[e2].from as int].feature_idx(links[e2].dep_name@))
    } else {
        Option::None
    };
    lemma_node_ix_inj(packages, links[e1].from as int, f1, links[e2].from as int, f2);
    assert(links[e1].from == links[e2].from);
    assert(opt1 == opt2);
    if e1 != e2 {
        assert(!(links[e1].from == links[e2].from && links[e1].to == links[e2].to));
    }
}

/// The pair a link is about to emit is not yet in the graph.
pub proof fn lemma_cdep_fresh(
    st: FeatureGraphBuildState,
    packages: Seq<PackageMetadata>,
    links: Seq<PackageLink>,
    e: int,
    opt: bool,
    s: int,
)
    requires
        crate::package::input_wf(packages, links),
        0 <= e < links.len(),
        0 <= s <= packages[links[e].to as int].n_features(),
        opt ==> links[e].has_optional(),
        st.edges_phase_c(
            packages,
            links,
            e,
            if opt {
                1
            } else {
                0
            },
            s,
        ),
    ensures
        !st.graph.has_edge(cdep_src(packages, links, e, opt), cdep_tgt(packages, links, e, s)),
{
    let half: int = if opt {
        1
    } else {
        0
    };
    let a = cdep_src(packages, links, e, opt);
    let b = cdep_tgt(packages, links, e, s);
    lemma_cdep_src_valid(packages, links, e, opt);
    lemma_node_ix_range(packages, links[e].to as int, key_of_slot(s));
    if st.graph.has_edge(a, b) {
        if ftb_pair(packages, packages.len() as int, a, b) {
            let (p2, i2) = choose|p2: int, i2: int|
                0 <= p2 < packages.len() && 0 <= i2 < packages[p2].n_features() && a
                    == #[trigger] node_ix_of(packages, p2, Option::Some(i2)) && b == node_ix_of(
                    packages,
                    p2,
                    Option::None,
                );
            if opt {
                lemma_node_ix_inj(
                    packages,
                    links[e].from as int,
                    Option::Some(packages[links[e].from as int].feature_idx(links[e].dep_name@)),
                    p2,
                    Option::Some(i2),
                );
                lemma_node_ix_inj(packages, links[e].to as int, key_of_slot(s), p2, Option::None);
                assert(links[e].from == links[e].to);
                assert(false);
            } else {
                lemma_node_ix_inj(packages, links[e].from as int, Option::None, p2, Option::Some(i2));
                assert(false);
            }
        } else if fdep_pair(packages, links, a, b) {
            let (p2, n2, t2) = choose|p2: int, n2: int, t2: int|
                #[trigger] fdep_witness(
                    packages,
                    links,
                    packages.len() as int,
                    0,
                    0,
                    a,
                    b,
                    p2,
                    n2,
                    t2,
                );
            if opt {
                let ix = packages[links[e].from as int].feature_idx(links[e].dep_name@);
                lemma_node_ix_inj(
                    packages,
                    links[e].from as int,
                    Option::Some(ix),
                    p2,
                    Option::Some(n2),
                );
                assert(ix >= packages[links[e].from as int].named_feature_count);
                assert(n2 < packages[p2].named_feature_count);
                assert(false);
            } else {
                lemma_node_ix_inj(packages, links[e].from as int, Option::None, p2, Option::Some(n2));
                assert(false);
            }
        } else {
            let (e2, s2, opt2) = choose|e2: int, s2: int, opt2: bool|
                #[trigger] cdep_witness(packages, links, e, half, s, a, b, e2, s2, opt2);
            assert(opt2 ==> links[e2].has_optional()) by {
                if opt2 {
                    lemma_nonempty_has_optional(
                        links[e2],
                        packages[links[e2].to as int],
                        key_of_slot(s2),
                    );
                }
            }
            lemma_cdep_pair_id(packages, links, e, s, opt, e2, s2, opt2);
            assert(false);
        }
    }
}

/// One emitted edge advances the slot position.
#[verifier::rlimit(60)]
pub proof fn lemma_emit_step(
    st: FeatureGraphBuildState,
    pre: DiGraph<FeatureEdge>,
    packages: Seq<PackageMetadata>,
    links: Seq<PackageLink>,
    e: int,
    opt: bool,
    s: int,
    payload: FeatureEdge,
)
    requires
        crate::package::input_wf(packages, links),
        0 <= e < links.len(),
        0 <= s <= packages[links[e].to as int].n_features(),
        opt ==> links[e].has_optional(),
        unified_nonempty(links[e], packages[links[e].to as int], key_of_slot(s), opt),
        payload matches FeatureEdge::Dependency { normal, build, dev } && normal@
            == unified_normal(
            links[e],
            packages[links[e].to as int],
            key_of_slot(s),
            opt,
        ) && build@ == unified_build(links[e], packages[links[e].to as int], key_of_slot(s), opt)
            && dev@ == unified_dev(links[e], packages[links[e].to as int], key_of_slot(s), opt),
        ({
            let fb = FeatureGraphBuildState {
                graph: pre,
                base_ixs: st.base_ixs,
                nodes: st.nodes,
                metas: st.metas,
                warnings: st.warnings,
            };
            fb.edges_phase_c(
                packages,
                links,
                e,
                if opt {
                    1
                } else {
                    0
                },
                s,
            )
        }),
        !pre.has_edge(cdep_src(packages, links, e, opt), cdep_tgt(packages, links, e, s)),
        st.graph.wf(),
        forall|a: int, b: int|
            #[trigger] st.graph.has_edge(a, b) ==> (pre.has_edge(a, b) || (a == cdep_src(
                packages,
                links,
                e,
                opt,
            ) && b == cdep_tgt(packages, links, e, s))),
        forall|a: int, b: int| #[trigger] pre.has_edge(a, b) ==> st.graph.has_edge(a, b),
        st.graph.has_edge(cdep_src(packages, links, e, opt), cdep_tgt(packages, links, e, s)),
        st.graph.edges_map() =~= pre.edges_map().insert(
            (cdep_src(packages, links, e, opt), cdep_tgt(packages, links, e, s)),
            payload,
        ),
    ensures
        st.edges_phase_c(
            packages,
            links,
            e,
            if opt {
                1
            } else {
                0
            },
            s + 1,
        ),
{
    let half: int = if opt {
        1
    } else {
        0
    };
    let a0 = cdep_src(packages, links, e, opt);
    let b0 = cdep_tgt(packages, links, e, s);
    lemma_cdep_src_valid(packages, links, e, opt);
    lemma_node_ix_range(packages, links[e].to as int, key_of_slot(s));
    assert forall|a: int, b: int|
        #[trigger] st.graph.has_edge(a, b) <==> (ftb_pair(packages, packages.len() as int, a, b)
            || fdep_pair(packages, links, a, b) || cdep_pair_upto(
            packages,
            links,
            e,
            half,
            s + 1,
            a,
            b,
        )) by {
        if st.graph.has_edge(a, b) {
            if a == a0 && b == b0 {
                assert(cdep_witness(packages, links, e, half, s + 1, a, b, e, s, opt));
            } else {
                assert(pre.has_edge(a, b));
                if cdep_pair_upto(packages, links, e, half, s, a, b) {
                    let (e2, s2, opt2) = choose|e2: int, s2: int, opt2: bool|
                        #[trigger] cdep_witness(packages, links, e, half, s, a, b, e2, s2, opt2);
                    assert(cdep_witness(packages, links, e, half, s + 1, a, b, e2, s2, opt2));
                }
            }
        }
        if ftb_pair(packages, packages.len() as int, a, b) || fdep_pair(packages, links, a, b) {
            assert(pre.has_edge(a, b));
            assert(st.graph.has_edge(a, b));
        }
        if cdep_pair_upto(packages, links, e, half, s + 1, a, b) {
            let (e2, s2, opt2) = choose|e2: int, s2: int, opt2: bool|
                #[trigger] cdep_witness(packages, links, e, half, s + 1, a, b, e2, s2, opt2);
            if e2 == e && s2 == s && opt2 == opt {
                assert(a == a0 && b == b0);
                assert(st.graph.has_edge(a, b));
            } else {
                assert(cdep_witness(packages, links, e, half, s, a, b, e2, s2, opt2));
                assert(pre.has_edge(a, b));
                assert(st.graph.has_edge(a, b));
            }
        }
    }
    assert forall|a: int, b: int|
        ftb_pair(packages, packages.len() as int, a, b) implies #[trigger] st.graph.payload_of(
        a,
        b,
    ) is FeatureToBase || !st.graph.has_edge(a, b) by {
        if st.graph.has_edge(a, b) {
            let (p2, i2) = choose|p2: int, i2: int|
                0 <= p2 < packages.len() && 0 <= i2 < packages[p2].n_features() && a
                    == #[trigger] node_ix_of(packages, p2, Option::Some(i2)) && b == node_ix_of(
                    packages,
                    p2,
                    Option::None,
                );
            if a == a0 && b == b0 {
                if opt {
                    lemma_node_ix_inj(packages, links[e].to as int, key_of_slot(s), p2, Option::None);
                    lemma_node_ix_inj(
                        packages,
                        links[e].from as int,
                        Option::Some(
                            packages[links[e].from as int].feature_idx(links[e].dep_name@),
                        ),
                        p2,
                        Option::Some(i2),
                    );
                    assert(false);
                } else {
                    lemma_node_ix_inj(
                        packages,
                        links[e].from as int,
                        Option::None,
                        p2,
                        Option::Some(i2),
                    );
                    assert(false);
                }
            } else {
                assert(pre.has_edge(a, b));
                assert(st.graph.edges_map()[(a, b)] == pre.edges_map()[(a, b)]);
                assert(st.graph.edges_map()[(a, b)] == st.graph.payload_of(a, b));
                assert(pre.edges_map()[(a, b)] == pre.payload_of(a, b));
            }
        }
    }
    assert forall|a: int, b: int|
        #[trigger] fdep_pair(packages, links, a, b) implies st.graph.payload_of(
        a,
        b,
    ) is FeatureDependency || !st.graph.has_edge(a, b) by {
        if st.graph.has_edge(a, b) {
            let (p2, n2, t2) = choose|p2: int, n2: int, t2: int|
                #[trigger] fdep_witness(
                    packages,
                    links,
                    packages.len() as int,
                    0,
                    0,
                    a,
                    b,
                    p2,
                    n2,
                    t2,
                );
            if a == a0 && b == b0 {
                if opt {
                    let ix = packages[links[e].from as int].feature_idx(links[e].dep_name@);
                    lemma_node_ix_inj(
                        packages,
                        links[e].from as int,
                        Option::Some(ix),
                        p2,
                        Option::Some(n2),
                    );
                    assert(false);
                } else {
                    lemma_node_ix_inj(
                        packages,
                        links[e].from as int,
                        Option::None,
                        p2,
                        Option::Some(n2),
                    );
                    assert(false);
                }
            } else {
                assert(pre.has_edge(a, b));
                assert(st.graph.edges_map()[(a, b)] == pre.edges_map()[(a, b)]);
                assert(st.graph.edges_map()[(a, b)] == st.graph.payload_of(a, b));
                assert(pre.edges_map()[(a, b)] == pre.payload_of(a, b));
            }
        }
    }
    assert forall|e2: int, s2: int, opt2: bool|
        #[trigger] cdep_witness(
            packages,
            links,
            e,
            half,
            s + 1,
            cdep_src(packages, links, e2, opt2),
            cdep_tgt(packages, links, e2, s2),
            e2,
            s2,
            opt2,
        ) implies dep_payload_ok(st.graph, packages, links, e2, s2, opt2) by {
        let a = cdep_src(packages, links, e2, opt2);
        let b = cdep_tgt(packages, links, e2, s2);
        assert(opt2 ==> links[e2].has_optional()) by {
            if opt2 {
                lemma_nonempty_has_optional(
                    links[e2],
                    packages[links[e2].to as int],
                    key_of_slot(s2),
                );
            }
        }
        if e2 == e && s2 == s && opt2 == opt {
            assert(a == a0 && b == b0);
            assert(st.graph.edges_map()[(a, b)] == payload);
            assert(st.graph.edges_map()[(a, b)] == st.graph.payload_of(a, b));
        } else {
            if a == a0 && b == b0 {
                lemma_cdep_pair_id(packages, links, e, s, opt, e2, s2, opt2);
                assert(false);
            }
            assert(cdep_witness(packages, links, e, half, s, a, b, e2, s2, opt2));
            assert(dep_payload_ok(pre, packages, links, e2, s2, opt2));
            assert(pre.has_edge(a, b)) by {
                let fb = FeatureGraphBuildState {
                    graph: pre,
                    base_ixs: st.base_ixs,
                    nodes: st.nodes,
                    metas: st.metas,
                    warnings: st.warnings,
                };
                assert(cdep_pair_upto(packages, links, e, half, s, a, b));
            }
            assert(st.graph.edges_map()[(a, b)] == pre.edges_map()[(a, b)]);
            assert(st.graph.edges_map()[(a, b)] == st.graph.payload_of(a, b));
            assert(pre.edges_map()[(a, b)] == pre.payload_of(a, b));
        }
    }
}

/// A slot with nothing recorded emits nothing.
pub proof fn lemma_phase_c_skip_slot(
    st: FeatureGraphBuildState,
    packages: Seq<PackageMetadata>,
    links: Seq<PackageLink>,
    e: int,
    opt: bool,
    s: int,
)
    requires
        0 <= e < links.len(),
        0 <= s,
        !unified_nonempty(links[e], packages[links[e].to as int], key_of_slot(s), opt),
        st.edges_phase_c(
            packages,
            links,
            e,
            if opt {
                1
            } else {
                0
            },
            s,
        ),
    ensures
        st.edges_phase_c(
            packages,
            links,
            e,
            if opt {
                1
            } else {
                0
            },
            s + 1,
        ),
{
    let half: int = if opt {
        1
    } else {
        0
    };
    assert forall|a: int, b: int|
        #[trigger] cdep_pair_upto(packages, links, e, half, s + 1, a, b) implies cdep_pair_upto(
        packages,
        links,
        e,
        half,
        s,
        a,
        b,
    ) by {
        let (e2, s2, opt2) = choose|e2: int, s2: int, opt2: bool|
            #[trigger] cdep_witness(packages, links, e, half, s + 1, a, b, e2, s2, opt2);
        if e2 == e && s2 == s && opt2 == opt {
            assert(false);
        } else {
            assert(cdep_witness(packages, links, e, half, s, a, b, e2, s2, opt2));
        }
    }
    assert forall|a: int, b: int|
        #[trigger] st.graph.has_edge(a, b) <==> (ftb_pair(packages, packages.len() as int, a, b)
            || fdep_pair(packages, links, a, b) || cdep_pair_upto(
            packages,
            links,
            e,
            half,
            s + 1,
            a,
            b,
        )) by {
        if cdep_pair_upto(packages, links, e, half, s, a, b) {
            let (e2, s2, opt2) = choose|e2: int, s2: int, opt2: bool|
                #[trigger] cdep_witness(packages, links, e, half, s, a, b, e2, s2, opt2);
            assert(cdep_witness(packages, links, e, half, s + 1, a, b, e2, s2, opt2));
        }
    }
    assert forall|e2: int, s2: int, opt2: bool|
        #[trigger] cdep_witness(
            packages,
            links,
            e,
            half,
            s + 1,
            cdep_src(packages, links, e2, opt2),
            cdep_tgt(packages, links, e2, s2),
            e2,
            s2,
            opt2,
        ) implies dep_payload_ok(st.graph, packages, links, e2, s2, opt2) by {
        if e2 == e && s2 == s && opt2 == opt {
            assert(false);
        } else {
            assert(cdep_witness(
                packages,
                links,
                e,
                half,
                s,
                cdep_src(packages, links, e2, opt2),
                cdep_tgt(packages, links, e2, s2),
                e2,
                s2,
                opt2,
            ));
        }
    }
}

/// Finishing the required half rolls the state to the optional half.
pub proof fn lemma_phase_c_roll_half(
    st: FeatureGraphBuildState,
    packages: Seq<PackageMetadata>,
    links: Seq<PackageLink>,
    e: int,
    nslots: int,
)
    requires
        0 <= e < links.len(),
        nslots == packages[links[e].to as int].n_features() + 1,
        st.edges_phase_c(packages, links, e, 0, nslots),
    ensures
        st.edges_phase_c(packages, links, e, 1, 0),
{
    assert forall|a: int, b: int|
        #[trigger] cdep_pair_upto(packages, links, e, 1, 0, a, b) <==> cdep_pair_upto(
        packages,
        links,
        e,
        0,
        nslots,
        a,
        b,
    ) by {
        if cdep_pair_upto(packages, links, e, 1, 0, a, b) {
            let (e2, s2, opt2) = choose|e2: int, s2: int, opt2: bool|
                #[trigger] cdep_witness(packages, links, e, 1, 0, a, b, e2, s2, opt2);
            assert(cdep_witness(packages, links, e, 0, nslots, a, b, e2, s2, opt2));
        }
        if cdep_pair_upto(packages, links, e, 0, nslots, a, b) {
            let (e2, s2, opt2) = choose|e2: int, s2: int, opt2: bool|
                #[trigger] cdep_witness(packages, links, e, 0, nslots, a, b, e2, s2, opt2);
            assert(cdep_witness(packages, links, e, 1, 0, a, b, e2, s2, opt2));
        }
    }
    assert forall|e2: int, s2: int, opt2: bool|
        #[trigger] cdep_witness(
            packages,
            links,
            e,
            1,
            0,
            cdep_src(packages, links, e2, opt2),
            cdep_tgt(packages, links, e2, s2),
            e2,
            s2,
            opt2,
        ) implies dep_payload_ok(st.graph, packages, links, e2, s2, opt2) by {
        assert(cdep_witness(
            packages,
            links,
            e,
            0,
            nslots,
            cdep_src(packages, links, e2, opt2),
            cdep_tgt(packages, links, e2, s2),
            e2,
            s2,
            opt2,
        ));
    }
}

/// A link with no optional request skips its optional half.
pub proof fn lemma_phase_c_skip_opt(
    st: FeatureGraphBuildState,
    packages: Seq<PackageMetadata>,
    links: Seq<PackageLink>,
    e: int,
    nslots: int,
)
    requires
        0 <= e < links.len(),
        nslots == packages[links[e].to as int].n_features() + 1,
        forall|s2: int|
            0 <= s2 < nslots ==> !unified_nonempty(
                links[e],
                packages[links[e].to as int],
                #[trigger] key_of_slot(s2),
                true,
            ),
        st.edges_phase_c(packages, links, e, 1, 0),
    ensures
        st.edges_phase_c(packages, links, e, 1, nslots),
{
    assert forall|a: int, b: int|
        #[trigger] cdep_pair_upto(packages, links, e, 1, nslots, a, b) <==> cdep_pair_upto(
        packages,
        links,
        e,
        1,
        0,
        a,
        b,
    ) by {
        if cdep_pair_upto(packages, links, e, 1, nslots, a, b) {
            let (e2, s2, opt2) = choose|e2: int, s2: int, opt2: bool|
                #[trigger] cdep_witness(packages, links, e, 1, nslots, a, b, e2, s2, opt2);
            if e2 == e && opt2 {
                assert(!unified_nonempty(
                    links[e],
                    packages[links[e].to as int],
                    key_of_slot(s2),
                    true,
                ));
                assert(false);
            } else {
                assert(cdep_witness(packages, links, e, 1, 0, a, b, e2, s2, opt2));
            }
        }
        if cdep_pair_upto(packages, links, e, 1, 0, a, b) {
            let (e2, s2, opt2) = choose|e2: int, s2: int, opt2: bool|
                #[trigger] cdep_witness(packages, links, e, 1, 0, a, b, e2, s2, opt2);
            assert(cdep_witness(packages, links, e, 1, nslots, a, b, e2, s2, opt2));
        }
    }
    assert forall|e2: int, s2: int, opt2: bool|
        #[trigger] cdep_witness(
            packages,
            links,
            e,
            1,
            nslots,
            cdep_src(packages, links, e2, opt2),
            cdep_tgt(packages, links, e2, s2),
            e2,
            s2,
            opt2,
        ) implies dep_payload_ok(st.graph, packages, links, e2, s2, opt2) by {
        if e2 == e && opt2 {
            assert(!unified_nonempty(
                links[e],
                packages[links[e].to as int],
                key_of_slot(s2),
                true,
            ));
            assert(false);
        } else {
            assert(cdep_witness(
                packages,
                links,
                e,
                1,
                0,
                cdep_src(packages, links, e2, opt2),
                cdep_tgt(packages, links, e2, s2),
                e2,
                s2,
                opt2,
            ));
        }
    }
}

/// Finishing a link's halves rolls the state to the next link.
pub proof fn lemma_phase_c_roll_link(
    st: FeatureGraphBuildState,
    packages: Seq<PackageMetadata>,
    links: Seq<PackageLink>,
    e: int,
    nslots: int,
)
    requires
        0 <= e < links.len(),
        nslots == packages[links[e].to as int].n_features() + 1,
        st.edges_phase_c(packages, links, e, 1, nslots),
    ensures
        st.edges_phase_c(packages, links, e + 1, 0, 0),
{
    assert forall|a: int, b: int|
        #[trigger] cdep_pair_upto(packages, links, e + 1, 0, 0, a, b) <==> cdep_pair_upto(
        packages,
        links,
        e,
        1,
        nslots,
        a,
        b,
    ) by {
        if cdep_pair_upto(packages, links, e + 1, 0, 0, a, b) {
            let (e2, s2, opt2) = choose|e2: int, s2: int, opt2: bool|
                #[trigger] cdep_witness(packages, links, e + 1, 0, 0, a, b, e2, s2, opt2);
            assert(cdep_witness(packages, links, e, 1, nslots, a, b, e2, s2, opt2));
        }
        if cdep_pair_upto(packages, links, e, 1, nslots, a, b) {
            let (e2, s2, opt2) = choose|e2: int, s2: int, opt2: bool|
                #[trigger] cdep_witness(packages, links, e, 1, nslots, a, b, e2, s2, opt2);
            assert(cdep_witness(packages, links, e + 1, 0, 0, a, b, e2, s2, opt2));
        }
    }
    assert forall|e2: int, s2: int, opt2: bool|
        #[trigger] cdep_witness(
            packages,
            links,
            e + 1,
            0,
            0,
            cdep_src(packages, links, e2, opt2),
            cdep_tgt(packages, links, e2, s2),
            e2,
            s2,
            opt2,
        ) implies dep_payload_ok(st.graph, packages, links, e2, s2, opt2) by {
        assert(cdep_witness(
            packages,
            links,
            e,
            1,
            nslots,
            cdep_src(packages, links, e2, opt2),
            cdep_tgt(packages, links, e2, s2),
            e2,
            s2,
            opt2,
        ));
    }
}

/// The accumulator fields of a finished graph.
pub open spec fn state_of(fg: FeatureGraphImpl) -> FeatureGraphBuildState {
    FeatureGraphBuildState {
        graph: fg.graph,
        base_ixs: fg.base_ixs,
        nodes: fg.nodes,
        metas: fg.metas,
        warnings: fg.warnings,
    }
}

/// A finished feature graph describes its package graph exactly: full node
/// layout, exactly the edges of the three phases with their payloads, the
/// expected warnings in order, and components for its own graph.
pub open spec fn built_ok(
    fg: FeatureGraphImpl,
    packages: Seq<PackageMetadata>,
    links: Seq<PackageLink>,
) -> bool {
    &&& state_of(fg).layout_full(packages)
    &&& state_of(fg).edges_phase_c(packages, links, links.len() as int, 0, 0)
    &&& wviews(fg.warnings@) == expected_warnings(packages, links)
    &&& fg.sccs.wf(fg.graph)
}

/// Builds the feature graph of a package graph.
pub fn build_feature_graph(pg: &PackageGraph) -> (r: FeatureGraphImpl)
    requires
        pg.wf(),
    ensures
        built_ok(r, pg.packages@, pg.links@),
{
    let ghost packages = pg.packages@;
    let ghost links = pg.links@;
    let mut st = FeatureGraphBuildState::new();
    proof {
        assert(st.layout_upto(packages, 0));
        assert forall|a: int, b: int| !(#[trigger] st.graph.has_edge(a, b)) by {
            if st.graph.has_edge(a, b) {
                let e2 = st.graph.edge_index(a, b);
            }
        }
        assert forall|a: int, b: int| !ftb_pair(packages, 0, a, b) by {
            if ftb_pair(packages, 0, a, b) {
                let (p2, i2) = choose|p2: int, i2: int|
                    0 <= p2 < 0 && 0 <= i2 < packages[p2].n_features() && a == #[trigger] node_ix_of(
                        packages,
                        p2,
                        Option::Some(i2),
                    ) && b == node_ix_of(packages, p2, Option::None);
            }
        }
        assert(st.edges_phase_a(packages, 0));
    }
    let count = pg.package_count();
    let mut p: usize = 0;
    while p < count
        invariant
            pg.wf(),
            packages == pg.packages@,
            count == packages.len(),
            p <= count,
            st.layout_upto(packages, p as int),
            st.edges_phase_a(packages, p as int),
            st.warnings@.len() == 0,
            st.base_ixs@.len() == p,
        decreases count - p,
    {
        st.add_nodes(pg, p);
        p += 1;
    }
    st.end_nodes(pg);
    proof {
        // Phase A's edges are exactly what Phase B starts from.
        assert forall|a: int, b: int|
            #[trigger] st.graph.has_edge(a, b) <==> (ftb_pair(packages, packages.len() as int, a, b)
                || fdep_pair_upto(packages, links, 0, 0, 0, a, b)) by {
            if fdep_pair_upto(packages, links, 0, 0, 0, a, b) {
                let (p2, n2, t2) = choose|p2: int, n2: int, t2: int|
                    #[trigger] fdep_witness(packages, links, 0, 0, 0, a, b, p2, n2, t2);
            }
        }
        assert forall|a: int, b: int| #[trigger] fdep_pair_upto(packages, links, 0, 0, 0, a, b) implies
            st.graph.payload_of(a, b) is FeatureDependency by {
            let (p2, n2, t2) = choose|p2: int, n2: int, t2: int|
                #[trigger] fdep_witness(packages, links, 0, 0, 0, a, b, p2, n2, t2);
        }
        assert forall|a: int, b: int|
            ftb_pair(packages, packages.len() as int, a, b) implies #[trigger] st.graph.payload_of(
            a,
            b,
        ) is FeatureToBase || !st.graph.has_edge(a, b) by {}
        assert(st.edges_phase_b(packages, links, 0, 0, 0));
        assert(wviews(st.warnings@) =~= warns_named_phase(packages, links, 0));
    }
    p = 0;
    while p < count
        invariant
            pg.wf(),
            packages == pg.packages@,
            links == pg.links@,
            count == packages.len(),
            p <= count,
            st.layout_full(packages),
            st.edges_phase_b(packages, links, p as int, 0, 0),
            wviews(st.warnings@) == warns_named_phase(packages, links, p as int),
        decreases count - p,
    {
        st.add_named_feature_edges(pg, p);
        p += 1;
    }
    proof {
        lemma_phase_bc_bridge(st, packages, links);
        assert(wviews(st.warnings@) =~= warns_named_phase(packages, links, packages.len() as int)
            + warns_dep_phase(packages, links, 0));
    }
    let nlinks = pg.links.len();
    let mut e: usize = 0;
    while e < nlinks
        invariant
            pg.wf(),
            packages == pg.packages@,
            links == pg.links@,
            nlinks == links.len(),
            e <= nlinks,
            st.layout_full(packages),
            st.edges_phase_c(packages, links, e as int, 0, 0),
            wviews(st.warnings@) == warns_named_phase(packages, links, packages.len() as int)
                + warns_dep_phase(packages, links, e as int),
        decreases nlinks - e,
    {
        st.add_dependency_edges(pg, e);
        e += 1;
    }
    let sccs = Sccs::new(&st.graph);
    let fg = FeatureGraphImpl {
        graph: st.graph,
        base_ixs: st.base_ixs,
        nodes: st.nodes,
        metas: st.metas,
        warnings: st.warnings,
        sccs,
    };
    proof {
        assert(state_of(fg).layout_full(packages));
        assert(state_of(fg).edges_phase_c(packages, links, links.len() as int, 0, 0));
    }
    fg
}

/// After Phase B, no cross-package pair has been emitted yet.
pub proof fn lemma_phase_bc_bridge(
    st: FeatureGraphBuildState,
    packages: Seq<PackageMetadata>,
    links: Seq<PackageLink>,
)
    requires
        st.edges_phase_b(packages, links, packages.len() as int, 0, 0),
    ensures
        st.edges_phase_c(packages, links, 0, 0, 0),
{
    assert forall|a: int, b: int| !(#[trigger] cdep_pair_upto(packages, links, 0, 0, 0, a, b)) by {
        if cdep_pair_upto(packages, links, 0, 0, 0, a, b) {
            let (e2, s2, opt2) = choose|e2: int, s2: int, opt2: bool|
                #[trigger] cdep_witness(packages, links, 0, 0, 0, a, b, e2, s2, opt2);
        }
    }
    assert forall|a: int, b: int|
        #[trigger] fdep_pair_upto(packages, links, packages.len() as int, 0, 0, a, b)
            <==> fdep_pair(packages, links, a, b) by {}
    assert forall|a: int, b: int|
        #[trigger] st.graph.has_edge(a, b) <==> (ftb_pair(packages, packages.len() as int, a, b)
            || fdep_pair(packages, links, a, b) || cdep_pair_upto(
            packages,
            links,
            0,
            0,
            0,
            a,
            b,
        )) by {}
}

/// Node counts stay within the machine word throughout the build.
pub proof fn lemma_total_bounds(packages: Seq<PackageMetadata>, p: int)
    requires
        0 <= p < packages.len(),
        total_nodes(packages) * total_nodes(packages) < usize::MAX,
    ensures
        base_ix_of(packages, p + 1) <= total_nodes(packages),
        0 <= base_ix_of(packages, p),
        total_nodes(packages) <= usize::MAX,
{
    lemma_base_ix_monotone(packages, p + 1, packages.len() as int);
    lemma_base_ix_monotone(packages, 0, p);
    let t = total_nodes(packages);
    lemma_base_ix_monotone(packages, 0, packages.len() as int);
    assert(t <= usize::MAX) by (nonlinear_arith)
        requires
            t * t <= usize::MAX,
            0 <= t,
    ;
}

/// Distinct valid coordinates get distinct node indices.
pub proof fn lemma_node_ix_inj(
    packages: Seq<PackageMetadata>,
    p1: int,
    f1: Option<int>,
    p2: int,
    f2: Option<int>,
)
    requires
        0 <= p1 < packages.len(),
        0 <= p2 < packages.len(),
        match f1 {
            Option::None => true,
            Option::Some(i) => 0 <= i < packages[p1].n_features(),
        },
        match f2 {
            Option::None => true,
            Option::Some(i) => 0 <= i < packages[p2].n_features(),
        },
        node_ix_of(packages, p1, f1) == node_ix_of(packages, p2, f2),
    ensures
        p1 == p2,
        f1 == f2,
{
    lemma_node_ix_range(packages, p1, f1);
    lemma_node_ix_range(packages, p2, f2);
    if p1 < p2 {
        lemma_base_ix_monotone(packages, p1 + 1, p2);
        assert(false);
    }
    if p2 < p1 {
        lemma_base_ix_monotone(packages, p2 + 1, p1);
        assert(false);
    }
}

/// `(a, b)` is a feature-dependency pair contributed by a token that the
/// build has already processed: a package before `p`, or feature before `n`
/// of package `p`, or token before `t` of feature `n`.
pub open spec fn fdep_witness(
    packages: Seq<PackageMetadata>,
    links: Seq<PackageLink>,
    p: int,
    n: int,
    t: int,
    a: int,
    b: int,
    p2: int,
    n2: int,
    t2: int,
) -> bool {
    let token = packages[p2].features@[n2].feature_deps@[t2]@;
    &&& 0 <= p2 < packages.len()
    &&& 0 <= n2 < packages[p2].named_feature_count
    &&& 0 <= t2 < packages[p2].features@[n2].feature_deps@.len()
    &&& p2 < p || (p2 == p && (n2 < n || (n2 == n && t2 < t)))
    &&& token_target(packages, links, p2, token) is Some
    &&& a == node_ix_of(packages, p2, Option::Some(n2))
    &&& b == node_ix_of(
        packages,
        (token_target(packages, links, p2, token) -> Some_0).0,
        Option::Some((token_target(packages, links, p2, token) -> Some_0).1),
    )
}

pub open spec fn fdep_pair_upto(
    packages: Seq<PackageMetadata>,
    links: Seq<PackageLink>,
    p: int,
    n: int,
    t: int,
    a: int,
    b: int,
) -> bool {
    exists|p2: int, n2: int, t2: int|
        #[trigger] fdep_witness(packages, links, p, n, t, a, b, p2, n2, t2)
}

/// Every feature-dependency pair, once all tokens are processed.
pub open spec fn fdep_pair(
    packages: Seq<PackageMetadata>,
    links: Seq<PackageLink>,
    a: int,
    b: int,
) -> bool {
    fdep_pair_upto(packages, links, packages.len() as int, 0, 0, a, b)
}


/// The key of a state slot: slot `0` is the destination's base, slot
/// `1 + j` its feature `j`.
pub open spec fn key_of_slot(s: int) -> Option<int> {
    if s == 0 {
        Option::None
    } else {
        Option::Some(s - 1)
    }
}

/// The source node of a link's optional edges: the depending package's
/// pseudo-feature named after the dependency.
pub open spec fn opt_src(packages: Seq<PackageMetadata>, links: Seq<PackageLink>, e: int) -> int {
    node_ix_of(
        packages,
        links[e].from as int,
        Option::Some(packages[links[e].from as int].feature_idx(links[e].dep_name@)),
    )
}

/// `(a, b)` is the cross-package pair that link `e2` contributes at slot
/// `s2` on its required (`opt2 == false`) or optional half, and that pair is
/// emitted strictly before position `(e, half, s)` in link, half, slot
/// order.
pub open spec fn cdep_witness(
    packages: Seq<PackageMetadata>,
    links: Seq<PackageLink>,
    e: int,
    half: int,
    s: int,
    a: int,
    b: int,
    e2: int,
    s2: int,
    opt2: bool,
) -> bool {
    let to = packages[links[e2].to as int];
    let h2: int = if opt2 {
        1
    } else {
        0
    };
    &&& 0 <= e2 < links.len()
    &&& 0 <= s2 <= to.n_features()
    &&& e2 < e || (e2 == e && (h2 < half || (h2 == half && s2 < s)))
    &&& unified_nonempty(links[e2], to, key_of_slot(s2), opt2)
    &&& a == if opt2 {
        opt_src(packages, links, e2)
    } else {
        node_ix_of(packages, links[e2].from as int, Option::None)
    }
    &&& b == node_ix_of(packages, links[e2].to as int, key_of_slot(s2))
}

/// A cross-package pair emitted strictly before position `(e, half, s)`.
pub open spec fn cdep_pair_upto(
    packages: Seq<PackageMetadata>,
    links: Seq<PackageLink>,
    e: int,
    half: int,
    s: int,
    a: int,
    b: int,
) -> bool {
    exists|e2: int, s2: int, opt2: bool|
        #[trigger] cdep_witness(packages, links, e, half, s, a, b, e2, s2, opt2)
}

/// Every cross-package pair, once all links are processed.
pub open spec fn cdep_pair(
    packages: Seq<PackageMetadata>,
    links: Seq<PackageLink>,
    a: int,
    b: int,
) -> bool {
    cdep_pair_upto(packages, links, links.len() as int, 0, 0, a, b)
}

/// The accumulated platform state of one destination slot.
pub struct DependencyBuildState {
    pub normal: PlatformStatus,
    pub build: PlatformStatus,
    pub dev: PlatformStatus,
}

impl DependencyBuildState {
    /// All three predicates are never.
    pub open spec fn spec_is_empty(self) -> bool {
        self.normal@.is_never() && self.build@.is_never() && self.dev@.is_never()
    }

    /// A state with nothing recorded.
    pub fn new_empty() -> (r: Self)
        ensures
            r.normal@ == PlatView::Never,
            r.build@ == PlatView::Never,
            r.dev@ == PlatView::Never,
    {
        DependencyBuildState {
            normal: PlatformStatus::Never,
            build: PlatformStatus::Never,
            dev: PlatformStatus::Never,
        }
    }

    /// Whether every predicate is never.
    pub fn is_empty(&self) -> (r: bool)
        ensures
            r == self.spec_is_empty(),
    {
        self.normal.is_never() && self.build.is_never() && self.dev.is_never()
    }
}

/// The source node of link `e`'s pairs on one half.
pub open spec fn cdep_src(
    packages: Seq<PackageMetadata>,
    links: Seq<PackageLink>,
    e: int,
    opt: bool,
) -> int {
    if opt {
        opt_src(packages, links, e)
    } else {
        node_ix_of(packages, links[e].from as int, Option::None)
    }
}

/// The target node of link `e`'s pair at slot `s`.
pub open spec fn cdep_tgt(packages: Seq<PackageMetadata>, links: Seq<PackageLink>, e: int, s: int) -> int {
    node_ix_of(packages, links[e].to as int, key_of_slot(s))
}

/// The stored payload for link `e2` at slot `s2` is a dependency edge
/// carrying exactly the unified predicates.
pub open spec fn dep_payload_ok(
    g: DiGraph<FeatureEdge>,
    packages: Seq<PackageMetadata>,
    links: Seq<PackageLink>,
    e2: int,
    s2: int,
    opt2: bool,
) -> bool {
    let to = packages[links[e2].to as int];
    let k = key_of_slot(s2);
    match g.payload_of(cdep_src(packages, links, e2, opt2), cdep_tgt(packages, links, e2, s2)) {
        FeatureEdge::Dependency { normal, build, dev } => {
            &&& normal@ == unified_normal(links[e2], to, k, opt2)
            &&& build@ == unified_build(links[e2], to, k, opt2)
            &&& dev@ == unified_dev(links[e2], to, k, opt2)
        },
        _ => false,
    }
}

/// The chosen sub-request of a link.
pub open spec fn sub_of(link: PackageLink, kind: DependencyKind, opt: bool) -> DepRequiredOrOptional {
    match kind {
        DependencyKind::Normal => if opt {
            link.normal.optional
        } else {
            link.normal.required
        },
        DependencyKind::Build => if opt {
            link.build.optional
        } else {
            link.build.required
        },
        DependencyKind::Development => if opt {
            link.dev.optional
        } else {
            link.dev.required
        },
    }
}

/// A nonempty optional request means some optional predicate is not never.
pub proof fn lemma_nonempty_has_optional(link: PackageLink, to: PackageMetadata, k: Option<int>)
    requires
        unified_nonempty(link, to, k, true),
    ensures
        link.has_optional(),
{
    if !link.has_optional() {
        lemma_sub_status_never(link.normal.optional, to, k);
        lemma_sub_status_never(link.build.optional, to, k);
        lemma_sub_status_never(link.dev.optional, to, k);
    }
}

/// An all-never sub-request contributes a never predicate to every key.
pub proof fn lemma_sub_status_never(sub: DepRequiredOrOptional, to: PackageMetadata, k: Option<int>)
    requires
        sub.all_never(),
    ensures
        sub_status(sub, to, k).is_never(),
{
    lemma_target_contrib_never(sub, to, k, sub.feature_targets@.len() as int);
}

proof fn lemma_target_contrib_never(
    sub: DepRequiredOrOptional,
    to: PackageMetadata,
    k: Option<int>,
    t: int,
)
    requires
        sub.all_never(),
        t <= sub.feature_targets@.len(),
    ensures
        target_contrib(to, sub.feature_targets@, k, t).is_never(),
    decreases t,
{
    if t > 0 {
        lemma_target_contrib_never(sub, to, k, t - 1);
        assert(sub.feature_targets@[t - 1].1@.is_never());
    }
}

/// The single warning a token contributes, if it warns.
pub open spec fn warns_token_one(
    packages: Seq<PackageMetadata>,
    links: Seq<PackageLink>,
    p: int,
    n: int,
    t: int,
) -> Seq<WarningView> {
    let token = packages[p].features@[n].feature_deps@[t]@;
    if token_warns(packages, links, p, token) {
        seq![
            WarningView {
                from_dependency: false,
                stage_package_id: packages[p].id@,
                stage_detail: packages[p].feature_name(n),
                package_id: packages[token_warn_pkg(packages, links, p, token)].id@,
                feature_name: token_feat(token),
            },
        ]
    } else {
        Seq::empty()
    }
}

/// One unfolding of the per-token warning accumulator.
pub proof fn lemma_warns_tokens_step(
    packages: Seq<PackageMetadata>,
    links: Seq<PackageLink>,
    p: int,
    n: int,
    t: int,
)
    requires
        t >= 0,
    ensures
        warns_tokens(packages, links, p, n, t + 1) == warns_tokens(packages, links, p, n, t)
            + warns_token_one(packages, links, p, n, t),
{
}

/// Feature-dependency pairs only grow as more tokens are processed.
pub proof fn lemma_fdep_mono(
    packages: Seq<PackageMetadata>,
    links: Seq<PackageLink>,
    p: int,
    n: int,
    t1: int,
    t2: int,
    x: int,
    y: int,
)
    requires
        t1 <= t2,
        fdep_pair_upto(packages, links, p, n, t1, x, y),
    ensures
        fdep_pair_upto(packages, links, p, n, t2, x, y),
{
    let (p2, n2, t3) = choose|p2: int, n2: int, t3: int|
        #[trigger] fdep_witness(packages, links, p, n, t1, x, y, p2, n2, t3);
    assert(fdep_witness(packages, links, p, n, t2, x, y, p2, n2, t3));
}

/// A token that resolves to nothing adds no pair.
pub proof fn lemma_phase_b_no_edge(
    st: FeatureGraphBuildState,
    packages: Seq<PackageMetadata>,
    links: Seq<PackageLink>,
    p: int,
    n: int,
    t: int,
)
    requires
        0 <= p < packages.len(),
        0 <= n,
        0 <= t,
        token_target(packages, links, p, packages[p].features@[n].feature_deps@[t]@) is None,
        st.edges_phase_b(packages, links, p, n, t),
    ensures
        st.edges_phase_b(packages, links, p, n, t + 1),
{
    assert forall|x: int, y: int|
        #[trigger] fdep_pair_upto(packages, links, p, n, t + 1, x, y) implies fdep_pair_upto(
        packages,
        links,
        p,
        n,
        t,
        x,
        y,
    ) by {
        let (p2, n2, t2) = choose|p2: int, n2: int, t2: int|
            #[trigger] fdep_witness(packages, links, p, n, t + 1, x, y, p2, n2, t2);
        if p2 == p && n2 == n && t2 == t {
            assert(false);
        } else {
            assert(fdep_witness(packages, links, p, n, t, x, y, p2, n2, t2));
        }
    }
    assert forall|x: int, y: int|
        #[trigger] st.graph.has_edge(x, y) <==> (ftb_pair(packages, packages.len() as int, x, y)
            || fdep_pair_upto(packages, links, p, n, t + 1, x, y)) by {
        if st.graph.has_edge(x, y) {
            if fdep_pair_upto(packages, links, p, n, t, x, y) {
                lemma_fdep_mono(packages, links, p, n, t, t + 1, x, y);
            }
        }
    }
}

/// Finishing a feature's tokens rolls the state to the next feature.
pub proof fn lemma_phase_b_roll_feature(
    st: FeatureGraphBuildState,
    packages: Seq<PackageMetadata>,
    links: Seq<PackageLink>,
    p: int,
    n: int,
)
    requires
        0 <= p < packages.len(),
        0 <= n,
        st.edges_phase_b(
            packages,
            links,
            p,
            n,
            packages[p].features@[n].feature_deps@.len() as int,
        ),
    ensures
        st.edges_phase_b(packages, links, p, n + 1, 0),
{
    let full = packages[p].features@[n].feature_deps@.len() as int;
    assert forall|x: int, y: int|
        #[trigger] fdep_pair_upto(packages, links, p, n + 1, 0, x, y) <==> fdep_pair_upto(
        packages,
        links,
        p,
        n,
        full,
        x,
        y,
    ) by {
        if fdep_pair_upto(packages, links, p, n + 1, 0, x, y) {
            let (p2, n2, t2) = choose|p2: int, n2: int, t2: int|
                #[trigger] fdep_witness(packages, links, p, n + 1, 0, x, y, p2, n2, t2);
            assert(fdep_witness(packages, links, p, n, full, x, y, p2, n2, t2));
        }
        if fdep_pair_upto(packages, links, p, n, full, x, y) {
            let (p2, n2, t2) = choose|p2: int, n2: int, t2: int|
                #[trigger] fdep_witness(packages, links, p, n, full, x, y, p2, n2, t2);
            assert(fdep_witness(packages, links, p, n + 1, 0, x, y, p2, n2, t2));
        }
    }
}

/// Finishing a package's features rolls the state to the next package.
pub proof fn lemma_phase_b_roll_package(
    st: FeatureGraphBuildState,
    packages: Seq<PackageMetadata>,
    links: Seq<PackageLink>,
    p: int,
)
    requires
        0 <= p < packages.len(),
        st.edges_phase_b(packages, links, p, packages[p].named_feature_count as int, 0),
    ensures
        st.edges_phase_b(packages, links, p + 1, 0, 0),
{
    let named = packages[p].named_feature_count as int;
    assert forall|x: int, y: int|
        #[trigger] fdep_pair_upto(packages, links, p + 1, 0, 0, x, y) <==> fdep_pair_upto(
        packages,
        links,
        p,
        named,
        0,
        x,
        y,
    ) by {
        if fdep_pair_upto(packages, links, p + 1, 0, 0, x, y) {
            let (p2, n2, t2) = choose|p2: int, n2: int, t2: int|
                #[trigger] fdep_witness(packages, links, p + 1, 0, 0, x, y, p2, n2, t2);
            assert(fdep_witness(packages, links, p, named, 0, x, y, p2, n2, t2));
        }
        if fdep_pair_upto(packages, links, p, named, 0, x, y) {
            let (p2, n2, t2) = choose|p2: int, n2: int, t2: int|
                #[trigger] fdep_witness(packages, links, p, named, 0, x, y, p2, n2, t2);
            assert(fdep_witness(packages, links, p + 1, 0, 0, x, y, p2, n2, t2));
        }
    }
}

/// Earlier packages' base indices lie strictly below later ones.
pub proof fn lemma_base_ix_strict(packages: Seq<PackageMetadata>, q: int, p: int)
    requires
        0 <= q < p,
    ensures
        base_ix_of(packages, q) < base_ix_of(packages, p),
{
    lemma_base_ix_monotone(packages, q + 1, p);
}

/// Completing a package's nodes completes its layout step.
proof fn lemma_layout_step(st: FeatureGraphBuildState, packages: Seq<PackageMetadata>, p: int)
    requires
        0 <= p < packages.len(),
        st.layout_mid(packages, p, packages[p].n_features() as int),
        st.base_ixs@.len() == p + 1,
        forall|q: int| 0 <= q <= p ==> st.base_ixs@[q] == #[trigger] base_ix_of(packages, q),
    ensures
        st.layout_upto(packages, p + 1),
{
}

} // verus!

