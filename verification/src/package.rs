//! The package graph: the input the feature graph is derived from.
//!
//! A package declares an ordered feature space: its named features first,
//! then one pseudo-feature per optional dependency, sharing one index range.
//! A link records, for each of the three dependency kinds, a required and an
//! optional sub-request of platform predicates. The graph itself is stored
//! as an index-based arena whose edge payloads are link indices.

use vstd::prelude::*;
use crate::digraph::DiGraph;
use crate::feature_graph::{base_ix_of, total_nodes};
use crate::platform::PlatformStatus;
use crate::scc::Sccs;
use crate::strutil::str_eq;

verus! {

/// A stable identifier of a package.
#[derive(Debug)]
pub struct PackageId {
    pub name: String,
}

impl View for PackageId {
    type V = Seq<char>;

    open spec fn view(&self) -> Seq<char> {
        self.name@
    }
}

impl PackageId {
    /// A new identifier with the given text.
    pub fn new(name: String) -> (r: Self)
        ensures
            r@ == name@,
    {
        PackageId { name }
    }

    /// The identifier's text.
    pub fn as_str(&self) -> (r: &str)
        ensures
            r@ == self@,
    {
        self.name.as_str()
    }

    /// A copy with the same text.
    pub fn dup(&self) -> (r: Self)
        ensures
            r@ == self@,
    {
        PackageId { name: self.name.clone() }
    }
}

impl PartialEq for PackageId {
    fn eq(&self, other: &PackageId) -> (r: bool) {
        self.name == other.name
    }
}

impl vstd::std_specs::cmp::PartialEqSpecImpl for PackageId {
    open spec fn obeys_eq_spec() -> bool {
        true
    }

    open spec fn eq_spec(&self, other: &PackageId) -> bool {
        self.name@ == other.name@
    }
}

impl Eq for PackageId {

}

/// One feature of a package: its name and, for a named feature, the raw
/// tokens of the features it enables. Optional-dependency pseudo-features
/// carry no tokens.
#[derive(Debug)]
pub struct FeatureDef {
    pub name: String,
    pub feature_deps: Vec<String>,
}

/// A package: an identifier and its feature space.
#[derive(Debug)]
pub struct PackageMetadata {
    pub id: PackageId,
    pub features: Vec<FeatureDef>,
    pub named_feature_count: usize,
}

impl PackageMetadata {
    /// Number of features, the base excluded.
    pub open spec fn n_features(self) -> nat {
        self.features@.len()
    }

    /// The name of feature `i`.
    pub open spec fn feature_name(self, i: int) -> Seq<char> {
        self.features@[i].name@
    }

    /// Feature names are unique, the named features come first, and
    /// optional-dependency pseudo-features carry no tokens.
    pub open spec fn wf(self) -> bool {
        &&& self.named_feature_count <= self.features@.len()
        &&& forall|i: int, j: int|
            0 <= i < j < self.features@.len() ==> self.feature_name(i) != self.feature_name(j)
        &&& forall|i: int|
            self.named_feature_count <= i < self.features@.len() ==> (
            #[trigger] self.features@[i]).feature_deps@.len() == 0
    }

    /// Some feature bears this name.
    pub open spec fn has_feature(self, name: Seq<char>) -> bool {
        exists|i: int| 0 <= i < self.features@.len() && self.feature_name(i) == name
    }

    /// The index of the feature with this name.
    pub open spec fn feature_idx(self, name: Seq<char>) -> int {
        choose|i: int| 0 <= i < self.features@.len() && self.feature_name(i) == name
    }

    /// Looks a feature up by name.
    pub fn get_feature_idx(&self, name: &str) -> (r: Option<usize>)
        requires
            self.wf(),
        ensures
            match r {
                Some(i) => self.has_feature(name@) && i == self.feature_idx(name@) && i
                    < self.n_features(),
                None => !self.has_feature(name@),
            },
    {
        let mut i: usize = 0;
        while i < self.features.len()
            invariant
                self.wf(),
                i <= self.features@.len(),
                forall|j: int| 0 <= j < i ==> self.feature_name(j) != name@,
            decreases self.features@.len() - i,
        {
            if str_eq(self.features[i].name.as_str(), name) {
                proof {
                    assert(self.feature_name(i as int) == name@);
                    assert(self.has_feature(name@));
                    let w = self.feature_idx(name@);
                    if w != i {
                        assert(self.feature_name(w) != self.feature_name(i as int));
                    }
                }
                return Some(i);
            }
            i += 1;
        }
        None
    }

    /// The name of feature `idx`, if it exists.
    pub fn feature_idx_to_name(&self, idx: usize) -> (r: Option<&str>)
        ensures
            match r {
                Some(s) => idx < self.n_features() && s@ == self.feature_name(idx as int),
                None => idx >= self.n_features(),
            },
    {
        if idx < self.features.len() {
            Some(self.features[idx].name.as_str())
        } else {
            None
        }
    }

    /// Whether the package declares a feature named `default`, and where.
    pub fn default_feature_idx(&self) -> (r: Option<usize>)
        requires
            self.wf(),
        ensures
            match r {
                Some(i) => self.has_feature("default"@) && i == self.feature_idx("default"@),
                None => !self.has_feature("default"@),
            },
    {
        self.get_feature_idx("default")
    }
}

/// One sub-request of a dependency declaration: the predicate under which
/// the dependency is pulled in at all, the predicate under which its default
/// feature is enabled, and predicates per requested feature name.
#[derive(Debug)]
pub struct DepRequiredOrOptional {
    pub build_if: PlatformStatus,
    pub default_features_if: PlatformStatus,
    pub feature_targets: Vec<(String, PlatformStatus)>,
}

impl DepRequiredOrOptional {
    /// Every predicate in this sub-request is never.
    pub open spec fn all_never(self) -> bool {
        &&& self.build_if@.is_never()
        &&& self.default_features_if@.is_never()
        &&& forall|i: int|
            0 <= i < self.feature_targets@.len() ==> (
            #[trigger] self.feature_targets@[i]).1@.is_never()
    }

    /// A sub-request asking for nothing.
    pub fn new_empty() -> (r: Self)
        ensures
            r.all_never(),
    {
        DepRequiredOrOptional {
            build_if: PlatformStatus::Never,
            default_features_if: PlatformStatus::Never,
            feature_targets: Vec::new(),
        }
    }
}

/// The required and optional halves of one dependency kind.
#[derive(Debug)]
pub struct DependencyReq {
    pub required: DepRequiredOrOptional,
    pub optional: DepRequiredOrOptional,
}

impl DependencyReq {
    /// A kind that asks for nothing.
    pub fn new_empty() -> (r: Self)
        ensures
            r.required.all_never(),
            r.optional.all_never(),
    {
        DependencyReq {
            required: DepRequiredOrOptional::new_empty(),
            optional: DepRequiredOrOptional::new_empty(),
        }
    }
}

/// A package-level dependency edge with its three kinds.
#[derive(Debug)]
pub struct PackageLink {
    pub from: usize,
    pub to: usize,
    pub dep_name: String,
    pub normal: DependencyReq,
    pub build: DependencyReq,
    pub dev: DependencyReq,
}

impl PackageLink {
    /// Some optional sub-request mentions a predicate that is not never.
    pub open spec fn has_optional(self) -> bool {
        !(self.normal.optional.all_never() && self.build.optional.all_never()
            && self.dev.optional.all_never())
    }
}

/// Validity of raw package and link data.
pub open spec fn input_wf(packages: Seq<PackageMetadata>, links: Seq<PackageLink>) -> bool {
    &&& forall|p: int| 0 <= p < packages.len() ==> (#[trigger] packages[p]).wf()
    &&& forall|p: int, q: int| 0 <= p < q < packages.len() ==> packages[p].id@ != packages[q].id@
    &&& forall|e: int|
        0 <= e < links.len() ==> {
            &&& (#[trigger] links[e]).from < packages.len()
            &&& links[e].to < packages.len()
            &&& links[e].from != links[e].to
        }
    &&& forall|e1: int, e2: int|
        0 <= e1 < e2 < links.len() ==> !((#[trigger] links[e1]).from == (
        #[trigger] links[e2]).from && links[e1].to == links[e2].to)
    &&& forall|e: int|
        0 <= e < links.len() && (#[trigger] links[e]).has_optional() ==> {
            &&& packages[links[e].from as int].has_feature(links[e].dep_name@)
            &&& packages[links[e].from as int].feature_idx(links[e].dep_name@)
                >= packages[links[e].from as int].named_feature_count
        }
    &&& total_nodes(packages) * total_nodes(packages) < usize::MAX
}

/// A package dependency graph, frozen after construction.
pub struct PackageGraph {
    pub packages: Vec<PackageMetadata>,
    pub links: Vec<PackageLink>,
    pub graph: DiGraph<usize>,
    pub sccs: Sccs,
}

impl PackageGraph {
    /// The stored arena mirrors the link list exactly, over valid input.
    pub open spec fn wf(self) -> bool {
        &&& input_wf(self.packages@, self.links@)
        &&& self.graph.wf()
        &&& self.sccs.wf(self.graph)
        &&& self.graph.node_count == self.packages@.len()
        &&& self.graph.edges@.len() == self.links@.len()
        &&& forall|e: int|
            0 <= e < self.links@.len() ==> {
                &&& (#[trigger] self.graph.edges@[e]).from == self.links@[e].from
                &&& self.graph.edges@[e].to == self.links@[e].to
                &&& self.graph.edges@[e].payload == e
            }
    }

    /// Number of packages.
    pub fn package_count(&self) -> (r: usize)
        ensures
            r == self.packages@.len(),
    {
        self.packages.len()
    }

    /// Builds a package graph after validating the input: packages must be
    /// well-formed with distinct identifiers; links must join distinct
    /// in-range packages, one link per ordered pair; and a link with any
    /// optional part must have its dependency name among the depending
    /// package's features.
    pub fn new(packages: Vec<PackageMetadata>, links: Vec<PackageLink>) -> (r: Option<
        PackageGraph,
    >)
        ensures
            (r is Some) == input_wf(packages@, links@),
            r matches Some(g) ==> g.wf() && g.packages@ == packages@ && g.links@ == links@,
    {
        // Validate the packages.
        let mut p: usize = 0;
        while p < packages.len()
            invariant
                p <= packages@.len(),
                forall|k: int| 0 <= k < p ==> (#[trigger] packages@[k]).wf(),
            decreases packages@.len() - p,
        {
            if !check_package_wf(&packages[p]) {
                return None;
            }
            p += 1;
        }
        // Distinct identifiers.
        p = 0;
        while p < packages.len()
            invariant
                p <= packages@.len(),
                forall|a: int, b: int|
                    0 <= a < b < packages@.len() && a < p ==> packages@[a].id@
                        != packages@[b].id@,
            decreases packages@.len() - p,
        {
            let mut q: usize = p + 1;
            while q < packages.len()
                invariant
                    p < q,
                    q <= packages@.len(),
                    p < packages@.len(),
                    forall|b: int| p < b < q ==> packages@[p as int].id@ != packages@[b].id@,
                decreases packages@.len() - q,
            {
                if str_eq(packages[p].id.as_str(), packages[q].id.as_str()) {
                    proof {
                        assert(packages@[p as int].id@ == packages@[q as int].id@);
                    }
                    return None;
                }
                q += 1;
            }
            p += 1;
        }
        // The feature space must fit comfortably in the machine word.
        let mut total: usize = 0;
        p = 0;
        while p < packages.len()
            invariant
                p <= packages@.len(),
                total == base_ix_of(packages@, p as int),
            decreases packages@.len() - p,
        {
            let grown = match total.checked_add(1) {
                Some(t) => t,
                None => {
                    proof {
                        lemma_total_overflow(packages@, p as int);
                    }
                    return None;
                },
            };
            let grown = match grown.checked_add(packages[p].features.len()) {
                Some(t) => t,
                None => {
                    proof {
                        lemma_total_overflow(packages@, p as int);
                    }
                    return None;
                },
            };
            total = grown;
            p += 1;
        }
        match total.checked_mul(total) {
            None => {
                return None;
            },
            Some(sq) => {
                if sq == usize::MAX {
                    return None;
                }
            },
        }
        // Validate the links and build the arena.
        let n = packages.len();
        let mut graph: DiGraph<usize> = DiGraph::new();
        let mut v: usize = 0;
        while v < n
            invariant
                v <= n,
                graph.wf(),
                graph.node_count == v,
                graph.edges@.len() == 0,
            decreases n - v,
        {
            graph.add_node();
            v += 1;
        }
        let mut e: usize = 0;
        while e < links.len()
            invariant
                n == packages@.len(),
                forall|k: int| 0 <= k < packages@.len() ==> (#[trigger] packages@[k]).wf(),
                e <= links@.len(),
                graph.wf(),
                graph.node_count == n,
                graph.edges@.len() == e,
                forall|k: int|
                    0 <= k < e ==> {
                        &&& (#[trigger] graph.edges@[k]).from == links@[k].from
                        &&& graph.edges@[k].to == links@[k].to
                        &&& graph.edges@[k].payload == k
                    },
                forall|k: int|
                    0 <= k < e ==> {
                        &&& (#[trigger] links@[k]).from < n
                        &&& links@[k].to < n
                        &&& links@[k].from != links@[k].to
                    },
                forall|k1: int, k2: int|
                    0 <= k1 < k2 < e ==> !((#[trigger] links@[k1]).from == (
                    #[trigger] links@[k2]).from && links@[k1].to == links@[k2].to),
                forall|k: int|
                    0 <= k < e && (#[trigger] links@[k]).has_optional() ==> {
                        &&& packages@[links@[k].from as int].has_feature(links@[k].dep_name@)
                        &&& packages@[links@[k].from as int].feature_idx(links@[k].dep_name@)
                            >= packages@[links@[k].from as int].named_feature_count
                    },
                total == total_nodes(packages@),
                total * total <= usize::MAX,
            decreases links@.len() - e,
        {
            let link = &links[e];
            if link.from >= n || link.to >= n || link.from == link.to {
                return None;
            }
            if graph.contains_edge(link.from, link.to) {
                proof {
                    let k = graph.edge_index(link.from as int, link.to as int);
                    assert(graph.edges@[k].from == links@[k].from);
                }
                return None;
            }
            if link_has_optional(link) {
                match packages[link.from].get_feature_idx(link.dep_name.as_str()) {
                    None => {
                        return None;
                    },
                    Some(ix) => {
                        if ix < packages[link.from].named_feature_count {
                            return None;
                        }
                    },
                }
            }
            let ghost pre = graph;
            graph.update_edge(link.from, link.to, e);
            proof {
                assert forall|k: int| 0 <= k < e + 1 implies {
                    &&& (#[trigger] graph.edges@[k]).from == links@[k].from
                    &&& graph.edges@[k].to == links@[k].to
                    &&& graph.edges@[k].payload == k
                } by {
                    if k < e {
                        assert(graph.edges@[k] == pre.edges@[k]);
                    }
                }
                assert forall|k1: int, k2: int| 0 <= k1 < k2 < e + 1 implies !((
                #[trigger] links@[k1]).from == (#[trigger] links@[k2]).from && links@[k1].to
                    == links@[k2].to) by {
                    if k2 == e as int && links@[k1].from == links@[k2].from && links@[k1].to
                        == links@[k2].to {
                        assert(pre.edges@[k1].from == links@[e as int].from);
                        assert(pre.has_edge(links@[e as int].from as int, links@[e as int].to as int));
                    }
                }
            }
            e += 1;
        }
        let sccs = Sccs::new(&graph);
        Some(PackageGraph { packages, links, graph, sccs })
    }

    /// The package with this identifier, if any.
    pub fn metadata(&self, id: &PackageId) -> (r: Option<&PackageMetadata>)
        requires
            self.wf(),
        ensures
            match r {
                Some(m) => self.has_package(id@) && *m == self.packages@[self.package_ix_of(id@)],
                None => !self.has_package(id@),
            },
    {
        match self.package_ix(id) {
            Some(p) => Some(&self.packages[p]),
            None => None,
        }
    }

    /// Some package bears this identifier.
    pub open spec fn has_package(self, id: Seq<char>) -> bool {
        exists|p: int| 0 <= p < self.packages@.len() && (#[trigger] self.packages@[p]).id@ == id
    }

    /// The index of the package with this identifier.
    pub open spec fn package_ix_of(self, id: Seq<char>) -> int {
        choose|p: int| 0 <= p < self.packages@.len() && (#[trigger] self.packages@[p]).id@ == id
    }

    /// Looks a package up by identifier.
    pub fn package_ix(&self, id: &PackageId) -> (r: Option<usize>)
        requires
            self.wf(),
        ensures
            match r {
                Some(p) => self.has_package(id@) && p == self.package_ix_of(id@) && p
                    < self.packages@.len(),
                None => !self.has_package(id@),
            },
    {
        let mut p: usize = 0;
        while p < self.packages.len()
            invariant
                self.wf(),
                p <= self.packages@.len(),
                forall|k: int| 0 <= k < p ==> (#[trigger] self.packages@[k]).id@ != id@,
            decreases self.packages@.len() - p,
        {
            if str_eq(self.packages[p].id.as_str(), id.as_str()) {
                proof {
                    assert(self.packages@[p as int].id@ == id@);
                    assert(self.has_package(id@));
                    let w = self.package_ix_of(id@);
                    if w != p {
                        assert(self.packages@[w].id@ != self.packages@[p as int].id@);
                    }
                }
                return Some(p);
            }
            p += 1;
        }
        None
    }

}

/// If the slots of the first `p` packages already exceed the machine word,
/// the whole feature space does too, and so does its square.
proof fn lemma_total_overflow(packages: Seq<PackageMetadata>, p: int)
    requires
        0 <= p < packages.len(),
        base_ix_of(packages, p) + slots_of_pkg(packages, p) > usize::MAX,
    ensures
        total_nodes(packages) * total_nodes(packages) > usize::MAX,
{
    crate::feature_graph::lemma_base_ix_monotone(packages, p + 1, packages.len() as int);
    let t = total_nodes(packages);
    assert(t > usize::MAX);
    assert(t * t > usize::MAX) by (nonlinear_arith)
        requires
            t > usize::MAX,
            usize::MAX >= 1,
    ;
}

/// The slot count of one package, restated for the overflow argument.
pub open spec fn slots_of_pkg(packages: Seq<PackageMetadata>, p: int) -> int {
    crate::feature_graph::slots_of(packages, p)
}

/// Checks the per-package validity conditions.
fn check_package_wf(p: &PackageMetadata) -> (r: bool)
    ensures
        r == p.wf(),
{
    if p.named_feature_count > p.features.len() {
        return false;
    }
    let mut i: usize = 0;
    while i < p.features.len()
        invariant
            i <= p.features@.len(),
            p.named_feature_count <= p.features@.len(),
            forall|a: int, b: int| 0 <= a < b < p.features@.len() && a < i ==> p.feature_name(a)
                != p.feature_name(b),
            forall|a: int|
                p.named_feature_count <= a < i ==> (
                #[trigger] p.features@[a]).feature_deps@.len() == 0,
        decreases p.features@.len() - i,
    {
        if i >= p.named_feature_count && p.features[i].feature_deps.len() != 0 {
            return false;
        }
        let mut j: usize = i + 1;
        while j < p.features.len()
            invariant
                i < j,
                j <= p.features@.len(),
                i < p.features@.len(),
                forall|b: int| i < b < j ==> p.feature_name(i as int) != p.feature_name(b),
            decreases p.features@.len() - j,
        {
            if str_eq(p.features[i].name.as_str(), p.features[j].name.as_str()) {
                proof {
                    assert(p.feature_name(i as int) == p.feature_name(j as int));
                }
                return false;
            }
            j += 1;
        }
        i += 1;
    }
    true
}

/// Checks whether any optional sub-request of a link has a predicate that
/// is not never.
fn link_has_optional(link: &PackageLink) -> (r: bool)
    ensures
        r == link.has_optional(),
{
    if !sub_all_never(&link.normal.optional) {
        return true;
    }
    if !sub_all_never(&link.build.optional) {
        return true;
    }
    if !sub_all_never(&link.dev.optional) {
        return true;
    }
    false
}

/// Checks whether every predicate of a sub-request is never.
fn sub_all_never(sub: &DepRequiredOrOptional) -> (r: bool)
    ensures
        r == sub.all_never(),
{
    if !sub.build_if.is_never() {
        return false;
    }
    if !sub.default_features_if.is_never() {
        return false;
    }
    let mut i: usize = 0;
    while i < sub.feature_targets.len()
        invariant
            i <= sub.feature_targets@.len(),
            sub.build_if@.is_never(),
            sub.default_features_if@.is_never(),
            forall|k: int| 0 <= k < i ==> (#[trigger] sub.feature_targets@[k]).1@.is_never(),
        decreases sub.feature_targets@.len() - i,
    {
        if !sub.feature_targets[i].1.is_never() {
            return false;
        }
        i += 1;
    }
    true
}

} // verus!

