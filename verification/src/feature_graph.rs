//! The derived feature graph: nodes, edges, metadata and warnings.
//!
//! Every package contributes one base node followed by one node per feature
//! (named features first, then optional dependencies), so each package owns
//! a contiguous index range recorded in `base_ixs`. Edges record why
//! selecting one feature enables another.

use vstd::prelude::*;
use crate::digraph::DiGraph;
use crate::package::{PackageId, PackageMetadata};
use crate::platform::PlatformStatus;
use crate::scc::Sccs;

verus! {

/// A node: a package index and a feature index, `None` for the base.
#[derive(Debug, PartialEq, Eq, Structural, Clone, Copy)]
pub struct FeatureNode {
    pub package_ix: usize,
    pub feature_idx: Option<usize>,
}

impl FeatureNode {
    /// The node of feature `feature_idx` of package `package_ix`.
    pub fn new(package_ix: usize, feature_idx: usize) -> (r: Self)
        ensures
            r.package_ix == package_ix,
            r.feature_idx == Some(feature_idx),
    {
        FeatureNode { package_ix, feature_idx: Some(feature_idx) }
    }

    /// The base node of package `package_ix`.
    pub fn base(package_ix: usize) -> (r: Self)
        ensures
            r.package_ix == package_ix,
            r.feature_idx is None,
    {
        FeatureNode { package_ix, feature_idx: None }
    }

    /// A node that may be the base.
    pub fn new_opt(package_ix: usize, feature_idx: Option<usize>) -> (r: Self)
        ensures
            r.package_ix == package_ix,
            r.feature_idx == feature_idx,
    {
        FeatureNode { package_ix, feature_idx }
    }
}

/// Why one feature enables another.
#[derive(Debug)]
pub enum FeatureEdge {
    /// From a feature to the base of its own package.
    FeatureToBase,
    /// From a named feature to a feature it names, within one package or to
    /// a feature of a direct dependency named `dep/feat`.
    FeatureDependency,
    /// Across packages: a dependency declaration, with the unified platform
    /// predicate per dependency kind.
    Dependency { normal: PlatformStatus, build: PlatformStatus, dev: PlatformStatus },
}

/// What kind of feature a node stands for.
#[derive(Debug, PartialEq, Eq, Structural, Clone, Copy)]
pub enum FeatureType {
    /// A feature declared in the features table.
    NamedFeature,
    /// A pseudo-feature induced by an optional dependency.
    OptionalDep,
    /// The base of a package, with no features enabled.
    BasePackage,
}

/// Metadata stored for each node.
#[derive(Debug, PartialEq, Eq, Structural, Clone, Copy)]
pub struct FeatureMetadataImpl {
    pub feature_ix: usize,
    pub feature_type: FeatureType,
}

/// Which build phase a warning was recorded in.
#[derive(Debug)]
pub enum FeatureBuildStage {
    /// While adding edges out of a package's named features.
    AddNamedFeatureEdges { package_id: PackageId, from_feature: String },
    /// While adding cross-package dependency edges for one link.
    AddDependencyEdges { package_id: PackageId, dep_name: String },
}

/// A non-fatal problem found while building the feature graph.
#[derive(Debug)]
pub enum FeatureGraphWarning {
    /// A feature list or dependency declaration names a feature that the
    /// target package does not have.
    MissingFeature { stage: FeatureBuildStage, package_id: PackageId, feature_name: String },
}

/// The built feature graph: arena, per-package base indices, node payloads
/// and metadata by node index, and the warnings gathered while building.
pub struct FeatureGraphImpl {
    pub graph: DiGraph<FeatureEdge>,
    pub base_ixs: Vec<usize>,
    pub nodes: Vec<FeatureNode>,
    pub metas: Vec<FeatureMetadataImpl>,
    pub warnings: Vec<FeatureGraphWarning>,
    pub sccs: Sccs,
}

/// The number of features of package `p`, base included.
pub open spec fn slots_of(packages: Seq<PackageMetadata>, p: int) -> int {
    1 + packages[p].n_features() as int
}

/// The node index of the base of package `p`: every earlier package's slot
/// count summed.
pub open spec fn base_ix_of(packages: Seq<PackageMetadata>, p: int) -> int
    decreases p,
{
    if p <= 0 {
        0
    } else {
        base_ix_of(packages, p - 1) + slots_of(packages, p - 1)
    }
}

/// The total number of feature nodes.
pub open spec fn total_nodes(packages: Seq<PackageMetadata>) -> int {
    base_ix_of(packages, packages.len() as int)
}

/// The node index of `(package, feature)`.
pub open spec fn node_ix_of(packages: Seq<PackageMetadata>, p: int, f: Option<int>) -> int {
    match f {
        None => base_ix_of(packages, p),
        Some(i) => base_ix_of(packages, p) + 1 + i,
    }
}

/// Base indices are strictly increasing in the package index.
pub proof fn lemma_base_ix_monotone(packages: Seq<PackageMetadata>, p: int, q: int)
    requires
        0 <= p <= q,
    ensures
        base_ix_of(packages, p) <= base_ix_of(packages, q),
    decreases q - p,
{
    if p < q {
        lemma_base_ix_monotone(packages, p, q - 1);
    }
}

/// Distinct `(package, feature)` pairs of valid shape get distinct node
/// indices, and every node index of a package lies in its slot range.
pub proof fn lemma_node_ix_range(packages: Seq<PackageMetadata>, p: int, f: Option<int>)
    requires
        0 <= p < packages.len(),
        match f {
            None => true,
            Some(i) => 0 <= i < packages[p].n_features(),
        },
    ensures
        base_ix_of(packages, p) <= node_ix_of(packages, p, f) < base_ix_of(packages, p + 1),
{
}

/// An identifier for a `(package, feature)` pair: the package's identifier
/// and the feature name, `None` for the base pseudo-feature.
#[derive(Debug)]
pub struct FeatureId {
    pub package_id: PackageId,
    pub feature: Option<String>,
}

impl View for FeatureId {
    type V = (Seq<char>, Option<Seq<char>>);

    open spec fn view(&self) -> (Seq<char>, Option<Seq<char>>) {
        (
            self.package_id@,
            match self.feature {
                Option::None => Option::None,
                Option::Some(ref f) => Option::Some(f@),
            },
        )
    }
}

impl FeatureId {
    /// The identifier of a named feature or optional dependency.
    pub fn new(package_id: &PackageId, feature: &str) -> (r: Self)
        ensures
            r@ == (package_id@, Option::Some(feature@)),
    {
        FeatureId { package_id: package_id.dup(), feature: Some(feature.to_owned()) }
    }

    /// The identifier of a package's base.
    pub fn base(package_id: &PackageId) -> (r: Self)
        ensures
            r@ == (package_id@, Option::<Seq<char>>::None),
    {
        FeatureId { package_id: package_id.dup(), feature: None }
    }

    /// The package's identifier.
    pub fn package_id(&self) -> (r: &PackageId)
        ensures
            r@ == self@.0,
    {
        &self.package_id
    }

    /// The feature name, or `None` for the base.
    pub fn feature(&self) -> (r: Option<&str>)
        ensures
            match r {
                Some(f) => self@.1 == Option::Some(f@),
                None => self@.1 is None,
            },
    {
        match &self.feature {
            Some(f) => Some(f.as_str()),
            None => None,
        }
    }

    /// Whether this is a base identifier.
    pub fn is_base(&self) -> (r: bool)
        ensures
            r == (self@.1 is None),
    {
        self.feature.is_none()
    }

    /// A copy with the same content.
    pub fn dup(&self) -> (r: Self)
        ensures
            r@ == self@,
    {
        FeatureId {
            package_id: self.package_id.dup(),
            feature: match &self.feature {
                Some(f) => Some(f.clone()),
                None => None,
            },
        }
    }
}

/// Metadata of one feature node: its identifier and kind.
#[derive(Debug)]
pub struct FeatureMetadata {
    pub feature_id: FeatureId,
    pub feature_type: FeatureType,
}

impl FeatureMetadata {
    /// The feature's identifier.
    pub fn feature_id(&self) -> (r: &FeatureId)
        ensures
            r@ == self.feature_id@,
    {
        &self.feature_id
    }

    /// The feature's kind.
    pub fn feature_type(&self) -> (r: FeatureType)
        ensures
            r == self.feature_type,
    {
        self.feature_type
    }
}

} // verus!
