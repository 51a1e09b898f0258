//! A derived feature graph over a package dependency graph.
//!
//! Packages declare named features and optional dependencies. This crate
//! turns a package-level dependency graph into a finer-grained graph whose
//! nodes are (package, feature) pairs and whose edges record exactly which
//! downstream features become enabled when an upstream feature is selected.
//! It also answers resolution queries (reachability, roots, topological
//! iteration, set algebra over resolved sets) on both graphs.

use vstd::prelude::*;

pub mod bitset;
pub mod digraph;
pub mod reach;
pub mod scc;
pub mod platform;
pub mod resolve_core;
pub mod strutil;
pub mod package;
pub mod feature_graph;
pub mod feature_build;
pub mod facade;
pub mod resolve;
pub mod laws;

verus! {

/// Direction in which graph edges are traversed by queries.
///
/// `Forward` follows edges from dependents to their dependencies; `Reverse`
/// walks them the other way.
#[derive(Clone, Copy, Debug, PartialEq, Eq, Structural)]
pub enum DependencyDirection {
    /// Follow edge direction.
    Forward,
    /// Walk edges backward.
    Reverse,
}

impl DependencyDirection {
    /// True for `Reverse`.
    pub open spec fn is_reverse(self) -> bool {
        self is Reverse
    }
}

/// A recoverable error returned to callers.
#[derive(Debug)]
pub enum Error {
    /// A query named a feature identifier that is not in the graph: the
    /// package identifier, and the feature name unless the base was meant.
    UnknownFeatureId(crate::package::PackageId, Option<String>),
}

} // verus!
