//! Queries over a built feature graph.
//!
//! The facade pairs a package graph with its derived feature graph and
//! answers lookups and directed-reachability questions about features.

use vstd::prelude::*;
use crate::feature_build::{build_feature_graph, built_ok};
use crate::feature_graph::{
    base_ix_of, node_ix_of, total_nodes, FeatureGraphImpl, FeatureGraphWarning, FeatureId,
    FeatureMetadata, FeatureType,
};
use crate::package::{PackageGraph, PackageId};
use crate::reach::{ix_set, reachable, reaches};
use crate::scc::in_same_scc;
use crate::Error;

verus! {

/// A feature identifier names a node of the graph.
pub open spec fn id_known(pg: PackageGraph, pid: Seq<char>, feat: Option<Seq<char>>) -> bool {
    &&& pg.has_package(pid)
    &&& match feat {
        Option::None => true,
        Option::Some(f) => pg.packages@[pg.package_ix_of(pid)].has_feature(f),
    }
}

/// The node index a known feature identifier names.
pub open spec fn id_node(pg: PackageGraph, pid: Seq<char>, feat: Option<Seq<char>>) -> int {
    let p = pg.package_ix_of(pid);
    match feat {
        Option::None => node_ix_of(pg.packages@, p, Option::None),
        Option::Some(f) => node_ix_of(
            pg.packages@,
            p,
            Option::Some(pg.packages@[p].feature_idx(f)),
        ),
    }
}

/// The node a package's default feature names: its `default` feature, or
/// its base when none is declared.
pub open spec fn default_node(pg: PackageGraph, p: int) -> int {
    if pg.packages@[p].has_feature("default"@) {
        node_ix_of(pg.packages@, p, Option::Some(pg.packages@[p].feature_idx("default"@)))
    } else {
        node_ix_of(pg.packages@, p, Option::None)
    }
}

/// The error names this identifier: the package's text and, unless the
/// base was meant, the feature name.
pub open spec fn carries_id(e: Error, id: (Seq<char>, Option<Seq<char>>)) -> bool {
    match e {
        Error::UnknownFeatureId(p, f) => p@ == id.0 && (match f {
            Option::Some(ff) => id.1 == Option::Some(ff@),
            Option::None => id.1 is None,
        }),
    }
}

/// A derived graph of every feature of every package.
pub struct FeatureGraph<'g> {
    pub package_graph: &'g PackageGraph,
    pub inner: FeatureGraphImpl,
}

impl PackageGraph {
    /// Derives the feature graph of this package graph. The graph is
    /// recomputed on each call; the exact postcondition pins every call's
    /// result to the same characterization of this package graph.
    pub fn feature_graph(&self) -> (r: FeatureGraph<'_>)
        requires
            self.wf(),
        ensures
            r.wf(),
            *r.package_graph == *self,
    {
        let inner = build_feature_graph(self);
        FeatureGraph { package_graph: self, inner }
    }
}

impl<'g> FeatureGraph<'g> {
    /// The inner graph was built from the stored package graph.
    pub open spec fn wf(self) -> bool {
        &&& self.package_graph.wf()
        &&& built_ok(self.inner, self.package_graph.packages@, self.package_graph.links@)
    }

    /// The package graph this feature graph was derived from.
    pub fn package_graph(&self) -> (r: &'g PackageGraph)
        ensures
            r == self.package_graph,
    {
        self.package_graph
    }

    /// The warnings gathered while building.
    pub fn build_warnings(&self) -> (r: &Vec<FeatureGraphWarning>)
        ensures
            r@ == self.inner.warnings@,
    {
        &self.inner.warnings
    }

    /// Total number of feature nodes, bases included.
    pub fn feature_count(&self) -> (r: usize)
        requires
            self.wf(),
        ensures
            r == total_nodes(self.package_graph.packages@),
    {
        self.inner.graph.node_count
    }

    /// Number of edges.
    pub fn link_count(&self) -> (r: usize)
        ensures
            r == self.inner.graph.edges@.len(),
    {
        self.inner.graph.edge_count()
    }

    /// Resolves an identifier to its node index.
    pub fn feature_node_ix(&self, id: &FeatureId) -> (r: Option<usize>)
        requires
            self.wf(),
        ensures
            match r {
                Some(ix) => id_known(*self.package_graph, id@.0, id@.1) && ix == id_node(
                    *self.package_graph,
                    id@.0,
                    id@.1,
                ) && ix < total_nodes(self.package_graph.packages@),
                None => !id_known(*self.package_graph, id@.0, id@.1),
            },
    {
        let pg = self.package_graph;
        let p = match pg.package_ix(&id.package_id) {
            Some(p) => p,
            None => {
                return None;
            },
        };
        proof {
            crate::feature_graph::lemma_node_ix_range(pg.packages@, p as int, Option::None);
            crate::feature_graph::lemma_base_ix_monotone(
                pg.packages@,
                p + 1,
                pg.packages@.len() as int,
            );
            crate::feature_graph::lemma_base_ix_monotone(pg.packages@, 0, p as int);
        }
        match &id.feature {
            None => Some(self.inner.base_ixs[p]),
            Some(name) => {
                match pg.packages[p].get_feature_idx(name.as_str()) {
                    Some(i) => {
                        proof {
                            crate::feature_graph::lemma_node_ix_range(
                                pg.packages@,
                                p as int,
                                Option::Some(i as int),
                            );
                        }
                        Some(self.inner.base_ixs[p] + 1 + i)
                    },
                    None => None,
                }
            },
        }
    }

    /// Metadata of a feature, or `None` if the identifier is unknown.
    pub fn metadata(&self, feature_id: &FeatureId) -> (r: Option<FeatureMetadata>)
        requires
            self.wf(),
        ensures
            match r {
                Some(m) => {
                    &&& id_known(*self.package_graph, feature_id@.0, feature_id@.1)
                    &&& m.feature_id@ == feature_id@
                    &&& m.feature_type == self.inner.metas@[id_node(
                        *self.package_graph,
                        feature_id@.0,
                        feature_id@.1,
                    )].feature_type
                },
                None => !id_known(*self.package_graph, feature_id@.0, feature_id@.1),
            },
    {
        match self.feature_node_ix(feature_id) {
            Some(ix) => {
                let ftype = self.inner.metas[ix].feature_type;
                Some(FeatureMetadata { feature_id: feature_id.dup(), feature_type: ftype })
            },
            None => None,
        }
    }

    /// Whether `a` transitively enables `b`; true when they are equal.
    pub fn depends_on(&self, feature_a: &FeatureId, feature_b: &FeatureId) -> (r: Result<
        bool,
        Error,
    >)
        requires
            self.wf(),
        ensures
            match r {
                Ok(d) => {
                    &&& id_known(*self.package_graph, feature_a@.0, feature_a@.1)
                    &&& id_known(*self.package_graph, feature_b@.0, feature_b@.1)
                    &&& d == reaches(
                        self.inner.graph,
                        id_node(*self.package_graph, feature_a@.0, feature_a@.1),
                        id_node(*self.package_graph, feature_b@.0, feature_b@.1),
                    )
                },
                Err(e) => if !id_known(*self.package_graph, feature_a@.0, feature_a@.1) {
                    carries_id(e, feature_a@)
                } else {
                    !id_known(*self.package_graph, feature_b@.0, feature_b@.1) && carries_id(
                        e,
                        feature_b@,
                    )
                },
            },
    {
        let a_ix = match self.feature_node_ix(feature_a) {
            Some(ix) => ix,
            None => {
                return Err(self.unknown(feature_a));
            },
        };
        let b_ix = match self.feature_node_ix(feature_b) {
            Some(ix) => ix,
            None => {
                return Err(self.unknown(feature_b));
            },
        };
        Ok(self.node_reaches(a_ix, b_ix))
    }

    /// Whether one edge runs from `a` to `b`; false when they are equal
    /// unless a self-edge was declared.
    pub fn directly_depends_on(&self, feature_a: &FeatureId, feature_b: &FeatureId) -> (r: Result<
        bool,
        Error,
    >)
        requires
            self.wf(),
        ensures
            match r {
                Ok(d) => {
                    &&& id_known(*self.package_graph, feature_a@.0, feature_a@.1)
                    &&& id_known(*self.package_graph, feature_b@.0, feature_b@.1)
                    &&& d == self.inner.graph.has_edge(
                        id_node(*self.package_graph, feature_a@.0, feature_a@.1),
                        id_node(*self.package_graph, feature_b@.0, feature_b@.1),
                    )
                },
                Err(e) => if !id_known(*self.package_graph, feature_a@.0, feature_a@.1) {
                    carries_id(e, feature_a@)
                } else {
                    !id_known(*self.package_graph, feature_b@.0, feature_b@.1) && carries_id(
                        e,
                        feature_b@,
                    )
                },
            },
    {
        let a_ix = match self.feature_node_ix(feature_a) {
            Some(ix) => ix,
            None => {
                return Err(self.unknown(feature_a));
            },
        };
        let b_ix = match self.feature_node_ix(feature_b) {
            Some(ix) => ix,
            None => {
                return Err(self.unknown(feature_b));
            },
        };
        Ok(self.inner.graph.contains_edge(a_ix, b_ix))
    }

    /// Whether the feature is enabled by its package's default feature,
    /// directly or transitively; `None` for an unknown identifier.
    pub fn is_default_feature(&self, feature_id: &FeatureId) -> (r: Option<bool>)
        requires
            self.wf(),
        ensures
            match r {
                Some(d) => {
                    &&& id_known(*self.package_graph, feature_id@.0, feature_id@.1)
                    &&& d == reaches(
                        self.inner.graph,
                        default_node(
                            *self.package_graph,
                            self.package_graph.package_ix_of(feature_id@.0),
                        ),
                        id_node(*self.package_graph, feature_id@.0, feature_id@.1),
                    )
                },
                None => !id_known(*self.package_graph, feature_id@.0, feature_id@.1),
            },
    {
        let pg = self.package_graph;
        let ix = match self.feature_node_ix(feature_id) {
            Some(ix) => ix,
            None => {
                return None;
            },
        };
        let p = match pg.package_ix(&feature_id.package_id) {
            Some(p) => p,
            None => {
                return None;
            },
        };
        proof {
            crate::feature_graph::lemma_base_ix_monotone(
                pg.packages@,
                p + 1,
                pg.packages@.len() as int,
            );
            crate::feature_graph::lemma_base_ix_monotone(pg.packages@, 0, p as int);
        }
        let default_ix = match pg.packages[p].default_feature_idx() {
            Some(di) => {
                proof {
                    assert(0 <= pg.packages@[p as int].feature_idx("default"@) < pg.packages@[p as int].n_features());
                    crate::feature_graph::lemma_node_ix_range(
                        pg.packages@,
                        p as int,
                        Option::Some(di as int),
                    );
                }
                self.inner.base_ixs[p] + 1 + di
            },
            None => self.inner.base_ixs[p],
        };
        proof {
            crate::feature_graph::lemma_node_ix_range(pg.packages@, p as int, Option::None);
        }
        Some(self.node_reaches(default_ix, ix))
    }

    /// Whether node `a` reaches node `b` in the feature graph.
    fn node_reaches(&self, a: usize, b: usize) -> (r: bool)
        requires
            self.wf(),
            a < total_nodes(self.package_graph.packages@),
        ensures
            r == reaches(self.inner.graph, a as int, b as int),
    {
        let mut init: Vec<usize> = Vec::new();
        init.push(a);
        proof {
            let m = init@.map_values(|t: usize| t as int);
            assert(m.len() == 1 && m[0] == a as int);
            assert(ix_set(init@) =~= Set::empty().insert(a as int)) by {
                assert forall|y: int| ix_set(init@).contains(y) implies y == a as int by {
                    let k = choose|k: int| 0 <= k < m.len() && #[trigger] m[k] == y;
                }
                assert(m.to_set().contains(m[0]));
            }
        }
        let (bs, _count) = reachable(&self.inner.graph, false, &init);
        crate::bitset::bs_contains(&bs, b)
    }

    /// The error for an unknown identifier.
    fn unknown(&self, id: &FeatureId) -> (r: Error)
        ensures
            r matches Error::UnknownFeatureId(p, f) && p@ == id@.0 && (match f {
                Option::Some(ff) => id@.1 == Option::Some(ff@),
                Option::None => id@.1 is None,
            }),
    {
        let f = match &id.feature {
            Some(name) => Some(name.clone()),
            None => None,
        };
        Error::UnknownFeatureId(id.package_id.dup(), f)
    }

    /// The per-kind platform predicates of the dependency edge from `a` to
    /// `b`: `None` when no edge exists or it is not a dependency edge.
    pub fn dependency_statuses(&self, feature_a: &FeatureId, feature_b: &FeatureId) -> (r: Result<
        Option<(crate::platform::PlatformStatus, crate::platform::PlatformStatus, crate::platform::PlatformStatus)>,
        Error,
    >)
        requires
            self.wf(),
        ensures
            match r {
                Ok(st) => {
                    let a = id_node(*self.package_graph, feature_a@.0, feature_a@.1);
                    let b = id_node(*self.package_graph, feature_b@.0, feature_b@.1);
                    &&& id_known(*self.package_graph, feature_a@.0, feature_a@.1)
                    &&& id_known(*self.package_graph, feature_b@.0, feature_b@.1)
                    &&& match st {
                        Some(t) => self.inner.graph.has_edge(a, b) && (self.inner.graph.payload_of(
                            a,
                            b,
                        ) matches crate::feature_graph::FeatureEdge::Dependency {
                            normal,
                            build,
                            dev,
                        } && t.0@ == normal@ && t.1@ == build@ && t.2@ == dev@),
                        None => !self.inner.graph.has_edge(a, b) || !(self.inner.graph.payload_of(
                            a,
                            b,
                        ) is Dependency),
                    }
                },
                Err(e) => if !id_known(*self.package_graph, feature_a@.0, feature_a@.1) {
                    carries_id(e, feature_a@)
                } else {
                    !id_known(*self.package_graph, feature_b@.0, feature_b@.1) && carries_id(
                        e,
                        feature_b@,
                    )
                },
            },
    {
        let a_ix = match self.feature_node_ix(feature_a) {
            Some(ix) => ix,
            None => {
                return Err(self.unknown(feature_a));
            },
        };
        let b_ix = match self.feature_node_ix(feature_b) {
            Some(ix) => ix,
            None => {
                return Err(self.unknown(feature_b));
            },
        };
        match self.inner.graph.edge_payload(a_ix, b_ix) {
            Some(payload) => {
                match payload {
                    crate::feature_graph::FeatureEdge::Dependency { normal, build, dev } => Ok(
                        Some((normal.dup(), build.dup(), dev.dup())),
                    ),
                    _ => Ok(None),
                }
            },
            None => Ok(None),
        }
    }

    /// Every feature node index, in topological order for the direction.
    pub fn feature_ixs_topo(&self, direction: crate::DependencyDirection) -> (r: Vec<usize>)
        requires
            self.wf(),
        ensures
            r@ == crate::resolve_core::topo_items(
                self.inner.sccs,
                vstd::set_lib::set_int_range(0, total_nodes(self.package_graph.packages@) as int),
                direction.is_reverse(),
            ),
    {
        let core = crate::resolve_core::ResolveCore::all_nodes(&self.inner.graph);
        let t = core.topo(&self.inner.sccs, direction);
        t.items
    }

    /// The half-open node index range a package's features occupy.
    pub fn feature_ixs_for_package(&self, package_id: &PackageId) -> (r: Option<(usize, usize)>)
        requires
            self.wf(),
        ensures
            match r {
                Some(range) => {
                    let p = self.package_graph.package_ix_of(package_id@);
                    &&& self.package_graph.has_package(package_id@)
                    &&& range.0 == base_ix_of(self.package_graph.packages@, p)
                    &&& range.1 == base_ix_of(self.package_graph.packages@, p + 1)
                },
                None => !self.package_graph.has_package(package_id@),
            },
    {
        match self.package_graph.package_ix(package_id) {
            Some(p) => Some((self.inner.base_ixs[p], self.inner.base_ixs[p + 1])),
            None => None,
        }
    }

    /// The identifier of the feature at a node index, or `None` when the
    /// index is out of range.
    pub fn feature_id_of_node(&self, ix: usize) -> (r: Option<FeatureId>)
        requires
            self.wf(),
        ensures
            match r {
                Some(id) => exists|p: int, f: Option<int>|
                    {
                        &&& 0 <= p < self.package_graph.packages@.len()
                        &&& match f {
                            Option::None => true,
                            Option::Some(i) => 0 <= i < self.package_graph.packages@[p].n_features(),
                        }
                        &&& ix == #[trigger] node_ix_of(self.package_graph.packages@, p, f)
                        &&& id@.0 == self.package_graph.packages@[p].id@
                        &&& match f {
                            Option::None => id@.1 is None,
                            Option::Some(i) => id@.1 == Option::Some(
                                self.package_graph.packages@[p].feature_name(i),
                            ),
                        }
                    },
                None => ix >= total_nodes(self.package_graph.packages@),
            },
    {
        let pg = self.package_graph;
        let ghost packages = pg.packages@;
        proof {
            assert(self.inner.base_ixs@.len() == packages.len() + 1);
        }
        let count = pg.package_count();
        let mut p: usize = 0;
        while p < count
            invariant
                self.wf(),
                pg == self.package_graph,
                packages == pg.packages@,
                count == packages.len(),
                p <= count,
                self.inner.base_ixs@.len() == packages.len() + 1,
                ix >= base_ix_of(packages, p as int),
            decreases count - p,
        {
            proof {
                crate::feature_graph::lemma_base_ix_monotone(packages, p + 1, packages.len() as int);
            }
            if ix < self.inner.base_ixs[p + 1] {
                proof {
                    assert(crate::feature_build::state_of(self.inner).layout_full(packages));
                    assert(crate::feature_build::state_of(self.inner).base_ixs
                        == self.inner.base_ixs);
                    assert(self.inner.base_ixs@[p as int] == base_ix_of(packages, p as int));
                    assert(self.inner.base_ixs@[p + 1] == base_ix_of(packages, p + 1));
                }
                let base = self.inner.base_ixs[p];
                if ix == base {
                    let rid = FeatureId::base(&pg.packages[p].id);
                    proof {
                        assert(ix == node_ix_of(packages, p as int, Option::<int>::None));
                        assert(rid@.0 == packages[p as int].id@ && rid@.1 is None);
                    }
                    return Some(rid);
                }
                let i = ix - base - 1;
                proof {
                    assert(ix == node_ix_of(packages, p as int, Option::Some(i as int)));
                }
                match pg.packages[p].feature_idx_to_name(i) {
                    Some(name) => {
                        let rid = FeatureId::new(&pg.packages[p].id, name);
                        proof {
                            assert(rid@.0 == packages[p as int].id@ && rid@.1 == Option::Some(
                                packages[p as int].feature_name(i as int),
                            ));
                        }
                        return Some(rid);
                    },
                    None => {
                        proof {
                            assert(false);
                        }
                    },
                }
            }
            proof {
                assert(crate::feature_build::state_of(self.inner).base_ixs
                    == self.inner.base_ixs);
                assert(self.inner.base_ixs@[p + 1] == base_ix_of(packages, p + 1));
            }
            p += 1;
        }
        proof {
            assert(ix >= total_nodes(packages));
        }
        None
    }

    /// A view of the graph's cycles.
    pub fn cycles(&self) -> (r: Cycles<'_, 'g>)
        ensures
            r.fg == self,
    {
        Cycles { fg: self }
    }
}

/// Information about the dependency cycles of a feature graph: membership
/// queries against its strongly connected components.
pub struct Cycles<'a, 'g> {
    pub fg: &'a FeatureGraph<'g>,
}

impl<'a, 'g> Cycles<'a, 'g> {
    /// Whether the two features lie on a common cycle (or are equal).
    pub fn in_same_cycle(&self, feature_a: &FeatureId, feature_b: &FeatureId) -> (r: Result<
        bool,
        Error,
    >)
        requires
            self.fg.wf(),
        ensures
            match r {
                Ok(d) => {
                    &&& id_known(*self.fg.package_graph, feature_a@.0, feature_a@.1)
                    &&& id_known(*self.fg.package_graph, feature_b@.0, feature_b@.1)
                    &&& d == in_same_scc(
                        self.fg.inner.graph,
                        id_node(*self.fg.package_graph, feature_a@.0, feature_a@.1),
                        id_node(*self.fg.package_graph, feature_b@.0, feature_b@.1),
                    )
                },
                Err(e) => if !id_known(*self.fg.package_graph, feature_a@.0, feature_a@.1) {
                    carries_id(e, feature_a@)
                } else {
                    !id_known(*self.fg.package_graph, feature_b@.0, feature_b@.1) && carries_id(
                        e,
                        feature_b@,
                    )
                },
            },
    {
        let a_ix = match self.fg.feature_node_ix(feature_a) {
            Some(ix) => ix,
            None => {
                return Err(self.fg.unknown(feature_a));
            },
        };
        let b_ix = match self.fg.feature_node_ix(feature_b) {
            Some(ix) => ix,
            None => {
                return Err(self.fg.unknown(feature_b));
            },
        };
        Ok(self.fg.inner.sccs.in_same_group(&self.fg.inner.graph, a_ix, b_ix))
    }
}

} // verus!
