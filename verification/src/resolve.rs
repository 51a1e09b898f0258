//! Resolved sets of packages.
//!
//! A `PackageSet` pairs a package graph with a resolved core and offers
//! membership tests, set algebra (only between sets over the same graph),
//! and topological iteration over nodes, roots and links.

use vstd::prelude::*;
use fixedbitset::FixedBitSet;
use crate::bitset::{bit_capacity, bits, bits_wf, bs_contains, bs_insert, bs_new};
use crate::package::{PackageGraph, PackageId, PackageLink, PackageMetadata};
use crate::reach::{ix_set, reach_set};
use crate::resolve_core::{
    group_blocked, links_seq, topo_items, QueryParams, ResolveCore, Topo,
};
use crate::DependencyDirection;

verus! {

/// A query to resolve: a graph and the initial nodes with a direction.
pub struct PackageQuery<'g> {
    pub graph: &'g PackageGraph,
    pub params: QueryParams,
}

impl PackageGraph {
    /// A query for everything the given packages depend on.
    pub fn query_forward(&self, ids: &Vec<PackageId>) -> (r: Option<PackageQuery<'_>>)
        requires
            self.wf(),
        ensures
            match r {
                Some(q) => {
                    &&& q.graph == self
                    &&& !q.params.is_reverse()
                    &&& forall|k: int|
                        0 <= k < q.params.initials().len() ==> (
                        #[trigger] q.params.initials()[k]) < self.packages@.len()
                    &&& q.params.initials().len() == ids@.len()
                    &&& forall|k: int|
                        0 <= k < ids@.len() ==> self.packages@[q.params.initials()[k] as int].id@
                            == (#[trigger] ids@[k])@
                },
                None => exists|k: int|
                    0 <= k < ids@.len() && !self.has_package((#[trigger] ids@[k])@),
            },
    {
        match self.lookup_all(ids) {
            Some(ixs) => Some(PackageQuery { graph: self, params: QueryParams::Forward(ixs) }),
            None => None,
        }
    }

    /// A query for everything that depends on the given packages.
    pub fn query_reverse(&self, ids: &Vec<PackageId>) -> (r: Option<PackageQuery<'_>>)
        requires
            self.wf(),
        ensures
            match r {
                Some(q) => {
                    &&& q.graph == self
                    &&& q.params.is_reverse()
                    &&& forall|k: int|
                        0 <= k < q.params.initials().len() ==> (
                        #[trigger] q.params.initials()[k]) < self.packages@.len()
                    &&& q.params.initials().len() == ids@.len()
                    &&& forall|k: int|
                        0 <= k < ids@.len() ==> self.packages@[q.params.initials()[k] as int].id@
                            == (#[trigger] ids@[k])@
                },
                None => exists|k: int|
                    0 <= k < ids@.len() && !self.has_package((#[trigger] ids@[k])@),
            },
    {
        match self.lookup_all(ids) {
            Some(ixs) => Some(PackageQuery { graph: self, params: QueryParams::Reverse(ixs) }),
            None => None,
        }
    }

    /// Looks every identifier up, failing on the first unknown one.
    fn lookup_all(&self, ids: &Vec<PackageId>) -> (r: Option<Vec<usize>>)
        requires
            self.wf(),
        ensures
            match r {
                Some(ixs) => {
                    &&& ixs@.len() == ids@.len()
                    &&& forall|k: int|
                        0 <= k < ixs@.len() ==> (#[trigger] ixs@[k]) < self.packages@.len()
                    &&& forall|k: int|
                        0 <= k < ids@.len() ==> self.packages@[ixs@[k] as int].id@ == (
                        #[trigger] ids@[k])@
                },
                None => exists|k: int|
                    0 <= k < ids@.len() && !self.has_package((#[trigger] ids@[k])@),
            },
    {
        let mut ixs: Vec<usize> = Vec::new();
        let mut k: usize = 0;
        while k < ids.len()
            invariant
                self.wf(),
                k <= ids@.len(),
                ixs@.len() == k,
                forall|j: int| 0 <= j < k ==> (#[trigger] ixs@[j]) < self.packages@.len(),
                forall|j: int|
                    0 <= j < k ==> self.packages@[ixs@[j] as int].id@ == (#[trigger] ids@[j])@,
            decreases ids@.len() - k,
        {
            match self.package_ix(&ids[k]) {
                Some(p) => {
                    ixs.push(p);
                },
                None => {
                    return None;
                },
            }
            k += 1;
        }
        Some(ixs)
    }

    /// The set of every package of this graph.
    pub fn resolve_all(&self) -> (r: PackageSet<'_>)
        requires
            self.wf(),
        ensures
            r.wf(),
            r.graph == self,
            r.set() == vstd::set_lib::set_int_range(0, self.packages@.len() as int),
    {
        PackageSet { graph: self, core: ResolveCore::all_nodes(&self.graph) }
    }
}

/// Accepts or rejects individual package links during resolution.
///
/// Returning false removes the link from the traversal; packages reachable
/// through other links are still included.
pub trait PackageResolver {
    /// Whether this link should be followed.
    fn accept(&mut self, query: &PackageQuery<'_>, link: &PackageLink) -> bool;
}

/// A set of resolved packages of one package graph.
pub struct PackageSet<'g> {
    pub graph: &'g PackageGraph,
    pub core: ResolveCore,
}

impl<'g> PackageSet<'g> {
    /// The included package indices.
    pub open spec fn set(self) -> Set<int> {
        self.core.set()
    }

    /// The core matches its graph.
    pub open spec fn wf(self) -> bool {
        &&& self.graph.wf()
        &&& self.core.wf(self.graph.packages@.len() as int)
    }

    /// Resolves a query: the packages reachable from its initial nodes.
    pub fn new(query: PackageQuery<'g>) -> (r: Self)
        requires
            query.graph.wf(),
            forall|k: int|
                0 <= k < query.params.initials().len() ==> (#[trigger] query.params.initials()[k])
                    < query.graph.packages@.len(),
        ensures
            r.wf(),
            r.graph == query.graph,
            r.set() == reach_set(
                query.graph.graph,
                query.params.is_reverse(),
                ix_set(query.params.initials()),
            ),
    {
        let core = ResolveCore::new(&query.graph.graph, &query.params);
        PackageSet { graph: query.graph, core }
    }

    /// Adopts an externally built bitset of package indices.
    pub fn from_included(graph: &'g PackageGraph, included: FixedBitSet) -> (r: Self)
        requires
            graph.wf(),
            bits_wf(included),
            forall|v: int| bits(included).contains(v) ==> 0 <= v < graph.packages@.len(),
        ensures
            r.wf(),
            r.graph == graph,
            r.set() == bits(included),
    {
        PackageSet { graph, core: ResolveCore::from_included(included) }
    }

    /// Resolves a query, letting the resolver veto individual links.
    /// Whatever the resolver answers, the result contains the initial nodes
    /// and only packages reachable from them in the queried direction.
    #[verifier::rlimit(100)]
    #[verifier::spinoff_prover]
    #[verifier::rlimit(100)]
    pub fn with_resolver<R: PackageResolver>(query: PackageQuery<'g>, resolver: &mut R) -> (r:
        Self)
        requires
            query.graph.wf(),
            forall|k: int|
                0 <= k < query.params.initials().len() ==> (#[trigger] query.params.initials()[k])
                    < query.graph.packages@.len(),
        ensures
            r.wf(),
            r.graph == query.graph,
            exists|allowed: Set<int>|
                r.set() == #[trigger] crate::reach::reach_set_filtered(
                    query.graph.graph,
                    allowed,
                    query.params.is_reverse(),
                    ix_set(query.params.initials()),
                ),
            r.set().subset_of(
                reach_set(
                    query.graph.graph,
                    query.params.is_reverse(),
                    ix_set(query.params.initials()),
                ),
            ),
            forall|k: int|
                0 <= k < query.params.initials().len() ==> r.set().contains(
                    (#[trigger] query.params.initials()[k]) as int,
                ),
    {
        let g = &query.graph.graph;
        let ghost inits = ix_set(query.params.initials());
        let rev = matches!(query.params, QueryParams::Reverse(_));
        let n = g.node_count;
        let mut visited = bs_new(n);
        let mut queue: Vec<usize> = Vec::new();
        let initials: &Vec<usize> = match &query.params {
            QueryParams::Forward(v) => v,
            QueryParams::Reverse(v) => v,
        };
        proof {
            assert(initials@ == query.params.initials());
            assert(rev == query.params.is_reverse());
        }
        let mut i: usize = 0;
        while i < initials.len()
            invariant
                query.graph.wf(),
                g == &query.graph.graph,
                n == g.node_count,
                initials@ == query.params.initials(),
                rev == query.params.is_reverse(),
                inits == ix_set(initials@),
                forall|k: int|
                    0 <= k < initials@.len() ==> (#[trigger] initials@[k]) < n,
                i <= initials@.len(),
                bit_capacity(visited) == n,
                bits(visited).finite(),
                queue@.no_duplicates(),
                bits(visited) =~= ix_set(queue@),
                queue@.len() <= n,
                forall|k: int| 0 <= k < queue@.len() ==> (#[trigger] queue@[k]) < n,
                forall|v: int|
                    bits(visited).contains(v) ==> crate::reach::reaches_from_filtered(
                        *g,
                        crate::reach::edges_within(*g, bits(visited)),
                        rev,
                        inits,
                        v,
                    ),
                forall|k: int|
                    0 <= k < i ==> bits(visited).contains(#[trigger] initials@[k] as int),
            decreases initials@.len() - i,
        {
            let x = initials[i];
            if !bs_contains(&visited, x) {
                let ghost q0 = queue@;
                let ghost vis0 = bits(visited);
                proof {
                    crate::reach::lemma_push_no_dup(q0, x);
                    crate::reach::lemma_ix_set_push(q0, x);
                }
                bs_insert(&mut visited, x);
                queue.push(x);
                proof {
                    assert(queue@ == q0.push(x));
                    assert(bits(visited) =~= ix_set(queue@));
                    crate::reach::lemma_distinct_bounded_len(queue@, n as int);
                    assert(initials@.map_values(|t: usize| t as int)[i as int] == x as int);
                    // Every previously visited node stays reachable within
                    // the enlarged set, and the initial node joins trivially.
                    assert forall|w: int| bits(visited).contains(
                        w,
                    ) implies crate::reach::reaches_from_filtered(
                        *g,
                        crate::reach::edges_within(*g, bits(visited)),
                        rev,
                        inits,
                        w,
                    ) by {
                        if w == x as int {
                            crate::reach::lemma_filtered_reach_init(
                                *g,
                                crate::reach::edges_within(*g, bits(visited)),
                                rev,
                                inits,
                                w,
                            );
                        } else {
                            assert(crate::reach::edges_within(*g, vis0).subset_of(
                                crate::reach::edges_within(*g, bits(visited)),
                            )) by {
                                assert forall|e2: int|
                                    crate::reach::edges_within(*g, vis0).contains(
                                    e2,
                                ) implies crate::reach::edges_within(*g, bits(visited)).contains(
                                    e2,
                                ) by {
                                    assert(bits(visited).contains(g.edges@[e2].from as int));
                                    assert(bits(visited).contains(g.edges@[e2].to as int));
                                }
                            }
                            crate::reach::lemma_filtered_reach_mono(
                                *g,
                                crate::reach::edges_within(*g, vis0),
                                crate::reach::edges_within(*g, bits(visited)),
                                rev,
                                inits,
                                w,
                            );
                        }
                    }
                }
            }
            i += 1;
        }
        let mut qpos: usize = 0;
        while qpos < queue.len()
            invariant
                query.graph.wf(),
                g == &query.graph.graph,
                n == g.node_count,
                initials@ == query.params.initials(),
                rev == query.params.is_reverse(),
                inits == ix_set(initials@),
                bit_capacity(visited) == n,
                bits(visited).finite(),
                queue@.no_duplicates(),
                bits(visited) =~= ix_set(queue@),
                qpos <= queue@.len(),
                queue@.len() <= n,
                forall|k: int| 0 <= k < queue@.len() ==> (#[trigger] queue@[k]) < n,
                forall|v: int|
                    bits(visited).contains(v) ==> crate::reach::reaches_from_filtered(
                        *g,
                        crate::reach::edges_within(*g, bits(visited)),
                        rev,
                        inits,
                        v,
                    ),
                forall|k: int|
                    0 <= k < initials@.len() ==> bits(visited).contains(
                        #[trigger] initials@[k] as int,
                    ),
            decreases n - qpos,
        {
            let u = queue[qpos];
            let row = if rev {
                &g.in_adj[u]
            } else {
                &g.out_adj[u]
            };
            let mut j: usize = 0;
            while j < row.len()
                invariant
                    query.graph.wf(),
                    g == &query.graph.graph,
                    n == g.node_count,
                    initials@ == query.params.initials(),
                    rev == query.params.is_reverse(),
                    inits == ix_set(initials@),
                    u < n,
                    qpos < queue@.len(),
                    queue@[qpos as int] == u,
                    row == if rev {
                        g.in_adj@[u as int]
                    } else {
                        g.out_adj@[u as int]
                    },
                    j <= row@.len(),
                    bit_capacity(visited) == n,
                    bits(visited).finite(),
                    queue@.no_duplicates(),
                    bits(visited) =~= ix_set(queue@),
                    queue@.len() <= n,
                    forall|k: int| 0 <= k < queue@.len() ==> (#[trigger] queue@[k]) < n,
                    forall|v: int|
                        bits(visited).contains(v) ==> crate::reach::reaches_from_filtered(
                            *g,
                            crate::reach::edges_within(*g, bits(visited)),
                            rev,
                            inits,
                            v,
                        ),
                    forall|k: int|
                        0 <= k < initials@.len() ==> bits(visited).contains(
                            #[trigger] initials@[k] as int,
                        ),
                decreases row@.len() - j,
            {
                let e = row[j];
                let li = g.edges[e].payload;
                let v = if rev {
                    g.edges[e].from
                } else {
                    g.edges[e].to
                };
                let follow = resolver.accept(&query, &query.graph.links[li]);
                if follow {
                    if !bs_contains(&visited, v) {
                        let ghost q0 = queue@;
                        let ghost vis0 = bits(visited);
                        proof {
                            crate::reach::lemma_push_no_dup(q0, v);
                            crate::reach::lemma_ix_set_push(q0, v);
                            assert(bits(visited).contains(u as int)) by {
                                let m = queue@.map_values(|t: usize| t as int);
                                assert(m[qpos as int] == u as int);
                                assert(m.to_set().contains(u as int));
                            }
                        }
                        bs_insert(&mut visited, v);
                        queue.push(v);
                        proof {
                            assert(queue@ == q0.push(v));
                            assert(bits(visited) =~= ix_set(queue@));
                            crate::reach::lemma_distinct_bounded_len(queue@, n as int);
                            assert(queue@[qpos as int] == u);
                            assert(bits(visited) == vis0.insert(v as int));
                            crate::reach::lemma_visit_step(
                                *g,
                                rev,
                                inits,
                                vis0,
                                u as int,
                                e as int,
                                v as int,
                            );
                        }
                    }
                }
                j += 1;
            }
            qpos += 1;
        }
        let ghost allowed = crate::reach::edges_within(*g, bits(visited));
        proof {
            assert(bits_wf(visited)) by {
                assert forall|v: int| bits(visited).contains(v) implies 0 <= v < bit_capacity(
                    visited,
                ) by {
                    let m = queue@.map_values(|t: usize| t as int);
                    let k = choose|k: int| 0 <= k < m.len() && #[trigger] m[k] == v;
                    assert(queue@[k] < n);
                }
            }
            // The visited set is exactly what the witnessed edges reach.
            assert forall|v: int|
                crate::reach::reaches_from_filtered(*g, allowed, rev, inits, v) implies bits(
                visited,
            ).contains(v) by {
                assert forall|i2: int|
                    inits.contains(i2) && 0 <= i2 < g.node_count implies bits(visited).contains(
                    i2,
                ) by {
                    let m = initials@.map_values(|t: usize| t as int);
                    let k = choose|k: int| 0 <= k < m.len() && #[trigger] m[k] == i2;
                    assert(initials@[k] as int == i2);
                }
                assert forall|x: int, w: int|
                    bits(visited).contains(x) && #[trigger] crate::reach::step_filtered(
                        *g,
                        allowed,
                        rev,
                        x,
                        w,
                    ) && 0 <= w < g.node_count implies bits(visited).contains(w) by {
                    let e2 = choose|e2: int|
                        0 <= e2 < g.edges@.len() && allowed.contains(e2) && (
                        #[trigger] g.edges@[e2]).from == (if rev {
                            w
                        } else {
                            x
                        }) && g.edges@[e2].to == (if rev {
                            x
                        } else {
                            w
                        });
                    assert(bits(visited).contains(g.edges@[e2].from as int));
                    assert(bits(visited).contains(g.edges@[e2].to as int));
                }
                crate::reach::lemma_filtered_reach_closed(*g, allowed, rev, inits, bits(visited), v);
            }
            assert(bits(visited) =~= crate::reach::reach_set_filtered(*g, allowed, rev, inits));
            assert forall|v: int| bits(visited).contains(v) implies reach_set(
                *g,
                rev,
                inits,
            ).contains(v) by {
                crate::reach::lemma_filtered_implies_full(*g, allowed, rev, inits, v);
            }
        }
        let core = ResolveCore::from_included(visited);
        let r = PackageSet { graph: query.graph, core };
        proof {
            assert(r.set() == crate::reach::reach_set_filtered(
                query.graph.graph,
                allowed,
                query.params.is_reverse(),
                ix_set(query.params.initials()),
            ));
        }
        r
    }

    /// Number of packages in this set.
    pub fn len(&self) -> (r: usize)
        ensures
            r == self.core.len,
    {
        self.core.len()
    }

    /// True if nothing was resolved.
    pub fn is_empty(&self) -> (r: bool)
        requires
            self.wf(),
        ensures
            r == (self.set() =~= Set::<int>::empty()),
    {
        self.core.is_empty()
    }

    /// Whether the package is in the set; `None` for an unknown identifier.
    pub fn contains(&self, package_id: &PackageId) -> (r: Option<bool>)
        requires
            self.wf(),
        ensures
            match r {
                Some(c) => self.graph.has_package(package_id@) && c == self.set().contains(
                    self.graph.package_ix_of(package_id@),
                ),
                None => !self.graph.has_package(package_id@),
            },
    {
        match self.graph.package_ix(package_id) {
            Some(p) => Some(self.core.contains(p)),
            None => None,
        }
    }

    /// The packages in either set. Both sets must be over the same graph.
    pub fn union(&self, other: &Self) -> (r: Self)
        requires
            self.wf(),
            other.wf(),
            self.graph == other.graph,
        ensures
            r.wf(),
            r.graph == self.graph,
            r.set() == self.set().union(other.set()),
    {
        let mut core = self.core.dup();
        core.union_with(&other.core);
        PackageSet { graph: self.graph, core }
    }

    /// The packages in both sets. Both sets must be over the same graph.
    pub fn intersection(&self, other: &Self) -> (r: Self)
        requires
            self.wf(),
            other.wf(),
            self.graph == other.graph,
        ensures
            r.wf(),
            r.graph == self.graph,
            r.set() == self.set().intersect(other.set()),
    {
        let mut core = self.core.dup();
        core.intersect_with(&other.core);
        PackageSet { graph: self.graph, core }
    }

    /// The packages in this set but not the other. Both sets must be over
    /// the same graph.
    pub fn difference(&self, other: &Self) -> (r: Self)
        requires
            self.wf(),
            other.wf(),
            self.graph == other.graph,
        ensures
            r.wf(),
            r.graph == self.graph,
            r.set() == self.set().difference(other.set()),
    {
        PackageSet { graph: self.graph, core: self.core.difference(&other.core) }
    }

    /// The packages in exactly one of the sets. Both sets must be over the
    /// same graph.
    pub fn symmetric_difference(&self, other: &Self) -> (r: Self)
        requires
            self.wf(),
            other.wf(),
            self.graph == other.graph,
        ensures
            r.wf(),
            r.graph == self.graph,
            r.set() == self.set().union(other.set()).difference(
                self.set().intersect(other.set()),
            ),
    {
        let mut core = self.core.dup();
        core.symmetric_difference_with(&other.core);
        PackageSet { graph: self.graph, core }
    }

    /// The included package indices in topological order.
    pub fn ixs(&self, direction: DependencyDirection) -> (t: Topo)
        requires
            self.wf(),
        ensures
            t.pos == 0,
            t.items@ == topo_items(self.graph.sccs, self.set(), direction.is_reverse()),
    {
        self.core.topo(&self.graph.sccs, direction)
    }

    /// The included package identifiers in topological order: for
    /// `Forward`, dependents come before their dependencies.
    pub fn package_ids(&self, direction: DependencyDirection) -> (r: Vec<PackageId>)
        requires
            self.wf(),
        ensures
            ({
                let items = topo_items(self.graph.sccs, self.set(), direction.is_reverse());
                &&& r@.len() == items.len()
                &&& forall|i: int|
                    0 <= i < items.len() ==> (#[trigger] r@[i])@ == self.graph.packages@[items[i] as int].id@
            }),
    {
        let mut t = self.core.topo(&self.graph.sccs, direction);
        let ghost items = t.items@;
        proof {
            crate::scc::lemma_order_props(self.graph.graph, self.graph.sccs);
            let ord = crate::resolve_core::ordered_nodes(self.graph.sccs, direction.is_reverse());
            assert forall|i: int|
                0 <= i < ord.len() ==> (#[trigger] ord[i]) < self.graph.packages@.len() by {}
            lemma_filter_all(
                ord,
                crate::resolve_core::incl_pred(self.set()),
                |x: usize| x < self.graph.packages@.len(),
            );
        }
        let mut r: Vec<PackageId> = Vec::new();
        let mut k = t.len();
        while k > 0
            invariant
                self.wf(),
                t.items@ == items,
                t.pos <= items.len(),
                k == items.len() - t.pos,
                forall|i: int|
                    0 <= i < items.len() ==> (#[trigger] items[i]) < self.graph.packages@.len(),
                r@.len() == t.pos,
                forall|i: int|
                    0 <= i < t.pos ==> (#[trigger] r@[i])@ == self.graph.packages@[items[i] as int].id@,
            decreases k,
        {
            match t.next() {
                Some(ix) => {
                    r.push(self.graph.packages[ix].id.dup());
                },
                None => {
                },
            }
            k -= 1;
        }
        r
    }

    /// The included package metadatas in topological order.
    pub fn packages(&self, direction: DependencyDirection) -> (r: Vec<&'g PackageMetadata>)
        requires
            self.wf(),
        ensures
            ({
                let items = topo_items(self.graph.sccs, self.set(), direction.is_reverse());
                &&& r@.len() == items.len()
                &&& forall|i: int|
                    0 <= i < items.len() ==> *(#[trigger] r@[i]) == self.graph.packages@[items[i] as int]
            }),
    {
        let mut t = self.core.topo(&self.graph.sccs, direction);
        let ghost items = t.items@;
        proof {
            crate::scc::lemma_order_props(self.graph.graph, self.graph.sccs);
            let ord = crate::resolve_core::ordered_nodes(self.graph.sccs, direction.is_reverse());
            assert forall|i: int|
                0 <= i < ord.len() ==> (#[trigger] ord[i]) < self.graph.packages@.len() by {}
            lemma_filter_all(
                ord,
                crate::resolve_core::incl_pred(self.set()),
                |x: usize| x < self.graph.packages@.len(),
            );
        }
        let mut r: Vec<&'g PackageMetadata> = Vec::new();
        let mut k = t.len();
        while k > 0
            invariant
                self.wf(),
                t.items@ == items,
                t.pos <= items.len(),
                k == items.len() - t.pos,
                forall|i: int|
                    0 <= i < items.len() ==> (#[trigger] items[i]) < self.graph.packages@.len(),
                r@.len() == t.pos,
                forall|i: int|
                    0 <= i < t.pos ==> *(#[trigger] r@[i]) == self.graph.packages@[items[i] as int],
            decreases k,
        {
            match t.next() {
                Some(ix) => {
                    r.push(&self.graph.packages[ix]);
                },
                None => {
                },
            }
            k -= 1;
        }
        r
    }

    /// The included root packages' metadatas, under the direction's
    /// orientation.
    pub fn root_packages(&self, direction: DependencyDirection) -> (r: Vec<&'g PackageMetadata>)
        requires
            self.wf(),
        ensures
            exists|ixs2: Seq<usize>| #[trigger] root_pkgs_witness(*self, direction, r@, ixs2),
    {
        let ixs = self.core.roots(&self.graph.graph, &self.graph.sccs, direction);
        let mut r: Vec<&'g PackageMetadata> = Vec::new();
        let mut k: usize = 0;
        while k < ixs.len()
            invariant
                self.wf(),
                k <= ixs@.len(),
                r@.len() == k,
                forall|i: int|
                    0 <= i < ixs@.len() ==> self.set().contains((#[trigger] ixs@[i]) as int),
                forall|i: int|
                    0 <= i < k ==> *(#[trigger] r@[i]) == self.graph.packages@[ixs@[i] as int],
            decreases ixs@.len() - k,
        {
            let ix = ixs[k];
            proof {
                assert(self.set().contains(ix as int));
            }
            r.push(&self.graph.packages[ix]);
            k += 1;
        }
        proof {
            assert(root_pkgs_witness(*self, direction, r@, ixs@));
        }
        r
    }

    /// The included root packages' identifiers: members of components that
    /// no included edge enters, under the direction's orientation.
    pub fn root_ids(&self, direction: DependencyDirection) -> (r: Vec<PackageId>)
        requires
            self.wf(),
        ensures
            exists|ixs2: Seq<usize>| #[trigger] root_ids_witness(*self, direction, r@, ixs2),
    {
        let ixs = self.core.roots(&self.graph.graph, &self.graph.sccs, direction);
        let mut r: Vec<PackageId> = Vec::new();
        let mut k: usize = 0;
        while k < ixs.len()
            invariant
                self.wf(),
                k <= ixs@.len(),
                r@.len() == k,
                forall|i: int|
                    0 <= i < ixs@.len() ==> self.set().contains((#[trigger] ixs@[i]) as int),
                forall|i: int|
                    0 <= i < k ==> (#[trigger] r@[i])@ == self.graph.packages@[ixs@[i] as int].id@,
            decreases ixs@.len() - k,
        {
            let ix = ixs[k];
            proof {
                assert(self.set().contains(ix as int));
            }
            r.push(self.graph.packages[ix].id.dup());
            k += 1;
        }
        proof {
            assert(root_ids_witness(*self, direction, r@, ixs@));
        }
        r
    }

    /// The included links in topological order: triples of the depending
    /// package, the dependency, and the link itself, grouped by the
    /// direction's node order.
    pub fn links(&self, direction: DependencyDirection) -> (r: Vec<(usize, usize, usize)>)
        requires
            self.wf(),
        ensures
            r@.map_values(|t: (usize, usize, usize)| (t.0 as int, t.1 as int, t.2 as int))
                == links_seq(
                self.graph.graph,
                self.graph.sccs,
                self.set(),
                direction.is_reverse(),
            ),
            forall|i: int|
                0 <= i < r@.len() ==> (#[trigger] r@[i]).2 < self.graph.links@.len()
                    && self.graph.links@[r@[i].2 as int].from == r@[i].0
                    && self.graph.links@[r@[i].2 as int].to == r@[i].1,
            forall|i: int, j: int|
                0 <= i < r@.len() && 0 <= j < r@.len() && i != j ==> (#[trigger] r@[i]).2 != (
                #[trigger] r@[j]).2,
    {
        let triples = self.core.links(&self.graph.graph, &self.graph.sccs, direction);
        proof {
            lemma_links_are_links(
                self.graph.graph,
                self.graph.sccs,
                self.set(),
                direction.is_reverse(),
                triples@,
                *self.graph,
            );
        }
        triples
    }
}

/// Every triple the edge iteration yields is an edge of the arena, whose
/// index is its link index.
proof fn lemma_links_are_links(
    g: crate::digraph::DiGraph<usize>,
    sccs: crate::scc::Sccs,
    included: Set<int>,
    rev: bool,
    triples: Seq<(usize, usize, usize)>,
    pg: PackageGraph,
)
    requires
        pg.wf(),
        g == pg.graph,
        sccs == pg.sccs,
        triples.map_values(crate::resolve_core::widen_triple()) == links_seq(
            g,
            sccs,
            included,
            rev,
        ),
    ensures
        forall|i: int|
            0 <= i < triples.len() ==> (#[trigger] triples[i]).2 < pg.links@.len()
                && pg.links@[triples[i].2 as int].from == triples[i].0
                && pg.links@[triples[i].2 as int].to == triples[i].1,
{
    let f = crate::resolve_core::widen_triple();
    let m = triples.map_values(f);
    let rows = crate::resolve_core::ordered_nodes(sccs, rev).map_values(
        crate::resolve_core::emitter(g, included, rev),
    );
    crate::scc::lemma_order_props(g, sccs);
    assert forall|rr: int, k: int|
        0 <= rr < rows.len() && 0 <= k < rows[rr].len() implies triple_valid(
        pg,
        #[trigger] rows[rr][k],
    ) by {
        let u = crate::resolve_core::ordered_nodes(sccs, rev)[rr];
        assert(u < g.node_count);
        lemma_emitted_valid(g, included, rev, u as int, pg);
        assert(rows[rr] == crate::resolve_core::emitted_for(g, included, rev, u as int));
    }
    assert forall|i: int|
        0 <= i < triples.len() implies (#[trigger] triples[i]).2 < pg.links@.len()
        && pg.links@[triples[i].2 as int].from == triples[i].0 && pg.links@[triples[i].2 as int].to
        == triples[i].1 by {
        assert(m[i] == f(triples[i]));
        lemma_flatten_triple(g, included, rev, rows, i, pg);
        assert(rows.flatten()[i] == m[i]);
    }
}

/// Elements of one node's contribution are valid edge triples.
proof fn lemma_emitted_valid(
    g: crate::digraph::DiGraph<usize>,
    included: Set<int>,
    rev: bool,
    u: int,
    pg: PackageGraph,
)
    requires
        pg.wf(),
        g == pg.graph,
        0 <= u < g.node_count,
    ensures
        forall|k: int|
            0 <= k < crate::resolve_core::emitted_for(g, included, rev, u).len() ==> triple_valid(
                pg,
                #[trigger] crate::resolve_core::emitted_for(g, included, rev, u)[k],
            ),
{
    let row = if rev {
        g.in_adj@[u]@
    } else {
        g.out_adj@[u]@
    };
    let mapped = row.map_values(crate::resolve_core::triple_of(g));
    assert forall|k: int| 0 <= k < mapped.len() implies triple_valid(pg, #[trigger] mapped[k]) by {
        let e = row[k];
        assert(e < g.edges@.len());
        assert(pg.graph.edges@[e as int].from == pg.links@[e as int].from);
    }
    lemma_filter_all(mapped, crate::resolve_core::triple_pred(included), |t: (int, int, int)| triple_valid(pg, t));
}

/// Filtering keeps any property every element has.
proof fn lemma_filter_all<A>(s: Seq<A>, pred: spec_fn(A) -> bool, p: spec_fn(A) -> bool)
    requires
        forall|k: int| 0 <= k < s.len() ==> p(#[trigger] s[k]),
    ensures
        forall|k: int| 0 <= k < s.filter(pred).len() ==> p(#[trigger] s.filter(pred)[k]),
    decreases s.len(),
{
    if s.len() != 0 {
        assert forall|k: int| 0 <= k < s.drop_last().len() implies p(#[trigger] s.drop_last()[k]) by {
            assert(s.drop_last()[k] == s[k]);
        }
        lemma_filter_all(s.drop_last(), pred, p);
        reveal_with_fuel(Seq::filter, 2);
        assert forall|k: int| 0 <= k < s.filter(pred).len() implies p(#[trigger] s.filter(pred)[k]) by {
            if pred(s.last()) {
                assert(s.filter(pred) == s.drop_last().filter(pred).push(s.last()));
            } else {
                assert(s.filter(pred) == s.drop_last().filter(pred));
            }
        }
    }
}

/// Every element of the flattened per-node rows is a valid edge triple.
proof fn lemma_flatten_triple(
    g: crate::digraph::DiGraph<usize>,
    included: Set<int>,
    rev: bool,
    rows: Seq<Seq<(int, int, int)>>,
    i: int,
    pg: PackageGraph,
)
    requires
        pg.wf(),
        g == pg.graph,
        forall|r: int, k: int|
            0 <= r < rows.len() && 0 <= k < rows[r].len() ==> triple_valid(
                pg,
                #[trigger] rows[r][k],
            ),
        0 <= i < rows.flatten().len(),
    ensures
        triple_valid(pg, rows.flatten()[i]),
    decreases rows.len(),
{
    let rest = rows.drop_first();
    assert(rows.flatten() == rows.first() + rest.flatten());
    if i < rows.first().len() {
        assert(rows.flatten()[i] == rows[0][i]);
    } else {
        assert forall|r: int, k: int|
            0 <= r < rest.len() && 0 <= k < rest[r].len() implies triple_valid(
            pg,
            #[trigger] rest[r][k],
        ) by {
            assert(rest[r] == rows[r + 1]);
        }
        lemma_flatten_triple(g, included, rev, rest, i - rows.first().len(), pg);
        assert(rows.flatten()[i] == rest.flatten()[i - rows.first().len()]);
    }
}

/// The identifiers in `r` name exactly the root indices `ixs2`: the
/// included members of components that no included edge enters under the
/// direction's orientation.
pub open spec fn root_ids_witness(
    ps: PackageSet,
    direction: DependencyDirection,
    r: Seq<PackageId>,
    ixs2: Seq<usize>,
) -> bool {
    &&& ixs2.no_duplicates()
    &&& r.len() == ixs2.len()
    &&& forall|i: int|
        0 <= i < ixs2.len() ==> (#[trigger] r[i])@ == ps.graph.packages@[ixs2[i] as int].id@
    &&& forall|i: int, j: int|
        0 <= i < j < ixs2.len() ==> ps.graph.sccs.group_of@[(#[trigger] ixs2[i]) as int]
            < ps.graph.sccs.group_of@[(#[trigger] ixs2[j]) as int] || (ps.graph.sccs.group_of@[
        ixs2[i] as int] == ps.graph.sccs.group_of@[ixs2[j] as int] && ixs2[i] < ixs2[j])
    &&& forall|v: int|
        0 <= v < ps.graph.packages@.len() ==> (#[trigger] crate::scc::seq_has(ixs2, v as usize)
            <==> (ps.set().contains(v) && !group_blocked(
            ps.graph.graph,
            ps.graph.sccs,
            ps.set(),
            ps.graph.sccs.group_of@[v] as int,
            direction.is_reverse(),
        )))
}

/// The metadatas in `r` name exactly the root indices `ixs2`.
pub open spec fn root_pkgs_witness(
    ps: PackageSet,
    direction: DependencyDirection,
    r: Seq<&PackageMetadata>,
    ixs2: Seq<usize>,
) -> bool {
    &&& ixs2.no_duplicates()
    &&& r.len() == ixs2.len()
    &&& forall|i: int|
        0 <= i < ixs2.len() ==> *(#[trigger] r[i]) == ps.graph.packages@[ixs2[i] as int]
    &&& forall|i: int, j: int|
        0 <= i < j < ixs2.len() ==> ps.graph.sccs.group_of@[(#[trigger] ixs2[i]) as int]
            < ps.graph.sccs.group_of@[(#[trigger] ixs2[j]) as int] || (ps.graph.sccs.group_of@[
        ixs2[i] as int] == ps.graph.sccs.group_of@[ixs2[j] as int] && ixs2[i] < ixs2[j])
    &&& forall|v: int|
        0 <= v < ps.graph.packages@.len() ==> (#[trigger] crate::scc::seq_has(ixs2, v as usize)
            <==> (ps.set().contains(v) && !group_blocked(
            ps.graph.graph,
            ps.graph.sccs,
            ps.set(),
            ps.graph.sccs.group_of@[v] as int,
            direction.is_reverse(),
        )))
}

/// The triple names an arena edge with matching endpoints and link index.
pub open spec fn triple_valid(pg: PackageGraph, t: (int, int, int)) -> bool {
    &&& 0 <= t.2 < pg.links@.len()
    &&& pg.links@[t.2].from == t.0
    &&& pg.links@[t.2].to == t.1
}

} // verus!
